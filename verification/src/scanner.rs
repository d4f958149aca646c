use vstd::prelude::*;
use vstd::utf8::*;
use vstd::string::StringSliceAdditionalSpecFns;
use crate::error::{ErrorKind, ErrorView, Halt, Lox, report};
use crate::token::{LitView, Literal, Token, TokenType, TokenView};
use crate::text::push_char;

verus! {

// ---------------------------------------------------------------------------
// Lexical specification over the UTF-8 bytes of the source
// ---------------------------------------------------------------------------

pub open spec fn is_digit(b: u8) -> bool {
    ('0' as u8) <= b <= ('9' as u8)
}

pub open spec fn is_alpha(b: u8) -> bool {
    (('a' as u8) <= b <= ('z' as u8)) || (('A' as u8) <= b <= ('Z' as u8))
}

/// First index at or after `i` that is not a digit (or the end).
pub open spec fn skip_digits(s: Seq<u8>, i: int) -> int
    decreases s.len() - i,
{
    if 0 <= i < s.len() && is_digit(s[i]) {
        skip_digits(s, i + 1)
    } else {
        i
    }
}

/// First index at or after `i` that is neither a letter nor a digit (or the end).
pub open spec fn skip_word(s: Seq<u8>, i: int) -> int
    decreases s.len() - i,
{
    if 0 <= i < s.len() && (is_alpha(s[i]) || is_digit(s[i])) {
        skip_word(s, i + 1)
    } else {
        i
    }
}

/// First index at or after `i` that holds byte `b` (or the end).
pub open spec fn find_byte(s: Seq<u8>, i: int, b: u8) -> int
    decreases s.len() - i,
{
    if 0 <= i < s.len() && s[i] != b {
        find_byte(s, i + 1, b)
    } else {
        i
    }
}

/// Number of occurrences of byte `b` in `s[i..j]`.
pub open spec fn count_byte(s: Seq<u8>, i: int, j: int, b: u8) -> nat
    decreases j - i,
{
    if i < j {
        count_byte(s, i, j - 1, b) + (if s[j - 1] == b { 1nat } else { 0nat })
    } else {
        0
    }
}

/// Slicing `s[a..b]` of the source string succeeds (Rust's `str` indexing
/// panics otherwise).
pub open spec fn slice_ok(s: Seq<u8>, a: int, b: int) -> bool {
    &&& 0 <= a <= b <= s.len()
    &&& is_char_boundary(s, a)
    &&& is_char_boundary(s, b)
}

/// The characters of `s[a..b]`.
pub open spec fn text(s: Seq<u8>, a: int, b: int) -> Seq<char> {
    decode_utf8(s.subrange(a, b))
}

/// The reserved words and the token types they scan to.
pub open spec fn keyword_table() -> Seq<(Seq<char>, TokenType)> {
    seq![
        ("and"@, TokenType::And),
        ("class"@, TokenType::Class),
        ("else"@, TokenType::Else),
        ("false"@, TokenType::False),
        ("for"@, TokenType::For),
        ("fun"@, TokenType::Fun),
        ("if"@, TokenType::If),
        ("nil"@, TokenType::Nil),
        ("or"@, TokenType::Or),
        ("print"@, TokenType::Print),
        ("return"@, TokenType::Return),
        ("super"@, TokenType::Super),
        ("this"@, TokenType::This),
        ("true"@, TokenType::True),
        ("var"@, TokenType::Var),
        ("while"@, TokenType::While),
    ]
}

/// The keyword type of word `w` in `table[i..]`, if any.
pub open spec fn keyword_from(table: Seq<(Seq<char>, TokenType)>, w: Seq<char>, i: int) -> Option<TokenType>
    decreases table.len() - i,
{
    if i < 0 || i >= table.len() {
        None
    } else if table[i].0 == w {
        Some(table[i].1)
    } else {
        keyword_from(table, w, i + 1)
    }
}

/// The keyword type of word `w`, if `w` is a reserved word.
pub open spec fn keyword_of(w: Seq<char>) -> Option<TokenType> {
    keyword_from(keyword_table(), w, 0)
}

/// The token type of a single-character token, if `c` is one.
pub open spec fn single_token(c: u8) -> Option<TokenType> {
    if c == ('(' as u8) { Some(TokenType::LeftParen) }
    else if c == (')' as u8) { Some(TokenType::RightParen) }
    else if c == ('{' as u8) { Some(TokenType::LeftBrace) }
    else if c == ('}' as u8) { Some(TokenType::RightBrace) }
    else if c == (',' as u8) { Some(TokenType::Comma) }
    else if c == ('.' as u8) { Some(TokenType::Dot) }
    else if c == ('-' as u8) { Some(TokenType::Minus) }
    else if c == ('+' as u8) { Some(TokenType::Plus) }
    else if c == (';' as u8) { Some(TokenType::Semicolon) }
    else if c == ('*' as u8) { Some(TokenType::Star) }
    else { None }
}

/// For a character that may be followed by `=`: the one- and two-character
/// token types.
pub open spec fn paired_token(c: u8) -> Option<(TokenType, TokenType)> {
    if c == ('>' as u8) { Some((TokenType::Greater, TokenType::GreaterEqual)) }
    else if c == ('<' as u8) { Some((TokenType::Less, TokenType::LessEqual)) }
    else if c == ('!' as u8) { Some((TokenType::Bang, TokenType::BangEqual)) }
    else if c == ('=' as u8) { Some((TokenType::Equal, TokenType::EqualEqual)) }
    else { None }
}

/// The scanner's state: position, line, the tokens and errors so far.
#[verifier::ext_equal]
pub struct ScanState {
    pub pos: int,
    pub line: int,
    pub tokens: Seq<TokenView>,
    pub had_error: bool,
    pub errors: Seq<ErrorView>,
}

/// Result of one scanning step.
pub enum ScanStep {
    Next(ScanState),
    Panic,
}

/// Result of scanning to the end.
pub enum ScanOutcome {
    Done(ScanState),
    Panic,
}

/// Adds the token `s[a..b]` of type `tt` (the position becomes `b`).
pub open spec fn emit(s: Seq<u8>, st: ScanState, tt: TokenType, a: int, b: int, lit: LitView) -> ScanStep {
    if slice_ok(s, a, b) {
        ScanStep::Next(ScanState {
            pos: b,
            line: st.line,
            tokens: st.tokens.push(
                TokenView { token_type: tt, lexeme: text(s, a, b), literal: Some(lit), line: st.line as nat },
            ),
            had_error: st.had_error,
            errors: st.errors,
        })
    } else {
        ScanStep::Panic
    }
}

/// Reports an error at the current line and column `col`; the scan stops
/// (`Panic`) when either number does not fit in a `u32`.
pub open spec fn located_error(st: ScanState, msg: Seq<char>, col: int) -> ScanStep {
    if st.line > u32::MAX || col > u32::MAX {
        ScanStep::Panic
    } else {
        ScanStep::Next(ScanState {
            pos: st.pos,
            line: st.line,
            tokens: st.tokens,
            had_error: true,
            errors: st.errors.push(
                ErrorView::WithLocation { message: msg, line: st.line as u32, col: Some(col as u32) },
            ),
        })
    }
}

pub open spec fn with_pos(st: ScanState, pos: int) -> ScanState {
    ScanState { pos, line: st.line, tokens: st.tokens, had_error: st.had_error, errors: st.errors }
}

/// A character that may be followed by `=` starts at `p`; `at.pos == p + 1`.
/// With an `=` after it, the two form one token; otherwise the character is
/// a token of its own.
pub open spec fn paired_step(s: Seq<u8>, at: ScanState, p: int, one: TokenType, two: TokenType) -> ScanStep {
    let cur = at.pos;
    if cur < s.len() && s[cur] == ('=' as u8) {
        emit(s, at, two, p, cur + 1, LitView::Nil)
    } else {
        emit(s, at, one, p, cur, LitView::Nil)
    }
}

/// A string literal opens at `p`; `at.pos == p + 1`.  It runs to the next
/// `"`, which closes it: its value is the text between the quotes and its
/// lexeme includes both.  Without a closing quote an error is reported at
/// the end, and the literal's value is the text after the opening quote but
/// for its last byte.
pub open spec fn string_step(s: Seq<u8>, at: ScanState, p: int) -> ScanStep {
    let j = find_byte(s, at.pos, ('"' as u8));
    let end = if j < s.len() { j + 1 } else { j };
    let st1 = ScanState {
        pos: end,
        line: at.line + count_byte(s, at.pos, j, ('\n' as u8)),
        tokens: at.tokens,
        had_error: at.had_error,
        errors: at.errors,
    };
    let st2 = if j >= s.len() {
        located_error(st1, "unterminated string literal"@, j)
    } else {
        ScanStep::Next(st1)
    };
    match st2 {
        ScanStep::Panic => ScanStep::Panic,
        ScanStep::Next(st3) => if slice_ok(s, p + 1, end - 1) {
            emit(s, st3, TokenType::String, p, end, LitView::Str(text(s, p + 1, end - 1)))
        } else {
            ScanStep::Panic
        },
    }
}

/// End of a number literal whose digits start at `p`: digits, then a
/// fractional part if a `.` is followed by a digit.
pub open spec fn number_end(s: Seq<u8>, p: int) -> int {
    let k = skip_digits(s, p);
    if k + 1 < s.len() && s[k] == ('.' as u8) && is_digit(s[k + 1]) {
        skip_digits(s, k + 1)
    } else {
        k
    }
}

/// A number literal starts at `p`; `at.pos == p + 1`.
pub open spec fn number_step(s: Seq<u8>, at: ScanState, p: int) -> ScanStep {
    let end = number_end(s, at.pos);
    emit(s, at, TokenType::Number, p, end, LitView::Num(text(s, p, end)))
}

/// The token type of a word: its keyword type, or `Identifier`.
pub open spec fn word_type(w: Seq<char>) -> TokenType {
    match keyword_of(w) {
        Some(t) => t,
        None => TokenType::Identifier,
    }
}

/// A word starts at `p`; `at.pos == p + 1`.
pub open spec fn word_step(s: Seq<u8>, at: ScanState, p: int) -> ScanStep {
    let k = skip_word(s, at.pos);
    if slice_ok(s, p, k) {
        emit(s, at, word_type(text(s, p, k)), p, k, LitView::Nil)
    } else {
        ScanStep::Panic
    }
}

/// One step of the scanner from position `st.pos < s.len()`.
pub open spec fn step(s: Seq<u8>, st: ScanState) -> ScanStep {
    let p = st.pos;
    let c = s[p];
    let cur = p + 1;
    let at = with_pos(st, cur);
    if single_token(c) is Some {
        emit(s, at, single_token(c)->0, p, cur, LitView::Nil)
    } else if paired_token(c) is Some {
        paired_step(s, at, p, (paired_token(c)->0).0, (paired_token(c)->0).1)
    } else if c == ('/' as u8) {
        if cur < s.len() && s[cur] == ('/' as u8) {
            ScanStep::Next(with_pos(st, find_byte(s, cur, ('\n' as u8))))
        } else {
            emit(s, at, TokenType::Slash, p, cur, LitView::Nil)
        }
    } else if c == (' ' as u8) || c == ('\r' as u8) || c == ('\t' as u8) {
        ScanStep::Next(at)
    } else if c == ('\n' as u8) {
        ScanStep::Next(ScanState { pos: cur, line: st.line + 1, tokens: st.tokens, had_error: st.had_error, errors: st.errors })
    } else if c == ('"' as u8) {
        string_step(s, at, p)
    } else if is_digit(c) {
        number_step(s, at, p)
    } else if is_alpha(c) {
        word_step(s, at, p)
    } else {
        let flagged = ScanState { pos: cur, line: st.line, tokens: st.tokens, had_error: true, errors: st.errors };
        located_error(flagged, "unexpected token "@.push(c as char), cur)
    }
}

/// The token that ends every scan.
pub open spec fn eof_token(line: int) -> TokenView {
    TokenView { token_type: TokenType::Eof, lexeme: Seq::empty(), literal: Some(LitView::Nil), line: line as nat }
}

/// Scanning from `st` to the end of `s`, then adding the end-of-file token.
pub open spec fn scan_from(s: Seq<u8>, st: ScanState) -> ScanOutcome
    decreases s.len() - st.pos,
{
    if st.pos < 0 || st.pos >= s.len() {
        ScanOutcome::Done(ScanState {
            pos: st.pos,
            line: st.line,
            tokens: st.tokens.push(eof_token(st.line)),
            had_error: st.had_error,
            errors: st.errors,
        })
    } else {
        match step(s, st) {
            ScanStep::Panic => ScanOutcome::Panic,
            ScanStep::Next(st2) => if st.pos < st2.pos <= s.len() {
                scan_from(s, st2)
            } else {
                ScanOutcome::Panic
            },
        }
    }
}

} // verus!

verus! {

// ---------------------------------------------------------------------------
// Executable scanner
// ---------------------------------------------------------------------------

/// Views of a sequence of tokens.
pub open spec fn token_views(ts: Seq<Token>) -> Seq<TokenView> {
    ts.map_values(|t: Token| t@)
}

proof fn lemma_prefix_boundary(s: Seq<u8>, a: int, b: int)
    requires
        valid_utf8(s),
        0 <= a <= b <= s.len(),
        is_char_boundary(s, a),
        is_char_boundary(s, b),
    ensures
        is_char_boundary(s.subrange(0, b), a),
{
    broadcast use group_utf8_lib;

    let pre = s.subrange(0, b);
    valid_utf8_split(s, b);
    if a < b {
        is_char_boundary_iff_not_is_continuation_byte(s, a);
        is_char_boundary_iff_not_is_continuation_byte(pre, a);
        assert(pre[a] == s[a]);
    } else {
        is_char_boundary_start_end_of_seq(pre);
    }
}

/// `src[a..b]` as an owned string, or `None` where that slicing panics.
fn substring(src: &str, a: usize, b: usize) -> (r: Option<String>)
    requires
        src.spec_bytes().len() < usize::MAX,
    ensures
        r is Some <==> slice_ok(src.spec_bytes(), a as int, b as int),
        r matches Some(t) ==> t@ == text(src.spec_bytes(), a as int, b as int),
{
    broadcast use group_utf8_lib;

    if a > b || b > src.len() {
        return None;
    }
    if !src.is_char_boundary(a) || !src.is_char_boundary(b) {
        return None;
    }
    proof {
        lemma_prefix_boundary(src.spec_bytes(), a as int, b as int);
    }
    let (pre, _) = src.split_at(b);
    let (_, piece) = pre.split_at(a);
    assert(piece.spec_bytes() =~= src.spec_bytes().subrange(a as int, b as int));
    Some(piece.to_owned())
}

fn exec_skip_digits(s: &[u8], i: usize) -> (k: usize)
    requires
        i <= s@.len(),
    ensures
        k == skip_digits(s@, i as int),
        i <= k <= s@.len(),
{
    let mut k = i;
    while k < s.len() && '0' as u8 <= s[k] && s[k] <= '9' as u8
        invariant
            i <= k <= s@.len(),
            skip_digits(s@, k as int) == skip_digits(s@, i as int),
        decreases s@.len() - k,
    {
        k = k + 1;
    }
    k
}

fn exec_skip_word(s: &[u8], i: usize) -> (k: usize)
    requires
        i <= s@.len(),
    ensures
        k == skip_word(s@, i as int),
        i <= k <= s@.len(),
{
    let mut k = i;
    while k < s.len() && (('a' as u8 <= s[k] && s[k] <= 'z' as u8) || ('A' as u8 <= s[k] && s[k] <= 'Z' as u8)
        || ('0' as u8 <= s[k] && s[k] <= '9' as u8))
        invariant
            i <= k <= s@.len(),
            skip_word(s@, k as int) == skip_word(s@, i as int),
        decreases s@.len() - k,
    {
        k = k + 1;
    }
    k
}

fn exec_find_byte(s: &[u8], i: usize, b: u8) -> (k: usize)
    requires
        i <= s@.len(),
    ensures
        k == find_byte(s@, i as int, b),
        i <= k <= s@.len(),
{
    let mut k = i;
    while k < s.len() && s[k] != b
        invariant
            i <= k <= s@.len(),
            find_byte(s@, k as int, b) == find_byte(s@, i as int, b),
        decreases s@.len() - k,
    {
        k = k + 1;
    }
    k
}

/// Scans the body of a string literal from `i`: the index of the closing
/// quote (or the end) and the line number after the newlines passed.
fn exec_string_body(s: &[u8], i: usize, line: usize) -> (r: (usize, usize))
    requires
        i <= s@.len() < usize::MAX,
        line <= i + 1,
    ensures
        r.0 == find_byte(s@, i as int, '"' as u8),
        r.1 == line + count_byte(s@, i as int, r.0 as int, '\n' as u8),
        i <= r.0 <= s@.len(),
        r.1 <= r.0 + 1,
{
    let mut k = i;
    let mut l = line;
    while k < s.len() && s[k] != '"' as u8
        invariant
            i <= k <= s@.len() < usize::MAX,
            find_byte(s@, k as int, '"' as u8) == find_byte(s@, i as int, '"' as u8),
            l == line + count_byte(s@, i as int, k as int, '\n' as u8),
            l <= k + 1,
        decreases s@.len() - k,
    {
        if s[k] == '\n' as u8 {
            l = l + 1;
        }
        k = k + 1;
    }
    (k, l)
}

fn exec_single_token(c: u8) -> (r: Option<TokenType>)
    ensures
        r == single_token(c),
{
    if c == '(' as u8 { Some(TokenType::LeftParen) }
    else if c == ')' as u8 { Some(TokenType::RightParen) }
    else if c == '{' as u8 { Some(TokenType::LeftBrace) }
    else if c == '}' as u8 { Some(TokenType::RightBrace) }
    else if c == ',' as u8 { Some(TokenType::Comma) }
    else if c == '.' as u8 { Some(TokenType::Dot) }
    else if c == '-' as u8 { Some(TokenType::Minus) }
    else if c == '+' as u8 { Some(TokenType::Plus) }
    else if c == ';' as u8 { Some(TokenType::Semicolon) }
    else if c == '*' as u8 { Some(TokenType::Star) }
    else { None }
}

fn exec_paired_token(c: u8) -> (r: Option<(TokenType, TokenType)>)
    ensures
        r == paired_token(c),
{
    if c == '>' as u8 { Some((TokenType::Greater, TokenType::GreaterEqual)) }
    else if c == '<' as u8 { Some((TokenType::Less, TokenType::LessEqual)) }
    else if c == '!' as u8 { Some((TokenType::Bang, TokenType::BangEqual)) }
    else if c == '=' as u8 { Some((TokenType::Equal, TokenType::EqualEqual)) }
    else { None }
}

/// Turns source text into tokens.
pub struct Scanner {
    pub source: String,
    pub tokens: Vec<Token>,
    pub start: usize,
    pub current: usize,
    pub line: usize,
    pub keywords: Vec<(String, TokenType)>,
}

impl Scanner {
    /// The UTF-8 bytes of the source.
    pub open spec fn bytes(&self) -> Seq<u8> {
        encode_utf8(self.source@)
    }

    /// The index of the next byte to scan.
    pub open spec fn position(&self) -> int {
        self.current as int
    }

    /// The current line number.
    pub open spec fn line_no(&self) -> int {
        self.line as int
    }

    /// The scanner and error state as a whole.
    pub open spec fn state(&self, lox: &Lox) -> ScanState {
        ScanState {
            pos: self.position(),
            line: self.line_no(),
            tokens: token_views(self.tokens@),
            had_error: lox.had_error,
            errors: lox.errors(),
        }
    }

    pub open spec fn inv(&self, slack: int) -> bool {
        &&& self.start <= self.current <= self.bytes().len() + slack
        &&& self.bytes().len() < usize::MAX
        &&& 1 <= self.line <= self.current + 1
        &&& self.keywords@.len() == keyword_table().len()
        &&& forall|i: int|
            0 <= i < self.keywords@.len() ==> (#[trigger] self.keywords@[i]).0@ == keyword_table()[i].0
                && self.keywords@[i].1 == keyword_table()[i].1
    }

    /// Well-formedness: positions within the source, a line number no
    /// greater than the bytes read plus one, and the keyword table in place.
    pub open spec fn wf(&self) -> bool {
        self.inv(0)
    }

    pub fn init(source: String) -> (r: Scanner)
        ensures
            r.bytes() == encode_utf8(source@),
            r.position() == 0,
            r.line_no() == 1,
            r.tokens@ == Seq::<Token>::empty(),
            encode_utf8(source@).len() < usize::MAX ==> r.wf(),
    {
        let mut keywords: Vec<(String, TokenType)> = Vec::new();
        keywords.push(("and".to_owned(), TokenType::And));
        keywords.push(("class".to_owned(), TokenType::Class));
        keywords.push(("else".to_owned(), TokenType::Else));
        keywords.push(("false".to_owned(), TokenType::False));
        keywords.push(("for".to_owned(), TokenType::For));
        keywords.push(("fun".to_owned(), TokenType::Fun));
        keywords.push(("if".to_owned(), TokenType::If));
        keywords.push(("nil".to_owned(), TokenType::Nil));
        keywords.push(("or".to_owned(), TokenType::Or));
        keywords.push(("print".to_owned(), TokenType::Print));
        keywords.push(("return".to_owned(), TokenType::Return));
        keywords.push(("super".to_owned(), TokenType::Super));
        keywords.push(("this".to_owned(), TokenType::This));
        keywords.push(("true".to_owned(), TokenType::True));
        keywords.push(("var".to_owned(), TokenType::Var));
        keywords.push(("while".to_owned(), TokenType::While));
        let r = Scanner { source, tokens: Vec::new(), start: 0, current: 0, line: 1, keywords };
        assert forall|i: int| 0 <= i < r.keywords@.len() implies (#[trigger] r.keywords@[i]).0@
            == keyword_table()[i].0 && r.keywords@[i].1 == keyword_table()[i].1 by {}
        r
    }

    fn src_len(&self) -> (n: usize)
        requires
            self.bytes().len() < usize::MAX,
        ensures
            n == self.bytes().len(),
    {
        self.source.as_str().len()
    }

    fn is_at_end(&self) -> (r: bool)
        requires
            self.bytes().len() < usize::MAX,
        ensures
            r == (self.current >= self.bytes().len()),
    {
        self.current >= self.src_len()
    }

    /// The byte at the current position, or 0 at the end.
    fn peek(&self) -> (c: u8)
        requires
            self.bytes().len() < usize::MAX,
        ensures
            c == (if self.current < self.bytes().len() { self.bytes()[self.current as int] } else { 0u8 }),
    {
        if self.is_at_end() {
            return 0;
        }
        self.source.as_str().as_bytes()[self.current]
    }

    /// The byte after the current position, or 0 past the end.
    fn peek_next(&self) -> (c: u8)
        requires
            self.bytes().len() < usize::MAX,
        ensures
            c == (if self.current + 1 < self.bytes().len() { self.bytes()[self.current + 1] } else { 0u8 }),
    {
        if self.current >= usize::MAX - 1 || self.current + 1 >= self.src_len() {
            return 0;
        }
        self.source.as_str().as_bytes()[self.current + 1]
    }

    /// Consumes the byte at the current position.
    fn advance(&mut self) -> (c: u8)
        requires
            old(self).inv(0),
            old(self).current < old(self).bytes().len(),
        ensures
            c == old(self).bytes()[old(self).current as int],
            final(self).current == old(self).current + 1,
            final(self).inv(0),
            final(self).source == old(self).source,
            final(self).tokens == old(self).tokens,
            final(self).start == old(self).start,
            final(self).line == old(self).line,
    {
        let c = self.source.as_str().as_bytes()[self.current];
        self.current = self.current + 1;
        c
    }

    /// Consumes the next byte where it is `expected`.
    fn match_next(&mut self, expected: u8) -> (r: bool)
        requires
            old(self).inv(0),
        ensures
            final(self).source == old(self).source,
            final(self).tokens == old(self).tokens,
            final(self).start == old(self).start,
            final(self).line == old(self).line,
            final(self).inv(0),
            r == (old(self).current < old(self).bytes().len() && old(self).bytes()[old(self).current as int] == expected),
            final(self).current == old(self).current + (if r { 1int } else { 0int }),
    {
        if self.is_at_end() {
            return false;
        }
        if self.peek() != expected {
            return false;
        }
        self.current = self.current + 1;
        true
    }

    fn keyword_lookup(&self, w: &String) -> (r: Option<TokenType>)
        requires
            self.inv(1),
        ensures
            r == keyword_of(w@),
    {
        let mut i: usize = 0;
        while i < self.keywords.len()
            invariant
                self.inv(1),
                i <= self.keywords@.len(),
                keyword_from(keyword_table(), w@, i as int) == keyword_of(w@),
            decreases self.keywords@.len() - i,
        {
            if self.keywords[i].0 == *w {
                return Some(self.keywords[i].1);
            }
            i = i + 1;
        }
        None
    }

    /// Adds the token `source[start..current]`; `Err` where slicing panics.
    fn add_token_with_literal(&mut self, token_type: TokenType, literal: Literal) -> (r: Result<(), Halt>)
        requires
            old(self).inv(1),
        ensures
            r is Ok <==> slice_ok(old(self).bytes(), old(self).start as int, old(self).current as int),
            final(self).source == old(self).source,
            final(self).start == old(self).start,
            final(self).current == old(self).current,
            final(self).line == old(self).line,
            r is Ok ==> {
                &&& final(self).inv(0)
                &&& token_views(final(self).tokens@) == token_views(old(self).tokens@).push(
                    TokenView {
                        token_type,
                        lexeme: text(old(self).bytes(), old(self).start as int, old(self).current as int),
                        literal: Some(literal@),
                        line: old(self).line as nat,
                    },
                )
            },
    {
        match substring(self.source.as_str(), self.start, self.current) {
            None => Err(Halt::Panic),
            Some(lexeme) => {
                let ghost old_views = token_views(self.tokens@);
                let tok = Token { token_type, lexeme, line: self.line, literal: Some(literal) };
                self.tokens.push(tok);
                assert(token_views(self.tokens@) =~= old_views.push(tok@));
                Ok(())
            },
        }
    }

    fn add_token_without_literal(&mut self, token_type: TokenType) -> (r: Result<(), Halt>)
        requires
            old(self).inv(1),
        ensures
            r is Ok <==> slice_ok(old(self).bytes(), old(self).start as int, old(self).current as int),
            final(self).source == old(self).source,
            final(self).start == old(self).start,
            final(self).current == old(self).current,
            final(self).line == old(self).line,
            r is Ok ==> {
                &&& final(self).inv(0)
                &&& token_views(final(self).tokens@) == token_views(old(self).tokens@).push(
                    TokenView {
                        token_type,
                        lexeme: text(old(self).bytes(), old(self).start as int, old(self).current as int),
                        literal: Some(LitView::Nil),
                        line: old(self).line as nat,
                    },
                )
            },
    {
        self.add_token_with_literal(token_type, Literal::Nil)
    }

    fn number(&mut self) -> (r: Result<(), Halt>)
        requires
            old(self).inv(0),
            old(self).current == old(self).start + 1,
        ensures
            final(self).source == old(self).source,
            final(self).current >= old(self).current,
            ({
                let s = old(self).bytes();
                let end = number_end(s, old(self).current as int);
                &&& r is Ok <==> slice_ok(s, old(self).start as int, end)
                &&& r is Ok ==> {
                    &&& final(self).inv(0)
                    &&& final(self).source == old(self).source
                    &&& final(self).current == end
                    &&& final(self).line == old(self).line
                    &&& token_views(final(self).tokens@) == token_views(old(self).tokens@).push(
                        TokenView {
                            token_type: TokenType::Number,
                            lexeme: text(s, old(self).start as int, end),
                            literal: Some(LitView::Num(text(s, old(self).start as int, end))),
                            line: old(self).line as nat,
                        },
                    )
                }
            }),
    {
        let k = exec_skip_digits(self.source.as_str().as_bytes(), self.current);
        self.current = k;
        let next = self.peek_next();
        if self.peek() == '.' as u8 && '0' as u8 <= next && next <= '9' as u8 {
            self.advance();
            let k2 = exec_skip_digits(self.source.as_str().as_bytes(), self.current);
            self.current = k2;
        }
        match substring(self.source.as_str(), self.start, self.current) {
            None => Err(Halt::Panic),
            Some(numeral) => self.add_token_with_literal(TokenType::Number, Literal::Num(numeral)),
        }
    }

    fn identifier(&mut self) -> (r: Result<(), Halt>)
        requires
            old(self).inv(0),
            old(self).current == old(self).start + 1,
        ensures
            final(self).source == old(self).source,
            final(self).current >= old(self).current,
            ({
                let s = old(self).bytes();
                let k = skip_word(s, old(self).current as int);
                &&& r is Ok <==> slice_ok(s, old(self).start as int, k)
                &&& r is Ok ==> {
                    &&& final(self).inv(0)
                    &&& final(self).source == old(self).source
                    &&& final(self).current == k
                    &&& final(self).line == old(self).line
                    &&& token_views(final(self).tokens@) == token_views(old(self).tokens@).push(
                        TokenView {
                            token_type: word_type(text(s, old(self).start as int, k)),
                            lexeme: text(s, old(self).start as int, k),
                            literal: Some(LitView::Nil),
                            line: old(self).line as nat,
                        },
                    )
                }
            }),
    {
        let k = exec_skip_word(self.source.as_str().as_bytes(), self.current);
        self.current = k;
        match substring(self.source.as_str(), self.start, self.current) {
            None => Err(Halt::Panic),
            Some(word) => {
                let token_type = match self.keyword_lookup(&word) {
                    Some(t) => t,
                    None => TokenType::Identifier,
                };
                self.add_token_without_literal(token_type)
            },
        }
    }

    fn string(&mut self, lox: &mut Lox) -> (r: Result<(), Halt>)
        requires
            old(self).inv(0),
            old(self).current == old(self).start + 1,
        ensures
            final(self).current >= old(self).current,
            final(self).source == old(self).source,
            match string_step(old(self).bytes(), old(self).state(old(lox)), old(self).start as int) {
                ScanStep::Next(st) => r is Ok && final(self).state(final(lox)) == st && final(self).inv(0),
                ScanStep::Panic => r is Err,
            },
    {
        let ghost s = self.bytes();
        let ghost at = self.state(lox);
        let (j, l) = exec_string_body(self.source.as_str().as_bytes(), self.current, self.line);
        self.current = j;
        self.line = l;
        if !self.is_at_end() {
            self.advance();
        } else {
            if self.line > u32::MAX as usize || self.current > u32::MAX as usize {
                return Err(Halt::Panic);
            }
            report(
                lox,
                ErrorKind::WithLocation {
                    message: "unterminated string literal".to_owned(),
                    line: self.line as u32,
                    col: Some(self.current as u32),
                },
            );
        }
        let ghost mid = self.state(lox);
        match substring(self.source.as_str(), self.start + 1, self.current - 1) {
            None => Err(Halt::Panic),
            Some(value) => {
                let ghost v = value@;
                let r = self.add_token_with_literal(TokenType::String, Literal::Str(value));
                proof {
                    if r is Ok {
                        assert(self.state(lox) =~= ScanState {
                            pos: mid.pos,
                            line: mid.line,
                            tokens: mid.tokens.push(
                                TokenView {
                                    token_type: TokenType::String,
                                    lexeme: text(s, at.pos - 1, self.current as int),
                                    literal: Some(LitView::Str(v)),
                                    line: mid.line as nat,
                                },
                            ),
                            had_error: mid.had_error,
                            errors: mid.errors,
                        });
                    }
                }
                r
            },
        }
    }

    /// Scans the token (or the blank, comment or error) that starts at the
    /// current position.
    fn scan_token(&mut self, lox: &mut Lox) -> (r: Result<(), Halt>)
        requires
            old(self).inv(0),
            old(self).start == old(self).current,
            old(self).current < old(self).bytes().len(),
        ensures
            r is Ok ==> final(self).current > old(self).current,
            final(self).source == old(self).source,
            match step(old(self).bytes(), old(self).state(old(lox))) {
                ScanStep::Next(st) => r is Ok && final(self).state(final(lox)) == st && final(self).inv(0),
                ScanStep::Panic => r is Err,
            },
    {
        let ghost s = self.bytes();
        let ghost st0 = self.state(lox);
        let c = self.advance();
        let ghost at = self.state(lox);
        assert(at == with_pos(st0, st0.pos + 1));
        match exec_single_token(c) {
            Some(token_type) => {
                let r = self.add_token_without_literal(token_type);
                proof {
                    if r is Ok {
                        assert(self.state(lox) =~= emit(s, at, token_type, st0.pos, at.pos, LitView::Nil)->0);
                    }
                }
                return r;
            },
            None => {},
        }
        match exec_paired_token(c) {
            Some((one, two)) => {
                let matched = self.match_next('=' as u8);
                let r = if matched {
                    self.add_token_without_literal(two)
                } else {
                    self.add_token_without_literal(one)
                };
                proof {
                    if r is Ok {
                        let tt = if matched { two } else { one };
                        assert(self.state(lox) =~= emit(s, at, tt, st0.pos, self.current as int, LitView::Nil)->0);
                    }
                }
                return r;
            },
            None => {},
        }
        if c == '/' as u8 {
            if self.peek() == '/' as u8 {
                let j = exec_find_byte(self.source.as_str().as_bytes(), self.current, '\n' as u8);
                self.current = j;
                assert(self.state(lox) =~= with_pos(st0, j as int));
                return Ok(());
            } else {
                let r = self.add_token_without_literal(TokenType::Slash);
                proof {
                    if r is Ok {
                        assert(self.state(lox) =~= emit(s, at, TokenType::Slash, st0.pos, at.pos, LitView::Nil)->0);
                    }
                }
                return r;
            }
        }
        if c == ' ' as u8 || c == '\r' as u8 || c == '\t' as u8 {
            return Ok(());
        }
        if c == '\n' as u8 {
            self.line = self.line + 1;
            return Ok(());
        }
        if c == '"' as u8 {
            return self.string(lox);
        }
        if '0' as u8 <= c && c <= '9' as u8 {
            let r = self.number();
            proof {
                if r is Ok {
                    let end = number_end(s, at.pos);
                    assert(self.state(lox) =~= emit(s, at, TokenType::Number, st0.pos, end, LitView::Num(text(s, st0.pos, end)))->0);
                }
            }
            return r;
        }
        if ('a' as u8 <= c && c <= 'z' as u8) || ('A' as u8 <= c && c <= 'Z' as u8) {
            let r = self.identifier();
            proof {
                if r is Ok {
                    let k = skip_word(s, at.pos);
                    assert(self.state(lox) =~= emit(s, at, word_type(text(s, st0.pos, k)), st0.pos, k, LitView::Nil)->0);
                }
            }
            return r;
        }
        lox.had_error = true;
        if self.line > u32::MAX as usize || self.current > u32::MAX as usize {
            return Err(Halt::Panic);
        }
        let mut message = "unexpected token ".to_owned();
        push_char(&mut message, c as char);
        report(lox, ErrorKind::WithLocation { message, line: self.line as u32, col: Some(self.current as u32) });
        Ok(())
    }

    /// Scans the whole source, reporting errors to `lox`; `Err` where the scan
    /// stops (see `scan_from`; the state is then partly updated).
    pub fn scan_tokens_checked(&mut self, lox: &mut Lox) -> (r: Result<(), Halt>)
        requires
            old(self).wf(),
        ensures
            final(self).source == old(self).source,
            match scan_from(old(self).bytes(), old(self).state(old(lox))) {
                ScanOutcome::Done(st) => r is Ok && final(self).state(final(lox)) == st && final(self).wf(),
                ScanOutcome::Panic => r is Err,
            },
    {
        let ghost s = self.bytes();
        let ghost goal = scan_from(s, self.state(lox));
        while !self.is_at_end()
            invariant
                self.inv(0),
                self.bytes() == s,
                self.source == old(self).source,
                scan_from(s, self.state(lox)) == goal,
                s == old(self).bytes(),
                goal == scan_from(old(self).bytes(), old(self).state(old(lox))),
            decreases s.len() - self.current,
        {
            self.start = self.current;
            let ghost before = self.state(lox);
            match self.scan_token(lox) {
                Err(h) => {
                    assert(step(s, before) is Panic);
                    assert(scan_from(s, before) is Panic);
                    return Err(h);
                },
                Ok(()) => {},
            }
        }
        let ghost fin = self.state(lox);
        let ghost old_views = token_views(self.tokens@);
        let eof = Token { token_type: TokenType::Eof, lexeme: String::new(), literal: Some(Literal::Nil), line: self.line };
        self.tokens.push(eof);
        assert(token_views(self.tokens@) =~= old_views.push(eof_token(fin.line)));
        assert(self.state(lox) =~= (ScanOutcome::Done(ScanState {
            pos: fin.pos,
            line: fin.line,
            tokens: fin.tokens.push(eof_token(fin.line)),
            had_error: fin.had_error,
            errors: fin.errors,
        }))->0);
        Ok(())
    }

    /// Scans the whole source into `self.tokens`, reporting errors to `lox`.
    pub fn scan_tokens(&mut self, lox: &mut Lox)
        requires
            old(self).wf(),
            scan_from(old(self).bytes(), old(self).state(old(lox))) is Done,
        ensures
            final(self).source == old(self).source,
            final(self).wf(),
            final(self).state(final(lox)) == scan_from(old(self).bytes(), old(self).state(old(lox)))->0,
    {
        let r = self.scan_tokens_checked(lox);
    }
}

} // verus!

verus! {

// ---------------------------------------------------------------------------
// Laws of scanning
// ---------------------------------------------------------------------------

/// Scanning state `b` extends state `a`: the tokens and errors of `a` are
/// kept, new tokens are not end-of-file tokens and carry non-decreasing
/// lines from `a.line` up to `b.line`, and the error flag is never cleared
/// and is raised whenever an error is added.
pub open spec fn extends(a: ScanState, b: ScanState) -> bool {
    &&& a.tokens.len() <= b.tokens.len()
    &&& b.tokens.subrange(0, a.tokens.len() as int) == a.tokens
    &&& a.errors.len() <= b.errors.len()
    &&& b.errors.subrange(0, a.errors.len() as int) == a.errors
    &&& a.line <= b.line
    &&& (a.had_error ==> b.had_error)
    &&& (b.errors.len() > a.errors.len() ==> b.had_error)
    &&& forall|i: int| a.tokens.len() <= i < b.tokens.len() ==> {
        &&& (#[trigger] b.tokens[i]).token_type != TokenType::Eof
        &&& a.line <= b.tokens[i].line <= b.line
    }
    &&& forall|i: int, j: int| a.tokens.len() <= i <= j < b.tokens.len() ==> #[trigger] b.tokens[i].line
        <= #[trigger] b.tokens[j].line
}

proof fn lemma_extends_trans(a: ScanState, b: ScanState, c: ScanState)
    requires
        extends(a, b),
        extends(b, c),
    ensures
        extends(a, c),
{
    assert(c.tokens.subrange(0, a.tokens.len() as int) =~= b.tokens.subrange(0, a.tokens.len() as int)) by {
        assert forall|i: int| 0 <= i < a.tokens.len() implies c.tokens[i] == b.tokens[i] by {
            assert(c.tokens.subrange(0, b.tokens.len() as int)[i] == c.tokens[i]);
        }
    }
    assert(c.errors.subrange(0, a.errors.len() as int) =~= b.errors.subrange(0, a.errors.len() as int)) by {
        assert forall|i: int| 0 <= i < a.errors.len() implies c.errors[i] == b.errors[i] by {
            assert(c.errors.subrange(0, b.errors.len() as int)[i] == c.errors[i]);
        }
    }
    assert forall|i: int| a.tokens.len() <= i < c.tokens.len() implies {
        &&& (#[trigger] c.tokens[i]).token_type != TokenType::Eof
        &&& a.line <= c.tokens[i].line <= c.line
    } by {
        if i < b.tokens.len() {
            assert(c.tokens.subrange(0, b.tokens.len() as int)[i] == c.tokens[i]);
        }
    }
    assert forall|i: int, j: int| a.tokens.len() <= i <= j < c.tokens.len() implies #[trigger] c.tokens[i].line
        <= #[trigger] c.tokens[j].line by {
        if j < b.tokens.len() {
            assert(c.tokens.subrange(0, b.tokens.len() as int)[i] == c.tokens[i]);
            assert(c.tokens.subrange(0, b.tokens.len() as int)[j] == c.tokens[j]);
            assert(b.tokens[i].line <= b.tokens[j].line);
        } else if i < b.tokens.len() {
            assert(c.tokens.subrange(0, b.tokens.len() as int)[i] == c.tokens[i]);
            assert(b.tokens[i].line <= b.line);
        }
    }
}

proof fn lemma_word_type_not_eof(w: Seq<char>)
    ensures
        word_type(w) != TokenType::Eof,
{
    let t = keyword_table();
    assert forall|i: int| 0 <= i < t.len() implies t[i].1 != TokenType::Eof by {}
    lemma_keyword_from_in_table(t, w, 0);
}

proof fn lemma_keyword_from_in_table(t: Seq<(Seq<char>, TokenType)>, w: Seq<char>, i: int)
    requires
        forall|k: int| 0 <= k < t.len() ==> t[k].1 != TokenType::Eof,
    ensures
        keyword_from(t, w, i) matches Some(tt) ==> tt != TokenType::Eof,
    decreases t.len() - i,
{
    if 0 <= i < t.len() && t[i].0 != w {
        lemma_keyword_from_in_table(t, w, i + 1);
    }
}

proof fn lemma_emit_extends(s: Seq<u8>, st: ScanState, tt: TokenType, a: int, b: int, lit: LitView)
    requires
        tt != TokenType::Eof,
        st.line >= 0,
        emit(s, st, tt, a, b, lit) is Next,
    ensures
        extends(st, emit(s, st, tt, a, b, lit)->Next_0),
{
    let n = emit(s, st, tt, a, b, lit)->Next_0;
    assert(n.tokens.subrange(0, st.tokens.len() as int) =~= st.tokens);
    assert(n.errors.subrange(0, st.errors.len() as int) =~= st.errors);
}

proof fn lemma_error_extends(st: ScanState, msg: Seq<char>, col: int)
    requires
        located_error(st, msg, col) is Next,
    ensures
        extends(st, located_error(st, msg, col)->Next_0),
{
    let n = located_error(st, msg, col)->Next_0;
    assert(n.tokens.subrange(0, st.tokens.len() as int) =~= st.tokens);
    assert(n.errors.subrange(0, st.errors.len() as int) =~= st.errors);
}

proof fn lemma_same_extends(a: ScanState, b: ScanState)
    requires
        a.tokens == b.tokens,
        a.errors == b.errors,
        a.had_error ==> b.had_error,
        a.line <= b.line,
    ensures
        extends(a, b),
{
    assert(b.tokens.subrange(0, a.tokens.len() as int) =~= a.tokens);
    assert(b.errors.subrange(0, a.errors.len() as int) =~= a.errors);
}

proof fn lemma_step_extends(s: Seq<u8>, st: ScanState)
    requires
        0 <= st.pos < s.len(),
        st.line >= 0,
        step(s, st) is Next,
    ensures
        extends(st, step(s, st)->Next_0),
{
    let p = st.pos;
    let c = s[p];
    let at = with_pos(st, p + 1);
    lemma_same_extends(st, at);
    if single_token(c) is Some {
        lemma_emit_extends(s, at, single_token(c)->0, p, p + 1, LitView::Nil);
        lemma_extends_trans(st, at, step(s, st)->Next_0);
    } else if paired_token(c) is Some {
        let (one, two) = paired_token(c)->0;
        let cur = p + 1;
        if cur < s.len() && s[cur] == ('=' as u8) {
            lemma_emit_extends(s, at, two, p, cur + 1, LitView::Nil);
        } else {
            lemma_emit_extends(s, at, one, p, cur, LitView::Nil);
        }
        lemma_extends_trans(st, at, step(s, st)->Next_0);
    } else if c == ('/' as u8) {
        if p + 1 < s.len() && s[p + 1] == ('/' as u8) {
            lemma_same_extends(st, step(s, st)->Next_0);
        } else {
            lemma_emit_extends(s, at, TokenType::Slash, p, p + 1, LitView::Nil);
            lemma_extends_trans(st, at, step(s, st)->Next_0);
        }
    } else if c == (' ' as u8) || c == ('\r' as u8) || c == ('\t' as u8) {
    } else if c == ('\n' as u8) {
        lemma_same_extends(st, step(s, st)->Next_0);
    } else if c == ('"' as u8) {
        let j = find_byte(s, at.pos, '"' as u8);
        let end = if j < s.len() { j + 1 } else { j };
        let st1 = ScanState {
            pos: end,
            line: at.line + count_byte(s, at.pos, j, '\n' as u8),
            tokens: at.tokens,
            had_error: at.had_error,
            errors: at.errors,
        };
        lemma_same_extends(at, st1);
        lemma_extends_trans(st, at, st1);
        let st3 = if j >= s.len() {
            lemma_error_extends(st1, "unterminated string literal"@, j);
            lemma_extends_trans(st, st1, located_error(st1, "unterminated string literal"@, j)->Next_0);
            located_error(st1, "unterminated string literal"@, j)->Next_0
        } else {
            st1
        };
        lemma_emit_extends(s, st3, TokenType::String, p, end, LitView::Str(text(s, p + 1, end - 1)));
        lemma_extends_trans(st, st3, step(s, st)->Next_0);
    } else if is_digit(c) {
        let end = number_end(s, at.pos);
        lemma_emit_extends(s, at, TokenType::Number, p, end, LitView::Num(text(s, p, end)));
        lemma_extends_trans(st, at, step(s, st)->Next_0);
    } else if is_alpha(c) {
        let k = skip_word(s, at.pos);
        lemma_word_type_not_eof(text(s, p, k));
        lemma_emit_extends(s, at, word_type(text(s, p, k)), p, k, LitView::Nil);
        lemma_extends_trans(st, at, step(s, st)->Next_0);
    } else {
        let flagged = ScanState { pos: p + 1, line: st.line, tokens: st.tokens, had_error: true, errors: st.errors };
        lemma_same_extends(st, flagged);
        lemma_error_extends(flagged, "unexpected token "@.push(c as char), p + 1);
        lemma_extends_trans(st, flagged, step(s, st)->Next_0);
    }
}

/// Scanning keeps what came before and ends with exactly one end-of-file
/// token: the tokens and errors of the starting state stay in front, the new
/// tokens before the last are no end-of-file tokens and their lines never
/// decrease, the last token is the end-of-file token on the final line, and
/// the error flag is raised whenever an error was reported (and never
/// cleared).
pub proof fn law_scan_appends(s: Seq<u8>, st: ScanState)
    requires
        scan_from(s, st) is Done,
        st.line >= 0,
    ensures
        ({
            let fin = scan_from(s, st)->Done_0;
            &&& fin.tokens.len() > st.tokens.len()
            &&& fin.tokens.last() == eof_token(fin.line)
            &&& extends(st, ScanState {
                pos: fin.pos,
                line: fin.line,
                tokens: fin.tokens.drop_last(),
                had_error: fin.had_error,
                errors: fin.errors,
            })
        }),
    decreases s.len() - st.pos,
{
    if st.pos < 0 || st.pos >= s.len() {
        let fin = scan_from(s, st)->Done_0;
        assert(fin.tokens.drop_last() =~= st.tokens);
        lemma_same_extends(st, ScanState {
            pos: fin.pos,
            line: fin.line,
            tokens: fin.tokens.drop_last(),
            had_error: fin.had_error,
            errors: fin.errors,
        });
    } else {
        let st2 = step(s, st)->Next_0;
        lemma_step_extends(s, st);
        law_scan_appends(s, st2);
        let fin = scan_from(s, st)->Done_0;
        let pre = ScanState {
            pos: fin.pos,
            line: fin.line,
            tokens: fin.tokens.drop_last(),
            had_error: fin.had_error,
            errors: fin.errors,
        };
        lemma_extends_trans(st, st2, pre);
    }
}


/// A letter or digit, as a character.
pub open spec fn is_word_char(c: char) -> bool {
    ('a' <= c <= 'z') || ('A' <= c <= 'Z') || ('0' <= c <= '9')
}

proof fn lemma_skip_word_to_end(s: Seq<u8>, i: int)
    requires
        0 <= i <= s.len(),
        forall|k: int| i <= k < s.len() ==> is_alpha(#[trigger] s[k]) || is_digit(s[k]),
    ensures
        skip_word(s, i) == s.len(),
    decreases s.len() - i,
{
    if i < s.len() {
        lemma_skip_word_to_end(s, i + 1);
    }
}

/// A word (a letter, then letters and digits) scanned on its own gives one
/// token, of the word's type (its keyword type for a reserved word,
/// `Identifier` otherwise) with the word as lexeme, then the end-of-file
/// token, all on the current line.
pub proof fn law_scan_word(w: Seq<char>, st: ScanState)
    requires
        w.len() > 0,
        ('a' <= w[0] <= 'z') || ('A' <= w[0] <= 'Z'),
        forall|i: int| 0 <= i < w.len() ==> is_word_char(#[trigger] w[i]),
        st.pos == 0,
    ensures
        scan_from(encode_utf8(w), st) == ScanOutcome::Done(ScanState {
            pos: w.len() as int,
            line: st.line,
            tokens: st.tokens.push(
                TokenView { token_type: word_type(w), lexeme: w, literal: Some(LitView::Nil), line: st.line as nat },
            ).push(eof_token(st.line)),
            had_error: st.had_error,
            errors: st.errors,
        }),
{
    broadcast use encode_utf8_valid_utf8, encode_utf8_decode_utf8, is_char_boundary_start_end_of_seq;
    let s = encode_utf8(w);
    assert(is_ascii_chars(w));
    is_ascii_chars_encode_utf8(w);
    assert forall|k: int| 0 <= k < s.len() implies is_alpha(#[trigger] s[k]) || is_digit(s[k]) by {
        assert(is_word_char(w[k]));
        assert(w[k] as u8 == s[k]);
    }
    lemma_skip_word_to_end(s, 1);
    assert(s.subrange(0, s.len() as int) =~= s);
    assert(text(s, 0, s.len() as int) == w);
    let st2 = ScanState {
        pos: w.len() as int,
        line: st.line,
        tokens: st.tokens.push(
            TokenView { token_type: word_type(w), lexeme: w, literal: Some(LitView::Nil), line: st.line as nat },
        ),
        had_error: st.had_error,
        errors: st.errors,
    };
    assert(w[0] as u8 == s[0]);
    assert(step(s, st) == ScanStep::Next(st2));
    assert(scan_from(s, st2) == ScanOutcome::Done(ScanState {
        pos: st2.pos,
        line: st2.line,
        tokens: st2.tokens.push(eof_token(st2.line)),
        had_error: st2.had_error,
        errors: st2.errors,
    }));
}

proof fn lemma_keyword_from_absent(table: Seq<(Seq<char>, TokenType)>, w: Seq<char>, i: int)
    requires
        0 <= i,
        forall|k: int| 0 <= k < table.len() ==> (#[trigger] table[k]).0 != w,
    ensures
        keyword_from(table, w, i) is None,
    decreases table.len() - i,
{
    if i < table.len() {
        lemma_keyword_from_absent(table, w, i + 1);
    }
}

/// Each reserved word scans to its own keyword type, and a word that is not
/// reserved (such as `While` or `whilex`) to `Identifier`.
pub proof fn law_keywords(w: Seq<char>)
    ensures
        forall|i: int| 0 <= i < keyword_table().len() ==> #[trigger] word_type(keyword_table()[i].0) == keyword_table()[i].1,
        (forall|k: int| 0 <= k < keyword_table().len() ==> (#[trigger] keyword_table()[k]).0 != w)
            ==> word_type(w) == TokenType::Identifier,
{
    reveal_strlit("and");
    reveal_strlit("class");
    reveal_strlit("else");
    reveal_strlit("false");
    reveal_strlit("for");
    reveal_strlit("fun");
    reveal_strlit("if");
    reveal_strlit("nil");
    reveal_strlit("or");
    reveal_strlit("print");
    reveal_strlit("return");
    reveal_strlit("super");
    reveal_strlit("this");
    reveal_strlit("true");
    reveal_strlit("var");
    reveal_strlit("while");
    reveal_with_fuel(keyword_from, 17);
    assert("and"@.len() == 3 && "and"@[0] == 'a' && "and"@[1] == 'n');
    assert("class"@.len() == 5 && "class"@[0] == 'c' && "class"@[1] == 'l');
    assert("else"@.len() == 4 && "else"@[0] == 'e' && "else"@[1] == 'l');
    assert("false"@.len() == 5 && "false"@[0] == 'f' && "false"@[1] == 'a');
    assert("for"@.len() == 3 && "for"@[0] == 'f' && "for"@[1] == 'o');
    assert("fun"@.len() == 3 && "fun"@[0] == 'f' && "fun"@[1] == 'u');
    assert("if"@.len() == 2 && "if"@[0] == 'i' && "if"@[1] == 'f');
    assert("nil"@.len() == 3 && "nil"@[0] == 'n' && "nil"@[1] == 'i');
    assert("or"@.len() == 2 && "or"@[0] == 'o' && "or"@[1] == 'r');
    assert("print"@.len() == 5 && "print"@[0] == 'p' && "print"@[1] == 'r');
    assert("return"@.len() == 6 && "return"@[0] == 'r' && "return"@[1] == 'e');
    assert("super"@.len() == 5 && "super"@[0] == 's' && "super"@[1] == 'u');
    assert("this"@.len() == 4 && "this"@[0] == 't' && "this"@[1] == 'h');
    assert("true"@.len() == 4 && "true"@[0] == 't' && "true"@[1] == 'r');
    assert("var"@.len() == 3 && "var"@[0] == 'v' && "var"@[1] == 'a');
    assert("while"@.len() == 5 && "while"@[0] == 'w' && "while"@[1] == 'h');
    assert(keyword_table()[0].0 == "and"@);
    assert(keyword_table()[1].0 == "class"@);
    assert(keyword_table()[2].0 == "else"@);
    assert(keyword_table()[3].0 == "false"@);
    assert(keyword_table()[4].0 == "for"@);
    assert(keyword_table()[5].0 == "fun"@);
    assert(keyword_table()[6].0 == "if"@);
    assert(keyword_table()[7].0 == "nil"@);
    assert(keyword_table()[8].0 == "or"@);
    assert(keyword_table()[9].0 == "print"@);
    assert(keyword_table()[10].0 == "return"@);
    assert(keyword_table()[11].0 == "super"@);
    assert(keyword_table()[12].0 == "this"@);
    assert(keyword_table()[13].0 == "true"@);
    assert(keyword_table()[14].0 == "var"@);
    assert(keyword_table()[15].0 == "while"@);
    assert(word_type(keyword_table()[0].0) == keyword_table()[0].1);
    assert(word_type(keyword_table()[1].0) == keyword_table()[1].1);
    assert(word_type(keyword_table()[2].0) == keyword_table()[2].1);
    assert(word_type(keyword_table()[3].0) == keyword_table()[3].1);
    assert(word_type(keyword_table()[4].0) == keyword_table()[4].1);
    assert(word_type(keyword_table()[5].0) == keyword_table()[5].1);
    assert(word_type(keyword_table()[6].0) == keyword_table()[6].1);
    assert(word_type(keyword_table()[7].0) == keyword_table()[7].1);
    assert(word_type(keyword_table()[8].0) == keyword_table()[8].1);
    assert(word_type(keyword_table()[9].0) == keyword_table()[9].1);
    assert(word_type(keyword_table()[10].0) == keyword_table()[10].1);
    assert(word_type(keyword_table()[11].0) == keyword_table()[11].1);
    assert(word_type(keyword_table()[12].0) == keyword_table()[12].1);
    assert(word_type(keyword_table()[13].0) == keyword_table()[13].1);
    assert(word_type(keyword_table()[14].0) == keyword_table()[14].1);
    assert(word_type(keyword_table()[15].0) == keyword_table()[15].1);
    if forall|k: int| 0 <= k < keyword_table().len() ==> (#[trigger] keyword_table()[k]).0 != w {
        lemma_keyword_from_absent(keyword_table(), w, 0);
    }
}


proof fn lemma_count_none(s: Seq<u8>, a: int, j: int, b: u8)
    requires
        0 <= a <= j <= s.len(),
        forall|k: int| a <= k < j ==> #[trigger] s[k] != b,
    ensures
        count_byte(s, 0, j, b) == count_byte(s, 0, a, b),
    decreases j - a,
{
    if j > a {
        lemma_count_none(s, a, j - 1, b);
    }
}

proof fn lemma_find_byte_range(s: Seq<u8>, i: int, b: u8)
    requires
        0 <= i <= s.len(),
    ensures
        i <= find_byte(s, i, b) <= s.len(),
        forall|k: int| i <= k < find_byte(s, i, b) ==> #[trigger] s[k] != b,
    decreases s.len() - i,
{
    if i < s.len() && s[i] != b {
        lemma_find_byte_range(s, i + 1, b);
    }
}

proof fn lemma_skip_digits_range(s: Seq<u8>, i: int)
    requires
        0 <= i <= s.len(),
    ensures
        i <= skip_digits(s, i) <= s.len(),
        forall|k: int| i <= k < skip_digits(s, i) ==> is_digit(#[trigger] s[k]),
    decreases s.len() - i,
{
    if i < s.len() && is_digit(s[i]) {
        lemma_skip_digits_range(s, i + 1);
    }
}

proof fn lemma_skip_word_range(s: Seq<u8>, i: int)
    requires
        0 <= i <= s.len(),
    ensures
        i <= skip_word(s, i) <= s.len(),
        forall|k: int| i <= k < skip_word(s, i) ==> is_alpha(#[trigger] s[k]) || is_digit(s[k]),
    decreases s.len() - i,
{
    if i < s.len() && (is_alpha(s[i]) || is_digit(s[i])) {
        lemma_skip_word_range(s, i + 1);
    }
}

/// The source holds no `"`: no string literal, the one token that may hold
/// a line break.
pub open spec fn plain_source(s: Seq<u8>) -> bool {
    forall|k: int| 0 <= k < s.len() ==> #[trigger] s[k] != ('"' as u8)
}

/// A token is the text of `s[a..b]` for some `a <= b`, and its line is one
/// more than the line breaks before `a`.
pub open spec fn placed(s: Seq<u8>, tv: TokenView) -> bool {
    exists|a: int, b: int|
        0 <= a <= b <= s.len() && tv.lexeme == #[trigger] text(s, a, b) && tv.line == 1 + #[trigger] count_byte(s, 0, a, ('\n' as u8))
}

/// The line is one more than the line breaks before the position, and every
/// token so far is placed in the source.
pub open spec fn lines_counted(s: Seq<u8>, st: ScanState) -> bool {
    &&& 0 <= st.pos <= s.len()
    &&& st.line == 1 + count_byte(s, 0, st.pos, ('\n' as u8))
    &&& forall|i: int| 0 <= i < st.tokens.len() ==> placed(s, #[trigger] st.tokens[i])
}

proof fn lemma_emit_counted(s: Seq<u8>, st: ScanState, tt: TokenType, p: int, q: int, lit: LitView)
    requires
        lines_counted(s, st),
        0 <= p <= q <= s.len(),
        st.line == 1 + count_byte(s, 0, p, ('\n' as u8)),
        forall|k: int| p <= k < q ==> #[trigger] s[k] != ('\n' as u8),
        emit(s, st, tt, p, q, lit) is Next,
    ensures
        lines_counted(s, emit(s, st, tt, p, q, lit)->Next_0),
{
    lemma_count_none(s, p, q, '\n' as u8);
    let st2 = emit(s, st, tt, p, q, lit)->Next_0;
    let tv = st2.tokens.last();
    assert(tv.lexeme == text(s, p, q) && tv.line == 1 + count_byte(s, 0, p, ('\n' as u8)));
    assert(placed(s, tv));
    assert forall|i: int| 0 <= i < st2.tokens.len() implies placed(s, #[trigger] st2.tokens[i]) by {
        if i < st.tokens.len() {
            assert(st2.tokens[i] == st.tokens[i]);
        }
    }
}

proof fn lemma_step_counted(s: Seq<u8>, st: ScanState)
    requires
        plain_source(s),
        lines_counted(s, st),
        st.pos < s.len(),
        step(s, st) is Next,
    ensures
        lines_counted(s, step(s, st)->Next_0) || step(s, st)->Next_0.pos <= st.pos || step(s, st)->Next_0.pos > s.len(),
{
    let p = st.pos;
    let c = s[p];
    let cur = p + 1;
    let at = with_pos(st, cur);
    assert(c != ('"' as u8));
    lemma_count_none(s, p, p, '\n' as u8);
    if single_token(c) is Some {
        lemma_emit_counted(s, at, single_token(c)->0, p, cur, LitView::Nil);
    } else if paired_token(c) is Some {
        let (one, two) = paired_token(c)->0;
        if cur < s.len() && s[cur] == ('=' as u8) {
            lemma_emit_counted(s, at, two, p, cur + 1, LitView::Nil);
        } else {
            lemma_emit_counted(s, at, one, p, cur, LitView::Nil);
        }
    } else if c == ('/' as u8) {
        if cur < s.len() && s[cur] == ('/' as u8) {
            lemma_find_byte_range(s, cur, '\n' as u8);
            lemma_count_none(s, p, find_byte(s, cur, '\n' as u8), '\n' as u8);
        } else {
            lemma_emit_counted(s, at, TokenType::Slash, p, cur, LitView::Nil);
        }
    } else if c == (' ' as u8) || c == ('\r' as u8) || c == ('\t' as u8) {
        lemma_count_none(s, p, cur, '\n' as u8);
    } else if c == ('\n' as u8) {
    } else if is_digit(c) {
        let k = skip_digits(s, cur);
        lemma_skip_digits_range(s, cur);
        if k + 1 < s.len() && s[k] == ('.' as u8) && is_digit(s[k + 1]) {
            lemma_skip_digits_range(s, k + 1);
        }
        let end = number_end(s, cur);
        assert forall|m: int| p <= m < end implies #[trigger] s[m] != ('\n' as u8) by {
            if m > p && m < k {
                assert(is_digit(s[m]));
            } else if m > k {
                assert(is_digit(s[m]));
            }
        }
        lemma_emit_counted(s, at, TokenType::Number, p, end, LitView::Num(text(s, p, end)));
    } else if is_alpha(c) {
        let k = skip_word(s, cur);
        lemma_skip_word_range(s, cur);
        assert forall|m: int| p <= m < k implies #[trigger] s[m] != ('\n' as u8) by {
            if m > p {
                assert(is_alpha(s[m]) || is_digit(s[m]));
            }
        }
        if slice_ok(s, p, k) {
            lemma_emit_counted(s, at, word_type(text(s, p, k)), p, k, LitView::Nil);
        }
    } else {
        lemma_count_none(s, p, cur, '\n' as u8);
    }
}

/// In a source without `"`, every token scanned is a
/// piece of the source, and its line is one more than the line breaks before
/// it; the scan ends on the line one more than all the source's line breaks
/// (where its end-of-file token stands).
pub proof fn law_scan_lines(s: Seq<u8>, st: ScanState)
    requires
        plain_source(s),
        lines_counted(s, st),
        scan_from(s, st) is Done,
    ensures
        scan_from(s, st)->Done_0.line == 1 + count_byte(s, 0, s.len() as int, ('\n' as u8)),
        forall|i: int| 0 <= i < scan_from(s, st)->Done_0.tokens.len()
            ==> placed(s, #[trigger] scan_from(s, st)->Done_0.tokens[i]),
    decreases s.len() - st.pos,
{
    if st.pos >= s.len() {
        let fin = scan_from(s, st)->Done_0;
        assert(s.subrange(s.len() as int, s.len() as int) =~= Seq::<u8>::empty());
        assert(text(s, s.len() as int, s.len() as int) == Seq::<char>::empty());
        assert(placed(s, eof_token(st.line)));
        assert forall|i: int| 0 <= i < fin.tokens.len() implies placed(s, #[trigger] fin.tokens[i]) by {
            if i < st.tokens.len() {
                assert(fin.tokens[i] == st.tokens[i]);
            }
        }
    } else {
        lemma_step_counted(s, st);
        law_scan_lines(s, step(s, st)->Next_0);
    }
}

/// The same from the start of a source: position 0, line 1, no tokens.
pub proof fn law_scan_lines_from_start(s: Seq<u8>, had_error: bool, errors: Seq<ErrorView>)
    requires
        plain_source(s),
        scan_from(s, ScanState { pos: 0, line: 1, tokens: Seq::empty(), had_error, errors }) is Done,
    ensures
        ({
            let fin = scan_from(s, ScanState { pos: 0, line: 1, tokens: Seq::empty(), had_error, errors })->Done_0;
            &&& fin.line == 1 + count_byte(s, 0, s.len() as int, ('\n' as u8))
            &&& forall|i: int| 0 <= i < fin.tokens.len() ==> placed(s, #[trigger] fin.tokens[i])
        }),
{
    law_scan_lines(s, ScanState { pos: 0, line: 1, tokens: Seq::empty(), had_error, errors });
}

proof fn lemma_skip_digits_to(s: Seq<u8>, i: int, j: int)
    requires
        0 <= i <= j <= s.len(),
        forall|k: int| i <= k < j ==> is_digit(#[trigger] s[k]),
        j == s.len() || !is_digit(s[j]),
    ensures
        skip_digits(s, i) == j,
    decreases j - i,
{
    if i < j {
        lemma_skip_digits_to(s, i + 1, j);
    }
}

/// A number (digits, with a fractional part of a `.` and digits or
/// without) scanned on its own gives one number token with the numeral as
/// both lexeme and literal, then the end-of-file token.
pub proof fn law_scan_number(a: Seq<char>, b: Seq<char>, st: ScanState)
    requires
        a.len() > 0,
        forall|i: int| 0 <= i < a.len() ==> '0' <= #[trigger] a[i] <= '9',
        forall|i: int| 0 <= i < b.len() ==> '0' <= #[trigger] b[i] <= '9',
        st.pos == 0,
    ensures
        ({
            let w = if b.len() == 0 { a } else { a + seq!['.'] + b };
            scan_from(encode_utf8(w), st) == ScanOutcome::Done(ScanState {
                pos: w.len() as int,
                line: st.line,
                tokens: st.tokens.push(
                    TokenView { token_type: TokenType::Number, lexeme: w, literal: Some(LitView::Num(w)), line: st.line as nat },
                ).push(eof_token(st.line)),
                had_error: st.had_error,
                errors: st.errors,
            })
        }),
{
    broadcast use encode_utf8_valid_utf8, encode_utf8_decode_utf8, is_char_boundary_start_end_of_seq;
    let w = if b.len() == 0 { a } else { a + seq!['.'] + b };
    let s = encode_utf8(w);
    assert(is_ascii_chars(w)) by {
        assert forall|i: int| 0 <= i < w.len() implies '\0' <= #[trigger] w[i] <= '\u{7f}' by {
            if i < a.len() {
                assert(w[i] == a[i]);
            } else if i > a.len() {
                assert(w[i] == b[i - a.len() - 1]);
            }
        }
    }
    is_ascii_chars_encode_utf8(w);
    assert forall|k: int| 0 <= k < a.len() implies is_digit(#[trigger] s[k]) by {
        assert(w[k] == a[k]);
        assert(w[k] as u8 == s[k]);
    }
    if b.len() == 0 {
        lemma_skip_digits_to(s, 1, s.len() as int);
        assert(number_end(s, 1) == s.len());
    } else {
        let p = a.len() as int;
        assert(w[p] == '.');
        assert(s[p] == w[p] as u8);
        lemma_skip_digits_to(s, 1, p);
        assert forall|k: int| p + 1 <= k < s.len() implies is_digit(#[trigger] s[k]) by {
            assert(w[k] == b[k - p - 1]);
            assert(w[k] as u8 == s[k]);
        }
        lemma_skip_digits_to(s, p + 1, s.len() as int);
        assert(w[p + 1] == b[0]);
        assert(s[p + 1] == w[p + 1] as u8);
        assert(number_end(s, 1) == s.len());
    }
    assert(s.subrange(0, s.len() as int) =~= s);
    assert(text(s, 0, s.len() as int) == w);
    let st2 = ScanState {
        pos: w.len() as int,
        line: st.line,
        tokens: st.tokens.push(
            TokenView { token_type: TokenType::Number, lexeme: w, literal: Some(LitView::Num(w)), line: st.line as nat },
        ),
        had_error: st.had_error,
        errors: st.errors,
    };
    assert(w[0] == a[0] && w[0] as u8 == s[0]);
    assert(step(s, st) == ScanStep::Next(st2));
    assert(scan_from(s, st2) == ScanOutcome::Done(ScanState {
        pos: st2.pos,
        line: st2.line,
        tokens: st2.tokens.push(eof_token(st2.line)),
        had_error: st2.had_error,
        errors: st2.errors,
    }));
}

/// The token an operator or punctuation character starts, given whether an
/// `=` follows it: `(` `)` `{` `}` `,` `.` `-` `+` `;` `*` alone, and `!`
/// `=` `<` `>` alone or with the `=` after them.
pub open spec fn operator_token(c: char, eq_next: bool) -> Option<TokenType> {
    if c == '(' { Some(TokenType::LeftParen) }
    else if c == ')' { Some(TokenType::RightParen) }
    else if c == '{' { Some(TokenType::LeftBrace) }
    else if c == '}' { Some(TokenType::RightBrace) }
    else if c == ',' { Some(TokenType::Comma) }
    else if c == '.' { Some(TokenType::Dot) }
    else if c == '-' { Some(TokenType::Minus) }
    else if c == '+' { Some(TokenType::Plus) }
    else if c == ';' { Some(TokenType::Semicolon) }
    else if c == '*' { Some(TokenType::Star) }
    else if c == '!' { Some(if eq_next { TokenType::BangEqual } else { TokenType::Bang }) }
    else if c == '=' { Some(if eq_next { TokenType::EqualEqual } else { TokenType::Equal }) }
    else if c == '<' { Some(if eq_next { TokenType::LessEqual } else { TokenType::Less }) }
    else if c == '>' { Some(if eq_next { TokenType::GreaterEqual } else { TokenType::Greater }) }
    else { None }
}

/// In an ASCII source, an operator or punctuation character scans to its
/// token; `!`, `=`, `<` and `>` take the `=` right after them, if there is
/// one, into a two-character token, and nothing else; the lexeme is the
/// text scanned.
pub proof fn law_scan_operator(w: Seq<char>, st: ScanState)
    requires
        is_ascii_chars(w),
        0 <= st.pos < w.len(),
        operator_token(w[st.pos], false) is Some,
    ensures
        ({
            let p = st.pos;
            let c = w[p];
            let eq_next = (c == '!' || c == '=' || c == '<' || c == '>') && p + 1 < w.len() && w[p + 1] == '=';
            let end = if eq_next { p + 2 } else { p + 1 };
            step(encode_utf8(w), st) == ScanStep::Next(ScanState {
                pos: end,
                line: st.line,
                tokens: st.tokens.push(TokenView {
                    token_type: operator_token(c, eq_next)->0,
                    lexeme: w.subrange(p, end),
                    literal: Some(LitView::Nil),
                    line: st.line as nat,
                }),
                had_error: st.had_error,
                errors: st.errors,
            })
        }),
{
    broadcast use encode_utf8_valid_utf8, encode_utf8_decode_utf8, is_char_boundary_iff_not_is_continuation_byte,
        is_char_boundary_start_end_of_seq;
    let s = encode_utf8(w);
    let p = st.pos;
    let c = w[p];
    let eq_next = (c == '!' || c == '=' || c == '<' || c == '>') && p + 1 < w.len() && w[p + 1] == '=';
    let end = if eq_next { p + 2 } else { p + 1 };
    is_ascii_chars_encode_utf8(w);
    let piece = w.subrange(p, end);
    assert(is_ascii_chars(piece));
    is_ascii_chars_encode_utf8(piece);
    assert(s.subrange(p, end) =~= encode_utf8(piece));
    assert(text(s, p, end) == piece);
    assert(s[p] == c as u8);
    if p + 1 < w.len() {
        assert(s[p + 1] == w[p + 1] as u8);
    }
    if end < s.len() {
        assert(s[end] == w[end] as u8);
        assert(!is_continuation_byte(s[end]));
    }
    assert(!is_continuation_byte(s[p]));
    assert(slice_ok(s, p, end));
}

} // verus!
