use vstd::prelude::*;
use crate::text::{push_char, push_decimal, decimal};
use vstd::string::StringExecFns;

verus! {

/// Why a computation stops without a result: `Panic` on an input the
/// language does not handle (a slice out of range, no tokens at all, a
/// number beyond `u32`).
#[derive(Clone, Copy, Debug, PartialEq, Eq, Structural)]
pub enum Halt {
    Panic,
}

/// An error found while scanning, parsing or running a program.
#[derive(Debug)]
pub enum ErrorKind {
    Simple(String),
    WithLocation { message: String, line: u32, col: Option<u32> },
    WithRange { message: String, start_line: u32, end_line: u32 },
}

/// Mathematical view of an error.
pub enum ErrorView {
    Simple(Seq<char>),
    WithLocation { message: Seq<char>, line: u32, col: Option<u32> },
    WithRange { message: Seq<char>, start_line: u32, end_line: u32 },
}

impl View for ErrorKind {
    type V = ErrorView;

    open spec fn view(&self) -> ErrorView {
        match self {
            ErrorKind::Simple(m) => ErrorView::Simple(m@),
            ErrorKind::WithLocation { message, line, col } => ErrorView::WithLocation {
                message: message@,
                line: *line,
                col: *col,
            },
            ErrorKind::WithRange { message, start_line, end_line } => ErrorView::WithRange {
                message: message@,
                start_line: *start_line,
                end_line: *end_line,
            },
        }
    }
}

/// The line of text under which an error is shown to the user.
pub open spec fn error_text(e: ErrorView) -> Seq<char> {
    match e {
        ErrorView::Simple(m) => m,
        ErrorView::WithLocation { message, line, col } => match col {
            Some(c) => "[line "@ + decimal(line as nat) + ", col "@ + decimal(c as nat) + "] Error: "@ + message,
            None => "[line "@ + decimal(line as nat) + "] Error: "@ + message,
        },
        ErrorView::WithRange { message, start_line, end_line } =>
            "[lines "@ + decimal(start_line as nat) + "\u{2013}"@ + decimal(end_line as nat) + "] Error: "@ + message,
    }
}

impl ErrorKind {
    /// The text under which the error is reported.
    pub fn message(&self) -> (r: String)
        ensures
            r@ == error_text(self@),
    {
        let mut s = String::new();
        match self {
            ErrorKind::Simple(m) => {
                s.append(m.as_str());
            },
            ErrorKind::WithLocation { message, line, col } => {
                s.append("[line ");
                push_decimal(&mut s, *line);
                match col {
                    Some(c) => {
                        s.append(", col ");
                        push_decimal(&mut s, *c);
                    },
                    None => {},
                }
                s.append("] Error: ");
                s.append(message.as_str());
            },
            ErrorKind::WithRange { message, start_line, end_line } => {
                s.append("[lines ");
                push_decimal(&mut s, *start_line);
                s.append("\u{2013}");
                push_decimal(&mut s, *end_line);
                s.append("] Error: ");
                s.append(message.as_str());
            },
        }
        s
    }
}

/// The interpreter's error state: whether an error has been seen since the
/// flag was last cleared, and every error reported so far, oldest first.
pub struct Lox {
    pub had_error: bool,
    pub reported: Vec<ErrorKind>,
}

impl Lox {
    /// The errors reported so far, as views.
    pub open spec fn errors(&self) -> Seq<ErrorView> {
        self.reported@.map_values(|e: ErrorKind| e@)
    }

    pub fn new() -> (r: Self)
        ensures
            !r.had_error,
            r.errors() == Seq::<ErrorView>::empty(),
    {
        let r = Self { had_error: false, reported: Vec::new() };
        assert(r.errors() =~= Seq::<ErrorView>::empty());
        r
    }
}

impl Default for Lox {
    fn default() -> (r: Self)
        ensures
            !r.had_error,
            r.errors() == Seq::<ErrorView>::empty(),
    {
        Self::new()
    }
}

/// Records `error` and raises the error flag.
pub fn report(lox: &mut Lox, error: ErrorKind)
    ensures
        final(lox).had_error,
        final(lox).errors() == old(lox).errors().push(error@),
{
    let ghost e = error@;
    lox.reported.push(error);
    lox.had_error = true;
    assert(lox.errors() =~= old(lox).errors().push(e));
}

/// The text under which an error is shown: a plain error shows its
/// message alone; a located one shows `[line L] Error: ` (with `, col C`
/// after the line where it has a column) and then its message; a ranged one
/// `[lines A–B] Error: ` and then its message; each number in decimal.
pub proof fn law_error_text(message: Seq<char>, line: u32, col: u32, end: u32)
    ensures
        error_text(ErrorView::Simple(message)) == message,
        error_text(ErrorView::WithLocation { message, line, col: None })
            == seq!['[', 'l', 'i', 'n', 'e', ' '] + decimal(line as nat) + seq![']', ' ', 'E', 'r', 'r', 'o', 'r', ':', ' '] + message,
        error_text(ErrorView::WithLocation { message, line, col: Some(col) })
            == seq!['[', 'l', 'i', 'n', 'e', ' '] + decimal(line as nat) + seq![',', ' ', 'c', 'o', 'l', ' '] + decimal(col as nat)
                + seq![']', ' ', 'E', 'r', 'r', 'o', 'r', ':', ' '] + message,
        error_text(ErrorView::WithRange { message, start_line: line, end_line: end })
            == seq!['[', 'l', 'i', 'n', 'e', 's', ' '] + decimal(line as nat) + seq!['\u{2013}'] + decimal(end as nat)
                + seq![']', ' ', 'E', 'r', 'r', 'o', 'r', ':', ' '] + message,
{
    reveal_strlit("[line ");
    reveal_strlit("[lines ");
    reveal_strlit("] Error: ");
    reveal_strlit(", col ");
    reveal_strlit("\u{2013}");
    assert("[line "@ =~= seq!['[', 'l', 'i', 'n', 'e', ' ']);
    assert("[lines "@ =~= seq!['[', 'l', 'i', 'n', 'e', 's', ' ']);
    assert("] Error: "@ =~= seq![']', ' ', 'E', 'r', 'r', 'o', 'r', ':', ' ']);
    assert(", col "@ =~= seq![',', ' ', 'c', 'o', 'l', ' ']);
    assert("\u{2013}"@ =~= seq!['\u{2013}']);
}

} // verus!
