use vstd::prelude::*;
use vstd::utf8::encode_utf8;
use crate::ast::{Statement, stmts_view};
use crate::error::{Halt, Lox};
use crate::grammar::{PState, Parsed, parse_result};
use crate::parser::{Parser, pstate};
use crate::scanner::{ScanOutcome, ScanState, Scanner, scan_from, token_views};
use crate::token::Token;

verus! {

/// The scanner state at the start of a source text.
pub open spec fn initial_scan(lox: &Lox) -> ScanState {
    ScanState { pos: 0, line: 1, tokens: Seq::empty(), had_error: lox.had_error, errors: lox.errors() }
}

/// What scanning and then parsing `t` (the scanned tokens) gives, when the
/// scan ended in `st`: `Ok(None)` where an error stops the run before the
/// program would be interpreted, `Ok(Some(program))` otherwise, and the
/// error state at that point.
pub open spec fn front_end_result(t: Seq<Token>, st: ScanState) -> Option<(Result<Option<Seq<crate::ast::Stmt>>, Halt>, bool, Seq<crate::error::ErrorView>)> {
    if st.had_error {
        Some((Ok(None), st.had_error, st.errors))
    } else {
        match parse_result(t, PState { pos: 0, had_error: st.had_error, errors: st.errors }) {
            Parsed::Done(program, pst) => if pst.had_error {
                Some((Ok(None), pst.had_error, pst.errors))
            } else {
                Some((Ok(Some(program)), pst.had_error, pst.errors))
            },
            Parsed::Stop(h) => Some((Err(h), false, Seq::empty())),
            Parsed::OutOfFuel => None,
        }
    }
}

/// Scans and parses a source text, as running it does before the program is
/// interpreted: `Ok(None)` where a scan or parse error stops the run,
/// `Ok(Some(program))` where the program is to be interpreted, `Err` where
/// scanning or parsing stops (`Halt`).
pub fn scan_and_parse(lox: &mut Lox, source: &str) -> (r: Result<Option<Vec<Statement>>, Halt>)
    requires
        encode_utf8(source@).len() < usize::MAX,
    ensures
        match scan_from(encode_utf8(source@), initial_scan(old(lox))) {
            ScanOutcome::Panic => r == Err::<Option<Vec<Statement>>, Halt>(Halt::Panic),
            ScanOutcome::Done(st) => exists|t: Seq<Token>| #![auto]
                token_views(t) == st.tokens && match front_end_result(t, st) {
                    Some((out, had_error, errors)) => match out {
                        Ok(None) => r == Ok::<Option<Vec<Statement>>, Halt>(None) && final(lox).had_error == had_error
                            && final(lox).errors() == errors,
                        Ok(Some(program)) => r is Ok && r->Ok_0 is Some && stmts_view(r->Ok_0->Some_0@) == program
                            && final(lox).had_error == had_error && final(lox).errors() == errors,
                        Err(h) => r == Err::<Option<Vec<Statement>>, Halt>(h),
                    },
                    None => false,
                },
        },
        r matches Ok(Some(_)) ==> !final(lox).had_error,
        r matches Ok(None) ==> final(lox).had_error,
{
    let ghost s = encode_utf8(source@);
    let ghost st0 = initial_scan(lox);
    let mut scanner = Scanner::init(source.to_owned());
    assert(scanner.state(lox) == st0);
    match scanner.scan_tokens_checked(lox) {
        Err(_) => {
            return Err(Halt::Panic);
        },
        Ok(()) => {},
    }
    let ghost st = scan_from(s, st0)->Done_0;
    let ghost t = scanner.tokens@;
    assert(token_views(t) == st.tokens);
    if lox.had_error {
        return Ok(None);
    }
    let mut parser = Parser::init(scanner.tokens);
    assert(pstate(&parser, lox) == PState { pos: 0, had_error: st.had_error, errors: st.errors });
    let program = match parser.parse_checked(lox) {
        Ok(p) => p,
        Err(h) => {
            assert(front_end_result(t, st) == Some((Err::<Option<Seq<crate::ast::Stmt>>, Halt>(h), false, Seq::<crate::error::ErrorView>::empty())));
            return Err(h);
        },
    };
    if lox.had_error {
        return Ok(None);
    }
    Ok(Some(program))
}

} // verus!
