use vstd::prelude::*;
use crate::token::TokenType;

verus! {

/// The runtime type of a value, as the operators see it.
#[derive(Clone, Copy, Debug, PartialEq, Eq, Structural)]
pub enum Kind {
    Str,
    Num,
    Bool,
    Nil,
}

/// The kinds of type error an operator reports.
#[derive(Clone, Copy, Debug, PartialEq, Eq, Structural)]
pub enum TypeError {
    Subtraction,
    Addition,
    Multiplication,
    Division,
    Comparison,
}

/// What a binary operator does with operands of the given kinds; the
/// numeric work itself is the caller's.
#[derive(Clone, Copy, Debug, PartialEq, Eq, Structural)]
pub enum BinaryAction {
    /// The operator applied to two numbers.
    Numbers,
    /// Concatenation of two strings.
    Concat,
    /// The string operand repeated by the number operand; the string is the
    /// left operand when `string_left`.
    Repeat { string_left: bool },
    /// The operator (a comparison or (in)equality) applied to two strings.
    Strings,
    /// A fixed boolean result.
    Constant(bool),
    /// A type error is reported.
    Error(TypeError),
    /// No value and no error: the operator is not a binary one.
    Nothing,
}

pub open spec fn is_comparison(op: TokenType) -> bool {
    op == TokenType::Greater || op == TokenType::GreaterEqual || op == TokenType::Less || op == TokenType::LessEqual
}

/// The rule for `left op right` by the operands' kinds.
pub open spec fn binary_rule(op: TokenType, left: Kind, right: Kind) -> BinaryAction {
    if op == TokenType::Minus {
        if left == Kind::Num && right == Kind::Num { BinaryAction::Numbers } else { BinaryAction::Error(TypeError::Subtraction) }
    } else if op == TokenType::Plus {
        if left == Kind::Num && right == Kind::Num {
            BinaryAction::Numbers
        } else if left == Kind::Str && right == Kind::Str {
            BinaryAction::Concat
        } else {
            BinaryAction::Error(TypeError::Addition)
        }
    } else if op == TokenType::Star {
        if left == Kind::Num && right == Kind::Num {
            BinaryAction::Numbers
        } else if left == Kind::Str && right == Kind::Num {
            BinaryAction::Repeat { string_left: true }
        } else if left == Kind::Num && right == Kind::Str {
            BinaryAction::Repeat { string_left: false }
        } else {
            BinaryAction::Error(TypeError::Multiplication)
        }
    } else if op == TokenType::Slash {
        if left == Kind::Num && right == Kind::Num { BinaryAction::Numbers } else { BinaryAction::Error(TypeError::Division) }
    } else if is_comparison(op) {
        if left == Kind::Num && right == Kind::Num {
            BinaryAction::Numbers
        } else if left == Kind::Str && right == Kind::Str {
            BinaryAction::Strings
        } else {
            BinaryAction::Error(TypeError::Comparison)
        }
    } else if op == TokenType::EqualEqual || op == TokenType::BangEqual {
        if left == Kind::Num && right == Kind::Num {
            BinaryAction::Numbers
        } else if left == Kind::Str && right == Kind::Str {
            BinaryAction::Strings
        } else if left == Kind::Nil {
            BinaryAction::Constant((right == Kind::Nil) == (op == TokenType::EqualEqual))
        } else {
            BinaryAction::Error(TypeError::Comparison)
        }
    } else {
        BinaryAction::Nothing
    }
}

/// The ten binary operators: arithmetic, comparison and (in)equality.
pub open spec fn binary_operator(op: TokenType) -> bool {
    op == TokenType::Minus || op == TokenType::Plus || op == TokenType::Star || op == TokenType::Slash
        || op == TokenType::Greater || op == TokenType::GreaterEqual || op == TokenType::Less
        || op == TokenType::LessEqual || op == TokenType::EqualEqual || op == TokenType::BangEqual
}

/// Decides what `left op right` does.
pub fn binary_action(op: TokenType, left: Kind, right: Kind) -> (r: BinaryAction)
    ensures
        r == binary_rule(op, left, right),
        binary_operator(op) && left == Kind::Num && right == Kind::Num ==> r == BinaryAction::Numbers,
        op == TokenType::Plus && left == Kind::Str && right == Kind::Str ==> r == BinaryAction::Concat,
        binary_operator(op) && op != TokenType::Minus && op != TokenType::Plus && op != TokenType::Star
            && op != TokenType::Slash && left == Kind::Str && right == Kind::Str ==> r == BinaryAction::Strings,
        op == TokenType::Star && left == Kind::Str && right == Kind::Num ==> r == (BinaryAction::Repeat { string_left: true }),
        op == TokenType::Star && left == Kind::Num && right == Kind::Str ==> r == (BinaryAction::Repeat { string_left: false }),
        (op == TokenType::EqualEqual || op == TokenType::BangEqual) && left == Kind::Nil
            ==> r == BinaryAction::Constant((right == Kind::Nil) == (op == TokenType::EqualEqual)),
        !binary_operator(op) ==> r == BinaryAction::Nothing,
        r is Numbers ==> left == Kind::Num && right == Kind::Num,
{
    match op {
        TokenType::Minus => if left == Kind::Num && right == Kind::Num {
            BinaryAction::Numbers
        } else {
            BinaryAction::Error(TypeError::Subtraction)
        },
        TokenType::Plus => if left == Kind::Num && right == Kind::Num {
            BinaryAction::Numbers
        } else if left == Kind::Str && right == Kind::Str {
            BinaryAction::Concat
        } else {
            BinaryAction::Error(TypeError::Addition)
        },
        TokenType::Star => if left == Kind::Num && right == Kind::Num {
            BinaryAction::Numbers
        } else if left == Kind::Str && right == Kind::Num {
            BinaryAction::Repeat { string_left: true }
        } else if left == Kind::Num && right == Kind::Str {
            BinaryAction::Repeat { string_left: false }
        } else {
            BinaryAction::Error(TypeError::Multiplication)
        },
        TokenType::Slash => if left == Kind::Num && right == Kind::Num {
            BinaryAction::Numbers
        } else {
            BinaryAction::Error(TypeError::Division)
        },
        TokenType::Greater | TokenType::GreaterEqual | TokenType::Less | TokenType::LessEqual => {
            if left == Kind::Num && right == Kind::Num {
                BinaryAction::Numbers
            } else if left == Kind::Str && right == Kind::Str {
                BinaryAction::Strings
            } else {
                BinaryAction::Error(TypeError::Comparison)
            }
        },
        TokenType::EqualEqual | TokenType::BangEqual => {
            if left == Kind::Num && right == Kind::Num {
                BinaryAction::Numbers
            } else if left == Kind::Str && right == Kind::Str {
                BinaryAction::Strings
            } else if left == Kind::Nil {
                BinaryAction::Constant((right == Kind::Nil) == (op == TokenType::EqualEqual))
            } else {
                BinaryAction::Error(TypeError::Comparison)
            }
        },
        _ => BinaryAction::Nothing,
    }
}

/// The message of a type error.
pub open spec fn type_error_text(e: TypeError) -> Seq<char> {
    match e {
        TypeError::Subtraction => "Types dont suit subtraction"@,
        TypeError::Addition => "Types dont suit addition"@,
        TypeError::Multiplication => "Types dont suit multiplication"@,
        TypeError::Division => "Types dont suit division"@,
        TypeError::Comparison => "Types cant be compared"@,
    }
}

impl TypeError {
    pub fn message(&self) -> (r: String)
        ensures
            r@ == type_error_text(*self),
    {
        match self {
            TypeError::Subtraction => "Types dont suit subtraction".to_owned(),
            TypeError::Addition => "Types dont suit addition".to_owned(),
            TypeError::Multiplication => "Types dont suit multiplication".to_owned(),
            TypeError::Division => "Types dont suit division".to_owned(),
            TypeError::Comparison => "Types cant be compared".to_owned(),
        }
    }
}

/// What a unary operator does with an operand of the given kind.
#[derive(Clone, Copy, Debug, PartialEq, Eq, Structural)]
pub enum UnaryAction {
    /// The number is negated.
    Negate,
    /// The result is the negation of the operand's truth.
    Not,
    /// "Invalid operand for unary minus" is reported.
    InvalidOperand,
}

pub open spec fn unary_rule(op: TokenType, operand: Kind) -> UnaryAction {
    if op == TokenType::Minus {
        if operand == Kind::Num { UnaryAction::Negate } else { UnaryAction::InvalidOperand }
    } else {
        UnaryAction::Not
    }
}

/// Decides what `op operand` does, for the two unary operators `-` and `!`
/// (the only ones the parser builds unary nodes for).
pub fn unary_action(op: TokenType, operand: Kind) -> (r: UnaryAction)
    requires
        op == TokenType::Minus || op == TokenType::Bang,
    ensures
        r == unary_rule(op, operand),
        op == TokenType::Minus && operand == Kind::Num ==> r == UnaryAction::Negate,
        op == TokenType::Minus && operand != Kind::Num ==> r == UnaryAction::InvalidOperand,
        op == TokenType::Bang ==> r == UnaryAction::Not,
{
    match op {
        TokenType::Minus => if operand == Kind::Num {
            UnaryAction::Negate
        } else {
            UnaryAction::InvalidOperand
        },
        _ => UnaryAction::Not,
    }
}

/// The rule of a binary operator, over all kinds of operands: two numbers
/// go to the embedder's arithmetic or comparison, `+` joins two strings, a
/// comparison or (in)equality of two strings compares them, `*` repeats a
/// string a number of times, `==` and `!=` with `nil` on the left are
/// decided at once, any other pair of kinds is an error of the operator's
/// kind, and a token that is no binary operator does nothing.
pub proof fn law_binary_rule(op: TokenType, left: Kind, right: Kind)
    ensures
        binary_operator(op) && left == Kind::Num && right == Kind::Num ==> binary_rule(op, left, right) == BinaryAction::Numbers,
        op == TokenType::Plus && left == Kind::Str && right == Kind::Str ==> binary_rule(op, left, right) == BinaryAction::Concat,
        !binary_operator(op) ==> binary_rule(op, left, right) == BinaryAction::Nothing,
        binary_rule(op, left, right) is Numbers ==> left == Kind::Num && right == Kind::Num,
        binary_rule(op, left, right) is Concat ==> op == TokenType::Plus && left == Kind::Str && right == Kind::Str,
        binary_rule(op, left, right) is Repeat ==> op == TokenType::Star,
        binary_rule(op, left, right) matches BinaryAction::Error(e) ==> binary_operator(op) && match e {
            TypeError::Subtraction => op == TokenType::Minus,
            TypeError::Addition => op == TokenType::Plus,
            TypeError::Multiplication => op == TokenType::Star,
            TypeError::Division => op == TokenType::Slash,
            TypeError::Comparison => op != TokenType::Minus && op != TokenType::Plus && op != TokenType::Star && op != TokenType::Slash,
        },
{
}

} // verus!
