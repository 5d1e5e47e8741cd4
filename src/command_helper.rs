//! Line-editor support: whether a line of input is ready to run.
//!
//! Input is ready once every `[`, `{` and `(` that the Solidity lexer sees
//! is closed (a closer with nothing open is ignored). Where the lexer yields
//! an error in place of a token, the first such error decides instead: input
//! that ends inside a comment, string or hex literal is not ready, and any
//! other error passes the input on for the backend to report. Errors that
//! the lexer only records, without yielding them, play no part: this lexer
//! records an unterminated string or comment that way. Input starting with
//! `.` and a digit is refused outright.
use vstd::prelude::*;
use crate::command_helper::Lexeme::{
    CommentUnclosed, CurlyClose, CurlyOpen, ExponentMissing, FromExpected, HexCharInvalid,
    HexUnclosed, NumberMissing, Plain, RoundClose, RoundOpen, SquareClose, SquareOpen,
    StringUnclosed, TokenUnrecognised,
};
use crate::text::chars_of;
use solang_parser::lexer::LexicalError::{
    EndOfFileInComment, EndOfFileInString, EndofFileInHex, ExpectedFrom,
    InvalidCharacterInHexLiteral, MissingExponent, MissingNumber, UnrecognisedToken,
};
use solang_parser::lexer::Token::{
    CloseBracket, CloseCurlyBrace, CloseParenthesis, OpenBracket, OpenCurlyBrace, OpenParenthesis,
};
use solang_parser::lexer::Lexer;

verus! {

/// One item the lexer yields: a delimiter token, any other token, or the
/// error it yields in place of a token, one variant per kind of error.
#[derive(Clone, Copy, Debug, PartialEq, Eq, Structural)]
pub enum Lexeme {
    SquareOpen,
    SquareClose,
    CurlyOpen,
    CurlyClose,
    RoundOpen,
    RoundClose,
    Plain,
    CommentUnclosed,
    StringUnclosed,
    HexUnclosed,
    NumberMissing,
    HexCharInvalid,
    TokenUnrecognised,
    ExponentMissing,
    FromExpected,
}

/// The items the Solidity lexer yields for a text.
pub uninterp spec fn solidity_lexing(s: Seq<char>) -> Seq<Lexeme>;

/// Relies on `solang_parser::lexer::Lexer`, iterated: the items it yields
/// for `input`, in order, each token reduced to the delimiter it is and each
/// yielded error to its kind. The result depends on the text alone.
#[verifier::external_body]
fn lex_solidity(input: &str) -> (r: Vec<Lexeme>)
    ensures
        r@ == solidity_lexing(input@),
{
    Lexer::new(input, 0, &mut Vec::new(), &mut Vec::new()).map(|item| match item.map(|(_, t, _)| t) {
        Ok(OpenBracket) => SquareOpen, Ok(CloseBracket) => SquareClose,
        Ok(OpenCurlyBrace) => CurlyOpen, Ok(CloseCurlyBrace) => CurlyClose,
        Ok(OpenParenthesis) => RoundOpen, Ok(CloseParenthesis) => RoundClose,
        Ok(_) => Plain, Err(EndOfFileInComment(_)) => CommentUnclosed,
        Err(EndOfFileInString(_)) => StringUnclosed, Err(EndofFileInHex(_)) => HexUnclosed,
        Err(MissingNumber(_)) => NumberMissing, Err(MissingExponent(_)) => ExponentMissing,
        Err(InvalidCharacterInHexLiteral(..)) => HexCharInvalid,
        Err(UnrecognisedToken(..)) => TokenUnrecognised, Err(ExpectedFrom(..)) => FromExpected,
    }).collect()
}

/// How far a line of input is from being ready to run.
#[derive(Debug, PartialEq, Eq)]
pub enum Validation {
    Valid,
    Incomplete,
    Invalid(String),
}

/// Why input that starts with `.` and a digit is refused.
pub const LEADING_INDEX_MESSAGE: &'static str = "\nInput must not start with `.<number>`";

/// How many of `open` are still unclosed after `ls`; a closer with nothing
/// open is ignored.
pub open spec fn depth_of(ls: Seq<Lexeme>, open: Lexeme, close: Lexeme) -> nat
    decreases ls.len(),
{
    if ls.len() == 0 {
        0
    } else {
        let d = depth_of(ls.drop_last(), open, close);
        if ls.last() == open {
            d + 1
        } else if ls.last() == close {
            if d > 0 {
                (d - 1) as nat
            } else {
                0
            }
        } else {
            d
        }
    }
}

/// Every bracket, brace and parenthesis in `ls` is closed.
pub open spec fn all_closed(ls: Seq<Lexeme>) -> bool {
    &&& depth_of(ls, Lexeme::SquareOpen, Lexeme::SquareClose) == 0
    &&& depth_of(ls, Lexeme::CurlyOpen, Lexeme::CurlyClose) == 0
    &&& depth_of(ls, Lexeme::RoundOpen, Lexeme::RoundClose) == 0
}

/// An error yielded in place of a token.
pub open spec fn is_fault(l: Lexeme) -> bool {
    !(l == Lexeme::SquareOpen || l == Lexeme::SquareClose || l == Lexeme::CurlyOpen || l
        == Lexeme::CurlyClose || l == Lexeme::RoundOpen || l == Lexeme::RoundClose || l
        == Lexeme::Plain)
}

/// An error saying the text ended inside a comment, string or hex literal.
pub open spec fn ends_inside(l: Lexeme) -> bool {
    l == Lexeme::CommentUnclosed || l == Lexeme::StringUnclosed || l == Lexeme::HexUnclosed
}

/// The first error in `ls`, if any.
pub open spec fn first_fault(ls: Seq<Lexeme>) -> Option<Lexeme>
    decreases ls.len(),
{
    if ls.len() == 0 {
        None
    } else {
        match first_fault(ls.drop_last()) {
            Some(f) => Some(f),
            None => if is_fault(ls.last()) {
                Some(ls.last())
            } else {
                None
            },
        }
    }
}

/// Whether lexed input is ready: the first yielded error decides if there
/// is one (not ready only where the text ended inside a comment, string or
/// hex literal); otherwise it is ready when everything is closed.
pub open spec fn closed_ready(ls: Seq<Lexeme>) -> bool {
    match first_fault(ls) {
        Some(f) => !ends_inside(f),
        None => all_closed(ls),
    }
}

proof fn lemma_first_fault_prefix(ls: Seq<Lexeme>, k: int)
    requires
        0 <= k <= ls.len(),
        first_fault(ls.take(k)) is Some,
    ensures
        first_fault(ls) == first_fault(ls.take(k)),
    decreases ls.len() - k,
{
    if k < ls.len() {
        assert(ls.drop_last().take(k) =~= ls.take(k));
        lemma_first_fault_prefix(ls.drop_last(), k);
    } else {
        assert(ls.take(k) =~= ls);
    }
}

/// Input that starts with `.` and then a digit.
pub open spec fn is_leading_index(s: Seq<char>) -> bool {
    s.len() >= 2 && s[0] == '.' && '0' <= s[1] <= '9'
}

/// Editor support for a read-eval loop: it remembers whether the last
/// dispatch failed.
#[derive(Clone, Copy, Debug)]
pub struct CommandHelper {
    /// Whether the dispatcher has errored.
    pub errored: bool,
}

impl CommandHelper {
    pub fn new() -> (r: Self)
        ensures
            !r.errored,
    {
        CommandHelper { errored: false }
    }

    /// Sets whether the dispatcher has errored.
    pub fn set_errored(&mut self, errored: bool) -> (r: &mut Self)
        ensures
            r.errored == errored,
            *final(self) == *final(r),
    {
        self.errored = errored;
        self
    }

    /// Whether the input starts with `.` and then a digit, which the lexer
    /// is known to mishandle.
    pub fn skip_input(input: &str) -> (r: bool)
        ensures
            r == is_leading_index(input@),
    {
        let chars = chars_of(input);
        chars.len() >= 2 && chars[0] == '.' && '0' <= chars[1] && chars[1] <= '9'
    }

    /// Whether lexed input is ready, given the items the lexer yields.
    pub fn closed_status(tokens: &Vec<Lexeme>) -> (r: Validation)
        ensures
            r == (if closed_ready(tokens@) {
                Validation::Valid
            } else {
                Validation::Incomplete
            }),
    {
        let mut brackets: usize = 0;
        let mut braces: usize = 0;
        let mut parens: usize = 0;
        let mut i: usize = 0;
        while i < tokens.len()
            invariant
                i <= tokens.len(),
                first_fault(tokens@.take(i as int)) is None,
                brackets == depth_of(tokens@.take(i as int), Lexeme::SquareOpen, Lexeme::SquareClose),
                braces == depth_of(tokens@.take(i as int), Lexeme::CurlyOpen, Lexeme::CurlyClose),
                parens == depth_of(tokens@.take(i as int), Lexeme::RoundOpen, Lexeme::RoundClose),
                brackets <= i,
                braces <= i,
                parens <= i,
            decreases tokens.len() - i,
        {
            assert(tokens@.take(i + 1).drop_last() =~= tokens@.take(i as int));
            match tokens[i] {
                Lexeme::SquareOpen => brackets = brackets + 1,
                Lexeme::CurlyOpen => braces = braces + 1,
                Lexeme::RoundOpen => parens = parens + 1,
                Lexeme::SquareClose => brackets = brackets.saturating_sub(1),
                Lexeme::CurlyClose => braces = braces.saturating_sub(1),
                Lexeme::RoundClose => parens = parens.saturating_sub(1),
                Lexeme::Plain => {},
                Lexeme::CommentUnclosed | Lexeme::StringUnclosed | Lexeme::HexUnclosed => {
                    proof {
                        lemma_first_fault_prefix(tokens@, i + 1);
                    }
                    return Validation::Incomplete;
                },
                _ => {
                    proof {
                        lemma_first_fault_prefix(tokens@, i + 1);
                    }
                    return Validation::Valid;
                },
            }
            i = i + 1;
        }
        assert(tokens@.take(i as int) =~= tokens@);
        if brackets == 0 && braces == 0 && parens == 0 {
            Validation::Valid
        } else {
            Validation::Incomplete
        }
    }

    /// Whether a line of input is ready to run: refused if it starts with
    /// `.` and a digit, otherwise as the Solidity lexer's view of it decides.
    pub fn validate_closed(input: &str) -> (r: Validation)
        ensures
            is_leading_index(input@) ==> (r matches Validation::Invalid(m) && m@
                == LEADING_INDEX_MESSAGE@),
            !is_leading_index(input@) ==> r == (if closed_ready(solidity_lexing(input@)) {
                Validation::Valid
            } else {
                Validation::Incomplete
            }),
    {
        if Self::skip_input(input) {
            return Validation::Invalid(LEADING_INDEX_MESSAGE.to_string());
        }
        Self::closed_status(&lex_solidity(input))
    }
}

} // verus!
