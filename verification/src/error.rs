//! The ways in which the stages can fail. Every failure ends the whole run:
//! nothing is recovered and no partial result is handed out.

use vstd::prelude::*;

verus! {

/// Why a source text could not be split into tokens.
#[derive(Debug, Clone, Copy, PartialEq, Eq, Structural)]
pub enum LexError {
    /// A character that is not whitespace, a digit, an ASCII letter or part
    /// of an operator.
    UnknownCharacter,
    /// A run of digits whose value does not fit in 32 bits.
    NumberTooLarge,
}

/// Why a token sequence is not a program, or a tree cannot be lowered.
#[derive(Debug, Clone, Copy, PartialEq, Eq, Structural)]
pub enum ParseError {
    /// A number was required and something else was found.
    ExpectedNumber,
    /// A particular operator or punctuation mark was required and something
    /// else was found.
    ExpectedSymbol,
    /// The left side of an assignment is not a variable.
    NotAssignable,
}

/// Why a source text could not be compiled.
#[derive(Debug, Clone, Copy, PartialEq, Eq, Structural)]
pub enum CompileError {
    /// The text could not be split into tokens.
    Lex(LexError),
    /// The tokens are not a program, or a statement cannot be lowered.
    Parse(ParseError),
}

impl LexError {
    /// What went wrong, in words.
    pub open spec fn spec_message(self) -> Seq<char> {
        match self {
            LexError::UnknownCharacter => "could not tokenize: unknown character"@,
            LexError::NumberTooLarge => "could not tokenize: number does not fit in 32 bits"@,
        }
    }

    /// What went wrong, in words.
    pub fn message(&self) -> (text: String)
        ensures
            text@ == self.spec_message(),
    {
        match self {
            LexError::UnknownCharacter => String::from_str("could not tokenize: unknown character"),
            LexError::NumberTooLarge => String::from_str(
                "could not tokenize: number does not fit in 32 bits",
            ),
        }
    }
}

impl ParseError {
    /// What went wrong, in words.
    pub open spec fn spec_message(self) -> Seq<char> {
        match self {
            ParseError::ExpectedNumber => "expected a number"@,
            ParseError::ExpectedSymbol => "expected an operator or a punctuation mark"@,
            ParseError::NotAssignable => "the left side of an assignment is not a variable"@,
        }
    }

    /// What went wrong, in words.
    pub fn message(&self) -> (text: String)
        ensures
            text@ == self.spec_message(),
    {
        match self {
            ParseError::ExpectedNumber => String::from_str("expected a number"),
            ParseError::ExpectedSymbol => String::from_str(
                "expected an operator or a punctuation mark",
            ),
            ParseError::NotAssignable => String::from_str(
                "the left side of an assignment is not a variable",
            ),
        }
    }
}

impl CompileError {
    /// What went wrong, in words.
    pub open spec fn spec_message(self) -> Seq<char> {
        match self {
            CompileError::Lex(e) => e.spec_message(),
            CompileError::Parse(e) => e.spec_message(),
        }
    }

    /// What went wrong, in words.
    pub fn message(&self) -> (text: String)
        ensures
            text@ == self.spec_message(),
    {
        match self {
            CompileError::Lex(e) => e.message(),
            CompileError::Parse(e) => e.message(),
        }
    }
}

} // verus!
