//! The grammar, as functions from the pending tokens and the symbol table
//! to what parsing yields.
//!
//! ```text
//! program        = statement*
//! statement      = expression ';'
//! expression     = assignment
//! assignment     = equality ('=' assignment)?
//! equality       = relational (('==' | '!=') relational)*
//! relational     = additive (('<' | '<=' | '>' | '>=') additive)*
//! additive       = multiplicative (('+' | '-') multiplicative)*
//! multiplicative = unary (('*' | '/') unary)*
//! unary          = ('+' | '-')? primary
//! primary        = number | identifier | '(' expression ')'
//! ```
//!
//! The functions of the grammar call each other in a circle, so they are
//! opaque: a proof that needs to look into one of them uses the lemma that
//! unfolds it once.

use crate::error::ParseError;
use crate::parser::{Node, NodeKind};
use crate::table::{resolve, Entry};
use crate::tokenizer::{advance, peek, Tok};
use vstd::prelude::*;

verus! {

/// What parsing one construct yields: its tree, how many tokens it took,
/// and the symbol table afterwards.
pub struct Parsed {
    /// The tree of the construct.
    pub node: Node,
    /// The number of tokens that the construct is made of.
    pub used: nat,
    /// The symbol table with the variables of the construct entered.
    pub vars: Seq<Entry>,
}

/// `r`, counted as having taken `n` more tokens.
pub open spec fn shifted(r: Result<Parsed, ParseError>, n: nat) -> Result<Parsed, ParseError> {
    match r {
        Ok(p) => Ok(Parsed { node: p.node, used: p.used + n, vars: p.vars }),
        Err(e) => Err(e),
    }
}

/// Whether the next token of `toks` is the operator or punctuation mark
/// `op`.
pub open spec fn is_symbol(toks: Seq<Tok>, op: Seq<char>) -> bool {
    peek(toks) == Tok::Reserved(op)
}

/// The four levels of binary operators that group to the left, from the
/// one that binds tightest.
pub enum Level {
    /// `*` and `/`
    Mul,
    /// `+` and `-`
    Add,
    /// `<`, `<=`, `>` and `>=`
    Relational,
    /// `==` and `!=`
    Equality,
}

impl Level {
    /// The place of the level, counted from the tightest.
    pub open spec fn rank(self) -> nat {
        match self {
            Level::Mul => 0,
            Level::Add => 1,
            Level::Relational => 2,
            Level::Equality => 3,
        }
    }
}

/// The operator of `level` that `toks` begins with, if it begins with one:
/// the kind of node it makes, and whether its operands change sides. `>`
/// and `>=` are stored as `<` and `<=` with the operands exchanged.
pub open spec fn operator_at(level: Level, toks: Seq<Tok>) -> Option<(NodeKind, bool)> {
    match level {
        Level::Mul => if is_symbol(toks, "*"@) {
            Some((NodeKind::NdMul, false))
        } else if is_symbol(toks, "/"@) {
            Some((NodeKind::NdDiv, false))
        } else {
            None
        },
        Level::Add => if is_symbol(toks, "+"@) {
            Some((NodeKind::NdAdd, false))
        } else if is_symbol(toks, "-"@) {
            Some((NodeKind::NdSub, false))
        } else {
            None
        },
        Level::Relational => if is_symbol(toks, "<"@) {
            Some((NodeKind::NdLess, false))
        } else if is_symbol(toks, "<="@) {
            Some((NodeKind::NdLessEq, false))
        } else if is_symbol(toks, ">"@) {
            Some((NodeKind::NdLess, true))
        } else if is_symbol(toks, ">="@) {
            Some((NodeKind::NdLessEq, true))
        } else {
            None
        },
        Level::Equality => if is_symbol(toks, "=="@) {
            Some((NodeKind::NdEq, false))
        } else if is_symbol(toks, "!="@) {
            Some((NodeKind::NdNotEq, false))
        } else {
            None
        },
    }
}

/// The node that an operator makes of the operand before it and the
/// operand after it.
pub open spec fn joined(op: (NodeKind, bool), before: Node, after: Node) -> Node {
    if op.1 {
        Node::binary(op.0, after, before)
    } else {
        Node::binary(op.0, before, after)
    }
}

/// `primary = number | identifier | '(' expression ')'`
///
/// A name stands for its variable: the table is asked for the name's
/// offset, and enters the name if it is new.
#[verifier::opaque]
pub open spec fn spec_primary(toks: Seq<Tok>, vars: Seq<Entry>) -> Result<Parsed, ParseError>
    decreases toks.len(), 0nat,
{
    if is_symbol(toks, "("@) {
        match spec_expr(advance(toks, 1), vars) {
            Ok(p) => if is_symbol(advance(toks, 1 + p.used), ")"@) {
                Ok(Parsed { node: p.node, used: p.used + 2, vars: p.vars })
            } else {
                Err(ParseError::ExpectedSymbol)
            },
            Err(e) => Err(e),
        }
    } else {
        match peek(toks) {
            Tok::Ident(name) => Ok(
                Parsed {
                    node: Node::lvar(resolve(vars, name).0),
                    used: 1,
                    vars: resolve(vars, name).1,
                },
            ),
            Tok::Num(val) => Ok(Parsed { node: Node::num(val), used: 1, vars }),
            _ => Err(ParseError::ExpectedNumber),
        }
    }
}

/// `unary = ('+' | '-')? primary`
///
/// `+x` is `x`, and `-x` is `0 - x`.
#[verifier::opaque]
pub open spec fn spec_unary(toks: Seq<Tok>, vars: Seq<Entry>) -> Result<Parsed, ParseError>
    decreases toks.len(), 1nat,
{
    if is_symbol(toks, "+"@) {
        shifted(spec_primary(advance(toks, 1), vars), 1)
    } else if is_symbol(toks, "-"@) {
        match spec_primary(advance(toks, 1), vars) {
            Ok(p) => Ok(
                Parsed {
                    node: Node::binary(NodeKind::NdSub, Node::num(0), p.node),
                    used: p.used + 1,
                    vars: p.vars,
                },
            ),
            Err(e) => Err(e),
        }
    } else {
        spec_primary(toks, vars)
    }
}

/// One operand of an operator of `level`: a `unary` for the tightest
/// level, and for every other level a chain of the level below.
#[verifier::opaque]
pub open spec fn spec_operand(level: Level, toks: Seq<Tok>, vars: Seq<Entry>) -> Result<
    Parsed,
    ParseError,
>
    decreases toks.len(), 3 * level.rank() + 2,
{
    match level {
        Level::Mul => spec_unary(toks, vars),
        Level::Add => spec_chain(Level::Mul, toks, vars),
        Level::Relational => spec_chain(Level::Add, toks, vars),
        Level::Equality => spec_chain(Level::Relational, toks, vars),
    }
}

/// `(operator operand)*` of `level`, behind what has been parsed into
/// `lhs`: every further operator takes all that stands before it as one
/// operand, so the operators group to the left.
#[verifier::opaque]
pub open spec fn spec_chain_rest(level: Level, lhs: Node, toks: Seq<Tok>, vars: Seq<Entry>) -> Result<
    Parsed,
    ParseError,
>
    decreases toks.len(), 3 * level.rank() + 3,
{
    match operator_at(level, toks) {
        Some(op) => match spec_operand(level, advance(toks, 1), vars) {
            Ok(p) => shifted(
                spec_chain_rest(
                    level,
                    joined(op, lhs, p.node),
                    advance(toks, 1 + p.used),
                    p.vars,
                ),
                1 + p.used,
            ),
            Err(e) => Err(e),
        },
        None => Ok(Parsed { node: lhs, used: 0, vars }),
    }
}

/// `operand (operator operand)*` of `level`: with `Level::Mul` this is
/// `multiplicative`, with `Level::Add` `additive`, with
/// `Level::Relational` `relational`, and with `Level::Equality`
/// `equality`.
#[verifier::opaque]
pub open spec fn spec_chain(level: Level, toks: Seq<Tok>, vars: Seq<Entry>) -> Result<
    Parsed,
    ParseError,
>
    decreases toks.len(), 3 * level.rank() + 4,
{
    match spec_operand(level, toks, vars) {
        Ok(p) => shifted(spec_chain_rest(level, p.node, advance(toks, p.used), p.vars), p.used),
        Err(e) => Err(e),
    }
}

/// `assignment = equality ('=' assignment)?`
///
/// Assignment groups to the right. Whatever stands on the left is taken as
/// it is; whether it can be assigned to is found out when code is
/// generated.
#[verifier::opaque]
pub open spec fn spec_assign(toks: Seq<Tok>, vars: Seq<Entry>) -> Result<Parsed, ParseError>
    decreases toks.len(), 14nat,
{
    match spec_chain(Level::Equality, toks, vars) {
        Ok(l) => if is_symbol(advance(toks, l.used), "="@) {
            match spec_assign(advance(toks, l.used + 1), l.vars) {
                Ok(r) => Ok(
                    Parsed {
                        node: Node::binary(NodeKind::NdAssign, l.node, r.node),
                        used: l.used + 1 + r.used,
                        vars: r.vars,
                    },
                ),
                Err(e) => Err(e),
            }
        } else {
            Ok(l)
        },
        Err(e) => Err(e),
    }
}

/// `expression = assignment`
#[verifier::opaque]
pub open spec fn spec_expr(toks: Seq<Tok>, vars: Seq<Entry>) -> Result<Parsed, ParseError>
    decreases toks.len(), 15nat,
{
    spec_assign(toks, vars)
}

/// `statement = expression ';'`
pub open spec fn spec_stmt(toks: Seq<Tok>, vars: Seq<Entry>) -> Result<Parsed, ParseError> {
    match spec_expr(toks, vars) {
        Ok(p) => if is_symbol(advance(toks, p.used), ";"@) {
            Ok(Parsed { node: p.node, used: p.used + 1, vars: p.vars })
        } else {
            Err(ParseError::ExpectedSymbol)
        },
        Err(e) => Err(e),
    }
}

/// `program = statement*`, up to the end marker: the trees of the
/// statements in source order, and the symbol table at the end.
#[verifier::opaque]
pub open spec fn spec_program(toks: Seq<Tok>, vars: Seq<Entry>) -> Result<
    (Seq<Node>, Seq<Entry>),
    ParseError,
>
    decreases toks.len(),
{
    if peek(toks) == Tok::Eof {
        Ok((Seq::empty(), vars))
    } else {
        match spec_stmt(toks, vars) {
            Ok(p) => match spec_program(advance(toks, p.used), p.vars) {
                Ok((rest, table)) => Ok((seq![p.node] + rest, table)),
                Err(e) => Err(e),
            },
            Err(e) => Err(e),
        }
    }
}

/// [`spec_primary`], unfolded once.
pub proof fn lemma_primary(toks: Seq<Tok>, vars: Seq<Entry>)
    ensures
        spec_primary(toks, vars) == (if is_symbol(toks, "("@) {
            match spec_expr(advance(toks, 1), vars) {
                Ok(p) => if is_symbol(advance(toks, 1 + p.used), ")"@) {
                    Ok(Parsed { node: p.node, used: p.used + 2, vars: p.vars })
                } else {
                    Err(ParseError::ExpectedSymbol)
                },
                Err(e) => Err(e),
            }
        } else {
            match peek(toks) {
                Tok::Ident(name) => Ok(
                    Parsed {
                        node: Node::lvar(resolve(vars, name).0),
                        used: 1,
                        vars: resolve(vars, name).1,
                    },
                ),
                Tok::Num(val) => Ok(Parsed { node: Node::num(val), used: 1, vars }),
                _ => Err(ParseError::ExpectedNumber),
            }
        }),
{
    reveal(spec_primary);
    reveal(spec_expr);
}

/// [`spec_unary`], unfolded once.
pub proof fn lemma_unary(toks: Seq<Tok>, vars: Seq<Entry>)
    ensures
        spec_unary(toks, vars) == (if is_symbol(toks, "+"@) {
            shifted(spec_primary(advance(toks, 1), vars), 1)
        } else if is_symbol(toks, "-"@) {
            match spec_primary(advance(toks, 1), vars) {
                Ok(p) => Ok(
                    Parsed {
                        node: Node::binary(NodeKind::NdSub, Node::num(0), p.node),
                        used: p.used + 1,
                        vars: p.vars,
                    },
                ),
                Err(e) => Err(e),
            }
        } else {
            spec_primary(toks, vars)
        }),
{
    reveal(spec_unary);
    reveal(spec_primary);
}

/// [`spec_operand`], unfolded once.
pub proof fn lemma_operand(level: Level, toks: Seq<Tok>, vars: Seq<Entry>)
    ensures
        spec_operand(level, toks, vars) == (match level {
            Level::Mul => spec_unary(toks, vars),
            Level::Add => spec_chain(Level::Mul, toks, vars),
            Level::Relational => spec_chain(Level::Add, toks, vars),
            Level::Equality => spec_chain(Level::Relational, toks, vars),
        }),
{
    reveal(spec_operand);
    reveal(spec_unary);
    reveal(spec_chain);
}

/// [`spec_chain_rest`], unfolded once.
pub proof fn lemma_chain_rest(level: Level, lhs: Node, toks: Seq<Tok>, vars: Seq<Entry>)
    ensures
        spec_chain_rest(level, lhs, toks, vars) == (match operator_at(level, toks) {
            Some(op) => match spec_operand(level, advance(toks, 1), vars) {
                Ok(p) => shifted(
                    spec_chain_rest(
                        level,
                        joined(op, lhs, p.node),
                        advance(toks, 1 + p.used),
                        p.vars,
                    ),
                    1 + p.used,
                ),
                Err(e) => Err(e),
            },
            None => Ok(Parsed { node: lhs, used: 0, vars }),
        }),
{
    reveal(spec_chain_rest);
    reveal(spec_operand);
}

/// [`spec_chain`], unfolded once.
pub proof fn lemma_chain(level: Level, toks: Seq<Tok>, vars: Seq<Entry>)
    ensures
        spec_chain(level, toks, vars) == (match spec_operand(level, toks, vars) {
            Ok(p) => shifted(
                spec_chain_rest(level, p.node, advance(toks, p.used), p.vars),
                p.used,
            ),
            Err(e) => Err(e),
        }),
{
    reveal(spec_chain);
    reveal(spec_operand);
    reveal(spec_chain_rest);
}

/// [`spec_assign`], unfolded once.
pub proof fn lemma_assign(toks: Seq<Tok>, vars: Seq<Entry>)
    ensures
        spec_assign(toks, vars) == (match spec_chain(Level::Equality, toks, vars) {
            Ok(l) => if is_symbol(advance(toks, l.used), "="@) {
                match spec_assign(advance(toks, l.used + 1), l.vars) {
                    Ok(r) => Ok(
                        Parsed {
                            node: Node::binary(NodeKind::NdAssign, l.node, r.node),
                            used: l.used + 1 + r.used,
                            vars: r.vars,
                        },
                    ),
                    Err(e) => Err(e),
                }
            } else {
                Ok(l)
            },
            Err(e) => Err(e),
        }),
{
    reveal(spec_assign);
    reveal(spec_chain);
}

/// [`spec_expr`], unfolded once.
pub proof fn lemma_expr(toks: Seq<Tok>, vars: Seq<Entry>)
    ensures
        spec_expr(toks, vars) == spec_assign(toks, vars),
{
    reveal(spec_expr);
    reveal(spec_assign);
}

/// [`spec_program`], unfolded once.
pub proof fn lemma_program(toks: Seq<Tok>, vars: Seq<Entry>)
    ensures
        spec_program(toks, vars) == (if peek(toks) == Tok::Eof {
            Ok((Seq::empty(), vars))
        } else {
            match spec_stmt(toks, vars) {
                Ok(p) => match spec_program(advance(toks, p.used), p.vars) {
                    Ok((rest, table)) => Ok((seq![p.node] + rest, table)),
                    Err(e) => Err(e),
                },
                Err(e) => Err(e),
            }
        }),
{
    reveal(spec_program);
}

} // verus!
