//! Syntax trees and the recursive-descent parser that builds them.

use crate::error::ParseError;
use crate::grammar::{
    is_symbol, joined, lemma_assign, lemma_chain, lemma_chain_rest, lemma_expr, lemma_operand,
    lemma_primary, lemma_program, lemma_unary, operator_at, shifted, spec_assign, spec_chain,
    spec_chain_rest, spec_expr, spec_operand, spec_primary, spec_program, spec_stmt, spec_unary,
    Level, Parsed,
};
use crate::table::{
    extends, find_entry, lemma_find_prefix, lemma_resolve, resolve, table_wf, valid_offset,
    Entry, WORD_SIZE,
};
use crate::tokenizer::{
    advance, at_eof, consume, consume_ident, consumed, expect, expect_number,
    lemma_consumed_twice, peek, pending, stream_wf, Tok, Token,
};
use vstd::prelude::*;

verus! {

/// What a node of a syntax tree stands for.
#[derive(Debug, Clone, Copy, PartialEq, Eq, Structural)]
pub enum NodeKind {
    /// `+`
    NdAdd,
    /// `-`
    NdSub,
    /// `*`
    NdMul,
    /// `/`
    NdDiv,
    /// An integer literal.
    NdNum,
    /// `==`
    NdEq,
    /// `!=`
    NdNotEq,
    /// `<`; `a > b` is stored as `b < a`.
    NdLess,
    /// `<=`; `a >= b` is stored as `b <= a`.
    NdLessEq,
    /// `=`
    NdAssign,
    /// A variable, known by its frame offset.
    NdLVar,
}

impl NodeKind {
    /// Whether a node of this kind has no operands.
    pub open spec fn is_leaf(self) -> bool {
        self == NodeKind::NdNum || self == NodeKind::NdLVar
    }

    /// Whether this kind is one of the eight arithmetic and comparison
    /// operators.
    pub open spec fn is_operator(self) -> bool {
        !self.is_leaf() && self != NodeKind::NdAssign
    }
}

/// A node of a syntax tree. It owns its operands.
#[derive(Debug, PartialEq)]
pub struct Node {
    /// What the node stands for.
    pub kind: NodeKind,
    /// The left operand of an operator or an assignment.
    pub lhs: Option<Box<Node>>,
    /// The right operand of an operator or an assignment.
    pub rhs: Option<Box<Node>>,
    /// The value of a literal.
    pub val: Option<u32>,
    /// The frame offset of a variable.
    pub offset: Option<u32>,
}

impl Node {
    /// The literal `val`.
    pub open spec fn num(val: u32) -> Node {
        Node { kind: NodeKind::NdNum, lhs: None, rhs: None, val: Some(val), offset: None }
    }

    /// The variable stored `offset` bytes below the frame base.
    pub open spec fn lvar(offset: u32) -> Node {
        Node { kind: NodeKind::NdLVar, lhs: None, rhs: None, val: None, offset: Some(offset) }
    }

    /// The node of kind `kind` over the operands `lhs` and `rhs`.
    pub open spec fn binary(kind: NodeKind, lhs: Node, rhs: Node) -> Node {
        Node { kind, lhs: Some(Box::new(lhs)), rhs: Some(Box::new(rhs)), val: None, offset: None }
    }

    /// A literal carries a value and nothing else, a variable an offset and
    /// nothing else, and every other node exactly two well-formed operands.
    pub open spec fn wf(self) -> bool
        decreases self,
    {
        match self.kind {
            NodeKind::NdNum => self == Node::num(self.val.unwrap()) && self.val is Some,
            NodeKind::NdLVar => self == Node::lvar(self.offset.unwrap()) && self.offset is Some,
            _ => match (self.lhs, self.rhs) {
                (Some(l), Some(r)) => l.wf() && r.wf() && self.val is None && self.offset is None,
                _ => false,
            },
        }
    }

    /// The number of nodes in the tree.
    pub open spec fn size(self) -> nat
        decreases self,
    {
        1 + match self.lhs {
            Some(l) => l.size(),
            None => 0,
        } + match self.rhs {
            Some(r) => r.size(),
            None => 0,
        }
    }

    /// Whether every variable of the tree is one of the first `slots`
    /// variables of the frame.
    pub open spec fn within(self, slots: nat) -> bool
        decreases self,
    {
        match (self.lhs, self.rhs) {
            (Some(l), Some(r)) => l.within(slots) && r.within(slots),
            _ => self.kind == NodeKind::NdLVar ==> valid_offset(self.offset.unwrap(), slots),
        }
    }

    /// A tree that fits in a frame fits in every larger one.
    pub proof fn lemma_within_larger(self, slots: nat, more: nat)
        requires
            self.within(slots),
            slots <= more,
        ensures
            self.within(more),
        decreases self,
    {
        match (self.lhs, self.rhs) {
            (Some(l), Some(r)) => {
                l.lemma_within_larger(slots, more);
                r.lemma_within_larger(slots, more);
            },
            _ => {},
        }
    }

    /// The node with these fields.
    pub fn new(
        kind: NodeKind,
        lhs: Option<Box<Node>>,
        rhs: Option<Box<Node>>,
        val: Option<u32>,
        offset: Option<u32>,
    ) -> (node: Node)
        ensures
            node == (Node { kind, lhs, rhs, val, offset }),
    {
        Node { kind, lhs, rhs, val, offset }
    }
}

impl Clone for Node {
    fn clone(&self) -> (res: Self)
        ensures
            res == *self,
        decreases self,
    {
        Node {
            kind: self.kind,
            lhs: match &self.lhs {
                Some(l) => Some(Box::new((&**l).clone())),
                None => None,
            },
            rhs: match &self.rhs {
                Some(r) => Some(Box::new((&**r).clone())),
                None => None,
            },
            val: self.val,
            offset: self.offset,
        }
    }
}

/// A variable of the program: its name and where in the frame it lives.
#[derive(Debug)]
pub struct LVar {
    name: String,
    offset: u32,
}

impl View for LVar {
    type V = Entry;

    closed spec fn view(&self) -> Entry {
        Entry { name: self.name@, offset: self.offset }
    }
}

impl Clone for LVar {
    fn clone(&self) -> (res: Self)
        ensures
            res@ == self@,
    {
        LVar { name: self.name.clone(), offset: self.offset }
    }
}

/// The entries of a symbol table, in the order in which they were made.
pub open spec fn entries(vars: Seq<LVar>) -> Seq<Entry> {
    vars.map_values(|v: LVar| v@)
}

impl LVar {
    /// The variable `name` at frame offset `offset`.
    fn new(name: String, offset: u32) -> (var: LVar)
        ensures
            var@ == (Entry { name: name@, offset }),
    {
        LVar { name, offset }
    }

    /// The entry of `vars` for `name`, if there is one.
    fn find(name: &String, vars: &Vec<LVar>) -> (r: Option<LVar>)
        ensures
            match find_entry(entries(vars@), name@) {
                Some(e) => r is Some && r.unwrap()@ == e,
                None => r is None,
            },
    {
        let mut i: usize = 0;
        while i < vars.len()
            invariant
                i <= vars.len(),
                find_entry(entries(vars@).take(i as int), name@) is None,
            decreases vars.len() - i,
        {
            proof {
                let next = entries(vars@).take(i + 1);
                assert(next.drop_last() =~= entries(vars@).take(i as int));
                assert(next.last() == vars@[i as int]@);
            }
            if vars[i].name == *name {
                proof {
                    lemma_find_prefix(entries(vars@), name@, i + 1);
                }
                return Some(vars[i].clone());
            }
            i += 1;
        }
        assert(entries(vars@).take(i as int) =~= entries(vars@));
        None
    }

    /// The name of the variable.
    pub fn name(&self) -> (name: String)
        ensures
            name@ == self@.name,
    {
        self.name.clone()
    }

    /// How far below the frame base the variable lives, in bytes.
    pub fn offset(&self) -> (offset: u32)
        ensures
            offset == self@.offset,
    {
        self.offset
    }
}

/// What a parsing function hands back, given what the grammar yields for
/// the tokens and the table it started from: the same tree, with as many
/// tokens taken off the stack and the same table; or the same error.
pub open spec fn parsed_as(
    expected: Result<Parsed, ParseError>,
    r: Result<Box<Node>, ParseError>,
    tokens_before: Seq<Token>,
    tokens_after: Seq<Token>,
    vars_after: Seq<LVar>,
) -> bool {
    match expected {
        Ok(p) => {
            &&& r == Ok::<Box<Node>, ParseError>(Box::new(p.node))
            &&& consumed(tokens_before, tokens_after, p.used)
            &&& entries(vars_after) == p.vars
        },
        Err(e) => r == Err::<Box<Node>, ParseError>(e),
    }
}

/// What every parsing function keeps, whether it fails or not: the token
/// stack and the symbol table stay well formed, the stack never grows, the
/// table keeps every entry that it had, and a tree that comes back is well
/// formed and speaks of variables of the table only.
pub open spec fn kept(
    r: Result<Box<Node>, ParseError>,
    tokens_before: Seq<Token>,
    tokens_after: Seq<Token>,
    vars_before: Seq<LVar>,
    vars_after: Seq<LVar>,
) -> bool {
    &&& stream_wf(tokens_after)
    &&& tokens_after.len() <= tokens_before.len()
    &&& table_wf(entries(vars_after))
    &&& extends(entries(vars_before), entries(vars_after))
    &&& r matches Ok(node) ==> node.wf() && node.within(vars_after.len())
}

/// `r` with the trees `done` in front of its trees.
pub open spec fn after_statements(
    done: Seq<Node>,
    r: Result<(Seq<Node>, Seq<Entry>), ParseError>,
) -> Result<(Seq<Node>, Seq<Entry>), ParseError> {
    match r {
        Ok((rest, table)) => Ok((done + rest, table)),
        Err(e) => Err(e),
    }
}

/// One more statement parsed is one more tree in front.
proof fn lemma_statement_done(
    done: Seq<Node>,
    node: Node,
    r: Result<(Seq<Node>, Seq<Entry>), ParseError>,
)
    ensures
        after_statements(done, after_statements(seq![node], r)) == after_statements(
            done.push(node),
            r,
        ),
{
    match r {
        Ok((rest, table)) => {
            assert(done + (seq![node] + rest) =~= done.push(node) + rest);
        },
        Err(_) => {},
    }
}

/// Whether `r`, with the stack and the table as they are afterwards, is
/// what parsing a program hands back for the stack `tokens_before` and the
/// table `vars_before`: the trees and the table that [`spec_program`]
/// yields, with the stack left at the end marker; or the error that it
/// yields.
pub open spec fn program_parsed(
    tokens_before: Seq<Token>,
    vars_before: Seq<LVar>,
    r: Result<Vec<Node>, ParseError>,
    tokens_after: Seq<Token>,
    vars_after: Seq<LVar>,
) -> bool {
    match spec_program(pending(tokens_before), entries(vars_before)) {
        Ok((nodes, table)) => {
            &&& r matches Ok(stmts)
            &&& stmts@ == nodes
            &&& entries(vars_after) == table
            &&& peek(pending(tokens_after)) == Tok::Eof
        },
        Err(e) => r == Err::<Vec<Node>, ParseError>(e),
    }
}

/// Parses a whole program: statements up to the end marker.
///
/// The result is what [`spec_program`] yields for the pending tokens and
/// the table: the trees of the statements in source order, or the first
/// error. Every tree is well formed and speaks of variables of the table
/// only, and the table stays well formed: offsets are handed out in the
/// order in which the names first occur, one word apart.
pub fn program(tokens: &mut Vec<Token>, vars: &mut Vec<LVar>) -> (r: Result<Vec<Node>, ParseError>)
    requires
        stream_wf(old(tokens)@),
        table_wf(entries(old(vars)@)),
    ensures
        stream_wf(final(tokens)@),
        table_wf(entries(final(vars)@)),
        extends(entries(old(vars)@), entries(final(vars)@)),
        program_parsed(old(tokens)@, old(vars)@, r, final(tokens)@, final(vars)@),
        r matches Ok(stmts) ==> forall|i: int|
            0 <= i < stmts@.len() ==> (#[trigger] stmts@[i]).wf() && stmts@[i].within(
                final(vars)@.len(),
            ),
{
    let mut stmts: Vec<Node> = Vec::new();
    let ghost whole = spec_program(pending(tokens@), entries(vars@));
    proof {
        match whole {
            Ok((rest, table)) => {
                assert(stmts@ + rest =~= rest);
            },
            Err(_) => {},
        }
    }
    loop
        invariant
            stream_wf(tokens@),
            table_wf(entries(vars@)),
            whole == spec_program(pending(old(tokens)@), entries(old(vars)@)),
            whole == after_statements(stmts@, spec_program(pending(tokens@), entries(vars@))),
            extends(entries(old(vars)@), entries(vars@)),
            forall|i: int|
                0 <= i < stmts@.len() ==> (#[trigger] stmts@[i]).wf() && stmts@[i].within(
                    vars@.len(),
                ),
        decreases tokens@.len(),
    {
        proof {
            lemma_program(pending(tokens@), entries(vars@));
        }
        if at_eof(tokens) {
            proof {
                assert(stmts@ + Seq::<Node>::empty() =~= stmts@);
            }
            return Ok(stmts);
        }
        let ghost before = stmts@;
        let ghost slots = vars@.len();
        let ghost next = spec_stmt(pending(tokens@), entries(vars@));
        let node = stmt(tokens, vars)?;
        stmts.push(*node);
        proof {
            lemma_statement_done(
                before,
                next.unwrap().node,
                spec_program(pending(tokens@), entries(vars@)),
            );
            assert forall|i: int| 0 <= i < stmts@.len() implies (#[trigger] stmts@[i]).wf()
                && stmts@[i].within(vars@.len()) by {
                if i < before.len() {
                    assert(stmts@[i] == before[i]);
                    before[i].lemma_within_larger(slots, vars@.len());
                }
            }
        }
    }
}

fn stmt(tokens: &mut Vec<Token>, vars: &mut Vec<LVar>) -> (r: Result<Box<Node>, ParseError>)
    requires
        stream_wf(old(tokens)@),
        table_wf(entries(old(vars)@)),
    ensures
        kept(r, old(tokens)@, final(tokens)@, old(vars)@, final(vars)@),
        parsed_as(
            spec_stmt(pending(old(tokens)@), entries(old(vars)@)),
            r,
            old(tokens)@,
            final(tokens)@,
            final(vars)@,
        ),
{
    let ghost start = tokens@;
    let ghost p = spec_expr(pending(start), entries(vars@));
    let node = expr(tokens, vars)?;
    let ghost middle = tokens@;
    expect(tokens, ";")?;
    proof {
        lemma_consumed_twice(start, middle, tokens@, p.unwrap().used, 1);
    }
    Ok(node)
}

fn expr(tokens: &mut Vec<Token>, vars: &mut Vec<LVar>) -> (r: Result<Box<Node>, ParseError>)
    requires
        stream_wf(old(tokens)@),
        table_wf(entries(old(vars)@)),
    ensures
        kept(r, old(tokens)@, final(tokens)@, old(vars)@, final(vars)@),
        parsed_as(
            spec_expr(pending(old(tokens)@), entries(old(vars)@)),
            r,
            old(tokens)@,
            final(tokens)@,
            final(vars)@,
        ),
    decreases old(tokens)@.len(), 15nat,
{
    proof {
        lemma_expr(pending(tokens@), entries(vars@));
    }
    assign(tokens, vars)
}

fn assign(tokens: &mut Vec<Token>, vars: &mut Vec<LVar>) -> (r: Result<Box<Node>, ParseError>)
    requires
        stream_wf(old(tokens)@),
        table_wf(entries(old(vars)@)),
    ensures
        kept(r, old(tokens)@, final(tokens)@, old(vars)@, final(vars)@),
        parsed_as(
            spec_assign(pending(old(tokens)@), entries(old(vars)@)),
            r,
            old(tokens)@,
            final(tokens)@,
            final(vars)@,
        ),
    decreases old(tokens)@.len(), 14nat,
{
    let ghost start = tokens@;
    let ghost l = spec_chain(Level::Equality, pending(start), entries(vars@));
    proof {
        lemma_assign(pending(start), entries(vars@));
    }
    let mut node: Box<Node> = equality(tokens, vars)?;
    let ghost middle = tokens@;
    let ghost slots = vars@.len();
    if consume(tokens, "=") {
        let ghost after = tokens@;
        let ghost r = spec_assign(pending(after), entries(vars@));
        proof {
            lemma_consumed_twice(start, middle, after, l.unwrap().used, 1);
        }
        let rhs = assign(tokens, vars)?;
        proof {
            lemma_consumed_twice(start, after, tokens@, l.unwrap().used + 1, r.unwrap().used);
            node.lemma_within_larger(slots, vars@.len());
        }
        node = Box::new(Node::new(NodeKind::NdAssign, Some(node), Some(rhs), None, None));
    }
    Ok(node)
}

fn equality(tokens: &mut Vec<Token>, vars: &mut Vec<LVar>) -> (r: Result<Box<Node>, ParseError>)
    requires
        stream_wf(old(tokens)@),
        table_wf(entries(old(vars)@)),
    ensures
        kept(r, old(tokens)@, final(tokens)@, old(vars)@, final(vars)@),
        parsed_as(
            spec_chain(Level::Equality, pending(old(tokens)@), entries(old(vars)@)),
            r,
            old(tokens)@,
            final(tokens)@,
            final(vars)@,
        ),
    decreases old(tokens)@.len(), 13nat,
{
    let ghost start = tokens@;
    let ghost whole = spec_chain(Level::Equality, pending(start), entries(vars@));
    let ghost first = spec_operand(Level::Equality, pending(start), entries(vars@));
    proof {
        lemma_chain(Level::Equality, pending(start), entries(vars@));
        lemma_operand(Level::Equality, pending(start), entries(vars@));
    }
    let mut node: Box<Node> = relational(tokens, vars)?;
    let ghost mut used: nat = first.unwrap().used;
    loop
        invariant
            start == old(tokens)@,
            stream_wf(tokens@),
            table_wf(entries(vars@)),
            tokens@.len() <= start.len(),
            extends(entries(old(vars)@), entries(vars@)),
            consumed(start, tokens@, used),
            node.wf(),
            node.within(vars@.len()),
            whole == spec_chain(Level::Equality, pending(old(tokens)@), entries(old(vars)@)),
            whole == shifted(
                spec_chain_rest(Level::Equality, *node, pending(tokens@), entries(vars@)),
                used,
            ),
        decreases tokens@.len(),
    {
        let ghost here = tokens@;
        let ghost slots = vars@.len();
        proof {
            lemma_chain_rest(Level::Equality, *node, pending(here), entries(vars@));
            lemma_operand(Level::Equality, advance(pending(here), 1), entries(vars@));
        }
        if consume(tokens, "==") {
            let ghost after = tokens@;
            let ghost p = spec_operand(Level::Equality, pending(after), entries(vars@));
            let rhs = relational(tokens, vars)?;
            proof {
                lemma_consumed_twice(start, here, after, used, 1);
                lemma_consumed_twice(start, after, tokens@, used + 1, p.unwrap().used);
                lemma_consumed_twice(here, after, tokens@, 1, p.unwrap().used);
                node.lemma_within_larger(slots, vars@.len());
                used = used + 1 + p.unwrap().used;
            }
            node = Box::new(Node::new(NodeKind::NdEq, Some(node), Some(rhs), None, None));
        } else if consume(tokens, "!=") {
            let ghost after = tokens@;
            let ghost p = spec_operand(Level::Equality, pending(after), entries(vars@));
            let rhs = relational(tokens, vars)?;
            proof {
                lemma_consumed_twice(start, here, after, used, 1);
                lemma_consumed_twice(start, after, tokens@, used + 1, p.unwrap().used);
                lemma_consumed_twice(here, after, tokens@, 1, p.unwrap().used);
                node.lemma_within_larger(slots, vars@.len());
                used = used + 1 + p.unwrap().used;
            }
            node = Box::new(Node::new(NodeKind::NdNotEq, Some(node), Some(rhs), None, None));
        }
        else {
            return Ok(node);
        }
    }
}

fn relational(tokens: &mut Vec<Token>, vars: &mut Vec<LVar>) -> (r: Result<Box<Node>, ParseError>)
    requires
        stream_wf(old(tokens)@),
        table_wf(entries(old(vars)@)),
    ensures
        kept(r, old(tokens)@, final(tokens)@, old(vars)@, final(vars)@),
        parsed_as(
            spec_chain(Level::Relational, pending(old(tokens)@), entries(old(vars)@)),
            r,
            old(tokens)@,
            final(tokens)@,
            final(vars)@,
        ),
    decreases old(tokens)@.len(), 10nat,
{
    let ghost start = tokens@;
    let ghost whole = spec_chain(Level::Relational, pending(start), entries(vars@));
    let ghost first = spec_operand(Level::Relational, pending(start), entries(vars@));
    proof {
        lemma_chain(Level::Relational, pending(start), entries(vars@));
        lemma_operand(Level::Relational, pending(start), entries(vars@));
    }
    let mut node: Box<Node> = self::add(tokens, vars)?;
    let ghost mut used: nat = first.unwrap().used;
    loop
        invariant
            start == old(tokens)@,
            stream_wf(tokens@),
            table_wf(entries(vars@)),
            tokens@.len() <= start.len(),
            extends(entries(old(vars)@), entries(vars@)),
            consumed(start, tokens@, used),
            node.wf(),
            node.within(vars@.len()),
            whole == spec_chain(Level::Relational, pending(old(tokens)@), entries(old(vars)@)),
            whole == shifted(
                spec_chain_rest(Level::Relational, *node, pending(tokens@), entries(vars@)),
                used,
            ),
        decreases tokens@.len(),
    {
        let ghost here = tokens@;
        let ghost slots = vars@.len();
        proof {
            lemma_chain_rest(Level::Relational, *node, pending(here), entries(vars@));
            lemma_operand(Level::Relational, advance(pending(here), 1), entries(vars@));
        }
        if consume(tokens, "<") {
            let ghost after = tokens@;
            let ghost p = spec_operand(Level::Relational, pending(after), entries(vars@));
            let rhs = self::add(tokens, vars)?;
            proof {
                lemma_consumed_twice(start, here, after, used, 1);
                lemma_consumed_twice(start, after, tokens@, used + 1, p.unwrap().used);
                lemma_consumed_twice(here, after, tokens@, 1, p.unwrap().used);
                node.lemma_within_larger(slots, vars@.len());
                used = used + 1 + p.unwrap().used;
            }
            node = Box::new(Node::new(NodeKind::NdLess, Some(node), Some(rhs), None, None));
        } else if consume(tokens, "<=") {
            let ghost after = tokens@;
            let ghost p = spec_operand(Level::Relational, pending(after), entries(vars@));
            let rhs = self::add(tokens, vars)?;
            proof {
                lemma_consumed_twice(start, here, after, used, 1);
                lemma_consumed_twice(start, after, tokens@, used + 1, p.unwrap().used);
                lemma_consumed_twice(here, after, tokens@, 1, p.unwrap().used);
                node.lemma_within_larger(slots, vars@.len());
                used = used + 1 + p.unwrap().used;
            }
            node = Box::new(Node::new(NodeKind::NdLessEq, Some(node), Some(rhs), None, None));
        } else if consume(tokens, ">") {
            let ghost after = tokens@;
            let ghost p = spec_operand(Level::Relational, pending(after), entries(vars@));
            let lhs = self::add(tokens, vars)?;
            proof {
                lemma_consumed_twice(start, here, after, used, 1);
                lemma_consumed_twice(start, after, tokens@, used + 1, p.unwrap().used);
                lemma_consumed_twice(here, after, tokens@, 1, p.unwrap().used);
                node.lemma_within_larger(slots, vars@.len());
                used = used + 1 + p.unwrap().used;
            }
            node = Box::new(Node::new(NodeKind::NdLess, Some(lhs), Some(node), None, None));
        } else if consume(tokens, ">=") {
            let ghost after = tokens@;
            let ghost p = spec_operand(Level::Relational, pending(after), entries(vars@));
            let lhs = self::add(tokens, vars)?;
            proof {
                lemma_consumed_twice(start, here, after, used, 1);
                lemma_consumed_twice(start, after, tokens@, used + 1, p.unwrap().used);
                lemma_consumed_twice(here, after, tokens@, 1, p.unwrap().used);
                node.lemma_within_larger(slots, vars@.len());
                used = used + 1 + p.unwrap().used;
            }
            node = Box::new(Node::new(NodeKind::NdLessEq, Some(lhs), Some(node), None, None));
        }
        else {
            return Ok(node);
        }
    }
}

fn add(tokens: &mut Vec<Token>, vars: &mut Vec<LVar>) -> (r: Result<Box<Node>, ParseError>)
    requires
        stream_wf(old(tokens)@),
        table_wf(entries(old(vars)@)),
    ensures
        kept(r, old(tokens)@, final(tokens)@, old(vars)@, final(vars)@),
        parsed_as(
            spec_chain(Level::Add, pending(old(tokens)@), entries(old(vars)@)),
            r,
            old(tokens)@,
            final(tokens)@,
            final(vars)@,
        ),
    decreases old(tokens)@.len(), 7nat,
{
    let ghost start = tokens@;
    let ghost whole = spec_chain(Level::Add, pending(start), entries(vars@));
    let ghost first = spec_operand(Level::Add, pending(start), entries(vars@));
    proof {
        lemma_chain(Level::Add, pending(start), entries(vars@));
        lemma_operand(Level::Add, pending(start), entries(vars@));
    }
    let mut node: Box<Node> = self::mul(tokens, vars)?;
    let ghost mut used: nat = first.unwrap().used;
    loop
        invariant
            start == old(tokens)@,
            stream_wf(tokens@),
            table_wf(entries(vars@)),
            tokens@.len() <= start.len(),
            extends(entries(old(vars)@), entries(vars@)),
            consumed(start, tokens@, used),
            node.wf(),
            node.within(vars@.len()),
            whole == spec_chain(Level::Add, pending(old(tokens)@), entries(old(vars)@)),
            whole == shifted(
                spec_chain_rest(Level::Add, *node, pending(tokens@), entries(vars@)),
                used,
            ),
        decreases tokens@.len(),
    {
        let ghost here = tokens@;
        let ghost slots = vars@.len();
        proof {
            lemma_chain_rest(Level::Add, *node, pending(here), entries(vars@));
            lemma_operand(Level::Add, advance(pending(here), 1), entries(vars@));
        }
        if consume(tokens, "+") {
            let ghost after = tokens@;
            let ghost p = spec_operand(Level::Add, pending(after), entries(vars@));
            let rhs = self::mul(tokens, vars)?;
            proof {
                lemma_consumed_twice(start, here, after, used, 1);
                lemma_consumed_twice(start, after, tokens@, used + 1, p.unwrap().used);
                lemma_consumed_twice(here, after, tokens@, 1, p.unwrap().used);
                node.lemma_within_larger(slots, vars@.len());
                used = used + 1 + p.unwrap().used;
            }
            node = Box::new(Node::new(NodeKind::NdAdd, Some(node), Some(rhs), None, None));
        } else if consume(tokens, "-") {
            let ghost after = tokens@;
            let ghost p = spec_operand(Level::Add, pending(after), entries(vars@));
            let rhs = self::mul(tokens, vars)?;
            proof {
                lemma_consumed_twice(start, here, after, used, 1);
                lemma_consumed_twice(start, after, tokens@, used + 1, p.unwrap().used);
                lemma_consumed_twice(here, after, tokens@, 1, p.unwrap().used);
                node.lemma_within_larger(slots, vars@.len());
                used = used + 1 + p.unwrap().used;
            }
            node = Box::new(Node::new(NodeKind::NdSub, Some(node), Some(rhs), None, None));
        }
        else {
            return Ok(node);
        }
    }
}

fn mul(tokens: &mut Vec<Token>, vars: &mut Vec<LVar>) -> (r: Result<Box<Node>, ParseError>)
    requires
        stream_wf(old(tokens)@),
        table_wf(entries(old(vars)@)),
    ensures
        kept(r, old(tokens)@, final(tokens)@, old(vars)@, final(vars)@),
        parsed_as(
            spec_chain(Level::Mul, pending(old(tokens)@), entries(old(vars)@)),
            r,
            old(tokens)@,
            final(tokens)@,
            final(vars)@,
        ),
    decreases old(tokens)@.len(), 4nat,
{
    let ghost start = tokens@;
    let ghost whole = spec_chain(Level::Mul, pending(start), entries(vars@));
    let ghost first = spec_operand(Level::Mul, pending(start), entries(vars@));
    proof {
        lemma_chain(Level::Mul, pending(start), entries(vars@));
        lemma_operand(Level::Mul, pending(start), entries(vars@));
    }
    let mut node: Box<Node> = unary(tokens, vars)?;
    let ghost mut used: nat = first.unwrap().used;
    loop
        invariant
            start == old(tokens)@,
            stream_wf(tokens@),
            table_wf(entries(vars@)),
            tokens@.len() <= start.len(),
            extends(entries(old(vars)@), entries(vars@)),
            consumed(start, tokens@, used),
            node.wf(),
            node.within(vars@.len()),
            whole == spec_chain(Level::Mul, pending(old(tokens)@), entries(old(vars)@)),
            whole == shifted(
                spec_chain_rest(Level::Mul, *node, pending(tokens@), entries(vars@)),
                used,
            ),
        decreases tokens@.len(),
    {
        let ghost here = tokens@;
        let ghost slots = vars@.len();
        proof {
            lemma_chain_rest(Level::Mul, *node, pending(here), entries(vars@));
            lemma_operand(Level::Mul, advance(pending(here), 1), entries(vars@));
        }
        if consume(tokens, "*") {
            let ghost after = tokens@;
            let ghost p = spec_operand(Level::Mul, pending(after), entries(vars@));
            let rhs = unary(tokens, vars)?;
            proof {
                lemma_consumed_twice(start, here, after, used, 1);
                lemma_consumed_twice(start, after, tokens@, used + 1, p.unwrap().used);
                lemma_consumed_twice(here, after, tokens@, 1, p.unwrap().used);
                node.lemma_within_larger(slots, vars@.len());
                used = used + 1 + p.unwrap().used;
            }
            node = Box::new(Node::new(NodeKind::NdMul, Some(node), Some(rhs), None, None));
        } else if consume(tokens, "/") {
            let ghost after = tokens@;
            let ghost p = spec_operand(Level::Mul, pending(after), entries(vars@));
            let rhs = unary(tokens, vars)?;
            proof {
                lemma_consumed_twice(start, here, after, used, 1);
                lemma_consumed_twice(start, after, tokens@, used + 1, p.unwrap().used);
                lemma_consumed_twice(here, after, tokens@, 1, p.unwrap().used);
                node.lemma_within_larger(slots, vars@.len());
                used = used + 1 + p.unwrap().used;
            }
            node = Box::new(Node::new(NodeKind::NdDiv, Some(node), Some(rhs), None, None));
        }
        else {
            return Ok(node);
        }
    }
}

fn unary(tokens: &mut Vec<Token>, vars: &mut Vec<LVar>) -> (r: Result<Box<Node>, ParseError>)
    requires
        stream_wf(old(tokens)@),
        table_wf(entries(old(vars)@)),
    ensures
        kept(r, old(tokens)@, final(tokens)@, old(vars)@, final(vars)@),
        parsed_as(
            spec_unary(pending(old(tokens)@), entries(old(vars)@)),
            r,
            old(tokens)@,
            final(tokens)@,
            final(vars)@,
        ),
    decreases old(tokens)@.len(), 1nat,
{
    let ghost start = tokens@;
    proof {
        lemma_unary(pending(start), entries(vars@));
    }
    if consume(tokens, "+") {
        let ghost after = tokens@;
        let ghost p = spec_primary(pending(after), entries(vars@));
        let node = primary(tokens, vars)?;
        proof {
            lemma_consumed_twice(start, after, tokens@, 1, p.unwrap().used);
        }
        return Ok(node);
    }
    if consume(tokens, "-") {
        let ghost after = tokens@;
        let ghost p = spec_primary(pending(after), entries(vars@));
        let rhs = primary(tokens, vars)?;
        proof {
            lemma_consumed_twice(start, after, tokens@, 1, p.unwrap().used);
            assert(Node::num(0).wf() && Node::num(0).within(vars@.len()));
        }
        return Ok(
            Box::new(
                Node::new(
                    NodeKind::NdSub,
                    Some(Box::new(Node::new(NodeKind::NdNum, None, None, Some(0), None))),
                    Some(rhs),
                    None,
                    None,
                ),
            ),
        );
    }
    primary(tokens, vars)
}

fn primary(tokens: &mut Vec<Token>, vars: &mut Vec<LVar>) -> (r: Result<Box<Node>, ParseError>)
    requires
        stream_wf(old(tokens)@),
        table_wf(entries(old(vars)@)),
    ensures
        kept(r, old(tokens)@, final(tokens)@, old(vars)@, final(vars)@),
        parsed_as(
            spec_primary(pending(old(tokens)@), entries(old(vars)@)),
            r,
            old(tokens)@,
            final(tokens)@,
            final(vars)@,
        ),
    decreases old(tokens)@.len(), 0nat,
{
    let ghost start = tokens@;
    proof {
        lemma_primary(pending(start), entries(vars@));
    }
    if consume(tokens, "(") {
        let ghost after = tokens@;
        let ghost p = spec_expr(pending(after), entries(vars@));
        let node = expr(tokens, vars)?;
        let ghost inner = tokens@;
        proof {
            lemma_consumed_twice(start, after, inner, 1, p.unwrap().used);
        }
        expect(tokens, ")")?;
        proof {
            lemma_consumed_twice(start, inner, tokens@, 1 + p.unwrap().used, 1);
        }
        return Ok(node);
    }
    let (found, name) = consume_ident(tokens);
    if found {
        let name = name.unwrap();
        proof {
            lemma_resolve(entries(vars@), name@);
        }
        match LVar::find(&name, vars) {
            Some(var) => {
                return Ok(Box::new(Node::new(NodeKind::NdLVar, None, None, None, Some(var.offset))));
            },
            None => {
                let next_offset = if vars.len() != 0 {
                    vars[vars.len() - 1].offset + WORD_SIZE
                } else {
                    WORD_SIZE
                };
                let ghost before = vars@;
                vars.push(LVar::new(name, next_offset));
                proof {
                    assert(entries(vars@) =~= entries(before).push(
                        Entry { name: name@, offset: next_offset },
                    ));
                }
                return Ok(
                    Box::new(Node::new(NodeKind::NdLVar, None, None, None, Some(next_offset))),
                );
            },
        }
    }
    let val = expect_number(tokens)?;
    Ok(Box::new(Node::new(NodeKind::NdNum, None, None, Some(val), None)))
}

/// Parsing is a function of the tokens and the table: whatever two runs
/// of the parser hand back for the same token stack and the same table,
/// they fail with the same error, or they hold the same trees, node for
/// node and offset for offset, and leave the same table.
pub proof fn lemma_program_deterministic(
    tokens: Seq<Token>,
    vars: Seq<LVar>,
    first: Result<Vec<Node>, ParseError>,
    first_tokens: Seq<Token>,
    first_vars: Seq<LVar>,
    second: Result<Vec<Node>, ParseError>,
    second_tokens: Seq<Token>,
    second_vars: Seq<LVar>,
)
    requires
        program_parsed(tokens, vars, first, first_tokens, first_vars),
        program_parsed(tokens, vars, second, second_tokens, second_vars),
    ensures
        first is Ok <==> second is Ok,
        first is Ok ==> first.unwrap()@ == second.unwrap()@ && entries(first_vars) == entries(
            second_vars,
        ),
        first is Ok ==> forall|i: int|
            0 <= i < first.unwrap()@.len() ==> (#[trigger] first.unwrap()@[i]).size()
                == second.unwrap()@[i].size(),
        first is Err ==> first.unwrap_err() == second.unwrap_err(),
{
}

} // verus!
