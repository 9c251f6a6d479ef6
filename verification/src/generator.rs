//! Lowering of syntax trees to instructions for the stack machine.

use crate::error::ParseError;
use crate::machine::{
    computes, eval_program, lemma_code_computes, lemma_program_computes, run, yields, State,
};
use crate::parser::{Node, NodeKind};
use vstd::prelude::*;

verus! {

/// One step of the stack machine. Operands live on a stack; `A` and `B` are
/// the two scratch registers, `A` being the accumulator.
#[derive(Debug, Clone, Copy, PartialEq, Eq, Structural)]
pub enum Instr {
    /// Push a literal.
    PushNum(u32),
    /// Load into `A` the address of the variable at this frame offset, and
    /// push it.
    PushAddr(u32),
    /// Pop an address into `A`, load the word stored there into `A`, push it.
    Load,
    /// Pop a value into `B` and an address into `A`, store `B` at `A`, push
    /// `B`.
    Store,
    /// Pop `B`, pop `A`, push `A + B`.
    Add,
    /// Pop `B`, pop `A`, push `A - B`.
    Sub,
    /// Pop `B`, pop `A`, push the signed product `A * B`.
    Mul,
    /// Pop `B`, pop `A`, push the signed quotient `A / B`.
    Div,
    /// Pop `B`, pop `A`, push 1 if `A == B` and 0 if not.
    Eq,
    /// Pop `B`, pop `A`, push 1 if `A != B` and 0 if not.
    NotEq,
    /// Pop `B`, pop `A`, push 1 if `A < B` and 0 if not.
    Less,
    /// Pop `B`, pop `A`, push 1 if `A <= B` and 0 if not.
    LessEq,
    /// Pop the top of the stack into `A`.
    Pop,
}

/// The instruction that applies the operator `kind`.
pub open spec fn operator_of(kind: NodeKind) -> Instr
    recommends
        kind.is_operator(),
{
    match kind {
        NodeKind::NdAdd => Instr::Add,
        NodeKind::NdSub => Instr::Sub,
        NodeKind::NdMul => Instr::Mul,
        NodeKind::NdDiv => Instr::Div,
        NodeKind::NdEq => Instr::Eq,
        NodeKind::NdNotEq => Instr::NotEq,
        NodeKind::NdLess => Instr::Less,
        _ => Instr::LessEq,
    }
}

/// Whether every assignment that lowering reaches has a variable on its
/// left. The left side of an assignment is never lowered itself: only its
/// offset is read.
pub open spec fn assignable(node: Node) -> bool
    decreases node,
{
    match (node.lhs, node.rhs) {
        (Some(l), Some(r)) => if node.kind == NodeKind::NdAssign {
            l.offset is Some && assignable(*r)
        } else {
            assignable(*l) && assignable(*r)
        },
        _ => true,
    }
}

/// The instructions that compute `node`: a post-order walk in which the
/// left operand is finished before the right one begins.
pub open spec fn code_of(node: Node) -> Seq<Instr>
    decreases node,
{
    match (node.lhs, node.rhs) {
        (Some(l), Some(r)) => if node.kind == NodeKind::NdAssign {
            seq![Instr::PushAddr(l.offset.unwrap())] + code_of(*r) + seq![Instr::Store]
        } else {
            code_of(*l) + code_of(*r) + seq![operator_of(node.kind)]
        },
        _ => if node.kind == NodeKind::NdNum {
            seq![Instr::PushNum(node.val.unwrap())]
        } else {
            seq![Instr::PushAddr(node.offset.unwrap()), Instr::Load]
        },
    }
}

/// Appends the instruction that pushes the address of the variable at
/// offset `val`; fails where there is no offset, that is, where the target
/// of an assignment is not a variable.
fn generator_lval(val: Option<u32>, code: &mut Vec<Instr>) -> (r: Result<(), ParseError>)
    ensures
        val is Some ==> r is Ok && final(code)@ == old(code)@.push(Instr::PushAddr(val.unwrap())),
        val is None ==> r == Err::<(), ParseError>(ParseError::NotAssignable) && final(code)@ == old(
            code,
        )@,
{
    match val {
        Some(v) => {
            code.push(Instr::PushAddr(v));
            Ok(())
        },
        None => Err(ParseError::NotAssignable),
    }
}

/// Appends the instructions for `node` to `code`.
fn generate_into(node: &Node, code: &mut Vec<Instr>) -> (r: Result<(), ParseError>)
    requires
        node.wf(),
    ensures
        assignable(*node) ==> r is Ok && final(code)@ == old(code)@ + code_of(*node),
        !assignable(*node) ==> r == Err::<(), ParseError>(ParseError::NotAssignable),
    decreases node,
{
    match node.kind {
        NodeKind::NdNum => {
            code.push(Instr::PushNum(node.val.unwrap()));
            return Ok(());
        },
        NodeKind::NdLVar => {
            generator_lval(node.offset, code)?;
            code.push(Instr::Load);
            return Ok(());
        },
        NodeKind::NdAssign => {
            let lhs = node.lhs.as_ref().unwrap();
            let rhs = node.rhs.as_ref().unwrap();
            generator_lval(lhs.offset, code)?;
            generate_into(rhs, code)?;
            code.push(Instr::Store);
            return Ok(());
        },
        _ => (),
    }
    generate_into(node.lhs.as_ref().unwrap(), code)?;
    generate_into(node.rhs.as_ref().unwrap(), code)?;
    let op = match node.kind {
        NodeKind::NdEq => Instr::Eq,
        NodeKind::NdNotEq => Instr::NotEq,
        NodeKind::NdLess => Instr::Less,
        NodeKind::NdLessEq => Instr::LessEq,
        NodeKind::NdAdd => Instr::Add,
        NodeKind::NdSub => Instr::Sub,
        NodeKind::NdMul => Instr::Mul,
        _ => Instr::Div,
    };
    code.push(op);
    Ok(())
}

/// Lowers one statement.
///
/// The result is [`code_of`] the tree: instructions that, from any state,
/// leave the value of the tree on top of the stack as it was. It fails,
/// with no instruction handed out, exactly when some assignment in the tree
/// has something other than a variable on its left.
pub fn generator(node: Node) -> (r: Result<Vec<Instr>, ParseError>)
    requires
        node.wf(),
    ensures
        assignable(node) ==> r is Ok && r.unwrap()@ == code_of(node),
        !assignable(node) ==> r == Err::<Vec<Instr>, ParseError>(ParseError::NotAssignable),
        r matches Ok(code) ==> forall|s: State| computes(node, s, #[trigger] run(s, code@)),
{
    proof {
        assert forall|s: State| computes(node, s, #[trigger] run(s, code_of(node))) by {
            lemma_code_computes(node, s);
        }
    }
    let mut code: Vec<Instr> = Vec::new();
    match generate_into(&node, &mut code) {
        Ok(()) => Ok(code),
        Err(e) => Err(e),
    }
}

/// Whether every statement of a program can be lowered.
pub open spec fn all_assignable(nodes: Seq<Node>) -> bool {
    forall|i: int| 0 <= i < nodes.len() ==> assignable(#[trigger] nodes[i])
}

/// The instructions of a whole program: the code of every statement in
/// source order, each followed by the instruction that pops the
/// statement's value into the accumulator.
pub open spec fn program_code(nodes: Seq<Node>) -> Seq<Instr>
    decreases nodes.len(),
{
    if nodes.len() == 0 {
        Seq::empty()
    } else {
        program_code(nodes.drop_last()) + code_of(nodes.last()) + seq![Instr::Pop]
    }
}

/// Lowers a program.
///
/// The result is [`program_code`] of the statements: instructions that,
/// from any state, leave the value of the last statement in the
/// accumulator and the stack as it was. It fails, with no instruction
/// handed out, exactly when one of the statements cannot be lowered.
pub fn generate_program(nodes: &Vec<Node>) -> (r: Result<Vec<Instr>, ParseError>)
    requires
        forall|i: int| 0 <= i < nodes@.len() ==> (#[trigger] nodes@[i]).wf(),
    ensures
        all_assignable(nodes@) ==> r is Ok && r.unwrap()@ == program_code(nodes@),
        !all_assignable(nodes@) ==> r == Err::<Vec<Instr>, ParseError>(ParseError::NotAssignable),
        r matches Ok(code) ==> forall|s: State|
            yields(eval_program(nodes@, s.acc, s.frame), s, #[trigger] run(s, code@)),
{
    proof {
        assert forall|s: State|
            yields(
                eval_program(nodes@, s.acc, s.frame),
                s,
                #[trigger] run(s, program_code(nodes@)),
            ) by {
            lemma_program_computes(nodes@, s);
        }
    }
    let mut code: Vec<Instr> = Vec::new();
    let mut i: usize = 0;
    while i < nodes.len()
        invariant
            i <= nodes.len(),
            forall|j: int| 0 <= j < nodes@.len() ==> (#[trigger] nodes@[j]).wf(),
            all_assignable(nodes@.take(i as int)),
            code@ == program_code(nodes@.take(i as int)),
        decreases nodes.len() - i,
    {
        proof {
            let next = nodes@.take(i + 1);
            assert(next.drop_last() =~= nodes@.take(i as int));
            assert(next.last() == nodes@[i as int]);
        }
        match generate_into(&nodes[i], &mut code) {
            Ok(()) => {},
            Err(e) => {
                return Err(e);
            },
        }
        code.push(Instr::Pop);
        proof {
            let next = nodes@.take(i + 1);
            assert forall|j: int| 0 <= j < next.len() implies assignable(#[trigger] next[j]) by {
                if j < i {
                    assert(next[j] == nodes@.take(i as int)[j]);
                }
            }
        }
        i += 1;
    }
    assert(nodes@.take(i as int) =~= nodes@);
    Ok(code)
}

} // verus!
