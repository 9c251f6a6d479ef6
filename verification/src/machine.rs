//! The stack machine that generated code runs on, what a syntax tree means,
//! and the proof that the two agree.
//!
//! The machine has an operand stack, two scratch registers and a frame of
//! 64-bit words for the variables. Addresses are measured from the frame
//! base, so the variable at frame offset `k` lives at address `-k`, and slot
//! `i` of the frame holds the variable at offset `8 * (i + 1)`. A frame
//! starts out filled with zeros: a variable that is read before it is
//! assigned has the value 0.
//!
//! Arithmetic wraps at 64 bits. Division by zero, a quotient that does not
//! fit, an access outside the frame and a pop from an empty stack are
//! faults: the machine does not go on, and nothing is said about what real
//! hardware would do. Code that was generated from parsed trees can only
//! fault in a division.

use crate::generator::{all_assignable, assignable, code_of, operator_of, program_code, Instr};
use crate::parser::{Node, NodeKind};
use crate::table::valid_offset;
use vstd::prelude::*;

verus! {

/// The state of a machine as a mathematical value.
pub struct State {
    /// The accumulator `A`.
    pub acc: i64,
    /// The second scratch register `B`.
    pub aux: i64,
    /// The operand stack; its top is the last element.
    pub stack: Seq<i64>,
    /// The frame; slot `i` holds the variable at offset `8 * (i + 1)`.
    pub frame: Seq<i64>,
}

/// Why the machine cannot go on.
#[derive(Debug, Clone, Copy, PartialEq, Eq, Structural)]
pub enum Fault {
    /// A division by zero, or one whose quotient does not fit in a word.
    Division,
    /// A load or a store at an address that is no slot of the frame.
    Frame,
    /// An instruction that needs more operands than the stack holds.
    Stack,
}

/// The address of the variable at frame offset `offset`.
pub open spec fn address_of(offset: u32) -> i64 {
    (-(offset as int)) as i64
}

/// The frame slot that `addr` points at, in a frame of `slots` words, if it
/// points at one.
pub open spec fn slot_of(addr: i64, slots: nat) -> Option<int> {
    if addr < 0 && (-addr) % 8 == 0 && (-addr) / 8 <= slots {
        Some((-addr) / 8 - 1)
    } else {
        None
    }
}

/// The result of the operator `op` on `a` and `b`, or `None` where the
/// division has no result. For an instruction that is no operator it is
/// `None`.
pub open spec fn apply(op: Instr, a: i64, b: i64) -> Option<i64> {
    match op {
        Instr::Add => Some(a.wrapping_add(b)),
        Instr::Sub => Some(a.wrapping_sub(b)),
        Instr::Mul => Some(a.wrapping_mul(b)),
        Instr::Div => a.checked_div(b),
        Instr::Eq => Some(if a == b { 1i64 } else { 0i64 }),
        Instr::NotEq => Some(if a != b { 1i64 } else { 0i64 }),
        Instr::Less => Some(if a < b { 1i64 } else { 0i64 }),
        Instr::LessEq => Some(if a <= b { 1i64 } else { 0i64 }),
        _ => None,
    }
}

/// The state after one instruction, or the fault that it runs into. The
/// depth of the stack is looked at first.
pub open spec fn step(s: State, instr: Instr) -> Result<State, Fault> {
    let n = s.stack.len() as int;
    match instr {
        Instr::PushNum(v) => Ok(State { stack: s.stack.push(v as i64), ..s }),
        Instr::PushAddr(offset) => Ok(
            State { acc: address_of(offset), stack: s.stack.push(address_of(offset)), ..s },
        ),
        Instr::Load => if n >= 1 {
            match slot_of(s.stack[n - 1], s.frame.len()) {
                Some(k) => Ok(
                    State { acc: s.frame[k], stack: s.stack.take(n - 1).push(s.frame[k]), ..s },
                ),
                None => Err(Fault::Frame),
            }
        } else {
            Err(Fault::Stack)
        },
        Instr::Store => if n >= 2 {
            match slot_of(s.stack[n - 2], s.frame.len()) {
                Some(k) => Ok(
                    State {
                        acc: s.stack[n - 2],
                        aux: s.stack[n - 1],
                        stack: s.stack.take(n - 2).push(s.stack[n - 1]),
                        frame: s.frame.update(k, s.stack[n - 1]),
                    },
                ),
                None => Err(Fault::Frame),
            }
        } else {
            Err(Fault::Stack)
        },
        Instr::Pop => if n >= 1 {
            Ok(State { acc: s.stack[n - 1], stack: s.stack.take(n - 1), ..s })
        } else {
            Err(Fault::Stack)
        },
        op => if n >= 2 {
            match apply(op, s.stack[n - 2], s.stack[n - 1]) {
                Some(v) => Ok(
                    State { acc: v, aux: s.stack[n - 1], stack: s.stack.take(n - 2).push(v), ..s },
                ),
                None => Err(Fault::Division),
            }
        } else {
            Err(Fault::Stack)
        },
    }
}

/// The state after the instructions of `code`, one after the other, or
/// the first fault that one of them runs into.
pub open spec fn run(s: State, code: Seq<Instr>) -> Result<State, Fault>
    decreases code.len(),
{
    if code.len() == 0 {
        Ok(s)
    } else {
        match step(s, code[0]) {
            Ok(t) => run(t, code.skip(1)),
            Err(e) => Err(e),
        }
    }
}

/// What a tree means: its value and the frame it leaves behind, starting
/// from `frame`, or the fault that computing it runs into.
///
/// The left operand of an operator is computed first, and the right one
/// sees the frame that the left one left. An assignment computes its right
/// side, stores the value in the variable on its left and has that value.
pub open spec fn eval(node: Node, frame: Seq<i64>) -> Result<(i64, Seq<i64>), Fault>
    decreases node,
{
    match (node.lhs, node.rhs) {
        (Some(l), Some(r)) => if node.kind == NodeKind::NdAssign {
            match eval(*r, frame) {
                Ok((v, f)) => match slot_of(address_of(l.offset.unwrap()), f.len()) {
                    Some(k) => Ok((v, f.update(k, v))),
                    None => Err(Fault::Frame),
                },
                Err(e) => Err(e),
            }
        } else {
            match eval(*l, frame) {
                Ok((a, f1)) => match eval(*r, f1) {
                    Ok((b, f2)) => match apply(operator_of(node.kind), a, b) {
                        Some(v) => Ok((v, f2)),
                        None => Err(Fault::Division),
                    },
                    Err(e) => Err(e),
                },
                Err(e) => Err(e),
            }
        },
        _ => if node.kind == NodeKind::NdNum {
            Ok((node.val.unwrap() as i64, frame))
        } else {
            match slot_of(address_of(node.offset.unwrap()), frame.len()) {
                Some(k) => Ok((frame[k], frame)),
                None => Err(Fault::Frame),
            }
        },
    }
}

/// Running `a + b` is running `a` and then `b`.
pub proof fn lemma_run_concat(s: State, a: Seq<Instr>, b: Seq<Instr>)
    ensures
        run(s, a + b) == match run(s, a) {
            Ok(t) => run(t, b),
            Err(e) => Err(e),
        },
    decreases a.len(),
{
    if a.len() == 0 {
        assert(a + b =~= b);
    } else {
        assert((a + b)[0] == a[0]);
        assert((a + b).skip(1) =~= a.skip(1) + b);
        match step(s, a[0]) {
            Ok(t) => lemma_run_concat(t, a.skip(1), b),
            Err(_) => {},
        }
    }
}

/// Running a single instruction is one step.
pub proof fn lemma_run_one(s: State, instr: Instr)
    ensures
        run(s, seq![instr]) == step(s, instr),
{
    let code = seq![instr];
    assert(code.skip(1).len() == 0);
    match step(s, instr) {
        Ok(t) => {
            assert(run(t, code.skip(1)) == Ok::<State, Fault>(t));
        },
        Err(_) => {},
    }
}

/// Whether `r` is what computing `node` in the state `s` comes to: the
/// fault that the tree's meaning runs into, or a state with the tree's
/// value pushed on the stack as it was in `s`, and with the frame that the
/// tree leaves behind.
pub open spec fn computes(node: Node, s: State, r: Result<State, Fault>) -> bool {
    match eval(node, s.frame) {
        Ok((v, f)) => {
            &&& r matches Ok(t)
            &&& t.stack == s.stack.push(v)
            &&& t.frame == f
        },
        Err(e) => r == Err::<State, Fault>(e),
    }
}

/// Generated code computes what the tree means: from any state, running
/// the code of a tree comes to what computing the tree comes to.
pub proof fn lemma_code_computes(node: Node, s: State)
    ensures
        computes(node, s, run(s, code_of(node))),
    decreases node,
{
    match (node.lhs, node.rhs) {
        (Some(l), Some(r)) => {
            if node.kind == NodeKind::NdAssign {
                let head = seq![Instr::PushAddr(l.offset.unwrap())];
                let tail = seq![Instr::Store];
                let s1 = step(s, Instr::PushAddr(l.offset.unwrap())).unwrap();
                lemma_run_one(s, Instr::PushAddr(l.offset.unwrap()));
                lemma_code_computes(*r, s1);
                lemma_run_concat(s, head + code_of(*r), tail);
                lemma_run_concat(s, head, code_of(*r));
                match run(s1, code_of(*r)) {
                    Ok(s2) => {
                        lemma_run_one(s2, Instr::Store);
                        let v = eval(*r, s.frame).unwrap().0;
                        match step(s2, Instr::Store) {
                            Ok(s3) => {
                                assert(s3.stack =~= s.stack.push(v));
                            },
                            Err(_) => {},
                        }
                    },
                    Err(_) => {},
                }
            } else {
                let op = operator_of(node.kind);
                lemma_code_computes(*l, s);
                lemma_run_concat(s, code_of(*l) + code_of(*r), seq![op]);
                lemma_run_concat(s, code_of(*l), code_of(*r));
                match run(s, code_of(*l)) {
                    Ok(s1) => {
                        lemma_code_computes(*r, s1);
                        match run(s1, code_of(*r)) {
                            Ok(s2) => {
                                lemma_run_one(s2, op);
                                match step(s2, op) {
                                    Ok(s3) => {
                                        let v = eval(node, s.frame).unwrap().0;
                                        assert(s3.stack =~= s.stack.push(v));
                                    },
                                    Err(_) => {},
                                }
                            },
                            Err(_) => {},
                        }
                    },
                    Err(_) => {},
                }
            }
        },
        _ => {
            if node.kind == NodeKind::NdNum {
                lemma_run_one(s, Instr::PushNum(node.val.unwrap()));
            } else {
                let push = Instr::PushAddr(node.offset.unwrap());
                let s1 = step(s, push).unwrap();
                assert(code_of(node) =~= seq![push] + seq![Instr::Load]);
                lemma_run_concat(s, seq![push], seq![Instr::Load]);
                lemma_run_one(s, push);
                lemma_run_one(s1, Instr::Load);
                match step(s1, Instr::Load) {
                    Ok(s2) => {
                        assert(s2.stack =~= s.stack.push(s.frame[slot_of(
                            address_of(node.offset.unwrap()),
                            s.frame.len(),
                        ).unwrap()]));
                    },
                    Err(_) => {},
                }
            }
        },
    }
}

/// What a program means: the value of its last statement and the frame
/// that the statements leave behind, one after the other, starting from
/// `frame`, or the first fault that one of them runs into. A program
/// without statements has the value `acc`.
pub open spec fn eval_program(nodes: Seq<Node>, acc: i64, frame: Seq<i64>) -> Result<
    (i64, Seq<i64>),
    Fault,
>
    decreases nodes.len(),
{
    if nodes.len() == 0 {
        Ok((acc, frame))
    } else {
        match eval_program(nodes.drop_last(), acc, frame) {
            Ok((_, f)) => eval(nodes.last(), f),
            Err(e) => Err(e),
        }
    }
}

/// Whether `r` is what running a program with the meaning `meaning` in the
/// state `s` comes to: the fault that the meaning runs into, or a state
/// with the program's value in the accumulator, the stack as it was in `s`,
/// and the frame that the program leaves behind.
pub open spec fn yields(
    meaning: Result<(i64, Seq<i64>), Fault>,
    s: State,
    r: Result<State, Fault>,
) -> bool {
    match meaning {
        Ok((v, f)) => {
            &&& r matches Ok(t)
            &&& t.acc == v
            &&& t.stack == s.stack
            &&& t.frame == f
        },
        Err(e) => r == Err::<State, Fault>(e),
    }
}

/// A statement leaves its value in the accumulator and the stack as it
/// was: from any state, running the code of a tree and then the pop that
/// ends a statement comes to the tree's value in the accumulator, the stack
/// at the depth it had before and the frame that the tree leaves behind, or
/// to the fault that the tree's meaning runs into.
pub proof fn lemma_statement_computes(node: Node, s: State)
    ensures
        yields(eval(node, s.frame), s, run(s, code_of(node) + seq![Instr::Pop])),
{
    lemma_code_computes(node, s);
    lemma_run_concat(s, code_of(node), seq![Instr::Pop]);
    match run(s, code_of(node)) {
        Ok(t) => {
            lemma_run_one(t, Instr::Pop);
            assert(s.stack.push(t.stack.last()).take(s.stack.len() as int) =~= s.stack);
        },
        Err(_) => {},
    }
}

/// The accumulator ends up holding the value of the last statement: from
/// any state, running the code of a program comes to the program's value in
/// the accumulator, the stack at the depth it had before and the frame that
/// the program leaves behind, or to the fault that the program's meaning
/// runs into.
pub proof fn lemma_program_computes(nodes: Seq<Node>, s: State)
    ensures
        yields(eval_program(nodes, s.acc, s.frame), s, run(s, program_code(nodes))),
    decreases nodes.len(),
{
    if nodes.len() > 0 {
        let init = nodes.drop_last();
        let last = code_of(nodes.last()) + seq![Instr::Pop];
        lemma_program_computes(init, s);
        assert(program_code(nodes) =~= program_code(init) + last);
        lemma_run_concat(s, program_code(init), last);
        match run(s, program_code(init)) {
            Ok(t) => {
                lemma_statement_computes(nodes.last(), t);
            },
            Err(_) => {},
        }
    }
}

/// A tree stays in its frame: where a well-formed tree assigns to
/// variables only and speaks only of variables that the frame has room for,
/// computing it leaves a frame of the same size, and the only fault that it
/// can run into is one of division.
pub proof fn lemma_eval_stays_in_frame(node: Node, frame: Seq<i64>)
    requires
        node.wf(),
        assignable(node),
        node.within(frame.len()),
    ensures
        match eval(node, frame) {
            Ok((_, f)) => f.len() == frame.len(),
            Err(e) => e == Fault::Division,
        },
    decreases node,
{
    match (node.lhs, node.rhs) {
        (Some(l), Some(r)) => {
            if node.kind == NodeKind::NdAssign {
                lemma_eval_stays_in_frame(*r, frame);
                assert(l.wf());
                assert(l.kind == NodeKind::NdLVar);
                assert(l.within(frame.len()));
                assert(valid_offset(l.offset.unwrap(), frame.len()));
            } else {
                lemma_eval_stays_in_frame(*l, frame);
                match eval(*l, frame) {
                    Ok((_, f1)) => {
                        lemma_eval_stays_in_frame(*r, f1);
                    },
                    Err(_) => {},
                }
            }
        },
        _ => {},
    }
}

/// A program stays in its frame: where every statement is well formed,
/// assigns to variables only and speaks only of variables that the frame
/// has room for, the program leaves a frame of the same size, and the only
/// fault that it can run into is one of division.
pub proof fn lemma_program_stays_in_frame(nodes: Seq<Node>, acc: i64, frame: Seq<i64>)
    requires
        all_assignable(nodes),
        forall|i: int|
            0 <= i < nodes.len() ==> (#[trigger] nodes[i]).wf() && nodes[i].within(frame.len()),
    ensures
        match eval_program(nodes, acc, frame) {
            Ok((_, f)) => f.len() == frame.len(),
            Err(e) => e == Fault::Division,
        },
    decreases nodes.len(),
{
    if nodes.len() > 0 {
        let init = nodes.drop_last();
        assert forall|i: int| 0 <= i < init.len() implies (#[trigger] init[i]).wf()
            && init[i].within(frame.len()) && assignable(init[i]) by {
            assert(init[i] == nodes[i]);
        }
        lemma_program_stays_in_frame(init, acc, frame);
        match eval_program(init, acc, frame) {
            Ok((_, f)) => {
                lemma_eval_stays_in_frame(nodes.last(), f);
            },
            Err(_) => {},
        }
    }
}

/// A stack machine that can be run.
#[derive(Debug)]
pub struct Machine {
    /// The accumulator `A`.
    pub acc: i64,
    /// The second scratch register `B`.
    pub aux: i64,
    /// The operand stack; its top is the last element.
    pub stack: Vec<i64>,
    /// The frame; slot `i` holds the variable at offset `8 * (i + 1)`.
    pub frame: Vec<i64>,
}

impl View for Machine {
    type V = State;

    open spec fn view(&self) -> State {
        State { acc: self.acc, aux: self.aux, stack: self.stack@, frame: self.frame@ }
    }
}

impl Machine {
    /// The state in which a program starts: nothing on the stack, zero in
    /// both registers and in each of the `slots` words of the frame.
    pub open spec fn initial(slots: nat) -> State {
        State { acc: 0, aux: 0, stack: Seq::empty(), frame: Seq::new(slots, |i: int| 0i64) }
    }

    /// A machine in the state [`Machine::initial`].
    pub fn new(slots: usize) -> (m: Machine)
        ensures
            m@ == Machine::initial(slots as nat),
    {
        let mut frame: Vec<i64> = Vec::new();
        while frame.len() < slots
            invariant
                frame@.len() <= slots,
                forall|i: int| 0 <= i < frame@.len() ==> frame@[i] == 0,
            decreases slots - frame.len(),
        {
            frame.push(0);
        }
        let m = Machine { acc: 0, aux: 0, stack: Vec::new(), frame };
        assert(m@.frame =~= Machine::initial(slots as nat).frame);
        assert(m@.stack =~= Machine::initial(slots as nat).stack);
        m
    }

    /// The frame slot that `addr` points at, if it points at one.
    fn slot(&self, addr: i64) -> (k: Option<usize>)
        ensures
            k is Some <==> slot_of(addr, self.frame@.len()) is Some,
            k matches Some(i) ==> i < self.frame@.len() && slot_of(addr, self.frame@.len())
                == Some(i as int),
    {
        if addr >= 0 {
            return None;
        }
        let below: u64 = if addr == i64::MIN {
            0x8000_0000_0000_0000
        } else {
            (-addr) as u64
        };
        if below % 8 != 0 {
            return None;
        }
        let words = below / 8;
        if words > self.frame.len() as u64 {
            return None;
        }
        Some((words - 1) as usize)
    }

    /// Performs one instruction. Where the instruction faults, the machine
    /// stays as it is.
    pub fn step(&mut self, instr: Instr) -> (r: Result<(), Fault>)
        ensures
            match step(old(self)@, instr) {
                Ok(t) => r is Ok && final(self)@ == t,
                Err(e) => r == Err::<(), Fault>(e) && *final(self) == *old(self),
            },
    {
        let n = self.stack.len();
        match instr {
            Instr::PushNum(v) => {
                self.stack.push(v as i64);
                Ok(())
            },
            Instr::PushAddr(offset) => {
                let addr: i64 = -(offset as i64);
                self.acc = addr;
                self.stack.push(addr);
                Ok(())
            },
            Instr::Load => {
                if n < 1 {
                    return Err(Fault::Stack);
                }
                match self.slot(self.stack[n - 1]) {
                    Some(k) => {
                        let v = self.frame[k];
                        self.stack.pop();
                        self.acc = v;
                        self.stack.push(v);
                        assert(self.stack@ =~= old(self).stack@.take(n - 1).push(v));
                        Ok(())
                    },
                    None => Err(Fault::Frame),
                }
            },
            Instr::Store => {
                if n < 2 {
                    return Err(Fault::Stack);
                }
                match self.slot(self.stack[n - 2]) {
                    Some(k) => {
                        let b = self.stack[n - 1];
                        let a = self.stack[n - 2];
                        self.stack.pop();
                        self.stack.pop();
                        self.frame.set(k, b);
                        self.acc = a;
                        self.aux = b;
                        self.stack.push(b);
                        assert(self.stack@ =~= old(self).stack@.take(n - 2).push(b));
                        Ok(())
                    },
                    None => Err(Fault::Frame),
                }
            },
            Instr::Pop => {
                if n < 1 {
                    return Err(Fault::Stack);
                }
                let v = self.stack[n - 1];
                self.stack.pop();
                self.acc = v;
                assert(self.stack@ =~= old(self).stack@.take(n - 1));
                Ok(())
            },
            op => {
                if n < 2 {
                    return Err(Fault::Stack);
                }
                let b = self.stack[n - 1];
                let a = self.stack[n - 2];
                let v = match op {
                    Instr::Add => Some(a.wrapping_add(b)),
                    Instr::Sub => Some(a.wrapping_sub(b)),
                    Instr::Mul => Some(a.wrapping_mul(b)),
                    Instr::Div => a.checked_div(b),
                    Instr::Eq => Some(if a == b { 1i64 } else { 0i64 }),
                    Instr::NotEq => Some(if a != b { 1i64 } else { 0i64 }),
                    Instr::Less => Some(if a < b { 1i64 } else { 0i64 }),
                    Instr::LessEq => Some(if a <= b { 1i64 } else { 0i64 }),
                    _ => None,
                };
                match v {
                    Some(v) => {
                        self.stack.pop();
                        self.stack.pop();
                        self.acc = v;
                        self.aux = b;
                        self.stack.push(v);
                        assert(self.stack@ =~= old(self).stack@.take(n - 2).push(v));
                        Ok(())
                    },
                    None => Err(Fault::Division),
                }
            },
        }
    }

    /// Performs the instructions of `code`, one after the other. Returns
    /// the machine that they leave behind, or the first fault.
    pub fn run(self, code: &Vec<Instr>) -> (r: Result<Machine, Fault>)
        ensures
            match run(self@, code@) {
                Ok(t) => r is Ok && r.unwrap()@ == t,
                Err(e) => r matches Err(fault) && fault == e,
            },
    {
        let mut machine = self;
        let mut i: usize = 0;
        assert(code@.skip(0) =~= code@);
        while i < code.len()
            invariant
                i <= code.len(),
                run(self@, code@) == run(machine@, code@.skip(i as int)),
            decreases code.len() - i,
        {
            proof {
                assert(code@.skip(i as int).skip(1) =~= code@.skip(i + 1));
            }
            match machine.step(code[i]) {
                Ok(()) => {},
                Err(e) => {
                    return Err(e);
                },
            }
            i += 1;
        }
        Ok(machine)
    }
}

} // verus!
