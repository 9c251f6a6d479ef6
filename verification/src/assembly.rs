//! The text of generated code: every instruction of the stack machine
//! written out as lines of x86-64 assembly in Intel syntax. `A` is `rax`,
//! `B` is `rdi`, the operand stack is the machine stack, and `rbp` is the
//! frame base.
//!
//! A literal is pushed as an immediate operand, which the processor extends
//! from 32 bits with its sign: for literals from 2^31 on the text does not
//! do what the machine of [`crate::machine`] does.

use crate::generator::Instr;
use crate::text::{decimal, push_decimal};
use vstd::prelude::*;

verus! {

/// The texts of `lines`, in the same order.
pub open spec fn texts(lines: Seq<String>) -> Seq<Seq<char>> {
    lines.map_values(|line: String| line@)
}

/// The lines that compare `A` with `B` and leave in `A` the 0 or 1 that the
/// instruction `set` reads off the flags.
pub open spec fn comparison(set: Seq<char>) -> Seq<Seq<char>> {
    seq!["  pop rdi"@, "  pop rax"@, "  cmp rax, rdi"@, set, "  movzb rax, al"@, "  push rax"@]
}

/// The lines that apply the two-operand instruction `op` to `A` and `B`.
pub open spec fn arithmetic(op: Seq<char>) -> Seq<Seq<char>> {
    seq!["  pop rdi"@, "  pop rax"@, op, "  push rax"@]
}

/// The assembly lines of one instruction.
pub open spec fn lines_of(instr: Instr) -> Seq<Seq<char>> {
    match instr {
        Instr::PushNum(val) => seq!["  push "@ + decimal(val as nat)],
        Instr::PushAddr(offset) => seq![
            "  mov rax, rbp"@,
            "  sub rax, "@ + decimal(offset as nat),
            "  push rax"@,
        ],
        Instr::Load => seq!["  pop rax"@, "  mov rax, [rax]"@, "  push rax"@],
        Instr::Store => seq!["  pop rdi"@, "  pop rax"@, "  mov [rax], rdi"@, "  push rdi"@],
        Instr::Add => arithmetic("  add rax, rdi"@),
        Instr::Sub => arithmetic("  sub rax, rdi"@),
        Instr::Mul => arithmetic("  imul rax, rdi"@),
        Instr::Div => seq!["  pop rdi"@, "  pop rax"@, "  cqo"@, "  idiv rdi"@, "  push rax"@],
        Instr::Eq => comparison("  sete al"@),
        Instr::NotEq => comparison("  setne al"@),
        Instr::Less => comparison("  setl al"@),
        Instr::LessEq => comparison("  setle al"@),
        Instr::Pop => seq!["  pop rax"@],
    }
}

/// The assembly lines of `code`: the lines of every instruction, in order.
pub open spec fn listing(code: Seq<Instr>) -> Seq<Seq<char>>
    decreases code.len(),
{
    if code.len() == 0 {
        Seq::empty()
    } else {
        listing(code.drop_last()) + lines_of(code.last())
    }
}

/// Appends the line `text` to `lines`.
fn put(lines: &mut Vec<String>, text: &str)
    ensures
        texts(final(lines)@) == texts(old(lines)@).push(text@),
{
    lines.push(String::from_str(text));
    assert(texts(lines@) =~= texts(old(lines)@).push(text@));
}

/// Appends to `lines` the line that is `text` followed by `n` in decimal.
fn put_with_number(lines: &mut Vec<String>, text: &str, n: u32)
    ensures
        texts(final(lines)@) == texts(old(lines)@).push(text@ + decimal(n as nat)),
{
    let mut line = String::from_str(text);
    push_decimal(&mut line, n);
    lines.push(line);
    assert(texts(lines@) =~= texts(old(lines)@).push(text@ + decimal(n as nat)));
}

/// Appends the lines of `instr` to `lines`.
pub fn write_instr(instr: Instr, lines: &mut Vec<String>)
    ensures
        texts(final(lines)@) == texts(old(lines)@) + lines_of(instr),
{
    let ghost before = texts(lines@);
    match instr {
        Instr::PushNum(val) => {
            put_with_number(lines, "  push ", val);
        },
        Instr::PushAddr(offset) => {
            put(lines, "  mov rax, rbp");
            put_with_number(lines, "  sub rax, ", offset);
            put(lines, "  push rax");
        },
        Instr::Load => {
            put(lines, "  pop rax");
            put(lines, "  mov rax, [rax]");
            put(lines, "  push rax");
        },
        Instr::Store => {
            put(lines, "  pop rdi");
            put(lines, "  pop rax");
            put(lines, "  mov [rax], rdi");
            put(lines, "  push rdi");
        },
        Instr::Pop => {
            put(lines, "  pop rax");
        },
        op => {
            put(lines, "  pop rdi");
            put(lines, "  pop rax");
            match op {
                Instr::Eq => {
                    put(lines, "  cmp rax, rdi");
                    put(lines, "  sete al");
                    put(lines, "  movzb rax, al");
                },
                Instr::NotEq => {
                    put(lines, "  cmp rax, rdi");
                    put(lines, "  setne al");
                    put(lines, "  movzb rax, al");
                },
                Instr::Less => {
                    put(lines, "  cmp rax, rdi");
                    put(lines, "  setl al");
                    put(lines, "  movzb rax, al");
                },
                Instr::LessEq => {
                    put(lines, "  cmp rax, rdi");
                    put(lines, "  setle al");
                    put(lines, "  movzb rax, al");
                },
                Instr::Add => {
                    put(lines, "  add rax, rdi");
                },
                Instr::Sub => {
                    put(lines, "  sub rax, rdi");
                },
                Instr::Mul => {
                    put(lines, "  imul rax, rdi");
                },
                _ => {
                    put(lines, "  cqo");
                    put(lines, "  idiv rdi");
                },
            }
            put(lines, "  push rax");
        },
    }
    assert(texts(lines@) =~= before + lines_of(instr));
}

/// The assembly lines of `code`.
pub fn assembly(code: &Vec<Instr>) -> (lines: Vec<String>)
    ensures
        texts(lines@) == listing(code@),
{
    let mut lines: Vec<String> = Vec::new();
    let mut i: usize = 0;
    assert(texts(lines@) =~= listing(code@.take(0)));
    while i < code.len()
        invariant
            i <= code.len(),
            texts(lines@) == listing(code@.take(i as int)),
        decreases code.len() - i,
    {
        proof {
            let next = code@.take(i + 1);
            assert(next.drop_last() =~= code@.take(i as int));
            assert(next.last() == code@[i as int]);
        }
        write_instr(code[i], &mut lines);
        i += 1;
    }
    assert(code@.take(i as int) =~= code@);
    lines
}

} // verus!
