//! The whole pipeline: from source text to the instructions of a program.

use crate::error::{CompileError, LexError, ParseError};
use crate::generator::{all_assignable, generate_program, program_code, Instr};
use crate::grammar::spec_program;
use crate::machine::{
    eval_program, lemma_program_computes, lemma_program_stays_in_frame, run, yields, Fault,
    State,
};
use crate::parser::{entries, program, LVar, Node};
use crate::table::{lemma_table_bound, WORD_SIZE};
use crate::tokenizer::{scan, Token};
use vstd::prelude::*;

verus! {

/// The smallest frame that a program gets, in bytes: room for 26
/// variables.
pub const MIN_FRAME: u32 = 208;

/// A compiled program.
#[derive(Debug)]
pub struct Compiled {
    /// The instructions, in the order in which they run.
    pub code: Vec<Instr>,
    /// The number of variables of the program: the number of words that
    /// its frame needs.
    pub slots: usize,
}

/// The trees of the statements of `text`, where it is a program.
pub open spec fn statements_of(text: Seq<char>) -> Seq<Node>
    recommends
        compile_spec(text) is Ok,
{
    spec_program(scan(text, 0).unwrap(), Seq::empty()).unwrap().0
}

/// Whether `code` gets by with a frame of `slots` words and the stack that
/// it finds: from whatever state with such a frame, or a larger one, it
/// either ends with the stack and the size of the frame as they were, or it
/// runs into a fault of division, and into no other.
pub open spec fn stays_in_frame(code: Seq<Instr>, slots: nat) -> bool {
    forall|s: State|
        s.frame.len() >= slots ==> match #[trigger] run(s, code) {
            Ok(t) => t.stack == s.stack && t.frame.len() == s.frame.len(),
            Err(e) => e == Fault::Division,
        }
}

/// What compiling `text` yields: the instructions of the program and the
/// number of its variables, or the first error of the first stage that
/// fails. Lexing comes first, then parsing, then lowering.
pub open spec fn compile_spec(text: Seq<char>) -> Result<(Seq<Instr>, nat), CompileError> {
    match scan(text, 0) {
        Err(e) => Err(CompileError::Lex(e)),
        Ok(toks) => match spec_program(toks, Seq::empty()) {
            Err(e) => Err(CompileError::Parse(e)),
            Ok((nodes, table)) => if all_assignable(nodes) {
                Ok((program_code(nodes), table.len()))
            } else {
                Err(CompileError::Parse(ParseError::NotAssignable))
            },
        },
    }
}

/// Compiles `source`.
///
/// The result is what [`compile_spec`] yields for the text: on success the
/// instructions and the number of variables, of which there are at most 52,
/// and otherwise the error, with no instruction handed out. From any state,
/// the instructions leave the value of the last statement in the
/// accumulator and the stack as it was, and they get by with a frame of one
/// word for each variable.
pub fn compile(source: Vec<char>) -> (r: Result<Compiled, CompileError>)
    ensures
        match compile_spec(source@) {
            Ok((code, slots)) => r matches Ok(c) && c.code@ == code && c.slots == slots,
            Err(e) => r == Err::<Compiled, CompileError>(e),
        },
        r matches Ok(c) ==> c.slots <= 52 && stays_in_frame(c.code@, c.slots as nat),
        r matches Ok(c) ==> forall|s: State|
            yields(
                eval_program(statements_of(source@), s.acc, s.frame),
                s,
                #[trigger] run(s, c.code@),
            ),
{
    let mut tokens = match Token::tokenize(source) {
        Ok(tokens) => tokens,
        Err(e) => {
            return Err(CompileError::Lex(e));
        },
    };
    let mut vars: Vec<LVar> = Vec::new();
    assert(entries(vars@) =~= Seq::empty());
    let nodes = match program(&mut tokens, &mut vars) {
        Ok(nodes) => nodes,
        Err(e) => {
            return Err(CompileError::Parse(e));
        },
    };
    proof {
        lemma_table_bound(entries(vars@));
        if all_assignable(nodes@) {
            lemma_stays_in_frame(nodes@, vars@.len());
        }
    }
    match generate_program(&nodes) {
        Ok(code) => Ok(Compiled { code, slots: vars.len() }),
        Err(e) => Err(CompileError::Parse(e)),
    }
}

/// The size in bytes of the frame that a program with `slots` variables
/// is given: one word for each variable, and never less than
/// [`MIN_FRAME`].
pub fn frame_bytes(slots: usize) -> (bytes: u32)
    requires
        slots <= 52,
    ensures
        bytes == if WORD_SIZE * slots <= MIN_FRAME {
            MIN_FRAME as int
        } else {
            WORD_SIZE * slots
        },
        bytes % WORD_SIZE == 0,
        WORD_SIZE * slots <= bytes,
{
    let needed = WORD_SIZE * (slots as u32);
    if needed <= MIN_FRAME {
        MIN_FRAME
    } else {
        needed
    }
}

/// Compiled code computes what the program means: from any state, the
/// instructions that `text` compiles to either run into the fault that the
/// meaning of its statements runs into, or they end with the value of the
/// last statement in the accumulator, the stack at the depth it had before,
/// and the frame that the statements leave behind.
pub proof fn lemma_compiled_code_computes(text: Seq<char>, s: State)
    requires
        compile_spec(text) is Ok,
    ensures
        yields(
            eval_program(statements_of(text), s.acc, s.frame),
            s,
            run(s, compile_spec(text).unwrap().0),
        ),
{
    lemma_program_computes(statements_of(text), s);
}

/// The code of well-formed statements that assign to variables only and
/// speak only of the first `slots` variables gets by with a frame of
/// `slots` words.
pub proof fn lemma_stays_in_frame(nodes: Seq<Node>, slots: nat)
    requires
        all_assignable(nodes),
        forall|i: int|
            0 <= i < nodes.len() ==> (#[trigger] nodes[i]).wf() && nodes[i].within(slots),
    ensures
        stays_in_frame(program_code(nodes), slots),
{
    assert forall|s: State| s.frame.len() >= slots implies match #[trigger] run(
        s,
        program_code(nodes),
    ) {
        Ok(t) => t.stack == s.stack && t.frame.len() == s.frame.len(),
        Err(e) => e == Fault::Division,
    } by {
        assert forall|i: int| 0 <= i < nodes.len() implies (#[trigger] nodes[i]).wf()
            && nodes[i].within(s.frame.len()) by {
            nodes[i].lemma_within_larger(slots, s.frame.len());
        }
        lemma_program_stays_in_frame(nodes, s.acc, s.frame);
        lemma_program_computes(nodes, s);
    }
}

} // verus!
