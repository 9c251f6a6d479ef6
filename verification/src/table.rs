//! The symbol table as a mathematical value: which offset a name has, which
//! offset a new name gets, and what holds of every table that the parser
//! builds.

use crate::text::{is_letter, spec_is_letter};
use vstd::prelude::*;
use vstd::set_lib::{lemma_int_range, lemma_len_subset, set_int_range};

verus! {

/// The distance in bytes between the frame offsets of two variables that
/// were first seen one after the other.
pub const WORD_SIZE: u32 = 8;

/// An entry of the symbol table as a mathematical value.
pub struct Entry {
    /// The name of the variable.
    pub name: Seq<char>,
    /// How far below the frame base the variable lives, in bytes.
    pub offset: u32,
}

/// A symbol table is well formed when every name is one ASCII letter, no
/// name occurs twice, and the offsets count up from the first entry in
/// steps of one word, starting one word below the frame base.
pub open spec fn table_wf(vars: Seq<Entry>) -> bool {
    &&& forall|i: int|
        0 <= i < vars.len() ==> (#[trigger] vars[i]).name.len() == 1 && is_letter(vars[i].name[0])
    &&& forall|i: int| 0 <= i < vars.len() ==> (#[trigger] vars[i]).offset == WORD_SIZE * (i + 1)
    &&& forall|i: int, j: int|
        0 <= i < j < vars.len() ==> (#[trigger] vars[i]).name != (#[trigger] vars[j]).name
}

/// The entry of `vars` for `name`, if there is one; the first, should there
/// be several.
pub open spec fn find_entry(vars: Seq<Entry>, name: Seq<char>) -> Option<Entry>
    decreases vars.len(),
{
    if vars.len() == 0 {
        None
    } else {
        match find_entry(vars.drop_last(), name) {
            Some(e) => Some(e),
            None => if vars.last().name == name {
                Some(vars.last())
            } else {
                None
            },
        }
    }
}

/// The offset that the next new variable gets: one word below the last
/// entry, or one word below the frame base in an empty table.
pub open spec fn next_offset(vars: Seq<Entry>) -> int {
    if vars.len() == 0 {
        WORD_SIZE as int
    } else {
        vars.last().offset + WORD_SIZE
    }
}

/// The offset of the variable `name`, and the table afterwards: a name that
/// the table knows keeps its offset, and a new name is entered at the next
/// offset.
#[verifier::opaque]
pub open spec fn resolve(vars: Seq<Entry>, name: Seq<char>) -> (u32, Seq<Entry>) {
    match find_entry(vars, name) {
        Some(e) => (e.offset, vars),
        None => (
            next_offset(vars) as u32,
            vars.push(Entry { name, offset: next_offset(vars) as u32 }),
        ),
    }
}

/// Whether `offset` is the frame offset of one of the first `slots`
/// variables.
pub open spec fn valid_offset(offset: u32, slots: nat) -> bool {
    offset > 0 && offset as int % (WORD_SIZE as int) == 0 && offset as int / (WORD_SIZE as int)
        <= slots
}

/// Whether the table `after` is the table `before` with entries added
/// behind it: no entry is ever removed or changed.
pub open spec fn extends(before: Seq<Entry>, after: Seq<Entry>) -> bool {
    &&& before.len() <= after.len()
    &&& forall|i: int| 0 <= i < before.len() ==> #[trigger] after[i] == before[i]
}

/// Where a letter stands among the 52 ASCII letters.
spec fn letter_index(c: char) -> int {
    if 'a' <= c && c <= 'z' {
        c as u32 - 'a' as u32
    } else {
        c as u32 - 'A' as u32 + 26
    }
}

/// A well-formed table has at most 52 entries, one for each letter.
pub proof fn lemma_table_bound(vars: Seq<Entry>)
    requires
        table_wf(vars),
    ensures
        vars.len() <= 52,
{
    let idx = Seq::new(vars.len(), |i: int| letter_index(vars[i].name[0]));
    assert forall|i: int, j: int| 0 <= i < idx.len() && 0 <= j < idx.len() && i != j implies idx[i]
        != idx[j] by {
        if idx[i] == idx[j] {
            assert(vars[i].name[0] == vars[j].name[0]);
            assert(vars[i].name =~= vars[j].name);
            if i < j {
                assert(vars[i].name != vars[j].name);
            } else {
                assert(vars[j].name != vars[i].name);
            }
        }
    }
    assert(idx.no_duplicates());
    idx.unique_seq_to_set();
    lemma_int_range(0, 52);
    assert forall|x: int| idx.to_set().contains(x) implies set_int_range(0, 52).contains(x) by {
        let i = choose|i: int| 0 <= i < idx.len() && idx[i] == x;
        assert(is_letter(vars[i].name[0]));
    }
    lemma_len_subset(idx.to_set(), set_int_range(0, 52));
}

/// `find_entry` finds nothing exactly when no entry has the name, and what
/// it finds is an entry with that name.
pub proof fn lemma_find_entry(vars: Seq<Entry>, name: Seq<char>)
    ensures
        match find_entry(vars, name) {
            Some(e) => exists|i: int| 0 <= i < vars.len() && vars[i] == e && e.name == name,
            None => forall|i: int| 0 <= i < vars.len() ==> (#[trigger] vars[i]).name != name,
        },
    decreases vars.len(),
{
    if vars.len() > 0 {
        let init = vars.drop_last();
        lemma_find_entry(init, name);
        match find_entry(init, name) {
            Some(e) => {
                let i = choose|i: int| 0 <= i < init.len() && init[i] == e && e.name == name;
                assert(vars[i] == e);
            },
            None => {
                if vars.last().name == name {
                    assert(vars[vars.len() - 1] == vars.last());
                } else {
                    assert forall|i: int| 0 <= i < vars.len() implies (#[trigger] vars[i]).name
                        != name by {
                        if i < init.len() {
                            assert(init[i] == vars[i]);
                        }
                    }
                }
            },
        }
    }
}

/// What is found among the first `n` entries is found in the whole table.
pub proof fn lemma_find_prefix(vars: Seq<Entry>, name: Seq<char>, n: int)
    requires
        0 <= n <= vars.len(),
        find_entry(vars.take(n), name) is Some,
    ensures
        find_entry(vars, name) == find_entry(vars.take(n), name),
    decreases vars.len() - n,
{
    if n < vars.len() {
        assert(vars.take(n + 1).drop_last() =~= vars.take(n));
        lemma_find_prefix(vars, name, n + 1);
    } else {
        assert(vars.take(n) =~= vars);
    }
}

/// Resolving a name keeps a table well formed, keeps every entry that was
/// there where it was, and yields an offset that lies in the table: the
/// offset that the name has, or for a new name the offset one word below
/// the last entry, with the name entered behind it.
pub proof fn lemma_resolve(vars: Seq<Entry>, name: Seq<char>)
    requires
        table_wf(vars),
        name.len() == 1,
        is_letter(name[0]),
    ensures
        resolve(vars, name) == (match find_entry(vars, name) {
            Some(e) => (e.offset, vars),
            None => (
                (WORD_SIZE * (vars.len() + 1)) as u32,
                vars.push(Entry { name, offset: (WORD_SIZE * (vars.len() + 1)) as u32 }),
            ),
        }),
        table_wf(resolve(vars, name).1),
        vars.len() <= resolve(vars, name).1.len() <= vars.len() + 1,
        extends(vars, resolve(vars, name).1),
        find_entry(resolve(vars, name).1, name) == Some(
            Entry { name, offset: resolve(vars, name).0 },
        ),
        valid_offset(resolve(vars, name).0, resolve(vars, name).1.len()),
        next_offset(vars) == WORD_SIZE * (vars.len() + 1),
        next_offset(vars) <= u32::MAX,
{
    reveal(resolve);
    lemma_find_entry(vars, name);
    lemma_table_bound(vars);
    let after = resolve(vars, name).1;
    match find_entry(vars, name) {
        Some(e) => {
            let i = choose|i: int| 0 <= i < vars.len() && vars[i] == e && e.name == name;
            assert(vars[i].offset == WORD_SIZE * (i + 1));
            assert(e == Entry { name, offset: e.offset });
        },
        None => {
            let e = Entry { name, offset: next_offset(vars) as u32 };
            assert(after.drop_last() =~= vars);
            assert(after.last() == e);
            assert forall|i: int, j: int| 0 <= i < j < after.len() implies (#[trigger] after[i]).name
                != (#[trigger] after[j]).name by {
                if j < vars.len() {
                    assert(vars[i].name != vars[j].name);
                } else {
                    assert(vars[i].name != name);
                }
            }
        },
    }
}

/// In a well-formed table every name has one offset, the first entry lies
/// one word below the frame base, and every further entry one word below
/// the entry before it.
pub proof fn lemma_table_offsets(vars: Seq<Entry>)
    requires
        table_wf(vars),
    ensures
        forall|i: int, j: int|
            0 <= i < vars.len() && 0 <= j < vars.len() && (#[trigger] vars[i]).name == (
            #[trigger] vars[j]).name ==> i == j,
        vars.len() > 0 ==> vars[0].offset == WORD_SIZE,
        forall|i: int|
            0 < i < vars.len() ==> (#[trigger] vars[i]).offset == vars[i - 1].offset + WORD_SIZE,
{
    assert forall|i: int, j: int|
        0 <= i < vars.len() && 0 <= j < vars.len() && (#[trigger] vars[i]).name == (
        #[trigger] vars[j]).name implies i == j by {
        if i < j {
            assert(vars[i].name != vars[j].name);
        } else if j < i {
            assert(vars[j].name != vars[i].name);
        }
    }
}

/// A name keeps its offset: once the table knows `name`, resolving any
/// name `other` changes neither the entry of `name` nor what resolving
/// `name` yields.
pub proof fn lemma_resolve_stable(vars: Seq<Entry>, name: Seq<char>, other: Seq<char>)
    requires
        table_wf(vars),
        find_entry(vars, name) is Some,
        other.len() == 1,
        is_letter(other[0]),
    ensures
        find_entry(resolve(vars, other).1, name) == find_entry(vars, name),
        resolve(resolve(vars, other).1, name).0 == resolve(vars, name).0,
{
    reveal(resolve);
    let after = resolve(vars, other).1;
    if find_entry(vars, other) is None {
        assert(after.drop_last() =~= vars);
    }
}

} // verus!
