//! What holds of the directory's operations whatever the directory and
//! the command: proved once, for every state.

use vstd::prelude::*;
use crate::command::{is_valid_command, keyword_function, parse_command, Function, Instruction};
use crate::model::{
    all_normalized, apply_instruction, has_entry, is_normalized, lemma_total_insert, other_than,
    remove_entry, total_entries, DirectoryMap,
};
use crate::text::{
    is_whitespace, lemma_token_len_bounds, lowercase, split_tokens, token_len, uppercase,
};

verus! {

/// A command parses exactly when it has four tokens and the first one, in
/// upper case, is an operation keyword. The instruction then holds the
/// second token as the name and the fourth as the department; the third
/// token plays no part.
pub proof fn lemma_valid_command_parses(raw: Seq<char>)
    ensures
        parse_command(raw) is Ok <==> is_valid_command(raw),
        is_valid_command(raw) ==> parse_command(raw)->Ok_0 == (Instruction {
            function: keyword_function(uppercase(split_tokens(raw)[0]))->Some_0,
            name: split_tokens(raw)[1],
            department: split_tokens(raw)[3],
        }),
{
}

/// A word is a text that is not empty and holds no whitespace.
pub open spec fn is_word(token: Seq<char>) -> bool {
    &&& token.len() > 0
    &&& forall|k: int| 0 <= k < token.len() ==> !is_whitespace(#[trigger] token[k])
}

/// Every token is a word.
pub proof fn lemma_tokens_are_words(s: Seq<char>)
    ensures
        forall|i: int| 0 <= i < split_tokens(s).len() ==> is_word(#[trigger] split_tokens(s)[i]),
    decreases s.len(),
{
    if s.len() == 0 {
    } else if is_whitespace(s[0]) {
        lemma_tokens_are_words(s.drop_first());
        assert(split_tokens(s) == split_tokens(s.drop_first()));
    } else {
        let n = token_len(s) as int;
        lemma_token_len_bounds(s);
        lemma_token_has_no_whitespace(s);
        lemma_tokens_are_words(s.skip(n));
        let first = s.take(n);
        let rest = split_tokens(s.skip(n));
        assert(split_tokens(s) == seq![first] + rest);
        assert(is_word(first));
        assert forall|i: int| 0 <= i < split_tokens(s).len() implies is_word(
            #[trigger] split_tokens(s)[i],
        ) by {
            if i > 0 {
                assert(split_tokens(s)[i] == rest[i - 1]);
            }
        }
    }
}

/// The leading token holds no whitespace.
proof fn lemma_token_has_no_whitespace(s: Seq<char>)
    ensures
        forall|k: int| 0 <= k < token_len(s) ==> !is_whitespace(#[trigger] s[k]),
    decreases s.len(),
{
    if s.len() > 0 && !is_whitespace(s[0]) {
        let t = s.drop_first();
        lemma_token_has_no_whitespace(t);
        lemma_token_len_bounds(t);
        assert forall|k: int| 0 <= k < token_len(s) implies !is_whitespace(#[trigger] s[k]) by {
            if k > 0 {
                assert(s[k] == t[k - 1]);
            }
        }
    }
}

/// Departments come into being by `Add` alone, and none is ever removed:
/// `Delete` and `Reset` leave the set of departments as it is.
pub proof fn lemma_apply_departments(m: DirectoryMap, instruction: Instruction)
    ensures
        apply_instruction(m, instruction).dom() == match instruction.function {
            Function::Add => m.dom().insert(instruction.department),
            Function::Delete => m.dom(),
            Function::Reset => m.dom(),
        },
        m.dom().finite() ==> apply_instruction(m, instruction).dom().finite(),
{
}

/// An instruction changes its own department only.
pub proof fn lemma_apply_elsewhere(
    m: DirectoryMap,
    instruction: Instruction,
    department: Seq<char>,
)
    requires
        department != instruction.department,
        m.dom().contains(department),
    ensures
        apply_instruction(m, instruction).dom().contains(department),
        apply_instruction(m, instruction)[department] == m[department],
{
}

/// Every stored entry stays normalized.
pub proof fn lemma_apply_keeps_normalized(m: DirectoryMap, instruction: Instruction)
    requires
        all_normalized(m),
    ensures
        all_normalized(apply_instruction(m, instruction)),
{
    let after = apply_instruction(m, instruction);
    let target = instruction.department;
    assert forall|department: Seq<char>, k: int|
        after.dom().contains(department) && 0 <= k < after[department].len()
        implies is_normalized(#[trigger] after[department][k]) by {
        if department == target && instruction.function == Function::Delete {
            // What is left after a `Delete` was there before.
            let keep = other_than(lowercase(instruction.name));
            m[target].lemma_filter_contains_rev(keep, m[target].filter(keep)[k]);
        }
    }
}

/// Resetting a department twice leaves what resetting it once leaves: the
/// department, if it existed, with no entries.
pub proof fn lemma_reset_is_idempotent(m: DirectoryMap, instruction: Instruction)
    requires
        instruction.function == Function::Reset,
    ensures
        apply_instruction(apply_instruction(m, instruction), instruction) == apply_instruction(
            m,
            instruction,
        ),
        m.dom().contains(instruction.department) ==> apply_instruction(
            m,
            instruction,
        )[instruction.department] == Seq::<Seq<char>>::empty(),
{
}

/// Deleting from, or resetting, a department that does not exist changes
/// nothing: the department is not created.
pub proof fn lemma_absent_department_is_untouched(m: DirectoryMap, instruction: Instruction)
    requires
        !m.dom().contains(instruction.department),
        instruction.function != Function::Add,
    ensures
        apply_instruction(m, instruction) == m,
{
}

/// Whoever was added is found under every spelling that differs from the
/// added one in case only.
pub proof fn lemma_added_is_employee(
    m: DirectoryMap,
    instruction: Instruction,
    query: Seq<char>,
)
    requires
        instruction.function == Function::Add,
        lowercase(query) == lowercase(instruction.name),
    ensures
        has_entry(apply_instruction(m, instruction), lowercase(query)),
{
    let after = apply_instruction(m, instruction);
    let entries = after[instruction.department];
    assert(entries[entries.len() - 1] == lowercase(query));
    assert(after.dom().contains(instruction.department) && after[instruction.department].contains(
        lowercase(query),
    ));
}

/// How the total changes: every `Add` counts one more, whether or not the
/// name was there before; `Delete` takes out the copies of the name that
/// the department held; `Reset` takes out all that the department held.
/// So no instruction adds more than one entry.
pub proof fn lemma_apply_count(m: DirectoryMap, instruction: Instruction)
    requires
        m.dom().finite(),
    ensures
        ({
            let present = m.dom().contains(instruction.department);
            let held = m[instruction.department];
            let kept = held.filter(other_than(lowercase(instruction.name)));
            let before = total_entries(m);
            let after = total_entries(apply_instruction(m, instruction));
            &&& instruction.function == Function::Add ==> after == before + 1
            &&& instruction.function == Function::Delete && present ==> after == before
                - held.len() + kept.len()
            &&& instruction.function == Function::Reset && present ==> after == before
                - held.len()
            &&& instruction.function != Function::Add && !present ==> after == before
            &&& after <= before + 1
        }),
{
    let department = instruction.department;
    let entry = lowercase(instruction.name);
    if m.dom().contains(department) {
        let kept = m[department].filter(other_than(entry));
        m[department].lemma_filter_len(other_than(entry));
        lemma_total_insert(m, department, m[department].push(entry));
        lemma_total_insert(m, department, kept);
        lemma_total_insert(m, department, Seq::empty());
    } else {
        lemma_total_insert(m, department, seq![entry]);
    }
}

/// After a `Delete`, the department holds the deleted entry nowhere,
/// however often it held it before, and every other entry that it held.
pub proof fn lemma_delete_removes_all(m: DirectoryMap, department: Seq<char>, entry: Seq<char>)
    requires
        m.dom().contains(department),
    ensures
        !remove_entry(m, department, entry)[department].contains(entry),
        forall|other: Seq<char>|
            other != entry ==> (#[trigger] remove_entry(m, department, entry)[department].contains(
                other,
            ) <==> m[department].contains(other)),
{
    let keep = other_than(entry);
    let kept = m[department].filter(keep);
    if kept.contains(entry) {
        let k = choose|k: int| 0 <= k < kept.len() && kept[k] == entry;
        m[department].lemma_filter_pred(keep, k);
    }
    assert forall|other: Seq<char>| other != entry implies (#[trigger] kept.contains(other)
        <==> m[department].contains(other)) by {
        if kept.contains(other) {
            m[department].lemma_filter_contains_rev(keep, other);
        }
        if m[department].contains(other) {
            let j = choose|j: int| 0 <= j < m[department].len() && m[department][j] == other;
            m[department].lemma_filter_contains(keep, j);
        }
    }
}

/// Adding a name twice and then deleting it, in whatever case it is
/// written each time, takes both copies out again: the department is left
/// with what else it held, and empty if it was new or held nothing else.
pub proof fn lemma_add_twice_then_delete(
    m: DirectoryMap,
    first: Instruction,
    second: Instruction,
    delete: Instruction,
)
    requires
        first.function == Function::Add,
        second.function == Function::Add,
        delete.function == Function::Delete,
        first.department == second.department,
        first.department == delete.department,
        lowercase(first.name) == lowercase(second.name),
        lowercase(first.name) == lowercase(delete.name),
    ensures
        ({
            let department = delete.department;
            let entry = lowercase(delete.name);
            let after = apply_instruction(
                apply_instruction(apply_instruction(m, first), second),
                delete,
            );
            &&& after.dom().contains(department)
            &&& !after[department].contains(entry)
            &&& after[department] == if m.dom().contains(department) {
                m[department].filter(other_than(entry))
            } else {
                Seq::<Seq<char>>::empty()
            }
        }),
{
    let department = delete.department;
    let entry = lowercase(delete.name);
    let keep = other_than(entry);
    let once = apply_instruction(m, first);
    let twice = apply_instruction(once, second);
    let before = if m.dom().contains(department) {
        m[department]
    } else {
        Seq::<Seq<char>>::empty()
    };
    assert(twice[department] =~= before.push(entry).push(entry));
    lemma_filter_push(before, entry, keep);
    lemma_filter_push(before.push(entry), entry, keep);
    if !m.dom().contains(department) {
        reveal(Seq::filter);
    }
    lemma_delete_removes_all(twice, department, entry);
}

/// Filtering a sequence with one more entry at its end.
proof fn lemma_filter_push(s: Seq<Seq<char>>, entry: Seq<char>, keep: spec_fn(Seq<char>) -> bool)
    ensures
        s.push(entry).filter(keep) == if keep(entry) {
            s.filter(keep).push(entry)
        } else {
            s.filter(keep)
        },
{
    reveal(Seq::filter);
    assert(s.push(entry).drop_last() =~= s);
}

} // verus!
