//! The directory as a mathematical map from department names to the
//! sequences of entries stored under them, and the three operations on it.

use vstd::prelude::*;
use crate::command::{Function, Instruction};
use crate::text::lowercase;

verus! {

/// A directory: each department name with its entries, in insertion order.
pub type DirectoryMap = Map<Seq<char>, Seq<Seq<char>>>;

/// An entry is normalized when it is the lower-case form of some name.
pub open spec fn is_normalized(entry: Seq<char>) -> bool {
    exists|name: Seq<char>| #[trigger] lowercase(name) == entry
}

/// Every entry of every department is normalized.
pub open spec fn all_normalized(m: DirectoryMap) -> bool {
    forall|department: Seq<char>, k: int|
        m.dom().contains(department) && 0 <= k < m[department].len() ==> is_normalized(
            #[trigger] m[department][k],
        )
}

/// Appends `entry` to `department`, creating the department if needed.
pub open spec fn add_entry(m: DirectoryMap, department: Seq<char>, entry: Seq<char>)
    -> DirectoryMap {
    if m.dom().contains(department) {
        m.insert(department, m[department].push(entry))
    } else {
        m.insert(department, seq![entry])
    }
}

/// The test that keeps every entry but `entry`.
pub open spec fn other_than(entry: Seq<char>) -> spec_fn(Seq<char>) -> bool {
    |e: Seq<char>| e != entry
}

/// Removes every occurrence of `entry` from `department`; nothing changes
/// where the department does not exist.
pub open spec fn remove_entry(m: DirectoryMap, department: Seq<char>, entry: Seq<char>)
    -> DirectoryMap {
    if m.dom().contains(department) {
        m.insert(department, m[department].filter(other_than(entry)))
    } else {
        m
    }
}

/// Empties `department` and keeps its key; nothing changes where the
/// department does not exist.
pub open spec fn clear_department(m: DirectoryMap, department: Seq<char>) -> DirectoryMap {
    if m.dom().contains(department) {
        m.insert(department, Seq::empty())
    } else {
        m
    }
}

/// The directory after `instruction`. Names are normalized here, on the
/// way in; department names are taken as written.
pub open spec fn apply_instruction(m: DirectoryMap, instruction: Instruction) -> DirectoryMap {
    match instruction.function {
        Function::Add => add_entry(m, instruction.department, lowercase(instruction.name)),
        Function::Delete => remove_entry(m, instruction.department, lowercase(instruction.name)),
        Function::Reset => clear_department(m, instruction.department),
    }
}

/// Some department holds `entry`.
pub open spec fn has_entry(m: DirectoryMap, entry: Seq<char>) -> bool {
    exists|department: Seq<char>|
        m.dom().contains(department) && #[trigger] m[department].contains(entry)
}

/// The number of entries over all departments of a finite directory.
pub open spec fn total_entries(m: DirectoryMap) -> nat
    decreases m.dom().len(),
{
    if m.dom().finite() && m.dom().len() > 0 {
        let department = m.dom().choose();
        m[department].len() + total_entries(m.remove(department))
    } else {
        0
    }
}

/// The total does not depend on which department is counted first.
pub proof fn lemma_total_split(m: DirectoryMap, department: Seq<char>)
    requires
        m.dom().finite(),
        m.dom().contains(department),
    ensures
        total_entries(m) == m[department].len() + total_entries(m.remove(department)),
    decreases m.dom().len(),
{
    let first = m.dom().choose();
    if first != department {
        let rest = m.remove(first);
        lemma_total_split(rest, department);
        let other = m.remove(department);
        lemma_total_split(other, first);
        assert(rest.remove(department) =~= other.remove(first));
    }
}

/// Storing `entries` under `department` replaces what that department
/// held before in the count.
pub proof fn lemma_total_insert(m: DirectoryMap, department: Seq<char>, entries: Seq<Seq<char>>)
    requires
        m.dom().finite(),
    ensures
        total_entries(m.insert(department, entries)) == total_entries(m) + entries.len() - (
        if m.dom().contains(department) {
            m[department].len()
        } else {
            0
        }),
{
    let after = m.insert(department, entries);
    lemma_total_split(after, department);
    if m.dom().contains(department) {
        lemma_total_split(m, department);
        assert(after.remove(department) =~= m.remove(department));
    } else {
        assert(after.remove(department) =~= m);
    }
}

} // verus!
