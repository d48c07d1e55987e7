//! The directory's storage and the operations that change it.

use vstd::prelude::*;
use vstd::set_lib::{lemma_int_range, set_int_range};
use crate::command::{
    is_valid_command, parse_command, parse_statement, Function, ParseError, ParsedRes,
};
use crate::model::{
    add_entry, all_normalized, apply_instruction, clear_department, has_entry, is_normalized,
    lemma_total_insert, other_than, remove_entry, total_entries, DirectoryMap,
};
use crate::text::{lowercase, str_to_lowercase, views};

verus! {

/// One department: its name as first written, and its entries in
/// insertion order.
struct Department {
    name: String,
    employees: Vec<String>,
}

/// The department→entries mapping, created empty. Departments are kept in
/// the order in which they were first added; no name occurs twice, and
/// every entry is normalized.
pub struct Directory {
    departments: Vec<Department>,
}

/// No two departments share a name.
spec fn distinct_names(departments: Seq<Department>) -> bool {
    forall|i: int, j: int|
        0 <= i < j < departments.len() ==> departments[i].name@ != departments[j].name@
}

/// Every entry of every department is normalized.
spec fn normalized_entries(departments: Seq<Department>) -> bool {
    forall|i: int, k: int|
        0 <= i < departments.len() && 0 <= k < departments[i].employees.len() ==> is_normalized(
            #[trigger] departments[i].employees[k]@,
        )
}

/// Some department among `departments` is called `name`.
spec fn names_include(departments: Seq<Department>, name: Seq<char>) -> bool {
    exists|i: int| 0 <= i < departments.len() && #[trigger] departments[i].name@ == name
}

/// The place of the department called `name`.
spec fn place_of(departments: Seq<Department>, name: Seq<char>) -> int {
    choose|i: int| 0 <= i < departments.len() && #[trigger] departments[i].name@ == name
}

/// The mapping that a list of departments stands for.
spec fn departments_map(departments: Seq<Department>) -> DirectoryMap {
    Map::new(
        |name: Seq<char>| names_include(departments, name),
        |name: Seq<char>| views(departments[place_of(departments, name)].employees@),
    )
}

/// With distinct names, the department at place `i` is found under its
/// name, with its entries.
proof fn lemma_department_at(departments: Seq<Department>, i: int)
    requires
        distinct_names(departments),
        0 <= i < departments.len(),
    ensures
        place_of(departments, departments[i].name@) == i,
        departments_map(departments).dom().contains(departments[i].name@),
        departments_map(departments)[departments[i].name@] == views(
            departments[i].employees@,
        ),
{
    let p = place_of(departments, departments[i].name@);
    assert(p == i) by {
        if p < i {
        } else if i < p {
        }
    }
}

/// A department under a new name is one more key of the mapping.
proof fn lemma_map_push(departments: Seq<Department>, department: Department)
    requires
        distinct_names(departments),
        !names_include(departments, department.name@),
    ensures
        distinct_names(departments.push(department)),
        departments_map(departments.push(department)) == departments_map(departments).insert(
            department.name@,
            views(department.employees@),
        ),
{
    let after = departments.push(department);
    let lhs = departments_map(after);
    let rhs = departments_map(departments).insert(
        department.name@,
        views(department.employees@),
    );
    assert forall|name: Seq<char>| lhs.dom().contains(name) <==> rhs.dom().contains(name) by {
        if names_include(departments, name) {
            let i = place_of(departments, name);
            assert(after[i].name@ == name);
        }
        if name == department.name@ {
            assert(after[departments.len() as int].name@ == name);
        }
    }
    assert forall|name: Seq<char>| lhs.dom().contains(name) implies lhs[name] == rhs[name] by {
        let i = place_of(after, name);
        lemma_department_at(after, i);
        if i < departments.len() {
            lemma_department_at(departments, i);
        }
    }
    assert(lhs =~= rhs);
}

/// New entries for the department at place `i` replace its old ones in
/// the mapping and change nothing else.
proof fn lemma_map_update(departments: Seq<Department>, i: int, department: Department)
    requires
        distinct_names(departments),
        0 <= i < departments.len(),
        department.name@ == departments[i].name@,
    ensures
        distinct_names(departments.update(i, department)),
        departments_map(departments.update(i, department)) == departments_map(
            departments,
        ).insert(department.name@, views(department.employees@)),
{
    let after = departments.update(i, department);
    let lhs = departments_map(after);
    let rhs = departments_map(departments).insert(
        department.name@,
        views(department.employees@),
    );
    assert forall|name: Seq<char>| lhs.dom().contains(name) <==> rhs.dom().contains(name) by {
        if names_include(departments, name) {
            let p = place_of(departments, name);
            assert(after[p].name@ == name);
        }
    }
    assert forall|name: Seq<char>| lhs.dom().contains(name) implies lhs[name] == rhs[name] by {
        let p = place_of(after, name);
        lemma_department_at(after, p);
        if p != i {
            lemma_department_at(departments, p);
        }
    }
    assert(lhs =~= rhs);
}

impl View for Directory {
    type V = DirectoryMap;

    closed spec fn view(&self) -> DirectoryMap {
        departments_map(self.departments@)
    }
}

/// The mapping of a list of departments has finitely many keys.
proof fn lemma_map_finite(departments: Seq<Department>)
    ensures
        departments_map(departments).dom().finite(),
{
    let places = Set::new(|i: int| 0 <= i < departments.len());
    let names = places.map(|i: int| departments[i].name@);
    assert(places =~= set_int_range(0, departments.len() as int));
    lemma_int_range(0, departments.len() as int);
    places.lemma_map_finite(|i: int| departments[i].name@);
    assert(departments_map(departments).dom() =~= names) by {
        assert forall|name: Seq<char>| names_include(departments, name) implies names.contains(
            name,
        ) by {
            let i = place_of(departments, name);
            assert(places.contains(i));
        }
    }
}

/// With distinct names, normalized entries in every department are
/// normalized entries in the mapping.
proof fn lemma_map_normalized(departments: Seq<Department>)
    requires
        distinct_names(departments),
        normalized_entries(departments),
    ensures
        all_normalized(departments_map(departments)),
{
}

impl Directory {
    #[verifier::type_invariant]
    spec fn well_formed(&self) -> bool {
        &&& distinct_names(self.departments@)
        &&& normalized_entries(self.departments@)
    }

    /// A directory has finitely many departments.
    pub proof fn lemma_finite(&self)
        ensures
            self@.dom().finite(),
    {
        lemma_map_finite(self.departments@);
    }

    /// What the type invariant means for the mapping: every entry is
    /// normalized.
    proof fn lemma_normalized(&self)
        requires
            self.well_formed(),
        ensures
            all_normalized(self@),
    {
        lemma_map_normalized(self.departments@);
    }

    /// A directory without departments.
    pub fn new() -> (db: Directory)
        ensures
            db@ == Map::<Seq<char>, Seq<Seq<char>>>::empty(),
    {
        Directory { departments: Vec::new() }
    }
}

/// Where the department called `department` is kept, if anywhere.
fn position(departments: &Vec<Department>, department: &String) -> (found: Option<usize>)
    ensures
        match found {
            Some(i) => i < departments.len() && departments[i as int].name@ == department@,
            None => !names_include(departments@, department@),
        },
{
    let mut i: usize = 0;
    while i < departments.len()
        invariant
            i <= departments.len(),
            forall|j: int| 0 <= j < i ==> departments[j].name@ != department@,
        decreases departments.len() - i,
    {
        if departments[i].name == *department {
            return Some(i);
        }
        i = i + 1;
    }
    None
}

/// Whether `db` has a department called `department`, exactly as written.
pub fn has_department(department: &String, db: &Directory) -> (found: bool)
    ensures
        found == db@.dom().contains(department@),
{
    position(&db.departments, department).is_some()
}

/// The normalized form under which `name` is stored and looked up.
pub fn encode_name(name: &String) -> (entry: String)
    ensures
        entry@ == lowercase(name@),
{
    str_to_lowercase(name.as_str())
}

/// Adds the employee of `res` to its department: at the end of the
/// department's entries, or as the only entry of a new department.
pub fn add_employee(res: &ParsedRes, db: &mut Directory)
    ensures
        final(db)@ == add_entry(old(db)@, res.department@, lowercase(res.name@)),
        all_normalized(final(db)@),
{
    proof {
        use_type_invariant(&*db);
    }
    let entry = encode_name(&res.name);
    // The departments are taken out while they change and put back at the
    // end: the directory itself is never left half-changed.
    let mut departments: Vec<Department> = Vec::new();
    std::mem::swap(&mut departments, &mut db.departments);
    let ghost before = departments@;
    match position(&departments, &res.department) {
        Some(i) => {
            departments[i].employees.push(entry);
            proof {
                let changed = departments[i as int];
                assert(views(changed.employees@) =~= views(
                    before[i as int].employees@,
                ).push(entry@));
                lemma_department_at(before, i as int);
                lemma_map_update(before, i as int, changed);
            }
        },
        None => {
            let department = Department { name: res.department.clone(), employees: vec![entry] };
            proof {
                assert(views(department.employees@) =~= seq![entry@]);
                lemma_map_push(before, department);
            }
            departments.push(department);
        },
    }
    std::mem::swap(&mut departments, &mut db.departments);
    proof {
        use_type_invariant(&*db);
        db.lemma_normalized();
    }
}

/// The entries of `entries` other than `target`, in their order.
fn entries_without(entries: Vec<String>, target: &String) -> (kept: Vec<String>)
    ensures
        views(kept@) == views(entries@).filter(other_than(target@)),
        forall|k: int| 0 <= k < kept.len() ==> entries@.contains(#[trigger] kept[k]),
{
    let mut kept: Vec<String> = Vec::new();
    proof {
        reveal(Seq::filter);
    }
    for entry in it: entries.into_iter()
        invariant
            it.seq() == entries@,
            views(kept@) == views(entries@.take(it.index() as int)).filter(
                other_than(target@),
            ),
            forall|k: int| 0 <= k < kept.len() ==> entries@.contains(#[trigger] kept[k]),
    {
        proof {
            reveal(Seq::filter);
            let seen = views(entries@.take(it.index() + 1));
            assert(seen.drop_last() =~= views(entries@.take(it.index() as int)));
        }
        if entry != *target {
            kept.push(entry);
        }
    }
    proof {
        assert(entries@.take(entries@.len() as int) =~= entries@);
    }
    kept
}

/// Removes every entry equal to the employee of `res`, whatever its case,
/// from the department of `res`; nothing changes where that department
/// does not exist.
pub fn remove_employee(res: &ParsedRes, db: &mut Directory)
    ensures
        final(db)@ == remove_entry(old(db)@, res.department@, lowercase(res.name@)),
        all_normalized(final(db)@),
{
    proof {
        use_type_invariant(&*db);
    }
    let mut departments: Vec<Department> = Vec::new();
    std::mem::swap(&mut departments, &mut db.departments);
    let ghost before = departments@;
    match position(&departments, &res.department) {
        Some(i) => {
            let target = encode_name(&res.name);
            let mut entries: Vec<String> = Vec::new();
            std::mem::swap(&mut entries, &mut departments[i].employees);
            departments[i].employees = entries_without(entries, &target);
            proof {
                let changed = departments[i as int];
                assert(departments@ =~= before.update(i as int, changed));
                lemma_department_at(before, i as int);
                lemma_map_update(before, i as int, changed);
            }
        },
        None => {},
    }
    std::mem::swap(&mut departments, &mut db.departments);
    proof {
        use_type_invariant(&*db);
        db.lemma_normalized();
    }
}

/// Empties the department of `res` and keeps its key; nothing changes
/// where that department does not exist.
pub fn reset_department(res: &ParsedRes, db: &mut Directory)
    ensures
        final(db)@ == clear_department(old(db)@, res.department@),
        all_normalized(final(db)@),
{
    proof {
        use_type_invariant(&*db);
    }
    let mut departments: Vec<Department> = Vec::new();
    std::mem::swap(&mut departments, &mut db.departments);
    let ghost before = departments@;
    match position(&departments, &res.department) {
        Some(i) => {
            departments[i].employees.clear();
            proof {
                let changed = departments[i as int];
                assert(views(changed.employees@) =~= Seq::<Seq<char>>::empty());
                lemma_department_at(before, i as int);
                lemma_map_update(before, i as int, changed);
            }
        },
        None => {},
    }
    std::mem::swap(&mut departments, &mut db.departments);
    proof {
        use_type_invariant(&*db);
        db.lemma_normalized();
    }
}

/// Applies the instruction `res` to `db`. This never fails: what refers to
/// a department that does not exist either creates it (`Add`) or changes
/// nothing.
pub fn apply(res: &ParsedRes, db: &mut Directory)
    ensures
        final(db)@ == apply_instruction(old(db)@, res@),
        all_normalized(final(db)@),
{
    match res.function {
        Function::Add => add_employee(res, db),
        Function::Delete => remove_employee(res, db),
        Function::Reset => reset_department(res, db),
    }
}

/// Parses `stmt` and applies it to `db`. A command that does not parse
/// leaves `db` as it was and comes back as the parser's error.
pub fn update_employee_record(stmt: &String, db: &mut Directory) -> (outcome: Result<
    (),
    ParseError,
>)
    ensures
        outcome is Ok <==> is_valid_command(stmt@),
        match parse_command(stmt@) {
            Ok(instruction) => outcome is Ok && final(db)@ == apply_instruction(
                old(db)@,
                instruction,
            ),
            Err(error) => outcome is Err && outcome->Err_0@ == error && final(db)@ == old(db)@,
        },
        all_normalized(final(db)@),
{
    proof {
        use_type_invariant(&*db);
        db.lemma_normalized();
    }
    match parse_statement(stmt) {
        Ok(value) => {
            apply(&value, db);
            Ok(())
        },
        Err(error) => Err(error),
    }
}

/// The number of entries in the listed departments.
spec fn entries_sum(departments: Seq<Department>) -> nat
    decreases departments.len(),
{
    if departments.len() == 0 {
        0
    } else {
        entries_sum(departments.drop_last()) + departments.last().employees@.len()
    }
}

/// With distinct names, the mapping holds as many entries as the
/// departments together.
proof fn lemma_sum_is_total(departments: Seq<Department>)
    requires
        distinct_names(departments),
    ensures
        total_entries(departments_map(departments)) == entries_sum(departments),
    decreases departments.len(),
{
    if departments.len() > 0 {
        let rest = departments.drop_last();
        let last = departments.last();
        lemma_sum_is_total(rest);
        assert(rest.push(last) =~= departments);
        lemma_map_push(rest, last);
        lemma_map_finite(rest);
        lemma_total_insert(departments_map(rest), last.name@, views(last.employees@));
    }
}

/// The first `i` departments hold no more entries than all of them.
proof fn lemma_sum_prefix(departments: Seq<Department>, i: int)
    requires
        0 <= i <= departments.len(),
    ensures
        entries_sum(departments.take(i)) <= entries_sum(departments),
    decreases departments.len() - i,
{
    if i < departments.len() {
        lemma_sum_prefix(departments, i + 1);
        assert(departments.take(i + 1).drop_last() =~= departments.take(i));
    } else {
        assert(departments.take(i) =~= departments);
    }
}

/// With distinct names, the mapping holds `entry` exactly where one of
/// the departments does.
proof fn lemma_has_entry(departments: Seq<Department>, entry: Seq<char>)
    requires
        distinct_names(departments),
    ensures
        has_entry(departments_map(departments), entry) <==> exists|i: int|
            0 <= i < departments.len() && #[trigger] views(
                departments[i].employees@,
            ).contains(entry),
{
    let m = departments_map(departments);
    if has_entry(m, entry) {
        let name = choose|name: Seq<char>| m.dom().contains(name) && #[trigger] m[name].contains(
            entry,
        );
        let i = place_of(departments, name);
        lemma_department_at(departments, i);
    }
    if exists|i: int|
        0 <= i < departments.len() && #[trigger] views(departments[i].employees@).contains(
            entry,
        ) {
        let i = choose|i: int|
            0 <= i < departments.len() && #[trigger] views(
                departments[i].employees@,
            ).contains(entry);
        lemma_department_at(departments, i);
    }
}

/// Whether `entry` is among `entries`.
fn holds_entry(entries: &Vec<String>, entry: &String) -> (found: bool)
    ensures
        found == views(entries@).contains(entry@),
{
    let mut k: usize = 0;
    while k < entries.len()
        invariant
            k <= entries.len(),
            forall|j: int| 0 <= j < k ==> views(entries@)[j] != entry@,
        decreases entries.len() - k,
    {
        if entries[k] == *entry {
            assert(views(entries@)[k as int] == entry@);
            return true;
        }
        k = k + 1;
    }
    false
}

/// A copy of `names`.
fn copy_names(names: &Vec<String>) -> (copy: Vec<String>)
    ensures
        copy@ == names@,
{
    let mut copy: Vec<String> = Vec::new();
    let mut k: usize = 0;
    while k < names.len()
        invariant
            k <= names.len(),
            copy@ == names@.take(k as int),
        decreases names.len() - k,
    {
        copy.push(names[k].clone());
        k = k + 1;
    }
    copy
}

/// `items` lists the mapping `m`: each department once, with its entries.
pub open spec fn lists(items: Seq<(String, Vec<String>)>, m: DirectoryMap) -> bool {
    &&& forall|i: int|
        0 <= i < items.len() ==> m.dom().contains(#[trigger] items[i].0@) && m[items[i].0@]
            == views(items[i].1@)
    &&& forall|i: int, j: int| 0 <= i < j < items.len() ==> items[i].0@ != items[j].0@
    &&& forall|name: Seq<char>|
        m.dom().contains(name) ==> exists|i: int|
            0 <= i < items.len() && #[trigger] items[i].0@ == name
}

/// An employee directory that is changed by textual commands.
pub struct EmployeeDBMap {
    map: Directory,
}

impl View for EmployeeDBMap {
    type V = DirectoryMap;

    closed spec fn view(&self) -> DirectoryMap {
        self.map@
    }
}

impl EmployeeDBMap {
    /// A directory has finitely many departments.
    pub proof fn lemma_finite(&self)
        ensures
            self@.dom().finite(),
    {
        self.map.lemma_finite();
    }

    /// An empty directory.
    pub fn new() -> (db: Self)
        ensures
            db@ == Map::<Seq<char>, Seq<Seq<char>>>::empty(),
    {
        Self { map: Directory::new() }
    }

    /// Parses `stmt` and applies it. A command that does not parse leaves
    /// the directory as it was and comes back as the parser's error.
    pub fn perform_query(&mut self, stmt: String) -> (outcome: Result<(), ParseError>)
        ensures
            outcome is Ok <==> is_valid_command(stmt@),
            match parse_command(stmt@) {
                Ok(instruction) => outcome is Ok && final(self)@ == apply_instruction(
                    old(self)@,
                    instruction,
                ),
                Err(error) => outcome is Err && outcome->Err_0@ == error && final(self)@ == old(
                    self,
                )@,
            },
            all_normalized(final(self)@),
    {
        update_employee_record(&stmt, &mut self.map)
    }

    /// Whether some department holds `name`, whatever its case.
    pub fn is_employee(&self, name: &String) -> (found: bool)
        ensures
            found == has_entry(self@, lowercase(name@)),
    {
        let entry = encode_name(name);
        let mut i: usize = 0;
        while i < self.map.departments.len()
            invariant
                i <= self.map.departments.len(),
                entry@ == lowercase(name@),
                forall|j: int|
                    0 <= j < i ==> !(#[trigger] views(
                        self.map.departments[j].employees@,
                    )).contains(entry@),
            decreases self.map.departments.len() - i,
        {
            if holds_entry(&self.map.departments[i].employees, &entry) {
                proof {
                    use_type_invariant(&self.map);
                    lemma_has_entry(self.map.departments@, entry@);
                }
                return true;
            }
            i = i + 1;
        }
        proof {
            use_type_invariant(&self.map);
            lemma_has_entry(self.map.departments@, entry@);
        }
        false
    }

    /// The number of entries over all departments.
    pub fn total_employees(&self) -> (total: usize)
        requires
            total_entries(self@) <= usize::MAX,
        ensures
            total == total_entries(self@),
    {
        proof {
            use_type_invariant(&self.map);
            lemma_sum_is_total(self.map.departments@);
        }
        let mut total: usize = 0;
        let mut i: usize = 0;
        while i < self.map.departments.len()
            invariant
                i <= self.map.departments.len(),
                total == entries_sum(self.map.departments@.take(i as int)),
                entries_sum(self.map.departments@) <= usize::MAX,
            decreases self.map.departments.len() - i,
        {
            proof {
                lemma_sum_prefix(self.map.departments@, i + 1);
                assert(self.map.departments@.take(i + 1).drop_last()
                    =~= self.map.departments@.take(i as int));
            }
            total = total + self.map.departments[i].employees.len();
            i = i + 1;
        }
        proof {
            assert(self.map.departments@.take(i as int) =~= self.map.departments@);
        }
        total
    }

    /// Every department with its entries, for inspection: each department
    /// once, in no particular order, its entries in insertion order.
    pub fn list_all(&self) -> (items: Vec<(String, Vec<String>)>)
        ensures
            lists(items@, self@),
            all_normalized(self@),
    {
        proof {
            use_type_invariant(&self.map);
            self.map.lemma_normalized();
        }
        let mut items: Vec<(String, Vec<String>)> = Vec::new();
        let mut i: usize = 0;
        while i < self.map.departments.len()
            invariant
                i <= self.map.departments.len(),
                items.len() == i,
                forall|j: int|
                    0 <= j < i ==> (#[trigger] items[j]).0@ == self.map.departments[j].name@
                        && items[j].1@ == self.map.departments[j].employees@,
            decreases self.map.departments.len() - i,
        {
            let department = &self.map.departments[i];
            items.push((department.name.clone(), copy_names(&department.employees)));
            i = i + 1;
        }
        proof {
            let departments = self.map.departments@;
            assert forall|name: Seq<char>| self@.dom().contains(name) implies exists|j: int|
                0 <= j < items.len() && #[trigger] items[j].0@ == name by {
                let j = place_of(departments, name);
                assert(items[j].0@ == name);
            }
        }
        items
    }
}

} // verus!
