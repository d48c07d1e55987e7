use employee_directory::{EmployeeDBMap, ParseError};

fn listing(db: &EmployeeDBMap) -> Vec<(String, Vec<String>)> {
    let mut items = db.list_all();
    items.sort();
    items
}

fn entry(department: &str, names: &[&str]) -> (String, Vec<String>) {
    (department.to_string(), names.iter().map(|n| n.to_string()).collect())
}

#[test]
fn test_add() {
    let mut db = EmployeeDBMap::new();
    let _ = db.perform_query(String::from("Add Jason to Accounts"));
    assert_eq!(db.total_employees(), 1);
    assert_eq!(db.is_employee(&String::from("Jason")), true)
}

#[test]
fn test_remove() {
    let mut db = EmployeeDBMap::new();
    let _ = db.perform_query(String::from("Add Jason to Accounts"));
    let _ = db.perform_query(String::from("Delete Marry from Finance"));
    assert_eq!(db.total_employees(), 1);
    let _ = db.perform_query(String::from("Delete Jason from Accounts"));
}

#[test]
fn test_reset() {
    let mut db = EmployeeDBMap::new();
    let _ = db.perform_query(String::from("Add Jason to Accounts"));
    let _ = db.perform_query(String::from("Reset department of Accounts"));
    assert_eq!(db.total_employees(), 0);
}

#[test]
fn new_directory_is_empty() {
    let db = EmployeeDBMap::new();
    assert_eq!(db.total_employees(), 0);
    assert!(db.list_all().is_empty());
    assert!(!db.is_employee(&String::from("Jason")));
}

#[test]
fn add_makes_an_employee() {
    let mut db = EmployeeDBMap::new();
    assert_eq!(db.perform_query(String::from("Add Jason to Accounts")), Ok(()));
    assert_eq!(db.total_employees(), 1);
    assert!(db.is_employee(&String::from("Jason")));
    assert_eq!(listing(&db), vec![entry("Accounts", &["jason"])]);
}

#[test]
fn delete_from_absent_department_changes_nothing() {
    let mut db = EmployeeDBMap::new();
    assert_eq!(db.perform_query(String::from("Add Jason to Accounts")), Ok(()));
    assert_eq!(db.perform_query(String::from("Delete Marry from Finance")), Ok(()));
    assert_eq!(db.total_employees(), 1);
    assert_eq!(listing(&db), vec![entry("Accounts", &["jason"])]);
    assert_eq!(db.perform_query(String::from("Delete Jason from Accounts")), Ok(()));
    assert_eq!(db.total_employees(), 0);
    assert!(!db.is_employee(&String::from("Jason")));
    assert_eq!(listing(&db), vec![entry("Accounts", &[])]);
}

#[test]
fn reset_keeps_the_department() {
    let mut db = EmployeeDBMap::new();
    assert_eq!(db.perform_query(String::from("Add Jason to Accounts")), Ok(()));
    assert_eq!(db.perform_query(String::from("Reset department of Accounts")), Ok(()));
    assert_eq!(db.total_employees(), 0);
    assert_eq!(listing(&db), vec![entry("Accounts", &[])]);
}

#[test]
fn three_tokens_are_rejected() {
    let mut db = EmployeeDBMap::new();
    assert_eq!(
        db.perform_query(String::from("Add Jason Accounts")),
        Err(ParseError::InvalidStatement)
    );
    assert_eq!(db.total_employees(), 0);
    assert!(db.list_all().is_empty());
}

#[test]
fn rejected_statement_leaves_entries_alone() {
    let mut db = EmployeeDBMap::new();
    assert_eq!(db.perform_query(String::from("Add Jason to Accounts")), Ok(()));
    let before = listing(&db);
    assert_eq!(
        db.perform_query(String::from("Add Jason Accounts")),
        Err(ParseError::InvalidStatement)
    );
    assert_eq!(
        db.perform_query(String::from("Delete Jason from Accounts now")),
        Err(ParseError::InvalidStatement)
    );
    assert_eq!(db.perform_query(String::new()), Err(ParseError::InvalidStatement));
    assert_eq!(listing(&db), before);
    assert_eq!(db.total_employees(), 1);
}

#[test]
fn unknown_operation_is_rejected() {
    let mut db = EmployeeDBMap::new();
    assert_eq!(
        db.perform_query(String::from("Promote Jason to Accounts")),
        Err(ParseError::UnknownOperation(String::from("Promote")))
    );
    assert_eq!(db.total_employees(), 0);
    assert!(db.list_all().is_empty());
}

#[test]
fn unknown_operation_leaves_entries_alone() {
    let mut db = EmployeeDBMap::new();
    assert_eq!(db.perform_query(String::from("Add Jason to Accounts")), Ok(()));
    let before = listing(&db);
    assert_eq!(
        db.perform_query(String::from("Promote Jason to Accounts")),
        Err(ParseError::UnknownOperation(String::from("Promote")))
    );
    assert_eq!(listing(&db), before);
    assert!(db.is_employee(&String::from("Jason")));
}

#[test]
fn a_valid_command_never_fails() {
    let mut db = EmployeeDBMap::new();
    let commands = [
        "Add Jason to Accounts",
        "add jason to Accounts",
        "ADD JASON TO ACCOUNTS",
        "Delete Jason from Nowhere",
        "Remove Jason from Accounts",
        "Reset department of Nowhere",
        "reset x y Accounts",
        "  Add\tMarry   to\nFinance  ",
    ];
    for command in commands {
        assert_eq!(db.perform_query(String::from(command)), Ok(()));
    }
}

#[test]
fn reset_twice_is_reset_once() {
    let mut once = EmployeeDBMap::new();
    let mut twice = EmployeeDBMap::new();
    for db in [&mut once, &mut twice] {
        assert_eq!(db.perform_query(String::from("Add Jason to Accounts")), Ok(()));
        assert_eq!(db.perform_query(String::from("Add Marry to Accounts")), Ok(()));
        assert_eq!(db.perform_query(String::from("Add Tom to Finance")), Ok(()));
        assert_eq!(db.perform_query(String::from("Reset department of Accounts")), Ok(()));
    }
    assert_eq!(twice.perform_query(String::from("Reset department of Accounts")), Ok(()));
    assert_eq!(listing(&once), listing(&twice));
    assert_eq!(listing(&twice), vec![entry("Accounts", &[]), entry("Finance", &["tom"])]);
    assert_eq!(twice.total_employees(), 1);
}

#[test]
fn lookup_ignores_case() {
    let mut db = EmployeeDBMap::new();
    assert_eq!(db.perform_query(String::from("Add Jason to Accounts")), Ok(()));
    assert!(db.is_employee(&String::from("JASON")));
    assert!(db.is_employee(&String::from("jason")));
    assert!(db.is_employee(&String::from("jAsOn")));
    assert!(!db.is_employee(&String::from("Jaso")));
    assert!(!db.is_employee(&String::from("Accounts")));
}

#[test]
fn lookup_ignores_case_beyond_ascii() {
    let mut db = EmployeeDBMap::new();
    assert_eq!(db.perform_query(String::from("Add ÉMILE to Accounts")), Ok(()));
    assert!(db.is_employee(&String::from("émile")));
    assert!(db.is_employee(&String::from("Émile")));
    assert_eq!(listing(&db), vec![entry("Accounts", &["émile"])]);
}

#[test]
fn duplicates_are_kept() {
    let mut db = EmployeeDBMap::new();
    assert_eq!(db.perform_query(String::from("Add jason to Accounts")), Ok(()));
    assert_eq!(db.perform_query(String::from("Add Jason to Accounts")), Ok(()));
    assert_eq!(db.total_employees(), 2);
    assert_eq!(listing(&db), vec![entry("Accounts", &["jason", "jason"])]);
}

#[test]
fn delete_removes_every_copy() {
    let mut db = EmployeeDBMap::new();
    assert_eq!(db.perform_query(String::from("Add Jason to Accounts")), Ok(()));
    assert_eq!(db.perform_query(String::from("Add Jason to Accounts")), Ok(()));
    assert_eq!(db.total_employees(), 2);
    assert_eq!(db.perform_query(String::from("Delete Jason from Accounts")), Ok(()));
    assert_eq!(db.total_employees(), 0);
    assert_eq!(listing(&db), vec![entry("Accounts", &[])]);
}

#[test]
fn delete_ignores_case_and_keeps_the_others_in_order() {
    let mut db = EmployeeDBMap::new();
    for command in [
        "Add Jason to Accounts",
        "Add Marry to Accounts",
        "Add JASON to Accounts",
        "Add Tom to Accounts",
        "Add Jason to Finance",
    ] {
        assert_eq!(db.perform_query(String::from(command)), Ok(()));
    }
    assert_eq!(db.total_employees(), 5);
    assert_eq!(db.perform_query(String::from("Remove jASON from Accounts")), Ok(()));
    assert_eq!(
        listing(&db),
        vec![entry("Accounts", &["marry", "tom"]), entry("Finance", &["jason"])]
    );
    assert_eq!(db.total_employees(), 3);
    assert!(db.is_employee(&String::from("Jason")));
}

#[test]
fn reset_of_unknown_department_changes_nothing() {
    let mut db = EmployeeDBMap::new();
    assert_eq!(db.perform_query(String::from("Add Jason to Accounts")), Ok(()));
    let before = listing(&db);
    assert_eq!(db.perform_query(String::from("Reset department of Finance")), Ok(()));
    assert_eq!(db.total_employees(), 1);
    assert_eq!(listing(&db), before);
    assert_eq!(db.perform_query(String::from("Add Marry to Finance")), Ok(()));
    assert_eq!(
        listing(&db),
        vec![entry("Accounts", &["jason"]), entry("Finance", &["marry"])]
    );
}

#[test]
fn reset_on_empty_directory_creates_nothing() {
    let mut db = EmployeeDBMap::new();
    assert_eq!(db.perform_query(String::from("Reset department of Accounts")), Ok(()));
    assert_eq!(db.perform_query(String::from("Delete Jason from Accounts")), Ok(()));
    assert!(db.list_all().is_empty());
    assert_eq!(db.total_employees(), 0);
}

#[test]
fn department_names_are_case_sensitive() {
    let mut db = EmployeeDBMap::new();
    assert_eq!(db.perform_query(String::from("Add Jason to Accounts")), Ok(()));
    assert_eq!(db.perform_query(String::from("Add Jason to accounts")), Ok(()));
    assert_eq!(
        listing(&db),
        vec![entry("Accounts", &["jason"]), entry("accounts", &["jason"])]
    );
    assert_eq!(db.perform_query(String::from("Reset department of ACCOUNTS")), Ok(()));
    assert_eq!(db.total_employees(), 2);
    assert_eq!(db.perform_query(String::from("Reset department of accounts")), Ok(()));
    assert_eq!(
        listing(&db),
        vec![entry("Accounts", &["jason"]), entry("accounts", &[])]
    );
}

#[test]
fn total_counts_every_department() {
    let mut db = EmployeeDBMap::new();
    for command in [
        "Add Jason to Accounts",
        "Add Marry to Accounts",
        "Add Tom to Finance",
        "Add Ann to Sales",
        "Add Bob to Sales",
        "Add Cid to Sales",
    ] {
        assert_eq!(db.perform_query(String::from(command)), Ok(()));
    }
    assert_eq!(db.total_employees(), 6);
    assert_eq!(db.perform_query(String::from("Reset department of Sales")), Ok(()));
    assert_eq!(db.total_employees(), 3);
    assert_eq!(db.perform_query(String::from("Delete Tom from Finance")), Ok(()));
    assert_eq!(db.total_employees(), 2);
}

#[test]
fn listing_names_each_department_once() {
    let mut db = EmployeeDBMap::new();
    for command in [
        "Add Jason to Accounts",
        "Add Tom to Finance",
        "Add Marry to Accounts",
        "Reset department of Finance",
        "Add Ann to Finance",
    ] {
        assert_eq!(db.perform_query(String::from(command)), Ok(()));
    }
    assert_eq!(
        listing(&db),
        vec![entry("Accounts", &["jason", "marry"]), entry("Finance", &["ann"])]
    );
}

#[test]
fn stored_entries_are_lower_case() {
    let mut db = EmployeeDBMap::new();
    for command in ["Add JASON to Accounts", "Add MaRRy to Finance", "Add ÀÉÎ to Finance"] {
        assert_eq!(db.perform_query(String::from(command)), Ok(()));
    }
    for (_, names) in db.list_all() {
        for name in names {
            assert_eq!(name, name.to_lowercase());
        }
    }
}

#[test]
fn the_third_token_is_not_checked() {
    let mut db = EmployeeDBMap::new();
    assert_eq!(db.perform_query(String::from("Add Jason xyz Accounts")), Ok(()));
    assert_eq!(db.perform_query(String::from("Add Marry from Accounts")), Ok(()));
    assert_eq!(listing(&db), vec![entry("Accounts", &["jason", "marry"])]);
    assert_eq!(db.perform_query(String::from("Reset Jason Jason Accounts")), Ok(()));
    assert_eq!(listing(&db), vec![entry("Accounts", &[])]);
}
