//! An in-memory employee directory, keyed by department and driven by short
//! textual commands such as `Add Jason to Accounts`.
//!
//! A command is split at whitespace into four tokens, the first of which
//! names the operation; the directory then adds, deletes or resets. Names
//! are stored and compared in lower case, departments exactly as written.

pub mod command;
pub mod directory;
pub mod laws;
pub mod model;
pub mod text;

pub use command::{parse_function, parse_statement, Function, ParseError, ParsedRes};
pub use directory::{
    add_employee, apply, encode_name, has_department, remove_employee, reset_department,
    update_employee_record, Directory, EmployeeDBMap,
};
