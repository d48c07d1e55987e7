//! The command grammar: `OPERATION NAME PREPOSITION DEPARTMENT`.

use vstd::prelude::*;
use crate::text::{split_tokens, str_to_uppercase, tokenize, uppercase};

verus! {

/// What a command asks the directory to do.
#[derive(Clone, Copy, Debug, PartialEq, Eq)]
pub enum Function {
    Add,
    Delete,
    Reset,
}

/// A parsed command: the operation, the employee's name as written, and
/// the department's name as written.
#[derive(Clone, Debug, PartialEq, Eq)]
pub struct ParsedRes {
    pub function: Function,
    pub name: String,
    pub department: String,
}

/// The mathematical content of a `ParsedRes`.
pub struct Instruction {
    pub function: Function,
    pub name: Seq<char>,
    pub department: Seq<char>,
}

impl View for ParsedRes {
    type V = Instruction;

    open spec fn view(&self) -> Instruction {
        Instruction { function: self.function, name: self.name@, department: self.department@ }
    }
}

/// Why a command was not understood.
#[derive(Clone, Debug, PartialEq, Eq)]
pub enum ParseError {
    /// The command does not consist of exactly four tokens.
    InvalidStatement,
    /// The first token, carried here, names no operation.
    UnknownOperation(String),
}

/// The mathematical content of a `ParseError`.
pub enum ParseErrorView {
    InvalidStatement,
    UnknownOperation(Seq<char>),
}

impl View for ParseError {
    type V = ParseErrorView;

    open spec fn view(&self) -> ParseErrorView {
        match self {
            ParseError::InvalidStatement => ParseErrorView::InvalidStatement,
            ParseError::UnknownOperation(token) => ParseErrorView::UnknownOperation(token@),
        }
    }
}

impl ParseErrorView {
    /// The diagnostic text of the error.
    pub open spec fn message(self) -> Seq<char> {
        match self {
            ParseErrorView::InvalidStatement => "invalid statement"@,
            ParseErrorView::UnknownOperation(token) => "invalid operation: "@ + token,
        }
    }
}

impl ParseError {
    /// A diagnostic text for the error; for an unknown operation it ends
    /// with the offending token.
    pub fn message(&self) -> (text: String)
        ensures
            text@ == self@.message(),
    {
        match self {
            ParseError::InvalidStatement => "invalid statement".to_owned(),
            ParseError::UnknownOperation(token) => {
                let mut text = "invalid operation: ".to_owned();
                text.append(token.as_str());
                text
            },
        }
    }
}

/// The operation that an upper-cased keyword names, if any.
pub open spec fn keyword_function(upper: Seq<char>) -> Option<Function> {
    if upper == "ADD"@ {
        Some(Function::Add)
    } else if upper == "REMOVE"@ || upper == "DELETE"@ {
        Some(Function::Delete)
    } else if upper == "RESET"@ {
        Some(Function::Reset)
    } else {
        None
    }
}

/// The outcome of parsing the command text `raw`.
pub open spec fn parse_command(raw: Seq<char>) -> Result<Instruction, ParseErrorView> {
    let tokens = split_tokens(raw);
    if tokens.len() != 4 {
        Err(ParseErrorView::InvalidStatement)
    } else {
        match keyword_function(uppercase(tokens[0])) {
            Some(function) => Ok(
                Instruction { function, name: tokens[1], department: tokens[3] },
            ),
            None => Err(ParseErrorView::UnknownOperation(tokens[0])),
        }
    }
}

/// A command is valid when it has four tokens and the first one, in upper
/// case, is an operation keyword.
pub open spec fn is_valid_command(raw: Seq<char>) -> bool {
    let tokens = split_tokens(raw);
    tokens.len() == 4 && keyword_function(uppercase(tokens[0])) is Some
}

/// Looks an upper-cased keyword up among the operation keywords.
pub fn function_of_keyword(upper: &String) -> (found: Option<Function>)
    ensures
        found == keyword_function(upper@),
{
    if *upper == "ADD".to_owned() {
        Some(Function::Add)
    } else if *upper == "REMOVE".to_owned() || *upper == "DELETE".to_owned() {
        Some(Function::Delete)
    } else if *upper == "RESET".to_owned() {
        Some(Function::Reset)
    } else {
        None
    }
}

/// Recognizes the operation keyword `f`, whatever its case.
pub fn parse_function(f: &String) -> (parsed: Result<Function, ParseError>)
    ensures
        match keyword_function(uppercase(f@)) {
            Some(function) => parsed == Ok::<Function, ParseError>(function),
            None => parsed is Err && parsed->Err_0@ == ParseErrorView::UnknownOperation(f@),
        },
{
    let t = str_to_uppercase(f.as_str());
    match function_of_keyword(&t) {
        Some(function) => Ok(function),
        None => Err(ParseError::UnknownOperation(f.clone())),
    }
}

/// Parses one command. Succeeds exactly on a text of four tokens whose
/// first, in any case, is an operation keyword; the third token is not
/// looked at.
pub fn parse_statement(stmt: &String) -> (parsed: Result<ParsedRes, ParseError>)
    ensures
        parsed is Ok <==> is_valid_command(stmt@),
        match parse_command(stmt@) {
            Ok(instruction) => parsed is Ok && parsed->Ok_0@ == instruction,
            Err(error) => parsed is Err && parsed->Err_0@ == error,
        },
{
    let parts = tokenize(stmt.as_str());
    if parts.len() != 4 {
        Err(ParseError::InvalidStatement)
    } else {
        match parse_function(&parts[0].to_owned()) {
            Ok(function) => Ok(
                ParsedRes {
                    function,
                    name: parts[1].to_owned(),
                    department: parts[3].to_owned(),
                },
            ),
            Err(error) => Err(error),
        }
    }
}

} // verus!
