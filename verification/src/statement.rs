use vstd::prelude::*;
use vstd::string::*;
use crate::database::{row_fields, Row};
use crate::text::{has_prefix, starts_with};

verus! {

/// What a statement asks for.
#[derive(Debug, PartialEq, Eq, Structural)]
pub enum StatementType {
    Select,
    Insert,
    Unrecognized,
}

/// A statement with its kind and, for an insert, the row to insert.
pub struct Statement {
    pub statement_type: StatementType,
    pub statement_str: String,
    pub row: Option<Row>,
}

/// The kind of the statement `s`, which its first letters decide.
pub open spec fn statement_kind(s: Seq<char>) -> StatementType {
    if has_prefix(s, "select"@) {
        StatementType::Select
    } else if has_prefix(s, "insert"@) {
        StatementType::Insert
    } else {
        StatementType::Unrecognized
    }
}

impl StatementType {
    /// The kind of `statement`.
    pub fn get_statement_type(statement: &String) -> (kind: StatementType)
        ensures
            kind == statement_kind(statement@),
    {
        if starts_with(statement.as_str(), "select") {
            return StatementType::Select;
        } else if starts_with(statement.as_str(), "insert") {
            return StatementType::Insert;
        }
        StatementType::Unrecognized
    }
}

/// Whether `statement_str` can be prepared: an insert has to describe a row.
pub fn can_prepare(statement_str: &String) -> (r: bool)
    ensures
        r == (statement_kind(statement_str@) == StatementType::Insert ==> row_fields(
            statement_str@,
        ) is Some),
{
    match StatementType::get_statement_type(statement_str) {
        StatementType::Insert => Row::parse(statement_str).is_some(),
        _ => true,
    }
}

/// Classifies the statement and, for an insert, reads the row from it.
pub fn prepare_statement(statement_str: String) -> (statement: Statement)
    requires
        statement_kind(statement_str@) == StatementType::Insert ==> row_fields(statement_str@)
            is Some,
    ensures
        statement.statement_type == statement_kind(statement_str@),
        statement.statement_str == statement_str,
        match statement.row {
            Some(row) => statement.statement_type == StatementType::Insert && row_fields(
                statement_str@,
            ) == Some(row@),
            None => statement.statement_type != StatementType::Insert,
        },
{
    let statement_type = StatementType::get_statement_type(&statement_str);
    let row = match statement_type {
        StatementType::Insert => Some(Row::new(&statement_str)),
        _ => None,
    };

    Statement { statement_type, statement_str, row }
}

} // verus!
