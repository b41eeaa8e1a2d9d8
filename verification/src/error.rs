//! The error taxonomy of the engine. Every operation reports failure as
//! a value of `DbError`; verified code never panics on user input.

use vstd::prelude::*;
use vstd::string::*;

verus! {

/// Everything that can go wrong while executing a statement.
#[derive(Debug, Clone, PartialEq, Eq)]
pub enum DbError {
    /// The named table does not exist.
    TableNotFound(String),
    /// A table with the same (case-insensitive) name already exists.
    TableExists(String),
    /// The named column does not exist in the target table.
    ColumnNotFound(String),
    /// A row or column list does not supply one value per column.
    ColumnCountMismatch,
    /// A NULL was supplied for the named NOT NULL or primary column.
    MissingValue(String),
    /// The value does not parse as a 32-bit integer for the named column.
    TypeMismatch(String, String),
    /// The value exceeds the named varchar column's maximum length.
    ValueTooLong(String, u32),
    /// The primary-key value collides with an existing row.
    DuplicateKey(String),
    /// The condition text is malformed: bad token count, unknown
    /// operator, unterminated quote, or an unresolvable column.
    ConditionParseError(String),
    /// A snapshot document does not describe a well-formed database.
    SnapshotFormatError,
}

/// The mathematical reading of an error.
pub ghost enum DbErrorV {
    TableNotFound(Seq<char>),
    TableExists(Seq<char>),
    ColumnNotFound(Seq<char>),
    ColumnCountMismatch,
    MissingValue(Seq<char>),
    TypeMismatch(Seq<char>, Seq<char>),
    ValueTooLong(Seq<char>, u32),
    DuplicateKey(Seq<char>),
    ConditionParseError(Seq<char>),
    SnapshotFormatError,
}

impl View for DbError {
    type V = DbErrorV;

    open spec fn view(&self) -> DbErrorV {
        match self {
            DbError::TableNotFound(n) => DbErrorV::TableNotFound(n@),
            DbError::TableExists(n) => DbErrorV::TableExists(n@),
            DbError::ColumnNotFound(n) => DbErrorV::ColumnNotFound(n@),
            DbError::ColumnCountMismatch => DbErrorV::ColumnCountMismatch,
            DbError::MissingValue(n) => DbErrorV::MissingValue(n@),
            DbError::TypeMismatch(v, n) => DbErrorV::TypeMismatch(v@, n@),
            DbError::ValueTooLong(n, m) => DbErrorV::ValueTooLong(n@, *m),
            DbError::DuplicateKey(v) => DbErrorV::DuplicateKey(v@),
            DbError::ConditionParseError(d) => DbErrorV::ConditionParseError(d@),
            DbError::SnapshotFormatError => DbErrorV::SnapshotFormatError,
        }
    }
}

impl DbError {
    /// A human-readable description, for the embedding application:
    /// never empty.
    pub fn message(&self) -> (r: String)
        ensures
            r@.len() > 0,
    {
        let mut s = String::new();
        match self {
            DbError::TableNotFound(n) => {
                s.append("Table '");
                s.append(n.as_str());
                s.append("' not found");
            },
            DbError::TableExists(n) => {
                s.append("Table '");
                s.append(n.as_str());
                s.append("' exists");
            },
            DbError::ColumnNotFound(n) => {
                s.append("Column '");
                s.append(n.as_str());
                s.append("' not found");
            },
            DbError::ColumnCountMismatch => {
                s.append("Column count mismatch");
            },
            DbError::MissingValue(n) => {
                s.append("Field '");
                s.append(n.as_str());
                s.append("' doesn't have a default value");
            },
            DbError::TypeMismatch(v, n) => {
                s.append("Value '");
                s.append(v.as_str());
                s.append("' is not INT for column '");
                s.append(n.as_str());
                s.append("'");
            },
            DbError::ValueTooLong(n, _m) => {
                s.append("Value too long for column '");
                s.append(n.as_str());
                s.append("'");
            },
            DbError::DuplicateKey(v) => {
                s.append("Duplicate entry '");
                s.append(v.as_str());
                s.append("' for key 'PRIMARY'");
            },
            DbError::ConditionParseError(d) => {
                s.append("Invalid condition: ");
                s.append(d.as_str());
            },
            DbError::SnapshotFormatError => {
                s.append("Malformed snapshot");
            },
        }
        proof {
            reveal_strlit("Table '");
            reveal_strlit("Column '");
            reveal_strlit("Column count mismatch");
            reveal_strlit("Field '");
            reveal_strlit("Value '");
            reveal_strlit("Value too long for column '");
            reveal_strlit("Duplicate entry '");
            reveal_strlit("Invalid condition: ");
            reveal_strlit("Malformed snapshot");
        }
        s
    }
}

} // verus!
