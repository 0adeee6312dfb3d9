//! The tokens of the query language.

use vstd::prelude::*;

verus! {

/// One token of a query.
#[derive(Debug, Clone, PartialEq)]
pub enum Token {
    SELECT,
    FROM,
    INSERT,
    INTO,
    CREATE,
    TABLE,
    WHERE,
    AND,
    INTEGER,
    TEXT,
    /// The end of a statement: `;`.
    EOF,
    /// Any other word, as written.
    Phrase(String),
}

/// An arithmetic operator between two terms.
#[derive(Debug, Clone, PartialEq)]
pub enum ArithmeticOperator {
    Add,
    Sub,
    Mul,
    Div,
}

} // verus!
