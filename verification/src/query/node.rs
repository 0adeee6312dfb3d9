//! The syntax tree of a query.

#![allow(non_camel_case_types)]
#![allow(non_snake_case)]

use crate::query::token::ArithmeticOperator;
use vstd::prelude::*;

verus! {

/// What every declaration of a command is.
pub trait Command_Declare {

}

/// A `SELECT ... FROM ...` statement with its optional clauses.
#[derive(Debug)]
pub struct SELECT_FROM_Declare {
    pub text: String,
    pub select_term: SELECT_Declare,
    pub from_term: FROM_Declare,
    pub join_term: Option<JOIN_Declare>,
    pub where_term: Option<WHERE_Declare>,
    pub order_by: Option<ORDER_BY_Declare>,
    pub group_by: Option<GROUP_BY_Declare>,
}

impl SELECT_FROM_Declare {
    /// A statement without text, columns, tables or clauses.
    pub fn new() -> (s: Self)
        ensures
            s.is_blank(),
    {
        SELECT_FROM_Declare {
            text: String::new(),
            select_term: SELECT_Declare { text: String::new(), contents: Vec::new() },
            from_term: FROM_Declare { text: String::new(), contents: Vec::new() },
            join_term: None,
            where_term: None,
            order_by: None,
            group_by: None,
        }
    }

    /// The statement has no text, no columns, no tables and no clauses.
    pub open spec fn is_blank(self) -> bool {
        &&& self.text@.len() == 0
        &&& self.select_term.text@.len() == 0
        &&& self.select_term.contents@.len() == 0
        &&& self.from_term.text@.len() == 0
        &&& self.from_term.contents@.len() == 0
        &&& self.join_term is None
        &&& self.where_term is None
        &&& self.order_by is None
        &&& self.group_by is None
    }
}

impl Default for SELECT_FROM_Declare {
    fn default() -> (s: Self)
        ensures
            s.is_blank(),
    {
        SELECT_FROM_Declare::new()
    }
}

/// The columns of a `SELECT`.
#[derive(Debug)]
pub struct SELECT_Declare {
    pub text: String,
    pub contents: Vec<Column_Term>,
}

impl Default for SELECT_Declare {
    fn default() -> (s: Self)
        ensures
            s.text@.len() == 0,
            s.contents@.len() == 0,
    {
        SELECT_Declare { text: String::new(), contents: Vec::new() }
    }
}

/// One column of a `SELECT`.
#[derive(Debug)]
pub struct Column_Term {
    pub text: String,
    pub context: Column_Context,
    pub alias: Option<String>,
}

/// What a column is: a named column, a subquery or a computation.
#[derive(Debug)]
pub enum Column_Context {
    Literal { column_name: String, attribute: Option<String> },
    SubQuery(Box<SELECT_FROM_Declare>),
    Computation(ComputationTerm),
}

/// The tables of a `FROM`.
#[derive(Debug)]
pub struct FROM_Declare {
    pub text: String,
    pub contents: Vec<Table_Term>,
}

impl Default for FROM_Declare {
    fn default() -> (s: Self)
        ensures
            s.text@.len() == 0,
            s.contents@.len() == 0,
    {
        FROM_Declare { text: String::new(), contents: Vec::new() }
    }
}

/// One table of a `FROM`.
#[derive(Debug)]
pub struct Table_Term {
    pub text: String,
    pub context: Table_Context,
    pub alias: Option<String>,
}

/// A literal of the query language.
#[derive(Debug)]
pub enum Literal {
    String(String),
    Number(usize),
}

/// One side of a condition or computation: a literal or a nested term.
#[derive(Debug, Clone)]
pub enum OperatorTerm<O> where O: Clone {
    String(String),
    Number(usize),
    Boolean(bool),
    Operator(O),
}

/// What a table is: a named table or a subquery.
#[derive(Debug)]
pub enum Table_Context {
    Literal(String),
    SubQuery(Box<SELECT_FROM_Declare>),
}

/// A `WHERE` clause.
#[derive(Debug)]
pub struct WHERE_Declare {
    pub text: String,
    pub content: Box<ConditionTerm>,
}

/// A `JOIN` clause.
#[derive(Debug)]
pub struct JOIN_Declare {
    pub text: String,
    pub table: String,
}

impl Default for JOIN_Declare {
    fn default() -> (s: Self)
        ensures
            s.text@.len() == 0,
            s.table@.len() == 0,
    {
        JOIN_Declare { text: String::new(), table: String::new() }
    }
}

/// One side of a condition or of a computation: a literal or a nested
/// condition. It is `OperatorTerm` with a condition as its operator.
#[derive(Debug)]
pub enum ConditionOperand {
    String(String),
    Number(usize),
    Boolean(bool),
    Operator(Box<ConditionTerm>),
}

/// A condition: two sides and the operator between them.
#[derive(Debug)]
pub struct ConditionTerm {
    pub text: String,
    pub operator: LogicalOperator,
    pub left_v: ConditionOperand,
    pub right_v: ConditionOperand,
}

/// The operators of conditions.
#[derive(Debug, PartialEq, Clone)]
pub enum LogicalOperator {
    Equal,
    NotEqual,
    GreaterThan,
    LessThan,
    EqualOrGreaterThan,
    EqualOrLessThan,
    AND,
    OR,
    NOT,
}

/// A computation: two sides and the arithmetic operator between them.
#[derive(Debug)]
pub struct ComputationTerm {
    text: String,
    operator: ArithmeticOperator,
    left_v: ConditionOperand,
    right_v: ConditionOperand,
}

/// An `ORDER BY` clause.
#[derive(Debug)]
pub struct ORDER_BY_Declare {

}

impl Default for ORDER_BY_Declare {
    fn default() -> (s: Self) {
        ORDER_BY_Declare {  }
    }
}

/// A `GROUP BY` clause.
#[derive(Debug)]
pub struct GROUP_BY_Declare {

}

impl Default for GROUP_BY_Declare {
    fn default() -> (s: Self) {
        GROUP_BY_Declare {  }
    }
}

/// A `SELECT` statement.
#[derive(Debug)]
pub struct SELECT {
    pub fields: Vec<Field>,
    pub FROM: Option<Vec<String>>,
    pub WHERE: Option<SearchCondition>,
}

/// A `CREATE` statement.
#[derive(Debug)]
pub struct CREATE {
    pub TABLE: Option<(String, Vec<FieldDefinition>)>,
}

/// An `INSERT` statement: the table with its optional fields, and the rows.
pub struct INSERT {
    pub INTO: (String, Option<Vec<String>>),
    pub VALUES: Vec<Vec<String>>,
}

/// A field of a `SELECT`.
#[derive(Debug)]
pub enum Field {
    All,
    Plain { name: String, table_name: Option<String>, AS: Option<String> },
    Calc { expr: Box<Expression>, name: String, table_name: Option<String>, AS: Option<String> },
}

/// A table by name.
pub struct Table {
    pub name: String,
    pub scheme: Option<String>,
    pub AS: Option<String>,
}

/// An arithmetic expression.
#[derive(Debug)]
pub enum Expression {
    Var(String),
    Number(u32),
    Add(Box<Expression>, Box<Expression>),
    Sub(Box<Expression>, Box<Expression>),
    Mul(Box<Expression>, Box<Expression>),
    Div(Box<Expression>, Box<Expression>),
}

/// A search condition.
#[derive(Debug)]
pub enum SearchCondition {
    Equal(Value, Value),
    NotEqual(Value, Value),
    GreaterThan(Value, Value),
    LessThan(Value, Value),
    EqualOrGreaterThan(Value, Value),
    EqualOrLessThan(Value, Value),
    AND(Box<SearchCondition>, Box<SearchCondition>),
    OR(Box<SearchCondition>, Box<SearchCondition>),
    NOT(Box<SearchCondition>),
}

/// A value in a search condition.
#[derive(Clone, Debug, PartialEq)]
pub enum Value {
    String(String),
    Number(isize),
}

/// The definition of a field of a table.
#[derive(Clone, Debug, PartialEq)]
pub struct FieldDefinition {
    pub name: String,
    pub T: Type,
}

/// A constraint on a table.
#[derive(Clone, Debug, PartialEq)]
pub enum Constraint {
    PRIMARY_KEY(Vec<String>),
}

/// The type of a field.
#[derive(Clone, Debug, PartialEq)]
pub enum Type {
    integer,
    text,
}

} // verus!
