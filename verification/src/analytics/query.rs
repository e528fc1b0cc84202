//! Queries: a filter condition, a column to group by, and an aggregation.
use vstd::prelude::*;
use crate::analytics::dataset::{column_position, ValueView, Value};

verus! {

/// A condition on a row.
pub enum Condition {
    /// The value in the named column equals the given value.
    Equal(String, Value),
    Not(Box<Condition>),
    And(Box<Condition>, Box<Condition>),
    Or(Box<Condition>, Box<Condition>),
}

/// Whether `row` satisfies `cond`, columns being looked up by name in `names`.
pub open spec fn holds(names: Seq<Seq<char>>, row: Seq<ValueView>, cond: Condition) -> bool
    decreases cond,
{
    match cond {
        Condition::Equal(name, value) => row[column_position(names, name@)] == value@,
        Condition::Not(inner) => !holds(names, row, *inner),
        Condition::And(left, right) => holds(names, row, *left) && holds(names, row, *right),
        Condition::Or(left, right) => holds(names, row, *left) || holds(names, row, *right),
    }
}

/// Whether checking `cond` on `row` only looks up columns that exist: the right side
/// of `And` is checked only when the left holds, that of `Or` only when it does not.
pub open spec fn evaluable(names: Seq<Seq<char>>, row: Seq<ValueView>, cond: Condition) -> bool
    decreases cond,
{
    match cond {
        Condition::Equal(name, value) => 0 <= column_position(names, name@) < row.len(),
        Condition::Not(inner) => evaluable(names, row, *inner),
        Condition::And(left, right) => evaluable(names, row, *left) && (holds(names, row, *left)
            ==> evaluable(names, row, *right)),
        Condition::Or(left, right) => evaluable(names, row, *left) && (!holds(names, row, *left)
            ==> evaluable(names, row, *right)),
    }
}

/// How each group is reduced to one integer.
pub enum Aggregation {
    /// The number of rows (the column is not read).
    Count(String),
    /// The sum of the integers in the column.
    Sum(String),
    /// The sum of the integers in the column divided by the number of rows, rounded toward zero.
    Average(String),
}

/// The name of the column that holds the aggregated values.
pub open spec fn result_column_name(a: Aggregation) -> Seq<char> {
    match a {
        Aggregation::Count(c) => "Count("@ + c@ + ")"@,
        Aggregation::Sum(c) => "Sum("@ + c@ + ")"@,
        Aggregation::Average(c) => "Average("@ + c@ + ")"@,
    }
}

impl Aggregation {
    /// The name of the column that holds the aggregated values, such as `Count(age)`.
    pub fn get_result_column_name(&self) -> (name: String)
        ensures
            name@ == result_column_name(*self),
    {
        let (prefix, column) = match self {
            Aggregation::Count(c) => ("Count(", c),
            Aggregation::Sum(c) => ("Sum(", c),
            Aggregation::Average(c) => ("Average(", c),
        };
        let mut name = String::from_str(prefix);
        name.append(column.as_str());
        name.append(")");
        name
    }
}

/// A query: keep the rows that satisfy `filter`, group them by the value in column
/// `group_by`, and reduce every group by `aggregate`.
pub struct Query {
    filter: Condition,
    group_by: String,
    aggregate: Aggregation,
}

impl Query {
    /// The query with the given parts.
    pub fn new(filter: Condition, group_by: String, aggregate: Aggregation) -> (q: Query)
        ensures
            q.spec_filter() == filter,
            q.spec_group_by() == group_by@,
            q.spec_aggregate() == aggregate,
    {
        Query { filter, group_by, aggregate }
    }

    /// The filter.
    pub closed spec fn spec_filter(&self) -> Condition {
        self.filter
    }

    /// The grouping column.
    pub closed spec fn spec_group_by(&self) -> Seq<char> {
        self.group_by@
    }

    /// The aggregation.
    pub closed spec fn spec_aggregate(&self) -> Aggregation {
        self.aggregate
    }

    /// The filter.
    pub fn get_filter(&self) -> (f: &Condition)
        ensures
            *f == self.spec_filter(),
    {
        &self.filter
    }

    /// The grouping column.
    pub fn get_group_by(&self) -> (g: &String)
        ensures
            g@ == self.spec_group_by(),
    {
        &self.group_by
    }

    /// The aggregation.
    pub fn get_aggregate(&self) -> (a: &Aggregation)
        ensures
            *a == self.spec_aggregate(),
    {
        &self.aggregate
    }
}

} // verus!
