//! Queries over datasets: a filter condition, a grouping column and an aggregation.
use vstd::prelude::*;
use crate::dataset::{SpecValue, Value};
use crate::text::push_char;

verus! {

/// A predicate on rows.
#[derive(Debug)]
pub enum Condition {
    /// The named column holds the given value.
    Equal(String, Value),
    Not(Box<Condition>),
    And(Box<Condition>, Box<Condition>),
    Or(Box<Condition>, Box<Condition>),
}

/// The mathematical model of a [`Condition`].
pub enum SpecCondition {
    Equal(Seq<char>, SpecValue),
    Not(Box<SpecCondition>),
    And(Box<SpecCondition>, Box<SpecCondition>),
    Or(Box<SpecCondition>, Box<SpecCondition>),
}

/// The model of a condition, built node by node.
pub open spec fn condition_view(c: Condition) -> SpecCondition
    decreases c,
{
    match c {
        Condition::Equal(name, v) => SpecCondition::Equal(name@, v@),
        Condition::Not(inner) => SpecCondition::Not(Box::new(condition_view(*inner))),
        Condition::And(l, r) => SpecCondition::And(
            Box::new(condition_view(*l)),
            Box::new(condition_view(*r)),
        ),
        Condition::Or(l, r) => SpecCondition::Or(
            Box::new(condition_view(*l)),
            Box::new(condition_view(*r)),
        ),
    }
}

impl View for Condition {
    type V = SpecCondition;

    open spec fn view(&self) -> SpecCondition {
        condition_view(*self)
    }
}

/// How the rows of one group are summarised into one integer.
#[derive(Debug)]
pub enum Aggregation {
    /// The number of rows (the column is not read).
    Count(String),
    /// The sum of the integers of the column.
    Sum(String),
    /// The integer mean of the integers of the column.
    Average(String),
}

/// The mathematical model of an [`Aggregation`].
pub enum SpecAggregation {
    Count(Seq<char>),
    Sum(Seq<char>),
    Average(Seq<char>),
}

impl View for Aggregation {
    type V = SpecAggregation;

    open spec fn view(&self) -> SpecAggregation {
        match self {
            Aggregation::Count(c) => SpecAggregation::Count(c@),
            Aggregation::Sum(c) => SpecAggregation::Sum(c@),
            Aggregation::Average(c) => SpecAggregation::Average(c@),
        }
    }
}

/// The name of the column that holds the aggregated values: the aggregation's
/// name, then the column's name in parentheses, such as `Sum(price)`.
pub open spec fn result_column_name(a: SpecAggregation) -> Seq<char> {
    match a {
        SpecAggregation::Count(c) => seq!['C', 'o', 'u', 'n', 't', '('] + c + seq![')'],
        SpecAggregation::Sum(c) => seq!['S', 'u', 'm', '('] + c + seq![')'],
        SpecAggregation::Average(c) => seq!['A', 'v', 'e', 'r', 'a', 'g', 'e', '('] + c + seq![')'],
    }
}

/// Appends the characters of `t` to `s`.
fn push_all(s: &mut String, t: &str)
    ensures
        final(s)@ == old(s)@ + t@,
{
    let n = t.unicode_len();
    let mut i: usize = 0;
    while i < n
        invariant
            n == t@.len(),
            i <= n,
            s@ == old(s)@ + t@.subrange(0, i as int),
        decreases n - i,
    {
        let c = t.get_char(i);
        push_char(s, c);
        assert(t@.subrange(0, i + 1) =~= t@.subrange(0, i as int).push(c));
        i = i + 1;
    }
    assert(t@.subrange(0, n as int) =~= t@);
}

impl Aggregation {
    /// The name of the column that holds the aggregated values.
    pub fn get_result_column_name(&self) -> (r: String)
        ensures
            r@ == result_column_name(self@),
    {
        let mut out = String::new();
        match self {
            Aggregation::Count(c) => {
                push_char(&mut out, 'C');
                push_char(&mut out, 'o');
                push_char(&mut out, 'u');
                push_char(&mut out, 'n');
                push_char(&mut out, 't');
                push_char(&mut out, '(');
                push_all(&mut out, c.as_str());
            },
            Aggregation::Sum(c) => {
                push_char(&mut out, 'S');
                push_char(&mut out, 'u');
                push_char(&mut out, 'm');
                push_char(&mut out, '(');
                push_all(&mut out, c.as_str());
            },
            Aggregation::Average(c) => {
                push_char(&mut out, 'A');
                push_char(&mut out, 'v');
                push_char(&mut out, 'e');
                push_char(&mut out, 'r');
                push_char(&mut out, 'a');
                push_char(&mut out, 'g');
                push_char(&mut out, 'e');
                push_char(&mut out, '(');
                push_all(&mut out, c.as_str());
            },
        }
        push_char(&mut out, ')');
        assert(out@ =~= result_column_name(self@));
        out
    }
}

/// A query: keep the rows that satisfy `filter`, group them by the value of
/// the column `group_by`, and summarise each group with `aggregate`.
#[derive(Debug)]
pub struct Query {
    filter: Condition,
    group_by: String,
    aggregate: Aggregation,
}

/// The mathematical model of a [`Query`].
pub struct SpecQuery {
    pub filter: SpecCondition,
    pub group_by: Seq<char>,
    pub aggregate: SpecAggregation,
}

impl View for Query {
    type V = SpecQuery;

    closed spec fn view(&self) -> SpecQuery {
        SpecQuery { filter: self.filter@, group_by: self.group_by@, aggregate: self.aggregate@ }
    }
}

impl Query {
    /// A query of the given filter, grouping column and aggregation.
    pub fn new(filter: Condition, group_by: String, aggregate: Aggregation) -> (r: Query)
        ensures
            r@ == (SpecQuery { filter: filter@, group_by: group_by@, aggregate: aggregate@ }),
    {
        Query { filter, group_by, aggregate }
    }

    /// The filter.
    pub fn get_filter(&self) -> (r: &Condition)
        ensures
            r@ == self@.filter,
    {
        &self.filter
    }

    /// The grouping column.
    pub fn get_group_by(&self) -> (r: &String)
        ensures
            r@ == self@.group_by,
    {
        &self.group_by
    }

    /// The aggregation.
    pub fn get_aggregate(&self) -> (r: &Aggregation)
        ensures
            r@ == self@.aggregate,
    {
        &self.aggregate
    }
}

} // verus!
