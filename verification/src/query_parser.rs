//! The textual query language:
//! `FILTER <condition> GROUP BY <column> <COUNT|SUM|AVERAGE> <column>`,
//! where a condition is `column == value`, `!(condition)`, or conditions
//! joined by ` AND ` and ` OR ` (OR binds loosest), with parentheses.
use vstd::prelude::*;
use crate::dataset::{SpecValue, Value};
use crate::query::{Aggregation, Condition, Query, SpecAggregation, SpecCondition, SpecQuery};
use crate::text::{
    all_ws, chars_of, find, find_chars, find_from, is_whitespace, lemma_find_from_bounds, lemma_trim_len,
    occurs_at, occurs_at_exec, parse_i32, parse_i32_chars, same_chars, slice_chars, string_of,
    lemma_trim_surrounding, trim, trim_chars, words, words_of,
};

verus! {

// ---------------------------------------------------------------------------
// Keywords
// ---------------------------------------------------------------------------

/// The operator ` OR `.
pub open spec fn or_op() -> Seq<char> {
    seq![' ', 'O', 'R', ' ']
}

/// The operator ` AND `.
pub open spec fn and_op() -> Seq<char> {
    seq![' ', 'A', 'N', 'D', ' ']
}

/// The comparison `==`.
pub open spec fn eq_op() -> Seq<char> {
    seq!['=', '=']
}

/// The separator ` GROUP BY `.
pub open spec fn group_by_marker() -> Seq<char> {
    seq![' ', 'G', 'R', 'O', 'U', 'P', ' ', 'B', 'Y', ' ']
}

/// The prefix `FILTER `.
pub open spec fn filter_prefix() -> Seq<char> {
    seq!['F', 'I', 'L', 'T', 'E', 'R', ' ']
}

/// The aggregation word `COUNT`.
pub open spec fn count_word() -> Seq<char> {
    seq!['C', 'O', 'U', 'N', 'T']
}

/// The aggregation word `SUM`.
pub open spec fn sum_word() -> Seq<char> {
    seq!['S', 'U', 'M']
}

/// The aggregation word `AVERAGE`.
pub open spec fn average_word() -> Seq<char> {
    seq!['A', 'V', 'E', 'R', 'A', 'G', 'E']
}

// ---------------------------------------------------------------------------
// Models
// ---------------------------------------------------------------------------

/// The nesting depth after reading `c` at depth `depth`.
pub open spec fn depth_step(c: char, depth: int) -> int {
    if c == '(' {
        depth + 1
    } else if c == ')' {
        depth - 1
    } else {
        depth
    }
}

/// Reading from position `i` at nesting depth `depth`, some `)` brings the
/// depth back to zero before the last character.
pub open spec fn closes_early(s: Seq<char>, i: int, depth: int) -> bool
    decreases s.len() - i,
{
    if i < 0 || i >= s.len() {
        false
    } else {
        let d = depth_step(s[i], depth);
        if s[i] == ')' && d == 0 && i != s.len() - 1 {
            true
        } else {
            closes_early(s, i + 1, d)
        }
    }
}

/// `s` trimmed, without one pair of parentheses that encloses all of it.
pub open spec fn strip_outer_parens(s0: Seq<char>) -> Seq<char> {
    let s = trim(s0);
    if s.len() > 0 && s[0] == '(' && s[s.len() - 1] == ')' && !closes_early(s, 0, 0) {
        s.subrange(1, s.len() - 1)
    } else {
        s
    }
}

/// The first position at or after `i` where `op` occurs outside parentheses;
/// the depth counts the parentheses read so far, the one at the position included.
pub open spec fn top_level_from(s: Seq<char>, op: Seq<char>, i: int, depth: int) -> Option<int>
    decreases s.len() + 1 - i,
{
    if i < 0 || i + op.len() > s.len() {
        None
    } else {
        let d = depth_step(s[i], depth);
        if d == 0 && occurs_at(s, op, i) {
            Some(i)
        } else {
            top_level_from(s, op, i + 1, d)
        }
    }
}

/// The first position where `op` occurs outside parentheses.
pub open spec fn find_top_level(s: Seq<char>, op: Seq<char>) -> Option<int> {
    top_level_from(s, op, 0, 0)
}

/// A value: text between double quotes, or a decimal `i32`.
pub open spec fn parse_value(s0: Seq<char>) -> Option<SpecValue> {
    let s = trim(s0);
    if s.len() > 0 && s[0] == '"' && s[s.len() - 1] == '"' {
        if s.len() >= 2 {
            Some(SpecValue::Text(s.subrange(1, s.len() - 1)))
        } else {
            None
        }
    } else {
        match parse_i32(s) {
            Some(i) => Some(SpecValue::Integer(i)),
            None => None,
        }
    }
}

/// The condition written in `s0`, if it is one.
pub open spec fn parse_condition(s0: Seq<char>) -> Option<SpecCondition>
    decreases s0.len(),
{
    let s = strip_outer_parens(s0);
    proof {
        lemma_strip_len(s0);
    }
    if s.len() >= 2 && s[0] == '!' && s[1] == '(' && s[s.len() - 1] == ')' {
        match parse_condition(s.subrange(2, s.len() - 1)) {
            Some(c) => Some(SpecCondition::Not(Box::new(c))),
            None => None,
        }
    } else {
        match find_top_level(s, or_op()) {
            Some(idx) => {
                proof {
                    lemma_top_level_bounds(s, or_op(), 0, 0);
                }
                match (
                    parse_condition(s.subrange(0, idx)),
                    parse_condition(s.subrange(idx + 4, s.len() as int)),
                ) {
                    (Some(l), Some(r)) => Some(SpecCondition::Or(Box::new(l), Box::new(r))),
                    _ => None,
                }
            },
            None => match find_top_level(s, and_op()) {
                Some(idx) => {
                    proof {
                        lemma_top_level_bounds(s, and_op(), 0, 0);
                    }
                    match (
                        parse_condition(s.subrange(0, idx)),
                        parse_condition(s.subrange(idx + 5, s.len() as int)),
                    ) {
                        (Some(l), Some(r)) => Some(SpecCondition::And(Box::new(l), Box::new(r))),
                        _ => None,
                    }
                },
                None => match find(s, eq_op()) {
                    Some(idx) => {
                        proof {
                            lemma_find_from_bounds(s, eq_op(), 0);
                        }
                        match parse_value(s.subrange(idx + 2, s.len() as int)) {
                            Some(v) => Some(SpecCondition::Equal(trim(s.subrange(0, idx)), v)),
                            None => None,
                        }
                    },
                    None => None,
                },
            },
        }
    }
}

/// The aggregation named by `kind` over the column `column`.
pub open spec fn parse_aggregation(kind: Seq<char>, column: Seq<char>) -> Option<SpecAggregation> {
    if kind == count_word() {
        Some(SpecAggregation::Count(column))
    } else if kind == sum_word() {
        Some(SpecAggregation::Sum(column))
    } else if kind == average_word() {
        Some(SpecAggregation::Average(column))
    } else {
        None
    }
}

/// The query written in `input0`, if it is one: after trimming, `FILTER `,
/// a condition, the first ` GROUP BY `, then exactly three words: the grouping
/// column, `COUNT`, `SUM` or `AVERAGE`, and the aggregated column.
pub open spec fn parse_query(input0: Seq<char>) -> Option<SpecQuery> {
    let input = trim(input0);
    match find(input, group_by_marker()) {
        None => None,
        Some(g) => {
            let filter_part = input.subrange(0, g);
            let rest = input.subrange(g + 10, input.len() as int);
            if !(filter_part.len() >= 7 && filter_part.subrange(0, 7) == filter_prefix()) {
                None
            } else {
                match parse_condition(filter_part.subrange(7, filter_part.len() as int)) {
                    None => None,
                    Some(f) => {
                        let parts = words(rest);
                        if parts.len() != 3 {
                            None
                        } else {
                            match parse_aggregation(parts[1], parts[2]) {
                                Some(a) => Some(SpecQuery { filter: f, group_by: parts[0], aggregate: a }),
                                None => None,
                            }
                        }
                    },
                }
            }
        },
    }
}

/// The model of an optional condition.
pub open spec fn option_condition_view(c: Option<Condition>) -> Option<SpecCondition> {
    match c {
        Some(c) => Some(c@),
        None => None,
    }
}

/// The model of an optional query.
pub open spec fn option_query_view(q: Option<Query>) -> Option<SpecQuery> {
    match q {
        Some(q) => Some(q@),
        None => None,
    }
}

// ---------------------------------------------------------------------------
// Facts
// ---------------------------------------------------------------------------

/// White space around a query does not change how it reads.
pub proof fn lemma_parse_ignores_surrounding_space(w1: Seq<char>, s: Seq<char>, w2: Seq<char>)
    requires
        all_ws(w1),
        all_ws(w2),
    ensures
        parse_query(w1 + s + w2) == parse_query(s),
{
    lemma_trim_surrounding(w1, s, w2);
}

/// Stripping parentheses never lengthens.
pub proof fn lemma_strip_len(s0: Seq<char>)
    ensures
        strip_outer_parens(s0).len() <= s0.len(),
{
    lemma_trim_len(s0);
}

/// A position found by [`top_level_from`] lies inside `s` and `op` occurs there.
pub proof fn lemma_top_level_bounds(s: Seq<char>, op: Seq<char>, i: int, depth: int)
    ensures
        top_level_from(s, op, i, depth) matches Some(k) ==> i <= k && k + op.len() <= s.len()
            && occurs_at(s, op, k),
    decreases s.len() + 1 - i,
{
    if i < 0 || i + op.len() > s.len() {
    } else if depth_step(s[i], depth) == 0 && occurs_at(s, op, i) {
    } else {
        lemma_top_level_bounds(s, op, i + 1, depth_step(s[i], depth));
    }
}

// ---------------------------------------------------------------------------
// Executable parser
// ---------------------------------------------------------------------------

/// The characters of a keyword.
fn keyword(k: &str) -> (r: Vec<char>)
    ensures
        r@ == k@,
{
    chars_of(k)
}

/// `s` trimmed, without one pair of parentheses that encloses all of it.
fn strip_outer_parens_exec(s0: &Vec<char>) -> (r: Vec<char>)
    ensures
        r@ == strip_outer_parens(s0@),
{
    let s = trim_chars(s0);
    let n = s.len();
    if !(n > 0 && s[0] == '(' && s[n - 1] == ')') {
        return s;
    }
    // The depth is `opens - closes`.
    let mut opens: usize = 0;
    let mut closes: usize = 0;
    let mut i: usize = 0;
    while i < n
        invariant
            n == s@.len(),
            s@ == trim(s0@),
            n > 0,
            s@[0] == '(',
            s@[n - 1] == ')',
            i <= n,
            opens <= i,
            closes <= i,
            closes_early(s@, i as int, opens - closes) == closes_early(s@, 0, 0),
        decreases n - i,
    {
        let c = s[i];
        let ghost before = opens - closes;
        if c == '(' {
            opens = opens + 1;
        } else if c == ')' {
            closes = closes + 1;
            if opens == closes && i != n - 1 {
                assert(closes_early(s@, i as int, before));
                return s;
            }
        }
        i = i + 1;
    }
    slice_chars(&s, 1, n - 1)
}

/// The first position where `op` occurs outside parentheses.
fn find_top_level_op(s: &Vec<char>, op: &Vec<char>) -> (r: Option<usize>)
    requires
        op@.len() > 0,
    ensures
        match r {
            Some(k) => find_top_level(s@, op@) == Some(k as int),
            None => find_top_level(s@, op@) is None,
        },
{
    if op.len() > s.len() {
        return None;
    }
    let last = s.len() - op.len();
    let mut opens: usize = 0;
    let mut closes: usize = 0;
    let mut i: usize = 0;
    loop
        invariant
            last + op@.len() == s@.len(),
            last < s.len(),
            op@.len() > 0,
            i <= last,
            opens <= i,
            closes <= i,
            top_level_from(s@, op@, i as int, opens - closes) == find_top_level(s@, op@),
        decreases last - i,
    {
        let c = s[i];
        if c == '(' {
            opens = opens + 1;
        } else if c == ')' {
            closes = closes + 1;
        }
        if opens == closes && occurs_at_exec(s, op, i) {
            return Some(i);
        }
        if i == last {
            assert(top_level_from(s@, op@, i + 1, opens - closes) is None);
            return None;
        }
        i = i + 1;
    }
}

/// The value written in `s0`: quoted text or a decimal `i32`.
fn parse_value_exec(s0: &Vec<char>) -> (r: Option<Value>)
    ensures
        match r {
            Some(v) => parse_value(s0@) == Some(v@),
            None => parse_value(s0@) is None,
        },
{
    let s = trim_chars(s0);
    let n = s.len();
    if n > 0 && s[0] == '"' && s[n - 1] == '"' {
        if n >= 2 {
            let inner = slice_chars(&s, 1, n - 1);
            return Some(Value::String(string_of(&inner)));
        } else {
            return None;
        }
    }
    match parse_i32_chars(&s) {
        Some(i) => Some(Value::Integer(i)),
        None => None,
    }
}

/// The condition written in `s0`, if it is one.
fn parse_condition_exec(s0: &Vec<char>) -> (r: Option<Condition>)
    ensures
        option_condition_view(r) == parse_condition(s0@),
    decreases s0@.len(),
{
    let s = strip_outer_parens_exec(s0);
    proof {
        lemma_strip_len(s0@);
    }
    let n = s.len();
    if n >= 2 && s[0] == '!' && s[1] == '(' && s[n - 1] == ')' {
        let inner = slice_chars(&s, 2, n - 1);
        return match parse_condition_exec(&inner) {
            Some(c) => Some(Condition::Not(Box::new(c))),
            None => None,
        };
    }
    let or_kw = keyword(" OR ");
    proof {
        reveal_strlit(" OR ");
        assert(or_kw@ =~= or_op());
    }
    match find_top_level_op(&s, &or_kw) {
        Some(idx) => {
            proof {
                lemma_top_level_bounds(s@, or_op(), 0, 0);
            }
            let left = slice_chars(&s, 0, idx);
            let right = slice_chars(&s, idx + 4, n);
            let l = parse_condition_exec(&left);
            let r = parse_condition_exec(&right);
            return match (l, r) {
                (Some(l), Some(r)) => Some(Condition::Or(Box::new(l), Box::new(r))),
                _ => None,
            };
        },
        None => {},
    }
    let and_kw = keyword(" AND ");
    proof {
        reveal_strlit(" AND ");
        assert(and_kw@ =~= and_op());
    }
    match find_top_level_op(&s, &and_kw) {
        Some(idx) => {
            proof {
                lemma_top_level_bounds(s@, and_op(), 0, 0);
            }
            let left = slice_chars(&s, 0, idx);
            let right = slice_chars(&s, idx + 5, n);
            let l = parse_condition_exec(&left);
            let r = parse_condition_exec(&right);
            return match (l, r) {
                (Some(l), Some(r)) => Some(Condition::And(Box::new(l), Box::new(r))),
                _ => None,
            };
        },
        None => {},
    }
    let eq_kw = keyword("==");
    proof {
        reveal_strlit("==");
        assert(eq_kw@ =~= eq_op());
    }
    match find_chars(&s, &eq_kw) {
        Some(idx) => {
            proof {
                lemma_find_from_bounds(s@, eq_op(), 0);
            }
            let column = trim_chars(&slice_chars(&s, 0, idx));
            let value_str = slice_chars(&s, idx + 2, n);
            match parse_value_exec(&value_str) {
                Some(value) => Some(Condition::Equal(string_of(&column), value)),
                None => None,
            }
        },
        None => None,
    }
}

/// The query written in `input`, if it is one (see [`parse_query`]).
pub fn try_parse_query(input: &str) -> (r: Option<Query>)
    ensures
        option_query_view(r) == parse_query(input@),
{
    let raw = chars_of(input);
    let text = trim_chars(&raw);
    let marker = keyword(" GROUP BY ");
    proof {
        reveal_strlit(" GROUP BY ");
        assert(marker@ =~= group_by_marker());
    }
    let group_by_idx = match find_chars(&text, &marker) {
        Some(g) => g,
        None => {
            return None;
        },
    };
    proof {
        lemma_find_from_bounds(text@, group_by_marker(), 0);
        assert(group_by_idx + 10 <= text@.len());
    }
    let filter_part = slice_chars(&text, 0, group_by_idx);
    let total = text.len();
    assert(group_by_idx + 10 <= total);
    let rest_part = slice_chars(&text, group_by_idx + 10, total);
    let prefix = keyword("FILTER ");
    proof {
        reveal_strlit("FILTER ");
        assert(prefix@ =~= filter_prefix());
    }
    if filter_part.len() < 7 {
        return None;
    }
    let head = slice_chars(&filter_part, 0, 7);
    if !same_chars(&head, &prefix) {
        return None;
    }
    let filter_str = slice_chars(&filter_part, 7, filter_part.len());
    let filter = match parse_condition_exec(&filter_str) {
        Some(f) => f,
        None => {
            return None;
        },
    };
    let parts = words_of(&rest_part);
    if parts.len() != 3 {
        return None;
    }
    assert(parts@[0]@ == words(rest_part@)[0]);
    assert(parts@[1]@ == words(rest_part@)[1]);
    assert(parts@[2]@ == words(rest_part@)[2]);
    let group_by = string_of(&parts[0]);
    let agg_column = string_of(&parts[2]);
    let count_kw = keyword("COUNT");
    let sum_kw = keyword("SUM");
    let average_kw = keyword("AVERAGE");
    proof {
        reveal_strlit("COUNT");
        reveal_strlit("SUM");
        reveal_strlit("AVERAGE");
        assert(count_kw@ =~= count_word());
        assert(sum_kw@ =~= sum_word());
        assert(average_kw@ =~= average_word());
    }
    let aggregate = if same_chars(&parts[1], &count_kw) {
        Aggregation::Count(agg_column)
    } else if same_chars(&parts[1], &sum_kw) {
        Aggregation::Sum(agg_column)
    } else if same_chars(&parts[1], &average_kw) {
        Aggregation::Average(agg_column)
    } else {
        return None;
    };
    Some(Query::new(filter, group_by, aggregate))
}

/// Reads a query written in the query language (see [`parse_query`]).
pub fn parse_query_from_string(input: String) -> (r: Query)
    requires
        parse_query(input@) is Some,
    ensures
        parse_query(input@) == Some(r@),
{
    try_parse_query(input.as_str()).unwrap()
}

} // verus!
