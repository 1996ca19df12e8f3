//! The query pipeline: filter, group, aggregate.
use vstd::prelude::*;
use crate::dataset::{
    ColumnType, Dataset, Row, SpecDataset, SpecValue, Value, column_position, columns_view,
    copy_columns, has_column, lemma_column_position_exists, rows_view, values_view,
};
use crate::query::{
    Aggregation, Condition, Query, SpecAggregation, SpecCondition, SpecQuery, result_column_name,
};

verus! {

// ---------------------------------------------------------------------------
// Models
// ---------------------------------------------------------------------------

/// Every column that the condition names exists.
pub open spec fn cond_columns_exist(cols: Seq<(Seq<char>, ColumnType)>, c: SpecCondition) -> bool
    decreases c,
{
    match c {
        SpecCondition::Equal(name, _) => has_column(cols, name),
        SpecCondition::Not(inner) => cond_columns_exist(cols, *inner),
        SpecCondition::And(l, r) => cond_columns_exist(cols, *l) && cond_columns_exist(cols, *r),
        SpecCondition::Or(l, r) => cond_columns_exist(cols, *l) && cond_columns_exist(cols, *r),
    }
}

/// Whether a row satisfies a condition; `Equal` reads the first column of that name.
pub open spec fn cond_matches(
    cols: Seq<(Seq<char>, ColumnType)>,
    row: Seq<SpecValue>,
    c: SpecCondition,
) -> bool
    decreases c,
{
    match c {
        SpecCondition::Equal(name, v) => row[column_position(cols, name)] == v,
        SpecCondition::Not(inner) => !cond_matches(cols, row, *inner),
        SpecCondition::And(l, r) => cond_matches(cols, row, *l) && cond_matches(cols, row, *r),
        SpecCondition::Or(l, r) => cond_matches(cols, row, *l) || cond_matches(cols, row, *r),
    }
}

/// The condition as a predicate on rows.
pub open spec fn cond_pred(cols: Seq<(Seq<char>, ColumnType)>, c: SpecCondition) -> spec_fn(
    Seq<SpecValue>,
) -> bool {
    |row: Seq<SpecValue>| cond_matches(cols, row, c)
}

/// The rows whose value at `idx` is `k`, as a predicate.
pub open spec fn key_pred(idx: int, k: SpecValue) -> spec_fn(Seq<SpecValue>) -> bool {
    |row: Seq<SpecValue>| row[idx] == k
}

/// The rows of `d` that satisfy `c`.
pub open spec fn filtered(d: SpecDataset, c: SpecCondition) -> SpecDataset {
    SpecDataset { columns: d.columns, rows: d.rows.filter(cond_pred(d.columns, c)) }
}

/// The distinct values of the column `idx`, in the order of their first appearance.
pub open spec fn group_keys(rows: Seq<Seq<SpecValue>>, idx: int) -> Seq<SpecValue>
    decreases rows.len(),
{
    if rows.len() == 0 {
        Seq::empty()
    } else {
        let ks = group_keys(rows.drop_last(), idx);
        if ks.contains(rows.last()[idx]) {
            ks
        } else {
            ks.push(rows.last()[idx])
        }
    }
}

/// The group of the rows of `d` whose value at `idx` is `k`.
pub open spec fn group_of(d: SpecDataset, idx: int, k: SpecValue) -> SpecDataset {
    SpecDataset { columns: d.columns, rows: d.rows.filter(key_pred(idx, k)) }
}

/// The integer at `idx`, or 0 where the row holds text there.
pub open spec fn int_at(row: Seq<SpecValue>, idx: int) -> int {
    match row[idx] {
        SpecValue::Integer(v) => v as int,
        SpecValue::Text(_) => 0,
    }
}

/// Whether the row holds an integer at `idx`.
pub open spec fn is_int_at(row: Seq<SpecValue>, idx: int) -> bool {
    row[idx] is Integer
}

/// The sum of the integers of column `idx` (text is skipped).
pub open spec fn sum_ints(rows: Seq<Seq<SpecValue>>, idx: int) -> int
    decreases rows.len(),
{
    if rows.len() == 0 {
        0
    } else {
        sum_ints(rows.drop_last(), idx) + int_at(rows.last(), idx)
    }
}

/// The number of integers in column `idx`.
pub open spec fn count_ints(rows: Seq<Seq<SpecValue>>, idx: int) -> int
    decreases rows.len(),
{
    if rows.len() == 0 {
        0
    } else {
        count_ints(rows.drop_last(), idx) + if is_int_at(rows.last(), idx) {
            1int
        } else {
            0int
        }
    }
}

/// Every running total of the sum, taken in row order, fits in an `i32`.
pub open spec fn sums_fit(rows: Seq<Seq<SpecValue>>, idx: int) -> bool {
    forall|k: int|
        0 <= k <= rows.len() ==> i32::MIN <= #[trigger] sum_ints(rows.take(k), idx) <= i32::MAX
}

/// Integer division rounding toward zero, as `i32` division does.
pub open spec fn trunc_div(x: int, d: int) -> int {
    if x == 0 {
        0
    } else if x > 0 && d > 0 {
        x / d
    } else if x < 0 && d < 0 {
        (x * -1) / (d * -1)
    } else if x < 0 {
        ((x * -1) / d) * -1
    } else {
        (x / (d * -1)) * -1
    }
}

/// The aggregation can be computed on `d` without a missing column, an
/// overflow or a division by zero.
pub open spec fn aggregation_ok(d: SpecDataset, a: SpecAggregation) -> bool {
    match a {
        SpecAggregation::Count(_) => true,
        SpecAggregation::Sum(c) => has_column(d.columns, c) && sums_fit(
            d.rows,
            column_position(d.columns, c),
        ),
        SpecAggregation::Average(c) => {
            &&& has_column(d.columns, c)
            &&& sums_fit(d.rows, column_position(d.columns, c))
            &&& 0 < count_ints(d.rows, column_position(d.columns, c)) <= i32::MAX
        },
    }
}

/// The aggregated value of a group: the number of rows, the sum of the
/// integers of the column, or that sum divided by the number of integers.
pub open spec fn aggregate_value(d: SpecDataset, a: SpecAggregation) -> i32 {
    match a {
        SpecAggregation::Count(_) => d.rows.len() as i32,
        SpecAggregation::Sum(c) => sum_ints(d.rows, column_position(d.columns, c)) as i32,
        SpecAggregation::Average(c) => trunc_div(
            sum_ints(d.rows, column_position(d.columns, c)),
            count_ints(d.rows, column_position(d.columns, c)),
        ) as i32,
    }
}

/// The query can be run on `d`: its columns exist and each group can be aggregated.
pub open spec fn query_ok(d: SpecDataset, q: SpecQuery) -> bool {
    let f = filtered(d, q.filter);
    let idx = column_position(d.columns, q.group_by);
    &&& d.wf()
    &&& cond_columns_exist(d.columns, q.filter)
    &&& has_column(d.columns, q.group_by)
    &&& forall|i: int|
        0 <= i < group_keys(f.rows, idx).len() ==> aggregation_ok(
            group_of(f, idx, #[trigger] group_keys(f.rows, idx)[i]),
            q.aggregate,
        )
}

/// The columns of a query's result: the grouping column, then the aggregate.
pub open spec fn query_result_columns(d: SpecDataset, q: SpecQuery) -> Seq<(Seq<char>, ColumnType)> {
    seq![
        (q.group_by, d.columns[column_position(d.columns, q.group_by)].1),
        (result_column_name(q.aggregate), ColumnType::Integer),
    ]
}

/// The result of a query: one row per group, holding the group's value and its aggregate.
pub open spec fn query_result(d: SpecDataset, q: SpecQuery) -> SpecDataset {
    let f = filtered(d, q.filter);
    let idx = column_position(d.columns, q.group_by);
    let ks = group_keys(f.rows, idx);
    SpecDataset {
        columns: query_result_columns(d, q),
        rows: Seq::new(
            ks.len(),
            |i: int|
                seq![ks[i], SpecValue::Integer(aggregate_value(group_of(f, idx, ks[i]), q.aggregate))],
        ),
    }
}

// ---------------------------------------------------------------------------
// Sequence facts
// ---------------------------------------------------------------------------

/// One more element of a prefix.
pub proof fn lemma_take_step<A>(s: Seq<A>, i: int)
    requires
        0 <= i < s.len(),
    ensures
        s.take(i + 1).drop_last() == s.take(i),
        s.take(i + 1).last() == s[i],
        s.take(i + 1).len() == i + 1,
{
    assert(s.take(i + 1).drop_last() =~= s.take(i));
}

/// Filtering a prefix one element longer.
pub proof fn lemma_filter_step<A>(s: Seq<A>, pred: spec_fn(A) -> bool, i: int)
    requires
        0 <= i < s.len(),
    ensures
        s.take(i + 1).filter(pred) == if pred(s[i]) {
            s.take(i).filter(pred).push(s[i])
        } else {
            s.take(i).filter(pred)
        },
{
    lemma_take_step(s, i);
    reveal(Seq::filter);
}

/// The whole sequence is its longest prefix.
pub proof fn lemma_take_all<A>(s: Seq<A>)
    ensures
        s.take(s.len() as int) == s,
{
    assert(s.take(s.len() as int) =~= s);
}

/// Every element of a filtered sequence satisfies the predicate and comes from the sequence.
pub proof fn lemma_filter_elements<A>(s: Seq<A>, pred: spec_fn(A) -> bool)
    ensures
        forall|i: int|
            0 <= i < s.filter(pred).len() ==> pred(#[trigger] s.filter(pred)[i]) && s.contains(
                s.filter(pred)[i],
            ),
    decreases s.len(),
{
    reveal(Seq::filter);
    if s.len() > 0 {
        lemma_filter_elements(s.drop_last(), pred);
        let sub = s.drop_last().filter(pred);
        assert forall|i: int| 0 <= i < s.filter(pred).len() implies pred(
            #[trigger] s.filter(pred)[i],
        ) && s.contains(s.filter(pred)[i]) by {
            if i < sub.len() {
                assert(s.filter(pred)[i] == sub[i]);
                let j = choose|j: int| 0 <= j < s.drop_last().len() && s.drop_last()[j] == sub[i];
                assert(s[j] == sub[i]);
            } else {
                assert(s.filter(pred)[i] == s.last());
                assert(s[s.len() - 1] == s.last());
            }
        }
    }
}

/// Every element of a sequence that satisfies the predicate is kept by the filter.
pub proof fn lemma_filter_keeps<A>(s: Seq<A>, pred: spec_fn(A) -> bool, i: int)
    requires
        0 <= i < s.len(),
        pred(s[i]),
    ensures
        s.filter(pred).contains(s[i]),
    decreases s.len(),
{
    reveal(Seq::filter);
    let sub = s.drop_last().filter(pred);
    if i == s.len() - 1 {
        assert(s.filter(pred)[sub.len() as int] == s[i]);
    } else {
        assert(s.drop_last()[i] == s[i]);
        lemma_filter_keeps(s.drop_last(), pred, i);
        let w = choose|w: int| 0 <= w < sub.len() && sub[w] == s[i];
        assert(s.filter(pred)[w] == sub[w]);
    }
}

/// The running sum over one more row.
pub proof fn lemma_sum_step(rows: Seq<Seq<SpecValue>>, idx: int, j: int)
    requires
        0 <= j < rows.len(),
    ensures
        sum_ints(rows.take(j + 1), idx) == sum_ints(rows.take(j), idx) + int_at(rows[j], idx),
        count_ints(rows.take(j + 1), idx) == count_ints(rows.take(j), idx) + if is_int_at(
            rows[j],
            idx,
        ) {
            1int
        } else {
            0int
        },
{
    lemma_take_step(rows, j);
}

/// The number of integers never exceeds the number of rows.
pub proof fn lemma_count_bound(rows: Seq<Seq<SpecValue>>, idx: int)
    ensures
        0 <= count_ints(rows, idx) <= rows.len(),
    decreases rows.len(),
{
    if rows.len() > 0 {
        lemma_count_bound(rows.drop_last(), idx);
    }
}

/// Truncating division of an `i32` by a positive count stays in `i32`.
proof fn lemma_trunc_div_fits(x: int, d: int)
    requires
        i32::MIN <= x <= i32::MAX,
        d >= 1,
    ensures
        i32::MIN <= trunc_div(x, d) <= i32::MAX,
{
    if x > 0 {
        assert(x / d <= x) by (nonlinear_arith)
            requires
                x > 0,
                d >= 1,
        ;
        assert(x / d >= 0) by (nonlinear_arith)
            requires
                x > 0,
                d >= 1,
        ;
    } else if x < 0 {
        let y = x * -1;
        assert(y / d <= y) by (nonlinear_arith)
            requires
                y > 0,
                d >= 1,
        ;
        assert(y / d >= 0) by (nonlinear_arith)
            requires
                y > 0,
                d >= 1,
        ;
    }
}

/// Truncating division of an `i32` by a nonzero `i32` stays in `i32`, except `MIN / -1`.
pub proof fn lemma_trunc_div_in_range(x: int, d: int)
    requires
        i32::MIN <= x <= i32::MAX,
        i32::MIN <= d <= i32::MAX,
        d != 0,
        !(x == i32::MIN && d == -1),
    ensures
        i32::MIN <= trunc_div(x, d) <= i32::MAX,
{
    if d > 0 {
        lemma_trunc_div_fits(x, d);
    } else if x > 0 {
        let e = d * -1;
        assert(x / e <= x && x / e >= 0) by (nonlinear_arith)
            requires
                x > 0,
                e >= 1,
        ;
    } else if x < 0 {
        let y = x * -1;
        let e = d * -1;
        if e == 1 {
            assert(y / e == y);
        } else {
            assert(y / e <= y / 2) by (nonlinear_arith)
                requires
                    y > 0,
                    e >= 2,
            ;
        }
    }
}

/// Filtering twice keeps what both predicates keep.
pub proof fn lemma_filter_filter<A>(s: Seq<A>, p: spec_fn(A) -> bool, q: spec_fn(A) -> bool)
    ensures
        s.filter(p).filter(q) == s.filter(|x: A| p(x) && q(x)),
    decreases s.len(),
{
    reveal(Seq::filter);
    if s.len() > 0 {
        lemma_filter_filter(s.drop_last(), p, q);
        if p(s.last()) {
            assert(s.filter(p).drop_last() =~= s.drop_last().filter(p));
        }
    } else {
        assert(s.filter(p).filter(q) =~= s.filter(|x: A| p(x) && q(x)));
    }
}

/// What a predicate keeps and what its negation keeps add up to the whole.
pub proof fn lemma_filter_split_len<A>(s: Seq<A>, p: spec_fn(A) -> bool)
    ensures
        s.filter(p).len() + s.filter(|x: A| !p(x)).len() == s.len(),
    decreases s.len(),
{
    reveal(Seq::filter);
    if s.len() > 0 {
        lemma_filter_split_len(s.drop_last(), p);
    }
}

// ---------------------------------------------------------------------------
// Filtering
// ---------------------------------------------------------------------------

/// Whether `row` satisfies `condition`, reading columns by name in `dataset`.
fn matches_condition(dataset: &Dataset, row: &Row, condition: &Condition) -> (r: bool)
    requires
        row@.len() == dataset@.columns.len(),
        cond_columns_exist(dataset@.columns, condition@),
    ensures
        r == cond_matches(dataset@.columns, row@, condition@),
    decreases condition,
{
    match condition {
        Condition::Equal(column_name, value) => {
            let index = dataset.column_index(column_name);
            row.get_value(index).same_value(value)
        },
        Condition::Not(inner) => !matches_condition(dataset, row, inner),
        Condition::And(left, right) => {
            matches_condition(dataset, row, left) && matches_condition(dataset, row, right)
        },
        Condition::Or(left, right) => {
            matches_condition(dataset, row, left) || matches_condition(dataset, row, right)
        },
    }
}

/// The rows of `dataset` that satisfy `filter`, in order, under the same columns.
pub fn filter_dataset(dataset: &Dataset, filter: &Condition) -> (r: Dataset)
    requires
        dataset@.wf(),
        cond_columns_exist(dataset@.columns, filter@),
    ensures
        r@ == filtered(dataset@, filter@),
        r@.wf(),
{
    let mut result = Dataset::new(copy_columns(dataset.columns()));
    let rows = dataset.rows();
    let ghost pred = cond_pred(dataset@.columns, filter@);
    let mut i: usize = 0;
    while i < rows.len()
        invariant
            i <= rows@.len(),
            rows_view(rows@) == dataset@.rows,
            dataset@.wf(),
            cond_columns_exist(dataset@.columns, filter@),
            pred == cond_pred(dataset@.columns, filter@),
            result@.columns == dataset@.columns,
            result@.rows == dataset@.rows.take(i as int).filter(pred),
            result@.wf(),
        decreases rows.len() - i,
    {
        assert(dataset@.rows[i as int] == rows@[i as int]@);
        proof {
            lemma_filter_step(dataset@.rows, pred, i as int);
        }
        if matches_condition(dataset, &rows[i], filter) {
            result.add_row(rows[i].duplicate());
        }
        i = i + 1;
    }
    proof {
        lemma_take_all(dataset@.rows);
    }
    result
}

// ---------------------------------------------------------------------------
// Grouping
// ---------------------------------------------------------------------------

/// Whether a list of values holds one equal to `v`.
fn contains_value(vs: &Vec<Value>, v: &Value) -> (r: bool)
    ensures
        r == values_view(vs@).contains(v@),
{
    let mut i: usize = 0;
    while i < vs.len()
        invariant
            i <= vs@.len(),
            forall|j: int| 0 <= j < i ==> (#[trigger] vs@[j])@ != v@,
        decreases vs.len() - i,
    {
        if vs[i].same_value(v) {
            assert(values_view(vs@)[i as int] == v@);
            return true;
        }
        i = i + 1;
    }
    assert forall|j: int| 0 <= j < values_view(vs@).len() implies #[trigger] values_view(vs@)[j]
        != v@ by {
        assert(values_view(vs@)[j] == vs@[j]@);
    }
    false
}

/// The distinct values of column `idx`, in the order of first appearance.
pub(crate) fn collect_keys(dataset: &Dataset, idx: usize) -> (r: Vec<Value>)
    requires
        dataset@.wf(),
        idx < dataset@.columns.len(),
    ensures
        values_view(r@) == group_keys(dataset@.rows, idx as int),
{
    let rows = dataset.rows();
    let mut keys: Vec<Value> = Vec::new();
    let mut i: usize = 0;
    assert(values_view(keys@) =~= group_keys(dataset@.rows.take(0), idx as int));
    while i < rows.len()
        invariant
            i <= rows@.len(),
            rows_view(rows@) == dataset@.rows,
            dataset@.wf(),
            idx < dataset@.columns.len(),
            values_view(keys@) == group_keys(dataset@.rows.take(i as int), idx as int),
        decreases rows.len() - i,
    {
        assert(dataset@.rows[i as int] == rows@[i as int]@);
        proof {
            lemma_take_step(dataset@.rows, i as int);
        }
        let key = rows[i].get_value(idx);
        if !contains_value(&keys, key) {
            let ghost before = keys@;
            keys.push(key.duplicate());
            assert(values_view(keys@) =~= values_view(before).push(key@));
        }
        i = i + 1;
    }
    proof {
        lemma_take_all(dataset@.rows);
    }
    keys
}

/// The rows of `dataset` whose value at `idx` equals `key`, in order.
pub(crate) fn select_rows(dataset: &Dataset, idx: usize, key: &Value) -> (r: Dataset)
    requires
        dataset@.wf(),
        idx < dataset@.columns.len(),
    ensures
        r@ == group_of(dataset@, idx as int, key@),
        r@.wf(),
{
    let mut result = Dataset::new(copy_columns(dataset.columns()));
    let rows = dataset.rows();
    let ghost pred = key_pred(idx as int, key@);
    let mut i: usize = 0;
    while i < rows.len()
        invariant
            i <= rows@.len(),
            rows_view(rows@) == dataset@.rows,
            dataset@.wf(),
            idx < dataset@.columns.len(),
            pred == key_pred(idx as int, key@),
            result@.columns == dataset@.columns,
            result@.rows == dataset@.rows.take(i as int).filter(pred),
            result@.wf(),
        decreases rows.len() - i,
    {
        assert(dataset@.rows[i as int] == rows@[i as int]@);
        proof {
            lemma_filter_step(dataset@.rows, pred, i as int);
        }
        if rows[i].get_value(idx).same_value(key) {
            result.add_row(rows[i].duplicate());
        }
        i = i + 1;
    }
    proof {
        lemma_take_all(dataset@.rows);
    }
    result
}

/// What each form of condition means for a row: `column == v` holds when
/// the row's value in the first column of that name is `v`; `NOT` holds
/// exactly when its operand does not; `AND` when both operands hold; `OR`
/// when at least one holds (a row satisfying both is kept too).
pub proof fn conditions_mean_what_they_say(
    cols: Seq<(Seq<char>, ColumnType)>,
    row: Seq<SpecValue>,
    name: Seq<char>,
    v: SpecValue,
    c1: SpecCondition,
    c2: SpecCondition,
)
    ensures
        cond_matches(cols, row, SpecCondition::Equal(name, v)) == (row[column_position(cols, name)]
            == v),
        cond_matches(cols, row, SpecCondition::Not(Box::new(c1))) == !cond_matches(cols, row, c1),
        cond_matches(cols, row, SpecCondition::And(Box::new(c1), Box::new(c2))) == (cond_matches(
            cols,
            row,
            c1,
        ) && cond_matches(cols, row, c2)),
        cond_matches(cols, row, SpecCondition::Or(Box::new(c1), Box::new(c2))) == (cond_matches(
            cols,
            row,
            c1,
        ) || cond_matches(cols, row, c2)),
{
}

/// Filtering by `c1 OR c2` keeps a row of the dataset exactly when filtering
/// by `c1` or filtering by `c2` keeps it; by `c1 AND c2` exactly when both
/// keep it; by `NOT c1` exactly when `c1` drops it.
pub proof fn filters_combine(d: SpecDataset, c1: SpecCondition, c2: SpecCondition)
    ensures
        forall|i: int|
            0 <= i < d.rows.len() ==> {
                &&& filtered(d, SpecCondition::Or(Box::new(c1), Box::new(c2))).rows.contains(
                    #[trigger] d.rows[i],
                ) == (filtered(d, c1).rows.contains(d.rows[i]) || filtered(d, c2).rows.contains(
                    d.rows[i],
                ))
                &&& filtered(d, SpecCondition::And(Box::new(c1), Box::new(c2))).rows.contains(
                    d.rows[i],
                ) == (filtered(d, c1).rows.contains(d.rows[i]) && filtered(d, c2).rows.contains(
                    d.rows[i],
                ))
                &&& filtered(d, SpecCondition::Not(Box::new(c1))).rows.contains(d.rows[i])
                    == !filtered(d, c1).rows.contains(d.rows[i])
            },
{
    let or_c = SpecCondition::Or(Box::new(c1), Box::new(c2));
    let and_c = SpecCondition::And(Box::new(c1), Box::new(c2));
    let not_c = SpecCondition::Not(Box::new(c1));
    assert forall|i: int| 0 <= i < d.rows.len() implies {
        &&& filtered(d, or_c).rows.contains(#[trigger] d.rows[i]) == (filtered(d, c1).rows.contains(
            d.rows[i],
        ) || filtered(d, c2).rows.contains(d.rows[i]))
        &&& filtered(d, and_c).rows.contains(d.rows[i]) == (filtered(d, c1).rows.contains(d.rows[i])
            && filtered(d, c2).rows.contains(d.rows[i]))
        &&& filtered(d, not_c).rows.contains(d.rows[i]) == !filtered(d, c1).rows.contains(d.rows[i])
    } by {
        let row = d.rows[i];
        assert forall|c: SpecCondition| #[trigger] filtered(d, c).rows.contains(row) == cond_matches(
            d.columns,
            row,
            c,
        ) by {
            let p = cond_pred(d.columns, c);
            lemma_filter_elements(d.rows, p);
            if cond_matches(d.columns, row, c) {
                lemma_filter_keeps(d.rows, p, i);
            } else if d.rows.filter(p).contains(row) {
                let k = choose|k: int| 0 <= k < d.rows.filter(p).len() && d.rows.filter(p)[k] == row;
                assert(p(d.rows.filter(p)[k]));
            }
        }
    }
}

/// Filtering by `c1` and then by `c2` gives the rows, in order, that
/// filtering once by `c1 AND c2` gives; with `c2 == c1`, filtering is idempotent.
pub proof fn filter_then_filter(d: SpecDataset, c1: SpecCondition, c2: SpecCondition)
    ensures
        filtered(filtered(d, c1), c2) == filtered(d, SpecCondition::And(Box::new(c1), Box::new(c2))),
        filtered(filtered(d, c1), c1) == filtered(d, c1),
{
    let p = cond_pred(d.columns, c1);
    let q = cond_pred(d.columns, c2);
    lemma_filter_filter(d.rows, p, q);
    assert(cond_pred(d.columns, SpecCondition::And(Box::new(c1), Box::new(c2))) =~= (|x: Seq<
        SpecValue,
    >| p(x) && q(x)));
    lemma_filter_filter(d.rows, p, p);
    assert((|x: Seq<SpecValue>| p(x) && p(x)) =~= p);
}

/// An element that the predicate keeps stands, in the filtered sequence, at
/// the number of kept elements before it.
pub proof fn lemma_filter_rank<A>(s: Seq<A>, p: spec_fn(A) -> bool, i: int)
    requires
        0 <= i < s.len(),
        p(s[i]),
    ensures
        s.take(i).filter(p).len() < s.filter(p).len(),
        s.filter(p)[s.take(i).filter(p).len() as int] == s[i],
{
    let a = s.take(i + 1);
    let b = s.skip(i + 1);
    assert(s =~= a + b);
    Seq::<A>::filter_distributes_over_add(a, b, p);
    lemma_filter_step(s, p, i);
    let k = s.take(i).filter(p).len() as int;
    assert(a.filter(p)[k] == s[i]);
    assert((a.filter(p) + b.filter(p))[k] == a.filter(p)[k]);
}

/// The rows of `d` that satisfy `c`, counted before row `i`.
pub open spec fn rank_in(d: SpecDataset, c: SpecCondition, i: int) -> int {
    d.rows.take(i).filter(cond_pred(d.columns, c)).len() as int
}

/// A condition and its negation split the rows: every row passes exactly one
/// of the two filters, so their sizes add up to the dataset's; and row `i`
/// stands in the filter it passes at the number of rows before it that pass
/// the same filter, so merging the two results by position gives the rows back.
pub proof fn filter_and_negation_split(d: SpecDataset, c: SpecCondition)
    ensures
        filtered(d, c).rows.len() + filtered(d, SpecCondition::Not(Box::new(c))).rows.len()
            == d.rows.len(),
        forall|i: int|
            0 <= i < d.rows.len() ==> (cond_matches(d.columns, #[trigger] d.rows[i], c) != cond_matches(
                d.columns,
                d.rows[i],
                SpecCondition::Not(Box::new(c)),
            )),
        forall|i: int|
            0 <= i < d.rows.len() ==> if cond_matches(d.columns, #[trigger] d.rows[i], c) {
                filtered(d, c).rows[rank_in(d, c, i)] == d.rows[i]
            } else {
                filtered(d, SpecCondition::Not(Box::new(c))).rows[rank_in(
                    d,
                    SpecCondition::Not(Box::new(c)),
                    i,
                )] == d.rows[i]
            },
{
    let p = cond_pred(d.columns, c);
    let nc = SpecCondition::Not(Box::new(c));
    lemma_filter_split_len(d.rows, p);
    assert(cond_pred(d.columns, nc) =~= (|x: Seq<SpecValue>| !p(x)));
    assert forall|i: int| 0 <= i < d.rows.len() implies if cond_matches(
        d.columns,
        #[trigger] d.rows[i],
        c,
    ) {
        filtered(d, c).rows[rank_in(d, c, i)] == d.rows[i]
    } else {
        filtered(d, nc).rows[rank_in(d, nc, i)] == d.rows[i]
    } by {
        if cond_matches(d.columns, d.rows[i], c) {
            lemma_filter_rank(d.rows, p, i);
        } else {
            lemma_filter_rank(d.rows, cond_pred(d.columns, nc), i);
        }
    }
}

/// Splits `dataset` into groups by the value of the column `group_by_column`:
/// one group per distinct value, in the order of first appearance, each holding
/// the rows with that value, in order.
pub fn group_by_dataset(dataset: Dataset, group_by_column: &String) -> (r: Vec<(Value, Dataset)>)
    requires
        dataset@.wf(),
        has_column(dataset@.columns, group_by_column@),
    ensures
        r@.len() == group_keys(
            dataset@.rows,
            column_position(dataset@.columns, group_by_column@),
        ).len(),
        forall|i: int|
            0 <= i < r@.len() ==> {
                let idx = column_position(dataset@.columns, group_by_column@);
                &&& (#[trigger] r@[i]).0@ == group_keys(dataset@.rows, idx)[i]
                &&& r@[i].1@ == group_of(dataset@, idx, group_keys(dataset@.rows, idx)[i])
                &&& r@[i].1@.wf()
            },
{
    let col_index = dataset.column_index(group_by_column);
    let keys = collect_keys(&dataset, col_index);
    let ghost ks = group_keys(dataset@.rows, col_index as int);
    let mut groups: Vec<(Value, Dataset)> = Vec::new();
    let mut i: usize = 0;
    while i < keys.len()
        invariant
            i <= keys@.len(),
            values_view(keys@) == ks,
            ks == group_keys(dataset@.rows, col_index as int),
            col_index == column_position(dataset@.columns, group_by_column@),
            col_index < dataset@.columns.len(),
            dataset@.wf(),
            groups@.len() == i,
            forall|j: int|
                0 <= j < i ==> {
                    &&& (#[trigger] groups@[j]).0@ == ks[j]
                    &&& groups@[j].1@ == group_of(dataset@, col_index as int, ks[j])
                    &&& groups@[j].1@.wf()
                },
        decreases keys.len() - i,
    {
        assert(ks[i as int] == keys@[i as int]@);
        let group = select_rows(&dataset, col_index, &keys[i]);
        groups.push((keys[i].duplicate(), group));
        i = i + 1;
    }
    groups
}

/// The groups partition the rows: their values are distinct, and the value of
/// every row is the value of one of them.
pub proof fn group_keys_partition(rows: Seq<Seq<SpecValue>>, idx: int)
    ensures
        group_keys(rows, idx).no_duplicates(),
        forall|j: int| 0 <= j < rows.len() ==> group_keys(rows, idx).contains(#[trigger] rows[j][idx]),
    decreases rows.len(),
{
    if rows.len() > 0 {
        let prev = rows.drop_last();
        group_keys_partition(prev, idx);
        let ks = group_keys(prev, idx);
        let x = rows.last()[idx];
        assert forall|j: int| 0 <= j < rows.len() implies group_keys(rows, idx).contains(
            #[trigger] rows[j][idx],
        ) by {
            if j < rows.len() - 1 {
                assert(prev[j] == rows[j]);
                let w = choose|w: int| 0 <= w < ks.len() && ks[w] == prev[j][idx];
                if !ks.contains(x) {
                    assert(ks.push(x)[w] == ks[w]);
                }
            } else {
                if !ks.contains(x) {
                    assert(ks.push(x)[ks.len() as int] == x);
                }
            }
        }
    }
}

/// Each group is what filtering by `column == key` keeps, and filtering by
/// `column == v` for a value `v` that is no group's key keeps nothing.
pub proof fn groups_are_equality_filters(d: SpecDataset, column: Seq<char>, v: SpecValue)
    requires
        has_column(d.columns, column),
    ensures
        group_of(d, column_position(d.columns, column), v) == filtered(
            d,
            SpecCondition::Equal(column, v),
        ),
        !group_keys(d.rows, column_position(d.columns, column)).contains(v) ==> filtered(
            d,
            SpecCondition::Equal(column, v),
        ).rows.len() == 0,
{
    let idx = column_position(d.columns, column);
    assert(cond_pred(d.columns, SpecCondition::Equal(column, v)) =~= key_pred(idx, v));
    if !group_keys(d.rows, idx).contains(v) {
        let f = d.rows.filter(key_pred(idx, v));
        lemma_filter_elements(d.rows, key_pred(idx, v));
        group_keys_partition(d.rows, idx);
        if f.len() > 0 {
            let row = f[0];
            assert(key_pred(idx, v)(row));
            let j = choose|j: int| 0 <= j < d.rows.len() && d.rows[j] == row;
            assert(group_keys(d.rows, idx).contains(d.rows[j][idx]));
        }
    }
}

/// The whole query is the three steps in turn: the result has one row per
/// key of the filtered rows' grouping column, in order, holding the key and
/// the aggregate of the rows that filtering by `condition AND column == key`
/// keeps.
pub proof fn query_composes(d: SpecDataset, q: SpecQuery)
    requires
        has_column(d.columns, q.group_by),
    ensures
        ({
            let f = filtered(d, q.filter);
            let idx = column_position(d.columns, q.group_by);
            let ks = group_keys(f.rows, idx);
            let r = query_result(d, q);
            &&& r.columns == query_result_columns(d, q)
            &&& r.rows.len() == ks.len()
            &&& forall|i: int|
                0 <= i < ks.len() ==> #[trigger] r.rows[i] == seq![
                    ks[i],
                    SpecValue::Integer(
                        aggregate_value(
                            filtered(
                                d,
                                SpecCondition::And(
                                    Box::new(q.filter),
                                    Box::new(SpecCondition::Equal(q.group_by, ks[i])),
                                ),
                            ),
                            q.aggregate,
                        ),
                    ),
                ]
        }),
{
    let f = filtered(d, q.filter);
    let idx = column_position(d.columns, q.group_by);
    let ks = group_keys(f.rows, idx);
    assert forall|i: int| 0 <= i < ks.len() implies #[trigger] query_result(d, q).rows[i] == seq![
        ks[i],
        SpecValue::Integer(
            aggregate_value(
                filtered(
                    d,
                    SpecCondition::And(
                        Box::new(q.filter),
                        Box::new(SpecCondition::Equal(q.group_by, ks[i])),
                    ),
                ),
                q.aggregate,
            ),
        ),
    ] by {
        groups_are_equality_filters(f, q.group_by, ks[i]);
        filter_then_filter(d, q.filter, SpecCondition::Equal(q.group_by, ks[i]));
    }
}

// ---------------------------------------------------------------------------
// Aggregation
// ---------------------------------------------------------------------------

/// The aggregate of one group.
fn aggregate_group(group_dataset: &Dataset, aggregation: &Aggregation) -> (r: i32)
    requires
        group_dataset@.wf(),
        aggregation_ok(group_dataset@, aggregation@),
    ensures
        r == aggregate_value(group_dataset@, aggregation@),
{
    match aggregation {
        Aggregation::Count(_column_name) => #[verifier::truncate] (group_dataset.len() as i32),
        Aggregation::Sum(column_name) => {
            let column_index = group_dataset.column_index(column_name);
            let (sum, _count) = sum_and_count(group_dataset.rows(), column_index, group_dataset.columns().len());
            sum
        },
        Aggregation::Average(column_name) => {
            let column_index = group_dataset.column_index(column_name);
            let (sum, count) = sum_and_count(group_dataset.rows(), column_index, group_dataset.columns().len());
            proof {
                lemma_trunc_div_fits(sum as int, count as int);
            }
            match sum.checked_div(count) {
                Some(q) => q,
                None => 0,
            }
        },
    }
}

/// The sum of the integers of column `column_index` over `rows`, each of
/// `width` values, and how many integers there are.
pub(crate) fn sum_and_count(rows: &Vec<Row>, column_index: usize, width: usize) -> (r: (i32, i32))
    requires
        column_index < width,
        forall|j: int| 0 <= j < rows@.len() ==> (#[trigger] rows_view(rows@)[j]).len() == width,
        sums_fit(rows_view(rows@), column_index as int),
    ensures
        r.0 == sum_ints(rows_view(rows@), column_index as int),
        count_ints(rows_view(rows@), column_index as int) <= i32::MAX ==> r.1 == count_ints(
            rows_view(rows@),
            column_index as int,
        ),
{
    let ghost all = rows_view(rows@);
    let ghost idx = column_index as int;
    let mut sum: i32 = 0;
    let mut count: i32 = 0;
    let mut j: usize = 0;
    proof {
        assert(all.take(0) =~= Seq::<Seq<SpecValue>>::empty());
    }
    while j < rows.len()
        invariant
            j <= rows@.len(),
            all == rows_view(rows@),
            idx == column_index,
            column_index < width,
            forall|k: int| 0 <= k < rows@.len() ==> (#[trigger] all[k]).len() == width,
            sums_fit(all, idx),
            sum == sum_ints(all.take(j as int), idx),
            count_ints(all.take(j as int), idx) <= i32::MAX ==> count == count_ints(
                all.take(j as int),
                idx,
            ),
            0 <= count_ints(all.take(j as int), idx) <= j,
        decreases rows.len() - j,
    {
        assert(all[j as int] == rows@[j as int]@);
        proof {
            lemma_sum_step(all, idx, j as int);
            assert(i32::MIN <= sum_ints(all.take(j + 1), idx) <= i32::MAX);
        }
        match rows[j].get_value(column_index) {
            Value::Integer(value) => {
                sum = sum + *value;
                if count < i32::MAX {
                    count = count + 1;
                }
            },
            Value::String(_) => {},
        }
        j = j + 1;
    }
    proof {
        lemma_take_all(all);
    }
    (sum, count)
}

/// Aggregates each group, keeping the group's value.
pub fn aggregate_dataset(dataset: Vec<(Value, Dataset)>, aggregation: &Aggregation) -> (r: Vec<
    (Value, Value),
>)
    requires
        forall|i: int|
            0 <= i < dataset@.len() ==> (#[trigger] dataset@[i]).1@.wf() && aggregation_ok(
                dataset@[i].1@,
                aggregation@,
            ),
    ensures
        r@.len() == dataset@.len(),
        forall|i: int|
            0 <= i < r@.len() ==> (#[trigger] r@[i]).0@ == dataset@[i].0@ && r@[i].1@
                == SpecValue::Integer(aggregate_value(dataset@[i].1@, aggregation@)),
{
    let mut result: Vec<(Value, Value)> = Vec::new();
    let mut i: usize = 0;
    while i < dataset.len()
        invariant
            i <= dataset@.len(),
            result@.len() == i,
            forall|j: int|
                0 <= j < dataset@.len() ==> (#[trigger] dataset@[j]).1@.wf() && aggregation_ok(
                    dataset@[j].1@,
                    aggregation@,
                ),
            forall|j: int|
                0 <= j < i ==> (#[trigger] result@[j]).0@ == dataset@[j].0@ && result@[j].1@
                    == SpecValue::Integer(aggregate_value(dataset@[j].1@, aggregation@)),
        decreases dataset.len() - i,
    {
        let aggregated_value = aggregate_group(&dataset[i].1, aggregation);
        result.push((dataset[i].0.duplicate(), Value::Integer(aggregated_value)));
        i = i + 1;
    }
    result
}

// ---------------------------------------------------------------------------
// The whole query
// ---------------------------------------------------------------------------

/// Runs `query` on `dataset`: filter, group by the grouping column, aggregate.
/// The result has the grouping column and the aggregate column, and one row per
/// group, in the order in which the groups' values first appear.
pub fn compute_query_on_dataset(dataset: &Dataset, query: &Query) -> (r: Dataset)
    requires
        query_ok(dataset@, query@),
    ensures
        r@ == query_result(dataset@, query@),
        r@.wf(),
{
    let ghost d = dataset@;
    let ghost q = query@;
    let filtered_ds = filter_dataset(dataset, query.get_filter());
    let ghost f = filtered_ds@;
    let grouped = group_by_dataset(filtered_ds, query.get_group_by());
    let ghost idx = column_position(d.columns, q.group_by);
    let ghost ks = group_keys(f.rows, idx);
    assert forall|i: int| 0 <= i < grouped@.len() implies (#[trigger] grouped@[i]).1@.wf()
        && aggregation_ok(grouped@[i].1@, q.aggregate) by {
        assert(grouped@[i].1@ == group_of(f, idx, ks[i]));
    }
    let aggregated = aggregate_dataset(grouped, query.get_aggregate());

    let group_by_column_name = query.get_group_by();
    let group_by_column_type = dataset.column_type(group_by_column_name);
    let mut columns: Vec<(String, ColumnType)> = Vec::new();
    columns.push((group_by_column_name.clone(), *group_by_column_type));
    columns.push((query.get_aggregate().get_result_column_name(), ColumnType::Integer));
    assert(columns_view(columns@) =~= query_result_columns(d, q));

    let mut result = Dataset::new(columns);
    let mut i: usize = 0;
    while i < aggregated.len()
        invariant
            i <= aggregated@.len(),
            aggregated@.len() == ks.len(),
            forall|j: int|
                0 <= j < aggregated@.len() ==> (#[trigger] aggregated@[j]).0@ == ks[j]
                    && aggregated@[j].1@ == SpecValue::Integer(
                    aggregate_value(group_of(f, idx, ks[j]), q.aggregate),
                ),
            result@.columns == query_result_columns(d, q),
            result@.rows == query_result(d, q).rows.take(i as int),
            result@.wf(),
            ks == group_keys(f.rows, idx),
            f == filtered(d, q.filter),
            idx == column_position(d.columns, q.group_by),
        decreases aggregated.len() - i,
    {
        let mut values: Vec<Value> = Vec::new();
        values.push(aggregated[i].0.duplicate());
        values.push(aggregated[i].1.duplicate());
        let row = Row::new(values);
        assert(row@ =~= query_result(d, q).rows[i as int]);
        result.add_row(row);
        assert(result@.rows =~= query_result(d, q).rows.take(i + 1));
        i = i + 1;
    }
    assert(result@.rows =~= query_result(d, q).rows);
    result
}

} // verus!
