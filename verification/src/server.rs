//! The computations behind the analytics service's remote calls.
use vstd::prelude::*;
use crate::analytics::{
    aggregate_value, aggregation_ok, collect_keys, cond_columns_exist, cond_matches, cond_pred,
    count_ints, filtered, group_keys, group_of, int_at, key_pred, is_int_at, lemma_filter_elements,
    lemma_filter_step, lemma_take_all, lemma_take_step, query_ok, query_result,
    query_result_columns, select_rows, sum_and_count, sum_ints, sums_fit, trunc_div,
};
use crate::dataset::{
    ColumnType, Dataset, Row, SpecDataset, SpecValue, Value, column_position, columns_view,
    copy_columns, has_column, rows_view,
};
use crate::query::{Aggregation, Condition, Query, SpecAggregation, SpecQuery};

verus! {

/// Every row holds an integer at `idx`.
pub open spec fn all_ints(rows: Seq<Seq<SpecValue>>, idx: int) -> bool {
    forall|j: int| 0 <= j < rows.len() ==> is_int_at(#[trigger] rows[j], idx)
}

/// The fast path can aggregate the group `g`: the column exists, holds only
/// integers, the running sum fits in `i32`, and the division is defined.
pub open spec fn fast_aggregation_ok(g: SpecDataset, a: SpecAggregation) -> bool {
    match a {
        SpecAggregation::Count(_) => true,
        SpecAggregation::Sum(c) => {
            &&& has_column(g.columns, c)
            &&& all_ints(g.rows, column_position(g.columns, c))
            &&& sums_fit(g.rows, column_position(g.columns, c))
        },
        SpecAggregation::Average(c) => {
            &&& has_column(g.columns, c)
            &&& all_ints(g.rows, column_position(g.columns, c))
            &&& sums_fit(g.rows, column_position(g.columns, c))
            &&& (g.rows.len() as i32) != 0
            &&& !(sum_ints(g.rows, column_position(g.columns, c)) == i32::MIN && (g.rows.len() as i32)
                == -1)
        },
    }
}

/// The fast path's aggregate of a group: the number of rows, the sum of the
/// column, or that sum divided by the number of rows.
pub open spec fn fast_aggregate_value(g: SpecDataset, a: SpecAggregation) -> i32 {
    match a {
        SpecAggregation::Count(_) => g.rows.len() as i32,
        SpecAggregation::Sum(c) => sum_ints(g.rows, column_position(g.columns, c)) as i32,
        SpecAggregation::Average(c) => trunc_div(
            sum_ints(g.rows, column_position(g.columns, c)),
            (g.rows.len() as i32) as int,
        ) as i32,
    }
}

/// The fast path can run the query on `d`.
pub open spec fn fast_query_ok(d: SpecDataset, q: SpecQuery) -> bool {
    let f = filtered(d, q.filter);
    let idx = column_position(d.columns, q.group_by);
    &&& d.wf()
    &&& cond_columns_exist(d.columns, q.filter)
    &&& has_column(d.columns, q.group_by)
    &&& forall|i: int|
        0 <= i < group_keys(f.rows, idx).len() ==> fast_aggregation_ok(
            group_of(f, idx, #[trigger] group_keys(f.rows, idx)[i]),
            q.aggregate,
        )
}

/// The fast path's result: one row per group, in order of first appearance.
pub open spec fn fast_query_result(d: SpecDataset, q: SpecQuery) -> SpecDataset {
    let f = filtered(d, q.filter);
    let idx = column_position(d.columns, q.group_by);
    let ks = group_keys(f.rows, idx);
    SpecDataset {
        columns: query_result_columns(d, q),
        rows: Seq::new(
            ks.len(),
            |i: int|
                seq![
                    ks[i],
                    SpecValue::Integer(fast_aggregate_value(group_of(f, idx, ks[i]), q.aggregate)),
                ],
        ),
    }
}

/// The greeting of the service.
pub fn hello() -> (r: String)
    ensures
        r@ == "hello"@,
{
    String::from_str("hello")
}

/// The slow call: the dataset itself, copied.
pub fn slow_rpc(input_dataset: &Dataset) -> (r: Dataset)
    ensures
        r@ == input_dataset@,
{
    input_dataset.duplicate()
}

/// Whether `row` satisfies `condition`, reading columns by name in `dataset`.
fn evaluate_condition(row: &Row, condition: &Condition, dataset: &Dataset) -> (r: bool)
    requires
        row@.len() == dataset@.columns.len(),
        cond_columns_exist(dataset@.columns, condition@),
    ensures
        r == cond_matches(dataset@.columns, row@, condition@),
    decreases condition,
{
    match condition {
        Condition::Equal(col_name, value) => {
            let index = dataset.column_index(col_name);
            row.get_value(index).same_value(value)
        },
        Condition::Not(inner) => !evaluate_condition(row, inner, dataset),
        Condition::And(left, right) => {
            evaluate_condition(row, left, dataset) && evaluate_condition(row, right, dataset)
        },
        Condition::Or(left, right) => {
            evaluate_condition(row, left, dataset) || evaluate_condition(row, right, dataset)
        },
    }
}

/// The aggregate of the rows of one group; the column is looked up in `dataset`.
fn apply_aggregation(rows: &Vec<Row>, aggregation: &Aggregation, dataset: &Dataset) -> (r: i32)
    requires
        fast_aggregation_ok(
            SpecDataset { columns: dataset@.columns, rows: rows_view(rows@) },
            aggregation@,
        ),
        forall|j: int| 0 <= j < rows@.len() ==> (#[trigger] rows@[j])@.len() == dataset@.columns.len(),
    ensures
        r == fast_aggregate_value(
            SpecDataset { columns: dataset@.columns, rows: rows_view(rows@) },
            aggregation@,
        ),
{
    let ghost all = rows_view(rows@);
    assert(all.len() == rows@.len());
    match aggregation {
        Aggregation::Count(_) => {
            let n: usize = rows.len();
            assert(n as int == all.len());
            #[verifier::truncate] (n as i32)
        },
        Aggregation::Sum(col_name) => {
            let index = dataset.column_index(col_name);
            sum_and_count(rows, index, dataset.columns().len()).0
        },
        Aggregation::Average(col_name) => {
            let index = dataset.column_index(col_name);
            let sum: i32 = sum_and_count(rows, index, dataset.columns().len()).0;
            let n = #[verifier::truncate] (rows.len() as i32);
            proof {
                crate::analytics::lemma_trunc_div_in_range(sum as int, n as int);
            }
            match sum.checked_div(n) {
                Some(q) => q,
                None => 0,
            }
        },
    }
}

/// Runs `query` on `input_dataset` in one pass over its rows: filter, group,
/// aggregate. Sums and averages read only integer columns.
pub fn fast_rpc(input_dataset: &Dataset, query: Query) -> (r: Dataset)
    requires
        fast_query_ok(input_dataset@, query@),
    ensures
        r@ == fast_query_result(input_dataset@, query@),
        r@.wf(),
{
    let ghost d = input_dataset@;
    let ghost q = query@;
    let condition = query.get_filter();

    // The rows that satisfy the condition.
    let mut filtered_rows = Dataset::new(copy_columns(input_dataset.columns()));
    let rows = input_dataset.rows();
    let ghost pred = cond_pred(d.columns, q.filter);
    let mut i: usize = 0;
    while i < rows.len()
        invariant
            i <= rows@.len(),
            rows_view(rows@) == d.rows,
            d == input_dataset@,
            q == query@,
            condition@ == q.filter,
            d.wf(),
            cond_columns_exist(d.columns, q.filter),
            pred == cond_pred(d.columns, q.filter),
            filtered_rows@.columns == d.columns,
            filtered_rows@.rows == d.rows.take(i as int).filter(pred),
            filtered_rows@.wf(),
        decreases rows.len() - i,
    {
        assert(d.rows[i as int] == rows@[i as int]@);
        proof {
            lemma_filter_step(d.rows, pred, i as int);
        }
        if evaluate_condition(&rows[i], condition, input_dataset) {
            filtered_rows.add_row(rows[i].duplicate());
        }
        i = i + 1;
    }
    proof {
        lemma_take_all(d.rows);
    }
    let ghost f = filtered_rows@;
    assert(f == filtered(d, q.filter));

    // The groups.
    let group_by_col = query.get_group_by();
    let group_by_index = input_dataset.column_index(group_by_col);
    let keys = collect_keys(&filtered_rows, group_by_index);
    let ghost ks = group_keys(f.rows, group_by_index as int);

    let aggregation = query.get_aggregate();
    let agg_col_name = aggregation.get_result_column_name();
    let mut columns: Vec<(String, ColumnType)> = Vec::new();
    columns.push((group_by_col.clone(), *input_dataset.column_type(group_by_col)));
    columns.push((agg_col_name, ColumnType::Integer));
    assert(columns_view(columns@) =~= query_result_columns(d, q));
    let mut result = Dataset::new(columns);

    let mut k: usize = 0;
    while k < keys.len()
        invariant
            k <= keys@.len(),
            keys@.len() == ks.len(),
            forall|j: int| 0 <= j < keys@.len() ==> (#[trigger] keys@[j])@ == ks[j],
            ks == group_keys(f.rows, group_by_index as int),
            group_by_index == column_position(d.columns, q.group_by),
            group_by_index < d.columns.len(),
            f == filtered(d, q.filter),
            f.wf(),
            filtered_rows@ == f,
            d == input_dataset@,
            q == query@,
            aggregation@ == q.aggregate,
            fast_query_ok(d, q),
            result@.columns == query_result_columns(d, q),
            result@.rows == fast_query_result(d, q).rows.take(k as int),
            result@.wf(),
        decreases keys.len() - k,
    {
        assert(keys@[k as int]@ == ks[k as int]);
        let group = select_rows(&filtered_rows, group_by_index, &keys[k]);
        let ghost g = group_of(f, group_by_index as int, ks[k as int]);
        assert(group@ == g);
        assert(fast_aggregation_ok(g, q.aggregate));
        let group_rows = group.rows();
        assert(forall|j: int| 0 <= j < group_rows@.len() ==> (#[trigger] group_rows@[j])@ == g.rows[j]);
        let agg_value = apply_aggregation(group_rows, aggregation, input_dataset);
        let mut values: Vec<Value> = Vec::new();
        values.push(keys[k].duplicate());
        values.push(Value::Integer(agg_value));
        let row = Row::new(values);
        assert(row@ =~= fast_query_result(d, q).rows[k as int]);
        result.add_row(row);
        assert(result@.rows =~= fast_query_result(d, q).rows.take(k + 1));
        k = k + 1;
    }
    assert(result@.rows =~= fast_query_result(d, q).rows);
    result
}

// ---------------------------------------------------------------------------
// The fast path and the query pipeline agree
// ---------------------------------------------------------------------------

/// The aggregated column holds only integers in every row that passes the filter.
pub open spec fn aggregated_column_is_integer(d: SpecDataset, q: SpecQuery) -> bool {
    match q.aggregate {
        SpecAggregation::Count(_) => true,
        SpecAggregation::Sum(c) => all_ints(
            filtered(d, q.filter).rows,
            column_position(d.columns, c),
        ),
        SpecAggregation::Average(c) => all_ints(
            filtered(d, q.filter).rows,
            column_position(d.columns, c),
        ),
    }
}

proof fn lemma_count_all_ints(rows: Seq<Seq<SpecValue>>, idx: int)
    requires
        all_ints(rows, idx),
    ensures
        count_ints(rows, idx) == rows.len(),
    decreases rows.len(),
{
    if rows.len() > 0 {
        assert(is_int_at(rows[rows.len() - 1], idx));
        assert(all_ints(rows.drop_last(), idx)) by {
            assert forall|j: int| 0 <= j < rows.drop_last().len() implies is_int_at(
                #[trigger] rows.drop_last()[j],
                idx,
            ) by {
                assert(rows.drop_last()[j] == rows[j]);
            }
        }
        lemma_count_all_ints(rows.drop_last(), idx);
    }
}

proof fn lemma_all_ints_filter(rows: Seq<Seq<SpecValue>>, idx: int, pred: spec_fn(Seq<SpecValue>) -> bool)
    requires
        all_ints(rows, idx),
    ensures
        all_ints(rows.filter(pred), idx),
{
    lemma_filter_elements(rows, pred);
    assert forall|j: int| 0 <= j < rows.filter(pred).len() implies is_int_at(
        #[trigger] rows.filter(pred)[j],
        idx,
    ) by {
        assert(rows.contains(rows.filter(pred)[j]));
        let w = choose|w: int| 0 <= w < rows.len() && rows[w] == rows.filter(pred)[j];
        assert(is_int_at(rows[w], idx));
    }
}

/// When the aggregated column holds only integers in the filtered rows, the
/// fast path accepts every query that the query pipeline accepts, and both
/// give the same dataset.
pub proof fn fast_rpc_agrees_with_query(d: SpecDataset, q: SpecQuery)
    requires
        query_ok(d, q),
        aggregated_column_is_integer(d, q),
    ensures
        fast_query_ok(d, q),
        fast_query_result(d, q) == query_result(d, q),
{
    let f = filtered(d, q.filter);
    let idx = column_position(d.columns, q.group_by);
    let ks = group_keys(f.rows, idx);
    assert forall|i: int| 0 <= i < ks.len() implies fast_aggregation_ok(
        group_of(f, idx, #[trigger] ks[i]),
        q.aggregate,
    ) && fast_aggregate_value(group_of(f, idx, ks[i]), q.aggregate) == aggregate_value(
        group_of(f, idx, ks[i]),
        q.aggregate,
    ) by {
        let g = group_of(f, idx, ks[i]);
        assert(aggregation_ok(g, q.aggregate));
        match q.aggregate {
            SpecAggregation::Count(_) => {},
            SpecAggregation::Sum(c) => {
                lemma_all_ints_filter(f.rows, column_position(d.columns, c), key_pred(idx, ks[i]));
            },
            SpecAggregation::Average(c) => {
                let ci = column_position(d.columns, c);
                lemma_all_ints_filter(f.rows, ci, key_pred(idx, ks[i]));
                lemma_count_all_ints(g.rows, ci);
            },
        }
    }
    let r1 = fast_query_result(d, q);
    let r2 = query_result(d, q);
    assert(r1.rows =~= r2.rows);
}

} // verus!
