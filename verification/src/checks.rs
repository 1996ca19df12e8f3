//! Deciding whether a query can be run on a dataset: whether its columns
//! exist and whether every group can be aggregated without an overflow or a
//! division by zero.
use vstd::prelude::*;
use crate::analytics::{
    aggregation_ok, collect_keys, cond_columns_exist, count_ints, filter_dataset, filtered,
    group_keys, group_of, is_int_at, lemma_count_bound, lemma_sum_step, lemma_take_all, query_ok,
    select_rows, sum_and_count, sum_ints, sums_fit,
};
use crate::dataset::{Dataset, SpecValue, Value, column_position, has_column, rows_view, values_view};
use crate::query::{Aggregation, Condition, Query};
use crate::server::{all_ints, fast_aggregation_ok, fast_query_ok};

verus! {

/// Whether every row holds one value per column.
pub fn rows_fit_columns(dataset: &Dataset) -> (r: bool)
    ensures
        r == dataset@.wf(),
{
    let rows = dataset.rows();
    let n = dataset.columns().len();
    let mut i: usize = 0;
    while i < rows.len()
        invariant
            i <= rows@.len(),
            rows_view(rows@) == dataset@.rows,
            n == dataset@.columns.len(),
            forall|j: int| 0 <= j < i ==> (#[trigger] dataset@.rows[j]).len() == n,
        decreases rows.len() - i,
    {
        assert(dataset@.rows[i as int] == rows@[i as int]@);
        if rows[i].len() != n {
            return false;
        }
        i = i + 1;
    }
    true
}

/// Whether some column carries the given name.
pub fn column_exists(dataset: &Dataset, name: &String) -> (r: bool)
    ensures
        r == has_column(dataset@.columns, name@),
{
    let columns = dataset.columns();
    let mut i: usize = 0;
    while i < columns.len()
        invariant
            i <= columns@.len(),
            crate::dataset::columns_view(columns@) == dataset@.columns,
            forall|j: int| 0 <= j < i ==> (#[trigger] dataset@.columns[j]).0 != name@,
        decreases columns.len() - i,
    {
        assert(dataset@.columns[i as int].0 == columns@[i as int].0@);
        if columns[i].0 == *name {
            return true;
        }
        i = i + 1;
    }
    false
}

/// Whether every column that the condition names exists.
pub fn condition_columns_exist(dataset: &Dataset, condition: &Condition) -> (r: bool)
    ensures
        r == cond_columns_exist(dataset@.columns, condition@),
    decreases condition,
{
    match condition {
        Condition::Equal(name, _) => column_exists(dataset, name),
        Condition::Not(inner) => condition_columns_exist(dataset, inner),
        Condition::And(left, right) => condition_columns_exist(dataset, left)
            && condition_columns_exist(dataset, right),
        Condition::Or(left, right) => condition_columns_exist(dataset, left)
            && condition_columns_exist(dataset, right),
    }
}

/// Whether every running total of column `idx`, taken in row order, fits in an `i32`.
fn running_sums_fit(dataset: &Dataset, idx: usize) -> (r: bool)
    requires
        dataset@.wf(),
        idx < dataset@.columns.len(),
    ensures
        r == sums_fit(dataset@.rows, idx as int),
{
    let rows = dataset.rows();
    let ghost all = dataset@.rows;
    let mut sum: i64 = 0;
    let mut j: usize = 0;
    proof {
        assert(all.take(0) =~= Seq::<Seq<SpecValue>>::empty());
    }
    while j < rows.len()
        invariant
            j <= rows@.len(),
            rows_view(rows@) == all,
            all == dataset@.rows,
            dataset@.wf(),
            idx < dataset@.columns.len(),
            sum == sum_ints(all.take(j as int), idx as int),
            forall|k: int|
                0 <= k <= j ==> i32::MIN <= #[trigger] sum_ints(all.take(k), idx as int)
                    <= i32::MAX,
        decreases rows.len() - j,
    {
        assert(all[j as int] == rows@[j as int]@);
        proof {
            lemma_sum_step(all, idx as int, j as int);
        }
        match rows[j].get_value(idx) {
            Value::Integer(value) => {
                sum = sum + *value as i64;
            },
            Value::String(_) => {},
        }
        if sum < i32::MIN as i64 || sum > i32::MAX as i64 {
            assert(!(i32::MIN <= sum_ints(all.take(j + 1), idx as int) <= i32::MAX));
            return false;
        }
        j = j + 1;
    }
    true
}

/// How many rows hold an integer in column `idx`.
fn integer_count(dataset: &Dataset, idx: usize) -> (r: usize)
    requires
        dataset@.wf(),
        idx < dataset@.columns.len(),
    ensures
        r == count_ints(dataset@.rows, idx as int),
{
    let rows = dataset.rows();
    let ghost all = dataset@.rows;
    let mut count: usize = 0;
    let mut j: usize = 0;
    proof {
        assert(all.take(0) =~= Seq::<Seq<SpecValue>>::empty());
    }
    while j < rows.len()
        invariant
            j <= rows@.len(),
            rows_view(rows@) == all,
            all == dataset@.rows,
            dataset@.wf(),
            idx < dataset@.columns.len(),
            count == count_ints(all.take(j as int), idx as int),
            count <= j,
        decreases rows.len() - j,
    {
        assert(all[j as int] == rows@[j as int]@);
        proof {
            lemma_sum_step(all, idx as int, j as int);
        }
        match rows[j].get_value(idx) {
            Value::Integer(_) => {
                count = count + 1;
            },
            Value::String(_) => {},
        }
        j = j + 1;
    }
    proof {
        lemma_take_all(all);
    }
    count
}

/// Whether every row holds an integer in column `idx`.
fn only_integers(dataset: &Dataset, idx: usize) -> (r: bool)
    requires
        dataset@.wf(),
        idx < dataset@.columns.len(),
    ensures
        r == all_ints(dataset@.rows, idx as int),
{
    let rows = dataset.rows();
    let mut j: usize = 0;
    while j < rows.len()
        invariant
            j <= rows@.len(),
            rows_view(rows@) == dataset@.rows,
            dataset@.wf(),
            idx < dataset@.columns.len(),
            forall|k: int| 0 <= k < j ==> is_int_at(#[trigger] dataset@.rows[k], idx as int),
        decreases rows.len() - j,
    {
        assert(dataset@.rows[j as int] == rows@[j as int]@);
        match rows[j].get_value(idx) {
            Value::Integer(_) => {},
            Value::String(_) => {
                assert(!is_int_at(dataset@.rows[j as int], idx as int));
                return false;
            },
        }
        j = j + 1;
    }
    true
}

/// Whether the aggregation can be computed on the group as the query
/// pipeline computes it (see [`aggregation_ok`]).
fn group_can_be_aggregated(group: &Dataset, aggregation: &Aggregation) -> (r: bool)
    requires
        group@.wf(),
    ensures
        r == aggregation_ok(group@, aggregation@),
{
    match aggregation {
        Aggregation::Count(_) => true,
        Aggregation::Sum(column) => {
            if !column_exists(group, column) {
                return false;
            }
            let idx = group.column_index(column);
            running_sums_fit(group, idx)
        },
        Aggregation::Average(column) => {
            if !column_exists(group, column) {
                return false;
            }
            let idx = group.column_index(column);
            if !running_sums_fit(group, idx) {
                return false;
            }
            let count = integer_count(group, idx);
            0 < count && count <= i32::MAX as usize
        },
    }
}

/// Whether the aggregation can be computed on the group as the fast path
/// computes it (see [`fast_aggregation_ok`]).
fn group_can_be_aggregated_fast(group: &Dataset, aggregation: &Aggregation) -> (r: bool)
    requires
        group@.wf(),
    ensures
        r == fast_aggregation_ok(group@, aggregation@),
{
    match aggregation {
        Aggregation::Count(_) => true,
        Aggregation::Sum(column) => {
            if !column_exists(group, column) {
                return false;
            }
            let idx = group.column_index(column);
            only_integers(group, idx) && running_sums_fit(group, idx)
        },
        Aggregation::Average(column) => {
            if !column_exists(group, column) {
                return false;
            }
            let idx = group.column_index(column);
            if !(only_integers(group, idx) && running_sums_fit(group, idx)) {
                return false;
            }
            let ghost all = group@.rows;
            let n = #[verifier::truncate] (group.len() as i32);
            if n == 0 {
                return false;
            }
            if n == -1 {
                proof {
                    lemma_take_all(all);
                }
                let sum = sum_and_count(group.rows(), idx, group.columns().len()).0;
                return sum != i32::MIN;
            }
            true
        },
    }
}

/// Whether [`crate::analytics::compute_query_on_dataset`] can run `query`
/// on `dataset` (see [`query_ok`]).
pub fn query_is_runnable(dataset: &Dataset, query: &Query) -> (r: bool)
    ensures
        r == query_ok(dataset@, query@),
{
    runnable(dataset, query, false)
}

/// Whether [`crate::server::fast_rpc`] can run `query` on `dataset` (see
/// [`fast_query_ok`]).
pub fn fast_query_is_runnable(dataset: &Dataset, query: &Query) -> (r: bool)
    ensures
        r == fast_query_ok(dataset@, query@),
{
    runnable(dataset, query, true)
}

/// The checks of both paths; `fast` picks which aggregation rules apply.
fn runnable(dataset: &Dataset, query: &Query, fast: bool) -> (r: bool)
    ensures
        fast ==> r == fast_query_ok(dataset@, query@),
        !fast ==> r == query_ok(dataset@, query@),
{
    let ghost d = dataset@;
    let ghost q = query@;
    if !rows_fit_columns(dataset) {
        return false;
    }
    if !condition_columns_exist(dataset, query.get_filter()) {
        return false;
    }
    if !column_exists(dataset, query.get_group_by()) {
        return false;
    }
    let f = filter_dataset(dataset, query.get_filter());
    let idx = dataset.column_index(query.get_group_by());
    let keys = collect_keys(&f, idx);
    let ghost ks = group_keys(f@.rows, idx as int);
    let mut i: usize = 0;
    while i < keys.len()
        invariant
            i <= keys@.len(),
            values_view(keys@) == ks,
            ks == group_keys(f@.rows, idx as int),
            f@ == filtered(d, q.filter),
            f@.wf(),
            idx == column_position(d.columns, q.group_by),
            idx < d.columns.len(),
            f@.columns == d.columns,
            d == dataset@,
            q == query@,
            fast ==> forall|j: int|
                0 <= j < i ==> fast_aggregation_ok(
                    group_of(f@, idx as int, #[trigger] ks[j]),
                    q.aggregate,
                ),
            !fast ==> forall|j: int|
                0 <= j < i ==> aggregation_ok(group_of(f@, idx as int, #[trigger] ks[j]), q.aggregate),
        decreases keys.len() - i,
    {
        assert(ks[i as int] == keys@[i as int]@);
        let group = select_rows(&f, idx, &keys[i]);
        let ok = if fast {
            group_can_be_aggregated_fast(&group, query.get_aggregate())
        } else {
            group_can_be_aggregated(&group, query.get_aggregate())
        };
        if !ok {
            return false;
        }
        i = i + 1;
    }
    true
}

} // verus!
