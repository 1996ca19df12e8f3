use course_projects::analytics::{
    aggregate_dataset, compute_query_on_dataset, filter_dataset, group_by_dataset,
};
use course_projects::checks::{fast_query_is_runnable, query_is_runnable, rows_fit_columns};
use course_projects::dataset::{ColumnType, Dataset, Row, Value};
use course_projects::query::{Aggregation, Condition, Query};

fn text(s: &str) -> Value {
    Value::String(s.to_string())
}

fn people() -> Dataset {
    let mut d = Dataset::new(vec![
        ("name".to_string(), ColumnType::String),
        ("age".to_string(), ColumnType::Integer),
        ("city".to_string(), ColumnType::String),
    ]);
    d.add_row(Row::new(vec![text("Ann"), Value::Integer(30), text("Paris")]));
    d.add_row(Row::new(vec![text("Bob"), Value::Integer(25), text("Rome")]));
    d.add_row(Row::new(vec![text("Cid"), Value::Integer(41), text("Paris")]));
    d.add_row(Row::new(vec![text("Dee"), Value::Integer(30), text("Oslo")]));
    d.add_row(Row::new(vec![text("Eve"), Value::Integer(22), text("Rome")]));
    d
}

fn eq(column: &str, v: Value) -> Condition {
    Condition::Equal(column.to_string(), v)
}

fn row_values(d: &Dataset, i: usize) -> Vec<Value> {
    let row = &d.rows()[i];
    (0..row.len()).map(|k| row.get_value(k).clone()).collect()
}

#[test]
fn filter_keeps_matching_rows_in_order() {
    let d = people();
    let r = filter_dataset(&d, &eq("city", text("Paris")));
    assert_eq!(r.len(), 2);
    assert_eq!(r.columns().len(), 3);
    assert_eq!(row_values(&r, 0), vec![text("Ann"), Value::Integer(30), text("Paris")]);
    assert_eq!(row_values(&r, 1), vec![text("Cid"), Value::Integer(41), text("Paris")]);
}

#[test]
fn filter_with_not_and_or() {
    let d = people();
    let not_rome = Condition::Not(Box::new(eq("city", text("Rome"))));
    let r = filter_dataset(&d, &not_rome);
    assert_eq!(r.len(), 3);

    let both = Condition::And(
        Box::new(eq("age", Value::Integer(30))),
        Box::new(eq("city", text("Oslo"))),
    );
    let r = filter_dataset(&d, &both);
    assert_eq!(r.len(), 1);
    assert_eq!(row_values(&r, 0)[0], text("Dee"));

    let either = Condition::Or(
        Box::new(eq("name", text("Bob"))),
        Box::new(eq("age", Value::Integer(41))),
    );
    let r = filter_dataset(&d, &either);
    assert_eq!(r.len(), 2);
    assert_eq!(row_values(&r, 0)[0], text("Bob"));
    assert_eq!(row_values(&r, 1)[0], text("Cid"));
}

#[test]
fn filter_compares_type_and_content() {
    let d = people();
    // The text "30" is not the integer 30.
    let r = filter_dataset(&d, &eq("age", text("30")));
    assert_eq!(r.len(), 0);
    assert_eq!(r.columns().len(), 3);
}

#[test]
fn group_by_splits_in_order_of_first_appearance() {
    let d = people();
    let groups = group_by_dataset(d, &"city".to_string());
    assert_eq!(groups.len(), 3);
    assert_eq!(groups[0].0, text("Paris"));
    assert_eq!(groups[1].0, text("Rome"));
    assert_eq!(groups[2].0, text("Oslo"));
    assert_eq!(groups[0].1.len(), 2);
    assert_eq!(groups[1].1.len(), 2);
    assert_eq!(groups[2].1.len(), 1);
    assert_eq!(row_values(&groups[1].1, 1)[0], text("Eve"));
}

#[test]
fn group_by_partitions_every_row() {
    let d = people();
    let total = d.len();
    let groups = group_by_dataset(d, &"age".to_string());
    let sum: usize = groups.iter().map(|g| g.1.len()).sum();
    assert_eq!(sum, total);
    for i in 0..groups.len() {
        for j in 0..groups.len() {
            if i != j {
                assert_ne!(groups[i].0, groups[j].0);
            }
        }
    }
}

#[test]
fn aggregate_count_sum_average() {
    let groups = group_by_dataset(people(), &"city".to_string());
    let counts = aggregate_dataset(groups, &Aggregation::Count("name".to_string()));
    assert_eq!(counts.len(), 3);
    assert_eq!(counts[0], (text("Paris"), Value::Integer(2)));
    assert_eq!(counts[2], (text("Oslo"), Value::Integer(1)));

    let groups = group_by_dataset(people(), &"city".to_string());
    let sums = aggregate_dataset(groups, &Aggregation::Sum("age".to_string()));
    assert_eq!(sums[0], (text("Paris"), Value::Integer(71)));
    assert_eq!(sums[1], (text("Rome"), Value::Integer(47)));

    let groups = group_by_dataset(people(), &"city".to_string());
    let avgs = aggregate_dataset(groups, &Aggregation::Average("age".to_string()));
    // 71 / 2 rounds toward zero.
    assert_eq!(avgs[0], (text("Paris"), Value::Integer(35)));
    assert_eq!(avgs[1], (text("Rome"), Value::Integer(23)));
    assert_eq!(avgs[2], (text("Oslo"), Value::Integer(30)));
}

#[test]
fn average_rounds_negative_toward_zero() {
    let mut d = Dataset::new(vec![
        ("k".to_string(), ColumnType::Integer),
        ("v".to_string(), ColumnType::Integer),
    ]);
    d.add_row(Row::new(vec![Value::Integer(1), Value::Integer(-3)]));
    d.add_row(Row::new(vec![Value::Integer(1), Value::Integer(-4)]));
    let groups = group_by_dataset(d, &"k".to_string());
    let avgs = aggregate_dataset(groups, &Aggregation::Average("v".to_string()));
    assert_eq!(avgs[0].1, Value::Integer(-3));
}

#[test]
fn sum_skips_text_values() {
    let mut d = Dataset::new(vec![
        ("k".to_string(), ColumnType::String),
        ("v".to_string(), ColumnType::Integer),
    ]);
    d.add_row(Row::new(vec![text("a"), Value::Integer(5)]));
    d.add_row(Row::new(vec![text("a"), text("x")]));
    d.add_row(Row::new(vec![text("a"), Value::Integer(7)]));
    let groups = group_by_dataset(d.clone(), &"k".to_string());
    let sums = aggregate_dataset(groups, &Aggregation::Sum("v".to_string()));
    assert_eq!(sums[0].1, Value::Integer(12));
    let groups = group_by_dataset(d, &"k".to_string());
    let avgs = aggregate_dataset(groups, &Aggregation::Average("v".to_string()));
    assert_eq!(avgs[0].1, Value::Integer(6));
}

#[test]
fn whole_query_has_group_and_aggregate_columns() {
    let d = people();
    let q = Query::new(
        Condition::Not(Box::new(eq("name", text("Bob")))),
        "city".to_string(),
        Aggregation::Count("name".to_string()),
    );
    let r = compute_query_on_dataset(&d, &q);
    assert_eq!(r.columns().len(), 2);
    assert_eq!(r.columns()[0].0, "city");
    assert_eq!(r.columns()[0].1, ColumnType::String);
    assert_eq!(r.columns()[1].0, "Count(name)");
    assert_eq!(r.columns()[1].1, ColumnType::Integer);
    assert_eq!(r.len(), 3);
    assert_eq!(row_values(&r, 0), vec![text("Paris"), Value::Integer(2)]);
    assert_eq!(row_values(&r, 1), vec![text("Oslo"), Value::Integer(1)]);
    assert_eq!(row_values(&r, 2), vec![text("Rome"), Value::Integer(1)]);
}

#[test]
fn whole_query_on_no_matching_rows_is_empty() {
    let d = people();
    let q = Query::new(
        eq("city", text("Lima")),
        "age".to_string(),
        Aggregation::Sum("age".to_string()),
    );
    let r = compute_query_on_dataset(&d, &q);
    assert_eq!(r.len(), 0);
    assert_eq!(r.columns()[0].1, ColumnType::Integer);
    assert_eq!(r.columns()[1].0, "Sum(age)");
}

#[test]
fn result_column_names() {
    assert_eq!(Aggregation::Count("a".to_string()).get_result_column_name(), "Count(a)");
    assert_eq!(Aggregation::Sum("b".to_string()).get_result_column_name(), "Sum(b)");
    assert_eq!(Aggregation::Average("c".to_string()).get_result_column_name(), "Average(c)");
}

#[test]
fn dataset_lookups() {
    let d = people();
    assert_eq!(d.column_index(&"city".to_string()), 2);
    assert_eq!(*d.column_type(&"age".to_string()), ColumnType::Integer);
    let copy = d.duplicate();
    assert_eq!(copy.len(), d.len());
    assert_eq!(row_values(&copy, 4), row_values(&d, 4));
}

#[test]
fn runnable_queries_are_recognised() {
    let d = people();
    let ok = Query::new(eq("city", text("Paris")), "city".to_string(), Aggregation::Sum("age".to_string()));
    assert!(query_is_runnable(&d, &ok));
    assert!(fast_query_is_runnable(&d, &ok));
    // a missing column
    let missing = Query::new(eq("town", text("Paris")), "city".to_string(), Aggregation::Count("age".to_string()));
    assert!(!query_is_runnable(&d, &missing));
    let missing_group = Query::new(eq("city", text("Paris")), "town".to_string(), Aggregation::Count("age".to_string()));
    assert!(!fast_query_is_runnable(&d, &missing_group));
    // an average over text: the pipeline finds no integer to divide by, the fast path refuses text
    let text_avg = Query::new(eq("city", text("Paris")), "city".to_string(), Aggregation::Average("name".to_string()));
    assert!(!query_is_runnable(&d, &text_avg));
    assert!(!fast_query_is_runnable(&d, &text_avg));
    // a sum over text: the pipeline skips text, the fast path refuses it
    let text_sum = Query::new(eq("city", text("Paris")), "city".to_string(), Aggregation::Sum("name".to_string()));
    assert!(query_is_runnable(&d, &text_sum));
    assert!(!fast_query_is_runnable(&d, &text_sum));
}

#[test]
fn overflowing_sums_are_not_runnable() {
    let mut d = Dataset::new(vec![
        ("k".to_string(), ColumnType::Integer),
        ("v".to_string(), ColumnType::Integer),
    ]);
    d.add_row(Row::new(vec![Value::Integer(1), Value::Integer(i32::MAX)]));
    d.add_row(Row::new(vec![Value::Integer(1), Value::Integer(1)]));
    let q = Query::new(
        Condition::Not(Box::new(eq("k", Value::Integer(0)))),
        "k".to_string(),
        Aggregation::Sum("v".to_string()),
    );
    assert!(!query_is_runnable(&d, &q));
    // in separate groups the same values fit
    let q = Query::new(
        Condition::Not(Box::new(eq("k", Value::Integer(0)))),
        "v".to_string(),
        Aggregation::Sum("v".to_string()),
    );
    assert!(query_is_runnable(&d, &q));
}

#[test]
fn short_rows_are_detected() {
    let mut d = people();
    assert!(rows_fit_columns(&d));
    d.add_row(Row::new(vec![text("Fay")]));
    assert!(!rows_fit_columns(&d));
    let q = Query::new(eq("city", text("Paris")), "city".to_string(), Aggregation::Count("age".to_string()));
    assert!(!query_is_runnable(&d, &q));
}

#[test]
fn filtering_twice_is_filtering_by_both() {
    let d = people();
    let c1 = Condition::Not(Box::new(eq("city", text("Rome"))));
    let c2 = eq("age", Value::Integer(30));
    let twice = filter_dataset(&filter_dataset(&d, &c1), &c2);
    let both = filter_dataset(&d, &Condition::And(Box::new(c1), Box::new(c2)));
    assert_eq!(twice.len(), 2);
    assert_eq!(twice.len(), both.len());
    for i in 0..twice.len() {
        assert_eq!(row_values(&twice, i), row_values(&both, i));
    }
    let c = eq("city", text("Paris"));
    let once = filter_dataset(&d, &c);
    let again = filter_dataset(&once, &c);
    assert_eq!(once.len(), again.len());
}

#[test]
fn a_condition_and_its_negation_split_the_rows() {
    let d = people();
    let c = Condition::Or(Box::new(eq("city", text("Rome"))), Box::new(eq("age", Value::Integer(41))));
    let yes = filter_dataset(&d, &c);
    let no = filter_dataset(&d, &Condition::Not(Box::new(c)));
    assert_eq!(yes.len() + no.len(), d.len());
    assert_eq!(yes.len(), 3);
}

#[test]
fn each_group_is_an_equality_filter() {
    let d = people();
    let groups = group_by_dataset(d.clone(), &"city".to_string());
    for (key, group) in groups.iter() {
        let f = filter_dataset(&d, &eq("city", key.clone()));
        assert_eq!(f.len(), group.len());
        for i in 0..f.len() {
            assert_eq!(row_values(&f, i), row_values(group, i));
        }
    }
    assert_eq!(filter_dataset(&d, &eq("city", text("Lima"))).len(), 0);
}

#[test]
fn merging_a_split_by_position_gives_the_rows_back() {
    let d = people();
    let c = eq("age", Value::Integer(30));
    let yes = filter_dataset(&d, &c);
    let no = filter_dataset(&d, &Condition::Not(Box::new(eq("age", Value::Integer(30)))));
    let (mut a, mut b) = (0, 0);
    for i in 0..d.len() {
        let row = row_values(&d, i);
        if row[1] == Value::Integer(30) {
            assert_eq!(row_values(&yes, a), row);
            a += 1;
        } else {
            assert_eq!(row_values(&no, b), row);
            b += 1;
        }
    }
    assert_eq!((a, b), (yes.len(), no.len()));
}
