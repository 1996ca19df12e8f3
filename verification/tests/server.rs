use course_projects::analytics::compute_query_on_dataset;
use course_projects::dataset::{ColumnType, Dataset, Row, Value};
use course_projects::query::{Aggregation, Condition, Query};
use course_projects::server::{fast_rpc, hello, slow_rpc};

fn text(s: &str) -> Value {
    Value::String(s.to_string())
}

fn sales() -> Dataset {
    let mut d = Dataset::new(vec![
        ("region".to_string(), ColumnType::String),
        ("units".to_string(), ColumnType::Integer),
        ("year".to_string(), ColumnType::Integer),
    ]);
    d.add_row(Row::new(vec![text("north"), Value::Integer(10), Value::Integer(2023)]));
    d.add_row(Row::new(vec![text("south"), Value::Integer(4), Value::Integer(2023)]));
    d.add_row(Row::new(vec![text("north"), Value::Integer(7), Value::Integer(2024)]));
    d.add_row(Row::new(vec![text("east"), Value::Integer(-2), Value::Integer(2024)]));
    d.add_row(Row::new(vec![text("south"), Value::Integer(9), Value::Integer(2024)]));
    d
}

fn all_rows(d: &Dataset) -> Vec<Vec<Value>> {
    d.rows()
        .iter()
        .map(|row| (0..row.len()).map(|k| row.get_value(k).clone()).collect())
        .collect()
}

fn query(filter: Condition, group_by: &str, aggregate: Aggregation) -> Query {
    Query::new(filter, group_by.to_string(), aggregate)
}

fn not_year(y: i32) -> Condition {
    Condition::Not(Box::new(Condition::Equal("year".to_string(), Value::Integer(y))))
}

#[test]
fn hello_greets() {
    assert_eq!(hello(), "hello");
}

#[test]
fn slow_rpc_returns_a_copy() {
    let d = sales();
    let r = slow_rpc(&d);
    assert_eq!(r.columns(), d.columns());
    assert_eq!(all_rows(&r), all_rows(&d));
}

#[test]
fn fast_rpc_sums_per_group() {
    let d = sales();
    let r = fast_rpc(&d, query(not_year(1999), "region", Aggregation::Sum("units".to_string())));
    assert_eq!(r.columns()[0].0, "region");
    assert_eq!(r.columns()[1].0, "Sum(units)");
    assert_eq!(
        all_rows(&r),
        vec![
            vec![text("north"), Value::Integer(17)],
            vec![text("south"), Value::Integer(13)],
            vec![text("east"), Value::Integer(-2)],
        ]
    );
}

#[test]
fn fast_rpc_counts_and_averages() {
    let d = sales();
    let r = fast_rpc(&d, query(not_year(2023), "year", Aggregation::Count("units".to_string())));
    assert_eq!(all_rows(&r), vec![vec![Value::Integer(2024), Value::Integer(3)]]);
    let r = fast_rpc(&d, query(not_year(2020), "year", Aggregation::Average("units".to_string())));
    assert_eq!(
        all_rows(&r),
        vec![
            vec![Value::Integer(2023), Value::Integer(7)],
            vec![Value::Integer(2024), Value::Integer(4)],
        ]
    );
}

#[test]
fn fast_rpc_agrees_with_the_library_query() {
    let d = sales();
    let filters = vec![
        not_year(2024),
        Condition::Or(
            Box::new(Condition::Equal("region".to_string(), text("east"))),
            Box::new(Condition::Equal("units".to_string(), Value::Integer(10))),
        ),
    ];
    for f in filters {
        let q1 = query(f, "region", Aggregation::Sum("units".to_string()));
        let slow = compute_query_on_dataset(&d, &q1);
        let fast = fast_rpc(&d, q1);
        assert_eq!(all_rows(&fast), all_rows(&slow));
        assert_eq!(fast.columns(), slow.columns());
    }
}
