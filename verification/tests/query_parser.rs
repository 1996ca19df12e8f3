use course_projects::dataset::Value;
use course_projects::query::{Aggregation, Condition};
use course_projects::query_parser::{parse_query_from_string, try_parse_query};

fn is_equal(c: &Condition, column: &str, v: &Value) -> bool {
    match c {
        Condition::Equal(name, value) => name == column && value == v,
        _ => false,
    }
}

#[test]
fn parses_a_simple_query() {
    let q = try_parse_query("FILTER name == \"Ann\" GROUP BY city COUNT name").unwrap();
    assert!(is_equal(q.get_filter(), "name", &Value::String("Ann".to_string())));
    assert_eq!(q.get_group_by(), "city");
    match q.get_aggregate() {
        Aggregation::Count(c) => assert_eq!(c, "name"),
        other => panic!("unexpected aggregation {:?}", other),
    }
}

#[test]
fn parses_integers_and_trims_spaces() {
    let q = try_parse_query("   FILTER age ==   -42   GROUP BY   city   SUM   age  ").unwrap();
    assert!(is_equal(q.get_filter(), "age", &Value::Integer(-42)));
    assert_eq!(q.get_group_by(), "city");
    match q.get_aggregate() {
        Aggregation::Sum(c) => assert_eq!(c, "age"),
        other => panic!("unexpected aggregation {:?}", other),
    }
}

#[test]
fn or_binds_looser_than_and() {
    let q = try_parse_query("FILTER a == 1 AND b == 2 OR c == 3 GROUP BY a AVERAGE b").unwrap();
    match q.get_filter() {
        Condition::Or(l, r) => {
            match &**l {
                Condition::And(x, y) => {
                    assert!(is_equal(x, "a", &Value::Integer(1)));
                    assert!(is_equal(y, "b", &Value::Integer(2)));
                },
                other => panic!("unexpected left side {:?}", other),
            }
            assert!(is_equal(r, "c", &Value::Integer(3)));
        },
        other => panic!("unexpected condition {:?}", other),
    }
    match q.get_aggregate() {
        Aggregation::Average(c) => assert_eq!(c, "b"),
        other => panic!("unexpected aggregation {:?}", other),
    }
}

#[test]
fn parentheses_and_negation() {
    let q = try_parse_query(
        "FILTER (a == 1 OR b == \"x y\") AND !(c == 2) GROUP BY c COUNT a",
    )
    .unwrap();
    match q.get_filter() {
        Condition::And(l, r) => {
            match &**l {
                Condition::Or(x, y) => {
                    assert!(is_equal(x, "a", &Value::Integer(1)));
                    assert!(is_equal(y, "b", &Value::String("x y".to_string())));
                },
                other => panic!("unexpected left side {:?}", other),
            }
            match &**r {
                Condition::Not(inner) => assert!(is_equal(inner, "c", &Value::Integer(2))),
                other => panic!("unexpected right side {:?}", other),
            }
        },
        other => panic!("unexpected condition {:?}", other),
    }
}

#[test]
fn outer_parentheses_are_dropped() {
    let q = try_parse_query("FILTER (a == 1) GROUP BY a COUNT a").unwrap();
    assert!(is_equal(q.get_filter(), "a", &Value::Integer(1)));
    // only one pair is dropped: the rest reads as the column `(a` and the value `1)`
    assert!(try_parse_query("FILTER ((a == 1)) GROUP BY a COUNT a").is_none());
}

#[test]
fn rejects_malformed_queries() {
    // no GROUP BY
    assert!(try_parse_query("FILTER a == 1").is_none());
    // no FILTER prefix
    assert!(try_parse_query("WHERE a == 1 GROUP BY a COUNT a").is_none());
    // unknown aggregation
    assert!(try_parse_query("FILTER a == 1 GROUP BY a MAX a").is_none());
    // wrong number of words after GROUP BY
    assert!(try_parse_query("FILTER a == 1 GROUP BY a COUNT").is_none());
    assert!(try_parse_query("FILTER a == 1 GROUP BY a COUNT a b").is_none());
    // a value that is neither quoted text nor an i32
    assert!(try_parse_query("FILTER a == abc GROUP BY a COUNT a").is_none());
    assert!(try_parse_query("FILTER a == 99999999999 GROUP BY a COUNT a").is_none());
    // no comparison
    assert!(try_parse_query("FILTER a GROUP BY a COUNT a").is_none());
}

#[test]
fn parse_query_from_string_reads_a_valid_query() {
    let q = parse_query_from_string("FILTER x == 7 GROUP BY y SUM x".to_string());
    assert!(is_equal(q.get_filter(), "x", &Value::Integer(7)));
    assert_eq!(q.get_group_by(), "y");
}

#[test]
fn surrounding_space_does_not_matter() {
    let plain = "FILTER a == \"x\" GROUP BY a COUNT a";
    let padded = " \t\n FILTER a == \"x\" GROUP BY a COUNT a \r\n ";
    let p = try_parse_query(plain).unwrap();
    let q = try_parse_query(padded).unwrap();
    assert!(is_equal(p.get_filter(), "a", &Value::String("x".to_string())));
    assert!(is_equal(q.get_filter(), "a", &Value::String("x".to_string())));
    assert_eq!(p.get_group_by(), q.get_group_by());
    assert!(try_parse_query("  FILTER a GROUP BY a COUNT a  ").is_none());
}

#[test]
fn fully_parenthesised_conditions_read_back() {
    let q = try_parse_query(
        "FILTER (a == -5) OR (!(b == \"x=y\")) GROUP BY a SUM a",
    )
    .unwrap();
    match q.get_filter() {
        Condition::Or(l, r) => {
            assert!(is_equal(l, "a", &Value::Integer(-5)));
            match &**r {
                Condition::Not(inner) => assert!(is_equal(inner, "b", &Value::String("x=y".to_string()))),
                other => panic!("unexpected right side {:?}", other),
            }
        },
        other => panic!("unexpected condition {:?}", other),
    }
    let q = try_parse_query("FILTER (GROUP == 1) AND (b == 2) GROUP BY GROUP COUNT b").unwrap();
    assert_eq!(q.get_group_by(), "GROUP");
    match q.get_filter() {
        Condition::And(l, _) => assert!(is_equal(l, "GROUP", &Value::Integer(1))),
        other => panic!("unexpected condition {:?}", other),
    }
}

#[test]
fn quoted_text_may_hold_spaces() {
    let q = try_parse_query(
        "FILTER (a == \"x  y \") OR (b == \" GROUP\") GROUP BY a COUNT a",
    )
    .unwrap();
    match q.get_filter() {
        Condition::Or(l, r) => {
            assert!(is_equal(l, "a", &Value::String("x  y ".to_string())));
            assert!(is_equal(r, "b", &Value::String(" GROUP".to_string())));
        },
        other => panic!("unexpected condition {:?}", other),
    }
    assert_eq!(q.get_group_by(), "a");
}
