use rust_projects::analytics::dataset::{ColumnType, Dataset, Row, Value};
use rust_projects::analytics::parse::{parse_query_from_string, try_parse_query_from_string};
use rust_projects::analytics::query::{Aggregation, Condition, Query};
use rust_projects::analytics::server::fast_rpc;
use rust_projects::analytics::solution::{
    aggregate_dataset, compute_query_on_dataset, filter_dataset, group_by_dataset,
    query_can_run, row_matches_filter,
};

fn text(s: &str) -> Value {
    Value::String(s.to_string())
}

fn people() -> Dataset {
    let mut d = Dataset::new(vec![
        ("name".to_string(), ColumnType::String),
        ("age".to_string(), ColumnType::Integer),
        ("city".to_string(), ColumnType::String),
    ]);
    d.add_row(Row::new(vec![text("ann"), Value::Integer(30), text("Paris")]));
    d.add_row(Row::new(vec![text("bob"), Value::Integer(25), text("Rome")]));
    d.add_row(Row::new(vec![text("cid"), Value::Integer(40), text("Paris")]));
    d.add_row(Row::new(vec![text("dan"), Value::Integer(25), text("Oslo")]));
    d.add_row(Row::new(vec![text("eve"), Value::Integer(-7), text("Paris")]));
    d
}

fn equal(column: &str, value: Value) -> Condition {
    Condition::Equal(column.to_string(), value)
}

fn values_of(row: &Row) -> Vec<Value> {
    (0..row.len()).map(|i| row.get_value(i).clone()).collect()
}

#[test]
fn column_lookup_finds_first_match() {
    let d = people();
    assert_eq!(d.column_index(&"age".to_string()), 1);
    assert_eq!(*d.column_type(&"city".to_string()), ColumnType::String);
    assert_eq!(d.len(), 5);
}

#[test]
fn row_matching_follows_the_condition() {
    let d = people();
    let row = &d.rows()[0];
    assert!(row_matches_filter(&d, row, &equal("city", text("Paris"))));
    assert!(!row_matches_filter(&d, row, &equal("age", Value::Integer(31))));
    let not = Condition::Not(Box::new(equal("city", text("Paris"))));
    assert!(!row_matches_filter(&d, row, &not));
    let and = Condition::And(
        Box::new(equal("city", text("Paris"))),
        Box::new(equal("age", Value::Integer(30))),
    );
    assert!(row_matches_filter(&d, row, &and));
    let or = Condition::Or(
        Box::new(equal("city", text("Rome"))),
        Box::new(equal("name", text("ann"))),
    );
    assert!(row_matches_filter(&d, row, &or));
    // a string never equals an integer
    assert!(!row_matches_filter(&d, row, &equal("age", text("30"))));
}

#[test]
fn short_circuit_skips_missing_columns() {
    let d = people();
    let row = &d.rows()[1];
    let and = Condition::And(
        Box::new(equal("city", text("Paris"))),
        Box::new(equal("no such column", Value::Integer(0))),
    );
    assert!(!row_matches_filter(&d, row, &and));
}

#[test]
fn filter_keeps_matching_rows_in_order() {
    let d = people();
    let f = filter_dataset(&d, &equal("city", text("Paris")));
    assert_eq!(f.len(), 3);
    assert_eq!(f.columns().len(), 3);
    let names: Vec<Value> = f.rows().iter().map(|r| r.get_value(0).clone()).collect();
    assert!(names == vec![text("ann"), text("cid"), text("eve")]);
}

#[test]
fn filter_with_no_match_is_empty() {
    let d = people();
    let f = filter_dataset(&d, &equal("city", text("Lima")));
    assert_eq!(f.len(), 0);
}

#[test]
fn group_by_keeps_first_occurrence_order() {
    let d = people();
    let groups = group_by_dataset(d, &"age".to_string());
    assert_eq!(groups.len(), 4);
    assert!(groups[0].0 == Value::Integer(30));
    assert!(groups[1].0 == Value::Integer(25));
    assert!(groups[2].0 == Value::Integer(40));
    assert!(groups[3].0 == Value::Integer(-7));
    assert_eq!(groups[1].1.len(), 2);
    let names: Vec<Value> = groups[1].1.rows().iter().map(|r| r.get_value(0).clone()).collect();
    assert!(names == vec![text("bob"), text("dan")]);
    let total: usize = groups.iter().map(|g| g.1.len()).sum();
    assert_eq!(total, 5);
}

#[test]
fn aggregations_count_sum_and_average() {
    let d = people();
    let groups = group_by_dataset(d, &"city".to_string());
    let counts = aggregate_dataset(group_by_dataset(people(), &"city".to_string()), &Aggregation::Count("age".to_string()));
    assert_eq!(counts.len(), 3);
    assert!(counts[0].0 == text("Paris") && counts[0].1 == Value::Integer(3));
    assert!(counts[1].0 == text("Rome") && counts[1].1 == Value::Integer(1));
    assert!(counts[2].0 == text("Oslo") && counts[2].1 == Value::Integer(1));
    let sums = aggregate_dataset(groups, &Aggregation::Sum("age".to_string()));
    assert!(sums[0].1 == Value::Integer(63));
    assert!(sums[1].1 == Value::Integer(25));
    let averages = aggregate_dataset(group_by_dataset(people(), &"city".to_string()), &Aggregation::Average("age".to_string()));
    // (30 + 40 - 7) / 3 = 21
    assert!(averages[0].1 == Value::Integer(21));
    assert!(averages[2].1 == Value::Integer(25));
}

#[test]
fn average_rounds_toward_zero() {
    let mut d = Dataset::new(vec![
        ("k".to_string(), ColumnType::Integer),
        ("v".to_string(), ColumnType::Integer),
    ]);
    d.add_row(Row::new(vec![Value::Integer(1), Value::Integer(-7)]));
    d.add_row(Row::new(vec![Value::Integer(1), Value::Integer(0)]));
    d.add_row(Row::new(vec![Value::Integer(2), Value::Integer(7)]));
    d.add_row(Row::new(vec![Value::Integer(2), Value::Integer(0)]));
    let averages = aggregate_dataset(group_by_dataset(d, &"k".to_string()), &Aggregation::Average("v".to_string()));
    assert!(averages[0].1 == Value::Integer(-3));
    assert!(averages[1].1 == Value::Integer(3));
}

#[test]
fn result_column_names() {
    assert_eq!(Aggregation::Count("age".to_string()).get_result_column_name(), "Count(age)");
    assert_eq!(Aggregation::Sum("x".to_string()).get_result_column_name(), "Sum(x)");
    assert_eq!(Aggregation::Average("y".to_string()).get_result_column_name(), "Average(y)");
}

#[test]
fn compute_query_count_by_name_in_paris() {
    let d = people();
    let q = Query::new(equal("city", text("Paris")), "age".to_string(), Aggregation::Count("name".to_string()));
    let r = compute_query_on_dataset(&d, &q);
    let cols = r.columns();
    assert_eq!(cols.len(), 2);
    assert_eq!(cols[0].0, "age");
    assert_eq!(cols[0].1, ColumnType::Integer);
    assert_eq!(cols[1].0, "Count(name)");
    assert_eq!(cols[1].1, ColumnType::Integer);
    assert_eq!(r.len(), 3);
    assert!(values_of(&r.rows()[0]) == vec![Value::Integer(30), Value::Integer(1)]);
    assert!(values_of(&r.rows()[1]) == vec![Value::Integer(40), Value::Integer(1)]);
    assert!(values_of(&r.rows()[2]) == vec![Value::Integer(-7), Value::Integer(1)]);
}

#[test]
fn compute_query_average_age_by_city() {
    let d = people();
    let q = Query::new(
        Condition::Not(Box::new(equal("name", text("zed")))),
        "city".to_string(),
        Aggregation::Average("age".to_string()),
    );
    let r = fast_rpc(&d, q);
    assert_eq!(r.columns()[0].1, ColumnType::String);
    assert_eq!(r.columns()[1].0, "Average(age)");
    assert_eq!(r.len(), 3);
    assert!(values_of(&r.rows()[0]) == vec![text("Paris"), Value::Integer(21)]);
    assert!(values_of(&r.rows()[1]) == vec![text("Rome"), Value::Integer(25)]);
    assert!(values_of(&r.rows()[2]) == vec![text("Oslo"), Value::Integer(25)]);
}

#[test]
fn compute_query_with_empty_filter_result_has_no_rows() {
    let d = people();
    let q = Query::new(equal("city", text("Lima")), "city".to_string(), Aggregation::Sum("age".to_string()));
    let r = compute_query_on_dataset(&d, &q);
    assert_eq!(r.len(), 0);
    assert_eq!(r.columns()[1].0, "Sum(age)");
}

fn check_equal_filter(q: &Query, column: &str, value: Value) {
    match q.get_filter() {
        Condition::Equal(c, v) => {
            assert_eq!(c, column);
            assert!(*v == value);
        }
        _ => panic!("expected an equality filter"),
    }
}

#[test]
fn parse_count_query_with_string_value() {
    let q = parse_query_from_string("FILTER city == \"Paris\" GROUP BY name COUNT age".to_string());
    check_equal_filter(&q, "city", text("Paris"));
    assert_eq!(q.get_group_by(), "name");
    assert!(matches!(q.get_aggregate(), Aggregation::Count(c) if c == "age"));
}

#[test]
fn parse_average_query_with_integer_value() {
    let q = parse_query_from_string("FILTER age == 30 GROUP BY city AVERAGE age".to_string());
    check_equal_filter(&q, "age", Value::Integer(30));
    assert_eq!(q.get_group_by(), "city");
    assert!(matches!(q.get_aggregate(), Aggregation::Average(c) if c == "age"));
}

#[test]
fn parse_trims_white_space_and_repeated_keyword() {
    let q = try_parse_query_from_string(&"FILTER FILTER \t a ==  -12  GROUP BY  b  COUNT  c ".to_string()).unwrap();
    check_equal_filter(&q, "a", Value::Integer(-12));
    assert_eq!(q.get_group_by(), "b");
    assert!(matches!(q.get_aggregate(), Aggregation::Count(c) if c == "c"));
}

#[test]
fn parse_integer_limits_and_signs() {
    let q = try_parse_query_from_string(&"FILTER a == -2147483648 GROUP BY b COUNT c".to_string()).unwrap();
    check_equal_filter(&q, "a", Value::Integer(i32::MIN));
    let q = try_parse_query_from_string(&"FILTER a == +2147483647 GROUP BY b COUNT c".to_string()).unwrap();
    check_equal_filter(&q, "a", Value::Integer(i32::MAX));
    assert!(try_parse_query_from_string(&"FILTER a == 2147483648 GROUP BY b COUNT c".to_string()).is_none());
    assert!(try_parse_query_from_string(&"FILTER a == -2147483649 GROUP BY b COUNT c".to_string()).is_none());
    assert!(try_parse_query_from_string(&"FILTER a == 12x GROUP BY b COUNT c".to_string()).is_none());
    assert!(try_parse_query_from_string(&"FILTER a == - GROUP BY b COUNT c".to_string()).is_none());
    assert!(try_parse_query_from_string(&"FILTER a ==  GROUP BY b COUNT c".to_string()).is_none());
}

#[test]
fn parse_quoted_values_lose_all_surrounding_quotes() {
    let q = try_parse_query_from_string(&"FILTER a == \"\"x y\"\" GROUP BY b COUNT c".to_string()).unwrap();
    check_equal_filter(&q, "a", text("x y"));
    let q = try_parse_query_from_string(&"FILTER a == \" GROUP BY b COUNT c".to_string()).unwrap();
    check_equal_filter(&q, "a", text(""));
}

#[test]
fn parse_rejects_malformed_text() {
    assert!(try_parse_query_from_string(&"FILTER a == 1 COUNT c".to_string()).is_none());
    assert!(try_parse_query_from_string(&"FILTER a = 1 GROUP BY b COUNT c".to_string()).is_none());
    assert!(try_parse_query_from_string(&"FILTER a == 1 GROUP BY b SUM c".to_string()).is_none());
    assert!(try_parse_query_from_string(&"".to_string()).is_none());
}

#[test]
fn parse_prefers_count_over_average() {
    let q = try_parse_query_from_string(&"FILTER a == 1 GROUP BY b AVERAGE x COUNT y".to_string()).unwrap();
    assert_eq!(q.get_group_by(), "b AVERAGE x");
    assert!(matches!(q.get_aggregate(), Aggregation::Count(c) if c == "y"));
}

#[test]
fn queries_that_can_run_are_accepted() {
    let d = people();
    let q = Query::new(equal("city", text("Paris")), "age".to_string(), Aggregation::Count("name".to_string()));
    assert!(query_can_run(&d, &q));
    let q = Query::new(equal("city", text("Lima")), "city".to_string(), Aggregation::Average("name".to_string()));
    // no row passes the filter, so no group is averaged
    assert!(query_can_run(&d, &q));
    let q = Query::new(equal("city", text("Paris")), "city".to_string(), Aggregation::Sum("age".to_string()));
    assert!(query_can_run(&d, &q));
}

#[test]
fn queries_that_would_fail_are_refused() {
    let d = people();
    let missing_filter_column = Query::new(equal("country", text("FR")), "city".to_string(), Aggregation::Count("age".to_string()));
    assert!(!query_can_run(&d, &missing_filter_column));
    let missing_group_column = Query::new(equal("city", text("Paris")), "country".to_string(), Aggregation::Count("age".to_string()));
    assert!(!query_can_run(&d, &missing_group_column));
    let sum_of_text = Query::new(equal("city", text("Paris")), "city".to_string(), Aggregation::Sum("name".to_string()));
    assert!(!query_can_run(&d, &sum_of_text));
    let missing_sum_column = Query::new(equal("city", text("Paris")), "city".to_string(), Aggregation::Average("height".to_string()));
    assert!(!query_can_run(&d, &missing_sum_column));
    // the right side of an `Or` is not looked at when the left side holds
    let short = Query::new(
        Condition::Or(Box::new(equal("age", Value::Integer(30))), Box::new(equal("country", text("FR")))),
        "city".to_string(),
        Aggregation::Count("age".to_string()),
    );
    assert!(!query_can_run(&d, &short));
    let mut one = Dataset::new(vec![("age".to_string(), ColumnType::Integer)]);
    one.add_row(Row::new(vec![Value::Integer(30)]));
    let short_one = Query::new(
        Condition::Or(Box::new(equal("age", Value::Integer(30))), Box::new(equal("country", text("FR")))),
        "age".to_string(),
        Aggregation::Count("age".to_string()),
    );
    assert!(query_can_run(&one, &short_one));
}

#[test]
fn sums_that_overflow_are_refused() {
    let mut d = Dataset::new(vec![
        ("k".to_string(), ColumnType::Integer),
        ("v".to_string(), ColumnType::Integer),
    ]);
    d.add_row(Row::new(vec![Value::Integer(1), Value::Integer(i32::MAX)]));
    d.add_row(Row::new(vec![Value::Integer(1), Value::Integer(-1)]));
    let q = Query::new(equal("k", Value::Integer(1)), "k".to_string(), Aggregation::Sum("v".to_string()));
    assert!(query_can_run(&d, &q));
    let r = compute_query_on_dataset(&d, &q);
    assert!(values_of(&r.rows()[0]) == vec![Value::Integer(1), Value::Integer(i32::MAX - 1)]);
    // the running sum passes i32::MAX, which the sum would not survive
    d.add_row(Row::new(vec![Value::Integer(1), Value::Integer(2)]));
    assert!(!query_can_run(&d, &q));
    let mut e = Dataset::new(vec![
        ("k".to_string(), ColumnType::Integer),
        ("v".to_string(), ColumnType::Integer),
    ]);
    e.add_row(Row::new(vec![Value::Integer(1), Value::Integer(i32::MAX)]));
    e.add_row(Row::new(vec![Value::Integer(1), Value::Integer(1)]));
    e.add_row(Row::new(vec![Value::Integer(1), Value::Integer(-5)]));
    assert!(!query_can_run(&e, &q));
}

#[test]
fn rows_of_the_wrong_width_are_refused() {
    let mut d = Dataset::new(vec![
        ("k".to_string(), ColumnType::Integer),
        ("v".to_string(), ColumnType::Integer),
    ]);
    d.add_row(Row::new(vec![Value::Integer(1)]));
    let q = Query::new(equal("k", Value::Integer(1)), "k".to_string(), Aggregation::Count("v".to_string()));
    assert!(!query_can_run(&d, &q));
}

#[test]
fn groups_partition_the_filtered_rows() {
    let d = people();
    let filtered = filter_dataset(&d, &Condition::Not(Box::new(equal("name", text("bob")))));
    let groups = group_by_dataset(filtered, &"city".to_string());
    let total: usize = groups.iter().map(|g| g.1.len()).sum();
    assert_eq!(total, 4);
    for (key, group) in &groups {
        for row in group.rows() {
            assert!(row.get_value(2) == key);
        }
    }
    for i in 0..groups.len() {
        for j in (i + 1)..groups.len() {
            assert!(groups[i].0 != groups[j].0);
        }
    }
}

#[test]
fn filtering_twice_and_composed_filters() {
    let d = people();
    let paris = equal("city", text("Paris"));
    let once = filter_dataset(&d, &paris);
    let twice = filter_dataset(&once, &paris);
    assert_eq!(twice.len(), once.len());
    let young = Condition::Not(Box::new(equal("age", Value::Integer(40))));
    let then = filter_dataset(&once, &young);
    let both = filter_dataset(&d, &Condition::And(Box::new(equal("city", text("Paris"))), Box::new(young)));
    assert_eq!(then.len(), 2);
    assert_eq!(both.len(), 2);
    for k in 0..2 {
        assert!(values_of(&then.rows()[k]) == values_of(&both.rows()[k]));
    }
}

#[test]
fn fast_rpc_answers_as_compute_query() {
    let d = people();
    let q1 = Query::new(equal("city", text("Paris")), "age".to_string(), Aggregation::Count("name".to_string()));
    let q2 = Query::new(equal("city", text("Paris")), "age".to_string(), Aggregation::Count("name".to_string()));
    let a = fast_rpc(&d, q1);
    let b = compute_query_on_dataset(&d, &q2);
    assert_eq!(a.len(), b.len());
    for k in 0..a.len() {
        assert!(values_of(&a.rows()[k]) == values_of(&b.rows()[k]));
    }
}
