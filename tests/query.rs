use aw_server::datastore::Datastore;
use aw_server::datatype::{DataType, QueryError};
use aw_server::models::{Bucket, Event, TimeInterval};
use aw_server::number::Number;
use aw_server::query;

const TIME_INTERVAL: &str = "2000-01-01T00:00:00Z/2000-01-02T00:00:00Z";

fn setup_datastore_empty() -> Datastore {
    Datastore::new()
}

fn now_nanos() -> i64 {
    chrono::Utc::now().timestamp_nanos_opt().unwrap()
}

fn setup_datastore_populated() -> Datastore {
    let mut ds = Datastore::new();
    let bucket = Bucket {
        bid: None,
        id: "testid".to_string(),
        _type: "testtype".to_string(),
        client: "testclient".to_string(),
        hostname: "testhost".to_string(),
        created: Some(now_nanos()),
    };
    ds.create_bucket(&bucket).unwrap();
    let e1 = Event {
        id: None,
        timestamp: now_nanos(),
        duration: 0,
        data: "{\"key\":\"value\"}".to_string(),
    };
    let mut e2 = e1.clone();
    e2.timestamp = now_nanos();
    let event_list = vec![e1.clone(), e2.clone()];
    ds.insert_events(&bucket.id, &event_list).unwrap();
    ds
}

fn as_f64(n: &Number) -> f64 {
    n.num as f64 / n.den as f64
}

fn expect_number(code: &str, want: f64) {
    let ds = setup_datastore_empty();
    let interval = TimeInterval::new_from_string(TIME_INTERVAL).unwrap();
    match query::query(code, &interval, &ds) {
        Ok(DataType::Number(n)) => assert_eq!(as_f64(&n), want),
        other => panic!("Expected number, got {:?}", other),
    }
}

#[test]
fn test_number() {
    let ds = setup_datastore_empty();
    let interval = TimeInterval::new_from_string(TIME_INTERVAL).unwrap();
    let code = String::from("1;1.;1.1;");
    query::query(&code, &interval, &ds).unwrap();
}

#[test]
fn test_return() {
    let ds = setup_datastore_empty();
    let interval = TimeInterval::new_from_string(TIME_INTERVAL).unwrap();
    let code = String::from("return 1;");
    query::query(&code, &interval, &ds).unwrap();
    let code = String::from("return 1+1;");
    query::query(&code, &interval, &ds).unwrap();
}

#[test]
fn test_function() {
    let ds = setup_datastore_empty();
    let interval = TimeInterval::new_from_string(TIME_INTERVAL).unwrap();

    let code = String::from("print(1);");
    query::query(&code, &interval, &ds).unwrap();

    let code = String::from("no_such_function(1);");
    match query::query(&code, &interval, &ds) {
        Ok(ok) => panic!("Expected QueryError, got {:?}", ok),
        Err(e) => match e {
            QueryError::VariableNotDefined(qe) => assert_eq!(qe, "no_such_function"),
            qe => panic!("Expected QueryError::VariableNotDefined, got {:?}", qe),
        },
    }

    let code = String::from("invalid_type=1; invalid_type(1);");
    match query::query(&code, &interval, &ds) {
        Ok(ok) => panic!("Expected QueryError, got {:?}", ok),
        Err(e) => match e {
            QueryError::InvalidType(qe) => assert_eq!(qe, "invalid_type"),
            qe => panic!("Expected QueryError::VariableNotDefined, got {:?}", qe),
        },
    }
}

#[test]
fn test_all_functions() {
    let ds = setup_datastore_populated();
    let interval = TimeInterval::new_from_string(TIME_INTERVAL).unwrap();
    let code = String::from("query_bucket(\"testid\");");
    query::query(&code, &interval, &ds).unwrap();
}

#[test]
fn test_string() {
    let ds = setup_datastore_empty();
    let interval = TimeInterval::new_from_string(TIME_INTERVAL).unwrap();
    // An assignment has no value of its own.
    let code = String::from("a=\"test\";");
    let ret = query::query(&code, &interval, &ds).unwrap();
    match ret {
        DataType::Null => (),
        _ => panic!("Wrong datatype"),
    }
    let code = String::from("a=\"test\"; a;");
    let ret = query::query(&code, &interval, &ds).unwrap();
    match ret {
        DataType::String(s) => assert_eq!(s, "test"),
        _ => panic!("Wrong datatype"),
    }
}

#[test]
fn test_list() {
    let ds = setup_datastore_empty();
    let interval = TimeInterval::new_from_string(TIME_INTERVAL).unwrap();
    for code in ["[];", "[1];", "[1+1];", "[1,1];", "[1,1+2];", "[1,1+1,1+2+3,4/3,[1+2]];"] {
        query::query(code, &interval, &ds).unwrap();
    }
    match query::query("[1,1+2];", &interval, &ds).unwrap() {
        DataType::List(items) => {
            assert_eq!(items.len(), 2);
            match &items[1] {
                DataType::Number(n) => assert_eq!(as_f64(n), 3.0),
                other => panic!("Expected number, got {:?}", other),
            }
        },
        other => panic!("Expected list, got {:?}", other),
    }
}

#[test]
fn test_comment() {
    let ds = setup_datastore_empty();
    let interval = TimeInterval::new_from_string(TIME_INTERVAL).unwrap();
    let code = String::from("1;# testing 123");
    query::query(&code, &interval, &ds).unwrap();
}

#[test]
fn test_dict() {
    let ds = setup_datastore_empty();
    let interval = TimeInterval::new_from_string(TIME_INTERVAL).unwrap();
    let code = String::from("return {};");
    query::query(&code, &interval, &ds).unwrap();
    let code = String::from("return {\"test\": 2};");
    query::query(&code, &interval, &ds).unwrap();
    let code = String::from("return {\"test\": 2, \"test2\": \"teststr\"};");
    query::query(&code, &interval, &ds).unwrap();
    let code = String::from("return {\"test\": {\"test\": \"test\"}};");
    match query::query(&code, &interval, &ds).unwrap() {
        DataType::Dict(keys, vals) => {
            assert_eq!(keys, vec!["test".to_string()]);
            assert!(matches!(&vals[0], DataType::Dict(_, _)));
        },
        other => panic!("Expected dict, got {:?}", other),
    }
}

#[test]
fn test_math() {
    expect_number("1+1;", 2.0);
    expect_number("1-1;", 0.0);
    expect_number("3*5;", 15.0);
    expect_number("4/2;", 2.0);

    let ds = setup_datastore_empty();
    let interval = TimeInterval::new_from_string(TIME_INTERVAL).unwrap();
    let code = String::from("1/0;");
    match query::query(&code, &interval, &ds) {
        Err(e) => match e {
            QueryError::MathError(_) => (),
            qe => panic!("Expected division by zero error, got {:?}", qe),
        },
        Ok(res) => panic!("Expected division by zero error, got {:?}", res),
    };

    expect_number("2.5%1;", 0.5);
}

#[test]
fn modulo_by_zero_is_a_math_error() {
    let ds = setup_datastore_empty();
    let interval = TimeInterval::new_from_string(TIME_INTERVAL).unwrap();
    assert!(matches!(query::query("5%0;", &interval, &ds), Err(QueryError::MathError(_))));
}

#[test]
fn remainder_takes_the_sign_of_the_dividend() {
    expect_number("0-7%2;", -1.0);
    expect_number("(0-7)%2;", -1.0);
    expect_number("7%(0-2);", 1.0);
}

#[test]
fn precedence_and_parentheses() {
    expect_number("1+2*3;", 7.0);
    expect_number("(1+2)*3;", 9.0);
    expect_number("10-4-3;", 3.0);
    expect_number("4/3*3;", 4.0);
}

#[test]
fn return_skips_later_statements() {
    let ds = setup_datastore_empty();
    let interval = TimeInterval::new_from_string(TIME_INTERVAL).unwrap();
    match query::query("return 1; 1/0;", &interval, &ds) {
        Ok(DataType::Number(n)) => assert_eq!(as_f64(&n), 1.0),
        other => panic!("Expected 1, got {:?}", other),
    }
}

#[test]
fn empty_script_is_null() {
    let ds = setup_datastore_empty();
    let interval = TimeInterval::new_from_string(TIME_INTERVAL).unwrap();
    assert!(matches!(query::query("", &interval, &ds), Ok(DataType::Null)));
    assert!(matches!(query::query("# only a comment", &interval, &ds), Ok(DataType::Null)));
}

#[test]
fn malformed_scripts_are_parsing_errors() {
    let ds = setup_datastore_empty();
    let interval = TimeInterval::new_from_string(TIME_INTERVAL).unwrap();
    for code in ["1+;", "1", "\"open;", "[1,;", "{1: 2};", "@;", "(1;"] {
        assert!(
            matches!(query::query(code, &interval, &ds), Err(QueryError::ParsingError(_))),
            "{}",
            code
        );
    }
}

#[test]
fn arithmetic_on_a_string_is_a_type_error() {
    let ds = setup_datastore_empty();
    let interval = TimeInterval::new_from_string(TIME_INTERVAL).unwrap();
    assert!(matches!(query::query("\"a\"+1;", &interval, &ds), Err(QueryError::InvalidType(_))));
}

#[test]
fn builtin_with_wrong_arguments() {
    let ds = setup_datastore_empty();
    let interval = TimeInterval::new_from_string(TIME_INTERVAL).unwrap();
    assert!(matches!(
        query::query("query_bucket(1);", &interval, &ds),
        Err(QueryError::InvalidFunctionParameters(_))
    ));
    assert!(matches!(query::query("print();", &interval, &ds), Err(QueryError::InvalidFunctionParameters(_))));
    assert!(matches!(
        query::query("query_bucket(\"missing\");", &interval, &ds),
        Err(QueryError::BucketQueryError(_))
    ));
}

#[test]
fn builtin_bound_to_a_variable_is_callable() {
    let ds = setup_datastore_empty();
    let interval = TimeInterval::new_from_string(TIME_INTERVAL).unwrap();
    assert!(matches!(query::query("p = print; p(1);", &interval, &ds), Ok(DataType::Null)));
}

#[test]
fn number_literal_too_large() {
    let ds = setup_datastore_empty();
    let interval = TimeInterval::new_from_string(TIME_INTERVAL).unwrap();
    assert!(matches!(
        query::query("99999999999999999999;", &interval, &ds),
        Err(QueryError::ParsingError(_))
    ));
}

#[test]
fn interval_from_string() {
    let ti = TimeInterval::new_from_string(TIME_INTERVAL).unwrap();
    assert_eq!(ti.start, 946_684_800_000_000_000);
    assert_eq!(ti.end, 946_771_200_000_000_000);
    assert!(TimeInterval::new_from_string("2000-01-02T00:00:00Z/2000-01-01T00:00:00Z").is_none());
    assert!(TimeInterval::new_from_string("2000-01-01T00:00:00Z").is_none());
    assert!(TimeInterval::new_from_string("yesterday/today").is_none());
}
