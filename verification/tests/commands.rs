use miniredis::command::CLEAR_TOKEN_ITERATIONS;
use miniredis::command::cmd_matches;
use miniredis::command::determine_type;
use miniredis::command::execute_command;
use miniredis::command::extract_command;
use miniredis::command::handle_frame;
use miniredis::command::unpack_bulk_str;
use miniredis::db::DBData;
use miniredis::db::DBVal;
use miniredis::db::Store;
use miniredis::db::is_expired;
use miniredis::num::RespError;
use miniredis::resp::Value;

fn bulk(s: &str) -> Value {
    Value::BulkString(s.to_string())
}

fn cmd(parts: &[&str]) -> Value {
    Value::Array(parts.iter().map(|p| bulk(p)).collect())
}

fn expect_simple(v: Value) -> String {
    match v {
        Value::SimpleString(s) => s,
        other => panic!("expected a simple string, got {:?}", other),
    }
}

fn expect_bulk(v: Value) -> String {
    match v {
        Value::BulkString(s) => s,
        other => panic!("expected a bulk string, got {:?}", other),
    }
}

#[test]
fn ping_replies_pong() {
    let mut store = Store::new();
    let reply = execute_command(cmd(&["PING"]), &mut store, 0);
    assert_eq!(expect_simple(reply), "PONG");
}

#[test]
fn ping_is_case_insensitive_and_ignores_arguments() {
    let mut store = Store::new();
    let reply = execute_command(cmd(&["pInG", "extra"]), &mut store, 0);
    assert_eq!(expect_simple(reply), "PONG");
}

#[test]
fn echo_replies_with_its_argument() {
    let mut store = Store::new();
    let reply = execute_command(cmd(&["ECHO", "hello"]), &mut store, 0);
    assert_eq!(expect_bulk(reply), "hello");
}

#[test]
fn echo_without_argument_replies_placeholder() {
    let mut store = Store::new();
    let reply = execute_command(cmd(&["ECHO"]), &mut store, 0);
    assert_eq!(expect_bulk(reply), "You did not provide an argument to ECHO back");
}

#[test]
fn set_then_get_returns_value_as_integer_text() {
    let mut store = Store::new();
    let reply = execute_command(cmd(&["SET", "foo", "42"]), &mut store, 0);
    assert_eq!(expect_simple(reply), "OK");
    let entry = store.get(&"foo".to_string()).expect("key must be present");
    match entry.data() {
        DBVal::Int(n) => assert_eq!(*n, 42),
        DBVal::String(s) => panic!("expected integer representation, got text {:?}", s),
    }
    let reply = execute_command(cmd(&["GET", "foo"]), &mut store, 5);
    assert_eq!(expect_bulk(reply), "42");
}

#[test]
fn set_stores_text_when_not_numeric() {
    let mut store = Store::new();
    execute_command(cmd(&["SET", "foo", "bar"]), &mut store, 0);
    let entry = store.get(&"foo".to_string()).expect("key must be present");
    match entry.data() {
        DBVal::String(s) => assert_eq!(s, "bar"),
        DBVal::Int(n) => panic!("expected text representation, got integer {}", n),
    }
    let reply = execute_command(cmd(&["GET", "foo"]), &mut store, 0);
    assert_eq!(expect_bulk(reply), "bar");
}

#[test]
fn get_of_missing_key_is_sentinel() {
    let mut store = Store::new();
    let reply = execute_command(cmd(&["GET", "nope"]), &mut store, 0);
    assert_eq!(expect_bulk(reply), "-1");
}

#[test]
fn set_px_expires_after_delay_and_removes_key() {
    let mut store = Store::new();
    let reply = execute_command(cmd(&["SET", "foo", "bar", "PX", "10"]), &mut store, 0);
    assert_eq!(expect_simple(reply), "OK");
    let reply = execute_command(cmd(&["GET", "foo"]), &mut store, 11);
    assert_eq!(expect_bulk(reply), "-1");
    assert!(store.get(&"foo".to_string()).is_none(), "expired key must be deleted lazily");
}

#[test]
fn set_px_still_live_before_deadline() {
    let mut store = Store::new();
    execute_command(cmd(&["SET", "foo", "bar", "PX", "10"]), &mut store, 0);
    let reply = execute_command(cmd(&["GET", "foo"]), &mut store, 9);
    assert_eq!(expect_bulk(reply), "bar");
}

#[test]
fn set_ex_stores_a_thousand_millis_per_second() {
    let mut store = Store::new();
    execute_command(cmd(&["SET", "foo", "bar", "EX", "1"]), &mut store, 7);
    let entry = store.get(&"foo".to_string()).expect("key must be present");
    assert_eq!(entry.exp(), Some(1000));
    assert_eq!(entry.created_at(), 7);
}

#[test]
fn expiry_type_is_case_insensitive() {
    let mut store = Store::new();
    execute_command(cmd(&["SET", "foo", "bar", "Ex", "2"]), &mut store, 0);
    let entry = store.get(&"foo".to_string()).expect("key must be present");
    assert_eq!(entry.exp(), Some(2000));
}

#[test]
fn unknown_expiry_type_means_zero_ttl() {
    let mut store = Store::new();
    execute_command(cmd(&["SET", "foo", "bar", "ZZ", "5"]), &mut store, 0);
    let entry = store.get(&"foo".to_string()).expect("key must be present");
    assert_eq!(entry.exp(), Some(0));
}

#[test]
fn non_numeric_expiry_value_means_zero_ttl() {
    let mut store = Store::new();
    execute_command(cmd(&["SET", "foo", "bar", "PX", "soon"]), &mut store, 0);
    let entry = store.get(&"foo".to_string()).expect("key must be present");
    assert_eq!(entry.exp(), Some(0));
}

#[test]
fn zero_ttl_is_expired_at_its_own_instant() {
    let mut store = Store::new();
    execute_command(cmd(&["SET", "foo", "bar", "PX", "0"]), &mut store, 3);
    let reply = execute_command(cmd(&["GET", "foo"]), &mut store, 3);
    assert_eq!(expect_bulk(reply), "-1");
}

#[test]
fn get_with_wrong_arity_is_error_and_no_mutation() {
    let mut store = Store::new();
    execute_command(cmd(&["SET", "foo", "1"]), &mut store, 0);
    let reply = execute_command(cmd(&["GET"]), &mut store, 0);
    assert_eq!(expect_bulk(reply), "(error) Invalid arguments for GET");
    let reply = execute_command(cmd(&["GET", "foo", "bar"]), &mut store, 0);
    assert_eq!(expect_bulk(reply), "(error) Invalid arguments for GET");
    assert!(store.get(&"foo".to_string()).is_some());
}

#[test]
fn set_with_wrong_arity_is_error_and_no_mutation() {
    let mut store = Store::new();
    let reply = execute_command(cmd(&["SET", "foo", "bar", "PX"]), &mut store, 0);
    assert_eq!(expect_bulk(reply), "(error) Invalid arguments for: SET");
    assert!(store.get(&"foo".to_string()).is_none());
    let reply = execute_command(cmd(&["SET", "foo"]), &mut store, 0);
    assert_eq!(expect_bulk(reply), "(error) Invalid arguments for: SET");
    assert!(store.get(&"foo".to_string()).is_none());
}

#[test]
fn unknown_command_is_reported() {
    let mut store = Store::new();
    let reply = execute_command(cmd(&["FLY", "me"]), &mut store, 0);
    assert_eq!(expect_bulk(reply), "(error) Invalid command: FLY");
}

#[test]
fn non_array_input_is_a_format_error() {
    let mut store = Store::new();
    let reply = execute_command(bulk("PING"), &mut store, 0);
    assert_eq!(expect_bulk(reply), "(error) Error extracting commands: Unexpected command format");
}

#[test]
fn empty_array_is_a_bulk_string_error() {
    let mut store = Store::new();
    let reply = execute_command(Value::Array(vec![]), &mut store, 0);
    assert_eq!(
        expect_bulk(reply),
        "(error) Error extracting commands: Expected command to be a bulk string"
    );
}

#[test]
fn non_bulk_command_name_is_a_bulk_string_error() {
    let mut store = Store::new();
    let reply = execute_command(Value::Array(vec![Value::Array(vec![])]), &mut store, 0);
    assert_eq!(
        expect_bulk(reply),
        "(error) Error extracting commands: Expected command to be a bulk string"
    );
}

#[test]
fn set_with_non_bulk_key_skips_write_but_replies_ok() {
    let mut store = Store::new();
    let reply = execute_command(
        Value::Array(vec![bulk("SET"), Value::Array(vec![]), bulk("v")]),
        &mut store,
        0,
    );
    assert_eq!(expect_simple(reply), "OK");
    assert!(store.get(&"v".to_string()).is_none());
}

#[test]
fn set_with_non_bulk_value_fails_and_writes_nothing() {
    let mut store = Store::new();
    let reply = execute_command(
        Value::Array(vec![bulk("SET"), bulk("k"), Value::Array(vec![])]),
        &mut store,
        0,
    );
    assert_eq!(expect_bulk(reply), "(error) Expected input to be a bulk string");
    assert!(store.get(&"k".to_string()).is_none());
}

#[test]
fn two_sets_on_distinct_keys_keep_both() {
    let mut store = Store::new();
    execute_command(cmd(&["SET", "a", "1"]), &mut store, 0);
    execute_command(cmd(&["SET", "b", "2"]), &mut store, 0);
    assert_eq!(expect_bulk(execute_command(cmd(&["GET", "a"]), &mut store, 1)), "1");
    assert_eq!(expect_bulk(execute_command(cmd(&["GET", "b"]), &mut store, 1)), "2");
}

#[test]
fn sweep_removes_only_expired_entries() {
    let mut store = Store::new();
    store.set("old".to_string(), DBData::new(DBVal::Int(1), 0, Some(5)));
    store.set("new".to_string(), DBData::new(DBVal::Int(2), 0, Some(500)));
    store.set("forever".to_string(), DBData::new(DBVal::Int(3), 0, None));
    store.sweep(10);
    assert!(store.get(&"old".to_string()).is_none());
    assert!(store.get(&"new".to_string()).is_some());
    assert!(store.get(&"forever".to_string()).is_some());
}

#[test]
fn sweep_is_idempotent() {
    let mut store = Store::new();
    store.set("old".to_string(), DBData::new(DBVal::Int(1), 0, Some(5)));
    store.set("keep".to_string(), DBData::new(DBVal::Int(2), 0, None));
    store.sweep(10);
    store.sweep(10);
    assert!(store.get(&"old".to_string()).is_none());
    assert!(store.get(&"keep".to_string()).is_some());
}

#[test]
fn sweep_on_no_expired_changes_nothing() {
    let mut store = Store::new();
    store.set("a".to_string(), DBData::new(DBVal::Int(1), 0, None));
    store.set("b".to_string(), DBData::new(DBVal::Int(2), 0, Some(100)));
    store.sweep(50);
    assert!(store.get(&"a".to_string()).is_some());
    assert!(store.get(&"b".to_string()).is_some());
}

#[test]
fn entry_expiry_arithmetic_is_exact() {
    let d = DBData::new(DBVal::Int(1), 100, Some(10));
    assert!(!is_expired(&d, 100));
    assert!(!is_expired(&d, 109));
    assert!(is_expired(&d, 110));
    assert!(is_expired(&d, 200));
    let never = DBData::new(DBVal::Int(1), 100, None);
    assert!(!is_expired(&never, u64::MAX));
}

#[test]
fn handle_frame_runs_a_whole_cycle() {
    let mut store = Store::new();
    let reply = handle_frame("*1\r\n$4\r\nPING\r\n", &mut store, 0);
    assert_eq!(expect_simple(reply), "PONG");
    let reply = handle_frame("*3\r\n$3\r\nSET\r\n$1\r\nk\r\n$1\r\nv\r\n", &mut store, 0);
    assert_eq!(expect_simple(reply), "OK");
    let reply = handle_frame("*2\r\n$3\r\nGET\r\n$1\r\nk\r\n", &mut store, 0);
    assert_eq!(expect_bulk(reply), "v");
}

#[test]
fn handle_frame_reports_malformed_input() {
    let mut store = Store::new();
    let reply = handle_frame("!nonsense", &mut store, 0);
    assert_eq!(expect_bulk(reply), "(error) Failed to read token: malformed frame");
}

#[test]
fn extract_command_splits_name_and_arguments() {
    let (name, args) = extract_command(cmd(&["SET", "a", "b"])).unwrap();
    assert_eq!(name, "SET");
    assert_eq!(args.len(), 2);
    match &args[0] {
        Value::BulkString(s) => assert_eq!(s, "a"),
        other => panic!("expected a bulk string, got {:?}", other),
    }
}

#[test]
fn extract_command_rejects_non_arrays_and_empty_arrays() {
    assert_eq!(extract_command(bulk("PING")).unwrap_err(), RespError::BadCommandFormat);
    assert_eq!(extract_command(Value::Array(vec![])).unwrap_err(), RespError::BadCommandFormat);
}

#[test]
fn determine_type_picks_the_narrower_representation() {
    match determine_type(&bulk("42")).unwrap() {
        DBVal::Int(n) => assert_eq!(n, 42),
        other => panic!("expected an integer, got {:?}", other),
    }
    match determine_type(&bulk("42x")).unwrap() {
        DBVal::String(s) => assert_eq!(s, "42x"),
        other => panic!("expected text, got {:?}", other),
    }
    assert_eq!(
        determine_type(&Value::Array(vec![])).unwrap_err(),
        RespError::InvalidValueType
    );
}

#[test]
fn unpack_bulk_str_accepts_only_bulk_strings() {
    assert_eq!(unpack_bulk_str(bulk("x")).unwrap(), "x");
    assert_eq!(
        unpack_bulk_str(Value::SimpleString("x".to_string())).unwrap_err(),
        RespError::BadCommandFormat
    );
}

#[test]
fn cmd_matches_folds_ascii_case_only() {
    assert!(cmd_matches("PiNg", "ping"));
    assert!(cmd_matches("", ""));
    assert!(!cmd_matches("ping", "pong"));
    assert!(!cmd_matches("pin", "ping"));
}

#[test]
fn sweep_threshold_matches_the_design() {
    assert_eq!(CLEAR_TOKEN_ITERATIONS, 1000);
}
