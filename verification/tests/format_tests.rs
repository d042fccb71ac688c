use keyvaldb::json::to_json;
use keyvaldb::list::{Format, ListOptions};
use keyvaldb::numtext::parse_delta;
use keyvaldb::store::Store;
use keyvaldb::value::Value;

fn s(x: &str) -> String {
    x.to_string()
}

fn opts(prefix: &str, skip: usize, limit: usize, values: bool, format: Format) -> ListOptions {
    ListOptions { prefix: s(prefix), skip, limit, values, format }
}

#[test]
fn json_rendering_exact() {
    assert_eq!(to_json(&Value::Null), "null");
    assert_eq!(to_json(&Value::Bool(true)), "true");
    assert_eq!(to_json(&Value::Bool(false)), "false");
    assert_eq!(to_json(&Value::Int(0)), "0");
    assert_eq!(to_json(&Value::Int(-42)), "-42");
    assert_eq!(to_json(&Value::Int(i64::MAX)), "9223372036854775807");
    assert_eq!(to_json(&Value::Int(i64::MIN)), "-9223372036854775808");
    assert_eq!(to_json(&Value::Str(s(""))), "\"\"");
    assert_eq!(to_json(&Value::Str(s("a\"b\\c\nd"))), "\"a\\\"b\\\\c\\nd\"");
    assert_eq!(to_json(&Value::Str(s("\r\t"))), "\"\\r\\t\"");
    assert_eq!(to_json(&Value::Str(s("\u{1}"))), "\"\\u0001\"");
    assert_eq!(to_json(&Value::Str(s("\u{1f}"))), "\"\\u001f\"");
    assert_eq!(to_json(&Value::Str(s("héllo"))), "\"héllo\"");
    assert_eq!(to_json(&Value::Arr(vec![])), "[]");
    assert_eq!(
        to_json(
            &Value::Arr(vec![Value::Int(1), Value::Str(s("two")), Value::Arr(vec![Value::Null])]),
        ),
        "[1,\"two\",[null]]"
    );
    assert_eq!(to_json(&Value::Obj(vec![])), "{}");
    assert_eq!(
        to_json(&Value::Obj(vec![(s("a"), Value::Int(1)), (s("b"), Value::Arr(vec![]))])),
        "{\"a\":1,\"b\":[]}"
    );
}

#[test]
fn list_prefix_filters_and_expires() {
    let mut st = Store::new();
    st.set(s("user:1"), Value::Int(1), 30, 0);
    st.set(s("user:2"), Value::Int(2), 30, 0);
    st.set(s("admin:1"), Value::Int(3), 60, 0);
    let o = opts("user:", 0, usize::MAX, false, Format::Json);
    assert_eq!(st.list(&o, 0), "[\"user:1\",\"user:2\"]");
    assert_eq!(st.list(&o, 30), "[]");
    let all = opts("", 0, usize::MAX, false, Format::Json);
    assert_eq!(st.list(&all, 30), "[\"admin:1\"]");
}

#[test]
fn list_skip_limit_values_and_text() {
    let mut st = Store::new();
    st.set(s("a"), Value::Int(1), 30, 0);
    st.set(s("b"), Value::Str(s("x")), 30, 0);
    st.set(s("c"), Value::Int(3), 30, 0);
    assert_eq!(st.list(&opts("", 1, 1, false, Format::Json), 0), "[\"b\"]");
    assert_eq!(
        st.list(&opts("", 0, usize::MAX, true, Format::Json), 0),
        "{\"a\":1,\"b\":\"x\",\"c\":3}"
    );
    assert_eq!(st.list(&opts("", 0, usize::MAX, false, Format::Text), 0), "a\nb\nc");
    assert_eq!(st.list(&opts("", 0, usize::MAX, true, Format::Text), 0), "a=1\nb=\"x\"\nc=3");
    assert_eq!(st.list(&opts("", 5, 2, false, Format::Json), 0), "[]");
    assert_eq!(st.list(&opts("", 2, 0, false, Format::Json), 0), "[]");
}

#[test]
fn empty_store_lists_nothing() {
    let st = Store::new();
    assert!(st.get(&s("k"), 0).is_none());
    assert_eq!(st.len(), 0);
    assert_eq!(st.list(&opts("", 0, usize::MAX, false, Format::Json), 0), "[]");
    assert_eq!(st.list(&opts("", 0, usize::MAX, true, Format::Json), 0), "{}");
    assert_eq!(st.list(&opts("", 0, usize::MAX, false, Format::Text), 0), "");
}

#[test]
fn parse_delta_accepts_signed_magnitudes() {
    assert_eq!(parse_delta("+5"), Some(5));
    assert_eq!(parse_delta("-3"), Some(-3));
    assert_eq!(parse_delta("+0"), Some(0));
    assert_eq!(parse_delta("+007"), Some(7));
    assert_eq!(parse_delta("+9223372036854775807"), Some(i64::MAX));
    assert_eq!(parse_delta("-9223372036854775807"), Some(-i64::MAX));
}

#[test]
fn parse_delta_rejects_malformed() {
    assert_eq!(parse_delta(""), None);
    assert_eq!(parse_delta("+"), None);
    assert_eq!(parse_delta("-"), None);
    assert_eq!(parse_delta("5"), None);
    assert_eq!(parse_delta("+a"), None);
    assert_eq!(parse_delta("+5x"), None);
    assert_eq!(parse_delta("++5"), None);
    assert_eq!(parse_delta("+-5"), None);
    assert_eq!(parse_delta("- 5"), None);
    assert_eq!(parse_delta("+9223372036854775808"), None);
    assert_eq!(parse_delta("+99999999999999999999999"), None);
}
