use netquality::strings::{
    escape_prometheus_str, is_valid_prometheus_name, PName, PNameBuf, PNameBuilder,
};

#[test]
fn valid_names_accepted() {
    assert!(is_valid_prometheus_name("ping_ms"));
    assert!(is_valid_prometheus_name("____"));
    assert!(!is_valid_prometheus_name("ping-ms"));
    assert!(!is_valid_prometheus_name("Ping"));
    assert!(!is_valid_prometheus_name("ping0"));
    assert!(!is_valid_prometheus_name("päng"));
}

#[test]
fn name_round_trips_when_valid() {
    let name = PName::new("network_speed_bps").unwrap();
    assert_eq!(name.to_name_string(), "network_speed_bps");
    assert!(PName::new("no spaces").is_err());
    assert!(PName::new("1234").is_err());
}

#[test]
fn empty_name_rejected() {
    // A name must match one or more characters of [a-z_]; the empty string
    // is not a name.
    assert!(PName::new("").is_err());
}

#[test]
fn escape_backslash_quote_newline() {
    assert_eq!(escape_prometheus_str("plain"), "plain");
    assert_eq!(escape_prometheus_str("a\\b"), "a\\\\b");
    assert_eq!(escape_prometheus_str("say \"hi\""), "say \\\"hi\\\"");
    assert_eq!(escape_prometheus_str("line\nbreak"), "line\\nbreak");
    assert_eq!(escape_prometheus_str(""), "");
}

#[test]
fn escape_mixed_value() {
    // The rendered text holds two-character escapes, not control bytes.
    let escaped = escape_prometheus_str("she said \"hi\"\nbye");
    assert_eq!(escaped, "she said \\\"hi\\\"\\nbye");
    assert!(!escaped.contains('\n'));
}

#[test]
fn name_buffer_concatenates() {
    let mut buf = PNameBuf::new();
    buf.push_name(&PName::new("ping").unwrap());
    buf.push_name(&PName::new("_ms").unwrap());
    assert_eq!(buf.to_name_string(), "ping_ms");
    buf.truncate(4);
    assert_eq!(buf.to_name_string(), "ping");
    buf.clear();
    assert_eq!(buf.to_name_string(), "");
}

#[test]
fn name_stack_push_pop_balances() {
    let mut stack = PNameBuilder::new();
    assert!(stack.is_empty());
    stack.push(&PName::new("network").unwrap());
    stack.push(&PName::new("_speed").unwrap());
    assert_eq!(stack.to_name_string(), "network_speed");
    assert!(stack.pop());
    assert_eq!(stack.to_name_string(), "network");
    assert!(stack.pop());
    assert!(stack.is_empty());
    assert!(!stack.pop());
}
