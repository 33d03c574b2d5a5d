use cashew::{CashewError, CashewExpression, CashewParser};

#[test]
fn test_parse_get() {
    let exprs = CashewParser::parse(r#"get "alice""#).unwrap();
    assert_eq!(exprs, vec![CashewExpression::Get("alice".to_string())]);
}

#[test]
fn test_parse_keys() {
    let exprs = CashewParser::parse("keys").unwrap();
    assert_eq!(exprs, vec![CashewExpression::Keys]);
}

#[test]
fn test_parse_sorted_keys() {
    let exprs = CashewParser::parse("keys sorted limit 10").unwrap();
    assert_eq!(
        exprs,
        vec![CashewExpression::SortedKeys {
            limit: Some(10),
            after: None
        }]
    );
}

#[test]
fn test_parse_count() {
    let exprs = CashewParser::parse("count").unwrap();
    assert_eq!(exprs, vec![CashewExpression::Count]);
}

#[test]
fn test_parse_insert() {
    let exprs = CashewParser::parse(r#"insert "name" = "alice""#).unwrap();
    assert_eq!(
        exprs,
        vec![CashewExpression::Insert {
            key: "name".to_string(),
            value: "alice".to_string()
        }]
    );
}

#[test]
fn test_parse_delete() {
    let exprs = CashewParser::parse(r#"delete "name""#).unwrap();
    assert_eq!(exprs, vec![CashewExpression::Delete("name".to_string())]);
}

#[test]
fn test_parse_pipe() {
    let exprs = CashewParser::parse(r#"get "users" | keys"#).unwrap();
    assert_eq!(
        exprs,
        vec![
            CashewExpression::Get("users".to_string()),
            CashewExpression::Keys,
        ]
    );
}

#[test]
fn test_parse_contains() {
    let exprs = CashewParser::parse(r#"contains "alice""#).unwrap();
    assert_eq!(exprs, vec![CashewExpression::Contains("alice".to_string())]);
}

#[test]
fn test_parse_empty() {
    assert!(CashewParser::parse("").is_err());
}

#[test]
fn test_parse_append() {
    let exprs = CashewParser::parse(r#"append "value""#).unwrap();
    assert_eq!(exprs, vec![CashewExpression::Append("value".to_string())]);
}

// ---- further cases ----

#[test]
fn parse_whitespace_only_is_empty_expression() {
    assert!(matches!(CashewParser::parse("   "), Err(CashewError::EmptyExpression)));
}

#[test]
fn parse_set_and_update() {
    let exprs = CashewParser::parse(r#"set "k" = "v" | update "k" = "w""#).unwrap();
    assert_eq!(
        exprs,
        vec![
            CashewExpression::Put { key: "k".to_string(), value: "v".to_string() },
            CashewExpression::Update { key: "k".to_string(), value: "w".to_string() },
        ]
    );
}

#[test]
fn parse_sorted_values_with_after() {
    let exprs = CashewParser::parse(r#"values sorted after "b" limit 3"#).unwrap();
    assert_eq!(
        exprs,
        vec![CashewExpression::SortedValues { limit: Some(3), after: Some("b".to_string()) }]
    );
}

#[test]
fn parse_array_commands() {
    let exprs = CashewParser::parse("first | last | get 3").unwrap();
    assert_eq!(
        exprs,
        vec![CashewExpression::First, CashewExpression::Last, CashewExpression::GetAt(3)]
    );
}

#[test]
fn parse_unknown_command_fails() {
    assert!(CashewParser::parse("frobnicate").is_err());
    assert!(CashewParser::parse("get").is_err());
}

#[test]
fn unicode_whitespace_separates_tokens() {
    let plain = CashewParser::parse("keys sorted").unwrap();
    let wide = CashewParser::parse("keys\u{3000}sorted\u{2028}").unwrap();
    assert_eq!(plain, wide);
}
