use crdt_genome::config::{configuration_from_values, parse_usize, ConfigError};

#[test]
fn parses_plain_numbers() {
    assert_eq!(parse_usize("0").unwrap(), 0);
    assert_eq!(parse_usize("123").unwrap(), 123);
    assert_eq!(parse_usize("8000").unwrap(), 8000);
}

#[test]
fn rejects_empty_text() {
    assert!(matches!(parse_usize(""), Err(ConfigError::ParseError(_))));
}

#[test]
fn rejects_non_digits() {
    assert!(matches!(parse_usize("12a"), Err(ConfigError::ParseError(_))));
    assert!(matches!(parse_usize("-3"), Err(ConfigError::ParseError(_))));
    assert!(matches!(parse_usize(" 7"), Err(ConfigError::ParseError(_))));
}

#[test]
fn rejects_numbers_that_do_not_fit() {
    assert!(matches!(
        parse_usize("99999999999999999999999999"),
        Err(ConfigError::ParseError(_))
    ));
}

#[test]
fn assembles_a_full_configuration() {
    let r = configuration_from_values(
        Some("3".to_string()),
        Some("5".to_string()),
        Some("8000".to_string()),
    )
    .unwrap();
    assert_eq!(r.actor_id, 3);
    assert_eq!(r.actor_count, 5);
    assert_eq!(r.base_port_number, 8000);
}

#[test]
fn missing_values_are_fatal_in_order() {
    match configuration_from_values(None, Some("5".to_string()), Some("8000".to_string())) {
        Err(ConfigError::MissingValueError(m)) => assert_eq!(m, "actor"),
        other => panic!("expected a missing-value error, got {:?}", other),
    }
    match configuration_from_values(Some("3".to_string()), None, Some("8000".to_string())) {
        Err(ConfigError::MissingValueError(m)) => assert_eq!(m, "actor_count"),
        other => panic!("expected a missing-value error, got {:?}", other),
    }
    match configuration_from_values(Some("3".to_string()), Some("5".to_string()), None) {
        Err(ConfigError::MissingValueError(m)) => assert_eq!(m, "base_port_number"),
        other => panic!("expected a missing-value error, got {:?}", other),
    }
}

#[test]
fn unparsable_values_are_fatal_with_the_offending_text() {
    match configuration_from_values(
        Some("x".to_string()),
        Some("5".to_string()),
        Some("8000".to_string()),
    ) {
        Err(ConfigError::ParseError(t)) => assert_eq!(t, "x"),
        other => panic!("expected a parse error, got {:?}", other),
    }
    match configuration_from_values(
        Some("3".to_string()),
        Some("five".to_string()),
        Some("8000".to_string()),
    ) {
        Err(ConfigError::ParseError(t)) => assert_eq!(t, "five"),
        other => panic!("expected a parse error, got {:?}", other),
    }
}
