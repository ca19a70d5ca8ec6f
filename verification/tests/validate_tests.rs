use blaze_db::validate::{email_validate, parse_database_name, valid_database_name, validate_empty_string};

#[test]
fn blank_fields_are_invalid() {
    assert!(!validate_empty_string(""));
    assert!(!validate_empty_string(" \t\r\n"));
    assert!(!validate_empty_string("\u{3000}\u{a0}"));
    assert!(validate_empty_string("  x "));
}

#[test]
fn email_shapes() {
    assert!(email_validate(&"".to_string()).is_ok());
    assert!(email_validate(&"a@b.c".to_string()).is_ok());
    assert!(email_validate(&"first.last@mail.example.org".to_string()).is_ok());
    for bad in ["a@b", "a b@c.d", "a@@b.c", "@b.c", "a@.c", "a@b.", "ab.c", "a@b c.d"] {
        let r = email_validate(&bad.to_string());
        assert_eq!(r, Err("Invalid email format".to_string()), "{}", bad);
    }
}

#[test]
fn database_name_characters() {
    assert!(valid_database_name("books_2024"));
    assert!(!valid_database_name("a/b"));
    assert!(!valid_database_name("a\\b"));
    assert!(!valid_database_name("v1.2"));
}

#[test]
fn parse_database_name_splits_four_parts() {
    let r = parse_database_name("#books_#1234_#768_#2024-01-01").unwrap();
    assert_eq!(r, ("books".to_string(), "1234".to_string(), "768".to_string(), "2024-01-01".to_string()));
    let no_hash = parse_database_name("books_#a_#b_#c").unwrap();
    assert_eq!(no_hash.0, "books");
}

#[test]
fn parse_database_name_rejects_other_shapes() {
    assert!(parse_database_name("books").is_none());
    assert!(parse_database_name("#a_#b_#c").is_none());
    assert!(parse_database_name("#a_#b_#c_#d_#e").is_none());
    assert!(parse_database_name("").is_none());
}

#[test]
fn parse_database_name_round_trip() {
    let parts = ("my_db", "9f1c", "1024", "2025-06-01T10:00:00+00:00");
    let dir = format!("#{}_#{}_#{}_#{}", parts.0, parts.1, parts.2, parts.3);
    let back = parse_database_name(&dir).unwrap();
    assert_eq!((back.0.as_str(), back.1.as_str(), back.2.as_str(), back.3.as_str()), parts);
}
