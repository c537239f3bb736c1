use secret_reader::health_body;
use secret_reader::resolver::{
    display_of_result, field_not_found_message, list_fields, lookup_field, resolve_field_at,
    secret_not_found_message, SecretRecord,
};

fn binary_record(pairs: Vec<(&str, &[u8])>) -> SecretRecord {
    SecretRecord {
        binary_fields: Some(
            pairs.into_iter().map(|(k, v)| (k.to_string(), v.to_vec())).collect(),
        ),
        string_fields: None,
    }
}

#[test]
fn password_field_decodes_to_hunter2() {
    let rec = binary_record(vec![("password", b"hunter2")]);
    let fields = list_fields(&rec);
    assert_eq!(fields, vec![("password".to_string(), "hunter2".to_string())]);
}

#[test]
fn binary_listing_is_sorted_strictly_by_key() {
    let rec = binary_record(vec![("b", b"2"), ("a", b"1"), ("c", b"3")]);
    let fields = list_fields(&rec);
    let keys: Vec<&str> = fields.iter().map(|p| p.0.as_str()).collect();
    assert_eq!(keys, vec!["a", "b", "c"]);
    for w in keys.windows(2) {
        assert!(w[0] < w[1]);
    }
}

#[test]
fn listing_uses_binary_map_exclusively() {
    let rec = SecretRecord {
        binary_fields: Some(vec![("a".to_string(), b"1".to_vec())]),
        string_fields: Some(vec![
            ("a".to_string(), "2".to_string()),
            ("b".to_string(), "3".to_string()),
        ]),
    };
    let fields = list_fields(&rec);
    assert_eq!(fields, vec![("a".to_string(), "1".to_string())]);
}

#[test]
fn lookup_checks_binary_first_then_string_map() {
    let rec = SecretRecord {
        binary_fields: Some(vec![("a".to_string(), b"1".to_vec())]),
        string_fields: Some(vec![
            ("a".to_string(), "2".to_string()),
            ("b".to_string(), "3".to_string()),
        ]),
    };
    assert_eq!(lookup_field(&rec, "a"), Some("1".to_string()));
    // the fallback is independent of the binary map being present
    assert_eq!(lookup_field(&rec, "b"), Some("3".to_string()));
    assert_eq!(lookup_field(&rec, "c"), None);
}

#[test]
fn lookup_without_any_map_finds_nothing() {
    let rec = SecretRecord { binary_fields: None, string_fields: None };
    assert_eq!(lookup_field(&rec, "a"), None);
    assert!(list_fields(&rec).is_empty());
}

#[test]
fn string_map_serves_the_listing_when_binary_absent() {
    let rec = SecretRecord {
        binary_fields: None,
        string_fields: Some(vec![
            ("z".to_string(), "26".to_string()),
            ("a".to_string(), "1".to_string()),
        ]),
    };
    let fields = list_fields(&rec);
    assert_eq!(
        fields,
        vec![("a".to_string(), "1".to_string()), ("z".to_string(), "26".to_string())]
    );
}

#[test]
fn invalid_utf8_bytes_get_the_replacement_character() {
    let rec = binary_record(vec![("blob", b"\xffh")]);
    let fields = list_fields(&rec);
    assert_eq!(fields[0].1, "\u{FFFD}h");
}

#[test]
fn totp_descriptor_field_resolves_to_six_digits() {
    let rec = binary_record(vec![(
        "otp",
        b"otpauth://totp/acme?secret=JBSWY3DPEHPK3PXP&period=30",
    )]);
    let code = resolve_field_at(&rec, "otp", 1_234_567_890).unwrap();
    assert_eq!(code.len(), 6);
    assert!(code.chars().all(|c| c.is_ascii_digit()));
    // derived afresh for another time window
    let later = resolve_field_at(&rec, "otp", 1_234_567_890 + 3000).unwrap();
    assert_ne!(code, later);
}

#[test]
fn plain_field_resolves_to_its_raw_value() {
    let rec = binary_record(vec![("password", b"hunter2")]);
    assert_eq!(
        resolve_field_at(&rec, "password", 59),
        Some("hunter2".to_string())
    );
    assert_eq!(resolve_field_at(&rec, "absent", 59), None);
}

#[test]
fn not_found_messages_name_the_missing_piece() {
    let m = secret_not_found_message("missing", "secrets \"missing\" not found");
    assert_eq!(
        m,
        "Secret 'missing' not found: secrets \"missing\" not found"
    );
    assert!(m.contains("'missing'"));
    assert!(m.contains("not found"));
    let f = field_not_found_message("otp", "db");
    assert_eq!(f, "Field 'otp' not found in secret 'db'");
}

#[test]
fn fetch_error_becomes_inline_error_field() {
    let d = display_of_result("db".to_string(), Err("access denied".to_string()));
    assert_eq!(d.name, "db");
    assert_eq!(
        d.fields,
        vec![("error".to_string(), "Failed to read: access denied".to_string())]
    );
    assert_eq!(d.received_at, None);
}

#[test]
fn one_failing_secret_leaves_its_siblings_alone() {
    let ok = display_of_result(
        "db".to_string(),
        Ok(binary_record(vec![("password", b"hunter2")])),
    );
    let bad = display_of_result("locked".to_string(), Err("access denied".to_string()));
    assert_eq!(
        ok.fields,
        vec![("password".to_string(), "hunter2".to_string())]
    );
    assert_eq!(bad.fields[0].0, "error");
}

#[test]
fn health_body_is_constant() {
    assert_eq!(health_body(), "OK");
}
