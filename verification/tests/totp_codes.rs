use secret_reader::totp::{code_or_value_at, generate_totp_code, generate_totp_code_at};

// base32 of the ASCII secret "12345678901234567890", the RFC 6238 test key
const RFC_SECRET: &str = "GEZDGNBVGY3TQOJQGEZDGNBVGY3TQOJQ";

fn rfc_uri() -> String {
    format!("otpauth://totp/Test?secret={}&period=30", RFC_SECRET)
}

#[test]
fn rfc6238_vector_at_59() {
    let code = generate_totp_code_at(&rfc_uri(), 59).unwrap();
    assert_eq!(code, "287082");
}

#[test]
fn rfc6238_vector_at_1111111109() {
    let code = generate_totp_code_at(&rfc_uri(), 1111111109).unwrap();
    assert_eq!(code, "081804");
}

#[test]
fn rfc6238_vector_at_1111111111() {
    let code = generate_totp_code_at(&rfc_uri(), 1111111111).unwrap();
    assert_eq!(code, "050471");
}

#[test]
fn rfc6238_vector_at_2000000000() {
    let code = generate_totp_code_at(&rfc_uri(), 2000000000).unwrap();
    assert_eq!(code, "279037");
}

#[test]
fn zero_padding_is_kept() {
    // the 1111111111 vector starts with a zero digit
    let code = generate_totp_code_at(&rfc_uri(), 1111111111).unwrap();
    assert_eq!(code.len(), 6);
    assert!(code.starts_with('0'));
}

#[test]
fn matches_reference_library() {
    let secret: Vec<u8> = b"12345678901234567890".to_vec();
    let reference = totp_rs::Builder::new()
        .with_secret(secret)
        .build_noncompliant()
        .generate(1_700_000_000)
        .to_string();
    let ours = generate_totp_code_at(&rfc_uri(), 1_700_000_000).unwrap();
    assert_eq!(ours, reference);
}

#[test]
fn short_secret_matches_reference_library() {
    // "Hello!\xde\xad\xbe\xef" in base32
    let uri = "otpauth://totp/acme?secret=JBSWY3DPEHPK3PXP&period=30";
    let secret: Vec<u8> = b"Hello!\xde\xad\xbe\xef".to_vec();
    let reference = totp_rs::Builder::new()
        .with_secret(secret)
        .build_noncompliant()
        .generate(1_234_567_890)
        .to_string();
    let ours = generate_totp_code_at(uri, 1_234_567_890).unwrap();
    assert_eq!(ours, reference);
}

#[test]
fn two_character_secret_matches_reference_library() {
    // "ME" is the unpadded base32 of the single byte "a"
    let reference = totp_rs::Builder::new()
        .with_secret(b"a".to_vec())
        .build_noncompliant()
        .generate(59)
        .to_string();
    let ours = generate_totp_code_at("otpauth://totp/x?secret=ME", 59).unwrap();
    assert_eq!(ours, reference);
}

#[test]
fn five_character_secret_matches_reference_library() {
    // "MFRGG" is the unpadded base32 of "abc"
    let reference = totp_rs::Builder::new()
        .with_secret(b"abc".to_vec())
        .build_noncompliant()
        .generate(59)
        .to_string();
    let ours = generate_totp_code_at("otpauth://totp/x?secret=MFRGG", 59).unwrap();
    assert_eq!(ours, reference);
}

#[test]
fn period_defaults_to_thirty_when_absent() {
    let without = format!("otpauth://totp/Test?secret={}", RFC_SECRET);
    let with = rfc_uri();
    let a = generate_totp_code_at(&without, 59).unwrap();
    let b = generate_totp_code_at(&with, 59).unwrap();
    assert_eq!(a, b);
    assert_eq!(a, "287082");
}

#[test]
fn period_defaults_when_unparsable() {
    let bad = format!("otpauth://totp/Test?secret={}&period=soon", RFC_SECRET);
    assert_eq!(generate_totp_code_at(&bad, 59).unwrap(), "287082");
}

#[test]
fn period_defaults_when_zero() {
    let zero = format!("otpauth://totp/Test?secret={}&period=0", RFC_SECRET);
    assert_eq!(generate_totp_code_at(&zero, 59).unwrap(), "287082");
}

#[test]
fn period_defaults_when_too_large_to_fit() {
    let huge = format!(
        "otpauth://totp/Test?secret={}&period=18446744073709551616",
        RFC_SECRET
    );
    assert_eq!(generate_totp_code_at(&huge, 59).unwrap(), "287082");
}

#[test]
fn custom_period_changes_the_counter() {
    let sixty = format!("otpauth://totp/Test?secret={}&period=60", RFC_SECRET);
    // at t = 59 the 60-second counter is still 0, like the 30-second one at t = 29
    let a = generate_totp_code_at(&sixty, 59).unwrap();
    let b = generate_totp_code_at(&rfc_uri(), 29).unwrap();
    assert_eq!(a, b);
}

#[test]
fn lowercase_secret_is_rejected() {
    // the alphabet is read strictly: upper case letters and digits two to
    // seven only, so a lowercase secret yields no code
    let lower = format!(
        "otpauth://totp/Test?secret={}",
        RFC_SECRET.to_lowercase()
    );
    assert!(generate_totp_code_at(&lower, 59).is_none());
    let raw = code_or_value_at(lower.clone(), 59);
    assert_eq!(raw, lower);
}

#[test]
fn repeated_parameter_last_occurrence_wins() {
    let twice = format!(
        "otpauth://totp/Test?secret=AAAA&secret={}&period=90&period=30",
        RFC_SECRET
    );
    assert_eq!(generate_totp_code_at(&twice, 59).unwrap(), "287082");
}

#[test]
fn no_code_without_prefix() {
    assert!(generate_totp_code_at("https://example.com/?secret=ABCD", 59).is_none());
    assert!(generate_totp_code_at("", 59).is_none());
}

#[test]
fn no_code_without_secret_parameter() {
    assert!(generate_totp_code_at("otpauth://totp/Test?period=30", 59).is_none());
    assert!(generate_totp_code_at("otpauth://totp/Test", 59).is_none());
}

#[test]
fn no_code_on_bad_base32() {
    // '1' and '!' are outside the alphabet
    assert!(generate_totp_code_at("otpauth://totp/Test?secret=AB1C", 59).is_none());
    assert!(generate_totp_code_at("otpauth://totp/Test?secret=A!", 59).is_none());
}

#[test]
fn no_code_before_the_epoch() {
    assert!(generate_totp_code_at(&rfc_uri(), -1).is_none());
}

#[test]
fn live_clock_produces_six_digits() {
    let code = generate_totp_code(&rfc_uri()).unwrap();
    assert_eq!(code.len(), 6);
    assert!(code.chars().all(|c| c.is_ascii_digit()));
}

#[test]
fn code_or_value_substitutes_only_descriptors() {
    let substituted = code_or_value_at(rfc_uri(), 59);
    assert_eq!(substituted, "287082");
    let raw = code_or_value_at("hunter2".to_string(), 59);
    assert_eq!(raw, "hunter2");
    // a descriptor that fails to parse falls back to the raw value
    let broken = code_or_value_at("otpauth://totp/Test?period=30".to_string(), 59);
    assert_eq!(broken, "otpauth://totp/Test?period=30");
}
