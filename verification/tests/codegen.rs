use steam_guard::CodeError;
use steam_guard::generate_steam_guard_code;
use steam_guard::normalize;

const ALPHABET: &str = "23456789BCDFGHJKMNPQRTVWXY";

#[test]
fn generate_is_deterministic() {
    let a = generate_steam_guard_code("aaaaaaaaaaaaaaaa", 1700000000).unwrap();
    let b = generate_steam_guard_code("aaaaaaaaaaaaaaaa", 1700000000).unwrap();
    assert_eq!(a, b);
    let c = generate_steam_guard_code("MTIzNDU2Nzg5MA==", 12345).unwrap();
    let d = generate_steam_guard_code("MTIzNDU2Nzg5MA==", 12345).unwrap();
    assert_eq!(c, d);
}

#[test]
fn same_window_same_code() {
    // 30..=59 all lie in window 1.
    let a = generate_steam_guard_code("aaaaaaaaaaaaaaaa", 30).unwrap();
    let b = generate_steam_guard_code("aaaaaaaaaaaaaaaa", 59).unwrap();
    assert_eq!(a, b);
    let c = generate_steam_guard_code("MTIzNDU2Nzg5MA==", 1700000010).unwrap();
    let d = generate_steam_guard_code("MTIzNDU2Nzg5MA==", 1700000029).unwrap();
    assert_eq!(c, d);
}

#[test]
fn different_window_different_code() {
    let a = generate_steam_guard_code("aaaaaaaaaaaaaaaa", 0).unwrap();
    let b = generate_steam_guard_code("aaaaaaaaaaaaaaaa", 30).unwrap();
    assert_ne!(a, b);
}

#[test]
fn code_shape() {
    for t in [0u64, 29, 30, 1700000000, u64::MAX] {
        for s in ["aaaaaaaaaaaaaaaa", "MTIzNDU2Nzg5MA==", "QUJDREVGR0g="] {
            let code = generate_steam_guard_code(s, t).unwrap();
            assert_eq!(code.chars().count(), 5);
            for c in code.chars() {
                assert!(ALPHABET.contains(c));
            }
        }
    }
}

#[test]
fn wrapping_does_not_change_code() {
    let plain = generate_steam_guard_code("aaaaaaaaaaaaaaaa", 1234567).unwrap();
    let double_quoted = generate_steam_guard_code("\"aaaaaaaaaaaaaaaa\"", 1234567).unwrap();
    let single_quoted = generate_steam_guard_code("'aaaaaaaaaaaaaaaa'", 1234567).unwrap();
    let padded = generate_steam_guard_code("  aaaaaaaaaaaaaaaa \n\t", 1234567).unwrap();
    let both = generate_steam_guard_code(" \t\"aaaaaaaaaaaaaaaa\"  ", 1234567).unwrap();
    assert_eq!(plain, double_quoted);
    assert_eq!(plain, single_quoted);
    assert_eq!(plain, padded);
    assert_eq!(plain, both);
}

#[test]
fn invalid_base64_is_decode_error() {
    assert_eq!(
        generate_steam_guard_code("not valid base64!!", 0),
        Err(CodeError::DecodeError)
    );
    assert_eq!(generate_steam_guard_code("%%%", 12345), Err(CodeError::DecodeError));
    // Wrong padding is rejected by the standard engine.
    assert_eq!(generate_steam_guard_code("YWJjZA", 0), Err(CodeError::DecodeError));
    assert_eq!(
        generate_steam_guard_code("!!!", 7).unwrap_err().message(),
        "Failed to decode Base64"
    );
}

#[test]
fn empty_secret_decodes_to_empty_key() {
    // "''" normalizes to the empty string, which is valid (empty) base64.
    let a = generate_steam_guard_code("''", 100).unwrap();
    let b = generate_steam_guard_code("", 100).unwrap();
    assert_eq!(a, b);
    assert_eq!(a.chars().count(), 5);
}

#[test]
fn known_answer_vector() {
    // Pinned vector: secret "aaaaaaaaaaaaaaaa" (twelve bytes 0x69 0xa6 0x9a
    // repeated) at time 0.
    let code = generate_steam_guard_code("aaaaaaaaaaaaaaaa", 0).unwrap();
    assert_eq!(code, "7WBBJ");
}

#[test]
fn known_answer_nonzero_counter() {
    // A second pinned vector with a counter whose bytes are all distinct,
    // locking in the big-endian counter encoding.
    let code = generate_steam_guard_code("MTIzNDU2Nzg5MA==", 1234567890).unwrap();
    assert_eq!(code, "H7FQ2");
}

#[test]
fn normalize_trims_and_unquotes() {
    assert_eq!(normalize("  \"abc\"  "), "abc");
    assert_eq!(normalize("'abc'"), "abc");
    assert_eq!(normalize("abc"), "abc");
    assert_eq!(normalize("  abc\t"), "abc");
    // Only one matching layer of quotes is stripped.
    assert_eq!(normalize("\"'abc'\""), "'abc'");
    assert_eq!(normalize("''"), "");
    // Unmatched quotes stay.
    assert_eq!(normalize("\"abc'"), "\"abc'");
    assert_eq!(normalize("\"abc"), "\"abc");
    assert_eq!(normalize(""), "");
}
