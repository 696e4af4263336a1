use lumiere::access::{
    authorized, base64url, generate_token, hex_text, random_hex, token_for,
};

#[test]
fn base64url_has_no_padding() {
    assert_eq!(base64url(b"f"), "Zg");
    assert_eq!(base64url(b"fo"), "Zm8");
    assert_eq!(base64url(b"foo"), "Zm9v");
}

#[test]
fn base64url_uses_the_whole_url_safe_alphabet() {
    assert_eq!(base64url(b""), "");
    assert_eq!(base64url(&[0xfb, 0xff, 0xfe]), "-__-");
    assert_eq!(base64url(&[0, 16, 131, 16, 81, 135]), "ABCDEFGH");
    let all: Vec<u8> = (0..=255).collect();
    let text = base64url(&all);
    assert_eq!(text.len(), (4 * 256 + 2) / 3);
    assert!(text
        .chars()
        .all(|c| c.is_ascii_alphanumeric() || c == '-' || c == '_'));
}

#[test]
fn tokens_are_random_and_long() {
    let first = generate_token().unwrap();
    let second = generate_token().unwrap();
    assert_eq!(first.len(), 43);
    assert_ne!(first, second);
    assert_ne!(first, base64url(&[0; 32]));
}

#[test]
fn tokens_are_keys_in_base_64() {
    let mut key = [0; 32];
    key[0] = 4;
    assert_eq!(token_for(Ok(key)), Ok(format!("B{}", "A".repeat(42))));
    assert_eq!(token_for(Err("no entropy".into())), Err("no entropy".into()));
}

#[test]
fn random_hex_has_two_digits_for_each_byte() {
    let first = random_hex(16).unwrap();
    let second = random_hex(16).unwrap();
    assert_eq!(first.len(), 32);
    assert_ne!(first, second);
    assert!(first
        .chars()
        .all(|c| matches!(c, '0'..='9' | 'a'..='f')));
    assert_eq!(random_hex(0).unwrap(), "");
    assert_eq!(hex_text(&[0x00, 0x0f, 0xa0, 0xff]), "000fa0ff");
}

#[test]
fn only_the_token_is_let_in() {
    assert!(authorized(true, Some("Bearer secret"), "secret"));
    assert!(!authorized(true, Some("Bearer secreT"), "secret"));
    assert!(!authorized(true, Some("Bearer secret2"), "secret"));
    assert!(!authorized(true, Some("Bearer secre"), "secret"));
    assert!(!authorized(true, Some("bearer secret"), "secret"));
    assert!(!authorized(true, Some("secret"), "secret"));
    assert!(!authorized(true, None, "secret"));
    assert!(authorized(false, None, "secret"));
    assert!(authorized(false, Some("Bearer wrong"), "secret"));
}
