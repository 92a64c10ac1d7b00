use garupa::api::auth::api_key_allowed;

#[test]
fn empty_key_lets_everything_through() {
    assert!(api_key_allowed("", None, None));
    assert!(api_key_allowed("", Some("whatever"), Some("Bearer x")));
}

#[test]
fn x_api_key_header_must_match() {
    assert!(api_key_allowed("secret", Some("secret"), None));
    assert!(!api_key_allowed("secret", Some("secret "), None));
    assert!(!api_key_allowed("secret", Some("wrong"), None));
    assert!(!api_key_allowed("secret", None, None));
}

#[test]
fn bearer_token_is_trimmed_and_compared() {
    assert!(api_key_allowed("secret", None, Some("Bearer secret")));
    assert!(api_key_allowed("secret", None, Some("Bearer   secret \t")));
    assert!(!api_key_allowed("secret", None, Some("bearer secret")));
    assert!(!api_key_allowed("secret", None, Some("Basic secret")));
    assert!(!api_key_allowed("secret", None, Some("Bearer")));
    assert!(!api_key_allowed("secret", None, Some("Bearer other")));
}

#[test]
fn x_api_key_takes_precedence_over_authorization() {
    assert!(!api_key_allowed("secret", Some("wrong"), Some("Bearer secret")));
    assert!(api_key_allowed("secret", Some("secret"), Some("Bearer wrong")));
}

#[test]
fn unicode_keys_compare_by_characters() {
    assert!(api_key_allowed("clé", Some("clé"), None));
    assert!(api_key_allowed("clé", None, Some("Bearer clé\u{3000}")));
    assert!(!api_key_allowed("clé", Some("cle"), None));
}
