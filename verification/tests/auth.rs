use world::auth::{
    access_validation, check_header, claims_of, cooldown_passed, needs_fetch, token_claims, token_key_id, AuthError,
    TokenClaims, TokenKeys,
};

fn claims(azp: Option<&str>, preferred: Option<&str>, sub: Option<&str>) -> TokenClaims {
    TokenClaims {
        azp: azp.map(str::to_owned),
        preferred_username: preferred.map(str::to_owned),
        sub: sub.map(str::to_owned),
        roles: None,
    }
}

#[test]
fn only_rs256_tokens_naming_a_key_are_checked() {
    assert_eq!(check_header("RS256", true, Some("k1")), Ok("k1".to_string()));
    assert_eq!(check_header("HS256", false, Some("k1")), Err(AuthError::UnsupportedAlgorithm("HS256".to_string())));
    assert_eq!(check_header("RS256", true, None), Err(AuthError::NoKeyId));
    assert_eq!(check_header("ES256", false, None), Err(AuthError::UnsupportedAlgorithm("ES256".to_string())));
}

#[test]
fn the_token_must_be_issued_to_this_client() {
    assert_eq!(claims_of(&claims(Some("other"), Some("ann"), None), "rift"), Err(AuthError::PartyMismatch));
    assert_eq!(claims_of(&claims(None, Some("ann"), None), "rift"), Err(AuthError::PartyMismatch));
}

#[test]
fn the_holder_is_named_by_preferred_user_name_then_subject() {
    let c = claims_of(&claims(Some("rift"), Some("ann"), Some("id-1")), "rift").unwrap();
    assert_eq!(c.name, "ann");
    let c = claims_of(&claims(Some("rift"), None, Some("id-1")), "rift").unwrap();
    assert_eq!(c.name, "id-1");
    assert_eq!(claims_of(&claims(Some("rift"), None, None), "rift"), Err(AuthError::NoSubject));
}

#[test]
fn realm_roles_keep_their_text_entries_in_order() {
    let mut t = claims(Some("rift"), Some("ann"), None);
    t.roles = Some(vec![Some("spectate".to_string()), None, Some("admin".to_string())]);
    let c = claims_of(&t, "rift").unwrap();
    assert_eq!(c.roles, vec!["spectate".to_string(), "admin".to_string()]);
    let c = claims_of(&claims(Some("rift"), Some("ann"), None), "rift").unwrap();
    assert!(c.roles.is_empty());
}

#[test]
fn the_key_set_is_refetched_for_unknown_keys_after_the_cooldown() {
    assert!(cooldown_passed(None));
    assert!(!cooldown_passed(Some(29_999)));
    assert!(cooldown_passed(Some(30_000)));
    assert!(needs_fetch(false, None));
    assert!(!needs_fetch(false, Some(10)));
    assert!(needs_fetch(false, Some(45_000)));
    assert!(!needs_fetch(true, None));
}

#[test]
fn refusals_read_as_the_server_words_them() {
    assert_eq!(AuthError::NoKeyId.message(), "token has no key id");
    assert_eq!(AuthError::UnknownKey.message(), "token signed by unknown key");
    assert_eq!(AuthError::PartyMismatch.message(), "token authorized party mismatch");
    assert_eq!(AuthError::NoSubject.message(), "token has no subject");
    assert_eq!(AuthError::UnsupportedAlgorithm("HS256".to_string()).message(), "unsupported algorithm HS256");
    assert_eq!(AuthError::BadKeySet("eof".to_string()).message(), "jwks invalid: eof");
    assert_eq!(AuthError::Invalid("ExpiredSignature".to_string()).message(), "ExpiredSignature");
}

const RS256_K1: &str = "eyJhbGciOiJSUzI1NiIsImtpZCI6ImsxIiwidHlwIjoiSldUIn0";
const RS256_NO_KID: &str = "eyJhbGciOiJSUzI1NiIsInR5cCI6IkpXVCJ9";
const HS256_K1: &str = "eyJhbGciOiJIUzI1NiIsImtpZCI6ImsxIiwidHlwIjoiSldUIn0";

#[test]
fn the_key_id_is_read_from_the_token_header() {
    assert_eq!(token_key_id(&format!("{RS256_K1}.e30.c2ln")), Ok("k1".to_string()));
    assert_eq!(token_key_id(&format!("{RS256_NO_KID}.e30.c2ln")), Err(AuthError::NoKeyId));
    assert_eq!(
        token_key_id(&format!("{HS256_K1}.e30.c2ln")),
        Err(AuthError::UnsupportedAlgorithm("HS256".to_string()))
    );
    for bad in ["not a token".to_string(), format!("{RS256_K1}.e30")] {
        let why = jsonwebtoken::decode_header(&bad).unwrap_err().to_string();
        assert_eq!(token_key_id(&bad), Err(AuthError::Malformed(why)));
    }
}

#[test]
fn access_tokens_must_carry_an_expiry_and_an_issuer() {
    let (required, check_audience) = access_validation();
    assert_eq!(required, vec!["exp".to_string(), "iss".to_string()]);
    assert!(!check_audience);
}

#[test]
fn a_token_that_fails_verification_is_refused() {
    let key = jsonwebtoken::DecodingKey::from_secret(b"secret");
    let token = format!("{RS256_K1}.e30.c2ln");
    let mut validation = jsonwebtoken::Validation::new(jsonwebtoken::Algorithm::RS256);
    validation.set_issuer(&["https://realm"]);
    validation.set_required_spec_claims(&["exp", "iss"]);
    validation.validate_aud = false;
    let why = jsonwebtoken::decode::<serde_json::Value>(&token, &key, &validation).err().unwrap().to_string();
    assert_eq!(token_claims(&token, &key, "https://realm", "rift"), Err(AuthError::Invalid(why)));
}

const KEYS: &str = r#"{"keys":[{"kty":"RSA","kid":"k1","n":"AQAB","e":"AQAB"},{"kty":"RSA","kid":"bad","n":"*","e":"AQAB"},{"kty":"RSA","n":"AQAB","e":"AQAB"}]}"#;

#[test]
fn keys_are_found_by_id_in_the_last_key_set_read() {
    let mut keys = TokenKeys::new();
    assert!(!keys.knows("k1"));
    assert!(matches!(keys.key("k1"), Err(AuthError::UnknownKey)));
    assert_eq!(keys.store(KEYS), Ok(()));
    assert!(keys.knows("k1"));
    assert!(keys.knows("bad"));
    assert!(!keys.knows("k2"));
    assert!(keys.key("k1").is_ok());
    assert!(matches!(keys.key("k2"), Err(AuthError::UnknownKey)));
    assert!(matches!(keys.key("bad"), Err(AuthError::UnusableKey(_))));
}

#[test]
fn an_unreadable_key_set_is_refused_and_the_old_keys_kept() {
    let mut keys = TokenKeys::new();
    assert_eq!(keys.store(KEYS), Ok(()));
    let why = serde_json::from_str::<jsonwebtoken::jwk::JwkSet>("{").unwrap_err().to_string();
    assert_eq!(keys.store("{"), Err(AuthError::BadKeySet(why)));
    assert!(keys.knows("k1"));
}
