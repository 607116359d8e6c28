use world::web::{
    authorize_url, base64url, callback_step, cookie, hex, logout_url, oidc_state, origin,
    pkce_challenge, sanitize_return, urlencode, Callback,
    oidc_cookie, session_cookie,
};

#[test]
fn urlencode_keeps_unreserved_and_escapes_the_rest() {
    assert_eq!(urlencode("A-z_0.~"), "A-z_0.~");
    assert_eq!(urlencode("a b&c=d"), "a%20b%26c%3Dd");
    assert_eq!(urlencode("https://rift.localhost/x"), "https%3A%2F%2Frift.localhost%2Fx");
    assert_eq!(urlencode("é"), "%C3%A9");
    assert_eq!(urlencode(""), "");
}

#[test]
fn sign_in_returns_only_to_local_paths() {
    assert_eq!(sanitize_return(Some("/play")), "/play");
    assert_eq!(sanitize_return(Some("/")), "/");
    assert_eq!(sanitize_return(Some("//evil.example")), "/");
    assert_eq!(sanitize_return(Some("/\\evil.example")), "/");
    assert_eq!(sanitize_return(Some("https://evil.example")), "/");
    assert_eq!(sanitize_return(Some("")), "/");
    assert_eq!(sanitize_return(None), "/");
}

#[test]
fn origin_cuts_at_the_path() {
    assert_eq!(origin("https://rift.localhost/auth/callback"), "https://rift.localhost");
    assert_eq!(origin("https://rift.localhost"), "https://rift.localhost");
    assert_eq!(origin("rift.localhost/auth"), "rift.localhost/auth");
    assert_eq!(origin("http://a:8080/b/c"), "http://a:8080");
}

#[test]
fn base64url_matches_the_rfc_vectors_without_padding() {
    assert_eq!(base64url(b""), "");
    assert_eq!(base64url(b"f"), "Zg");
    assert_eq!(base64url(b"fo"), "Zm8");
    assert_eq!(base64url(b"foo"), "Zm9v");
    assert_eq!(base64url(b"foob"), "Zm9vYg");
    assert_eq!(base64url(b"fooba"), "Zm9vYmE");
    assert_eq!(base64url(b"foobar"), "Zm9vYmFy");
    assert_eq!(base64url(&[0xfb, 0xff]), "-_8");
}

#[test]
fn pkce_challenge_is_the_base64url_sha256_of_the_verifier() {
    assert_eq!(pkce_challenge(""), "47DEQpj8HBSa-_TImW-5JCeuQeRkm5NMpJWZG3hSuFU");
    assert_eq!(pkce_challenge("abc"), "ungWv48Bz-pBQUDeXa4iI7ADYaOWF3qctBD_YfIAFa0");
}

#[test]
fn hex_is_two_lower_case_digits_per_byte() {
    assert_eq!(hex(&[0x00, 0xab, 0x10, 0xff]), "00ab10ff");
    assert_eq!(hex(&[]), "");
}

#[test]
fn cookie_finds_the_named_pair() {
    let header = "a=1; oidc=s.v./play; idt=tok";
    assert_eq!(cookie(Some(header), "oidc").as_deref(), Some("s.v./play"));
    assert_eq!(cookie(Some(header), "idt").as_deref(), Some("tok"));
    assert_eq!(cookie(Some(header), "a").as_deref(), Some("1"));
    assert_eq!(cookie(Some(header), "token"), None);
    assert_eq!(cookie(Some("oidcx=1"), "oidc"), None);
    assert_eq!(cookie(Some("oidc"), "oidc"), None);
    assert_eq!(cookie(Some("oidc="), "oidc").as_deref(), Some(""));
    assert_eq!(cookie(None, "oidc"), None);
}

#[test]
fn the_sign_in_cookie_splits_into_three_parts() {
    assert_eq!(
        oidc_state("ab.cd./return.path"),
        Some(("ab".to_string(), "cd".to_string(), "/return.path".to_string()))
    );
    assert_eq!(oidc_state("ab.cd"), None);
    assert_eq!(oidc_state("abcd"), None);
    assert_eq!(
        oidc_state(".."),
        Some((String::new(), String::new(), String::new()))
    );
}

#[test]
fn the_callback_exchanges_only_with_a_matching_state_and_a_code() {
    match callback_step(Some("st.ver./play"), Some("st"), Some("code1")) {
        Callback::Exchange { code, verifier, return_path } => {
            assert_eq!(code, "code1");
            assert_eq!(verifier, "ver");
            assert_eq!(return_path, "/play");
        }
        Callback::Home => panic!("a matching callback must exchange its code"),
    }
    assert!(matches!(callback_step(Some("st.ver./play"), Some("other"), Some("c")), Callback::Home));
    assert!(matches!(callback_step(Some("st.ver./play"), Some("st"), None), Callback::Home));
    assert!(matches!(callback_step(Some("st.ver./play"), None, Some("c")), Callback::Home));
    assert!(matches!(callback_step(Some("st-ver"), Some("st-ver"), Some("c")), Callback::Home));
    assert!(matches!(callback_step(None, Some("st"), Some("c")), Callback::Home));
}

#[test]
fn the_authorization_address_carries_the_pkce_parameters() {
    assert_eq!(
        authorize_url(
            "https://auth.rift.localhost/realms/rift",
            "rift",
            "https://rift.localhost/auth/callback",
            "0a1b",
            "E9Mel",
        ),
        "https://auth.rift.localhost/realms/rift/protocol/openid-connect/auth?client_id=rift\
         &redirect_uri=https%3A%2F%2Frift.localhost%2Fauth%2Fcallback&response_type=code\
         &scope=openid%20profile&state=0a1b&code_challenge=E9Mel&code_challenge_method=S256"
    );
}

#[test]
fn the_logout_address_returns_to_the_site_origin() {
    let authority = "https://auth.rift.localhost/realms/rift";
    let redirect = "https://rift.localhost/auth/callback";
    assert_eq!(
        logout_url(authority, "rift", redirect, Some("a.b")),
        "https://auth.rift.localhost/realms/rift/protocol/openid-connect/logout?client_id=rift\
         &post_logout_redirect_uri=https%3A%2F%2Frift.localhost&id_token_hint=a.b"
    );
    assert_eq!(
        logout_url(authority, "rift", redirect, None),
        "https://auth.rift.localhost/realms/rift/protocol/openid-connect/logout?client_id=rift\
         &post_logout_redirect_uri=https%3A%2F%2Frift.localhost"
    );
}

#[test]
fn the_sign_in_cookie_set_is_read_back() {
    let set = oidc_cookie("ab12", "cd34", "/play");
    assert_eq!(set, "oidc=ab12.cd34./play; Path=/; Max-Age=600; HttpOnly; Secure; SameSite=Lax");
    // The browser sends back the pair without its attributes.
    let pair = set.split("; ").next().unwrap();
    let value = cookie(Some(pair), "oidc").unwrap();
    assert_eq!(oidc_state(&value), Some(("ab12".to_string(), "cd34".to_string(), "/play".to_string())));
    assert_eq!(session_cookie("token", "t0k"), "token=t0k; Path=/; HttpOnly; Secure; SameSite=Lax");
    assert_eq!(cookie(Some("idt=x; token=t0k"), "token"), Some("t0k".to_string()));
}
