//! The decisions of access-token verification: which signing algorithm is accepted, which key
//! signs, when the realm's key set is fetched again, and what a verified token says of its
//! holder.

use vstd::prelude::*;

use crate::text::{append, owned, str_eq};

verus! {

/// Who a verified token names, and the realm roles it grants.
#[derive(Clone, Debug, PartialEq, Eq)]
pub struct Claims {
    pub name: String,
    pub roles: Vec<String>,
}

/// What a token's payload says, as read from its JSON: the authorized party, the two names,
/// and the realm roles (`None` for a role entry that is not text; `None` for the whole list
/// when the token carries none).
pub struct TokenClaims {
    pub azp: Option<String>,
    pub preferred_username: Option<String>,
    pub sub: Option<String>,
    pub roles: Option<Vec<Option<String>>>,
}

/// Why a token is refused.
#[derive(Clone, Debug, PartialEq, Eq)]
pub enum AuthError {
    /// The header names an algorithm other than RS256; its name.
    UnsupportedAlgorithm(String),
    /// The header names no key.
    NoKeyId,
    /// The key set has no key of that id.
    UnknownKey,
    /// The token was issued to another client.
    PartyMismatch,
    /// The token names nobody.
    NoSubject,
    /// The token's header cannot be read; why.
    Malformed(String),
    /// The token fails verification (a bad signature, an expired token, another issuer); why.
    Invalid(String),
    /// The realm's key set document cannot be read; why.
    BadKeySet(String),
    /// The key of that id cannot verify anything; why.
    UnusableKey(String),
}

/// A refusal in words.
pub open spec fn message_of(e: AuthError) -> Seq<char> {
    match e {
        AuthError::UnsupportedAlgorithm(alg) => "unsupported algorithm "@ + alg@,
        AuthError::NoKeyId => "token has no key id"@,
        AuthError::UnknownKey => "token signed by unknown key"@,
        AuthError::PartyMismatch => "token authorized party mismatch"@,
        AuthError::NoSubject => "token has no subject"@,
        AuthError::Malformed(why) => why@,
        AuthError::Invalid(why) => why@,
        AuthError::BadKeySet(why) => "jwks invalid: "@ + why@,
        AuthError::UnusableKey(why) => why@,
    }
}

impl AuthError {
    /// The refusal in words.
    pub fn message(&self) -> (m: String)
        ensures
            m@ == message_of(*self),
    {
        match self {
            AuthError::UnsupportedAlgorithm(alg) => {
                let mut m = owned("unsupported algorithm ");
                append(&mut m, alg.as_str());
                m
            },
            AuthError::NoKeyId => owned("token has no key id"),
            AuthError::UnknownKey => owned("token signed by unknown key"),
            AuthError::PartyMismatch => owned("token authorized party mismatch"),
            AuthError::NoSubject => owned("token has no subject"),
            AuthError::Malformed(why) => owned(why.as_str()),
            AuthError::Invalid(why) => owned(why.as_str()),
            AuthError::BadKeySet(why) => {
                let mut m = owned("jwks invalid: ");
                append(&mut m, why.as_str());
                m
            },
            AuthError::UnusableKey(why) => owned(why.as_str()),
        }
    }
}

/// The key id to verify with: only RS256 tokens that name a key get one; another algorithm is
/// refused by its name `alg`.
pub fn check_header(alg: &str, rs256: bool, kid: Option<&str>) -> (r: Result<String, AuthError>)
    ensures
        !rs256 ==> (r matches Err(AuthError::UnsupportedAlgorithm(a)) && a@ == alg@),
        rs256 && kid is None ==> r == Err::<String, AuthError>(AuthError::NoKeyId),
        rs256 && kid is Some ==> r is Ok && r->Ok_0@ == kid->0@,
{
    if !rs256 {
        return Err(AuthError::UnsupportedAlgorithm(owned(alg)));
    }
    match kid {
        Some(k) => Ok(k.to_owned()),
        None => Err(AuthError::NoKeyId),
    }
}

/// The refetch cooldown of the key set, in milliseconds.
pub const COOLDOWN_MS: u64 = 30000;

/// Whether the key set may be fetched again: never fetched, or the last fetch is at least the
/// cooldown ago.
pub fn cooldown_passed(since_last_fetch_ms: Option<u64>) -> (r: bool)
    ensures
        r == match since_last_fetch_ms {
            None => true,
            Some(ms) => ms >= COOLDOWN_MS,
        },
{
    match since_last_fetch_ms {
        None => true,
        Some(ms) => ms >= COOLDOWN_MS,
    }
}

/// Whether to fetch the key set before looking a key up: the key is unknown and the cooldown
/// has passed (so a rotated key is picked up, but a flood of bad ids cannot hammer the realm).
pub fn needs_fetch(known: bool, since_last_fetch_ms: Option<u64>) -> (r: bool)
    ensures
        r == (!known && match since_last_fetch_ms {
            None => true,
            Some(ms) => ms >= COOLDOWN_MS,
        }),
{
    !known && cooldown_passed(since_last_fetch_ms)
}

/// The text roles of a role list, in order, skipping entries that are not text.
pub open spec fn text_roles(roles: Seq<Option<String>>) -> Seq<Seq<char>>
    decreases roles.len(),
{
    if roles.len() == 0 {
        seq![]
    } else {
        text_roles(roles.drop_last()) + match roles.last() {
            Some(r) => seq![r@],
            None => seq![],
        }
    }
}

pub open spec fn views(v: Seq<String>) -> Seq<Seq<char>> {
    v.map_values(|s: String| s@)
}

/// What a decoded token says of its holder, for client `audience`: it must be authorized for
/// that client, and it names its holder by preferred user name, else by subject.
pub fn claims_of(claims: &TokenClaims, audience: &str) -> (r: Result<Claims, AuthError>)
    ensures
        match claims.azp {
            Some(a) if a@ == audience@ => match (claims.preferred_username, claims.sub) {
                (Some(n), _) => r is Ok && r->Ok_0.name@ == n@,
                (None, Some(s)) => r is Ok && r->Ok_0.name@ == s@,
                (None, None) => r == Err::<Claims, AuthError>(AuthError::NoSubject),
            },
            _ => r == Err::<Claims, AuthError>(AuthError::PartyMismatch),
        },
        r is Ok ==> views(r->Ok_0.roles@) == match claims.roles {
            Some(v) => text_roles(v@),
            None => seq![],
        },
{
    let authorized = match &claims.azp {
        Some(a) => str_eq(a.as_str(), audience),
        None => false,
    };
    if !authorized {
        return Err(AuthError::PartyMismatch);
    }
    let name = match &claims.preferred_username {
        Some(n) => n.clone(),
        None => match &claims.sub {
            Some(s) => s.clone(),
            None => return Err(AuthError::NoSubject),
        },
    };
    let mut roles: Vec<String> = Vec::new();
    match &claims.roles {
        Some(list) => {
            let mut i: usize = 0;
            while i < list.len()
                invariant
                    i <= list@.len(),
                    views(roles@) == text_roles(list@.take(i as int)),
                decreases list@.len() - i,
            {
                assert(list@.take(i + 1).drop_last() =~= list@.take(i as int));
                match &list[i] {
                    Some(role) => {
                        roles.push(role.clone());
                        assert(views(roles@) =~= text_roles(list@.take(i as int)) + seq![role@]);
                    },
                    None => {
                        assert(views(roles@) =~= text_roles(list@.take(i as int)) + seq![]);
                    },
                }
                i = i + 1;
            }
            assert(list@.take(list@.len() as int) =~= list@);
        },
        None => {
            assert(views(roles@) =~= seq![]);
        },
    }
    Ok(Claims { name, roles })
}

/// What a token's header declares, read without verifying anything: the name of its algorithm
/// (`RS256`, `HS256`, ...), whether that is RS256, and the key id it names; or, when the token
/// is not three dot-separated parts or its header is not a readable JSON header, why.
pub uninterp spec fn jwt_header(token: Seq<char>) -> Result<(Seq<char>, bool, Option<Seq<char>>), Seq<char>>;

/// `jsonwebtoken::decode_header`: reads the header of `token` without verifying it; its result
/// (the algorithm's name as the crate writes it, whether it is RS256, the key id, or the error's
/// text) is named [`jwt_header`]. It reads the token alone and does not panic.
#[verifier::external_body]
fn decode_token_header(token: &str) -> (r: Result<(String, bool, Option<String>), String>)
    ensures
        match (r, jwt_header(token@)) {
            (Err(e), Err(t)) => e@ == t,
            (Ok(h), Ok(s)) => h.0@ == s.0 && h.1 == s.1 && match (h.2, s.2) {
                (None, None) => true,
                (Some(k), Some(t)) => k@ == t,
                _ => false,
            },
            _ => false,
        },
{
    match jsonwebtoken::decode_header(token) {
        Ok(header) => Ok((format!("{:?}", header.alg), header.alg == jsonwebtoken::Algorithm::RS256, header.kid)),
        Err(error) => Err(error.to_string()),
    }
}

/// The key id to verify `token` with, read from its header: refused with the reason when the
/// header cannot be read, and otherwise as [`check_header`] decides.
pub fn token_key_id(token: &str) -> (r: Result<String, AuthError>)
    ensures
        match jwt_header(token@) {
            Err(why) => (r matches Err(AuthError::Malformed(m)) && m@ == why),
            Ok((alg, rs256, kid)) => {
                &&& !rs256 ==> (r matches Err(AuthError::UnsupportedAlgorithm(a)) && a@ == alg)
                &&& rs256 && kid is None ==> r == Err::<String, AuthError>(AuthError::NoKeyId)
                &&& rs256 && kid is Some ==> r is Ok && r->Ok_0@ == kid->0
            },
        },
{
    match decode_token_header(token) {
        Err(why) => Err(AuthError::Malformed(why)),
        Ok((alg, rs256, kid)) => match kid {
            Some(k) => check_header(alg.as_str(), rs256, Some(k.as_str())),
            None => check_header(alg.as_str(), rs256, None),
        },
    }
}

#[verifier::external_type_specification]
#[verifier::external_body]
pub struct ExDecodingKey(jsonwebtoken::DecodingKey);

#[verifier::external_type_specification]
#[verifier::external_body]
pub struct ExJsonValue(serde_json::Value);

#[verifier::external_type_specification]
#[verifier::external_body]
pub struct ExJwkSet(jsonwebtoken::jwk::JwkSet);

#[verifier::external_type_specification]
#[verifier::external_body]
pub struct ExJwk(jsonwebtoken::jwk::Jwk);

/// The claims an access token must carry to be accepted.
pub open spec fn access_claims() -> Seq<Seq<char>> {
    seq!["exp"@, "iss"@]
}

/// The settings access tokens are verified under: the claims they must carry (an expiry and an
/// issuer), and whether their audience is checked (never: the realm names the client in `azp`,
/// which [`claims_of`] checks).
pub fn access_validation() -> (r: (Vec<String>, bool))
    ensures
        views(r.0@) == access_claims(),
        !r.1,
{
    let required = vec![owned("exp"), owned("iss")];
    assert(views(required@) =~= access_claims());
    (required, false)
}

/// `jsonwebtoken::decode`: verifies `token`'s RS256 signature with `key` and that it has not
/// expired (against the system clock), and checks that it names `issuer` as its issuer, that it
/// carries each claim of `required`, and its audience only when `check_audience`; gives back its
/// payload, or the error's text. The library calls it only with the settings of
/// [`access_validation`]. The outcome rests on the clock and the key, so nothing is promised of
/// it.
#[verifier::external_body]
fn decode_payload(
    token: &str,
    key: &jsonwebtoken::DecodingKey,
    issuer: &str,
    required: &[String],
    check_audience: bool,
) -> (r: Result<serde_json::Value, String>)
    requires
        views(required@) == access_claims(),
        !check_audience,
{
    let mut validation = jsonwebtoken::Validation::new(jsonwebtoken::Algorithm::RS256);
    validation.set_issuer(&[issuer]);
    validation.set_required_spec_claims(required);
    validation.validate_aud = check_audience;
    jsonwebtoken::decode::<serde_json::Value>(token, key, &validation).map(|data| data.claims).map_err(|error| error.to_string())
}

/// Reads a verified payload's fields out of its JSON (`serde_json`'s `get`, `as_str`,
/// `as_array`): `azp`, `preferred_username` and `sub` as text, and `realm_access.roles` as a list
/// of texts. The payload is opaque here, so nothing is promised of the fields.
#[verifier::external_body]
fn payload_claims(payload: &serde_json::Value) -> (r: TokenClaims) {
    let text = |name: &str| payload.get(name).and_then(|v| v.as_str()).map(str::to_owned);
    let roles = payload["realm_access"]["roles"].as_array();
    TokenClaims {
        azp: text("azp"),
        preferred_username: text("preferred_username"),
        sub: text("sub"),
        roles: roles.map(|list| list.iter().map(|role| role.as_str().map(str::to_owned)).collect()),
    }
}

/// What a token says of its holder once verified with `key` against `issuer` under
/// [`access_validation`]'s settings (the only ones `jsonwebtoken::decode` is handed here):
/// refused as [`AuthError::Invalid`] with the reason when verification fails, else as
/// [`claims_of`] reads the payload for `audience`. Whichever way verification goes, a refusal
/// is `Invalid` or one of those [`claims_of`] gives.
pub fn token_claims(token: &str, key: &jsonwebtoken::DecodingKey, issuer: &str, audience: &str) -> (r: Result<
    Claims,
    AuthError,
>)
    ensures
        r matches Err(e) ==> e is Invalid || e == AuthError::PartyMismatch || e == AuthError::NoSubject,
{
    let (required, check_audience) = access_validation();
    match decode_payload(token, key, issuer, required.as_slice(), check_audience) {
        Err(why) => Err(AuthError::Invalid(why)),
        Ok(payload) => {
            let claims = payload_claims(&payload);
            claims_of(&claims, audience)
        },
    }
}

/// The key ids of a key set's keys, in order (`None` for a key without one).
pub uninterp spec fn jwk_ids(set: jsonwebtoken::jwk::JwkSet) -> Seq<Option<Seq<char>>>;

/// What reading `body` as a JWK set document gives: the key ids of its keys in order, or why
/// it cannot be read.
pub uninterp spec fn jwks_document(body: Seq<char>) -> Result<Seq<Option<Seq<char>>>, Seq<char>>;

/// `serde_json::from_str` into a `JwkSet`: reads the realm's key set document; the key ids it
/// holds, or the error's text, are named [`jwks_document`].
#[verifier::external_body]
fn parse_jwks(body: &str) -> (r: Result<jsonwebtoken::jwk::JwkSet, String>)
    ensures
        match (r, jwks_document(body@)) {
            (Ok(set), Ok(ids)) => jwk_ids(set) == ids,
            (Err(e), Err(why)) => e@ == why,
            _ => false,
        },
{
    serde_json::from_str::<jsonwebtoken::jwk::JwkSet>(body).map_err(|error| error.to_string())
}

/// `JwkSet::find`: the first key of the set whose id is `kid`; there is one exactly when some
/// key carries that id.
#[verifier::external_body]
fn find_jwk<'a>(set: &'a jsonwebtoken::jwk::JwkSet, kid: &str) -> (r: Option<&'a jsonwebtoken::jwk::Jwk>)
    ensures
        r is Some <==> jwk_ids(*set).contains(Some(kid@)),
{
    set.find(kid)
}

/// `DecodingKey::from_jwk`: the key that verifies with `jwk`, or the error's text when its
/// parameters cannot be read. The key is opaque here, so nothing is promised of it.
#[verifier::external_body]
fn decoding_key(jwk: &jsonwebtoken::jwk::Jwk) -> (r: Result<jsonwebtoken::DecodingKey, String>) {
    jsonwebtoken::DecodingKey::from_jwk(jwk).map_err(|error| error.to_string())
}

/// The realm's keys as last read, if ever: what tokens are verified against.
pub struct TokenKeys {
    keys: Option<jsonwebtoken::jwk::JwkSet>,
}

impl View for TokenKeys {
    type V = Option<Seq<Option<Seq<char>>>>;

    closed spec fn view(&self) -> Option<Seq<Option<Seq<char>>>> {
        match self.keys {
            Some(set) => Some(jwk_ids(set)),
            None => None,
        }
    }
}

/// Whether the key ids `ids` of a key set read so far include `kid`.
pub open spec fn holds_key(ids: Option<Seq<Option<Seq<char>>>>, kid: Seq<char>) -> bool {
    ids matches Some(s) && s.contains(Some(kid))
}

impl TokenKeys {
    /// No key set read yet.
    pub fn new() -> (r: TokenKeys)
        ensures
            r@ is None,
    {
        TokenKeys { keys: None }
    }

    /// Whether the keys read so far include one of id `kid`.
    pub fn knows(&self, kid: &str) -> (r: bool)
        ensures
            r == holds_key(self@, kid@),
    {
        match &self.keys {
            Some(set) => find_jwk(set, kid).is_some(),
            None => false,
        }
    }

    /// Reads a freshly fetched key set document: it replaces the keys when it can be read, and
    /// is refused with the reason (the keys kept) when not.
    pub fn store(&mut self, body: &str) -> (r: Result<(), AuthError>)
        ensures
            match jwks_document(body@) {
                Ok(ids) => r is Ok && final(self)@ == Some(ids),
                Err(why) => (r matches Err(AuthError::BadKeySet(m)) && m@ == why) && final(self)@ == old(self)@,
            },
    {
        match parse_jwks(body) {
            Ok(set) => {
                self.keys = Some(set);
                Ok(())
            },
            Err(why) => Err(AuthError::BadKeySet(why)),
        }
    }

    /// The key to verify a token of key id `kid` with: refused as unknown when no key read so
    /// far carries that id, and with the reason when that key cannot verify anything.
    pub fn key(&self, kid: &str) -> (r: Result<jsonwebtoken::DecodingKey, AuthError>)
        ensures
            !holds_key(self@, kid@) ==> r == Err::<jsonwebtoken::DecodingKey, AuthError>(AuthError::UnknownKey),
            holds_key(self@, kid@) ==> r is Ok || r matches Err(AuthError::UnusableKey(_)),
    {
        let found = match &self.keys {
            Some(set) => find_jwk(set, kid),
            None => None,
        };
        match found {
            None => Err(AuthError::UnknownKey),
            Some(jwk) => match decoding_key(jwk) {
                Ok(key) => Ok(key),
                Err(why) => Err(AuthError::UnusableKey(why)),
            },
        }
    }
}

} // verus!
