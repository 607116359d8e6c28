//! The website's sign-in plumbing that needs no network: query-string encoding, the guard on
//! where a sign-in may return to, URL origins, unpadded base64url and the PKCE challenge, cookie
//! parsing, and the authorization and logout addresses.

use sha2::Digest;
use vstd::prelude::*;

use vstd::string::StringSliceAdditionalSpecFns;

use crate::text::{append, chars_of, chars_start_with, has_prefix, push_char, slice_chars, string_of};

verus! {

/// The bytes a query string may carry as they are.
pub open spec fn unreserved(b: u8) -> bool {
    ||| 65 <= b <= 90
    ||| 97 <= b <= 122
    ||| 48 <= b <= 57
    ||| b == 45
    ||| b == 46
    ||| b == 95
    ||| b == 126
}

/// The upper-case hex digit of `d`.
pub open spec fn hex_upper(d: int) -> char {
    if d < 10 {
        (48 + d) as char
    } else {
        (55 + d) as char
    }
}

/// How one byte is written in a query string.
pub open spec fn escape(b: u8) -> Seq<char> {
    if unreserved(b) {
        seq![b as char]
    } else {
        seq!['%', hex_upper(b as int / 16), hex_upper(b as int % 16)]
    }
}

/// The percent-encoding of `bs`.
pub open spec fn url_encoded(bs: Seq<u8>) -> Seq<char>
    decreases bs.len(),
{
    if bs.len() == 0 {
        seq![]
    } else {
        escape(bs[0]) + url_encoded(bs.skip(1))
    }
}

/// The value of a hex digit.
pub open spec fn hex_value_of(c: char) -> int {
    if '0' <= c <= '9' {
        c as int - 48
    } else if 'A' <= c <= 'F' {
        c as int - 55
    } else if 'a' <= c <= 'f' {
        c as int - 87
    } else {
        0
    }
}

/// Percent-decoding.
pub open spec fn url_decoded(cs: Seq<char>) -> Seq<u8>
    decreases cs.len(),
{
    if cs.len() == 0 {
        seq![]
    } else if cs[0] == '%' && cs.len() >= 3 {
        seq![(hex_value_of(cs[1]) * 16 + hex_value_of(cs[2])) as u8] + url_decoded(cs.skip(3))
    } else {
        seq![cs[0] as u8] + url_decoded(cs.skip(1))
    }
}

/// The characters a percent-encoding can hold: those of unreserved bytes and `%`.
pub open spec fn url_safe(c: char) -> bool {
    c == '%' || (c as int) < 256 && unreserved(c as u8)
}

proof fn lemma_url_encoded_push(bs: Seq<u8>, b: u8)
    ensures
        url_encoded(bs.push(b)) == url_encoded(bs) + escape(b),
    decreases bs.len(),
{
    if bs.len() == 0 {
        assert(bs.push(b).skip(1) =~= seq![]);
        assert(url_encoded(bs.push(b)) == escape(b) + url_encoded(seq![]));
        assert(url_encoded(bs.push(b)) =~= escape(b));
    } else {
        assert(bs.push(b).skip(1) =~= bs.skip(1).push(b));
        lemma_url_encoded_push(bs.skip(1), b);
        assert(url_encoded(bs.push(b)) =~= url_encoded(bs) + escape(b));
    }
}

proof fn lemma_hex_round_trip(d: int)
    requires
        0 <= d < 16,
    ensures
        hex_value_of(hex_upper(d)) == d,
        hex_upper(d) != '%',
{
}

/// Decoding an escaped byte ahead of `rest` gives the byte back ahead of the decoding of `rest`.
proof fn lemma_decode_escape(b: u8, rest: Seq<char>)
    ensures
        url_decoded(escape(b) + rest) == seq![b] + url_decoded(rest),
{
    let s = escape(b) + rest;
    if unreserved(b) {
        assert(s[0] == b as char);
        assert(s.skip(1) =~= rest);
        assert((b as char) as u8 == b);
    } else {
        lemma_hex_round_trip(b as int / 16);
        lemma_hex_round_trip(b as int % 16);
        assert(s[0] == '%');
        assert(s.skip(3) =~= rest);
        assert(hex_value_of(s[1]) * 16 + hex_value_of(s[2]) == b as int);
    }
}

/// Encoding a concatenation encodes each part in turn.
pub proof fn lemma_urlencode_concat(a: Seq<u8>, b: Seq<u8>)
    ensures
        url_encoded(a + b) == url_encoded(a) + url_encoded(b),
    decreases a.len(),
{
    if a.len() > 0 {
        assert((a + b).skip(1) =~= a.skip(1) + b);
        assert((a + b)[0] == a[0]);
        lemma_urlencode_concat(a.skip(1), b);
        assert(url_encoded(a + b) =~= url_encoded(a) + url_encoded(b));
    } else {
        assert(a + b =~= b);
        assert(url_encoded(a) + url_encoded(b) =~= url_encoded(b));
    }
}

/// Unreserved bytes (letters, digits, `-`, `.`, `_`, `~`) are written as they are; any other
/// byte as `%` and its two upper-case hex digits.
pub proof fn lemma_urlencode_byte(b: u8)
    ensures
        unreserved(b) ==> url_encoded(seq![b]) == seq![b as char],
        !unreserved(b) ==> url_encoded(seq![b]).len() == 3 && url_encoded(seq![b])[0] == '%' && hex_value_of(
            url_encoded(seq![b])[1],
        ) * 16 + hex_value_of(url_encoded(seq![b])[2]) == b as int && ('0' <= url_encoded(seq![b])[1] <= '9' || 'A'
            <= url_encoded(seq![b])[1] <= 'F') && ('0' <= url_encoded(seq![b])[2] <= '9' || 'A' <= url_encoded(
            seq![b],
        )[2] <= 'F'),
{
    let one = seq![b];
    assert(one[0] == b);
    assert(one.skip(1) =~= Seq::<u8>::empty());
    assert(url_encoded(one.skip(1)) =~= Seq::<char>::empty());
    assert(url_encoded(one) == escape(b) + url_encoded(one.skip(1)));
    assert(url_encoded(one) =~= escape(b));
    lemma_hex_round_trip(b as int / 16);
    lemma_hex_round_trip(b as int % 16);
}

/// Percent-decoding gives back every byte string that was encoded.
pub proof fn lemma_urlencode_round_trip(bs: Seq<u8>)
    ensures
        url_decoded(url_encoded(bs)) == bs,
    decreases bs.len(),
{
    if bs.len() > 0 {
        lemma_urlencode_round_trip(bs.skip(1));
        lemma_decode_escape(bs[0], url_encoded(bs.skip(1)));
        assert(seq![bs[0]] + bs.skip(1) =~= bs);
    }
}

/// A percent-encoding holds only unreserved characters and `%`, so it never carries a query
/// string's separators.
pub proof fn lemma_urlencode_safe(bs: Seq<u8>)
    ensures
        forall|i: int| 0 <= i < url_encoded(bs).len() ==> url_safe(#[trigger] url_encoded(bs)[i]),
    decreases bs.len(),
{
    if bs.len() > 0 {
        lemma_urlencode_safe(bs.skip(1));
        let e = escape(bs[0]);
        let rest = url_encoded(bs.skip(1));
        assert forall|i: int| 0 <= i < url_encoded(bs).len() implies url_safe(#[trigger] url_encoded(bs)[i]) by {
            if i < e.len() {
                if unreserved(bs[0]) {
                    assert((bs[0] as char) as u8 == bs[0]);
                } else if i > 0 {
                    lemma_hex_round_trip(bs[0] as int / 16);
                    lemma_hex_round_trip(bs[0] as int % 16);
                }
            } else {
                assert(url_encoded(bs)[i] == rest[i - e.len()]);
            }
        }
    }
}

fn hex_digit_upper(d: u8) -> (c: char)
    requires
        d < 16,
    ensures
        c == hex_upper(d as int),
{
    if d < 10 {
        (48 + d) as char
    } else {
        (55 + d) as char
    }
}

fn is_unreserved(b: u8) -> (r: bool)
    ensures
        r == unreserved(b),
{
    (65 <= b && b <= 90) || (97 <= b && b <= 122) || (48 <= b && b <= 57) || b == 45 || b == 46 || b == 95
        || b == 126
}

/// Percent-encodes the UTF-8 bytes of `raw` for a query string: unreserved bytes stay, every
/// other byte becomes `%` and two upper-case hex digits.
pub fn urlencode(raw: &str) -> (r: String)
    ensures
        r@ == url_encoded(raw.spec_bytes()),
{
    let bytes = raw.as_bytes();
    let mut out = String::new();
    let mut i: usize = 0;
    while i < bytes.len()
        invariant
            i <= bytes@.len(),
            out@ == url_encoded(bytes@.subrange(0, i as int)),
        decreases bytes@.len() - i,
    {
        let b = bytes[i];
        if is_unreserved(b) {
            push_char(&mut out, b as char);
        } else {
            push_char(&mut out, '%');
            push_char(&mut out, hex_digit_upper(b / 16));
            push_char(&mut out, hex_digit_upper(b % 16));
        }
        proof {
            lemma_url_encoded_push(bytes@.subrange(0, i as int), b);
            assert(bytes@.subrange(0, i + 1) =~= bytes@.subrange(0, i as int).push(b));
            assert(out@ =~= url_encoded(bytes@.subrange(0, i as int)) + escape(b));
        }
        i = i + 1;
    }
    assert(bytes@.subrange(0, bytes@.len() as int) =~= bytes@);
    out
}

/// A path a sign-in may return to: it starts with `/`, not with `//`, and holds no `\`
/// (browsers read `\` as `/`, so `/\host` would leave the site).
pub open spec fn safe_return(p: Seq<char>) -> bool {
    &&& p.len() >= 1
    &&& p[0] == '/'
    &&& !(p.len() >= 2 && p[1] == '/')
    &&& !p.contains('\\')
}

/// Where a sign-in returns to: the requested path when it is a safe local path, else `/`.
pub fn sanitize_return(raw: Option<&str>) -> (r: String)
    ensures
        r@ == (if raw is Some && safe_return(raw->0@) {
            raw->0@
        } else {
            seq!['/']
        }),
        safe_return(r@),
{
    if let Some(path) = raw {
        let v = chars_of(path);
        let n = v.len();
        if n >= 1 && v[0] == '/' && !(n >= 2 && v[1] == '/') {
            let mut i: usize = 0;
            let mut clean = true;
            while i < n
                invariant
                    n == v@.len(),
                    i <= n,
                    v@ == path@,
                    clean == forall|k: int| 0 <= k < i ==> v@[k] != '\\',
                decreases n - i,
            {
                if v[i] == '\\' {
                    clean = false;
                }
                i = i + 1;
            }
            if clean {
                assert(!path@.contains('\\'));
                return path.to_owned();
            } else {
                assert(path@.contains('\\')) by {
                    let k = choose|k: int| 0 <= k < n && v@[k] == '\\';
                    assert(path@[k] == '\\');
                }
            }
        }
    }
    let mut home = String::new();
    push_char(&mut home, '/');
    proof {
        assert(home@ =~= seq!['/']);
        assert(!seq!['/'].contains('\\')) by {
            if seq!['/'].contains('\\') {
                let k = choose|k: int| 0 <= k < 1 && seq!['/'][k] == '\\';
            }
        }
    }
    home
}

/// The first place at or after `from` where `pat` occurs in `s`.
pub open spec fn find_from(s: Seq<char>, pat: Seq<char>, from: int) -> Option<int>
    decreases s.len() + 1 - from,
{
    if from < 0 || from + pat.len() > s.len() {
        None
    } else if s.subrange(from, from + pat.len()) == pat {
        Some(from)
    } else {
        find_from(s, pat, from + 1)
    }
}

pub open spec fn scheme_sep() -> Seq<char> {
    seq![':', '/', '/']
}

/// The scheme and host part of `url`: everything before the first `/` after `://`; the whole
/// of `url` when it has no `://` or no path.
pub open spec fn origin_of(url: Seq<char>) -> Seq<char> {
    match find_from(url, scheme_sep(), 0) {
        Some(k) => match find_from(url, seq!['/'], k + 3) {
            Some(j) => url.subrange(0, j),
            None => url,
        },
        None => url,
    }
}

pub proof fn lemma_find_from_bounds(s: Seq<char>, pat: Seq<char>, from: int)
    ensures
        find_from(s, pat, from) matches Some(k) ==> from <= k && k + pat.len() <= s.len() && s.subrange(
            k,
            k + pat.len(),
        ) == pat,
    decreases s.len() + 1 - from,
{
    if from >= 0 && from + pat.len() <= s.len() && s.subrange(from, from + pat.len()) != pat {
        lemma_find_from_bounds(s, pat, from + 1);
    }
}

/// The first place at or after `from` where `pat` occurs in `v`.
pub fn find_chars(v: &Vec<char>, pat: &Vec<char>, from: usize) -> (r: Option<usize>)
    requires
        from <= v@.len(),
    ensures
        match r {
            Some(k) => find_from(v@, pat@, from as int) == Some(k as int) && k + pat@.len() <= v@.len(),
            None => find_from(v@, pat@, from as int) is None,
        },
{
    proof {
        lemma_find_from_bounds(v@, pat@, from as int);
    }
    let n = v.len();
    let m = pat.len();
    if m > n {
        return None;
    }
    let mut i: usize = from;
    while i <= n - m
        invariant
            n == v@.len(),
            m == pat@.len(),
            m <= n,
            from <= i,
            find_from(v@, pat@, from as int) == find_from(v@, pat@, i as int),
        decreases n - i,
    {
        let mut j: usize = 0;
        let mut same = true;
        while j < m
            invariant
                n == v@.len(),
                m == pat@.len(),
                i + m <= n,
                j <= m,
                same == forall|e: int| 0 <= e < j ==> v@[i + e] == pat@[e],
            decreases m - j,
        {
            if v[i + j] != pat[j] {
                same = false;
            }
            j = j + 1;
        }
        if same {
            assert(v@.subrange(i as int, i + m) =~= pat@);
            return Some(i);
        } else {
            assert(v@.subrange(i as int, i + m) != pat@) by {
                let e = choose|e: int| 0 <= e < m && v@[i + e] != pat@[e];
                assert(v@.subrange(i as int, i + m)[e] == v@[i + e]);
            }
        }
        i = i + 1;
    }
    None
}

/// The scheme and host part of `url`, as [`origin_of`] says.
pub fn origin(url: &str) -> (r: &str)
    ensures
        r@ == origin_of(url@),
{
    let v = chars_of(url);
    let mut sep: Vec<char> = Vec::new();
    sep.push(':');
    sep.push('/');
    sep.push('/');
    assert(sep@ =~= scheme_sep());
    let n = v.len();
    match find_chars(&v, &sep, 0) {
        Some(k) => {
            assert(k + 3 <= n);
            let mut slash: Vec<char> = Vec::new();
            slash.push('/');
            assert(slash@ =~= seq!['/']);
            match find_chars(&v, &slash, k + 3) {
                Some(j) => url.substring_char(0, j),
                None => url,
            }
        },
        None => url,
    }
}

/// The base64url digit of `d`.
pub open spec fn b64_char(d: int) -> char {
    if d < 26 {
        (65 + d) as char
    } else if d < 52 {
        (71 + d) as char
    } else if d < 62 {
        (d - 4) as char
    } else if d == 62 {
        '-'
    } else {
        '_'
    }
}

/// The 24-bit value of a chunk of one to three bytes, missing bytes read as zero.
pub open spec fn chunk_value(c: Seq<u8>) -> int {
    c[0] as int * 65536 + (if c.len() > 1 {
        c[1] as int
    } else {
        0
    }) * 256 + (if c.len() > 2 {
        c[2] as int
    } else {
        0
    })
}

/// The weight of the `p`-th six-bit digit of a chunk value.
pub open spec fn place(p: int) -> int {
    if p == 0 {
        262144
    } else if p == 1 {
        4096
    } else if p == 2 {
        64
    } else {
        1
    }
}

/// The digits of one chunk: one more than its byte count.
pub open spec fn chunk_chars(c: Seq<u8>) -> Seq<char> {
    Seq::new((c.len() + 1) as nat, |p: int| b64_char(chunk_value(c) / place(p) % 64))
}

/// Unpadded base64url of `bs`, three bytes at a time.
pub open spec fn b64url(bs: Seq<u8>) -> Seq<char>
    decreases bs.len(),
{
    if bs.len() == 0 {
        seq![]
    } else if bs.len() <= 3 {
        chunk_chars(bs)
    } else {
        chunk_chars(bs.take(3)) + b64url(bs.skip(3))
    }
}

proof fn lemma_b64_append(a: Seq<u8>, c: Seq<u8>)
    requires
        a.len() % 3 == 0,
        1 <= c.len() <= 3,
    ensures
        b64url(a + c) == b64url(a) + chunk_chars(c),
    decreases a.len(),
{
    if a.len() == 0 {
        assert(a + c =~= c);
        assert(b64url(a) =~= seq![]);
        assert(b64url(a) + chunk_chars(c) =~= chunk_chars(c));
    } else {
        let ac = a + c;
        assert(ac.take(3) =~= a.take(3));
        assert(ac.skip(3) =~= a.skip(3) + c);
        lemma_b64_append(a.skip(3), c);
        if a.len() == 3 {
            assert(a.skip(3) =~= seq![]);
            assert(a.take(3) =~= a);
            assert(a.skip(3) + c =~= c);
            assert(b64url(a.skip(3)) =~= seq![]);
        }
        assert(b64url(ac) =~= b64url(a) + chunk_chars(c));
    }
}

/// The value of a base64url digit, read back by its place in the alphabet `A`–`Z`, `a`–`z`,
/// `0`–`9`, `-`, `_`.
pub open spec fn b64_value(c: char) -> int {
    if 'A' <= c <= 'Z' {
        c as int - 'A' as int
    } else if 'a' <= c <= 'z' {
        c as int - 'a' as int + 26
    } else if '0' <= c <= '9' {
        c as int - '0' as int + 52
    } else if c == '-' {
        62
    } else {
        63
    }
}

/// A character of the URL-safe base64 alphabet.
pub open spec fn b64_alphabet(c: char) -> bool {
    ||| 'A' <= c <= 'Z'
    ||| 'a' <= c <= 'z'
    ||| '0' <= c <= '9'
    ||| c == '-'
    ||| c == '_'
}

/// Each six-bit value has its own digit of the URL-safe alphabet, read back as that value.
pub proof fn lemma_b64_digits(d: int)
    requires
        0 <= d < 64,
    ensures
        b64_alphabet(b64_char(d)),
        b64_value(b64_char(d)) == d,
{
}

/// Three bytes become four digits that spell their 24 bits, most significant first.
pub proof fn lemma_base64url_chunk(c: Seq<u8>)
    requires
        c.len() == 3,
    ensures
        b64url(c).len() == 4,
        forall|p: int| 0 <= p < 4 ==> b64_alphabet(#[trigger] b64url(c)[p]),
        b64_value(b64url(c)[0]) * 262144 + b64_value(b64url(c)[1]) * 4096 + b64_value(b64url(c)[2]) * 64
            + b64_value(b64url(c)[3]) == c[0] as int * 65536 + c[1] as int * 256 + c[2] as int,
{
    let v = c[0] as int * 65536 + c[1] as int * 256 + c[2] as int;
    assert(chunk_value(c) == v);
    assert(b64url(c) == chunk_chars(c));
    assert(0 <= v < 16777216);
    assert forall|p: int| 0 <= p < 4 implies b64_alphabet(#[trigger] b64url(c)[p]) && b64_value(b64url(c)[p])
        == v / place(p) % 64 by {
        assert(0 <= v / place(p) % 64 < 64) by (nonlinear_arith)
            requires
                place(p) > 0,
                v >= 0,
        ;
        lemma_b64_digits(v / place(p) % 64);
    }
    assert(b64_value(b64url(c)[0]) == v / 262144 % 64);
    assert(b64_value(b64url(c)[1]) == v / 4096 % 64);
    assert(b64_value(b64url(c)[2]) == v / 64 % 64);
    assert(b64_value(b64url(c)[3]) == v / 1 % 64);
    assert(v / 262144 % 64 * 262144 + v / 4096 % 64 * 4096 + v / 64 % 64 * 64 + v / 1 % 64 == v) by (nonlinear_arith)
        requires
            0 <= v < 16777216,
    ;
}

/// Base64url without padding has four digits per whole chunk and one more than the bytes of a
/// final partial chunk.
pub proof fn lemma_base64url_len(bs: Seq<u8>)
    ensures
        b64url(bs).len() == 4 * (bs.len() / 3) + if bs.len() % 3 == 0 {
            0
        } else {
            bs.len() % 3 + 1
        },
    decreases bs.len(),
{
    if bs.len() > 3 {
        lemma_base64url_len(bs.skip(3));
    }
}

fn b64_digit(d: u32) -> (c: char)
    requires
        d < 64,
    ensures
        c == b64_char(d as int),
{
    if d < 26 {
        ((65 + d) as u8) as char
    } else if d < 52 {
        ((71 + d) as u8) as char
    } else if d < 62 {
        ((d - 4) as u8) as char
    } else if d == 62 {
        '-'
    } else {
        '_'
    }
}

fn place_of(p: usize) -> (w: u32)
    requires
        p < 4,
    ensures
        w == place(p as int),
        w > 0,
{
    if p == 0 {
        262144
    } else if p == 1 {
        4096
    } else if p == 2 {
        64
    } else {
        1
    }
}

/// Unpadded base64url of `bytes`.
pub fn base64url(bytes: &[u8]) -> (r: String)
    ensures
        r@ == b64url(bytes@),
{
    let n = bytes.len();
    let mut out = String::new();
    let mut i: usize = 0;
    while i < n
        invariant
            n == bytes@.len(),
            i <= n,
            i % 3 == 0 || i == n,
            out@ == b64url(bytes@.take(i as int)),
        decreases n - i,
    {
        let len: usize = if n - i >= 3 {
            3
        } else {
            n - i
        };
        let ghost c = bytes@.subrange(i as int, i + len);
        let b0 = bytes[i] as u32;
        let b1: u32 = if len > 1 {
            bytes[i + 1] as u32
        } else {
            0
        };
        let b2: u32 = if len > 2 {
            bytes[i + 2] as u32
        } else {
            0
        };
        let value: u32 = b0 * 65536 + b1 * 256 + b2;
        assert(value == chunk_value(c));
        let ghost start = out@;
        let mut p: usize = 0;
        while p <= len
            invariant
                1 <= len <= 3,
                p <= len + 1,
                c.len() == len,
                value == chunk_value(c),
                out@ == start + chunk_chars(c).take(p as int),
            decreases len + 1 - p,
        {
            let d = value / place_of(p) % 64;
            push_char(&mut out, b64_digit(d));
            assert(chunk_chars(c).take(p + 1) =~= chunk_chars(c).take(p as int).push(b64_char(d as int)));
            p = p + 1;
        }
        proof {
            assert(chunk_chars(c).take(len + 1) =~= chunk_chars(c));
            lemma_b64_append(bytes@.take(i as int), c);
            assert(bytes@.take(i as int) + c =~= bytes@.take(i + len));
        }
        i = i + len;
    }
    assert(bytes@.take(n as int) =~= bytes@);
    out
}

/// The SHA-256 digest of `data`.
pub uninterp spec fn sha256(data: Seq<u8>) -> Seq<u8>;

/// `sha2::Sha256::digest`: the digest of `data`, named as [`sha256`]; a digest is 32 bytes.
#[verifier::external_body]
fn sha256_digest(data: &[u8]) -> (d: Vec<u8>)
    ensures
        d@ == sha256(data@),
        d@.len() == 32,
{
    sha2::Sha256::digest(data).to_vec()
}

/// The PKCE S256 challenge of `verifier`: base64url of the SHA-256 digest of its bytes.
pub fn pkce_challenge(verifier: &str) -> (r: String)
    ensures
        r@ == b64url(sha256(verifier.spec_bytes())),
{
    let digest = sha256_digest(verifier.as_bytes());
    base64url(digest.as_slice())
}

/// The lower-case hex digit of `d`.
pub open spec fn hex_lower(d: int) -> char {
    if d < 10 {
        (48 + d) as char
    } else {
        (87 + d) as char
    }
}

/// Two lower-case hex digits per byte.
pub open spec fn hex_of(bs: Seq<u8>) -> Seq<char>
    decreases bs.len(),
{
    if bs.len() == 0 {
        seq![]
    } else {
        hex_of(bs.drop_last()) + seq![hex_lower(bs.last() as int / 16), hex_lower(bs.last() as int % 16)]
    }
}

fn hex_digit_lower(d: u8) -> (c: char)
    requires
        d < 16,
    ensures
        c == hex_lower(d as int),
{
    if d < 10 {
        (48 + d) as char
    } else {
        (87 + d) as char
    }
}

/// `bytes` as lower-case hex, two digits per byte (the form of the sign-in's random state and
/// code verifier).
pub fn hex(bytes: &[u8]) -> (r: String)
    ensures
        r@ == hex_of(bytes@),
{
    let mut out = String::new();
    let mut i: usize = 0;
    while i < bytes.len()
        invariant
            i <= bytes@.len(),
            out@ == hex_of(bytes@.take(i as int)),
        decreases bytes@.len() - i,
    {
        let b = bytes[i];
        push_char(&mut out, hex_digit_lower(b / 16));
        push_char(&mut out, hex_digit_lower(b % 16));
        assert(bytes@.take(i + 1).drop_last() =~= bytes@.take(i as int));
        i = i + 1;
    }
    assert(bytes@.take(bytes@.len() as int) =~= bytes@);
    out
}

/// Where the pair starting at `i` of a `Cookie` header ends: at the next `"; "`, or at the end.
pub open spec fn pair_end(s: Seq<char>, i: int) -> int
    decreases s.len() - i,
{
    if i < 0 || i + 1 >= s.len() {
        s.len() as int
    } else if s[i] == ';' && s[i + 1] == ' ' {
        i
    } else {
        pair_end(s, i + 1)
    }
}

pub proof fn lemma_pair_end(s: Seq<char>, i: int)
    requires
        0 <= i <= s.len(),
    ensures
        i <= pair_end(s, i) <= s.len(),
        pair_end(s, i) < s.len() ==> pair_end(s, i) + 1 < s.len() && s[pair_end(s, i)] == ';' && s[pair_end(s, i)
            + 1] == ' ',
    decreases s.len() - i,
{
    if i + 1 < s.len() && !(s[i] == ';' && s[i + 1] == ' ') {
        lemma_pair_end(s, i + 1);
    }
}

/// The value of cookie `name` in a `Cookie` header `s`, from the pair starting at `start`: the
/// first `"; "`-separated pair that begins with `name=`.
pub open spec fn cookie_from(s: Seq<char>, name: Seq<char>, start: int) -> Option<Seq<char>>
    decreases s.len() + 1 - start,
{
    if start < 0 || start > s.len() {
        None
    } else {
        let end = pair_end(s, start);
        let pair = s.subrange(start, end);
        if has_prefix(pair, name.push('=')) {
            Some(pair.subrange(name.len() + 1int, pair.len() as int))
        } else if end < s.len() {
            proof {
                lemma_pair_end(s, start);
            }
            cookie_from(s, name, end + 2)
        } else {
            None
        }
    }
}

/// The value of cookie `name` in the `Cookie` header, if the request has one that is text.
pub fn cookie(header: Option<&str>, name: &str) -> (r: Option<String>)
    ensures
        match header {
            None => r is None,
            Some(h) => match cookie_from(h@, name@, 0) {
                Some(v) => r is Some && r->0@ == v,
                None => r is None,
            },
        },
{
    let h = match header {
        Some(h) => h,
        None => return None,
    };
    let v = chars_of(h);
    let mut key = chars_of(name);
    key.push('=');
    let n = v.len();
    let mut start: usize = 0;
    while start <= n
        invariant
            header == Some(h),
            n == v@.len(),
            v@ == h@,
            key@ == name@.push('='),
            cookie_from(h@, name@, 0) == cookie_from(h@, name@, start as int),
        decreases n + 1 - start,
    {
        let mut end: usize = start;
        while end < n && !(end + 1 < n && v[end] == ';' && v[end + 1] == ' ')
            invariant
                n == v@.len(),
                start <= end <= n,
                pair_end(v@, start as int) == pair_end(v@, end as int),
            decreases n - end,
        {
            end = end + 1;
        }
        proof {
            lemma_pair_end(v@, start as int);
            assert(pair_end(v@, end as int) == end);
            assert(pair_end(v@, start as int) == end);
        }
        let ghost pair = v@.subrange(start as int, end as int);
        let fits = key.len() <= end - start;
        if fits && chars_start_with(&v, start, &key) {
            assert(pair.subrange(0, key@.len() as int) =~= v@.subrange(start as int, v@.len() as int).subrange(
                0,
                key@.len() as int,
            ));
            let value = slice_chars(&v, start + key.len(), end);
            assert(value@ =~= pair.subrange(name@.len() + 1int, pair.len() as int));
            assert(has_prefix(pair, name@.push('=')));
            assert(cookie_from(h@, name@, start as int) == Some(pair.subrange(name@.len() + 1int, pair.len() as int)));
            return Some(string_of(&value));
        }
        proof {
            if fits {
                assert(pair.subrange(0, key@.len() as int) =~= v@.subrange(start as int, v@.len() as int).subrange(
                    0,
                    key@.len() as int,
                ));
            }
            assert(!has_prefix(pair, name@.push('=')));
        }
        if end >= n {
            assert(cookie_from(h@, name@, start as int) is None);
            return None;
        }
        assert(cookie_from(h@, name@, start as int) == cookie_from(h@, name@, end + 2));
        start = end + 2;
    }
    None
}

/// The three `.`-separated parts of the sign-in cookie: state, code verifier, and return path
/// (the last part keeps any further dots); `None` with fewer than three parts.
pub open spec fn oidc_parts(s: Seq<char>) -> Option<(Seq<char>, Seq<char>, Seq<char>)> {
    match find_from(s, seq!['.'], 0) {
        Some(a) => match find_from(s, seq!['.'], a + 1) {
            Some(b) => Some((s.subrange(0, a), s.subrange(a + 1, b), s.subrange(b + 1, s.len() as int))),
            None => None,
        },
        None => None,
    }
}

/// Splits the sign-in cookie into state, code verifier and return path.
pub fn oidc_state(value: &str) -> (r: Option<(String, String, String)>)
    ensures
        match oidc_parts(value@) {
            Some(p) => r is Some && (r->0).0@ == p.0 && (r->0).1@ == p.1 && (r->0).2@ == p.2,
            None => r is None,
        },
{
    let v = chars_of(value);
    let mut dot: Vec<char> = Vec::new();
    dot.push('.');
    assert(dot@ =~= seq!['.']);
    let n = v.len();
    let a = match find_chars(&v, &dot, 0) {
        Some(a) => a,
        None => return None,
    };
    assert(a + 1 <= n);
    let b = match find_chars(&v, &dot, a + 1) {
        Some(b) => b,
        None => return None,
    };
    assert(b + 1 <= n);
    proof {
        lemma_find_from_bounds(v@, seq!['.'], a + 1);
    }
    let first = slice_chars(&v, 0, a);
    let second = slice_chars(&v, a + 1, b);
    let third = slice_chars(&v, b + 1, v.len());
    Some((string_of(&first), string_of(&second), string_of(&third)))
}

/// What the sign-in callback does: go home, or exchange `code` with the stored verifier and
/// then return to the stored path.
pub enum Callback {
    Home,
    Exchange { code: String, verifier: String, return_path: String },
}

/// The sign-in callback's decision, from the `oidc` cookie's value and the `state` and `code`
/// query parameters: it exchanges only when the cookie splits into its three parts, the state
/// parameter equals the stored state, and a code is present.
pub fn callback_step(oidc: Option<&str>, state: Option<&str>, code: Option<&str>) -> (r: Callback)
    ensures
        match (oidc, state, code) {
            (Some(o), Some(s), Some(c)) => match oidc_parts(o@) {
                Some(p) => if p.0 == s@ {
                    r matches Callback::Exchange { code: rc, verifier, return_path } && rc@ == c@ && verifier@
                        == p.1 && return_path@ == p.2
                } else {
                    r is Home
                },
                None => r is Home,
            },
            (Some(o), _, _) => r is Home,
            (None, _, _) => r is Home,
        },
{
    let o = match oidc {
        Some(o) => o,
        None => return Callback::Home,
    };
    let (stored, verifier, return_path) = match oidc_state(o) {
        Some(parts) => parts,
        None => return Callback::Home,
    };
    let s = match state {
        Some(s) => s,
        None => return Callback::Home,
    };
    if !crate::text::str_eq(stored.as_str(), s) {
        return Callback::Home;
    }
    match code {
        Some(c) => Callback::Exchange { code: c.to_owned(), verifier, return_path },
        None => Callback::Home,
    }
}

/// The value the sign-in stores in its `oidc` cookie.
pub open spec fn oidc_value(state: Seq<char>, verifier: Seq<char>, return_path: Seq<char>) -> Seq<char> {
    state + seq!['.'] + verifier + seq!['.'] + return_path
}

/// The `Set-Cookie` value that starts a sign-in: the `oidc` cookie holding the state, verifier
/// and return path, for ten minutes, to this site only.
pub open spec fn oidc_cookie_of(state: Seq<char>, verifier: Seq<char>, return_path: Seq<char>) -> Seq<char> {
    "oidc="@ + oidc_value(state, verifier, return_path) + "; Path=/; Max-Age=600; HttpOnly; Secure; SameSite=Lax"@
}

/// The cookie that carries a sign-in's state, code verifier and return path.
pub fn oidc_cookie(state: &str, verifier: &str, return_path: &str) -> (r: String)
    ensures
        r@ == oidc_cookie_of(state@, verifier@, return_path@),
{
    let mut out = String::new();
    append(&mut out, "oidc=");
    append(&mut out, state);
    push_char(&mut out, '.');
    append(&mut out, verifier);
    push_char(&mut out, '.');
    append(&mut out, return_path);
    append(&mut out, "; Path=/; Max-Age=600; HttpOnly; Secure; SameSite=Lax");
    assert(out@ =~= oidc_cookie_of(state@, verifier@, return_path@));
    out
}

/// The `Set-Cookie` value that keeps a signed-in session's `name` token for the browser session.
pub open spec fn session_cookie_of(name: Seq<char>, value: Seq<char>) -> Seq<char> {
    name + "="@ + value + "; Path=/; HttpOnly; Secure; SameSite=Lax"@
}

/// A session cookie holding `value` under `name`.
pub fn session_cookie(name: &str, value: &str) -> (r: String)
    ensures
        r@ == session_cookie_of(name@, value@),
{
    let mut out = String::new();
    append(&mut out, name);
    append(&mut out, "=");
    append(&mut out, value);
    append(&mut out, "; Path=/; HttpOnly; Secure; SameSite=Lax");
    out
}

proof fn lemma_pair_end_none(s: Seq<char>, i: int)
    requires
        0 <= i <= s.len(),
        !s.contains(';'),
    ensures
        pair_end(s, i) == s.len(),
    decreases s.len() - i,
{
    if i + 1 < s.len() {
        assert(s[i] != ';') by {
            if s[i] == ';' {
                assert(s.contains(';'));
            }
        }
        lemma_pair_end_none(s, i + 1);
    }
}

/// What the site sets, its next request reads back: in a `Cookie` header holding the pair
/// `name=value`, the lookup of `name` gives `value` (for names and values without `;`).
pub proof fn lemma_cookie_read_back(name: Seq<char>, value: Seq<char>)
    requires
        !name.contains(';'),
        !value.contains(';'),
    ensures
        cookie_from(name + "="@ + value, name, 0) == Some(value),
{
    reveal_strlit("=");
    let s = name + "="@ + value;
    assert(!s.contains(';')) by {
        if s.contains(';') {
            let i = choose|i: int| 0 <= i < s.len() && s[i] == ';';
            if i < name.len() {
                assert(name[i] == ';');
                assert(name.contains(';'));
            } else if i > name.len() {
                assert(value[i - name.len() - 1] == ';');
                assert(value.contains(';'));
            }
        }
    }
    lemma_pair_end_none(s, 0);
    assert(s.subrange(0, s.len() as int) =~= s);
    assert(s.subrange(0, name.len() + 1int) =~= name.push('='));
    assert(has_prefix(s, name.push('=')));
    assert(s.subrange(name.len() + 1int, s.len() as int) =~= value);
}

proof fn lemma_find_dot_after(s: Seq<char>, from: int, at: int)
    requires
        0 <= from <= at < s.len(),
        s[at] == '.',
        forall|i: int| from <= i < at ==> s[i] != '.',
    ensures
        find_from(s, seq!['.'], from) == Some(at),
    decreases at - from,
{
    if from < at {
        assert(s.subrange(from, from + 1) != seq!['.']) by {
            assert(s.subrange(from, from + 1)[0] == s[from]);
        }
        lemma_find_dot_after(s, from + 1, at);
    } else {
        assert(s.subrange(from, from + 1) =~= seq!['.']);
    }
}

/// What the sign-in stores, the callback reads back: splitting the stored value gives the
/// state, verifier and return path, whenever state and verifier hold no `.` (they are hex).
pub proof fn lemma_oidc_round_trip(state: Seq<char>, verifier: Seq<char>, return_path: Seq<char>)
    requires
        !state.contains('.'),
        !verifier.contains('.'),
    ensures
        oidc_parts(oidc_value(state, verifier, return_path)) == Some((state, verifier, return_path)),
{
    let s = oidc_value(state, verifier, return_path);
    let a = state.len() as int;
    let b = a + 1 + verifier.len();
    assert forall|i: int| 0 <= i < a implies s[i] != '.' by {
        assert(s[i] == state[i]);
    }
    lemma_find_dot_after(s, 0, a);
    assert forall|i: int| a + 1 <= i < b implies s[i] != '.' by {
        assert(s[i] == verifier[i - a - 1]);
    }
    lemma_find_dot_after(s, a + 1, b);
    assert(s.subrange(0, a) =~= state);
    assert(s.subrange(a + 1, b) =~= verifier);
    assert(s.subrange(b + 1, s.len() as int) =~= return_path);
}

/// The identity provider's authorization address for a PKCE sign-in.
pub open spec fn authorize_of(
    authority: Seq<char>,
    audience: Seq<char>,
    redirect_uri: Seq<char>,
    state: Seq<char>,
    challenge: Seq<char>,
) -> Seq<char> {
    authority + "/protocol/openid-connect/auth?client_id="@ + audience + "&redirect_uri="@ + redirect_uri
        + "&response_type=code&scope=openid%20profile&state="@ + state + "&code_challenge="@ + challenge
        + "&code_challenge_method=S256"@
}

/// The authorization address: client id and redirect address percent-encoded, the random
/// `state` and the PKCE `challenge` as they are.
pub fn authorize_url(authority: &str, audience: &str, redirect_uri: &str, state: &str, challenge: &str) -> (r:
    String)
    ensures
        r@ == authorize_of(
            authority@,
            url_encoded(audience.spec_bytes()),
            url_encoded(redirect_uri.spec_bytes()),
            state@,
            challenge@,
        ),
{
    let mut out = String::new();
    append(&mut out, authority);
    append(&mut out, "/protocol/openid-connect/auth?client_id=");
    append(&mut out, urlencode(audience).as_str());
    append(&mut out, "&redirect_uri=");
    append(&mut out, urlencode(redirect_uri).as_str());
    append(&mut out, "&response_type=code&scope=openid%20profile&state=");
    append(&mut out, state);
    append(&mut out, "&code_challenge=");
    append(&mut out, challenge);
    append(&mut out, "&code_challenge_method=S256");
    assert(out@ =~= authorize_of(
        authority@,
        url_encoded(audience.spec_bytes()),
        url_encoded(redirect_uri.spec_bytes()),
        state@,
        challenge@,
    ));
    out
}

/// The identity provider's logout address.
pub open spec fn logout_of(
    authority: Seq<char>,
    audience: Seq<char>,
    back: Seq<char>,
    hint: Option<Seq<char>>,
) -> Seq<char> {
    authority + "/protocol/openid-connect/logout?client_id="@ + audience + "&post_logout_redirect_uri="@ + back
        + match hint {
        Some(h) => "&id_token_hint="@ + h,
        None => seq![],
    }
}

/// The logout address: the client id and the site's origin percent-encoded, and the id token
/// as a hint when the browser has one (without it the provider asks to confirm).
pub fn logout_url(authority: &str, audience: &str, redirect_uri: &str, id_token: Option<&str>) -> (r: String)
    ensures
        r@ == logout_of(
            authority@,
            url_encoded(audience.spec_bytes()),
            url_encoded(vstd::utf8::encode_utf8(origin_of(redirect_uri@))),
            match id_token {
                Some(t) => Some(url_encoded(t.spec_bytes())),
                None => None,
            },
        ),
{
    let mut out = String::new();
    append(&mut out, authority);
    append(&mut out, "/protocol/openid-connect/logout?client_id=");
    append(&mut out, urlencode(audience).as_str());
    append(&mut out, "&post_logout_redirect_uri=");
    append(&mut out, urlencode(origin(redirect_uri)).as_str());
    if let Some(t) = id_token {
        append(&mut out, "&id_token_hint=");
        append(&mut out, urlencode(t).as_str());
    }
    out
}

} // verus!
