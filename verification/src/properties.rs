//! The custom properties a tileset declares on a tile, read the way the map loader reads them:
//! `Walkable` as a flag, `Group` as a whole number (a string property holding one counts), and
//! `sfx` as a footstep cue.

use vstd::prelude::*;

use crate::actors::SfxId;
use crate::text::chars_of;

verus! {

/// One custom property value, as far as the tile rules read it.
#[derive(Clone, Debug, PartialEq, Eq)]
pub enum Property {
    Bool(bool),
    Int(i64),
    Text(String),
    /// A kind of value the tile rules never read (a color, a file, an object, a class).
    Other,
}

pub open spec fn is_digit(c: char) -> bool {
    '0' <= c <= '9'
}

pub open spec fn all_digits(s: Seq<char>) -> bool {
    forall|i: int| 0 <= i < s.len() ==> is_digit(#[trigger] s[i])
}

/// The value of a run of decimal digits.
pub open spec fn digits_value(s: Seq<char>) -> int
    decreases s.len(),
{
    if s.len() == 0 {
        0
    } else {
        10 * digits_value(s.drop_last()) + (s.last() as int - '0' as int)
    }
}

/// Whether `s` is a sign-free, non-empty run of digits whose value is at most `limit`.
pub open spec fn number_within(s: Seq<char>, limit: int) -> bool {
    s.len() > 0 && all_digits(s) && digits_value(s) <= limit
}

/// What reading `s` as a 64-bit signed integer gives: an optional `+` or `-`, then decimal
/// digits only, within range; nothing otherwise.
pub open spec fn parsed_i64(s: Seq<char>) -> Option<int> {
    if s.len() > 0 && s[0] == '-' {
        if number_within(s.skip(1), 0x8000_0000_0000_0000) {
            Some(-digits_value(s.skip(1)))
        } else {
            None
        }
    } else {
        let d = if s.len() > 0 && s[0] == '+' {
            s.skip(1)
        } else {
            s
        };
        if number_within(d, 0x7fff_ffff_ffff_ffff) {
            Some(digits_value(d))
        } else {
            None
        }
    }
}

proof fn lemma_digits_grow(s: Seq<char>, c: char)
    requires
        all_digits(s),
        is_digit(c),
    ensures
        digits_value(s.push(c)) == 10 * digits_value(s) + (c as int - '0' as int),
        digits_value(s.push(c)) >= digits_value(s),
        digits_value(s) >= 0,
    decreases s.len(),
{
    assert(s.push(c).drop_last() =~= s);
    lemma_digits_nonneg(s);
}

proof fn lemma_digits_nonneg(s: Seq<char>)
    requires
        all_digits(s),
    ensures
        digits_value(s) >= 0,
    decreases s.len(),
{
    if s.len() > 0 {
        assert(all_digits(s.drop_last())) by {
            assert forall|i: int| 0 <= i < s.drop_last().len() implies is_digit(#[trigger] s.drop_last()[i]) by {
                assert(s.drop_last()[i] == s[i]);
            }
        }
        lemma_digits_nonneg(s.drop_last());
        assert(is_digit(s[s.len() - 1]));
    }
}

/// A run of digits only grows as more digits follow.
proof fn lemma_digits_prefix(s: Seq<char>, k: int)
    requires
        all_digits(s),
        0 <= k <= s.len(),
    ensures
        digits_value(s.take(k)) <= digits_value(s),
    decreases s.len() - k,
{
    if k < s.len() {
        let t = s.take(k + 1);
        assert(t.drop_last() =~= s.take(k));
        assert(all_digits(t)) by {
            assert forall|i: int| 0 <= i < t.len() implies is_digit(#[trigger] t[i]) by {
                assert(t[i] == s[i]);
            }
        }
        assert(all_digits(s.take(k))) by {
            assert forall|i: int| 0 <= i < k implies is_digit(#[trigger] s.take(k)[i]) by {
                assert(s.take(k)[i] == s[i]);
            }
        }
        assert(is_digit(t.last()));
        assert(t =~= s.take(k).push(t.last()));
        lemma_digits_grow(s.take(k), t.last());
        lemma_digits_prefix(s, k + 1);
    } else {
        assert(s.take(k) =~= s);
    }
}

/// The value of the digits `v[from..]`, if they are all digits, there is at least one, and the
/// value is at most `limit`.
pub(crate) fn read_digits(v: &Vec<char>, from: usize, limit: u64) -> (r: Option<u64>)
    requires
        from <= v@.len(),
        limit >= 9,
    ensures
        match r {
            Some(n) => number_within(v@.skip(from as int), limit as int) && n == digits_value(
                v@.skip(from as int),
            ),
            None => !number_within(v@.skip(from as int), limit as int),
        },
{
    let ghost d = v@.skip(from as int);
    if from == v.len() {
        return None;
    }
    let mut acc: u64 = 0;
    let mut i: usize = from;
    while i < v.len()
        invariant
            from <= i <= v@.len(),
            d == v@.skip(from as int),
            all_digits(d.take(i - from)),
            acc == digits_value(d.take(i - from)),
            acc <= limit,
            limit >= 9,
        decreases v@.len() - i,
    {
        let c = v[i];
        let ghost pre = d.take(i - from);
        assert(d.take(i - from + 1) =~= pre.push(c));
        if !('0' <= c && c <= '9') {
            proof {
                assert(d[i - from] == c);
                assert(!is_digit(d[i - from]));
            }
            return None;
        }
        proof {
            lemma_digits_grow(pre, c);
            assert(all_digits(pre.push(c))) by {
                assert forall|j: int| 0 <= j < pre.len() + 1 implies is_digit(#[trigger] pre.push(c)[j]) by {
                    if j < pre.len() {
                        assert(pre.push(c)[j] == pre[j]);
                    }
                }
            }
        }
        let digit: u64 = (c as u32 - '0' as u32) as u64;
        assert(digit == c as int - '0' as int);
        if acc > (limit - digit) / 10 {
            proof {
                assert(10 * acc + digit > limit) by (nonlinear_arith)
                    requires
                        acc > (limit - digit) / 10,
                        digit <= 9,
                        limit >= 9,
                ;
                if all_digits(d) {
                    lemma_digits_prefix(d, i - from + 1);
                }
            }
            return None;
        }
        assert(10 * acc + digit <= limit) by (nonlinear_arith)
            requires
                acc <= (limit - digit) / 10,
                digit <= 9,
                limit >= 9,
        ;
        acc = acc * 10 + digit;
        i = i + 1;
    }
    proof {
        assert(d.take(i - from) =~= d);
    }
    Some(acc)
}

/// Reads `text` as a 64-bit signed integer (`str::parse::<i64>`): an optional sign, then
/// decimal digits only.
pub fn parse_i64(text: &str) -> (r: Option<i64>)
    ensures
        match parsed_i64(text@) {
            Some(n) => r == Some(n as i64),
            None => r is None,
        },
{
    let v = chars_of(text);
    if v.len() > 0 && v[0] == '-' {
        match read_digits(&v, 1, 0x8000_0000_0000_0000) {
            Some(n) => {
                if n == 0x8000_0000_0000_0000 {
                    Some(i64::MIN)
                } else {
                    Some(-(n as i64))
                }
            },
            None => None,
        }
    } else {
        let from: usize = if v.len() > 0 && v[0] == '+' {
            1
        } else {
            0
        };
        proof {
            assert(v@.skip(0) =~= v@);
        }
        match read_digits(&v, from, 0x7fff_ffff_ffff_ffff) {
            Some(n) => Some(n as i64),
            None => None,
        }
    }
}

/// What the `Walkable` property declares: a flag, or nothing.
pub open spec fn walkable_prop(p: Option<Property>) -> Option<bool> {
    match p {
        Some(Property::Bool(b)) => Some(b),
        _ => None,
    }
}

/// What the `Group` property declares: a whole number, given as one or as text holding one.
pub open spec fn group_prop(p: Option<Property>) -> Option<i64> {
    match p {
        Some(Property::Int(n)) => Some(n),
        Some(Property::Text(t)) => match parsed_i64(t@) {
            Some(n) => Some(n as i64),
            None => None,
        },
        _ => None,
    }
}

/// What the `sfx` property declares: the cue named by a text value.
pub open spec fn sfx_prop(p: Option<Property>) -> Option<SfxId> {
    match p {
        Some(Property::Text(t)) => Some(SfxId(t)),
        _ => None,
    }
}

/// The tile rules' reading of a tile's `Walkable`, `Group` and `sfx` properties (each absent
/// when the tile does not declare it).
pub fn tile_properties(walkable: Option<Property>, group: Option<Property>, sfx: Option<Property>) -> (r: (
    Option<bool>,
    Option<i64>,
    Option<SfxId>,
))
    ensures
        r.0 == walkable_prop(walkable),
        r.1 == group_prop(group),
        r.2 == sfx_prop(sfx),
{
    let w = match walkable {
        Some(Property::Bool(b)) => Some(b),
        _ => None,
    };
    let g = match group {
        Some(Property::Int(n)) => Some(n),
        Some(Property::Text(t)) => parse_i64(t.as_str()),
        _ => None,
    };
    let s = match sfx {
        Some(Property::Text(t)) => Some(SfxId(t)),
        _ => None,
    };
    (w, g, s)
}

} // verus!
