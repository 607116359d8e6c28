//! The wire vocabulary shared by server and clients.

use vstd::prelude::*;

use crate::actors::ActorModelId;
use crate::tiles::AreaId;
use vstd::string::StringSliceAdditionalSpecFns;

verus! {

pub const ACTION_IDLE: u8 = 0;

pub const ACTION_WALK: u8 = 1;

pub const ACTION_RUN: u8 = 2;

pub const ACTION_ATTACK: u8 = 3;

pub const ACTION_DEAD: u8 = 4;

/// The role that entitles a connection to spectate.
pub const SPECTATE_ROLE: &'static str = "spectate";

/// The verb of a wire action in the actor model manifests; unknown actions read as idle.
pub open spec fn action_verb(action: u8) -> Seq<char> {
    if action == ACTION_WALK {
        seq!['w', 'a', 'l', 'k']
    } else if action == ACTION_RUN {
        seq!['r', 'u', 'n']
    } else if action == ACTION_ATTACK {
        seq!['a', 't', 't', 'a', 'c', 'k']
    } else if action == ACTION_DEAD {
        seq!['d', 'e', 'a', 't', 'h']
    } else {
        seq!['i', 'd', 'l', 'e']
    }
}

/// The wire action's verb in the actor model manifests; unknown actions read as idle.
pub fn action_name(action: u8) -> (r: &'static str)
    ensures
        r@ == action_verb(action),
{
    if action == ACTION_WALK {
        proof {
            reveal_strlit("walk");
        }
        assert("walk"@ =~= action_verb(action));
        "walk"
    } else if action == ACTION_RUN {
        proof {
            reveal_strlit("run");
        }
        assert("run"@ =~= action_verb(action));
        "run"
    } else if action == ACTION_ATTACK {
        proof {
            reveal_strlit("attack");
        }
        assert("attack"@ =~= action_verb(action));
        "attack"
    } else if action == ACTION_DEAD {
        proof {
            reveal_strlit("death");
        }
        assert("death"@ =~= action_verb(action));
        "death"
    } else {
        proof {
            reveal_strlit("idle");
        }
        assert("idle"@ =~= action_verb(action));
        "idle"
    }
}

/// A `0xRRGGBBAA` packed color; content tables spell it `#rrggbbaa`.
#[derive(Clone, Copy, PartialEq, Eq, Debug, Default, Hash)]
pub struct Rgba(pub u32);

/// An item definition's index in the item table.
#[derive(Clone, Copy, PartialEq, Eq, Debug, Default, Hash)]
pub struct ItemId(pub u16);

/// The value of an ASCII hex digit, if `b` is one.
pub open spec fn hex_digit(b: u8) -> Option<int> {
    if 0x30 <= b <= 0x39 {
        Some(b - 0x30)
    } else if 0x61 <= b <= 0x66 {
        Some(b - 0x61 + 10)
    } else if 0x41 <= b <= 0x46 {
        Some(b - 0x41 + 10)
    } else {
        None
    }
}

/// The value of a run of hex digits, if every byte is one.
pub open spec fn hex_value(s: Seq<u8>) -> Option<int>
    decreases s.len(),
{
    if s.len() == 0 {
        Some(0)
    } else {
        match (hex_value(s.drop_last()), hex_digit(s.last())) {
            (Some(v), Some(d)) => Some(v * 16 + d),
            _ => None,
        }
    }
}

/// What `#` followed by `digits` spells as a color: eight bytes of hex digits, or (as
/// `u32::from_str_radix` also reads it) a `+` sign and seven.
pub open spec fn color_of(bytes: Seq<u8>) -> Option<u32> {
    if bytes.len() != 9 || bytes[0] != 0x23 {
        None
    } else {
        let digits = bytes.subrange(1, 9);
        let body = if digits[0] == 0x2B { digits.subrange(1, 8) } else { digits };
        match hex_value(body) {
            Some(v) => Some(v as u32),
            None => None,
        }
    }
}

proof fn lemma_hex_value_bound(s: Seq<u8>)
    ensures
        hex_value(s) matches Some(v) ==> 0 <= v < pow16(s.len() as nat),
    decreases s.len(),
{
    if s.len() > 0 {
        lemma_hex_value_bound(s.drop_last());
        if let Some(v) = hex_value(s.drop_last()) {
            if let Some(d) = hex_digit(s.last()) {
                let p = pow16((s.len() - 1) as nat);
                assert(v * 16 + d < p * 16) by (nonlinear_arith)
                    requires
                        0 <= v < p,
                        0 <= d < 16,
                ;
                assert(0 <= v * 16 + d) by (nonlinear_arith)
                    requires
                        0 <= v,
                        0 <= d,
                ;
            }
        }
    }
}

pub open spec fn pow16(n: nat) -> int
    decreases n,
{
    if n == 0 { 1 } else { 16 * pow16((n - 1) as nat) }
}

fn hex_digit_of(b: u8) -> (r: Option<u32>)
    ensures
        r matches Some(d) ==> hex_digit(b) == Some(d as int),
        r is None ==> hex_digit(b) is None,
{
    if 0x30 <= b && b <= 0x39 {
        Some((b - 0x30) as u32)
    } else if 0x61 <= b && b <= 0x66 {
        Some((b - 0x61 + 10) as u32)
    } else if 0x41 <= b && b <= 0x46 {
        Some((b - 0x41 + 10) as u32)
    } else {
        None
    }
}

/// Reads a content table's `#rrggbbaa` color.
pub fn parse_rgba(text: &str) -> (r: Option<Rgba>)
    ensures
        r matches Some(c) ==> color_of(text.spec_bytes()) == Some(c.0),
        r is None ==> color_of(text.spec_bytes()) is None,
{
    let bytes = text.as_bytes();
    if bytes.len() != 9 || bytes[0] != 0x23 {
        return None;
    }
    let ghost digits = bytes@.subrange(1, 9);
    let start: usize = if bytes[1] == 0x2B { 2 } else { 1 };
    let ghost body = bytes@.subrange(start as int, 9);
    assert(body =~= (if digits[0] == 0x2B { digits.subrange(1, 8) } else { digits }));
    let mut value: u64 = 0;
    let mut i: usize = start;
    while i < 9
        invariant
            bytes@ == text.spec_bytes(),
            hex_value(bytes@.subrange(start as int, 9)) is None ==> color_of(text.spec_bytes()) is None,
            bytes@.len() == 9,
            1 <= start <= 2,
            start <= i <= 9,
            hex_value(bytes@.subrange(start as int, i as int)) == Some(value as int),
            value < pow16((i - start) as nat),
        decreases 9 - i,
    {
        assert(bytes@.subrange(start as int, i + 1).drop_last() =~= bytes@.subrange(start as int, i as int));
        match hex_digit_of(bytes[i]) {
            Some(d) => {
                proof {
                    assert(pow16((i + 1 - start) as nat) == 16 * pow16((i - start) as nat));
                    lemma_pow16_8();
                    lemma_pow16_mono((i - start) as nat, 7);
                    assert(value * 16 + d < 16 * pow16((i - start) as nat)) by (nonlinear_arith)
                        requires
                            value < pow16((i - start) as nat),
                            d < 16,
                    ;
                }
                value = value * 16 + d as u64;
            },
            None => {
                proof {
                    assert(hex_value(bytes@.subrange(start as int, i + 1)) is None);
                    lemma_hex_none_extends(bytes@.subrange(start as int, 9), i + 1 - start);
                    assert(bytes@.subrange(start as int, 9).subrange(0, i + 1 - start) =~= bytes@.subrange(start as int, i + 1));
                }
                return None;
            },
        }
        i = i + 1;
    }
    proof {
        lemma_pow16_8();
        lemma_pow16_mono((9 - start) as nat, 8);
    }
    Some(Rgba(value as u32))
}

proof fn lemma_pow16_8()
    ensures
        pow16(8) == 0x1_0000_0000,
{
    reveal_with_fuel(pow16, 9);
}

proof fn lemma_pow16_mono(a: nat, b: nat)
    requires
        a <= b,
    ensures
        pow16(a) <= pow16(b),
        pow16(a) >= 1,
    decreases b,
{
    if b == 0 {
    } else if a == b {
        lemma_pow16_mono((b - 1) as nat, (b - 1) as nat);
    } else {
        lemma_pow16_mono(a, (b - 1) as nat);
    }
}

/// Once a prefix of `s` fails to read as hex digits, so does all of `s`.
proof fn lemma_hex_none_extends(s: Seq<u8>, n: int)
    requires
        0 < n <= s.len(),
        hex_value(s.subrange(0, n)) is None,
    ensures
        hex_value(s) is None,
    decreases s.len() - n,
{
    if n < s.len() {
        assert(s.subrange(0, n + 1).drop_last() =~= s.subrange(0, n));
        lemma_hex_none_extends(s, n + 1);
    } else {
        assert(s.subrange(0, n) =~= s);
    }
}

/// The area an entity is in.
#[derive(Debug, PartialEq)]
pub struct AreaTag {
    pub area: AreaId,
}

#[derive(Debug, PartialEq)]
pub struct Name {
    pub name: String,
}

/// Each element is one owned item instance.
#[derive(Debug, PartialEq)]
pub struct Inventory {
    pub items: Vec<ItemId>,
}

#[derive(Debug, PartialEq)]
pub struct Xp {
    pub amount: u32,
}

#[derive(Debug, PartialEq)]
pub struct UseItemRequest {
    pub slot: u32,
}

#[derive(Debug, PartialEq)]
pub struct JoinRequest {}

#[derive(Debug, PartialEq)]
pub struct RespawnRequest {}

/// The model and look of a rendered actor.
#[derive(Debug, PartialEq)]
pub struct ActorLook {
    pub color: Rgba,
    pub dir: u8,
    pub action: u8,
    pub model: ActorModelId,
}

} // verus!
