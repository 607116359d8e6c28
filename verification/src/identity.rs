//! Who a connection is, and what its roles entitle it to.

use vstd::prelude::*;

use crate::client::{decimal, push_decimal};
use crate::text::{append, owned, str_eq};

verus! {

/// Attached as the connection's session data, so it travels with the client across shards.
#[derive(Debug)]
pub struct Identity {
    pub id: String,
    pub name: String,
    pub roles: Vec<String>,
}

impl Identity {
    pub open spec fn holds(self, role: Seq<char>) -> bool {
        exists|i: int| 0 <= i < self.roles@.len() && (#[trigger] self.roles@[i])@ == role
    }

    /// Whether the identity carries `role`.
    pub fn has_role(&self, role: &str) -> (r: bool)
        ensures
            r == self.holds(role@),
    {
        let mut i: usize = 0;
        while i < self.roles.len()
            invariant
                i <= self.roles@.len(),
                forall|k: int| 0 <= k < i ==> (#[trigger] self.roles@[k])@ != role@,
            decreases self.roles@.len() - i,
        {
            if str_eq(self.roles[i].as_str(), role) {
                return true;
            }
            i = i + 1;
        }
        false
    }
}

/// Whether a connection may spectate: it must not be playing, and when the server
/// authenticates connections (`identity` is present) it must hold the spectate role; a server
/// without an authenticator lets anyone spectate.
pub fn spectate_allowed(playing: bool, identity: Option<&Identity>) -> (r: bool)
    ensures
        r == (!playing && match identity {
            Some(id) => id.holds(crate::protocol::SPECTATE_ROLE@),
            None => true,
        }),
{
    let entitled = match identity {
        Some(id) => id.has_role(crate::protocol::SPECTATE_ROLE),
        None => true,
    };
    !playing && entitled
}

/// Whether a join request spawns a player: only for a connection neither playing nor
/// spectating.
pub fn join_admitted(playing: bool, spectating: bool) -> (r: bool)
    ensures
        r == (!playing && !spectating),
{
    !playing && !spectating
}

/// The name a joining player goes by: its identity's name, or `player <client>` on a server
/// that does not authenticate connections.
pub open spec fn player_name_of(identity: Option<Identity>, client: u32) -> Seq<char> {
    match identity {
        Some(id) => id.name@,
        None => "player "@ + decimal(client as nat),
    }
}

/// The name of the player a joining connection spawns.
pub fn player_name(identity: Option<&Identity>, client: u32) -> (r: String)
    ensures
        r@ == player_name_of(
            match identity {
                Some(id) => Some(*id),
                None => None,
            },
            client,
        ),
{
    match identity {
        Some(id) => owned(id.name.as_str()),
        None => {
            let mut out = String::new();
            append(&mut out, "player ");
            push_decimal(&mut out, client as u64);
            out
        },
    }
}

} // verus!
