//! The website's page decisions: which page a visitor gets on the play and spectate routes,
//! whether the navigation offers spectating, and the launch parameters a game page hands the
//! wasm client.

use vstd::prelude::*;

use crate::client::{config_of, line_end, split_line};
use crate::text::{push_char, str_eq};

verus! {

/// What a game route answers.
#[derive(Clone, Copy, PartialEq, Eq, Structural, Debug)]
pub enum Page {
    /// The embedded game client.
    Game,
    /// An invitation to sign in first.
    SignInRequired,
    /// Refused (403): signed in, but without the spectate role.
    Denied,
}

/// Whether the roles include the spectate role.
pub open spec fn spectator(roles: Seq<String>) -> bool {
    exists|i: int| 0 <= i < roles.len() && (#[trigger] roles[i])@ == crate::protocol::SPECTATE_ROLE@
}

/// Whether a visitor with `roles` (`None` when signed out) is offered the spectate page.
pub fn can_spectate(roles: Option<&Vec<String>>) -> (r: bool)
    ensures
        r == match roles {
            Some(v) => spectator(v@),
            None => false,
        },
{
    let v = match roles {
        Some(v) => v,
        None => return false,
    };
    let mut i: usize = 0;
    while i < v.len()
        invariant
            roles == Some(v),
            i <= v@.len(),
            forall|k: int| 0 <= k < i ==> (#[trigger] v@[k])@ != crate::protocol::SPECTATE_ROLE@,
        decreases v@.len() - i,
    {
        if str_eq(v[i].as_str(), crate::protocol::SPECTATE_ROLE) {
            return true;
        }
        i = i + 1;
    }
    false
}

/// The play route: the game for anyone signed in.
pub fn play_page(signed_in: bool) -> (p: Page)
    ensures
        p == if signed_in {
            Page::Game
        } else {
            Page::SignInRequired
        },
{
    if signed_in {
        Page::Game
    } else {
        Page::SignInRequired
    }
}

/// The spectate route: the game for spectators, refused for other signed-in visitors, an
/// invitation to sign in for the rest.
pub fn spectate_page(roles: Option<&Vec<String>>) -> (p: Page)
    ensures
        p == match roles {
            Some(v) => if spectator(v@) {
                Page::Game
            } else {
                Page::Denied
            },
            None => Page::SignInRequired,
        },
{
    match roles {
        Some(v) => {
            if can_spectate(Some(v)) {
                Page::Game
            } else {
                Page::Denied
            }
        },
        None => Page::SignInRequired,
    }
}

/// The body a game page answers the wasm client's `?config` request with: the websocket url,
/// a line feed, and `1` or `0` for the spectate flag.
pub open spec fn config_body_of(ws_url: Seq<char>, spectate: bool) -> Seq<char> {
    ws_url + seq!['\n', if spectate { '1' } else { '0' }]
}

/// The launch parameters of a game page, as the wasm client reads them.
pub fn config_body(ws_url: &str, spectate: bool) -> (r: String)
    ensures
        r@ == config_body_of(ws_url@, spectate),
{
    let mut out = ws_url.to_owned();
    push_char(&mut out, '\n');
    push_char(&mut out, if spectate { '1' } else { '0' });
    out
}

proof fn lemma_line_end_at(s: Seq<char>, i: int, k: int)
    requires
        0 <= i <= k < s.len(),
        s[k] == '\n',
        forall|j: int| i <= j < k ==> s[j] != '\n',
    ensures
        line_end(s, i) == k,
    decreases k - i,
{
    if i < k {
        lemma_line_end_at(s, i + 1, k);
    }
}

/// What a game page serves, the client reads back: the url and the spectate flag, for every url
/// on one line (a url never holds a line break).
pub proof fn lemma_config_round_trip(ws_url: Seq<char>, spectate: bool)
    requires
        !ws_url.contains('\n'),
        !(ws_url.len() > 0 && ws_url.last() == '\r'),
    ensures
        config_of(config_body_of(ws_url, spectate)) == (ws_url, spectate),
{
    let body = config_body_of(ws_url, spectate);
    let n = ws_url.len() as int;
    assert forall|j: int| 0 <= j < n implies body[j] != '\n' by {
        assert(body[j] == ws_url[j]);
        if body[j] == '\n' {
            assert(ws_url.contains('\n'));
        }
    }
    lemma_line_end_at(body, 0, n);
    assert(body.subrange(0, n) =~= ws_url);
    let rest = body.subrange(n + 1, body.len() as int);
    assert(rest =~= seq![if spectate { '1' } else { '0' }]);
    assert(line_end(rest, 0) == 1) by {
        assert(line_end(rest, 1) == 1);
    }
    assert(rest.subrange(0, 1) =~= rest);
    assert(split_line(rest).0 =~= rest);
    if !spectate {
        assert(rest != seq!['1']) by {
            assert(rest[0] == '0');
        }
    }
}

} // verus!
