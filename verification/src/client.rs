//! The game client's decisions that do not touch the screen: reading its launch parameters,
//! cycling the spectated player, and the debug overlay modes.

use vstd::prelude::*;

use crate::nav::Grid;
use crate::text::{append, chars_of, owned, push_char, str_eq, string_of};

verus! {

/// The server a native client connects to when none is given.
pub const DEFAULT_ADDRESS: &'static str = "127.0.0.1:9998";

pub open spec fn spectate_flag() -> Seq<char> {
    seq!['-', '-', 's', 'p', 'e', 'c', 't', 'a', 't', 'e']
}

/// Whether the command line asks for spectating.
pub fn spectate_mode(args: &Vec<String>) -> (r: bool)
    ensures
        r == exists|i: int| 0 <= i < args@.len() && (#[trigger] args@[i])@ == spectate_flag(),
{
    proof {
        reveal_strlit("--spectate");
        assert("--spectate"@ =~= spectate_flag());
    }
    let mut i: usize = 0;
    while i < args.len()
        invariant
            "--spectate"@ == spectate_flag(),
            i <= args@.len(),
            forall|k: int| 0 <= k < i ==> (#[trigger] args@[k])@ != spectate_flag(),
        decreases args@.len() - i,
    {
        if str_eq(args[i].as_str(), "--spectate") {
            return true;
        }
        i = i + 1;
    }
    false
}

/// The command line's operands: everything after the program name except the spectate flag.
pub open spec fn operands(args: Seq<String>) -> Seq<String> {
    args.drop_first().filter(|a: String| a@ != spectate_flag())
}

/// The native client's (address, token) from its command line: the first operand or the
/// default address, and the second operand or no token.
pub fn session_args(args: &Vec<String>) -> (r: (String, String))
    requires
        args@.len() >= 1,
    ensures
        r.0@ == (if operands(args@).len() >= 1 { operands(args@)[0]@ } else { DEFAULT_ADDRESS@ }),
        r.1@ == (if operands(args@).len() >= 2 { operands(args@)[1]@ } else { Seq::<char>::empty() }),
{
    proof {
        reveal_strlit("--spectate");
        assert("--spectate"@ =~= spectate_flag());
    }
    let mut kept: Vec<&String> = Vec::new();
    let mut i: usize = 1;
    let ghost rest = args@.drop_first();
    let ghost pred = |a: String| a@ != spectate_flag();
    assert(rest.subrange(0, 0) =~= Seq::<String>::empty());
    while i < args.len()
        invariant
            "--spectate"@ == spectate_flag(),
            rest == args@.drop_first(),
            pred == (|a: String| a@ != spectate_flag()),
            1 <= i <= args@.len(),
            kept@.map_values(|a: &String| *a) == rest.subrange(0, i - 1).filter(pred),
        decreases args@.len() - i,
    {
        proof {
            reveal_with_fuel(Seq::filter, 1);
            assert(rest.subrange(0, i as int).drop_last() =~= rest.subrange(0, i - 1));
            assert(rest.subrange(0, i as int).last() == args@[i as int]);
        }
        let ghost before = kept@;
        if !str_eq(args[i].as_str(), "--spectate") {
            kept.push(&args[i]);
            assert(kept@.map_values(|a: &String| *a) =~= before.map_values(|a: &String| *a).push(args@[i as int]));
        }
        i = i + 1;
    }
    assert(rest.subrange(0, rest.len() as int) =~= rest);
    assert(kept@.map_values(|a: &String| *a) == operands(args@));
    let address = if kept.len() >= 1 {
        assert(kept@.map_values(|a: &String| *a)[0] == *kept@[0]);
        kept[0].clone()
    } else {
        DEFAULT_ADDRESS.to_owned()
    };
    let token = if kept.len() >= 2 {
        assert(kept@.map_values(|a: &String| *a)[1] == *kept@[1]);
        kept[1].clone()
    } else {
        String::new()
    };
    (address, token)
}

/// The position of the first line feed in `s` at or after `i`, or its length.
pub open spec fn line_end(s: Seq<char>, i: int) -> int
    decreases s.len() - i,
{
    if i >= s.len() {
        s.len() as int
    } else if s[i] == '\n' {
        i
    } else {
        line_end(s, i + 1)
    }
}

/// The first line of `s` (up to a line feed, without a carriage return just before it), and
/// what follows that line feed, if there is one.
pub open spec fn split_line(s: Seq<char>) -> (Seq<char>, Option<Seq<char>>) {
    let cut = line_end(s, 0);
    let line = s.subrange(0, cut);
    let line = if cut < s.len() && line.len() > 0 && line.last() == '\r' { line.drop_last() } else { line };
    (line, if cut < s.len() { Some(s.subrange(cut + 1, s.len() as int)) } else { None })
}

/// What a game page answers the wasm client: a websocket url on the first line, and `1` on the
/// second when the page is the spectate page.
pub open spec fn config_of(body: Seq<char>) -> (Seq<char>, bool) {
    let (url, rest) = split_line(body);
    let spectate = match rest {
        Some(r) => r.len() > 0 && split_line(r).0 == seq!['1'],
        None => false,
    };
    (url, spectate)
}

pub(crate) fn first_line(v: &Vec<char>, from: usize) -> (r: (Vec<char>, Option<usize>))
    requires
        from <= v@.len(),
    ensures
        ({
            let (line, rest) = split_line(v@.subrange(from as int, v@.len() as int));
            &&& r.0@ == line
            &&& match rest {
                Some(t) => r.1 matches Some(k) && from < k <= v@.len() && t == v@.subrange(k as int, v@.len() as int),
                None => r.1 is None,
            }
        }),
{
    let ghost s = v@.subrange(from as int, v@.len() as int);
    let mut i: usize = from;
    while i < v.len() && v[i] != '\n'
        invariant
            from <= i <= v@.len(),
            s == v@.subrange(from as int, v@.len() as int),
            line_end(s, 0) == line_end(s, i - from),
        decreases v@.len() - i,
    {
        assert(s[i - from] == v@[i as int]);
        i = i + 1;
    }
    proof {
        if i < v@.len() {
            assert(s[i - from] == '\n');
        }
        assert(line_end(s, 0) == i - from);
    }
    let mut line: Vec<char> = Vec::new();
    let mut k: usize = from;
    while k < i
        invariant
            from <= k <= i,
            i <= v@.len(),
            line@ == v@.subrange(from as int, k as int),
        decreases i - k,
    {
        line.push(v[k]);
        k = k + 1;
        assert(line@ =~= v@.subrange(from as int, k as int));
    }
    proof {
        assert(s.subrange(0, i - from) =~= line@);
        if i < v@.len() {
            assert(s.subrange(i - from + 1, s.len() as int) =~= v@.subrange(i + 1, v@.len() as int));
        }
    }
    if i < v.len() && line.len() > 0 && line[line.len() - 1] == '\r' {
        line.pop();
    }
    if i < v.len() {
        (line, Some(i + 1))
    } else {
        (line, None)
    }
}

/// The lines of `s`, as `str::lines` reads them: split at line feeds, each without a carriage
/// return just before its line feed, with no empty line after a final line feed.
pub open spec fn lines_of(s: Seq<char>) -> Seq<Seq<char>>
    decreases s.len(),
{
    if s.len() == 0 {
        seq![]
    } else {
        let (line, rest) = split_line(s);
        let cut = line_end(s, 0);
        if 0 <= cut < s.len() {
            seq![line] + lines_of(s.subrange(cut + 1, s.len() as int))
        } else {
            seq![line]
        }
    }
}

pub(crate) proof fn lemma_line_end_bounds(s: Seq<char>, i: int)
    requires
        0 <= i,
    ensures
        i <= line_end(s, i) || i >= s.len(),
        line_end(s, i) <= s.len(),
        line_end(s, i) < s.len() ==> s[line_end(s, i)] == '\n',
    decreases s.len() - i,
{
    if i < s.len() && s[i] != '\n' {
        lemma_line_end_bounds(s, i + 1);
    }
}

/// The client spectates exactly when the game page's answer has a second line reading `1`:
/// the flag `parse_config` reads is that of the body's second line, as `str::lines` splits it.
pub proof fn lemma_spectate_flag_second_line(body: Seq<char>)
    ensures
        config_of(body).1 <==> (lines_of(body).len() >= 2 && lines_of(body)[1] == seq!['1']),
{
    if body.len() > 0 {
        lemma_line_end_bounds(body, 0);
        let cut = line_end(body, 0);
        if cut < body.len() {
            let rest = body.subrange(cut + 1, body.len() as int);
            let tail = lines_of(rest);
            assert(lines_of(body) == seq![split_line(body).0] + tail);
            if rest.len() > 0 {
                lemma_line_end_bounds(rest, 0);
                assert(tail[0] == split_line(rest).0);
            } else {
                assert(tail.len() == 0);
            }
        }
    }
}

/// Reads the game page's launch parameters: the websocket url, and whether to spectate.
pub fn parse_config(body: &str) -> (r: (String, bool))
    ensures
        r.0@ == config_of(body@).0,
        r.1 == config_of(body@).1,
{
    let v = chars_of(body);
    assert(v@.subrange(0, v@.len() as int) =~= v@);
    let (url, rest) = first_line(&v, 0);
    let spectate = match rest {
        Some(k) => {
            if k < v.len() {
                let (second, _) = first_line(&v, k);
                second.len() == 1 && second[0] == '1'
            } else {
                false
            }
        },
        None => false,
    };
    proof {
        if let Some(k) = rest {
            if k < v@.len() {
                let (second, _) = split_line(v@.subrange(k as int, v@.len() as int));
                if second.len() == 1 && second[0] == '1' {
                    assert(second =~= seq!['1']);
                }
            }
        }
    }
    (string_of(&url), spectate)
}

/// The player to spectate next: the one after the currently watched player in roster order,
/// wrapping around, or the first when none is watched (or the watched one left).
pub fn next_watch(players: &Vec<(u32, String)>, watching: Option<u32>) -> (r: Option<u32>)
    ensures
        players@.len() == 0 ==> r is None,
        players@.len() > 0 && (watching is None || forall|i: int|
            0 <= i < players@.len() ==> (#[trigger] players@[i]).0 != watching->0) ==> r == Some(
            players@[0].0,
        ),
        forall|i: int|
            watching is Some && #[trigger] first_at(players@, watching->0, i) ==> r == Some(
                players@[(i + 1) % (players@.len() as int)].0,
            ),
{
    if players.len() == 0 {
        return None;
    }
    match watching {
        Some(w) => {
            let mut i: usize = 0;
            while i < players.len()
                invariant
                    i <= players@.len(),
                    watching == Some(w),
                    forall|j: int| 0 <= j < i ==> players@[j].0 != w,
                decreases players@.len() - i,
            {
                if players[i].0 == w {
                    let next = (i + 1) % players.len();
                    proof {
                        assert forall|c: int| #[trigger] first_at(players@, w, c) implies c == i by {
                            if c < i {
                                assert(players@[c].0 != w);
                            }
                            if c > i {
                                assert(players@[i as int].0 == w);
                            }
                        }
                        assert(players@[i as int].0 == w);
                    }
                    return Some(players[next].0);
                }
                i = i + 1;
            }
            Some(players[0].0)
        },
        None => Some(players[0].0),
    }
}

/// `i` is the first position whose id is `w`.
pub open spec fn first_at(players: Seq<(u32, String)>, w: u32, i: int) -> bool {
    &&& 0 <= i < players.len()
    &&& players[i].0 == w
    &&& forall|j: int| 0 <= j < i ==> players[j].0 != w
}

/// The decimal spelling of `n`.
pub open spec fn decimal(n: nat) -> Seq<char>
    decreases n,
{
    if n < 10 {
        seq![digit_char(n)]
    } else {
        decimal(n / 10).push(digit_char(n % 10))
    }
}

pub open spec fn digit_char(d: nat) -> char {
    if d == 0 {
        '0'
    } else if d == 1 {
        '1'
    } else if d == 2 {
        '2'
    } else if d == 3 {
        '3'
    } else if d == 4 {
        '4'
    } else if d == 5 {
        '5'
    } else if d == 6 {
        '6'
    } else if d == 7 {
        '7'
    } else if d == 8 {
        '8'
    } else {
        '9'
    }
}

fn digit(d: u64) -> (c: char)
    requires
        d < 10,
    ensures
        c == digit_char(d as nat),
{
    if d == 0 {
        '0'
    } else if d == 1 {
        '1'
    } else if d == 2 {
        '2'
    } else if d == 3 {
        '3'
    } else if d == 4 {
        '4'
    } else if d == 5 {
        '5'
    } else if d == 6 {
        '6'
    } else if d == 7 {
        '7'
    } else if d == 8 {
        '8'
    } else {
        '9'
    }
}

/// Appends the decimal spelling of `n` to `s`.
pub fn push_decimal(s: &mut String, n: u64)
    ensures
        final(s)@ == old(s)@ + decimal(n as nat),
    decreases n,
{
    if n < 10 {
        push_char(s, digit(n));
    } else {
        push_decimal(s, n / 10);
        push_char(s, digit(n % 10));
    }
}

pub open spec fn player_label(id: u32) -> Seq<char> {
    seq!['p', 'l', 'a', 'y', 'e', 'r', ' '] + decimal(id as nat)
}

/// The name shown for player `id` looking through the roster from entry `i` on: the first
/// entry with that id gives its name, or `player <id>` when the name is empty; `player <id>`
/// when no entry has it.
pub open spec fn roster_name_from(players: Seq<(u32, String)>, i: int, id: u32) -> Seq<char>
    decreases players.len() - i,
{
    if i < 0 || i >= players.len() {
        player_label(id)
    } else if players[i].0 == id {
        if players[i].1@.len() > 0 {
            players[i].1@
        } else {
            player_label(id)
        }
    } else {
        roster_name_from(players, i + 1, id)
    }
}

/// The name to show for the spectated player `id`: its roster name, or `player <id>` when it
/// has none (or left).
pub fn watched_name(players: &Vec<(u32, String)>, id: u32) -> (r: String)
    ensures
        r@ == roster_name_from(players@, 0, id),
{
    let mut i: usize = 0;
    while i < players.len()
        invariant
            i <= players@.len(),
            roster_name_from(players@, 0, id) == roster_name_from(players@, i as int, id),
        decreases players@.len() - i,
    {
        if players[i].0 == id {
            if !players[i].1.as_str().is_empty() {
                return players[i].1.clone();
            }
            return label(id);
        }
        i = i + 1;
    }
    label(id)
}

/// What the spectator's status line reads: whom it watches, or how to start watching.
pub open spec fn status_of(players: Seq<(u32, String)>, watching: Option<u32>) -> Seq<char> {
    match watching {
        Some(id) => "spectating "@ + roster_name_from(players, 0, id) + " — N: next"@,
        None => "spectating — press N to watch a player"@,
    }
}

/// The spectator's status line.
pub fn spectate_status(players: &Vec<(u32, String)>, watching: Option<u32>) -> (r: String)
    ensures
        r@ == status_of(players@, watching),
{
    match watching {
        Some(id) => {
            let mut out = String::new();
            append(&mut out, "spectating ");
            let name = watched_name(players, id);
            append(&mut out, name.as_str());
            append(&mut out, " — N: next");
            out
        },
        None => {
            let mut out = String::new();
            append(&mut out, "spectating — press N to watch a player");
            out
        },
    }
}

/// `player <id>`.
fn label(id: u32) -> (r: String)
    ensures
        r@ == player_label(id),
{
    proof {
        reveal_strlit("player ");
    }
    let prefix = chars_of("player ");
    assert(prefix@ =~= seq!['p', 'l', 'a', 'y', 'e', 'r', ' ']);
    let mut s = string_of(&prefix);
    push_decimal(&mut s, id as u64);
    s
}

/// The debug overlay modes, cycled by a key.
#[derive(Clone, Copy, PartialEq, Eq, Debug)]
pub enum DebugMode {
    Off,
    All,
    Tile,
    ProximityNode,
    Obscured,
}

impl DebugMode {
    /// The mode after `self` in the cycle.
    pub fn next(self) -> (r: DebugMode)
        ensures
            r == match self {
                DebugMode::Off => DebugMode::All,
                DebugMode::All => DebugMode::Tile,
                DebugMode::Tile => DebugMode::ProximityNode,
                DebugMode::ProximityNode => DebugMode::Obscured,
                DebugMode::Obscured => DebugMode::Off,
            },
    {
        match self {
            DebugMode::Off => DebugMode::All,
            DebugMode::All => DebugMode::Tile,
            DebugMode::Tile => DebugMode::ProximityNode,
            DebugMode::ProximityNode => DebugMode::Obscured,
            DebugMode::Obscured => DebugMode::Off,
        }
    }

    /// The mode's name on the overlay.
    pub fn label(self) -> (r: &'static str)
        ensures
            r@ == self.label_of(),
    {
        proof {
            reveal_strlit("none");
            reveal_strlit("all");
            reveal_strlit("tile");
            reveal_strlit("proximity node");
            reveal_strlit("obscured");
        }
        match self {
            DebugMode::Off => "none",
            DebugMode::All => "all",
            DebugMode::Tile => "tile",
            DebugMode::ProximityNode => "proximity node",
            DebugMode::Obscured => "obscured",
        }
    }

    pub open spec fn label_of(self) -> Seq<char> {
        match self {
            DebugMode::Off => "none"@,
            DebugMode::All => "all"@,
            DebugMode::Tile => "tile"@,
            DebugMode::ProximityNode => "proximity node"@,
            DebugMode::Obscured => "obscured"@,
        }
    }

    pub open spec fn step(self) -> DebugMode {
        match self {
            DebugMode::Off => DebugMode::All,
            DebugMode::All => DebugMode::Tile,
            DebugMode::Tile => DebugMode::ProximityNode,
            DebugMode::ProximityNode => DebugMode::Obscured,
            DebugMode::Obscured => DebugMode::Off,
        }
    }
}

/// Pressing the debug key five times brings back the mode one started from.
pub proof fn lemma_debug_cycle(m: DebugMode)
    ensures
        m.step().step().step().step().step() == m,
{
}

pub open spec fn proximity_offset(k: int) -> (int, int) {
    if k == 0 {
        (0, 0)
    } else if k == 1 {
        (1, 0)
    } else if k == 2 {
        (-1, 0)
    } else if k == 3 {
        (0, 1)
    } else if k == 4 {
        (0, -1)
    } else if k == 5 {
        (1, 1)
    } else if k == 6 {
        (1, -1)
    } else if k == 7 {
        (-1, 1)
    } else {
        (-1, -1)
    }
}

fn proximity_step(k: usize) -> (o: (i32, i32))
    requires
        k < 9,
    ensures
        o.0 == proximity_offset(k as int).0,
        o.1 == proximity_offset(k as int).1,
{
    if k == 0 {
        (0, 0)
    } else if k == 1 {
        (1, 0)
    } else if k == 2 {
        (-1, 0)
    } else if k == 3 {
        (0, 1)
    } else if k == 4 {
        (0, -1)
    } else if k == 5 {
        (1, 1)
    } else if k == 6 {
        (1, -1)
    } else if k == 7 {
        (-1, 1)
    } else {
        (-1, -1)
    }
}

/// The walkable cell under the pointer, or the first walkable neighbour (orthogonal ones
/// first).
pub fn proximity_node(grid: &Grid, x: i32, y: i32) -> (r: Option<(i32, i32)>)
    requires
        i32::MIN < x < i32::MAX,
        i32::MIN < y < i32::MAX,
    ensures
        r matches Some(c) ==> exists|k: int|
            0 <= k < 9 && c.0 == x + proximity_offset(k).0 && c.1 == y + proximity_offset(k).1
                && grid@.passable(c.0 as int, c.1 as int) && forall|j: int|
                0 <= j < k ==> !grid@.passable(x + #[trigger] proximity_offset(j).0, y + proximity_offset(j).1),
        r is None ==> forall|j: int|
            0 <= j < 9 ==> !grid@.passable(x + #[trigger] proximity_offset(j).0, y + proximity_offset(j).1),
{
    let mut k: usize = 0;
    while k < 9
        invariant
            k <= 9,
            i32::MIN < x < i32::MAX,
            i32::MIN < y < i32::MAX,
            forall|j: int|
                0 <= j < k ==> !grid@.passable(x + #[trigger] proximity_offset(j).0, y + proximity_offset(j).1),
        decreases 9 - k,
    {
        let (dx, dy) = proximity_step(k);
        let c = (x + dx, y + dy);
        if grid.walkable(c.0, c.1) {
            return Some(c);
        }
        k = k + 1;
    }
    None
}

/// Whether the player asked to quit: Escape on the desktop client; a browser tab is closed by
/// the browser, so the web client never asks.
pub fn exit_requested(escape_pressed: bool, in_browser: bool) -> (r: bool)
    ensures
        r == (escape_pressed && !in_browser),
{
    escape_pressed && !in_browser
}

/// A connection's entry in the replicated world: its client id, its name if it has one, and
/// whether it has a rendered actor (a player, not a spectator anchor).
pub struct Owned {
    pub client: u32,
    pub name: Option<String>,
    pub actor: bool,
}

/// The name an owned entity shows in the roster: its name, or empty.
pub open spec fn owned_name(o: Owned) -> Seq<char> {
    match o.name {
        Some(n) => n@,
        None => seq![],
    }
}

/// The roster entries of `owners`, in their order: every other connection's player, with its
/// name.
pub open spec fn roster_entries(owners: Seq<Owned>, me: Option<u32>) -> Seq<(u32, Seq<char>)>
    decreases owners.len(),
{
    if owners.len() == 0 {
        seq![]
    } else {
        let o = owners.last();
        roster_entries(owners.drop_last(), me) + if o.actor && me != Some(o.client) {
            seq![(o.client, owned_name(o))]
        } else {
            seq![]
        }
    }
}

pub open spec fn entry_views(v: Seq<(u32, String)>) -> Seq<(u32, Seq<char>)> {
    v.map_values(|e: (u32, String)| (e.0, e.1@))
}

proof fn lemma_entry_views_insert(s: Seq<(u32, String)>, p: int, m: (u32, String))
    requires
        0 <= p <= s.len(),
    ensures
        entry_views(s.insert(p, m)) == entry_views(s).insert(p, (m.0, m.1@)),
        entry_views(s.insert(p, m)).to_multiset() == entry_views(s).to_multiset().insert((m.0, m.1@)),
{
    broadcast use vstd::seq_lib::group_to_multiset_ensures;

    let e = (m.0, m.1@);
    let t = entry_views(s).insert(p, e);
    assert(entry_views(s.insert(p, m)) =~= t);
    assert(t.remove(p) =~= entry_views(s));
    assert(t[p] == e);
    assert(entry_views(s).to_multiset() =~= t.to_multiset().remove(e));
    assert(t.to_multiset().count(e) > 0);
    assert(t.to_multiset() =~= entry_views(s).to_multiset().insert(e));
}

/// The other players a client sees, by client id: the roster its spectator UI cycles through.
pub fn roster(owners: &Vec<Owned>, me: Option<u32>) -> (r: Vec<(u32, String)>)
    ensures
        entry_views(r@).to_multiset() == roster_entries(owners@, me).to_multiset(),
        forall|i: int, j: int| 0 <= i < j < r@.len() ==> (#[trigger] r@[i]).0 <= (#[trigger] r@[j]).0,
{
    let mut out: Vec<(u32, String)> = Vec::new();
    let mut k: usize = 0;
    proof {
        broadcast use vstd::seq_lib::group_to_multiset_ensures;
        assert(entry_views(out@) =~= Seq::<(u32, Seq<char>)>::empty());
        assert(roster_entries(owners@.take(0), me) =~= Seq::<(u32, Seq<char>)>::empty());
    }
    while k < owners.len()
        invariant
            k <= owners@.len(),
            entry_views(out@).to_multiset() == roster_entries(owners@.take(k as int), me).to_multiset(),
            forall|i: int, j: int| 0 <= i < j < out@.len() ==> (#[trigger] out@[i]).0 <= (#[trigger] out@[j]).0,
        decreases owners@.len() - k,
    {
        let o = &owners[k];
        let ghost prev = roster_entries(owners@.take(k as int), me);
        proof {
            broadcast use vstd::seq_lib::group_to_multiset_ensures;
            assert(owners@.take(k + 1).drop_last() =~= owners@.take(k as int));
            assert(owners@.take(k + 1).last() == owners@[k as int]);
        }
        let shown = match me {
            Some(m) => m != o.client,
            None => true,
        };
        if o.actor && shown {
            let name = match &o.name {
                Some(n) => owned(n.as_str()),
                None => String::new(),
            };
            let entry = (o.client, name);
            let ghost e = (entry.0, entry.1@);
            assert(e == (o.client, owned_name(*o)));
            let mut p: usize = out.len();
            while p > 0 && out[p - 1].0 > entry.0
                invariant
                    p <= out@.len(),
                    forall|q: int| p <= q < out@.len() ==> (#[trigger] out@[q]).0 > entry.0,
                decreases p,
            {
                p = p - 1;
            }
            let ghost before = out@;
            proof {
                lemma_entry_views_insert(before, p as int, entry);
            }
            out.insert(p, entry);
            proof {
                broadcast use vstd::seq_lib::group_to_multiset_ensures;
                assert(roster_entries(owners@.take(k + 1), me) =~= prev.push(e));
                assert(prev.push(e).to_multiset() =~= prev.to_multiset().insert(e));
                assert forall|i: int, j: int| 0 <= i < j < out@.len() implies (#[trigger] out@[i]).0 <= (
                #[trigger] out@[j]).0 by {
                    let t = before.insert(p as int, entry);
                    assert(out@ == t);
                    if i < p && j < p {
                        assert(t[i] == before[i] && t[j] == before[j]);
                    } else if i < p && j == p {
                        assert(t[i] == before[i]);
                        assert(before[i].0 <= before[p - 1].0 || i == p - 1);
                    } else if i < p && j > p {
                        assert(t[i] == before[i] && t[j] == before[j - 1]);
                    } else if i == p {
                        assert(t[j] == before[j - 1]);
                    } else {
                        assert(t[i] == before[i - 1] && t[j] == before[j - 1]);
                    }
                }
            }
        } else {
            proof {
                assert(roster_entries(owners@.take(k + 1), me) =~= prev);
            }
        }
        k = k + 1;
    }
    assert(owners@.take(owners@.len() as int) =~= owners@);
    out
}

/// How far the inventory grid, `cols` slots wide and `visible` rows tall, can scroll over
/// `count` items: the rows they fill beyond the visible ones.
pub open spec fn scroll_limit_of(count: int, cols: int, visible: int) -> int {
    let rows = (count + cols - 1) / cols;
    if rows > visible {
        rows - visible
    } else {
        0
    }
}

/// The scroll position of the inventory grid this frame: the last one kept within the limit,
/// then moved a row up (`wheel > 0`) or down (`wheel < 0`) within it.
pub open spec fn scroll_of(scroll: int, limit: int, wheel: int) -> int {
    let kept = if scroll < limit { scroll } else { limit };
    if wheel > 0 {
        if kept > 0 { kept - 1 } else { 0 }
    } else if wheel < 0 {
        if kept + 1 < limit { kept + 1 } else { limit }
    } else {
        kept
    }
}

/// The wheel moves the inventory grid by one row at most and never past its ends: the position
/// kept from last frame is clamped to the limit, a notch down moves one row further unless the
/// limit is reached, a notch up one row back unless at the top, and no notch leaves it.
pub proof fn lemma_scroll_one_row(scroll: int, limit: int, wheel: int)
    requires
        scroll >= 0,
        limit >= 0,
    ensures
        0 <= scroll_of(scroll, limit, wheel) <= limit,
        wheel < 0 && scroll < limit ==> scroll_of(scroll, limit, wheel) == scroll + 1,
        wheel < 0 && scroll >= limit ==> scroll_of(scroll, limit, wheel) == limit,
        wheel > 0 && 0 < scroll <= limit ==> scroll_of(scroll, limit, wheel) == scroll - 1,
        wheel > 0 && scroll > limit ==> scroll_of(scroll, limit, wheel) == if limit > 0 { limit - 1 } else { 0 },
        wheel > 0 && scroll == 0 ==> scroll_of(scroll, limit, wheel) == 0,
        wheel == 0 ==> scroll_of(scroll, limit, wheel) == if scroll < limit { scroll } else { limit },
{
}

/// The scroll limit of the inventory grid.
pub fn scroll_limit(count: u32, cols: u32, visible: u32) -> (r: u32)
    requires
        cols > 0,
    ensures
        r == scroll_limit_of(count as int, cols as int, visible as int),
{
    proof {
        assert(count % cols != 0 ==> count / cols < 0xffff_ffff) by (nonlinear_arith)
            requires
                cols > 0,
        ;
    }
    let rows: u32 = count / cols + if count % cols != 0 { 1 } else { 0 };
    proof {
        let c = count as int;
        let w = cols as int;
        assert((c + w - 1) / w == c / w + if c % w != 0 { 1int } else { 0int }) by (nonlinear_arith)
            requires
                w > 0,
                c >= 0,
        ;
    }
    if rows > visible {
        rows - visible
    } else {
        0
    }
}

/// The inventory grid's scroll position after this frame's wheel input.
pub fn inventory_scroll(scroll: u32, limit: u32, wheel: i32) -> (r: u32)
    ensures
        r == scroll_of(scroll as int, limit as int, wheel as int),
{
    let kept = if scroll < limit { scroll } else { limit };
    if wheel > 0 {
        if kept > 0 { kept - 1 } else { 0 }
    } else if wheel < 0 {
        if kept < limit { kept + 1 } else { limit }
    } else {
        kept
    }
}

/// The inventory slot shown at (`row`, `col`) of a grid `cols` wide scrolled down `scroll` rows,
/// if an item fills it.
pub fn inventory_slot(scroll: u32, row: u32, col: u32, cols: u32, count: u32) -> (r: Option<u32>)
    requires
        cols > 0,
        (scroll + row) * cols + col <= u32::MAX,
    ensures
        ((scroll + row) * cols + col < count) ==> r == Some(((scroll + row) * cols + col) as u32),
        ((scroll + row) * cols + col >= count) ==> r is None,
{
    proof {
        assert(scroll + row <= (scroll + row) * cols) by (nonlinear_arith)
            requires
                cols > 0,
        ;
    }
    let slot: u32 = (scroll + row) * cols + col;
    if slot < count {
        Some(slot)
    } else {
        None
    }
}

} // verus!
