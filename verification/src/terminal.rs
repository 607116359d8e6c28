//! The in-game terminal's command line: how a message names a command, how its comma-separated
//! arguments split, what a missing argument answers, and how a command's usage reads.

use vstd::prelude::*;

use crate::actors::{
    lemma_char_code_injective, lemma_name_before_asym, lemma_name_before_trans_neg, name_before, name_lt,
};
use crate::content::{trim_range, trimmed, white};
use crate::client::{first_line, lemma_line_end_bounds, lines_of, split_line};
use crate::properties::{number_within, read_digits};
use crate::text::{append, chars_of, push_char, slice_chars, string_of};

verus! {

/// One positional argument of a command: its name, and whether it must be given.
pub struct ArgSpec {
    pub name: String,
    pub required: bool,
}

/// How argument `index` named `name` reads in a usage line: a required one after a space (the
/// first) or a comma; an optional one in brackets.
pub open spec fn arg_usage(index: int, name: Seq<char>, required: bool) -> Seq<char> {
    let lead = if index == 0 { seq![' '] } else { seq![','] };
    if required {
        lead + name
    } else if index == 0 {
        seq![' ', '['] + name + seq![']']
    } else {
        seq!['['] + lead + name + seq![']']
    }
}

/// The usage of the first `n` arguments.
pub open spec fn args_usage(args: Seq<ArgSpec>, n: int) -> Seq<char>
    decreases n,
{
    if n <= 0 {
        seq![]
    } else {
        args_usage(args, n - 1) + arg_usage(n - 1, args[n - 1].name@, args[n - 1].required)
    }
}

/// A command's usage line: `/`, its name, and its arguments.
pub open spec fn usage_of(name: Seq<char>, args: Seq<ArgSpec>) -> Seq<char> {
    seq!['/'] + name + args_usage(args, args.len() as int)
}

/// The usage line of command `name` with arguments `args`, e.g. `/tp x,y[,who]`.
pub fn usage(name: &str, args: &Vec<ArgSpec>) -> (r: String)
    ensures
        r@ == usage_of(name@, args@),
{
    let mut out = String::new();
    push_char(&mut out, '/');
    append(&mut out, name);
    assert(out@ =~= seq!['/'] + name@ + args_usage(args@, 0));
    let mut i: usize = 0;
    while i < args.len()
        invariant
            i <= args@.len(),
            out@ == seq!['/'] + name@ + args_usage(args@, i as int),
        decreases args@.len() - i,
    {
        let arg = &args[i];
        let ghost before = out@;
        if arg.required {
            push_char(&mut out, if i == 0 { ' ' } else { ',' });
            append(&mut out, arg.name.as_str());
        } else if i == 0 {
            push_char(&mut out, ' ');
            push_char(&mut out, '[');
            append(&mut out, arg.name.as_str());
            push_char(&mut out, ']');
        } else {
            push_char(&mut out, '[');
            push_char(&mut out, ',');
            append(&mut out, arg.name.as_str());
            push_char(&mut out, ']');
        }
        assert(out@ =~= before + arg_usage(i as int, args@[i as int].name@, args@[i as int].required));
        i = i + 1;
    }
    out
}

/// The pieces of `s` between the separators `sep`, empty ones included.
pub open spec fn split_on(s: Seq<char>, sep: char) -> Seq<Seq<char>>
    decreases s.len(),
{
    if s.len() == 0 {
        seq![seq![]]
    } else if s.last() == sep {
        split_on(s.drop_last(), sep).push(seq![])
    } else {
        let p = split_on(s.drop_last(), sep);
        p.update(p.len() - 1, p.last().push(s.last()))
    }
}

proof fn lemma_split_nonempty(s: Seq<char>, sep: char)
    ensures
        split_on(s, sep).len() >= 1,
    decreases s.len(),
{
    if s.len() > 0 {
        lemma_split_nonempty(s.drop_last(), sep);
    }
}

pub open spec fn trimmed_all(parts: Seq<Seq<char>>) -> Seq<Seq<char>> {
    parts.map_values(|p: Seq<char>| trimmed(p))
}

pub open spec fn string_views(v: Seq<String>) -> Seq<Seq<char>> {
    v.map_values(|s: String| s@)
}

/// A command's positional arguments: the comma-separated pieces, each trimmed; an empty piece
/// (`3,4,,bob`) leaves an optional argument out.
pub fn split_args(args: &str) -> (r: Vec<String>)
    ensures
        string_views(r@) == trimmed_all(split_on(args@, ',')),
{
    let v = chars_of(args);
    let n = v.len();
    let mut out: Vec<String> = Vec::new();
    let mut start: usize = 0;
    let mut i: usize = 0;
    proof {
        assert(v@.take(0) =~= seq![]);
    }
    while i < n
        invariant
            n == v@.len(),
            v@ == args@,
            start <= i <= n,
            split_on(v@.take(i as int), ',').len() >= 1,
            split_on(v@.take(i as int), ',').last() == v@.subrange(start as int, i as int),
            string_views(out@) == trimmed_all(split_on(v@.take(i as int), ',').drop_last()),
        decreases n - i,
    {
        let ghost p = split_on(v@.take(i as int), ',');
        assert(v@.take(i + 1).drop_last() =~= v@.take(i as int));
        assert(v@.take(i + 1).last() == v@[i as int]);
        if v[i] == ',' {
            let piece = trim_range(&v, start, i);
            let ghost before = out@;
            out.push(piece);
            proof {
                let q = split_on(v@.take(i + 1), ',');
                assert(q == p.push(seq![]));
                assert(q.drop_last() =~= p);
                assert(p =~= p.drop_last().push(p.last()));
                assert(string_views(out@) =~= string_views(before).push(piece@));
                assert(trimmed_all(p) =~= trimmed_all(p.drop_last()).push(trimmed(p.last())));
                assert(q.last() =~= v@.subrange(i + 1, i + 1));
            }
            start = i + 1;
        } else {
            proof {
                let q = split_on(v@.take(i + 1), ',');
                assert(q.drop_last() =~= p.drop_last());
                assert(q.last() =~= v@.subrange(start as int, i + 1));
            }
        }
        i = i + 1;
    }
    assert(v@.take(n as int) =~= v@);
    let ghost p = split_on(v@, ',');
    let piece = trim_range(&v, start, n);
    let ghost before = out@;
    out.push(piece);
    proof {
        assert(p =~= p.drop_last().push(p.last()));
        assert(string_views(out@) =~= string_views(before).push(piece@));
        assert(trimmed_all(p) =~= trimmed_all(p.drop_last()).push(trimmed(p.last())));
    }
    out
}

/// What a missing required argument answers.
pub open spec fn missing_message(name: Seq<char>) -> Seq<char> {
    "missing argument `"@ + name + "`"@
}

/// A required argument's text: the raw piece trimmed, or the missing-argument answer when it is
/// absent or blank.
pub fn require_arg(name: &str, raw: Option<&str>) -> (r: Result<String, String>)
    ensures
        match raw {
            Some(t) if trimmed(t@).len() > 0 => r is Ok && r->Ok_0@ == trimmed(t@),
            _ => r is Err && r->Err_0@ == missing_message(name@),
        },
{
    if let Some(t) = raw {
        let v = chars_of(t);
        let piece = trim_range(&v, 0, v.len());
        assert(v@.subrange(0, v@.len() as int) =~= t@);
        if piece.as_str().unicode_len() > 0 {
            return Ok(piece);
        }
    }
    let mut out = String::new();
    append(&mut out, "missing argument `");
    append(&mut out, name);
    append(&mut out, "`");
    assert(out@ =~= missing_message(name@));
    Err(out)
}

/// The first position at or after `from` holding white space, or the length.
pub open spec fn white_from(s: Seq<char>, from: int) -> int
    decreases s.len() - from,
{
    if from < 0 || from >= s.len() {
        s.len() as int
    } else if white(s[from]) {
        from
    } else {
        white_from(s, from + 1)
    }
}

/// A terminal line that is a command: its name (up to the first white space after the `/`) and
/// the rest after that space; lines not starting with `/` are chat.
pub open spec fn command_of(line: Seq<char>) -> Option<(Seq<char>, Seq<char>)> {
    if line.len() == 0 || line[0] != '/' {
        None
    } else {
        let rest = line.subrange(1, line.len() as int);
        let k = white_from(rest, 0);
        if k < rest.len() {
            Some((rest.subrange(0, k), rest.subrange(k + 1, rest.len() as int)))
        } else {
            Some((rest, seq![]))
        }
    }
}

proof fn lemma_white_from(s: Seq<char>, from: int)
    requires
        0 <= from <= s.len(),
    ensures
        from <= white_from(s, from) <= s.len(),
        white_from(s, from) < s.len() ==> white(s[white_from(s, from)]),
    decreases s.len() - from,
{
    if from < s.len() && !white(s[from]) {
        lemma_white_from(s, from + 1);
    }
}

/// Reads a terminal line as a command name and its argument text.
pub fn parse_command(line: &str) -> (r: Option<(String, String)>)
    ensures
        match command_of(line@) {
            Some((name, args)) => r is Some && (r->0).0@ == name && (r->0).1@ == args,
            None => r is None,
        },
{
    let v = chars_of(line);
    let n = v.len();
    if n == 0 || v[0] != '/' {
        return None;
    }
    let ghost rest = v@.subrange(1, n as int);
    let mut k: usize = 1;
    while k < n && !crate::content::is_white(v[k])
        invariant
            n == v@.len(),
            1 <= k <= n,
            rest == v@.subrange(1, n as int),
            white_from(rest, 0) == white_from(rest, k - 1),
        decreases n - k,
    {
        k = k + 1;
    }
    proof {
        lemma_white_from(rest, 0);
        if k < n {
            assert(rest[k - 1] == v@[k as int]);
            assert(white_from(rest, k - 1) == k - 1);
        } else {
            assert(white_from(rest, k - 1) == rest.len());
        }
    }
    let name = slice_chars(&v, 1, k);
    assert(name@ =~= rest.subrange(0, k - 1));
    if k < n {
        let args = slice_chars(&v, k + 1, n);
        assert(args@ =~= rest.subrange(k as int, rest.len() as int));
        Some((string_of(&name), string_of(&args)))
    } else {
        assert(name@ =~= rest);
        Some((string_of(&name), String::new()))
    }
}

/// What an unknown command, or one the sender may not use, answers: the same either way, so
/// the reply does not tell which commands exist.
pub open spec fn unknown_message(name: Seq<char>) -> Seq<char> {
    "Unknown command /"@ + name + " — try /commands"@
}

/// The reply to command `name` that is not known or not allowed for the sender.
pub fn unknown_command(name: &str) -> (r: String)
    ensures
        r@ == unknown_message(name@),
{
    let mut out = String::new();
    append(&mut out, "Unknown command /");
    append(&mut out, name);
    append(&mut out, " — try /commands");
    out
}

/// The longest input line a terminal takes, in characters.
pub const MAX_INPUT_LEN: usize = 256;

/// What a terminal keeps of a typed line: the line trimmed, cut to its first
/// [`MAX_INPUT_LEN`] characters.
pub open spec fn input_of(raw: Seq<char>) -> Seq<char> {
    let t = trimmed(raw);
    if t.len() > MAX_INPUT_LEN {
        t.take(MAX_INPUT_LEN as int)
    } else {
        t
    }
}

/// The text a terminal takes from a typed line, or `None` when nothing is left of it.
pub fn input_text(raw: &str) -> (r: Option<String>)
    ensures
        match r {
            Some(s) => s@ == input_of(raw@) && s@.len() > 0,
            None => input_of(raw@).len() == 0,
        },
{
    let v = chars_of(raw);
    assert(v@.subrange(0, v@.len() as int) =~= v@);
    let t = trim_range(&v, 0, v.len());
    let w = chars_of(t.as_str());
    if w.len() == 0 {
        return None;
    }
    if w.len() > MAX_INPUT_LEN {
        let cut = slice_chars(&w, 0, MAX_INPUT_LEN);
        assert(cut@ =~= w@.take(MAX_INPUT_LEN as int));
        Some(string_of(&cut))
    } else {
        Some(t)
    }
}

/// The lines a terminal message goes out as, one message per line.
pub fn reply_lines(text: &str) -> (r: Vec<String>)
    ensures
        r@.map_values(|l: String| l@) == lines_of(text@),
{
    let v = chars_of(text);
    let mut out: Vec<String> = Vec::new();
    let mut from: usize = 0;
    assert(v@.subrange(0, v@.len() as int) =~= v@);
    while from < v.len()
        invariant
            from <= v@.len(),
            v@ == text@,
            out@.map_values(|l: String| l@) + lines_of(v@.subrange(from as int, v@.len() as int)) == lines_of(text@),
        decreases v@.len() - from,
    {
        let ghost s = v@.subrange(from as int, v@.len() as int);
        let ghost before = out@.map_values(|l: String| l@);
        let (line, rest) = first_line(&v, from);
        let ghost cut = crate::client::line_end(s, 0);
        proof {
            lemma_line_end_bounds(s, 0);
        }
        out.push(string_of(&line));
        assert(out@.map_values(|l: String| l@) =~= before.push(line@));
        match rest {
            Some(k) => {
                proof {
                    assert(s.subrange(cut + 1, s.len() as int) =~= v@.subrange(k as int, v@.len() as int));
                    assert(lines_of(s) == seq![line@] + lines_of(v@.subrange(k as int, v@.len() as int)));
                    assert(before.push(line@) + lines_of(v@.subrange(k as int, v@.len() as int)) =~= before + lines_of(s));
                }
                from = k;
            },
            None => {
                proof {
                    assert(lines_of(s) == seq![line@]);
                    assert(lines_of(v@.subrange(v@.len() as int, v@.len() as int)) == Seq::<Seq<char>>::empty());
                    assert(before.push(line@) + Seq::<Seq<char>>::empty() =~= before + lines_of(s));
                }
                from = v.len();
            },
        }
    }
    assert(lines_of(v@.subrange(from as int, v@.len() as int)) == Seq::<Seq<char>>::empty());
    assert(out@.map_values(|l: String| l@) =~= out@.map_values(|l: String| l@) + Seq::<Seq<char>>::empty());
    out
}


/// What reading `s` as a 32-bit unsigned integer gives: an optional `+`, then decimal digits
/// only, within range; nothing otherwise.
pub open spec fn parsed_u32(s: Seq<char>) -> Option<int> {
    let d = if s.len() > 0 && s[0] == '+' {
        s.skip(1)
    } else {
        s
    };
    if number_within(d, 0xffff_ffff) {
        Some(crate::properties::digits_value(d))
    } else {
        None
    }
}

/// Reads `text` as a 32-bit unsigned integer (`str::parse::<u32>`).
fn parse_u32(text: &str) -> (r: Option<u32>)
    ensures
        match parsed_u32(text@) {
            Some(n) => r == Some(n as u32),
            None => r is None,
        },
{
    let v = chars_of(text);
    let from: usize = if v.len() > 0 && v[0] == '+' {
        1
    } else {
        0
    };
    assert(v@.skip(0) =~= v@);
    match read_digits(&v, from, 0xffff_ffff) {
        Some(n) => Some(n as u32),
        None => None,
    }
}

/// What an argument that does not read as a `kind` answers.
pub open spec fn invalid_message(raw: Seq<char>, kind: Seq<char>, name: Seq<char>) -> Seq<char> {
    "`"@ + raw + "` is not a valid "@ + kind + " for `"@ + name + "`"@
}

/// A required whole-number argument: its trimmed text read as an integer; the missing-argument
/// answer when it is absent or blank, the invalid-argument answer when it does not read.
pub fn integer_arg(name: &str, raw: Option<&str>) -> (r: Result<u32, String>)
    ensures
        match raw {
            Some(t) if trimmed(t@).len() > 0 => match parsed_u32(trimmed(t@)) {
                Some(n) => r == Ok::<u32, String>(n as u32),
                None => r is Err && r->Err_0@ == invalid_message(trimmed(t@), "integer"@, name@),
            },
            _ => r is Err && r->Err_0@ == missing_message(name@),
        },
{
    let text = match require_arg(name, raw) {
        Ok(t) => t,
        Err(e) => return Err(e),
    };
    match parse_u32(text.as_str()) {
        Some(n) => Ok(n),
        None => {
            let mut out = String::new();
            append(&mut out, "`");
            append(&mut out, text.as_str());
            append(&mut out, "` is not a valid ");
            append(&mut out, "integer");
            append(&mut out, " for `");
            append(&mut out, name);
            append(&mut out, "`");
            assert(out@ =~= invalid_message(text@, "integer"@, name@));
            Err(out)
        },
    }
}

/// An optional whole-number argument: nothing when it is absent or blank, else read as
/// [`integer_arg`] reads it.
pub fn optional_integer_arg(name: &str, raw: Option<&str>) -> (r: Result<Option<u32>, String>)
    ensures
        match raw {
            Some(t) if trimmed(t@).len() > 0 => match parsed_u32(trimmed(t@)) {
                Some(n) => r == Ok::<Option<u32>, String>(Some(n as u32)),
                None => r is Err && r->Err_0@ == invalid_message(trimmed(t@), "integer"@, name@),
            },
            _ => r == Ok::<Option<u32>, String>(None),
        },
{
    if let Some(t) = raw {
        let v = chars_of(t);
        assert(v@.subrange(0, v@.len() as int) =~= t@);
        let piece = trim_range(&v, 0, v.len());
        if piece.as_str().unicode_len() > 0 {
            proof {
                lemma_trimmed_twice(t@);
            }
            return match integer_arg(name, Some(piece.as_str())) {
                Ok(n) => Ok(Some(n)),
                Err(e) => Err(e),
            };
        }
    }
    Ok(None)
}

/// Trimming is idempotent.
proof fn lemma_trimmed_twice(s: Seq<char>)
    ensures
        trimmed(trimmed(s)) == trimmed(s),
    decreases s.len(),
{
    if s.len() > 0 && white(s[0]) {
        lemma_trimmed_twice(s.skip(1));
    } else if s.len() > 0 && white(s.last()) {
        lemma_trimmed_twice(s.drop_last());
    }
}

/// What a command that fails answers: its error, then its usage line.
pub open spec fn failure_message(error: Seq<char>, usage: Seq<char>) -> Seq<char> {
    error + "\nusage: "@ + usage
}

/// The reply to a command that failed with `error`.
pub fn command_error(error: &str, usage: &str) -> (r: String)
    ensures
        r@ == failure_message(error@, usage@),
{
    let mut out = String::new();
    append(&mut out, error);
    append(&mut out, "\nusage: ");
    append(&mut out, usage);
    out
}

/// Doc lines joined into a description: each trimmed, separated by single spaces.
pub open spec fn description_of(docs: Seq<Seq<char>>) -> Seq<char>
    decreases docs.len(),
{
    if docs.len() == 0 {
        seq![]
    } else if docs.len() == 1 {
        trimmed(docs[0])
    } else {
        description_of(docs.drop_last()) + seq![' '] + trimmed(docs.last())
    }
}

/// A command's description, from the lines of its doc comment.
pub fn describe(docs: &Vec<String>) -> (r: String)
    ensures
        r@ == description_of(docs@.map_values(|d: String| d@)),
{
    let ghost all = docs@.map_values(|d: String| d@);
    let mut out = String::new();
    let mut i: usize = 0;
    while i < docs.len()
        invariant
            i <= docs@.len(),
            all == docs@.map_values(|d: String| d@),
            out@ == description_of(all.take(i as int)),
        decreases docs@.len() - i,
    {
        let v = chars_of(docs[i].as_str());
        assert(v@.subrange(0, v@.len() as int) =~= v@);
        let piece = trim_range(&v, 0, v.len());
        assert(all.take(i + 1).drop_last() =~= all.take(i as int));
        assert(all.take(i + 1).last() == docs@[i as int]@);
        if i > 0 {
            push_char(&mut out, ' ');
        } else {
            assert(all.take(1).len() == 1);
            assert(out@ == Seq::<char>::empty());
        }
        append(&mut out, piece.as_str());
        proof {
            if i == 0 {
                assert(out@ =~= trimmed(all.take(1)[0]));
            }
        }
        i = i + 1;
    }
    assert(all.take(docs@.len() as int) =~= all);
    out
}

/// One line of the command list: a command's usage, a dash, and its description.
pub open spec fn listing_line(usage: Seq<char>, description: Seq<char>) -> Seq<char> {
    usage + " — "@ + description
}

/// `lines` joined by line feeds.
pub open spec fn joined(lines: Seq<Seq<char>>) -> Seq<char>
    decreases lines.len(),
{
    if lines.len() == 0 {
        seq![]
    } else if lines.len() == 1 {
        lines[0]
    } else {
        joined(lines.drop_last()) + seq!['\n'] + lines.last()
    }
}

/// No line of `lines` sorts before an earlier one.
pub open spec fn in_order(lines: Seq<Seq<char>>) -> bool {
    forall|i: int, j: int| 0 <= i < j < lines.len() ==> !name_before(#[trigger] lines[j], #[trigger] lines[i])
}

pub open spec fn views(v: Seq<String>) -> Seq<Seq<char>> {
    v.map_values(|l: String| l@)
}

proof fn lemma_views_insert(s: Seq<String>, p: int, m: String)
    requires
        0 <= p <= s.len(),
    ensures
        views(s.insert(p, m)) == views(s).insert(p, m@),
        views(s.insert(p, m)).to_multiset() == views(s).to_multiset().insert(m@),
{
    broadcast use vstd::seq_lib::group_to_multiset_ensures;

    let t = views(s).insert(p, m@);
    assert(views(s.insert(p, m)) =~= t);
    assert(t.remove(p) =~= views(s));
    assert(t[p] == m@);
    assert(views(s).to_multiset() =~= t.to_multiset().remove(m@));
    assert(t.to_multiset().count(m@) > 0);
    assert(t.to_multiset() =~= views(s).to_multiset().insert(m@));
}

proof fn lemma_line_order(s: Seq<Seq<char>>, p: int, m: Seq<char>, i: int, j: int)
    requires
        0 <= p <= s.len(),
        in_order(s),
        p > 0 ==> !name_before(m, s[p - 1]),
        forall|k: int| p <= k < s.len() ==> name_before(m, #[trigger] s[k]),
        0 <= i < j < s.len() + 1,
    ensures
        !name_before(s.insert(p, m)[j], s.insert(p, m)[i]),
{
    let t = s.insert(p, m);
    if i < p && j < p {
        assert(t[i] == s[i] && t[j] == s[j]);
    } else if i < p && j == p {
        assert(t[i] == s[i]);
        if i < p - 1 {
            assert(!name_before(s[p - 1], s[i]));
            lemma_name_before_trans_neg(s[i], s[p - 1], m);
        }
    } else if i < p && j > p {
        assert(t[i] == s[i] && t[j] == s[j - 1]);
    } else if i == p {
        assert(t[j] == s[j - 1]);
        lemma_name_before_asym(m, s[j - 1]);
    } else {
        assert(t[i] == s[i - 1] && t[j] == s[j - 1]);
    }
}

/// `lines` sorted, as a sort of strings orders them.
fn sort_lines(lines: Vec<String>) -> (r: Vec<String>)
    ensures
        views(r@).to_multiset() == views(lines@).to_multiset(),
        in_order(views(r@)),
{
    let mut rest = lines;
    let mut out: Vec<String> = Vec::new();
    let ghost given = views(rest@);
    proof {
        broadcast use vstd::seq_lib::group_to_multiset_ensures;
        assert(views(out@) =~= Seq::<Seq<char>>::empty());
        assert(views(out@).to_multiset() =~= vstd::multiset::Multiset::empty());
        assert(views(out@).to_multiset().add(views(rest@).to_multiset()) =~= given.to_multiset());
    }
    while rest.len() > 0
        invariant
            views(out@).to_multiset().add(views(rest@).to_multiset()) == given.to_multiset(),
            in_order(views(out@)),
        decreases rest@.len(),
    {
        let ghost before_rest = rest@;
        let ghost before_out = out@;
        let m = rest.remove(0);
        proof {
            broadcast use vstd::seq_lib::group_to_multiset_ensures;
            assert(views(rest@) =~= views(before_rest).remove(0));
            assert(views(before_rest)[0] == m@);
            assert(views(rest@).to_multiset() =~= views(before_rest).to_multiset().remove(m@));
            assert(views(before_rest).to_multiset().count(m@) > 0);
        }
        let mut p: usize = out.len();
        while p > 0 && name_lt(m.as_str(), out[p - 1].as_str())
            invariant
                p <= out@.len(),
                out@ == before_out,
                forall|k: int| p <= k < out@.len() ==> name_before(m@, #[trigger] views(out@)[k]),
            decreases p,
        {
            assert(views(out@)[p - 1] == out@[p - 1]@);
            p = p - 1;
        }
        proof {
            if p > 0 {
                assert(views(out@)[p - 1] == out@[p - 1]@);
            }
            lemma_views_insert(before_out, p as int, m);
        }
        out.insert(p, m);
        proof {
            broadcast use vstd::seq_lib::group_to_multiset_ensures;
            assert(views(out@).to_multiset().add(views(rest@).to_multiset()) =~= given.to_multiset());
            assert forall|i: int, j: int| 0 <= i < j < views(out@).len() implies !name_before(
                #[trigger] views(out@)[j],
                #[trigger] views(out@)[i],
            ) by {
                lemma_line_order(views(before_out), p as int, m@, i, j);
            }
        }
    }
    proof {
        broadcast use vstd::seq_lib::group_to_multiset_ensures;
        assert(views(rest@).to_multiset() =~= vstd::multiset::Multiset::empty());
        assert(views(out@).to_multiset() =~= given.to_multiset());
    }
    out
}

/// The lines of the command list for commands given as (usage, description).
pub open spec fn listing_lines(entries: Seq<(String, String)>) -> Seq<Seq<char>> {
    entries.map_values(|e: (String, String)| listing_line(e.0@, e.1@))
}

/// What `/commands` answers: one line per available command, `usage — description`, sorted,
/// one per line.
pub fn command_list(entries: &Vec<(String, String)>) -> (r: String)
    ensures
        exists|s: Seq<Seq<char>>|
            s.to_multiset() == listing_lines(entries@).to_multiset() && in_order(s) && r@ == joined(s),
{
    let mut lines: Vec<String> = Vec::new();
    let mut i: usize = 0;
    while i < entries.len()
        invariant
            i <= entries@.len(),
            views(lines@) == listing_lines(entries@.take(i as int)),
        decreases entries@.len() - i,
    {
        let mut line = String::new();
        append(&mut line, entries[i].0.as_str());
        append(&mut line, " — ");
        append(&mut line, entries[i].1.as_str());
        let ghost before = lines@;
        lines.push(line);
        assert(views(lines@) =~= views(before).push(listing_line(entries@[i as int].0@, entries@[i as int].1@)));
        i = i + 1;
        assert(listing_lines(entries@.take(i as int)) =~= listing_lines(entries@.take(i - 1)).push(
            listing_line(entries@[i - 1].0@, entries@[i - 1].1@),
        ));
    }
    assert(entries@.take(entries@.len() as int) =~= entries@);
    let sorted = sort_lines(lines);
    let mut out = String::new();
    let mut k: usize = 0;
    while k < sorted.len()
        invariant
            k <= sorted@.len(),
            out@ == joined(views(sorted@).take(k as int)),
        decreases sorted@.len() - k,
    {
        assert(views(sorted@).take(k + 1).drop_last() =~= views(sorted@).take(k as int));
        assert(views(sorted@).take(k + 1).last() == sorted@[k as int]@);
        if k > 0 {
            push_char(&mut out, '\n');
        }
        append(&mut out, sorted[k].as_str());
        proof {
            if k == 0 {
                assert(out@ =~= views(sorted@).take(1)[0]);
            }
        }
        k = k + 1;
    }
    assert(views(sorted@).take(sorted@.len() as int) =~= views(sorted@));
    out
}

/// Of two different strings, one sorts before the other.
proof fn lemma_name_before_total(a: Seq<char>, b: Seq<char>)
    requires
        a != b,
    ensures
        name_before(a, b) || name_before(b, a),
    decreases a.len(),
{
    if a.len() == 0 {
        if b.len() == 0 {
            assert(a =~= b);
        }
    } else if b.len() == 0 {
    } else if a[0] != b[0] {
        if (a[0] as u32) == (b[0] as u32) {
            lemma_char_code_injective(a[0], b[0]);
        }
    } else {
        if a.drop_first() == b.drop_first() {
            assert(a =~= seq![a[0]] + a.drop_first());
            assert(b =~= seq![b[0]] + b.drop_first());
        }
        lemma_name_before_total(a.drop_first(), b.drop_first());
    }
}

/// Sorting lines is deterministic: two sorted arrangements of the same lines are the same.
pub proof fn lemma_sorted_unique(a: Seq<Seq<char>>, b: Seq<Seq<char>>)
    requires
        a.to_multiset() == b.to_multiset(),
        in_order(a),
        in_order(b),
    ensures
        a == b,
    decreases a.len(),
{
    broadcast use vstd::seq_lib::group_to_multiset_ensures;

    if a.len() == 0 {
        assert(b.len() == 0) by {
            if b.len() > 0 {
                assert(b.to_multiset().count(b[0]) > 0);
            }
        }
        assert(a =~= b);
    } else {
        assert(a.to_multiset().count(a[0]) > 0);
        assert(b.len() > 0);
        assert(b.to_multiset().count(b[0]) > 0);
        assert(b.contains(a[0]));
        assert(a.contains(b[0]));
        let ka = choose|k: int| 0 <= k < b.len() && b[k] == a[0];
        let kb = choose|k: int| 0 <= k < a.len() && a[k] == b[0];
        if a[0] != b[0] {
            if kb > 0 {
                assert(!name_before(a[kb], a[0]));
            }
            if ka > 0 {
                assert(!name_before(b[ka], b[0]));
            }
            lemma_name_before_total(a[0], b[0]);
            assert(false);
        }
        let ra = a.drop_first();
        let rb = b.drop_first();
        assert(a =~= seq![a[0]] + ra);
        assert(b =~= seq![b[0]] + rb);
        assert(ra.to_multiset() =~= a.to_multiset().remove(a[0])) by {
            assert(a.remove(0) =~= ra);
        }
        assert(rb.to_multiset() =~= b.to_multiset().remove(b[0])) by {
            assert(b.remove(0) =~= rb);
        }
        assert forall|i: int, j: int| 0 <= i < j < ra.len() implies !name_before(#[trigger] ra[j], #[trigger] ra[i]) by {
            assert(ra[i] == a[i + 1] && ra[j] == a[j + 1]);
        }
        assert forall|i: int, j: int| 0 <= i < j < rb.len() implies !name_before(#[trigger] rb[j], #[trigger] rb[i]) by {
            assert(rb[i] == b[i + 1] && rb[j] == b[j + 1]);
        }
        lemma_sorted_unique(ra, rb);
    }
}

} // verus!
