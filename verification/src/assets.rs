//! The embedded asset table: every file under the assets directory, keyed by its path relative
//! to it with `/` separators; the directory layout is the schema.

use vstd::prelude::*;

use crate::text::{chars_of, push_char, str_eq};

verus! {

pub const MAPS: &'static str = "maps";

pub const TILESETS: &'static str = "tilesets";

pub const ACTORS: &'static str = "actors";

pub const ICONS: &'static str = "icons";

/// One embedded file: its path and its bytes.
pub type AssetFile = (&'static str, &'static [u8]);

/// The last position of `c` in `s`.
pub open spec fn last_index(s: Seq<char>, c: char) -> Option<int>
    decreases s.len(),
{
    if s.len() == 0 {
        None
    } else if s.last() == c {
        Some(s.len() - 1)
    } else {
        last_index(s.drop_last(), c)
    }
}

/// The last path component of `s`.
pub open spec fn file_name_of(s: Seq<char>) -> Seq<char> {
    match last_index(s, '/') {
        Some(k) => s.subrange(k + 1, s.len() as int),
        None => s,
    }
}

/// The last path component of `s` without its extension.
pub open spec fn stem_of(s: Seq<char>) -> Seq<char> {
    let f = file_name_of(s);
    match last_index(f, '.') {
        Some(k) => f.subrange(0, k),
        None => f,
    }
}

/// `name` lies directly or deeper under directory `dir`.
pub open spec fn under(name: Seq<char>, dir: Seq<char>) -> bool {
    &&& name.len() > dir.len()
    &&& name.subrange(0, dir.len() as int) == dir
    &&& name[dir.len() as int] == '/'
}

proof fn lemma_last_index_bounds(s: Seq<char>, c: char)
    ensures
        last_index(s, c) matches Some(k) ==> 0 <= k < s.len() && s[k] == c && forall|j: int|
            k < j < s.len() ==> s[j] != c,
        last_index(s, c) is None ==> forall|j: int| 0 <= j < s.len() ==> s[j] != c,
    decreases s.len(),
{
    if s.len() > 0 {
        let t = s.drop_last();
        lemma_last_index_bounds(t, c);
        assert forall|j: int| 0 <= j < t.len() implies t[j] == s[j] by {}
    }
}

/// The last position of `c` among the characters of `v`.
fn find_last(v: &Vec<char>, c: char) -> (r: Option<usize>)
    ensures
        r matches Some(k) ==> last_index(v@, c) == Some(k as int),
        r is None ==> last_index(v@, c) is None,
{
    let mut i: usize = v.len();
    assert(v@.subrange(0, i as int) =~= v@);
    while i > 0
        invariant
            i <= v@.len(),
            last_index(v@, c) == last_index(v@.subrange(0, i as int), c),
        decreases i,
    {
        if v[i - 1] == c {
            return Some(i - 1);
        }
        assert(v@.subrange(0, i as int).drop_last() =~= v@.subrange(0, i - 1));
        i = i - 1;
    }
    None
}

/// The last path component of `name`.
pub fn file_name(name: &str) -> (r: &str)
    ensures
        r@ == file_name_of(name@),
{
    let v = chars_of(name);
    match find_last(&v, '/') {
        Some(k) => {
            proof {
                lemma_last_index_bounds(name@, '/');
            }
            name.substring_char(k + 1, v.len())
        },
        None => name,
    }
}

/// The last path component of `name` without its extension.
pub fn stem(name: &str) -> (r: &str)
    ensures
        r@ == stem_of(name@),
{
    let file = file_name(name);
    let v = chars_of(file);
    match find_last(&v, '.') {
        Some(k) => {
            proof {
                lemma_last_index_bounds(file@, '.');
            }
            file.substring_char(0, k)
        },
        None => file,
    }
}

/// Whether `name` lies under directory `dir`.
pub fn is_under(name: &str, dir: &str) -> (r: bool)
    ensures
        r == under(name@, dir@),
{
    let n = chars_of(name);
    let d = chars_of(dir);
    if n.len() <= d.len() {
        return false;
    }
    let mut i: usize = 0;
    while i < d.len()
        invariant
            n@ == name@,
            d@ == dir@,
            d@.len() < n@.len(),
            i <= d@.len(),
            forall|k: int| 0 <= k < i ==> n@[k] == d@[k],
        decreases d@.len() - i,
    {
        if n[i] != d[i] {
            assert(name@.subrange(0, dir@.len() as int)[i as int] != dir@[i as int]);
            return false;
        }
        i = i + 1;
    }
    assert(name@.subrange(0, dir@.len() as int) =~= dir@);
    n[d.len()] == '/'
}

/// Every file under `directory`, in table order.
pub fn dir(files: &[AssetFile], directory: &str) -> (r: Vec<AssetFile>)
    ensures
        r@ == files@.filter(|f: AssetFile| under(f.0@, directory@)),
{
    let mut out: Vec<AssetFile> = Vec::new();
    let mut i: usize = 0;
    while i < files.len()
        invariant
            i <= files@.len(),
            out@ == files@.subrange(0, i as int).filter(|f: AssetFile| under(f.0@, directory@)),
        decreases files@.len() - i,
    {
        let f = files[i];
        proof {
            reveal_with_fuel(Seq::filter, 1);
            assert(files@.subrange(0, i + 1).drop_last() =~= files@.subrange(0, i as int));
        }
        if is_under(f.0, directory) {
            out.push(f);
        }
        i = i + 1;
        assert(out@ =~= files@.subrange(0, i as int).filter(|f: AssetFile| under(f.0@, directory@)));
    }
    assert(files@.subrange(0, files@.len() as int) =~= files@);
    out
}

/// The first position in `files` of a file under `dir` whose file name is that of `reference`.
pub open spec fn found_at(files: Seq<AssetFile>, dir: Seq<char>, reference: Seq<char>, i: int) -> bool {
    &&& 0 <= i < files.len()
    &&& under(files[i].0@, dir)
    &&& file_name_of(files[i].0@) == file_name_of(reference)
    &&& forall|k: int|
        0 <= k < i ==> !(under(#[trigger] files[k].0@, dir) && file_name_of(files[k].0@) == file_name_of(reference))
}

/// The first file under `dir` whose file name matches `reference`'s.
pub fn find(files: &[AssetFile], dir: &str, reference: &str) -> (r: Option<AssetFile>)
    ensures
        r matches Some(f) ==> exists|i: int| found_at(files@, dir@, reference@, i) && files@[i] == f,
        r is None ==> forall|k: int|
            0 <= k < files@.len() ==> !(under(#[trigger] files@[k].0@, dir@) && file_name_of(files@[k].0@)
                == file_name_of(reference@)),
{
    let file = file_name(reference);
    let mut i: usize = 0;
    while i < files.len()
        invariant
            i <= files@.len(),
            file@ == file_name_of(reference@),
            forall|k: int|
                0 <= k < i ==> !(under(#[trigger] files@[k].0@, dir@) && file_name_of(files@[k].0@)
                    == file_name_of(reference@)),
        decreases files@.len() - i,
    {
        let f = files[i];
        if is_under(f.0, dir) && str_eq(file_name(f.0), file) {
            assert(found_at(files@, dir@, reference@, i as int));
            return Some(f);
        }
        i = i + 1;
    }
    None
}

/// The bytes of the file named exactly `name`.
pub fn bytes(files: &[AssetFile], name: &str) -> (r: Option<&'static [u8]>)
    ensures
        r matches Some(b) ==> exists|i: int|
            0 <= i < files@.len() && files@[i].0@ == name@ && files@[i].1 == b && forall|k: int|
                0 <= k < i ==> (#[trigger] files@[k]).0@ != name@,
        r is None ==> forall|k: int| 0 <= k < files@.len() ==> (#[trigger] files@[k]).0@ != name@,
{
    let mut i: usize = 0;
    while i < files.len()
        invariant
            i <= files@.len(),
            forall|k: int| 0 <= k < i ==> (#[trigger] files@[k]).0@ != name@,
        decreases files@.len() - i,
    {
        if str_eq(files[i].0, name) {
            return Some(files[i].1);
        }
        i = i + 1;
    }
    None
}

/// Reads `b` as UTF-8 text (`std::str::from_utf8`): `None` unless the bytes are valid UTF-8,
/// whose decoding the text then holds.
#[verifier::external_body]
fn utf8(b: &'static [u8]) -> (r: Option<&'static str>)
    ensures
        r is Some <==> vstd::utf8::valid_utf8(b@),
        r matches Some(s) ==> s@ == vstd::utf8::decode_utf8(b@),
{
    std::str::from_utf8(b).ok()
}

/// An icon, resolved to the bytes of its embedded PNG.
#[derive(Clone, Copy, Debug, PartialEq, Eq)]
pub struct Icon(pub &'static [u8]);

/// The file an icon called `name` is read from: `name` with the `.png` extension.
pub open spec fn icon_file(name: Seq<char>) -> Seq<char> {
    name + seq!['.', 'p', 'n', 'g']
}

/// The icon called `name`: the first PNG under the icons directory with that name, if any.
pub fn icon(files: &[AssetFile], name: &str) -> (r: Option<Icon>)
    ensures
        r matches Some(i) ==> exists|k: int| found_at(files@, ICONS@, icon_file(name@), k) && files@[k].1 == i.0,
        r is None ==> forall|k: int|
            0 <= k < files@.len() ==> !(under(#[trigger] files@[k].0@, ICONS@) && file_name_of(files@[k].0@)
                == file_name_of(icon_file(name@))),
{
    let mut reference = name.to_owned();
    push_char(&mut reference, '.');
    push_char(&mut reference, 'p');
    push_char(&mut reference, 'n');
    push_char(&mut reference, 'g');
    assert(reference@ =~= icon_file(name@));
    match find(files, ICONS, reference.as_str()) {
        Some(f) => Some(Icon(f.1)),
        None => None,
    }
}

/// The text of the file named exactly `name`, if it exists and is UTF-8.
pub fn text(files: &[AssetFile], name: &str) -> (r: Option<&'static str>)
    ensures
        r matches Some(s) ==> exists|i: int|
            0 <= i < files@.len() && files@[i].0@ == name@ && vstd::utf8::valid_utf8(files@[i].1@)
                && s@ == vstd::utf8::decode_utf8(files@[i].1@) && forall|k: int|
                0 <= k < i ==> (#[trigger] files@[k]).0@ != name@,
        r is None ==> forall|i: int|
            0 <= i < files@.len() && files@[i].0@ == name@ && (forall|k: int|
                0 <= k < i ==> (#[trigger] files@[k]).0@ != name@) ==> !vstd::utf8::valid_utf8(files@[i].1@),
{
    match bytes(files, name) {
        Some(b) => utf8(b),
        None => None,
    }
}

/// The text of the first file under `dir` whose file name matches `reference`'s, if it is
/// UTF-8.
pub fn find_text(files: &[AssetFile], dir: &str, reference: &str) -> (r: Option<&'static str>)
    ensures
        r matches Some(s) ==> exists|i: int|
            found_at(files@, dir@, reference@, i) && vstd::utf8::valid_utf8(files@[i].1@) && s@
                == vstd::utf8::decode_utf8(files@[i].1@),
        r is None ==> forall|i: int|
            found_at(files@, dir@, reference@, i) ==> !vstd::utf8::valid_utf8(files@[i].1@),
{
    match find(files, dir, reference) {
        Some(f) => {
            let r = utf8(f.1);
            proof {
                let i = choose|i: int| found_at(files@, dir@, reference@, i) && files@[i] == f;
                assert forall|j: int| found_at(files@, dir@, reference@, j) implies j == i by {
                    if j < i {
                        assert(!(under(files@[j].0@, dir@) && file_name_of(files@[j].0@) == file_name_of(reference@)));
                    } else if j > i {
                        assert(!(under(files@[i].0@, dir@) && file_name_of(files@[i].0@) == file_name_of(reference@)));
                    }
                }
            }
            r
        },
        None => None,
    }
}

/// The `/`-separated parts of `s`, empty ones included.
pub open spec fn parts_of(s: Seq<char>) -> Seq<Seq<char>>
    decreases s.len(),
{
    if s.len() == 0 {
        seq![seq![]]
    } else if s.last() == '/' {
        parts_of(s.drop_last()).push(seq![])
    } else {
        let p = parts_of(s.drop_last());
        p.update(p.len() - 1, p.last().push(s.last()))
    }
}

proof fn lemma_parts_nonempty(s: Seq<char>)
    ensures
        parts_of(s).len() >= 1,
    decreases s.len(),
{
    if s.len() > 0 {
        lemma_parts_nonempty(s.drop_last());
    }
}

/// Walking into `part` from the directory `stack`: `..` goes up (not past the top), empty parts
/// and `.` stay, anything else goes down.
pub open spec fn step_into(stack: Seq<Seq<char>>, part: Seq<char>) -> Seq<Seq<char>> {
    if part == seq!['.', '.'] {
        if stack.len() > 0 {
            stack.drop_last()
        } else {
            stack
        }
    } else if part.len() == 0 || part == seq!['.'] {
        stack
    } else {
        stack.push(part)
    }
}

/// The directories left after walking `parts` from the top.
pub open spec fn resolved(parts: Seq<Seq<char>>) -> Seq<Seq<char>>
    decreases parts.len(),
{
    if parts.len() == 0 {
        seq![]
    } else {
        step_into(resolved(parts.drop_last()), parts.last())
    }
}

/// `st` joined with `/`.
pub open spec fn joined(st: Seq<Seq<char>>) -> Seq<char>
    decreases st.len(),
{
    if st.len() == 0 {
        seq![]
    } else if st.len() == 1 {
        st[0]
    } else {
        joined(st.drop_last()) + seq!['/'] + st.last()
    }
}

/// The asset key a loader path names: its parts walked from the top, `..` undoing the part
/// before, joined with `/`.
pub open spec fn key_of(path: Seq<char>) -> Seq<char> {
    joined(resolved(parts_of(path)))
}

pub open spec fn char_views(v: Seq<Vec<char>>) -> Seq<Seq<char>> {
    v.map_values(|p: Vec<char>| p@)
}

fn walk_into(stack: &mut Vec<Vec<char>>, part: Vec<char>)
    ensures
        char_views(final(stack)@) == step_into(char_views(old(stack)@), part@),
{
    let n = part.len();
    let is_up = n == 2 && part[0] == '.' && part[1] == '.';
    let is_here = n == 0 || (n == 1 && part[0] == '.');
    if is_up {
        assert(part@ =~= seq!['.', '.']);
        if stack.len() > 0 {
            let ghost before = stack@;
            let _ = stack.pop();
            assert(char_views(stack@) =~= char_views(before).drop_last());
        }
    } else if is_here {
        assert(part@.len() == 0 || part@ =~= seq!['.']);
    } else {
        assert(part@ != seq!['.', '.']) by {
            if part@ == seq!['.', '.'] {
                assert(part@[0] == '.' && part@[1] == '.');
            }
        }
        assert(part@ != seq!['.']) by {
            if part@ == seq!['.'] {
                assert(part@[0] == '.');
            }
        }
        let ghost before = stack@;
        stack.push(part);
        assert(char_views(stack@) =~= char_views(before).push(part@));
    }
}

/// Normalizes a loader path (`maps/../tilesets/x.tsx`) to an asset key (`tilesets/x.tsx`).
pub fn embedded_key(path: &str) -> (r: String)
    ensures
        r@ == key_of(path@),
{
    let v = chars_of(path);
    let mut stack: Vec<Vec<char>> = Vec::new();
    let mut cur: Vec<char> = Vec::new();
    let mut i: usize = 0;
    proof {
        assert(v@.take(0) =~= seq![]);
    }
    while i < v.len()
        invariant
            i <= v@.len(),
            v@ == path@,
            parts_of(v@.take(i as int)).len() >= 1,
            cur@ == parts_of(v@.take(i as int)).last(),
            char_views(stack@) == resolved(parts_of(v@.take(i as int)).drop_last()),
        decreases v@.len() - i,
    {
        let c = v[i];
        let ghost p = parts_of(v@.take(i as int));
        assert(v@.take(i + 1).drop_last() =~= v@.take(i as int));
        assert(v@.take(i + 1).last() == c);
        if c == '/' {
            let part = cur;
            cur = Vec::new();
            walk_into(&mut stack, part);
            proof {
                let q = parts_of(v@.take(i + 1));
                assert(q == p.push(seq![]));
                assert(q.drop_last() =~= p);
                assert(p =~= p.drop_last().push(p.last()));
                assert(resolved(p) == step_into(resolved(p.drop_last()), p.last()));
                assert(cur@ =~= q.last());
            }
        } else {
            cur.push(c);
            proof {
                let q = parts_of(v@.take(i + 1));
                assert(q.drop_last() =~= p.drop_last());
            }
        }
        i = i + 1;
    }
    assert(v@.take(v@.len() as int) =~= v@);
    let ghost p = parts_of(v@);
    walk_into(&mut stack, cur);
    proof {
        assert(p =~= p.drop_last().push(p.last()));
        assert(char_views(stack@) == resolved(p));
    }
    let mut out = String::new();
    let mut k: usize = 0;
    while k < stack.len()
        invariant
            k <= stack@.len(),
            out@ == joined(char_views(stack@).take(k as int)),
        decreases stack@.len() - k,
    {
        let ghost st = char_views(stack@);
        assert(st.take(k + 1).drop_last() =~= st.take(k as int));
        if k > 0 {
            push_char(&mut out, '/');
        }
        let part = &stack[k];
        let mut j: usize = 0;
        let ghost base = out@;
        while j < part.len()
            invariant
                j <= part@.len(),
                out@ == base + part@.take(j as int),
            decreases part@.len() - j,
        {
            push_char(&mut out, part[j]);
            assert(part@.take(j + 1) =~= part@.take(j as int).push(part@[j as int]));
            j = j + 1;
        }
        proof {
            assert(part@.take(part@.len() as int) =~= part@);
            assert(st[k as int] == part@);
            if k == 0 {
                assert(st.take(1) =~= seq![part@]);
                assert(base =~= seq![]);
                assert(out@ =~= part@);
            } else {
                assert(st.take(k + 1).last() == part@);
            }
        }
        k = k + 1;
    }
    assert(char_views(stack@).take(stack@.len() as int) =~= char_views(stack@));
    out
}

/// `find` reads only a reference's file name: looking up `reference` finds what looking up its
/// file name alone finds, and every hit lies under the directory searched.
pub proof fn lemma_find_ignores_directory(files: Seq<AssetFile>, dir: Seq<char>, reference: Seq<char>, i: int)
    ensures
        found_at(files, dir, reference, i) == found_at(files, dir, file_name_of(reference), i),
        found_at(files, dir, reference, i) ==> under(files[i].0@, dir),
{
    lemma_file_name_idempotent(reference);
}

proof fn lemma_file_name_idempotent(s: Seq<char>)
    ensures
        file_name_of(file_name_of(s)) == file_name_of(s),
{
    lemma_last_index_bounds(s, '/');
    let f = file_name_of(s);
    lemma_last_index_bounds(f, '/');
    if let Some(k) = last_index(s, '/') {
        if let Some(m) = last_index(f, '/') {
            assert(f[m] == s[k + 1 + m]);
        }
    } else {
        assert(f == s);
    }
}

} // verus!
