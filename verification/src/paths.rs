//! Paths. The names in them are separated by `/` or by the host's separator.

use vstd::prelude::*;

use crate::text;
use crate::text::chars_of;
use crate::text::list0;
use crate::text::plus;
use crate::text::put;
use crate::text::same_ignoring_case;
use crate::text::same_list;
use crate::text::text_of;

verus! {

/// The character separates the names in a path, where `sep` is the host's
/// separator.
pub open spec fn separates(c: char, sep: char) -> bool {
    c == '/' || c == sep
}

/// The path does not depend on where one is: it begins at the root or, where
/// the separator is `\`, with a drive.
pub open spec fn stands_alone(path: Seq<char>, sep: char) -> bool {
    &&& path.len() > 0
    &&& separates(path[0], sep) || (sep == '\\' && path.len() >= 2 && path[1] == ':')
}

/// The path `path`, seen from the directory `dir`. An absolute path stays what
/// it is; the empty path is `dir` itself.
pub open spec fn joined_to(dir: Seq<char>, path: Seq<char>, sep: char) -> Seq<char> {
    if path.len() == 0 {
        dir
    } else if dir.len() == 0 || stands_alone(path, sep) {
        path
    } else if separates(dir.last(), sep) {
        dir + path
    } else {
        dir.push(sep) + path
    }
}

/// The position of the first separator of `s`, its length if there is none.
pub open spec fn first_break(s: Seq<char>, sep: char) -> int
    decreases s.len(),
{
    if s.len() == 0 || separates(s[0], sep) {
        0
    } else {
        1 + first_break(s.skip(1), sep)
    }
}

/// The names in a path. Doubled separators and names that are just a dot do not
/// count.
pub open spec fn names_in(path: Seq<char>, sep: char) -> Seq<Seq<char>>
    decreases path.len(),
{
    if path.len() == 0 {
        Seq::empty()
    } else {
        let i = first_break(path, sep);
        let rest = if 0 <= i < path.len() {
            names_in(path.skip(i + 1), sep)
        } else {
            Seq::empty()
        };
        if i == 0 || path.take(i) == seq!['.'] {
            rest
        } else {
            seq![path.take(i)] + rest
        }
    }
}

/// The path begins at the root.
pub open spec fn from_root(path: Seq<char>, sep: char) -> bool {
    path.len() > 0 && separates(path[0], sep)
}

/// The path begins with a dot for the directory that one is in.
pub open spec fn from_here(path: Seq<char>, sep: char) -> bool {
    path.len() > 0 && path[0] == '.' && (path.len() == 1 || separates(path[1], sep))
}

/// Two ways to write one path: they begin at the same place and have the same
/// names.
pub open spec fn same_path(a: Seq<char>, b: Seq<char>, sep: char) -> bool {
    &&& from_root(a, sep) == from_root(b, sep)
    &&& from_here(a, sep) == from_here(b, sep)
    &&& names_in(a, sep) == names_in(b, sep)
}

/// The path is in the list, in whatever way it is written.
pub open spec fn has_path(list: Seq<Seq<char>>, path: Seq<char>, sep: char) -> bool {
    exists|i: int| 0 <= i < list.len() && same_path(#[trigger] list[i], path, sep)
}

/// The position of the last character `c` of `s`, -1 if there is none.
pub open spec fn last_of(s: Seq<char>, c: char) -> int
    decreases s.len(),
{
    if s.len() == 0 {
        -1
    } else if s.last() == c {
        s.len() - 1
    } else {
        last_of(s.drop_last(), c)
    }
}

/// The position of the last separator of `s`, -1 if there is none.
pub open spec fn last_break(s: Seq<char>, sep: char) -> int
    decreases s.len(),
{
    if s.len() == 0 {
        -1
    } else if separates(s.last(), sep) {
        s.len() - 1
    } else {
        last_break(s.drop_last(), sep)
    }
}

/// The directory that a path is in: what stands before its last separator.
pub open spec fn parent(path: Seq<char>, sep: char) -> Seq<char> {
    if last_break(path, sep) < 0 {
        Seq::empty()
    } else {
        path.take(last_break(path, sep))
    }
}

/// The extension of a file name: what stands behind its last dot, unless the
/// name begins with that dot.
pub open spec fn extension(name: Seq<char>) -> Option<Seq<char>> {
    let dot = last_of(name, '.');
    if dot <= 0 || name == ".."@ {
        None
    } else {
        Some(name.skip(dot + 1))
    }
}

/// The file name has this extension, in capitals or not.
pub open spec fn has_extension(name: Seq<char>, ext: Seq<char>) -> bool {
    extension(name) matches Some(e) && text::same_but_case(e, ext)
}

/// A path with `/` for `\`.
pub open spec fn slashed(path: Seq<char>) -> Seq<char> {
    Seq::new(
        path.len(),
        |i: int|
            if path[i] == '\\' {
                '/'
            } else {
                path[i]
            },
    )
}

/// Whether the character separates the names in a path.
fn is_break(c: char, sep: char) -> (r: bool)
    ensures
        r == separates(c, sep),
{
    c == '/' || c == sep
}

/// The path `path`, seen from the directory `dir`.
pub fn join(dir: &str, path: &str, sep: char) -> (r: String)
    ensures
        r@ == joined_to(dir@, path@, sep),
{
    let d = chars_of(dir);
    let p = chars_of(path);
    if p.len() == 0 {
        return dir.to_owned();
    }
    let alone = is_break(p[0], sep) || (sep == '\\' && p.len() >= 2 && p[1] == ':');
    if d.len() == 0 || alone {
        path.to_owned()
    } else if is_break(d[d.len() - 1], sep) {
        plus(dir, path)
    } else {
        let mut out = dir.to_owned();
        out.push(sep);
        plus(&out, path)
    }
}

/// The names in a path.
fn names(path: &str, sep: char) -> (r: Vec<String>)
    ensures
        r.deep_view() == names_in(path@, sep),
{
    let cs = chars_of(path);
    let mut out = list0();
    let mut from: usize = 0;
    assert(cs@.skip(0) =~= cs@);
    assert(out.deep_view() + names_in(cs@, sep) =~= names_in(cs@, sep));
    while from < cs.len()
        invariant
            from <= cs.len(),
            cs@ == path@,
            names_in(path@, sep) == out.deep_view() + names_in(cs@.skip(from as int), sep),
        decreases cs.len() - from,
    {
        let ghost rest = cs@.skip(from as int);
        let ghost before = out.deep_view();
        let mut i: usize = from;
        assert(rest.skip(0) =~= rest);
        while i < cs.len() && !is_break(cs[i], sep)
            invariant
                from <= i <= cs.len(),
                rest == cs@.skip(from as int),
                first_break(rest, sep) == i - from + first_break(rest.skip(i - from), sep),
            decreases cs.len() - i,
        {
            proof {
                assert(rest.skip(i - from)[0] == cs@[i as int]);
                assert(rest.skip(i - from).skip(1) =~= rest.skip(i + 1 - from));
            }
            i = i + 1;
        }
        proof {
            if i < cs.len() {
                assert(rest.skip(i - from)[0] == cs@[i as int]);
            }
            assert(first_break(rest, sep) == i - from);
            assert(rest.take(i - from) =~= cs@.subrange(from as int, i as int));
            if i < cs.len() {
                assert(rest.skip(i - from + 1) =~= cs@.skip(i + 1));
            }
        }
        let plain_dot = i - from == 1 && cs[from] == '.';
        proof {
            if plain_dot {
                assert(rest.take(1) =~= seq!['.']);
            } else if i > from {
                assert(rest.take(i - from)[0] == cs@[from as int]);
                if rest.take(i - from) == seq!['.'] {
                    assert(seq!['.'].len() == 1);
                }
            }
        }
        if i > from && !plain_dot {
            put(&mut out, text_of(&cs, from, i));
        }
        from = if i < cs.len() {
            i + 1
        } else {
            i
        };
        proof {
            let more = names_in(cs@.skip(from as int), sep);
            assert(before + names_in(rest, sep) =~= out.deep_view() + more);
        }
    }
    assert(out.deep_view() + names_in(cs@.skip(from as int), sep) =~= out.deep_view());
    out
}

/// Whether two texts are two ways to write one path.
pub fn is_same_path(a: &str, b: &str, sep: char) -> (r: bool)
    ensures
        r == same_path(a@, b@, sep),
{
    let x = chars_of(a);
    let y = chars_of(b);
    let x_root = x.len() > 0 && is_break(x[0], sep);
    let y_root = y.len() > 0 && is_break(y[0], sep);
    let x_here = x.len() > 0 && x[0] == '.' && (x.len() == 1 || is_break(x[1], sep));
    let y_here = y.len() > 0 && y[0] == '.' && (y.len() == 1 || is_break(y[1], sep));
    x_root == y_root && x_here == y_here && same_list(&names(a, sep), &names(b, sep))
}

/// Whether the path is in the list, in whatever way it is written.
pub fn lists_path(list: &Vec<String>, path: &str, sep: char) -> (r: bool)
    ensures
        r == has_path(list.deep_view(), path@, sep),
{
    let ghost all = list.deep_view();
    assert(all.len() == list.len());
    let mut i: usize = 0;
    while i < list.len()
        invariant
            i <= list.len(),
            all == list.deep_view(),
            all.len() == list.len(),
            forall|k: int| 0 <= k < i ==> !same_path(#[trigger] all[k], path@, sep),
        decreases list.len() - i,
    {
        assert(all[i as int] == list@[i as int]@);
        if is_same_path(&list[i], path, sep) {
            return true;
        }
        i = i + 1;
    }
    false
}

/// The position behind the last character `c`, 0 if there is none.
fn past_last(s: &Vec<char>, c: char) -> (r: usize)
    ensures
        r == last_of(s@, c) + 1,
        r <= s.len(),
{
    let mut i: usize = s.len();
    assert(s@.take(i as int) =~= s@);
    while i > 0
        invariant
            i <= s.len(),
            last_of(s@, c) == last_of(s@.take(i as int), c),
        decreases i,
    {
        assert(s@.take(i as int).drop_last() =~= s@.take(i - 1));
        if s[i - 1] == c {
            return i;
        }
        i = i - 1;
    }
    0
}

/// The directory that a path is in.
pub fn parent_of(path: &str, sep: char) -> (r: String)
    ensures
        r@ == parent(path@, sep),
{
    let p = chars_of(path);
    let mut i: usize = p.len();
    assert(p@.take(i as int) =~= p@);
    while i > 0
        invariant
            i <= p.len(),
            p@ == path@,
            last_break(p@, sep) == last_break(p@.take(i as int), sep),
        decreases i,
    {
        assert(p@.take(i as int).drop_last() =~= p@.take(i - 1));
        if is_break(p[i - 1], sep) {
            let r = text_of(&p, 0, i - 1);
            assert(r@ =~= p@.take(i - 1));
            return r;
        }
        i = i - 1;
    }
    let r = String::new();
    assert(r@ =~= Seq::empty());
    r
}

/// The file name has this extension, in capitals or not.
pub fn ends_in(name: &str, ext: &str) -> (r: bool)
    ensures
        r == has_extension(name@, ext@),
{
    let n = chars_of(name);
    let past = past_last(&n, '.');
    if past < 2 || crate::text::same(name, "..") {
        return false;
    }
    let found = chars_of(&text_of(&n, past, n.len()));
    assert(found@ =~= n@.skip(past as int));
    same_ignoring_case(&found, &chars_of(ext))
}

/// A path with `/` for `\`.
pub fn with_slashes(path: &str) -> (r: String)
    ensures
        r@ == slashed(path@),
{
    let cs = chars_of(path);
    let mut out = String::new();
    let mut i: usize = 0;
    assert(out@ =~= slashed(path@).take(0));
    while i < cs.len()
        invariant
            i <= cs.len(),
            cs@ == path@,
            out@ == slashed(path@).take(i as int),
        decreases cs.len() - i,
    {
        if cs[i] == '\\' {
            out.push('/');
        } else {
            out.push(cs[i]);
        }
        i = i + 1;
        assert(out@ =~= slashed(path@).take(i as int));
    }
    assert(slashed(path@).take(i as int) =~= slashed(path@));
    out
}

/// The name has no separator in it.
pub open spec fn is_name(name: Seq<char>, sep: char) -> bool {
    &&& name.len() > 0
    &&& forall|i: int| 0 <= i < name.len() ==> !separates(#[trigger] name[i], sep)
    &&& !stands_alone(name, sep)
}

proof fn lemma_last_break(s: Seq<char>, sep: char, name: Seq<char>)
    requires
        s.len() > 0,
        separates(s.last(), sep),
        forall|i: int| 0 <= i < name.len() ==> !separates(#[trigger] name[i], sep),
    ensures
        last_break(s + name, sep) == s.len() - 1,
    decreases name.len(),
{
    if name.len() == 0 {
        assert(s + name =~= s);
    } else {
        let fewer = name.drop_last();
        assert((s + name).drop_last() =~= s + fewer);
        assert((s + name).last() == name[name.len() - 1]);
        assert forall|i: int| 0 <= i < fewer.len() implies !separates(
            #[trigger] fewer[i],
            sep,
        ) by {
            assert(fewer[i] == name[i]);
        }
        lemma_last_break(s, sep, fewer);
    }
}

proof fn lemma_no_break(name: Seq<char>, sep: char)
    requires
        forall|i: int| 0 <= i < name.len() ==> !separates(#[trigger] name[i], sep),
    ensures
        last_break(name, sep) == -1,
        first_break(name, sep) == name.len(),
    decreases name.len(),
{
    if name.len() > 0 {
        let fewer = name.drop_last();
        assert forall|i: int| 0 <= i < fewer.len() implies !separates(
            #[trigger] fewer[i],
            sep,
        ) by {
            assert(fewer[i] == name[i]);
        }
        assert(!separates(name[name.len() - 1], sep));
        lemma_no_break(fewer, sep);
        let rest = name.skip(1);
        assert forall|i: int| 0 <= i < rest.len() implies !separates(#[trigger] rest[i], sep) by {
            assert(rest[i] == name[i + 1]);
        }
        assert(!separates(name[0], sep));
        lemma_no_break(rest, sep);
    }
}

/// What is put into a directory is in that directory: the path is that of the
/// directory and the name, with one separator between them.
pub proof fn law_parent_of_what_is_joined(dir: Seq<char>, name: Seq<char>, sep: char)
    requires
        is_name(name, sep),
        dir.len() > 0 ==> !separates(dir.last(), sep),
    ensures
        joined_to(dir, name, sep) == (if dir.len() == 0 {
            name
        } else {
            dir + seq![sep] + name
        }),
        parent(joined_to(dir, name, sep), sep) == dir,
{
    if dir.len() == 0 {
        lemma_no_break(name, sep);
        assert(dir =~= Seq::empty());
    } else {
        let s = dir + seq![sep];
        assert(dir.push(sep) =~= s);
        lemma_last_break(s, sep, name);
        assert((s + name).take(dir.len() as int) =~= dir);
    }
}

proof fn lemma_first_break(name: Seq<char>, rest: Seq<char>, c: char, sep: char)
    requires
        separates(c, sep),
        forall|i: int| 0 <= i < name.len() ==> !separates(#[trigger] name[i], sep),
    ensures
        first_break(name + seq![c] + rest, sep) == name.len(),
    decreases name.len(),
{
    let s = name + seq![c] + rest;
    if name.len() == 0 {
        assert(s[0] == c);
    } else {
        let fewer = name.skip(1);
        assert(s.skip(1) =~= fewer + seq![c] + rest);
        assert(s[0] == name[0]);
        assert forall|i: int| 0 <= i < fewer.len() implies !separates(
            #[trigger] fewer[i],
            sep,
        ) by {
            assert(fewer[i] == name[i + 1]);
        }
        lemma_first_break(fewer, rest, c, sep);
    }
}

/// The names of a path are what stands between its separators; nothing, between
/// two of them, and a dot do not count.
pub proof fn law_names_stand_between_separators(
    name: Seq<char>,
    rest: Seq<char>,
    c: char,
    sep: char,
)
    requires
        separates(c, sep),
        forall|i: int| 0 <= i < name.len() ==> !separates(#[trigger] name[i], sep),
    ensures
        names_in(name + seq![c] + rest, sep) == (if name.len() == 0 || name == seq!['.'] {
            names_in(rest, sep)
        } else {
            seq![name] + names_in(rest, sep)
        }),
        names_in(name, sep) == (if name.len() == 0 || name == seq!['.'] {
            Seq::empty()
        } else {
            seq![name]
        }),
{
    let s = name + seq![c] + rest;
    lemma_first_break(name, rest, c, sep);
    assert(s.take(name.len() as int) =~= name);
    assert(s.skip(name.len() as int + 1) =~= rest);
    lemma_no_break(name, sep);
    assert(name.take(name.len() as int) =~= name);
    assert(seq![name] + Seq::<Seq<char>>::empty() =~= seq![name]);
}

proof fn lemma_last_of(s: Seq<char>, c: char, rest: Seq<char>)
    requires
        !rest.contains(c),
    ensures
        last_of(s + seq![c] + rest, c) == s.len(),
    decreases rest.len(),
{
    let whole = s + seq![c] + rest;
    if rest.len() == 0 {
        assert(whole.last() == c);
    } else {
        let fewer = rest.drop_last();
        assert(whole.drop_last() =~= s + seq![c] + fewer);
        assert(whole.last() == rest[rest.len() - 1]);
        assert(rest.contains(rest[rest.len() - 1]));
        assert forall|x: char| fewer.contains(x) implies rest.contains(x) by {
            let i = choose|i: int| 0 <= i < fewer.len() && fewer[i] == x;
            assert(rest[i] == x);
        }
        lemma_last_of(s, c, fewer);
    }
}

proof fn lemma_last_of_none(s: Seq<char>, c: char)
    requires
        !s.contains(c),
    ensures
        last_of(s, c) == -1,
    decreases s.len(),
{
    if s.len() > 0 {
        assert(s.contains(s[s.len() - 1]));
        let fewer = s.drop_last();
        assert forall|x: char| fewer.contains(x) implies s.contains(x) by {
            let i = choose|i: int| 0 <= i < fewer.len() && fewer[i] == x;
            assert(s[i] == x);
        }
        lemma_last_of_none(fewer, c);
    }
}

/// A file name has the extension that stands behind its last dot, in capitals or
/// not; without a dot, or with one in front alone, it has none.
pub proof fn law_extension_is_behind_the_last_dot(
    stem: Seq<char>,
    ext: Seq<char>,
    wanted: Seq<char>,
)
    requires
        !ext.contains('.'),
        ext.len() > 0,
    ensures
        has_extension(stem + seq!['.'] + ext, wanted) <==> stem.len() > 0 && text::same_but_case(
            ext,
            wanted,
        ),
        !has_extension(ext, wanted),
{
    let name = stem + seq!['.'] + ext;
    lemma_last_of(stem, '.', ext);
    lemma_last_of_none(ext, '.');
    assert(name.skip(stem.len() as int + 1) =~= ext);
    reveal_strlit("..");
    assert(name.last() == ext[ext.len() - 1]);
    assert(ext.contains(ext[ext.len() - 1]));
    assert(".."@.last() == '.');
}

/// A path with slashes has no backslash, and is as it was but for them.
pub proof fn law_backslashes_become_slashes(path: Seq<char>)
    ensures
        !slashed(path).contains('\\'),
        slashed(path).len() == path.len(),
        forall|i: int|
            0 <= i < path.len() ==> (#[trigger] slashed(path)[i] == path[i] || (path[i] == '\\'
                && slashed(path)[i] == '/')),
{
}

} // verus!
