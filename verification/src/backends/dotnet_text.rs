//! The `<Version>` element of .NET project files, and the projects that a
//! solution lists.

use vstd::prelude::*;

use crate::paths;
use crate::session::Model;
use crate::text;
use crate::text::chars_of;
use crate::text::find_from;
use crate::text::lines;
use crate::text::list0;
use crate::text::plus3;
use crate::text::put;
use crate::text::same;
use crate::text::same_ignoring_case;
use crate::text::split;
use crate::text::starts_with;
use crate::text::text_of;
use crate::text::trim;
use crate::text::trim_start;

verus! {

/// Where the content of the first `<Version>` element begins and ends.
pub open spec fn version_span(t: Seq<char>) -> Option<(int, int)> {
    match text::first_at(t, "<Version>"@, 0) {
        None => None,
        Some(open) => {
            let start = open + "<Version>"@.len();
            match text::first_at(t, "</Version>"@, start) {
                None => None,
                Some(end) => Some((start, end)),
            }
        },
    }
}

/// The version in a project file, without the white space around it.
pub open spec fn version_in(t: Seq<char>) -> Option<Seq<char>> {
    match version_span(t) {
        Some((start, end)) => Some(text::trim_both(t.subrange(start, end))),
        None => None,
    }
}

/// The text of a project file with another version, provided that `old` is
/// its version.
pub open spec fn with_version(t: Seq<char>, old: Seq<char>, new: Seq<char>) -> Option<Seq<char>> {
    match version_span(t) {
        Some((start, end)) => if text::trim_both(t.subrange(start, end)) == old {
            Some(t.take(start) + new + t.skip(end))
        } else {
            None
        },
        None => None,
    }
}

proof fn lemma_span_bounds(t: Seq<char>)
    ensures
        version_span(t) matches Some((start, end)) ==> 9 <= start <= end && end + 10 <= t.len()
            && text::occurs_at(t, "<Version>"@, start - 9) && text::occurs_at(
            t,
            "</Version>"@,
            end,
        ),
{
    reveal_strlit("<Version>");
    reveal_strlit("</Version>");
    text::lemma_first_at(t, "<Version>"@, 0);
    if let Some(open) = text::first_at(t, "<Version>"@, 0) {
        text::lemma_first_at(t, "</Version>"@, open + 9);
    }
}

/// Where the content of the first `<Version>` element begins and ends.
fn find_span(t: &Vec<char>) -> (r: Option<(usize, usize)>)
    ensures
        match r {
            Some((start, end)) => version_span(t@) == Some((start as int, end as int)) && start
                <= end <= t.len(),
            None => version_span(t@) is None,
        },
{
    proof {
        lemma_span_bounds(t@);
        reveal_strlit("<Version>");
        text::lemma_first_at(t@, "<Version>"@, 0);
    }
    let open_tag = chars_of("<Version>");
    let close_tag = chars_of("</Version>");
    match find_from(t, &open_tag, 0) {
        Some(open) => match find_from(t, &close_tag, open + open_tag.len()) {
            Some(end) => Some((open + open_tag.len(), end)),
            None => None,
        },
        None => None,
    }
}

/// The version in a project file.
pub fn extract_version(t: &str) -> (r: Option<String>)
    ensures
        r.model() == version_in(t@),
{
    let cs = chars_of(t);
    match find_span(&cs) {
        Some((start, end)) => {
            let inner = text_of(&cs, start, end);
            Some(trim(&inner))
        },
        None => None,
    }
}

/// The project file has a version.
pub fn has_version_element(t: &str) -> (r: bool)
    ensures
        r == (version_in(t@) is Some),
{
    match extract_version(t) {
        Some(_) => true,
        None => false,
    }
}

/// Put another version into the text of a project file, provided that `old` is
/// its version.
pub fn replace_version(t: &str, old: &str, new: &str) -> (r: Option<String>)
    ensures
        r.model() == with_version(t@, old@, new@),
{
    let cs = chars_of(t);
    match find_span(&cs) {
        Some((start, end)) => {
            if !same(&trim(&text_of(&cs, start, end)), old) {
                return None;
            }
            let head = text_of(&cs, 0, start);
            let tail = text_of(&cs, end, cs.len());
            assert(head@ =~= cs@.take(start as int));
            assert(tail@ =~= cs@.skip(end as int));
            Some(plus3(&head, new, &tail))
        },
        None => None,
    }
}

/// A version can be put in the place of the one that is there.
pub proof fn lemma_replaceable(t: Seq<char>, new: Seq<char>)
    ensures
        version_in(t) matches Some(old) ==> with_version(t, old, new) is Some,
{
}

/// A version can always be put in the place of the one that is there, and it
/// reads back: as it is, without the white space around it. It must not hold
/// the tag that ends it.
pub proof fn law_version_reads_back(t: Seq<char>, new: Seq<char>)
    requires
        version_in(t) is Some,
        !text::has(new, "</Version>"@),
    ensures
        with_version(t, version_in(t)->0, new) matches Some(after) && version_in(after) == Some(
            text::trim_both(new),
        ),
{
    lemma_span_bounds(t);
    reveal_strlit("<Version>");
    reveal_strlit("</Version>");
    let open_tag = "<Version>"@;
    let close_tag = "</Version>"@;
    let (start, end) = version_span(t)->0;
    let open = start - 9;
    let after = t.take(start) + new + t.skip(end);
    text::lemma_first_at(t, open_tag, 0);
    assert(after.subrange(open, open + 9) =~= t.subrange(open, open + 9));
    assert forall|j: int| 0 <= j < open implies !#[trigger] text::occurs_at(after, open_tag, j) by {
        assert(!text::occurs_at(t, open_tag, j));
        assert(after.subrange(j, j + 9) =~= t.subrange(j, j + 9));
    }
    text::lemma_first_found(after, open_tag, 0, open);
    let close = start + new.len();
    assert(after.subrange(close, close + 10) =~= t.subrange(end, end + 10));
    assert forall|j: int| start <= j < close implies !#[trigger] text::occurs_at(
        after,
        close_tag,
        j,
    ) by {
        if text::occurs_at(after, close_tag, j) {
            let i = j - start;
            if i + 10 <= new.len() {
                assert(new.subrange(i, i + 10) =~= after.subrange(j, j + 10));
                text::lemma_first_at(new, close_tag, 0);
                assert(text::occurs_at(new, close_tag, i));
            } else {
                // The tag would begin anew within itself.
                assert(after.subrange(j, j + 10)[close - j] == close_tag[close - j]);
                assert(after[close] == close_tag[close - j]);
                assert(after.subrange(close, close + 10)[0] == close_tag[0]);
            }
        }
    }
    text::lemma_first_found(after, close_tag, start, close);
    assert(after.subrange(start, close) =~= new);
}

/// Only the content of the first `<Version>` element changes.
pub proof fn law_rest_stays(t: Seq<char>, old: Seq<char>, new: Seq<char>)
    ensures
        with_version(t, old, new) matches Some(after) ==> version_span(t) matches Some((start, end))
            && after.take(start) == t.take(start) && after.skip(start + new.len()) == t.skip(end),
{
    lemma_span_bounds(t);
    if let Some(after) = with_version(t, old, new) {
        let (start, end) = version_span(t)->0;
        assert(after.take(start) =~= t.take(start));
        assert(after.skip(start + new.len()) =~= t.skip(end));
    }
}

// ---------------------------------------------------------------------------
// Solutions
// ---------------------------------------------------------------------------

/// The third text between quotes in a line: what stands behind its fifth
/// quote, provided that there is a sixth one.
pub open spec fn third_quoted(line: Seq<char>) -> Option<Seq<char>> {
    let pieces = text::split_by(line, '"');
    if pieces.len() >= 7 {
        Some(pieces[5])
    } else {
        None
    }
}

/// The text ends with `suffix`, in capitals or not.
pub open spec fn ends_like(s: Seq<char>, suffix: Seq<char>) -> bool {
    s.len() >= suffix.len() && text::same_but_case(s.skip(s.len() - suffix.len()), suffix)
}

/// The project that a line of a solution lists.
pub open spec fn project_in(line: Seq<char>) -> Option<Seq<char>> {
    if text::occurs_at(text::trim_left(line), "Project("@, 0) {
        match third_quoted(line) {
            Some(path) => if ends_like(path, ".csproj"@) || ends_like(path, ".fsproj"@) {
                Some(paths::slashed(path))
            } else {
                None
            },
            None => None,
        }
    } else {
        None
    }
}

/// The projects that the lines list up to the one at `n`.
pub open spec fn projects_among(lines: Seq<Seq<char>>, n: int) -> Seq<Seq<char>>
    decreases n,
{
    if n <= 0 {
        Seq::empty()
    } else {
        match project_in(lines[n - 1]) {
            Some(path) => projects_among(lines, n - 1).push(path),
            None => projects_among(lines, n - 1),
        }
    }
}

/// The projects that a solution lists, in its order.
pub open spec fn projects_in(t: Seq<char>) -> Seq<Seq<char>> {
    projects_among(text::lines_of(t), text::lines_of(t).len() as int)
}

fn ends_in(s: &str, suffix: &str) -> (r: bool)
    ensures
        r == ends_like(s@, suffix@),
{
    let cs = chars_of(s);
    let end = chars_of(suffix);
    if cs.len() < end.len() {
        return false;
    }
    let tail = chars_of(&text_of(&cs, cs.len() - end.len(), cs.len()));
    assert(tail@ =~= cs@.skip(cs@.len() - end@.len()));
    same_ignoring_case(&tail, &end)
}

/// The project that a line of a solution lists.
fn find_project(line: &str) -> (r: Option<String>)
    ensures
        r.model() == project_in(line@),
{
    if !starts_with(&trim_start(line), "Project(") {
        return None;
    }
    let pieces = split(line, '"');
    let ghost all = pieces.deep_view();
    assert(all.len() == pieces.len());
    if pieces.len() < 7 {
        return None;
    }
    assert(all[5] == pieces@[5]@);
    if ends_in(&pieces[5], ".csproj") || ends_in(&pieces[5], ".fsproj") {
        Some(paths::with_slashes(&pieces[5]))
    } else {
        None
    }
}

/// The projects that a solution lists.
pub fn parse_sln_project_paths(t: &str) -> (r: Vec<String>)
    ensures
        r.deep_view() == projects_in(t@),
{
    let all = lines(t);
    let ghost seen = text::lines_of(t@);
    let mut out = list0();
    let mut i: usize = 0;
    assert(all.deep_view().len() == all.len());
    while i < all.len()
        invariant
            i <= all.len(),
            all.deep_view() == seen,
            out.deep_view() == projects_among(seen, i as int),
        decreases all.len() - i,
    {
        assert(seen[i as int] == all@[i as int]@);
        if let Some(path) = find_project(&all[i]) {
            put(&mut out, path);
        }
        i = i + 1;
    }
    out
}

/// The version is what stands in the first `<Version>` element, without the
/// white space around it.
pub proof fn law_first_element_is_the_version(a: Seq<char>, v: Seq<char>, b: Seq<char>)
    requires
        ({
            let t = a + "<Version>"@ + v + "</Version>"@ + b;
            &&& forall|j: int| 0 <= j < a.len() ==> !#[trigger] text::occurs_at(
                t,
                "<Version>"@,
                j,
            )
            &&& forall|j: int|
                a.len() + 9 <= j < a.len() + 9 + v.len() ==> !#[trigger] text::occurs_at(
                    t,
                    "</Version>"@,
                    j,
                )
        }),
    ensures
        version_in(a + "<Version>"@ + v + "</Version>"@ + b) == Some(text::trim_both(v)),
{
    reveal_strlit("<Version>");
    reveal_strlit("</Version>");
    let t = a + "<Version>"@ + v + "</Version>"@ + b;
    let open = a.len() as int;
    let start = open + 9;
    let end = start + v.len();
    assert(t.subrange(open, open + 9) =~= "<Version>"@);
    text::lemma_first_found(t, "<Version>"@, 0, open);
    assert(t.subrange(end, end + 10) =~= "</Version>"@);
    text::lemma_first_found(t, "</Version>"@, start, end);
    assert(t.subrange(start, end) =~= v);
}

/// A text without a whole `<Version>` element has no version.
pub proof fn law_no_element_no_version(t: Seq<char>)
    requires
        forall|j: int, k: int|
            j + 9 <= k ==> !(#[trigger] text::occurs_at(t, "<Version>"@, j)
                && #[trigger] text::occurs_at(t, "</Version>"@, k)),
    ensures
        version_in(t) is None,
{
    lemma_span_bounds(t);
    if let Some((start, end)) = version_span(t) {
        assert(text::occurs_at(t, "<Version>"@, start - 9));
        assert(text::occurs_at(t, "</Version>"@, end));
    }
}

/// A line of a solution that tells a project, with four texts between quotes, of
/// which the third is the path: the project is listed if it is one of C# or F#,
/// with `/` between the names of its path.
pub proof fn law_project_line(
    indent: Seq<char>,
    kind: Seq<char>,
    name: Seq<char>,
    path: Seq<char>,
    rest: Seq<char>,
)
    requires
        forall|i: int| 0 <= i < indent.len() ==> text::is_space(#[trigger] indent[i]),
        !indent.contains('"') && !kind.contains('"') && !name.contains('"') && !path.contains('"'),
        rest.contains('"'),
    ensures
        project_in(
            indent + "Project("@ + seq!['"'] + (kind + seq!['"'] + (") = "@ + seq!['"'] + (name
                + seq!['"'] + (", "@ + seq!['"'] + (path + seq!['"'] + rest))))),
        ) == (if ends_like(path, ".csproj"@) || ends_like(path, ".fsproj"@) {
            Some(paths::slashed(path))
        } else {
            None
        }),
{
    reveal_strlit("Project(");
    reveal_strlit(") = ");
    reveal_strlit(", ");
    let r5 = rest;
    let r4 = path + seq!['"'] + r5;
    let r3 = ", "@ + seq!['"'] + r4;
    let r2 = name + seq!['"'] + r3;
    let r1 = ") = "@ + seq!['"'] + r2;
    let r0 = kind + seq!['"'] + r1;
    let head = indent + "Project("@;
    let line = head + seq!['"'] + r0;
    assert(!head.contains('"')) by {
        if head.contains('"') {
            let i = choose|i: int| 0 <= i < head.len() && head[i] == '"';
            if i < indent.len() {
                assert(indent[i] == '"');
            }
        }
    }
    text::lemma_split_first(head, '"', r0);
    text::lemma_split_first(kind, '"', r1);
    text::lemma_split_first(") = "@, '"', r2);
    text::lemma_split_first(name, '"', r3);
    text::lemma_split_first(", "@, '"', r4);
    text::lemma_split_first(path, '"', r5);
    lemma_two_pieces(rest, '"');
    let pieces = text::split_by(line, '"');
    assert(pieces =~= seq![head, kind, ") = "@, name, ", "@, path] + text::split_by(r5, '"'));
    assert(pieces.len() >= 8);
    assert(pieces[5] == path);
    let behind = "Project("@ + seq!['"'] + r0;
    assert(line =~= indent + behind);
    lemma_trim_indent(indent, behind);
    assert(behind.subrange(0, 8) =~= "Project("@);
}

proof fn lemma_two_pieces(s: Seq<char>, sep: char)
    requires
        s.contains(sep),
    ensures
        text::split_by(s, sep).len() >= 2,
{
    text::lemma_first_at(s, seq![sep], 0);
    let i = choose|i: int| 0 <= i < s.len() && s[i] == sep;
    text::lemma_occurs_char(s, sep, i);
    let j = text::first_at(s, seq![sep], 0)->0;
    text::lemma_occurs_char(s, sep, j);
    assert(text::split_by(s.skip(j + 1), sep).len() >= 1);
}

proof fn lemma_trim_indent(indent: Seq<char>, s: Seq<char>)
    requires
        forall|i: int| 0 <= i < indent.len() ==> text::is_space(#[trigger] indent[i]),
        s.len() > 0,
        !text::is_space(s[0]),
    ensures
        text::trim_left(indent + s) == s,
    decreases indent.len(),
{
    let whole = indent + s;
    if indent.len() == 0 {
        assert(whole =~= s);
    } else {
        let fewer = indent.skip(1);
        assert(whole[0] == indent[0]);
        assert(whole.skip(1) =~= fewer + s);
        assert forall|i: int| 0 <= i < fewer.len() implies text::is_space(#[trigger] fewer[i]) by {
            assert(fewer[i] == indent[i + 1]);
        }
        lemma_trim_indent(fewer, s);
    }
}

proof fn lemma_projects_front(first: Seq<char>, rest: Seq<Seq<char>>, n: int)
    requires
        0 <= n <= rest.len(),
    ensures
        projects_among(seq![first] + rest, n + 1) == (match project_in(first) {
            Some(path) => seq![path],
            None => Seq::empty(),
        }) + projects_among(rest, n),
    decreases n,
{
    let all = seq![first] + rest;
    if n == 0 {
        assert(projects_among(all, 0) =~= Seq::empty());
        assert(all[0] == first);
        assert(projects_among(all, 1) =~= (match project_in(first) {
            Some(path) => seq![path],
            None => Seq::empty(),
        }) + projects_among(rest, 0));
    } else {
        lemma_projects_front(first, rest, n - 1);
        assert(all[n] == rest[n - 1]);
        assert(projects_among(all, n + 1) =~= (match project_in(first) {
            Some(path) => seq![path],
            None => Seq::empty(),
        }) + projects_among(rest, n));
    }
}

/// A solution lists the projects that its lines tell, one after the other: that
/// of its first line, if it tells one, and then those of the others.
pub proof fn law_projects_are_listed_in_order(line: Seq<char>, rest: Seq<char>)
    requires
        !line.contains('\n'),
    ensures
        projects_in(line + seq!['\r', '\n'] + rest) == (match project_in(line) {
            Some(path) => seq![path],
            None => Seq::empty(),
        }) + projects_in(rest),
        projects_in(line + seq!['\n'] + rest) == (match project_in(text::chomp(line)) {
            Some(path) => seq![path],
            None => Seq::empty(),
        }) + projects_in(rest),
        projects_in(Seq::empty()) == Seq::<Seq<char>>::empty(),
{
    text::law_lines_end_with_line_feeds(line, rest);
    let lines = text::lines_of(rest);
    lemma_projects_front(line, lines, lines.len() as int);
    lemma_projects_front(text::chomp(line), lines, lines.len() as int);
}

} // verus!
