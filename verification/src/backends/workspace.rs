//! The members of monorepo-style workspaces.
//!
//! A workspace is described by a list of patterns that point at package
//! directories, each of which holds a manifest. Exclusions with a leading `!`
//! and recursive `**` wildcards are not supported: they are skipped with a
//! warning.

use vstd::prelude::*;

use crate::conversation;
use crate::error::Error;
use crate::error::ErrorOf;
use crate::error::ErrorView;
use crate::memory;
use crate::paths;
use crate::session;
use crate::session::Answer;
use crate::session::AskOf;
use crate::session::AskView;
use crate::session::Cursor;
use crate::session::Found;
use crate::session::Next;
use crate::session::Session;
use crate::session::Step;
use crate::text;
use crate::text::chars_of;
use crate::text::contains;
use crate::text::plus;
use crate::text::plus3;
use crate::text::put;
use crate::text::trim;

verus! {

/// The warning about an exclusion.
pub open spec fn negated_warning(pattern: Seq<char>) -> Seq<char> {
    "warning: negated workspace pattern '"@ + pattern + "' is not supported; skipping"@
}

/// The warning about a recursive pattern.
pub open spec fn recursive_warning(pattern: Seq<char>) -> Seq<char> {
    "warning: recursive workspace pattern '"@ + pattern + "' ('**') is not supported; skipping"@
}

/// The warning about a pattern that is none.
pub open spec fn invalid_warning(pattern: Seq<char>, why: Seq<char>) -> Seq<char> {
    "warning: invalid workspace pattern '"@ + pattern + "': "@ + (why + "; skipping"@)
}

/// The warning about a match that cannot be read.
pub open spec fn entry_warning(why: Seq<char>) -> Seq<char> {
    "warning: failed to read workspace entry: "@ + why
}

/// Add the manifests of the matches from the one at `j` on: of those that are
/// directories with such a manifest, unless it has been added before.
pub open spec fn matches_step(
    c: Cursor,
    found: Seq<Found>,
    j: int,
    out: Seq<Seq<char>>,
    manifest: Seq<char>,
) -> Next<Seq<Seq<char>>>
    decreases found.len() - j,
{
    if j >= found.len() {
        Next::Done(out, c)
    } else {
        match found[j] {
            Found::Failed(why) => c.warn(entry_warning(why@)).and(
                |u: (), c: Cursor| matches_step(c, found, j + 1, out, manifest),
            ),
            Found::Path(dir) => c.is_dir(dir@).and(
                |is_dir: bool, c: Cursor|
                    if is_dir {
                        let path = paths::joined_to(dir@, manifest, c.sep);
                        c.is_file(path).and(
                            |is_file: bool, c: Cursor|
                                matches_step(
                                    c,
                                    found,
                                    j + 1,
                                    if is_file && !paths::has_path(out, path, c.sep) {
                                        out.push(path)
                                    } else {
                                        out
                                    },
                                    manifest,
                                ),
                        )
                    } else {
                        matches_step(c, found, j + 1, out, manifest)
                    },
            ),
        }
    }
}

/// Add the manifests of the patterns from the one at `k` on.
pub open spec fn patterns_step(
    c: Cursor,
    patterns: Seq<Seq<char>>,
    k: int,
    out: Seq<Seq<char>>,
    manifest: Seq<char>,
) -> Next<Result<Seq<Seq<char>>, ErrorView>>
    decreases patterns.len() - k,
{
    if k >= patterns.len() {
        Next::Done(Ok(out), c)
    } else {
        let pattern = text::trim_both(patterns[k]);
        if pattern.len() == 0 {
            patterns_step(c, patterns, k + 1, out, manifest)
        } else if pattern[0] == '!' {
            c.warn(negated_warning(pattern)).and(
                |u: (), c: Cursor| patterns_step(c, patterns, k + 1, out, manifest),
            )
        } else if text::has(pattern, "**"@) {
            c.warn(recursive_warning(pattern)).and(
                |u: (), c: Cursor| patterns_step(c, patterns, k + 1, out, manifest),
            )
        } else {
            c.glob(pattern).and(
                |a: Answer, c: Cursor|
                    match a {
                        Answer::Matches(found) => matches_step(c, found@, 0, out, manifest).and(
                            |more: Seq<Seq<char>>, c: Cursor|
                                patterns_step(c, patterns, k + 1, more, manifest),
                        ),
                        Answer::BadPattern(why) => c.warn(invalid_warning(pattern, why@)).and(
                            |u: (), c: Cursor| patterns_step(c, patterns, k + 1, out, manifest),
                        ),
                        _ => Next::Done(Err(ErrorOf::OddPattern(c.shown(pattern))), c),
                    },
            )
        }
    }
}

/// The manifests of a workspace's members.
pub open spec fn children_step(
    c: Cursor,
    patterns: Seq<Seq<char>>,
    manifest: Seq<char>,
) -> Next<Result<Seq<Seq<char>>, ErrorView>> {
    patterns_step(c, patterns, 0, Seq::empty(), manifest)
}

/// To look through matches is harmless.
pub broadcast proof fn lemma_matches_calm(
    c: Cursor,
    found: Seq<Found>,
    j: int,
    out: Seq<Seq<char>>,
    manifest: Seq<char>,
)
    ensures
        (#[trigger] matches_step(c, found, j, out, manifest)).calm(),
    decreases found.len() - j,
{
    if j < found.len() {
        lemma_matches_calm(c.past(), found, j + 1, out, manifest);
        if let Found::Path(dir) = found[j] {
            let path = paths::joined_to(dir@, manifest, c.sep);
            lemma_matches_calm(c.past().past(), found, j + 1, out, manifest);
            lemma_matches_calm(c.past().past(), found, j + 1, out.push(path), manifest);
        }
    }
}

/// Further answers change nothing in what has ended.
pub broadcast proof fn lemma_matches_kept(
    c: Cursor,
    found: Seq<Found>,
    j: int,
    out: Seq<Seq<char>>,
    manifest: Seq<char>,
    more: Seq<Answer>,
)
    ensures
        matches_step(c, found, j, out, manifest).kept(
            #[trigger] matches_step(c.with(more), found, j, out, manifest),
            more,
        ),
    decreases found.len() - j,
{
    broadcast use session::lemma_past_with;

    if j < found.len() {
        lemma_matches_kept(c.past(), found, j + 1, out, manifest, more);
        if let Found::Path(dir) = found[j] {
            let path = paths::joined_to(dir@, manifest, c.sep);
            lemma_matches_kept(c.past().past(), found, j + 1, out, manifest, more);
            lemma_matches_kept(c.past().past(), found, j + 1, out.push(path), manifest, more);
        }
    }
}

/// To look for the members of a workspace is harmless.
pub broadcast proof fn lemma_patterns_calm(
    c: Cursor,
    patterns: Seq<Seq<char>>,
    k: int,
    out: Seq<Seq<char>>,
    manifest: Seq<char>,
)
    ensures
        (#[trigger] patterns_step(c, patterns, k, out, manifest)).calm(),
    decreases patterns.len() - k,
{
    if k < patterns.len() {
        lemma_patterns_calm(c, patterns, k + 1, out, manifest);
        lemma_patterns_calm(c.past(), patterns, k + 1, out, manifest);
        lemma_patterns_calm(c.past().past(), patterns, k + 1, out, manifest);
        if let Answer::Matches(found) = c.answer() {
            lemma_matches_calm(c.past(), found@, 0, out, manifest);
            if let Next::Done(more, c2) = matches_step(c.past(), found@, 0, out, manifest) {
                lemma_patterns_calm(c2, patterns, k + 1, more, manifest);
            }
        }
    }
}

/// To look for the manifests of members leaves the answers as they are.
pub proof fn lemma_matches_answers(
    c: Cursor,
    found: Seq<Found>,
    j: int,
    out: Seq<Seq<char>>,
    manifest: Seq<char>,
)
    ensures
        matches_step(c, found, j, out, manifest) matches Next::Done(_, c2) ==> c2.answers
            == c.answers && c2.sep == c.sep,
    decreases found.len() - j,
{
    if j < found.len() {
        lemma_matches_answers(c.past(), found, j + 1, out, manifest);
        if let Found::Path(dir) = found[j] {
            let path = paths::joined_to(dir@, manifest, c.sep);
            lemma_matches_answers(c.past().past(), found, j + 1, out, manifest);
            lemma_matches_answers(c.past().past(), found, j + 1, out.push(path), manifest);
        }
    }
}

/// To look for the manifests of members leaves the answers as they are.
pub proof fn lemma_patterns_answers(
    c: Cursor,
    patterns: Seq<Seq<char>>,
    k: int,
    out: Seq<Seq<char>>,
    manifest: Seq<char>,
)
    ensures
        patterns_step(c, patterns, k, out, manifest) matches Next::Done(_, c2) ==> c2.answers
            == c.answers && c2.sep == c.sep,
    decreases patterns.len() - k,
{
    if k < patterns.len() {
        lemma_patterns_answers(c, patterns, k + 1, out, manifest);
        lemma_patterns_answers(c.past(), patterns, k + 1, out, manifest);
        lemma_patterns_answers(c.past().past(), patterns, k + 1, out, manifest);
        if let Answer::Matches(found) = c.answer() {
            lemma_matches_answers(c.past(), found@, 0, out, manifest);
            if let Next::Done(more, c2) = matches_step(c.past(), found@, 0, out, manifest) {
                lemma_patterns_answers(c2, patterns, k + 1, more, manifest);
            }
        }
    }
}

/// Further answers change nothing in what has ended.
pub broadcast proof fn lemma_patterns_kept(
    c: Cursor,
    patterns: Seq<Seq<char>>,
    k: int,
    out: Seq<Seq<char>>,
    manifest: Seq<char>,
    more: Seq<Answer>,
)
    ensures
        patterns_step(c, patterns, k, out, manifest).kept(
            #[trigger] patterns_step(c.with(more), patterns, k, out, manifest),
            more,
        ),
    decreases patterns.len() - k,
{
    broadcast use session::lemma_past_with;

    if k < patterns.len() {
        lemma_patterns_kept(c, patterns, k + 1, out, manifest, more);
        lemma_patterns_kept(c.past(), patterns, k + 1, out, manifest, more);
        lemma_patterns_kept(c.past().past(), patterns, k + 1, out, manifest, more);
        if let Answer::Matches(found) = c.answer() {
            lemma_matches_kept(c.past(), found@, 0, out, manifest, more);
            if let Next::Done(all, c2) = matches_step(c.past(), found@, 0, out, manifest) {
                lemma_patterns_kept(c2, patterns, k + 1, all, manifest, more);
            }
        }
    }
}

/// Two answers that mean the same to a search for members, which reads no
/// texts.
pub open spec fn alike(a: Answer, b: Answer) -> bool {
    a == b || (a is Text && b is Text)
}

/// Two cursors at the same place, with answers that mean the same.
pub open spec fn side_by_side(c: Cursor, d: Cursor) -> bool {
    &&& c.root == d.root
    &&& c.sep == d.sep
    &&& c.at == d.at
    &&& c.answers.len() == d.answers.len()
    &&& forall|i: int| c.at <= i < c.answers.len() ==> alike(#[trigger] c.answers[i], d.answers[i])
}

proof fn lemma_matches_alike(
    c: Cursor,
    d: Cursor,
    found: Seq<Found>,
    j: int,
    out: Seq<Seq<char>>,
    manifest: Seq<char>,
)
    requires
        side_by_side(c, d),
    ensures
        match matches_step(c, found, j, out, manifest) {
            Next::Done(all, c2) => matches_step(d, found, j, out, manifest) matches Next::Done(
                same,
                d2,
            ) && same == all && side_by_side(c2, d2) && c2.answers == c.answers && d2.answers
                == d.answers && c2.at >= c.at,
            Next::Ask(_) => true,
        },
    decreases found.len() - j,
{
    if j < found.len() && c.answered() {
        assert(alike(c.answers[c.at as int], d.answers[c.at as int]));
        assert(side_by_side(c.past(), d.past()));
        lemma_matches_alike(c.past(), d.past(), found, j + 1, out, manifest);
        if let Found::Path(dir) = found[j] {
            let path = paths::joined_to(dir@, manifest, c.sep);
            if c.past().answered() {
                let (c2, d2) = (c.past().past(), d.past().past());
                assert(alike(c.answers[c.at + 1 as int], d.answers[c.at + 1 as int]));
                assert(side_by_side(c2, d2));
                lemma_matches_alike(c2, d2, found, j + 1, out, manifest);
                lemma_matches_alike(c2, d2, found, j + 1, out.push(path), manifest);
            }
        }
    }
}

/// A search for members finds the same where the answers mean the same.
pub proof fn lemma_patterns_alike(
    c: Cursor,
    d: Cursor,
    patterns: Seq<Seq<char>>,
    k: int,
    out: Seq<Seq<char>>,
    manifest: Seq<char>,
)
    requires
        side_by_side(c, d),
    ensures
        match patterns_step(c, patterns, k, out, manifest) {
            Next::Done(all, c2) => patterns_step(d, patterns, k, out, manifest) matches Next::Done(
                same,
                d2,
            ) && same == all && side_by_side(c2, d2) && c2.answers == c.answers && d2.answers
                == d.answers && c2.at >= c.at,
            Next::Ask(_) => true,
        },
    decreases patterns.len() - k,
{
    if k < patterns.len() {
        lemma_patterns_alike(c, d, patterns, k + 1, out, manifest);
        if c.answered() {
            assert(alike(c.answers[c.at as int], d.answers[c.at as int]));
            assert(side_by_side(c.past(), d.past()));
            lemma_patterns_alike(c.past(), d.past(), patterns, k + 1, out, manifest);
            if c.past().answered() {
                let (c2, d2) = (c.past().past(), d.past().past());
                assert(alike(c.answers[c.at + 1 as int], d.answers[c.at + 1 as int]));
                assert(side_by_side(c2, d2));
                lemma_patterns_alike(c2, d2, patterns, k + 1, out, manifest);
            }
            if let Answer::Matches(found) = c.answer() {
                lemma_matches_alike(c.past(), d.past(), found@, 0, out, manifest);
                if let Next::Done(more, c2) = matches_step(c.past(), found@, 0, out, manifest) {
                    let d2 = matches_step(d.past(), found@, 0, out, manifest)->Done_1;
                    lemma_patterns_alike(c2, d2, patterns, k + 1, more, manifest);
                }
            }
        }
    }
}

/// The pattern is one that is left out with a warning.
pub open spec fn unsupported(pattern: Seq<char>) -> bool {
    pattern.len() > 0 && (pattern[0] == '!' || text::has(pattern, "**"@))
}

/// Members are listed in the order of the patterns and matches that found them
/// first: what has been found stays in its place.
pub proof fn law_members_keep_their_places(
    c: Cursor,
    patterns: Seq<Seq<char>>,
    k: int,
    out: Seq<Seq<char>>,
    manifest: Seq<char>,
)
    ensures
        patterns_step(c, patterns, k, out, manifest) matches Next::Done(Ok(all), _)
            ==> out.is_prefix_of(all),
    decreases patterns.len() - k,
{
    if k < patterns.len() {
        law_members_keep_their_places(c, patterns, k + 1, out, manifest);
        law_members_keep_their_places(c.past(), patterns, k + 1, out, manifest);
        law_members_keep_their_places(c.past().past(), patterns, k + 1, out, manifest);
        if let Answer::Matches(found) = c.answer() {
            lemma_matches_only_add(c.past(), found@, 0, out, manifest);
            if let Next::Done(more, c2) = matches_step(c.past(), found@, 0, out, manifest) {
                law_members_keep_their_places(c2, patterns, k + 1, more, manifest);
                if let Next::Done(Ok(all), _) = patterns_step(
                    c2,
                    patterns,
                    k + 1,
                    more,
                    manifest,
                ) {
                    lemma_prefix_trans(out, more, all);
                }
            }
        }
    }
}

proof fn lemma_prefix_trans(a: Seq<Seq<char>>, b: Seq<Seq<char>>, c: Seq<Seq<char>>)
    requires
        a.is_prefix_of(b),
        b.is_prefix_of(c),
    ensures
        a.is_prefix_of(c),
{
    assert(c.take(a.len() as int) =~= b.take(a.len() as int));
}

proof fn lemma_matches_only_add(
    c: Cursor,
    found: Seq<Found>,
    j: int,
    out: Seq<Seq<char>>,
    manifest: Seq<char>,
)
    ensures
        matches_step(c, found, j, out, manifest) matches Next::Done(all, _) ==> out.is_prefix_of(
            all,
        ),
    decreases found.len() - j,
{
    if j < found.len() {
        lemma_matches_only_add(c.past(), found, j + 1, out, manifest);
        if let Found::Path(dir) = found[j] {
            let path = paths::joined_to(dir@, manifest, c.sep);
            let c2 = c.past().past();
            lemma_matches_only_add(c2, found, j + 1, out, manifest);
            lemma_matches_only_add(c2, found, j + 1, out.push(path), manifest);
            if let Next::Done(all, _) = matches_step(c2, found, j + 1, out.push(path), manifest) {
                assert(out.is_prefix_of(out.push(path))) by {
                    assert(out.push(path).take(out.len() as int) =~= out);
                }
                lemma_prefix_trans(out, out.push(path), all);
            }
        }
    }
}

/// What is added is the manifest in a directory that was matched.
pub proof fn law_members_are_matches(
    c: Cursor,
    found: Seq<Found>,
    j: int,
    out: Seq<Seq<char>>,
    manifest: Seq<char>,
    path: Seq<char>,
)
    requires
        0 <= j,
    ensures
        matches_step(c, found, j, out, manifest) matches Next::Done(all, _) ==> (all.contains(path)
            ==> out.contains(path) || exists|i: int|
            j <= i < found.len() && (#[trigger] found[i] matches Found::Path(dir) && path
                == paths::joined_to(dir@, manifest, c.sep))),
    decreases found.len() - j,
{
    if j < found.len() {
        law_members_are_matches(c.past(), found, j + 1, out, manifest, path);
        if let Found::Path(dir) = found[j] {
            let added = paths::joined_to(dir@, manifest, c.sep);
            let c2 = c.past().past();
            law_members_are_matches(c2, found, j + 1, out, manifest, path);
            law_members_are_matches(c2, found, j + 1, out.push(added), manifest, path);
            if out.push(added).contains(path) && !paths::has_path(out, path, c.sep) {
                let i = choose|i: int|
                    0 <= i < out.push(added).len() && out.push(added)[i] == path;
                assert(i == out.len()) by {
                    if i < out.len() {
                        assert(out[i] == path);
                    }
                }
                assert(path == added);
            }
        }
    }
}

// ---------------------------------------------------------------------------
// The members that a host lets find
// ---------------------------------------------------------------------------

/// The manifest in a directory is one that the host affirms.
pub open spec fn affirmed(
    host: spec_fn(AskView) -> Answer,
    sep: char,
    dir: Seq<char>,
    manifest: Seq<char>,
) -> bool {
    session::says_yes(host(AskOf::IsDir(dir))) && session::says_yes(
        host(AskOf::IsFile(paths::joined_to(dir, manifest, sep))),
    )
}

/// The manifests found so far, with those of the matches from the one at `j`
/// on.
pub open spec fn with_matches(
    host: spec_fn(AskView) -> Answer,
    sep: char,
    found: Seq<Found>,
    j: int,
    out: Seq<Seq<char>>,
    manifest: Seq<char>,
) -> Seq<Seq<char>>
    decreases found.len() - j,
{
    if j >= found.len() {
        out
    } else {
        match found[j] {
            Found::Path(dir) => {
                let path = paths::joined_to(dir@, manifest, sep);
                with_matches(
                    host,
                    sep,
                    found,
                    j + 1,
                    if affirmed(host, sep, dir@, manifest) && !paths::has_path(out, path, sep) {
                        out.push(path)
                    } else {
                        out
                    },
                    manifest,
                )
            },
            Found::Failed(_) => with_matches(host, sep, found, j + 1, out, manifest),
        }
    }
}

/// The pattern is one that matches are asked for.
pub open spec fn searched(pattern: Seq<char>) -> bool {
    pattern.len() > 0 && !unsupported(pattern)
}

/// The manifests found so far, with those of the patterns from the one at `k`
/// on; `None` if there is a pattern that the host cannot work with.
pub open spec fn members_by(
    host: spec_fn(AskView) -> Answer,
    sep: char,
    patterns: Seq<Seq<char>>,
    k: int,
    out: Seq<Seq<char>>,
    manifest: Seq<char>,
) -> Option<Seq<Seq<char>>>
    decreases patterns.len() - k,
{
    if k >= patterns.len() {
        Some(out)
    } else {
        let pattern = text::trim_both(patterns[k]);
        if !searched(pattern) {
            members_by(host, sep, patterns, k + 1, out, manifest)
        } else {
            match host(AskOf::Glob(pattern)) {
                Answer::Matches(found) => members_by(
                    host,
                    sep,
                    patterns,
                    k + 1,
                    with_matches(host, sep, found@, 0, out, manifest),
                    manifest,
                ),
                Answer::BadPattern(_) => members_by(host, sep, patterns, k + 1, out, manifest),
                _ => None,
            }
        }
    }
}

/// Look through the patterns, then go on with what they give.
pub open spec fn patterns_flow<T>(
    patterns: Seq<Seq<char>>,
    k: int,
    out: Seq<Seq<char>>,
    manifest: Seq<char>,
    then_do: spec_fn(Seq<Seq<char>>, Cursor) -> Next<Result<T, ErrorView>>,
) -> spec_fn(Cursor) -> Next<Result<T, ErrorView>> {
    |c: Cursor| patterns_step(c, patterns, k, out, manifest).and_ok(then_do)
}

/// Look through matches, then through the patterns behind the one at `k`.
spec fn matches_flow<T>(
    patterns: Seq<Seq<char>>,
    k: int,
    found: Seq<Found>,
    j: int,
    out: Seq<Seq<char>>,
    manifest: Seq<char>,
    then_do: spec_fn(Seq<Seq<char>>, Cursor) -> Next<Result<T, ErrorView>>,
) -> spec_fn(Cursor) -> Next<Result<T, ErrorView>> {
    |c: Cursor|
        matches_step(c, found, j, out, manifest).and(
            |more: Seq<Seq<char>>, c: Cursor| patterns_step(c, patterns, k + 1, more, manifest),
        ).and_ok(then_do)
}

/// Warn, then look through the patterns behind the one at `k`.
spec fn warning_flow<T>(
    line: Seq<char>,
    patterns: Seq<Seq<char>>,
    k: int,
    out: Seq<Seq<char>>,
    manifest: Seq<char>,
    then_do: spec_fn(Seq<Seq<char>>, Cursor) -> Next<Result<T, ErrorView>>,
) -> spec_fn(Cursor) -> Next<Result<T, ErrorView>> {
    |c: Cursor|
        c.warn(line).and(
            |u: (), c: Cursor| patterns_step(c, patterns, k + 1, out, manifest),
        ).and_ok(then_do)
}

/// Ask for the file at `path`, then look through the matches behind the one at
/// `j`.
spec fn file_flow<T>(
    path: Seq<char>,
    patterns: Seq<Seq<char>>,
    k: int,
    found: Seq<Found>,
    j: int,
    out: Seq<Seq<char>>,
    manifest: Seq<char>,
    then_do: spec_fn(Seq<Seq<char>>, Cursor) -> Next<Result<T, ErrorView>>,
) -> spec_fn(Cursor) -> Next<Result<T, ErrorView>> {
    |c: Cursor|
        c.is_file(path).and(
            |is_file: bool, c: Cursor|
                matches_step(
                    c,
                    found,
                    j + 1,
                    if is_file && !paths::has_path(out, path, c.sep) {
                        out.push(path)
                    } else {
                        out
                    },
                    manifest,
                ),
        ).and(
            |more: Seq<Seq<char>>, c: Cursor| patterns_step(c, patterns, k + 1, more, manifest),
        ).and_ok(then_do)
}

/// A conversation about patterns comes to what the host lets find, or ends with
/// an error.
pub proof fn lemma_patterns_talk<T>(
    c: Cursor,
    host: spec_fn(AskView) -> Answer,
    patterns: Seq<Seq<char>>,
    k: int,
    out: Seq<Seq<char>>,
    manifest: Seq<char>,
    then_do: spec_fn(Seq<Seq<char>>, Cursor) -> Next<Result<T, ErrorView>>,
) -> (r: (Cursor, ErrorView))
    requires
        0 <= k,
        conversation::waiting(c),
    ensures
        conversation::waiting(r.0),
        r.0.sep == c.sep,
        conversation::reaches(
            patterns_flow(patterns, k, out, manifest, then_do),
            c,
            conversation::onward(
                then_do,
                members_by(host, c.sep, patterns, k, out, manifest),
                r.1,
            ),
            r.0,
            host,
        ),
    decreases patterns.len() - k, 1int, 0int,
{
    let f = patterns_flow(patterns, k, out, manifest, then_do);
    if k >= patterns.len() {
        let e = ErrorOf::Absent(Seq::empty());
        conversation::lemma_same(f, conversation::onward(then_do, Some(out), e), c, host);
        (c, e)
    } else {
        let pattern = text::trim_both(patterns[k]);
        let next = patterns_flow(patterns, k + 1, out, manifest, then_do);
        if pattern.len() == 0 {
            conversation::lemma_same(f, next, c, host);
            let (d, e) = lemma_patterns_talk(c, host, patterns, k + 1, out, manifest, then_do);
            let all = members_by(host, c.sep, patterns, k, out, manifest);
            let end = conversation::onward(then_do, all, e);
            conversation::lemma_reaches_on(f, c, next, c, end, d, host);
            (d, e)
        } else if unsupported(pattern) {
            let line = if pattern[0] == '!' {
                negated_warning(pattern)
            } else {
                recursive_warning(pattern)
            };
            let q: AskView = AskOf::Warn(line);
            let c2 = conversation::told(c, host(q));
            conversation::lemma_told(c, host(q));
            conversation::lemma_asks(f, next, c, host, q);
            let (d, e) = lemma_patterns_talk(c2, host, patterns, k + 1, out, manifest, then_do);
            let all = members_by(host, c.sep, patterns, k, out, manifest);
            let end = conversation::onward(then_do, all, e);
            conversation::lemma_reaches_on(f, c, next, c2, end, d, host);
            (d, e)
        } else {
            let q: AskView = AskOf::Glob(pattern);
            let a = host(q);
            let c2 = conversation::told(c, a);
            conversation::lemma_told(c, a);
            match a {
                Answer::Matches(found) => {
                    let g = matches_flow(patterns, k, found@, 0, out, manifest, then_do);
                    conversation::lemma_asks(f, g, c, host, q);
                    let (d, e) = lemma_matches_talk(
                        c2,
                        host,
                        patterns,
                        k,
                        found@,
                        0,
                        out,
                        manifest,
                        then_do,
                    );
                    let all = members_by(host, c.sep, patterns, k, out, manifest);
                    let end = conversation::onward(then_do, all, e);
                    conversation::lemma_reaches_on(f, c, g, c2, end, d, host);
                    (d, e)
                },
                Answer::BadPattern(why) => {
                    let line = invalid_warning(pattern, why@);
                    let g = warning_flow(line, patterns, k, out, manifest, then_do);
                    conversation::lemma_asks(f, g, c, host, q);
                    let r: AskView = AskOf::Warn(line);
                    let c3 = conversation::told(c2, host(r));
                    conversation::lemma_told(c2, host(r));
                    conversation::lemma_asks(g, next, c2, host, r);
                    let (d, e) = lemma_patterns_talk(
                        c3,
                        host,
                        patterns,
                        k + 1,
                        out,
                        manifest,
                        then_do,
                    );
                    let all = members_by(host, c.sep, patterns, k, out, manifest);
                    let end = conversation::onward(then_do, all, e);
                    conversation::lemma_reaches_on(g, c2, next, c3, end, d, host);
                    conversation::lemma_reaches_on(f, c, g, c2, end, d, host);
                    (d, e)
                },
                _ => {
                    let e = ErrorOf::OddPattern(c.shown(pattern));
                    let none = None::<Seq<Seq<char>>>;
                    conversation::lemma_asks(
                        f,
                        conversation::onward(then_do, none, e),
                        c,
                        host,
                        q,
                    );
                    (c2, e)
                },
            }
        }
    }
}

proof fn lemma_matches_talk<T>(
    c: Cursor,
    host: spec_fn(AskView) -> Answer,
    patterns: Seq<Seq<char>>,
    k: int,
    found: Seq<Found>,
    j: int,
    out: Seq<Seq<char>>,
    manifest: Seq<char>,
    then_do: spec_fn(Seq<Seq<char>>, Cursor) -> Next<Result<T, ErrorView>>,
) -> (r: (Cursor, ErrorView))
    requires
        0 <= k < patterns.len(),
        0 <= j,
        conversation::waiting(c),
    ensures
        conversation::waiting(r.0),
        r.0.sep == c.sep,
        conversation::reaches(
            matches_flow(patterns, k, found, j, out, manifest, then_do),
            c,
            conversation::onward(
                then_do,
                members_by(
                    host,
                    c.sep,
                    patterns,
                    k + 1,
                    with_matches(host, c.sep, found, j, out, manifest),
                    manifest,
                ),
                r.1,
            ),
            r.0,
            host,
        ),
    decreases patterns.len() - k, 0int, found.len() - j,
{
    let f = matches_flow(patterns, k, found, j, out, manifest, then_do);
    if j >= found.len() {
        let next = patterns_flow(patterns, k + 1, out, manifest, then_do);
        conversation::lemma_same(f, next, c, host);
        let (d, e) = lemma_patterns_talk(c, host, patterns, k + 1, out, manifest, then_do);
        let all = members_by(host, c.sep, patterns, k + 1, out, manifest);
        let end = conversation::onward(then_do, all, e);
        conversation::lemma_reaches_on(f, c, next, c, end, d, host);
        (d, e)
    } else {
        match found[j] {
            Found::Failed(why) => {
                let q: AskView = AskOf::Warn(entry_warning(why@));
                let c2 = conversation::told(c, host(q));
                let next = matches_flow(patterns, k, found, j + 1, out, manifest, then_do);
                conversation::lemma_told(c, host(q));
                conversation::lemma_asks(f, next, c, host, q);
                let (d, e) = lemma_matches_talk(
                    c2,
                    host,
                    patterns,
                    k,
                    found,
                    j + 1,
                    out,
                    manifest,
                    then_do,
                );
                let all = members_by(
                    host,
                    c.sep,
                    patterns,
                    k + 1,
                    with_matches(host, c.sep, found, j, out, manifest),
                    manifest,
                );
                let end = conversation::onward(then_do, all, e);
                conversation::lemma_reaches_on(f, c, next, c2, end, d, host);
                (d, e)
            },
            Found::Path(dir) => {
                let path = paths::joined_to(dir@, manifest, c.sep);
                let q: AskView = AskOf::IsDir(dir@);
                let c2 = conversation::told(c, host(q));
                conversation::lemma_told(c, host(q));
                let all = members_by(
                    host,
                    c.sep,
                    patterns,
                    k + 1,
                    with_matches(host, c.sep, found, j, out, manifest),
                    manifest,
                );
                if session::says_yes(host(q)) {
                    let g = file_flow(path, patterns, k, found, j, out, manifest, then_do);
                    conversation::lemma_asks(f, g, c, host, q);
                    let r: AskView = AskOf::IsFile(path);
                    let c3 = conversation::told(c2, host(r));
                    conversation::lemma_told(c2, host(r));
                    let longer = if session::says_yes(host(r)) && !paths::has_path(
                        out,
                        path,
                        c.sep,
                    ) {
                        out.push(path)
                    } else {
                        out
                    };
                    let next = matches_flow(patterns, k, found, j + 1, longer, manifest, then_do);
                    conversation::lemma_asks(g, next, c2, host, r);
                    let (d, e) = lemma_matches_talk(
                        c3,
                        host,
                        patterns,
                        k,
                        found,
                        j + 1,
                        longer,
                        manifest,
                        then_do,
                    );
                    let end = conversation::onward(then_do, all, e);
                    conversation::lemma_reaches_on(g, c2, next, c3, end, d, host);
                    conversation::lemma_reaches_on(f, c, g, c2, end, d, host);
                    (d, e)
                } else {
                    let next = matches_flow(patterns, k, found, j + 1, out, manifest, then_do);
                    conversation::lemma_asks(f, next, c, host, q);
                    let (d, e) = lemma_matches_talk(
                        c2,
                        host,
                        patterns,
                        k,
                        found,
                        j + 1,
                        out,
                        manifest,
                        then_do,
                    );
                    let end = conversation::onward(then_do, all, e);
                    conversation::lemma_reaches_on(f, c, next, c2, end, d, host);
                    (d, e)
                }
            },
        }
    }
}

/// Each of the patterns is blank, unsupported or, but for white space, one of
/// those before.
pub open spec fn nothing_new(patterns: Seq<Seq<char>>, extra: Seq<Seq<char>>) -> bool {
    forall|i: int|
        0 <= i < extra.len() ==> (searched(text::trim_both(#[trigger] extra[i]))
            ==> repeats(patterns, text::trim_both(extra[i])))
}

/// The pattern is, but for white space, one of these.
pub open spec fn repeats(patterns: Seq<Seq<char>>, pattern: Seq<char>) -> bool {
    exists|j: int| 0 <= j < patterns.len() && text::trim_both(#[trigger] patterns[j]) == pattern
}

/// All manifests that the pattern gives are in the list.
spec fn covered(
    host: spec_fn(AskView) -> Answer,
    sep: char,
    pattern: Seq<char>,
    out: Seq<Seq<char>>,
    manifest: Seq<char>,
) -> bool {
    match host(AskOf::Glob(pattern)) {
        Answer::Matches(found) => all_in(host, sep, found@, 0, out, manifest),
        Answer::BadPattern(_) => true,
        _ => false,
    }
}

spec fn all_in(
    host: spec_fn(AskView) -> Answer,
    sep: char,
    found: Seq<Found>,
    j: int,
    out: Seq<Seq<char>>,
    manifest: Seq<char>,
) -> bool {
    forall|i: int|
        j <= i < found.len() ==> (#[trigger] found[i] matches Found::Path(dir) ==> (affirmed(
            host,
            sep,
            dir@,
            manifest,
        ) ==> paths::has_path(out, paths::joined_to(dir@, manifest, sep), sep)))
}

proof fn lemma_with_matches(
    host: spec_fn(AskView) -> Answer,
    sep: char,
    found: Seq<Found>,
    j: int,
    out: Seq<Seq<char>>,
    manifest: Seq<char>,
)
    requires
        0 <= j,
    ensures
        forall|x: Seq<char>|
            paths::has_path(out, x, sep) ==> #[trigger] paths::has_path(
                with_matches(host, sep, found, j, out, manifest),
                x,
                sep,
            ),
        all_in(host, sep, found, j, with_matches(host, sep, found, j, out, manifest), manifest),
        all_in(host, sep, found, j, out, manifest) ==> with_matches(
            host,
            sep,
            found,
            j,
            out,
            manifest,
        ) == out,
    decreases found.len() - j,
{
    if j < found.len() {
        if let Found::Path(dir) = found[j] {
            let path = paths::joined_to(dir@, manifest, sep);
            let next = if affirmed(host, sep, dir@, manifest) && !paths::has_path(out, path, sep) {
                out.push(path)
            } else {
                out
            };
            lemma_with_matches(host, sep, found, j + 1, next, manifest);
            assert forall|x: Seq<char>| paths::has_path(out, x, sep) implies #[trigger]
                paths::has_path(next, x, sep) by {
                let i = choose|i: int|
                    0 <= i < out.len() && paths::same_path(#[trigger] out[i], x, sep);
                assert(next[i] == out[i]);
            }
            if affirmed(host, sep, dir@, manifest) {
                assert(paths::has_path(next, path, sep)) by {
                    if !paths::has_path(out, path, sep) {
                        assert(next[out.len() as int] == path);
                    }
                }
            }
        } else {
            lemma_with_matches(host, sep, found, j + 1, out, manifest);
        }
    }
}

/// What has been found stays found, and what a pattern gives is found.
proof fn lemma_members_by(
    host: spec_fn(AskView) -> Answer,
    sep: char,
    patterns: Seq<Seq<char>>,
    k: int,
    out: Seq<Seq<char>>,
    manifest: Seq<char>,
)
    requires
        0 <= k,
    ensures
        members_by(host, sep, patterns, k, out, manifest) matches Some(all) ==> {
            &&& forall|x: Seq<char>|
                paths::has_path(out, x, sep) ==> #[trigger] paths::has_path(all, x, sep)
            &&& forall|j: int|
                k <= j < patterns.len() && searched(text::trim_both(#[trigger] patterns[j]))
                    ==> covered(host, sep, text::trim_both(patterns[j]), all, manifest)
        },
    decreases patterns.len() - k,
{
    if k < patterns.len() {
        let pattern = text::trim_both(patterns[k]);
        if searched(pattern) {
            if let Answer::Matches(found) = host(AskOf::Glob(pattern)) {
                let more = with_matches(host, sep, found@, 0, out, manifest);
                lemma_with_matches(host, sep, found@, 0, out, manifest);
                lemma_members_by(host, sep, patterns, k + 1, more, manifest);
                if let Some(all) = members_by(host, sep, patterns, k, out, manifest) {
                    assert(covered(host, sep, pattern, all, manifest));
                }
            } else {
                lemma_members_by(host, sep, patterns, k + 1, out, manifest);
            }
        } else {
            lemma_members_by(host, sep, patterns, k + 1, out, manifest);
        }
    }
}

proof fn lemma_split(
    host: spec_fn(AskView) -> Answer,
    sep: char,
    patterns: Seq<Seq<char>>,
    extra: Seq<Seq<char>>,
    k: int,
    out: Seq<Seq<char>>,
    manifest: Seq<char>,
)
    requires
        0 <= k <= patterns.len(),
    ensures
        members_by(host, sep, patterns + extra, k, out, manifest) == (match members_by(
            host,
            sep,
            patterns,
            k,
            out,
            manifest,
        ) {
            Some(all) => members_by(
                host,
                sep,
                patterns + extra,
                patterns.len() as int,
                all,
                manifest,
            ),
            None => None,
        }),
    decreases patterns.len() - k,
{
    if k < patterns.len() {
        assert((patterns + extra)[k] == patterns[k]);
        lemma_split(host, sep, patterns, extra, k + 1, out, manifest);
        if let Answer::Matches(found) = host(AskOf::Glob(text::trim_both(patterns[k]))) {
            let more = with_matches(host, sep, found@, 0, out, manifest);
            lemma_split(host, sep, patterns, extra, k + 1, more, manifest);
        }
    }
}

proof fn lemma_nothing_added(
    host: spec_fn(AskView) -> Answer,
    sep: char,
    patterns: Seq<Seq<char>>,
    extra: Seq<Seq<char>>,
    i: int,
    out: Seq<Seq<char>>,
    manifest: Seq<char>,
)
    requires
        0 <= i <= extra.len(),
        nothing_new(patterns, extra),
        forall|j: int|
            0 <= j < patterns.len() && searched(text::trim_both(#[trigger] patterns[j]))
                ==> covered(host, sep, text::trim_both(patterns[j]), out, manifest),
    ensures
        members_by(host, sep, patterns + extra, patterns.len() + i, out, manifest) == Some(out),
    decreases extra.len() - i,
{
    if i < extra.len() {
        let pattern = text::trim_both(extra[i]);
        assert((patterns + extra)[patterns.len() + i] == extra[i]);
        if searched(pattern) {
            assert(repeats(patterns, pattern));
            let j = choose|j: int|
                0 <= j < patterns.len() && text::trim_both(#[trigger] patterns[j]) == pattern;
            assert(covered(host, sep, text::trim_both(patterns[j]), out, manifest));
            if let Answer::Matches(found) = host(AskOf::Glob(pattern)) {
                lemma_with_matches(host, sep, found@, 0, out, manifest);
            }
        }
        lemma_nothing_added(host, sep, patterns, extra, i + 1, out, manifest);
    }
}

proof fn lemma_with_matches_same(
    a: spec_fn(AskView) -> Answer,
    b: spec_fn(AskView) -> Answer,
    sep: char,
    found: Seq<Found>,
    j: int,
    out: Seq<Seq<char>>,
    manifest: Seq<char>,
)
    requires
        memory::same_tree(a, b),
    ensures
        with_matches(a, sep, found, j, out, manifest) == with_matches(
            b,
            sep,
            found,
            j,
            out,
            manifest,
        ),
    decreases found.len() - j,
{
    if j < found.len() {
        if let Found::Path(dir) = found[j] {
            let path = paths::joined_to(dir@, manifest, sep);
            assert(a(AskOf::IsDir(dir@)) == b(AskOf::IsDir(dir@)));
            assert(a(AskOf::IsFile(path)) == b(AskOf::IsFile(path)));
            lemma_with_matches_same(a, b, sep, found, j + 1, out.push(path), manifest);
        }
        lemma_with_matches_same(a, b, sep, found, j + 1, out, manifest);
    }
}

/// The members do not depend on what is in the files.
pub proof fn lemma_members_same(
    a: spec_fn(AskView) -> Answer,
    b: spec_fn(AskView) -> Answer,
    sep: char,
    patterns: Seq<Seq<char>>,
    k: int,
    out: Seq<Seq<char>>,
    manifest: Seq<char>,
)
    requires
        memory::same_tree(a, b),
    ensures
        members_by(a, sep, patterns, k, out, manifest) == members_by(
            b,
            sep,
            patterns,
            k,
            out,
            manifest,
        ),
    decreases patterns.len() - k,
{
    if k < patterns.len() {
        let q: AskView = AskOf::Glob(text::trim_both(patterns[k]));
        assert(a(q) == b(q));
        lemma_members_same(a, b, sep, patterns, k + 1, out, manifest);
        if let Answer::Matches(found) = a(q) {
            let more = with_matches(a, sep, found@, 0, out, manifest);
            lemma_with_matches_same(a, b, sep, found@, 0, out, manifest);
            lemma_members_same(a, b, sep, patterns, k + 1, more, manifest);
        }
    }
}

/// The search for members, on its own.
pub open spec fn children_flow(patterns: Seq<Seq<char>>, manifest: Seq<char>) -> spec_fn(
    Cursor,
) -> Next<Result<Seq<Seq<char>>, ErrorView>> {
    |c: Cursor| children_step(c, patterns, manifest)
}

/// Further patterns that are blank, unsupported or repeated change nothing:
/// where a search ends well, the one with them ends too, and from one and the
/// same host the same members come in the same order.
pub proof fn law_further_patterns_change_nothing(
    c: Cursor,
    host: spec_fn(AskView) -> Answer,
    patterns: Seq<Seq<char>>,
    extra: Seq<Seq<char>>,
    manifest: Seq<char>,
    n: nat,
)
    requires
        conversation::waiting(c),
        nothing_new(patterns, extra),
        conversation::stands(children_flow(patterns, manifest), c, host, n) matches Next::Done(
            Ok(_),
            _,
        ),
    ensures
        ({
            let all = conversation::stands(children_flow(patterns, manifest), c, host, n)->Done_0;
            let longer = children_flow(patterns + extra, manifest);
            &&& exists|m: nat| #[trigger] conversation::stands(longer, c, host, m) is Done
            &&& forall|m: nat|
                (#[trigger] conversation::stands(longer, c, host, m)) is Done
                    ==> conversation::stands(longer, c, host, m)->Done_0 == all
        }),
{
    let longer = children_flow(patterns + extra, manifest);
    lemma_children_talk(c, host, patterns, manifest, n);
    lemma_split(host, c.sep, patterns, extra, 0, Seq::empty(), manifest);
    lemma_members_by(host, c.sep, patterns, 0, Seq::empty(), manifest);
    let all = members_by(host, c.sep, patterns, 0, Seq::empty(), manifest)->0;
    lemma_nothing_added(host, c.sep, patterns, extra, 0, all, manifest);
    lemma_children_end(c, host, patterns + extra, manifest);
    assert forall|m: nat| (#[trigger] conversation::stands(longer, c, host, m)) is Done implies
        conversation::stands(longer, c, host, m)->Done_0 == Ok::<_, ErrorView>(all) by {
        lemma_children_talk(c, host, patterns + extra, manifest, m);
    }
}

/// A search for members ends with what the host lets find.
pub proof fn lemma_children_flow(
    c: Cursor,
    host: spec_fn(AskView) -> Answer,
    patterns: Seq<Seq<char>>,
    manifest: Seq<char>,
) -> (r: (Cursor, ErrorView))
    requires
        conversation::waiting(c),
    ensures
        conversation::waiting(r.0),
        r.0.sep == c.sep,
        conversation::reaches(
            children_flow(patterns, manifest),
            c,
            conversation::settled(
                members_by(host, c.sep, patterns, 0, Seq::empty(), manifest),
                r.1,
            ),
            r.0,
            host,
        ),
{
    let f = children_flow(patterns, manifest);
    let end = |all: Seq<Seq<char>>, c: Cursor| Next::Done(Ok::<_, ErrorView>(all), c);
    let g = patterns_flow(patterns, 0, Seq::empty(), manifest, end);
    conversation::lemma_same(f, g, c, host);
    let (d, e) = lemma_patterns_talk(c, host, patterns, 0, Seq::empty(), manifest, end);
    let all = members_by(host, c.sep, patterns, 0, Seq::empty(), manifest);
    let h = conversation::onward(end, all, e);
    conversation::lemma_reaches_on(f, c, g, c, h, d, host);
    conversation::lemma_same(h, conversation::settled(all, e), d, host);
    conversation::lemma_reaches_on(f, c, h, d, conversation::settled(all, e), d, host);
    (d, e)
}

/// A search for members ends.
proof fn lemma_children_end(
    c: Cursor,
    host: spec_fn(AskView) -> Answer,
    patterns: Seq<Seq<char>>,
    manifest: Seq<char>,
)
    requires
        conversation::waiting(c),
    ensures
        exists|m: nat| #[trigger]
            conversation::stands(children_flow(patterns, manifest), c, host, m) is Done,
{
    let f = children_flow(patterns, manifest);
    let (d, e) = lemma_children_flow(c, host, patterns, manifest);
    let all = members_by(host, c.sep, patterns, 0, Seq::empty(), manifest);
    let m = conversation::lemma_will_end(f, c, conversation::settled(all, e), d, host);
    assert(conversation::stands(f, c, host, m) is Done);
}

/// A search for members that has ended has found what the host lets find.
proof fn lemma_children_talk(
    c: Cursor,
    host: spec_fn(AskView) -> Answer,
    patterns: Seq<Seq<char>>,
    manifest: Seq<char>,
    n: nat,
) -> (e: ErrorView)
    requires
        conversation::waiting(c),
        conversation::stands(children_flow(patterns, manifest), c, host, n) is Done,
    ensures
        conversation::stands(children_flow(patterns, manifest), c, host, n)->Done_0 == (
        match members_by(host, c.sep, patterns, 0, Seq::empty(), manifest) {
            Some(all) => Ok(all),
            None => Err(e),
        }),
{
    let f = children_flow(patterns, manifest);
    let (d, e) = lemma_children_flow(c, host, patterns, manifest);
    let all = members_by(host, c.sep, patterns, 0, Seq::empty(), manifest);
    let g = conversation::settled(all, e);
    let m = conversation::lemma_came_through(f, c, g, d, host, n);
    conversation::lemma_silent(g, d, host, m);
    e
}

/// The manifest at `path` is one that a pattern leads to: the host has matched
/// the pattern with a directory that holds it.
pub open spec fn is_led_to(
    host: spec_fn(AskView) -> Answer,
    sep: char,
    pattern: Seq<char>,
    manifest: Seq<char>,
    path: Seq<char>,
) -> bool {
    let glob = text::trim_both(pattern);
    &&& glob.len() > 0
    &&& glob[0] != '!'
    &&& !text::has(glob, "**"@)
    &&& host(AskOf::Glob(glob)) matches Answer::Matches(found) && exists|i: int|
        0 <= i < found@.len() && is_manifest_in(host, sep, #[trigger] found@[i], manifest, path)
}

/// The match is a directory that holds the manifest at `path`.
pub open spec fn is_manifest_in(
    host: spec_fn(AskView) -> Answer,
    sep: char,
    found: Found,
    manifest: Seq<char>,
    path: Seq<char>,
) -> bool {
    found matches Found::Path(dir) && path == paths::joined_to(dir@, manifest, sep) && host(
        AskOf::IsDir(dir@),
    ) is Yes && host(AskOf::IsFile(path)) is Yes
}

proof fn lemma_matches_come_from(
    host: spec_fn(AskView) -> Answer,
    sep: char,
    found: Seq<Found>,
    j: int,
    out: Seq<Seq<char>>,
    manifest: Seq<char>,
)
    requires
        0 <= j,
        no_path_twice(out, sep),
    ensures
        ({
            let all = with_matches(host, sep, found, j, out, manifest);
            &&& no_path_twice(all, sep)
            &&& forall|x: int|
                0 <= x < all.len() ==> out.contains(#[trigger] all[x]) || exists|i: int|
                    j <= i < found.len() && is_manifest_in(
                        host,
                        sep,
                        #[trigger] found[i],
                        manifest,
                        all[x],
                    )
        }),
    decreases found.len() - j,
{
    let all = with_matches(host, sep, found, j, out, manifest);
    if j >= found.len() {
        assert forall|x: int| 0 <= x < all.len() implies out.contains(#[trigger] all[x]) by {
            assert(out[x] == all[x]);
        }
    } else {
        let next = match found[j] {
            Found::Path(dir) => {
                let path = paths::joined_to(dir@, manifest, sep);
                if affirmed(host, sep, dir@, manifest) && !paths::has_path(out, path, sep) {
                    out.push(path)
                } else {
                    out
                }
            },
            Found::Failed(_) => out,
        };
        lemma_matches_come_from(host, sep, found, j + 1, next, manifest);
        assert forall|x: int| 0 <= x < all.len() implies out.contains(#[trigger] all[x])
            || exists|i: int|
            j <= i < found.len() && is_manifest_in(
                host,
                sep,
                #[trigger] found[i],
                manifest,
                all[x],
            ) by {
            if next.contains(all[x]) {
                let k = choose|k: int| 0 <= k < next.len() && next[k] == all[x];
                if k < out.len() {
                    assert(out[k] == all[x]);
                } else {
                    assert(is_manifest_in(host, sep, found[j], manifest, all[x]));
                }
            } else {
                let i = choose|i: int|
                    j + 1 <= i < found.len() && is_manifest_in(
                        host,
                        sep,
                        #[trigger] found[i],
                        manifest,
                        all[x],
                    );
                assert(is_manifest_in(host, sep, found[i], manifest, all[x]));
            }
        }
    }
}

proof fn lemma_members_come_from(
    host: spec_fn(AskView) -> Answer,
    sep: char,
    patterns: Seq<Seq<char>>,
    k: int,
    out: Seq<Seq<char>>,
    manifest: Seq<char>,
)
    requires
        0 <= k,
        no_path_twice(out, sep),
    ensures
        members_by(host, sep, patterns, k, out, manifest) matches Some(all) ==> {
            &&& no_path_twice(all, sep)
            &&& forall|x: int|
                0 <= x < all.len() ==> out.contains(#[trigger] all[x]) || exists|i: int|
                    k <= i < patterns.len() && is_led_to(
                        host,
                        sep,
                        #[trigger] patterns[i],
                        manifest,
                        all[x],
                    )
        },
    decreases patterns.len() - k,
{
    if k >= patterns.len() {
        assert forall|x: int| 0 <= x < out.len() implies out.contains(#[trigger] out[x]) by {}
    } else {
        let pattern = text::trim_both(patterns[k]);
        let next = if searched(pattern) {
            match host(AskOf::Glob(pattern)) {
                Answer::Matches(found) => with_matches(host, sep, found@, 0, out, manifest),
                _ => out,
            }
        } else {
            out
        };
        if searched(pattern) {
            if let Answer::Matches(found) = host(AskOf::Glob(pattern)) {
                lemma_matches_come_from(host, sep, found@, 0, out, manifest);
            }
        }
        lemma_members_come_from(host, sep, patterns, k + 1, next, manifest);
        if let Some(all) = members_by(host, sep, patterns, k, out, manifest) {
            assert forall|x: int| 0 <= x < all.len() implies out.contains(#[trigger] all[x])
                || exists|i: int|
                k <= i < patterns.len() && is_led_to(
                    host,
                    sep,
                    #[trigger] patterns[i],
                    manifest,
                    all[x],
                ) by {
                if next.contains(all[x]) {
                    let y = choose|y: int| 0 <= y < next.len() && next[y] == all[x];
                    assert(out.contains(next[y]) || is_led_to(
                        host,
                        sep,
                        patterns[k],
                        manifest,
                        next[y],
                    ));
                } else {
                    let i = choose|i: int|
                        k + 1 <= i < patterns.len() && is_led_to(
                            host,
                            sep,
                            #[trigger] patterns[i],
                            manifest,
                            all[x],
                        );
                    assert(is_led_to(host, sep, patterns[i], manifest, all[x]));
                }
            }
        }
    }
}

/// The search for members finds every manifest that a pattern leads to, and
/// nothing else, and no path twice. Patterns with a `!` in front or with `**` in
/// them lead nowhere.
pub proof fn law_search_finds_what_is_led_to(
    c: Cursor,
    host: spec_fn(AskView) -> Answer,
    patterns: Seq<Seq<char>>,
    manifest: Seq<char>,
    n: nat,
)
    requires
        conversation::waiting(c),
        conversation::stands(children_flow(patterns, manifest), c, host, n) matches Next::Done(
            Ok(_),
            _,
        ),
    ensures
        ({
            let all = conversation::stands(
                children_flow(patterns, manifest),
                c,
                host,
                n,
            )->Done_0->Ok_0;
            &&& members_by(host, c.sep, patterns, 0, Seq::empty(), manifest) == Some(all)
            &&& no_path_twice(all, c.sep)
            &&& forall|x: int|
                0 <= x < all.len() ==> exists|i: int|
                    0 <= i < patterns.len() && is_led_to(
                        host,
                        c.sep,
                        #[trigger] patterns[i],
                        manifest,
                        #[trigger] all[x],
                    )
            &&& forall|i: int, path: Seq<char>|
                0 <= i < patterns.len() && #[trigger] is_led_to(
                    host,
                    c.sep,
                    patterns[i],
                    manifest,
                    path,
                ) ==> paths::has_path(all, path, c.sep)
        }),
{
    let none = Seq::<Seq<char>>::empty();
    lemma_children_talk(c, host, patterns, manifest, n);
    lemma_members_come_from(host, c.sep, patterns, 0, none, manifest);
    lemma_members_by(host, c.sep, patterns, 0, none, manifest);
    let all = members_by(host, c.sep, patterns, 0, none, manifest)->0;
    assert forall|x: int| 0 <= x < all.len() implies exists|i: int|
        0 <= i < patterns.len() && is_led_to(
            host,
            c.sep,
            #[trigger] patterns[i],
            manifest,
            #[trigger] all[x],
        ) by {
        assert(!none.contains(all[x]));
        let i = choose|i: int|
            0 <= i < patterns.len() && is_led_to(
                host,
                c.sep,
                #[trigger] patterns[i],
                manifest,
                all[x],
            );
        assert(is_led_to(host, c.sep, patterns[i], manifest, all[x]));
    }
    assert forall|i: int, path: Seq<char>|
        0 <= i < patterns.len() && #[trigger] is_led_to(
            host,
            c.sep,
            patterns[i],
            manifest,
            path,
        ) implies paths::has_path(all, path, c.sep) by {
        let glob = text::trim_both(patterns[i]);
        assert(searched(glob));
        assert(covered(host, c.sep, glob, all, manifest));
        if let Answer::Matches(found) = host(AskOf::Glob(glob)) {
            let k = choose|k: int|
                0 <= k < found@.len() && is_manifest_in(
                    host,
                    c.sep,
                    #[trigger] found@[k],
                    manifest,
                    path,
                );
            assert(found@[k] is Path);
        }
    }
}

fn add_matches(
    s: &mut Session<'_>,
    found: &Vec<Found>,
    out: Vec<String>,
    manifest: &str,
) -> (r: Step<Vec<String>>)
    ensures
        session::step(r, final(s)@) == matches_step(
            old(s)@,
            found@,
            0,
            out.deep_view(),
            manifest@,
        ),
{
    let ghost whole = matches_step(s@, found@, 0, out.deep_view(), manifest@);
    let mut all = out;
    let mut j: usize = 0;
    while j < found.len()
        invariant
            j <= found.len(),
            whole == matches_step(old(s)@, found@, 0, out.deep_view(), manifest@),
            whole == matches_step(s@, found@, j as int, all.deep_view(), manifest@),
        decreases found.len() - j,
    {
        match &found[j] {
            Found::Failed(why) => {
                s.warn(&plus("warning: failed to read workspace entry: ", why))?;
            },
            Found::Path(dir) => {
                if s.is_dir(dir)? {
                    let path = paths::join(dir, manifest, s.separator());
                    if s.is_file(&path)? && !paths::lists_path(&all, &path, s.separator()) {
                        put(&mut all, path);
                    }
                }
            },
        }
        j = j + 1;
    }
    Ok(all)
}

/// The paths of the manifests with this name that the patterns lead to, each
/// once, in the order of the patterns and of their matches.
pub fn child_manifests(s: &mut Session<'_>, patterns: &Vec<String>, manifest: &str) -> (r: Step<
    Result<Vec<String>, Error>,
>)
    ensures
        session::step(r, final(s)@) == children_step(old(s)@, patterns.deep_view(), manifest@),
{
    let ghost all = patterns.deep_view();
    let ghost whole = children_step(s@, all, manifest@);
    let mut out: Vec<String> = Vec::new();
    let mut k: usize = 0;
    assert(out.deep_view() =~= Seq::empty());
    while k < patterns.len()
        invariant
            k <= patterns.len(),
            all == patterns.deep_view(),
            whole == children_step(old(s)@, all, manifest@),
            whole == patterns_step(s@, all, k as int, out.deep_view(), manifest@),
        decreases patterns.len() - k,
    {
        assert(all[k as int] == patterns@[k as int]@);
        let pattern = trim(&patterns[k]);
        let cs = chars_of(&pattern);
        k = k + 1;
        if cs.len() == 0 {
            continue;
        }
        if cs[0] == '!' {
            s.warn(
                &plus3(
                    "warning: negated workspace pattern '",
                    &pattern,
                    "' is not supported; skipping",
                ),
            )?;
            continue;
        }
        if contains(&pattern, "**") {
            s.warn(
                &plus3(
                    "warning: recursive workspace pattern '",
                    &pattern,
                    "' ('**') is not supported; skipping",
                ),
            )?;
            continue;
        }
        match s.glob(&pattern)? {
            Answer::Matches(found) => {
                out = add_matches(s, found, out, manifest)?;
            },
            Answer::BadPattern(why) => {
                s.warn(
                    &plus(
                        &plus3("warning: invalid workspace pattern '", &pattern, "': "),
                        &plus(why, "; skipping"),
                    ),
                )?;
            },
            _ => {
                return Ok(Err(ErrorOf::OddPattern(s.shown(&pattern))));
            },
        }
    }
    Ok(Ok(out))
}

/// The paths of the `package.json` files that the patterns lead to.
pub fn child_package_jsons(s: &mut Session<'_>, patterns: &Vec<String>) -> (r: Step<
    Result<Vec<String>, Error>,
>)
    ensures
        session::step(r, final(s)@) == children_step(
            old(s)@,
            patterns.deep_view(),
            "package.json"@,
        ),
{
    child_manifests(s, patterns, "package.json")
}

/// No path is in the list in two ways.
pub open spec fn no_path_twice(list: Seq<Seq<char>>, sep: char) -> bool {
    forall|i: int, j: int|
        0 <= i < j < list.len() ==> !paths::same_path(#[trigger] list[i], #[trigger] list[j], sep)
}

/// Every path in the list is that of such a manifest in some directory.
pub open spec fn all_manifests(list: Seq<Seq<char>>, manifest: Seq<char>, sep: char) -> bool {
    forall|i: int|
        0 <= i < list.len() ==> exists|dir: Seq<char>| #[trigger]
            list[i] == #[trigger] paths::joined_to(dir, manifest, sep)
}

/// No manifest is listed twice, and only manifests of that name are listed.
pub proof fn law_children_distinct(c: Cursor, patterns: Seq<Seq<char>>, manifest: Seq<char>)
    ensures
        children_step(c, patterns, manifest) matches Next::Done(Ok(list), _)
            ==> no_path_twice(list, c.sep) && all_manifests(list, manifest, c.sep),
{
    lemma_patterns_distinct(c, patterns, 0, Seq::empty(), manifest);
}

proof fn lemma_matches_distinct(
    c: Cursor,
    found: Seq<Found>,
    j: int,
    out: Seq<Seq<char>>,
    manifest: Seq<char>,
)
    requires
        no_path_twice(out, c.sep),
        all_manifests(out, manifest, c.sep),
    ensures
        matches_step(c, found, j, out, manifest) matches Next::Done(list, _)
            ==> no_path_twice(list, c.sep) && all_manifests(list, manifest, c.sep),
    decreases found.len() - j,
{
    if j < found.len() {
        match found[j] {
            Found::Failed(why) => {
                lemma_matches_distinct(c.past(), found, j + 1, out, manifest);
            },
            Found::Path(dir) => {
                let path = paths::joined_to(dir@, manifest, c.sep);
                lemma_matches_distinct(c.past(), found, j + 1, out, manifest);
                lemma_matches_distinct(c.past().past(), found, j + 1, out, manifest);
                if !paths::has_path(out, path, c.sep) {
                    let more = out.push(path);
                    assert(all_manifests(more, manifest, c.sep)) by {
                        assert forall|i: int| 0 <= i < more.len() implies exists|d: Seq<char>|
                            #[trigger]
                            more[i] == #[trigger] paths::joined_to(d, manifest, c.sep) by {
                            if i < out.len() {
                                let d = choose|d: Seq<char>| #[trigger]
                                    out[i] == #[trigger] paths::joined_to(d, manifest, c.sep);
                                assert(more[i] == paths::joined_to(d, manifest, c.sep));
                            } else {
                                assert(more[i] == paths::joined_to(dir@, manifest, c.sep));
                            }
                        }
                    }
                    lemma_matches_distinct(c.past().past(), found, j + 1, more, manifest);
                }
            },
        }
    }
}

proof fn lemma_patterns_distinct(
    c: Cursor,
    patterns: Seq<Seq<char>>,
    k: int,
    out: Seq<Seq<char>>,
    manifest: Seq<char>,
)
    requires
        no_path_twice(out, c.sep),
        all_manifests(out, manifest, c.sep),
    ensures
        patterns_step(c, patterns, k, out, manifest) matches Next::Done(Ok(list), _)
            ==> no_path_twice(list, c.sep) && all_manifests(list, manifest, c.sep),
    decreases patterns.len() - k,
{
    if k < patterns.len() {
        lemma_patterns_distinct(c, patterns, k + 1, out, manifest);
        lemma_patterns_distinct(c.past(), patterns, k + 1, out, manifest);
        lemma_patterns_distinct(c.past().past(), patterns, k + 1, out, manifest);
        if let Answer::Matches(found) = c.answer() {
            lemma_matches_distinct(c.past(), found@, 0, out, manifest);
            lemma_matches_answers(c.past(), found@, 0, out, manifest);
            if let Next::Done(more, d) = matches_step(c.past(), found@, 0, out, manifest) {
                lemma_patterns_distinct(d, patterns, k + 1, more, manifest);
            }
        }
    }
}

} // verus!
