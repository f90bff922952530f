//! JavaScript packages managed by pnpm, and what all JavaScript packages have
//! in common.

use vstd::prelude::*;

use crate::backend::Backend;
use crate::backends;
use crate::backends::pnpm_workspace;
use crate::backends::workspace;
use crate::data;
use crate::data::Data;
use crate::data::Node;
use crate::error;
use crate::error::Error;
use crate::error::ErrorOf;
use crate::error::ErrorView;
use crate::json;
use crate::session;
use crate::session::during;
use crate::session::Answer;
use crate::session::AskOf;
use crate::session::Cursor;
use crate::session::Model;
use crate::session::Next;
use crate::session::Session;
use crate::session::Step;
use crate::text;
use crate::text::chars_of;
use crate::text::join;
use crate::text::list0;
use crate::text::list1;
use crate::text::list2;
use crate::text::list3;
use crate::text::own;
use crate::text::plus;
use crate::text::plus3;
use crate::text::put;
use crate::text::stands_at;
use crate::text::text_of;

verus! {

/// The version of a JavaScript package is the `"version"` of its
/// `package.json`. The members of a pnpm workspace are listed in
/// `pnpm-workspace.yaml` and get the same version.
pub struct Pnpm;

// ---------------------------------------------------------------------------
// One package.json
// ---------------------------------------------------------------------------

/// The version in a `package.json`.
pub open spec fn version_in(node: Node) -> Option<Seq<char>> {
    data::text_field(node, "version"@)
}

/// A package can be published if it has a version and is not private.
pub open spec fn publishable(node: Node) -> bool {
    version_in(node) is Some && data::flag_field(node, "private"@) != Some(true)
}

/// How a version stands in a `package.json`, with `gap` behind the colon.
pub open spec fn version_entry(gap: Seq<char>, version: Seq<char>) -> Seq<char> {
    "\"version\":"@ + gap + ("\""@ + version + "\""@)
}

/// A text reads as a `package.json` with this version.
pub open spec fn reads_version(t: Seq<char>, version: Seq<char>) -> bool {
    json::json_read(t) matches Ok(node) && version_in(node) == Some(version)
}

/// A text with another version in the entry at `i`.
pub open spec fn with_entry_at(
    t: Seq<char>,
    gap: Seq<char>,
    old: Seq<char>,
    new: Seq<char>,
    i: int,
) -> Seq<char> {
    t.take(i) + version_entry(gap, new) + t.skip(i + version_entry(gap, old).len())
}

/// The text reads as the same `package.json` with another version, and nothing
/// else changed.
pub open spec fn renews(before: Seq<char>, after: Seq<char>, new: Seq<char>) -> bool {
    json::reads_put(before, after, "version"@, new)
}

/// Where, from `i` on, the entry with the old version stands that is the
/// package's own: with another version in it, the text has that version, and
/// nothing else changes. An entry like it can stand elsewhere in the document.
pub open spec fn own_entry(
    t: Seq<char>,
    gap: Seq<char>,
    old: Seq<char>,
    new: Seq<char>,
    i: int,
) -> Option<int>
    decreases t.len() - i,
{
    if i >= t.len() {
        None
    } else if text::occurs_at(t, version_entry(gap, old), i) && renews(
        t,
        with_entry_at(t, gap, old, new, i),
        new,
    ) {
        Some(i)
    } else {
        own_entry(t, gap, old, new, i + 1)
    }
}

/// The text of a `package.json` with another version, `None` if it has none.
/// The package's own entry is changed as it is written; only if there is none
/// to be found, the document is printed anew.
pub open spec fn with_version(t: Seq<char>, node: Node, new: Seq<char>) -> Option<Seq<char>> {
    match version_in(node) {
        None => None,
        Some(old) => match own_entry(t, " "@, old, new, 0) {
            Some(i) => Some(with_entry_at(t, " "@, old, new, i)),
            None => match own_entry(t, ""@, old, new, 0) {
                Some(i) => Some(with_entry_at(t, ""@, old, new, i)),
                None => Some(json::json_with(t, "version"@, new)),
            },
        },
    }
}

proof fn lemma_own_entry(t: Seq<char>, gap: Seq<char>, old: Seq<char>, new: Seq<char>, i: int)
    requires
        0 <= i,
    ensures
        own_entry(t, gap, old, new, i) matches Some(at) ==> {
            &&& i <= at < t.len()
            &&& text::occurs_at(t, version_entry(gap, old), at)
            &&& renews(t, with_entry_at(t, gap, old, new, at), new)
        },
    decreases t.len() - i,
{
    if i < t.len() && !(text::occurs_at(t, version_entry(gap, old), i) && renews(
        t,
        with_entry_at(t, gap, old, new, i),
        new,
    )) {
        lemma_own_entry(t, gap, old, new, i + 1);
    }
}

/// Where a `package.json` holds its own entry with the version that it has,
/// that entry becomes one with the new version, and all that stands before and
/// behind it stays. The text then reads as the same document with the new
/// version.
pub proof fn law_entry_is_replaced(
    t: Seq<char>,
    node: Node,
    old: Seq<char>,
    new: Seq<char>,
    gap: Seq<char>,
)
    requires
        version_in(node) == Some(old),
        own_entry(t, gap, old, new, 0) is Some,
        gap == " "@ || gap == ""@ && own_entry(t, " "@, old, new, 0) is None,
    ensures
        ({
            let at = own_entry(t, gap, old, new, 0)->0;
            with_version(t, node, new) matches Some(after) && {
                &&& text::occurs_at(t, version_entry(gap, old), at)
                &&& text::occurs_at(after, version_entry(gap, new), at)
                &&& after.take(at) == t.take(at)
                &&& after.skip(at + version_entry(gap, new).len()) == t.skip(
                    at + version_entry(gap, old).len(),
                )
                &&& renews(t, after, new)
            }
        }),
{
    let before = version_entry(gap, old);
    let entry = version_entry(gap, new);
    lemma_own_entry(t, gap, old, new, 0);
    let at = own_entry(t, gap, old, new, 0)->0;
    let after = with_entry_at(t, gap, old, new, at);
    assert(with_version(t, node, new) == Some(after));
    assert(after.subrange(at, at + entry.len()) =~= entry);
    assert(after.take(at) =~= t.take(at));
    assert(after.skip(at + entry.len()) =~= t.skip(at + before.len()));
}

/// The text of a `package.json` with another version reads as the same document
/// with that version.
pub proof fn law_written_text_reads_back(t: Seq<char>, node: Node, new: Seq<char>)
    requires
        json::is_faithful(),
        json::json_read(t) == Ok::<Node, Seq<char>>(node),
    ensures
        with_version(t, node, new) matches Some(after) ==> version_in(node) is Some && renews(
            t,
            after,
            new,
        ),
{
    if let Some(old) = version_in(node) {
        lemma_own_entry(t, " "@, old, new, 0);
        lemma_own_entry(t, ""@, old, new, 0);
    }
}

/// The version in the `package.json` at `path`.
pub open spec fn version_opt_step(c: Cursor, path: Seq<char>) -> Next<
    Result<Option<Seq<char>>, ErrorView>,
> {
    json::doc_step(c, path).and_ok(
        |doc: (Seq<char>, Node), c: Cursor| Next::Done(Ok(version_in(doc.1)), c),
    )
}

/// The version in the `package.json` at `path`, which has to have one.
pub open spec fn version_step(c: Cursor, path: Seq<char>) -> Next<Result<Seq<char>, ErrorView>> {
    version_opt_step(c, path).and_ok(
        |version: Option<Seq<char>>, c: Cursor|
            match version {
                Some(version) => Next::Done(Ok(version), c),
                None => Next::Done(
                    Err(ErrorOf::Absent("no string \"version\" in "@ + c.shown(path))),
                    c,
                ),
            },
    )
}

/// Write a version into the `package.json` at `path`, if it has one. The result
/// tells whether it has.
pub open spec fn write_one_step(c: Cursor, path: Seq<char>, new: Seq<char>) -> Next<
    Result<bool, ErrorView>,
> {
    json::doc_step(c, path).and_ok(
        |doc: (Seq<char>, Node), c: Cursor|
            match with_version(doc.0, doc.1, new) {
                Some(t) => c.write(path, t).and_ok(|u: (), c: Cursor| Next::Done(Ok(true), c)),
                None => Next::Done(Ok(false), c),
            },
    )
}

/// Whether the `package.json` at `path` can be published.
pub open spec fn publishable_one_step(c: Cursor, path: Seq<char>) -> Next<
    Result<bool, ErrorView>,
> {
    json::doc_step(c, path).and_ok(
        |doc: (Seq<char>, Node), c: Cursor| Next::Done(Ok(publishable(doc.1)), c),
    )
}

/// A package can be published if it has a version and is not private.
pub fn is_publishable_json(data: &Data) -> (r: bool)
    ensures
        r == publishable(data.seen()),
{
    let has_version = match data::find_text_field(data, "version") {
        Some(_) => true,
        None => false,
    };
    let is_private = match data::find_flag_field(data, "private") {
        Some(b) => b,
        None => false,
    };
    has_version && !is_private
}

/// How a version stands in a `package.json`.
fn entry(gap: &str, version: &str) -> (r: String)
    ensures
        r@ == version_entry(gap@, version@),
{
    plus3("\"version\":", gap, &plus3("\"", version, "\""))
}

/// Put another version into the package's own entry, if it is written with this
/// gap.
fn replace_entry(doc: &json::Doc, gap: &str, old: &str, new: &str) -> (r: Option<String>)
    ensures
        ({
            let t = doc.model().0;
            match own_entry(t, gap@, old@, new@, 0) {
                Some(i) => r matches Some(after) && after@ == with_entry_at(
                    t,
                    gap@,
                    old@,
                    new@,
                    i,
                ) && renews(t, after@, new@),
                None => r is None,
            }
        }),
{
    let t = doc.text();
    let cs = chars_of(t);
    let before = chars_of(&entry(gap, old));
    let after = entry(gap, new);
    let mut i: usize = 0;
    while i < cs.len()
        invariant
            i <= cs.len(),
            cs@ == t@,
            t@ == doc.model().0,
            json::reads_as(t@, doc.model().1),
            before@ == version_entry(gap@, old@),
            after@ == version_entry(gap@, new@),
            own_entry(t@, gap@, old@, new@, 0) == own_entry(t@, gap@, old@, new@, i as int),
        decreases cs.len() - i,
    {
        if stands_at(&cs, &before, i) {
            let changed = plus3(
                &text_of(&cs, 0, i),
                &after,
                &text_of(&cs, i + before.len(), cs.len()),
            );
            assert(changed@ =~= with_entry_at(t@, gap@, old@, new@, i as int));
            if let Ok(data) = json::read(&changed) {
                if json::is_put(doc.data(), &data, "version", new) {
                    return Some(changed);
                }
            }
        }
        i = i + 1;
    }
    None
}

/// Put another version into the text of a `package.json`. The text then has
/// that version, and nothing else in it changes.
pub fn replace_version(doc: &json::Doc, new: &str) -> (r: Option<String>)
    ensures
        r.model() == with_version(doc.model().0, doc.model().1, new@),
        r matches Some(t) ==> reads_version(t@, new@) && renews(doc.model().0, t@, new@),
{
    let old = match data::find_text_field(doc.data(), "version") {
        Some(old) => old,
        None => {
            return None;
        },
    };
    let t = doc.text();
    if let Some(changed) = replace_entry(doc, " ", &old, new) {
        return Some(changed);
    }
    if let Some(changed) = replace_entry(doc, "", &old, new) {
        return Some(changed);
    }
    Some(json::with_text(t, "version", new))
}

/// Read the version of the `package.json` at `path`, `None` if it has none.
pub fn read_package_json_version_opt(s: &mut Session<'_>, path: &str) -> (r: Step<
    Result<Option<String>, Error>,
>)
    ensures
        session::step(r, final(s)@) == version_opt_step(old(s)@, path@),
{
    match json::read_doc(s, path)? {
        Ok(doc) => Ok(Ok(data::find_text_field(doc.data(), "version"))),
        Err(e) => Ok(Err(e)),
    }
}

/// Read the version of the `package.json` at `path`.
pub fn read_package_json_version(s: &mut Session<'_>, path: &str) -> (r: Step<
    Result<String, Error>,
>)
    ensures
        session::step(r, final(s)@) == version_step(old(s)@, path@),
{
    match read_package_json_version_opt(s, path)? {
        Ok(Some(version)) => Ok(Ok(version)),
        Ok(None) => Ok(
            Err(ErrorOf::Absent(plus("no string \"version\" in ", &s.shown(path)))),
        ),
        Err(e) => Ok(Err(e)),
    }
}

/// The `package.json` that was read last gets the new version, and nothing else
/// in it changes.
pub open spec fn renews_last(c: Cursor, t: Seq<char>, new: Seq<char>) -> bool {
    c.answers.len() > 0 && (c.answers.last() matches Answer::Text(before) && renews(
        before@,
        t,
        new,
    ))
}

/// Write a version into the `package.json` at `path`, if it has one. A text that
/// is to be written has the new version, and nothing else in it changes.
pub fn write_package_json_version_if_present(
    s: &mut Session<'_>,
    path: &str,
    new: &str,
) -> (r: Step<Result<bool, Error>>)
    ensures
        session::step(r, final(s)@) == write_one_step(old(s)@, path@, new@),
        r matches Err(AskOf::Write(_, t)) ==> reads_version(t@, new@) && renews_last(
            old(s)@,
            t@,
            new@,
        ),
{
    let doc = match json::read_doc(s, path)? {
        Ok(doc) => doc,
        Err(e) => {
            return Ok(Err(e));
        },
    };
    match replace_version(&doc, new) {
        Some(t) => match s.write(path, &t)? {
            Ok(()) => Ok(Ok(true)),
            Err(e) => Ok(Err(e)),
        },
        None => Ok(Ok(false)),
    }
}

/// Whether the `package.json` at `path` can be published.
pub fn is_package_json_publishable(s: &mut Session<'_>, path: &str) -> (r: Step<
    Result<bool, Error>,
>)
    ensures
        session::step(r, final(s)@) == publishable_one_step(old(s)@, path@),
{
    match json::read_doc(s, path)? {
        Ok(doc) => Ok(Ok(is_publishable_json(doc.data()))),
        Err(e) => Ok(Err(e)),
    }
}

// ---------------------------------------------------------------------------
// The package.json files of a workspace
// ---------------------------------------------------------------------------

/// The first version in the files from the one at `i` on.
pub open spec fn first_version_step(c: Cursor, files: Seq<Seq<char>>, i: int) -> Next<
    Result<Seq<char>, ErrorView>,
>
    decreases files.len() - i,
{
    if i >= files.len() {
        Next::Done(
            Err(
                ErrorOf::Absent(
                    "no string \"version\" in "@ + c.shown("package.json"@)
                        + " or any workspace child"@,
                ),
            ),
            c,
        )
    } else {
        version_opt_step(c, files[i]).and_ok(
            |version: Option<Seq<char>>, c: Cursor|
                match version {
                    Some(version) => Next::Done(Ok(version), c),
                    None => first_version_step(c, files, i + 1),
                },
        )
    }
}

/// The version of the main `package.json` or, if it has none, of the first
/// workspace member that has one.
pub open spec fn read_with_fallback_step(
    c: Cursor,
    children: spec_fn(Cursor) -> Next<Result<Seq<Seq<char>>, ErrorView>>,
) -> Next<Result<Seq<char>, ErrorView>> {
    version_opt_step(c, "package.json"@).and_ok(
        |version: Option<Seq<char>>, c: Cursor|
            match version {
                Some(version) => Next::Done(Ok(version), c),
                None => children(c).and_ok(
                    |files: Seq<Seq<char>>, c: Cursor| first_version_step(c, files, 0),
                ),
            },
    )
}

/// Write a version into the files from the one at `i` on.
pub open spec fn write_files_step(c: Cursor, files: Seq<Seq<char>>, i: int, new: Seq<char>) -> Next<
    Result<(), ErrorView>,
>
    decreases files.len() - i,
{
    if i >= files.len() {
        Next::Done(Ok(()), c)
    } else {
        write_one_step(c, files[i], new).during("update child manifest "@ + files[i]).and_ok(
            |done: bool, c: Cursor| write_files_step(c, files, i + 1, new),
        )
    }
}

/// Write a version into the main `package.json` and those of the members.
pub open spec fn write_all_step(
    c: Cursor,
    children: spec_fn(Cursor) -> Next<Result<Seq<Seq<char>>, ErrorView>>,
    new: Seq<char>,
) -> Next<Result<(), ErrorView>> {
    write_one_step(c, "package.json"@, new).and_ok(
        |done: bool, c: Cursor|
            children(c).and_ok(
                |files: Seq<Seq<char>>, c: Cursor| write_files_step(c, files, 0, new),
            ),
    )
}

/// Add those of the files from the one at `i` on that have a version to write.
pub open spec fn preview_files_step(
    c: Cursor,
    files: Seq<Seq<char>>,
    i: int,
    out: Seq<Seq<char>>,
) -> Next<Result<Seq<Seq<char>>, ErrorView>>
    decreases files.len() - i,
{
    if i >= files.len() {
        Next::Done(Ok(out), c)
    } else {
        version_opt_step(c, files[i]).and_ok(
            |version: Option<Seq<char>>, c: Cursor|
                preview_files_step(
                    c,
                    files,
                    i + 1,
                    if version is Some {
                        out.push(files[i])
                    } else {
                        out
                    },
                ),
        )
    }
}

/// The files beside the main `package.json` that a version is written into.
pub open spec fn preview_all_step(
    c: Cursor,
    children: spec_fn(Cursor) -> Next<Result<Seq<Seq<char>>, ErrorView>>,
) -> Next<Result<Seq<Seq<char>>, ErrorView>> {
    children(c).and_ok(
        |files: Seq<Seq<char>>, c: Cursor| preview_files_step(c, files, 0, Seq::empty()),
    )
}

/// Add those of the files from the one at `i` on that have a version. What
/// cannot be read is left out with a warning.
pub open spec fn versioned_step(
    c: Cursor,
    files: Seq<Seq<char>>,
    i: int,
    out: Seq<Seq<char>>,
) -> Next<Seq<Seq<char>>>
    decreases files.len() - i,
{
    if i >= files.len() {
        Next::Done(out, c)
    } else {
        version_opt_step(c, files[i]).and(
            |version: Result<Option<Seq<char>>, ErrorView>, c: Cursor|
                match version {
                    Ok(Some(_)) => versioned_step(c, files, i + 1, out.push(files[i])),
                    Ok(None) => versioned_step(c, files, i + 1, out),
                    Err(e) => c.warn(
                        "warning: failed to read "@ + files[i] + ": "@ + error::message_of(e),
                    ).and(|u: (), c: Cursor| versioned_step(c, files, i + 1, out)),
                },
        )
    }
}

/// The main `package.json`, if it has a version.
pub open spec fn stage_root_step(c: Cursor) -> Next<Seq<Seq<char>>> {
    version_opt_step(c, "package.json"@).and(
        |version: Result<Option<Seq<char>>, ErrorView>, c: Cursor|
            match version {
                Ok(Some(_)) => Next::Done(seq!["package.json"@], c),
                Ok(None) => Next::Done(Seq::empty(), c),
                Err(e) => c.warn(
                    "warning: failed to read root package.json at "@ + c.root + ": "@
                        + error::message_of(e),
                ).and(|u: (), c: Cursor| Next::Done(Seq::empty(), c)),
            },
    )
}

/// The `package.json` files that have a version.
pub open spec fn stage_files_step(
    c: Cursor,
    children: spec_fn(Cursor) -> Next<Result<Seq<Seq<char>>, ErrorView>>,
    kind: Seq<char>,
) -> Next<Seq<Seq<char>>> {
    stage_root_step(c).and(
        |out: Seq<Seq<char>>, c: Cursor|
            children(c).and(
                |files: Result<Seq<Seq<char>>, ErrorView>, c: Cursor|
                    match files {
                        Ok(files) => versioned_step(c, files, 0, out),
                        Err(e) => c.warn(
                            "warning: failed to expand "@ + kind + " workspace children at "@
                                + c.root + ": "@ + error::message_of(e),
                        ).and(|u: (), c: Cursor| Next::Done(out, c)),
                    },
            ),
    )
}

/// To look for a version is harmless.
pub broadcast proof fn lemma_first_version_calm(c: Cursor, files: Seq<Seq<char>>, i: int)
    ensures
        (#[trigger] first_version_step(c, files, i)).calm(),
    decreases files.len() - i,
{
    if i < files.len() {
        if let Next::Done(Ok(version), c2) = version_opt_step(c, files[i]) {
            lemma_first_version_calm(c2, files, i + 1);
        }
    }
}

/// Further answers change nothing in what has ended.
pub broadcast proof fn lemma_first_version_kept(
    c: Cursor,
    files: Seq<Seq<char>>,
    i: int,
    more: Seq<Answer>,
)
    ensures
        first_version_step(c, files, i).kept(
            #[trigger] first_version_step(c.with(more), files, i),
            more,
        ),
    decreases files.len() - i,
{
    broadcast use session::lemma_past_with;

    if i < files.len() {
        if let Next::Done(Ok(version), c2) = version_opt_step(c, files[i]) {
            lemma_first_version_kept(c2, files, i + 1, more);
        }
    }
}

/// To look for files that have a version is harmless.
pub broadcast proof fn lemma_versioned_calm(
    c: Cursor,
    files: Seq<Seq<char>>,
    i: int,
    out: Seq<Seq<char>>,
)
    ensures
        (#[trigger] versioned_step(c, files, i, out)).calm(),
    decreases files.len() - i,
{
    if i < files.len() {
        if let Next::Done(version, c2) = version_opt_step(c, files[i]) {
            lemma_versioned_calm(c2, files, i + 1, out);
            lemma_versioned_calm(c2, files, i + 1, out.push(files[i]));
            lemma_versioned_calm(c2.past(), files, i + 1, out);
        }
    }
}

/// Further answers change nothing in what has ended.
pub broadcast proof fn lemma_versioned_kept(
    c: Cursor,
    files: Seq<Seq<char>>,
    i: int,
    out: Seq<Seq<char>>,
    more: Seq<Answer>,
)
    ensures
        versioned_step(c, files, i, out).kept(
            #[trigger] versioned_step(c.with(more), files, i, out),
            more,
        ),
    decreases files.len() - i,
{
    broadcast use session::lemma_past_with;

    if i < files.len() {
        if let Next::Done(version, c2) = version_opt_step(c, files[i]) {
            lemma_versioned_kept(c2, files, i + 1, out, more);
            lemma_versioned_kept(c2, files, i + 1, out.push(files[i]), more);
            lemma_versioned_kept(c2.past(), files, i + 1, out, more);
        }
    }
}

/// To write a version into files runs no program.
pub broadcast proof fn lemma_write_files_asks(
    c: Cursor,
    files: Seq<Seq<char>>,
    i: int,
    new: Seq<char>,
)
    ensures
        (#[trigger] write_files_step(c, files, i, new)).runs_only(None),
    decreases files.len() - i,
{
    if i < files.len() {
        if let Next::Done(Ok(done), c2) = write_one_step(c, files[i], new) {
            lemma_write_files_asks(c2, files, i + 1, new);
        }
    }
}

/// Further answers change nothing in what has ended.
pub broadcast proof fn lemma_write_files_kept(
    c: Cursor,
    files: Seq<Seq<char>>,
    i: int,
    new: Seq<char>,
    more: Seq<Answer>,
)
    ensures
        write_files_step(c, files, i, new).kept(
            #[trigger] write_files_step(c.with(more), files, i, new),
            more,
        ),
    decreases files.len() - i,
{
    broadcast use session::lemma_past_with;

    if i < files.len() {
        if let Next::Done(Ok(done), c2) = write_one_step(c, files[i], new) {
            lemma_write_files_kept(c2, files, i + 1, new, more);
        }
    }
}

/// To look for files to write is harmless.
pub broadcast proof fn lemma_preview_files_calm(
    c: Cursor,
    files: Seq<Seq<char>>,
    i: int,
    out: Seq<Seq<char>>,
)
    ensures
        (#[trigger] preview_files_step(c, files, i, out)).calm(),
    decreases files.len() - i,
{
    if i < files.len() {
        if let Next::Done(Ok(version), c2) = version_opt_step(c, files[i]) {
            lemma_preview_files_calm(c2, files, i + 1, out);
            lemma_preview_files_calm(c2, files, i + 1, out.push(files[i]));
        }
    }
}

/// Further answers change nothing in what has ended.
pub broadcast proof fn lemma_preview_files_kept(
    c: Cursor,
    files: Seq<Seq<char>>,
    i: int,
    out: Seq<Seq<char>>,
    more: Seq<Answer>,
)
    ensures
        preview_files_step(c, files, i, out).kept(
            #[trigger] preview_files_step(c.with(more), files, i, out),
            more,
        ),
    decreases files.len() - i,
{
    broadcast use session::lemma_past_with;

    if i < files.len() {
        if let Next::Done(Ok(version), c2) = version_opt_step(c, files[i]) {
            lemma_preview_files_kept(c2, files, i + 1, out, more);
            lemma_preview_files_kept(c2, files, i + 1, out.push(files[i]), more);
        }
    }
}

/// A `package.json` that reads with a version is read to have that version.
pub proof fn law_version_reads_back(c: Cursor, path: Seq<char>, version: Seq<char>)
    requires
        c.answered(),
        c.answer() matches Answer::Text(t) && reads_version(t@, version),
    ensures
        version_opt_step(c, path) == Next::Done(
            Ok::<_, ErrorView>(Some(version)),
            c.past(),
        ),
        version_step(c, path) == Next::Done(Ok::<_, ErrorView>(version), c.past()),
        forall|children: spec_fn(Cursor) -> Next<Result<Seq<Seq<char>>, ErrorView>>|
            (#[trigger] read_with_fallback_step(c, children)) == Next::Done(
                Ok::<_, ErrorView>(version),
                c.past(),
            ),
{
}

/// A member's `package.json`, before and after a version was written: with that
/// version if it had one, or as it was.
pub open spec fn renewed_answer(before: Answer, after: Answer, new: Seq<char>) -> bool {
    match (before, after) {
        (Answer::Text(s), Answer::Text(t)) => if json::json_read(s@) matches Ok(node)
            && version_in(node) is Some {
            renews(s@, t@, new)
        } else {
            s@ == t@
        },
        _ => before == after,
    }
}

/// Where a version was found in a member before another one was written, that
/// is the one that is found afterwards. `c` has the host's answers to the first
/// reading, `d` those to the second one.
pub proof fn law_member_version_is_read(
    c: Cursor,
    d: Cursor,
    files: Seq<Seq<char>>,
    i: int,
    new: Seq<char>,
)
    requires
        c.at == d.at,
        c.answers.len() == d.answers.len(),
        forall|k: int|
            c.at <= k < c.answers.len() ==> renewed_answer(
                #[trigger] c.answers[k],
                d.answers[k],
                new,
            ),
        first_version_step(c, files, i) matches Next::Done(Ok(_), _),
    ensures
        first_version_step(d, files, i) matches Next::Done(Ok(v), _) && v == new,
    decreases files.len() - i,
{
    if i < files.len() {
        if let Next::Done(Ok(version), c2) = version_opt_step(c, files[i]) {
            assert(renewed_answer(c.answers[c.at as int], d.answers[c.at as int], new));
            if version is None {
                law_member_version_is_read(c2, d.past(), files, i + 1, new);
            }
        }
    }
}

/// A `package.json` that is read has this version, if it has one.
pub open spec fn fresh(a: Answer, version: Seq<char>) -> bool {
    a matches Answer::Text(t) ==> (json::json_read(t@) matches Ok(node) ==> (version_in(
        node,
    ) matches Some(v) ==> v == version))
}

/// Where each file that is read has the version that was written, or none,
/// that is the version that is found.
pub proof fn lemma_first_version_fresh(
    c: Cursor,
    files: Seq<Seq<char>>,
    i: int,
    version: Seq<char>,
)
    requires
        forall|k: int| 0 <= k < c.answers.len() ==> fresh(#[trigger] c.answers[k], version),
    ensures
        first_version_step(c, files, i) matches Next::Done(Ok(v), _) ==> v == version,
    decreases files.len() - i,
{
    if i < files.len() {
        if let Next::Done(Ok(found), c2) = version_opt_step(c, files[i]) {
            assert(fresh(c.answers[c.at as int], version));
            lemma_first_version_fresh(c2, files, i + 1, version);
        }
    }
}

/// A member's `package.json` is written exactly if it is listed beforehand.
pub proof fn law_preview_lists_what_is_written(
    c: Cursor,
    files: Seq<Seq<char>>,
    i: int,
    new: Seq<char>,
    out: Seq<Seq<char>>,
)
    requires
        0 <= i < files.len(),
        json::doc_step(c, files[i]) matches Next::Done(Ok(_), c2) && !c2.answered(),
    ensures
        ({
            let c2 = json::doc_step(c, files[i])->Done_1;
            let written = write_files_step(c, files, i, new) matches Next::Ask(
                AskOf::Write(path, _),
            ) && path == files[i];
            preview_files_step(c, files, i, out) == preview_files_step(
                c2,
                files,
                i + 1,
                if written {
                    out.push(files[i])
                } else {
                    out
                },
            )
        }),
{
    if let Next::Done(Ok(doc), c2) = json::doc_step(c, files[i]) {
        if version_in(doc.1) is None && i + 1 < files.len() {
            assert(write_files_step(c2, files, i + 1, new) == Next::<Result<(), ErrorView>>::Ask(
                AskOf::Read(files[i + 1]),
            ));
        }
    }
}

/// The first version in the files.
pub fn first_version(s: &mut Session<'_>, files: &Vec<String>) -> (r: Step<Result<String, Error>>)
    ensures
        session::step(r, final(s)@) == first_version_step(old(s)@, files.deep_view(), 0),
{
    let ghost all = files.deep_view();
    let ghost whole = first_version_step(s@, all, 0);
    let mut i: usize = 0;
    while i < files.len()
        invariant
            i <= files.len(),
            all == files.deep_view(),
            whole == first_version_step(old(s)@, all, 0),
            whole == first_version_step(s@, all, i as int),
        decreases files.len() - i,
    {
        assert(all[i as int] == files@[i as int]@);
        match read_package_json_version_opt(s, &files[i])? {
            Ok(Some(version)) => {
                return Ok(Ok(version));
            },
            Ok(None) => {},
            Err(e) => {
                return Ok(Err(e));
            },
        }
        i = i + 1;
    }
    Ok(
        Err(
            ErrorOf::Absent(
                plus3(
                    "no string \"version\" in ",
                    &s.shown("package.json"),
                    " or any workspace child",
                ),
            ),
        ),
    )
}

/// Write a version into the files. Each text that is to be written has it.
pub fn write_files(s: &mut Session<'_>, files: &Vec<String>, new: &str) -> (r: Step<
    Result<(), Error>,
>)
    ensures
        session::step(r, final(s)@) == write_files_step(old(s)@, files.deep_view(), 0, new@),
        r matches Err(AskOf::Write(_, t)) ==> reads_version(t@, new@) && renews_last(
            old(s)@,
            t@,
            new@,
        ),
{
    let ghost all = files.deep_view();
    let ghost whole = write_files_step(s@, all, 0, new@);
    let mut i: usize = 0;
    while i < files.len()
        invariant
            i <= files.len(),
            all == files.deep_view(),
            whole == write_files_step(old(s)@, all, 0, new@),
            whole == write_files_step(s@, all, i as int, new@),
            s@.answers == old(s)@.answers,
        decreases files.len() - i,
    {
        assert(all[i as int] == files@[i as int]@);
        let written = write_package_json_version_if_present(s, &files[i], new);
        if let Err(e) = during(written, &plus("update child manifest ", &files[i]))? {
            return Ok(Err(e));
        }
        i = i + 1;
    }
    Ok(Ok(()))
}

/// Those of the files that have a version to write.
pub fn preview_files(s: &mut Session<'_>, files: &Vec<String>) -> (r: Step<
    Result<Vec<String>, Error>,
>)
    ensures
        session::step(r, final(s)@) == preview_files_step(
            old(s)@,
            files.deep_view(),
            0,
            Seq::empty(),
        ),
{
    let ghost all = files.deep_view();
    let ghost whole = preview_files_step(s@, all, 0, Seq::empty());
    let mut found = list0();
    let mut i: usize = 0;
    while i < files.len()
        invariant
            i <= files.len(),
            all == files.deep_view(),
            whole == preview_files_step(old(s)@, all, 0, Seq::empty()),
            whole == preview_files_step(s@, all, i as int, found.deep_view()),
        decreases files.len() - i,
    {
        assert(all[i as int] == files@[i as int]@);
        match read_package_json_version_opt(s, &files[i])? {
            Ok(Some(_)) => {
                put(&mut found, files[i].clone());
            },
            Ok(None) => {},
            Err(e) => {
                return Ok(Err(e));
            },
        }
        i = i + 1;
    }
    Ok(Ok(found))
}

/// Add those of the files that have a version.
pub fn add_versioned(s: &mut Session<'_>, files: &Vec<String>, out: Vec<String>) -> (r: Step<
    Vec<String>,
>)
    ensures
        session::step(r, final(s)@) == versioned_step(
            old(s)@,
            files.deep_view(),
            0,
            out.deep_view(),
        ),
{
    let ghost all = files.deep_view();
    let ghost whole = versioned_step(s@, all, 0, out.deep_view());
    let mut found = out;
    let mut i: usize = 0;
    while i < files.len()
        invariant
            i <= files.len(),
            all == files.deep_view(),
            whole == versioned_step(old(s)@, all, 0, out.deep_view()),
            whole == versioned_step(s@, all, i as int, found.deep_view()),
        decreases files.len() - i,
    {
        assert(all[i as int] == files@[i as int]@);
        match read_package_json_version_opt(s, &files[i])? {
            Ok(Some(_)) => {
                put(&mut found, files[i].clone());
            },
            Ok(None) => {},
            Err(e) => {
                s.warn(
                    &plus(&plus3("warning: failed to read ", &files[i], ": "), &e.message()),
                )?;
            },
        }
        i = i + 1;
    }
    Ok(found)
}

/// The main `package.json`, if it has a version.
pub fn stage_root(s: &mut Session<'_>) -> (r: Step<Vec<String>>)
    ensures
        session::step(r, final(s)@) == stage_root_step(old(s)@),
{
    match read_package_json_version_opt(s, "package.json")? {
        Ok(Some(_)) => Ok(list1("package.json")),
        Ok(None) => Ok(list0()),
        Err(e) => {
            s.warn(
                &plus(
                    &plus3("warning: failed to read root package.json at ", s.root(), ": "),
                    &e.message(),
                ),
            )?;
            Ok(list0())
        },
    }
}

/// Warn that the members of a workspace cannot be found.
pub fn warn_unexpanded(s: &mut Session<'_>, kind: &str, e: &Error) -> (r: Step<()>)
    ensures
        session::step(r, final(s)@) == old(s)@.warn(
            "warning: failed to expand "@ + kind@ + " workspace children at "@ + old(s)@.root
                + ": "@ + error::message_of(e.seen()),
        ),
{
    let line = plus(
        &plus3(
            &plus3("warning: failed to expand ", kind, " workspace children at "),
            s.root(),
            ": ",
        ),
        &e.message(),
    );
    s.warn(&line)
}

// ---------------------------------------------------------------------------
// pnpm
// ---------------------------------------------------------------------------

/// The `package.json` files of the members of a pnpm workspace.
pub open spec fn pnpm_children_step(c: Cursor) -> Next<Result<Seq<Seq<char>>, ErrorView>> {
    c.is_file("pnpm-workspace.yaml"@).and(
        |there: bool, c: Cursor|
            if there {
                c.read("pnpm-workspace.yaml"@).and_ok(
                    |t: Seq<char>, c: Cursor|
                        workspace::children_step(
                            c,
                            pnpm_workspace::patterns_in(t),
                            "package.json"@,
                        ),
                )
            } else {
                Next::Done(Ok(Seq::empty()), c)
            },
    )
}

/// The arguments of `pnpm` that publish: recursively where there are members.
pub open spec fn publish_args(children: Seq<Seq<char>>) -> Seq<Seq<char>> {
    if children.len() == 0 {
        seq!["publish"@, "--no-git-checks"@]
    } else {
        seq!["-r"@, "publish"@, "--no-git-checks"@]
    }
}

/// The `package.json` files of the members of a pnpm workspace.
pub fn pnpm_child_package_jsons(s: &mut Session<'_>) -> (r: Step<Result<Vec<String>, Error>>)
    ensures
        session::step(r, final(s)@) == pnpm_children_step(old(s)@),
{
    if !s.is_file("pnpm-workspace.yaml")? {
        return Ok(Ok(list0()));
    }
    match s.read("pnpm-workspace.yaml")? {
        Ok(t) => workspace::child_package_jsons(
            s,
            &pnpm_workspace::parse_pnpm_workspace_patterns(&t),
        ),
        Err(e) => Ok(Err(e)),
    }
}

/// The arguments of `pnpm` that publish.
pub fn pnpm_publish_args(children: &Vec<String>) -> (r: Vec<String>)
    ensures
        r.deep_view() == publish_args(children.deep_view()),
{
    assert(children.deep_view().len() == children.len());
    if children.len() == 0 {
        list2("publish", "--no-git-checks")
    } else {
        list3("-r", "publish", "--no-git-checks")
    }
}

/// To look for members leaves the answers as they are.
proof fn lemma_children_answers(c: Cursor)
    ensures
        pnpm_children_step(c) matches Next::Done(_, c2) ==> c2.answers == c.answers,
{
    if let Answer::Text(t) = c.past().answer() {
        workspace::lemma_patterns_answers(
            c.past().past(),
            pnpm_workspace::patterns_in(t@),
            0,
            Seq::empty(),
            "package.json"@,
        );
    }
}

/// Where each `package.json` that is read has the version that was written, or
/// none, that is the version that is read.
pub proof fn law_written_version_is_read(pnpm: Pnpm, c: Cursor, version: Seq<char>)
    requires
        forall|k: int| 0 <= k < c.answers.len() ==> fresh(#[trigger] c.answers[k], version),
    ensures
        pnpm.read_step(c) matches Next::Done(Ok(v), _) ==> v == version,
{
    if let Next::Done(Ok(found), c2) = version_opt_step(c, "package.json"@) {
        assert(fresh(c.answers[c.at as int], version));
        lemma_children_answers(c2);
        if let Next::Done(Ok(files), c3) = pnpm_children_step(c2) {
            lemma_first_version_fresh(c3, files, 0, version);
        }
    }
}

impl Backend for Pnpm {
    open spec fn called(&self) -> Seq<char> {
        "pnpm"@
    }

    open spec fn read_step(&self, c: Cursor) -> Next<Result<Seq<char>, ErrorView>> {
        read_with_fallback_step(c, |c: Cursor| pnpm_children_step(c))
    }

    open spec fn write_step(&self, c: Cursor, new: Seq<char>) -> Next<Result<(), ErrorView>> {
        write_all_step(c, |c: Cursor| pnpm_children_step(c), new)
    }

    open spec fn lock_step(&self, c: Cursor) -> Next<Result<(), ErrorView>> {
        c.run(""@, "pnpm"@, seq!["install"@, "--lockfile-only"@])
    }

    open spec fn lock_command(&self) -> Option<Seq<char>> {
        Some("pnpm install --lockfile-only"@)
    }

    open spec fn stage_step(&self, c: Cursor) -> Next<Seq<Seq<char>>> {
        stage_files_step(c, |c: Cursor| pnpm_children_step(c), "pnpm"@).and(
            |files: Seq<Seq<char>>, c: Cursor|
                c.is_file("pnpm-lock.yaml"@).and(
                    |lock: bool, c: Cursor|
                        Next::Done(
                            if lock {
                                files.push("pnpm-lock.yaml"@)
                            } else {
                                files
                            },
                            c,
                        ),
                ),
        )
    }

    open spec fn publish_step(&self, c: Cursor) -> Next<Result<(), ErrorView>> {
        backends::login_step(c, "pnpm"@, seq!["whoami"@]).and_ok(
            |u: (), c: Cursor|
                pnpm_children_step(c).and_ok(
                    |children: Seq<Seq<char>>, c: Cursor|
                        c.run(""@, "pnpm"@, publish_args(children)),
                ),
        )
    }

    open spec fn publish_preview_step(&self, c: Cursor) -> Next<
        Result<Option<Seq<char>>, ErrorView>,
    > {
        pnpm_children_step(c).and_ok(
            |children: Seq<Seq<char>>, c: Cursor|
                Next::Done(Ok(Some("pnpm "@ + text::joined(publish_args(children), " "@))), c),
        )
    }

    open spec fn writes_preview_step(&self, c: Cursor, new: Seq<char>) -> Next<
        Result<Seq<Seq<char>>, ErrorView>,
    > {
        preview_all_step(c, |c: Cursor| pnpm_children_step(c))
    }

    /// A workspace is left to `pnpm -r publish`, which skips private packages
    /// itself. A single package can be published unless it is private.
    open spec fn publishable_step(&self, c: Cursor) -> Next<Result<bool, ErrorView>> {
        pnpm_children_step(c).and_ok(
            |children: Seq<Seq<char>>, c: Cursor|
                if children.len() == 0 {
                    publishable_one_step(c, "package.json"@)
                } else {
                    Next::Done(Ok(true), c)
                },
        )
    }

    proof fn law_asks(&self, c: Cursor, new: Seq<char>) {
        broadcast use {
            workspace::lemma_patterns_calm,
            lemma_first_version_calm,
            lemma_versioned_calm,
            lemma_preview_files_calm,
            lemma_write_files_asks,
        };

        assert(self.lock_command() == Some(
            error::command_line("pnpm"@, seq!["install"@, "--lockfile-only"@]),
        )) by {
            reveal_strlit("pnpm");
            reveal_strlit(" ");
            reveal_strlit("install");
            reveal_strlit("--lockfile-only");
            reveal_strlit("pnpm install --lockfile-only");
            let args = seq!["install"@, "--lockfile-only"@];
            assert(args.drop_last() =~= seq!["install"@]);
            assert(text::joined(args.drop_last(), " "@) == "install"@);
            assert(self.lock_command()->0 =~= error::command_line("pnpm"@, args));
        }
    }

    proof fn law_kept(&self, c: Cursor, new: Seq<char>, more: Seq<Answer>) {
        broadcast use {
            session::lemma_past_with,
            workspace::lemma_patterns_kept,
            lemma_first_version_kept,
            lemma_versioned_kept,
            lemma_preview_files_kept,
            lemma_write_files_kept,
        };
    }

    fn name(&self) -> (r: &'static str) {
        "pnpm"
    }

    fn read_version(&self, s: &mut Session<'_>) -> (r: Step<Result<String, Error>>) {
        match read_package_json_version_opt(s, "package.json")? {
            Ok(Some(version)) => Ok(Ok(version)),
            Ok(None) => match pnpm_child_package_jsons(s)? {
                Ok(files) => first_version(s, &files),
                Err(e) => Ok(Err(e)),
            },
            Err(e) => Ok(Err(e)),
        }
    }

    /// Each text that is to be written has the new version, and nothing else in
    /// it changes.
    fn write_version(&self, s: &mut Session<'_>, new: &str) -> (r: Step<Result<(), Error>>)
        ensures
            r matches Err(AskOf::Write(_, t)) ==> reads_version(t@, new@) && renews_last(
            old(s)@,
            t@,
            new@,
        ),
    {
        if let Err(e) = write_package_json_version_if_present(s, "package.json", new)? {
            return Ok(Err(e));
        }
        proof {
            broadcast use workspace::lemma_patterns_calm;

            lemma_children_answers(s@);
        }
        match pnpm_child_package_jsons(s)? {
            Ok(files) => write_files(s, &files, new),
            Err(e) => Ok(Err(e)),
        }
    }

    fn update_lockfile(&self, s: &mut Session<'_>) -> (r: Step<Result<(), Error>>) {
        s.run("", "pnpm", list2("install", "--lockfile-only"))
    }

    fn lockfile_command_preview(&self) -> (r: Option<String>) {
        Some(own("pnpm install --lockfile-only"))
    }

    fn files_to_stage(&self, s: &mut Session<'_>) -> (r: Step<Vec<String>>) {
        let root = stage_root(s)?;
        let mut files = match pnpm_child_package_jsons(s)? {
            Ok(children) => add_versioned(s, &children, root)?,
            Err(e) => {
                warn_unexpanded(s, "pnpm", &e)?;
                root
            },
        };
        if s.is_file("pnpm-lock.yaml")? {
            put(&mut files, own("pnpm-lock.yaml"));
        }
        Ok(files)
    }

    fn publish(&self, s: &mut Session<'_>) -> (r: Step<Result<(), Error>>) {
        if let Err(e) = backends::ensure_npm_login(s, "pnpm", list1("whoami"))? {
            return Ok(Err(e));
        }
        match pnpm_child_package_jsons(s)? {
            Ok(children) => s.run("", "pnpm", pnpm_publish_args(&children)),
            Err(e) => Ok(Err(e)),
        }
    }

    fn publish_command_preview(&self, s: &mut Session<'_>) -> (r: Step<
        Result<Option<String>, Error>,
    >) {
        match pnpm_child_package_jsons(s)? {
            Ok(children) => Ok(
                Ok(Some(plus("pnpm ", &join(&pnpm_publish_args(&children), " ")))),
            ),
            Err(e) => Ok(Err(e)),
        }
    }

    fn additional_write_previews(&self, s: &mut Session<'_>, new: &str) -> (r: Step<
        Result<Vec<String>, Error>,
    >) {
        match pnpm_child_package_jsons(s)? {
            Ok(files) => preview_files(s, &files),
            Err(e) => Ok(Err(e)),
        }
    }

    fn is_publishable(&self, s: &mut Session<'_>) -> (r: Step<Result<bool, Error>>) {
        match pnpm_child_package_jsons(s)? {
            Ok(children) => {
                assert(children.deep_view().len() == children.len());
                if children.len() == 0 {
                    is_package_json_publishable(s, "package.json")
                } else {
                    Ok(Ok(true))
                }
            },
            Err(e) => Ok(Err(e)),
        }
    }
}

} // verus!
