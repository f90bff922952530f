//! Project-local configuration of the tool: `.release.toml`.
//!
//! The file lets a repository opt out of the publish step. It is looked up in
//! the project's directory and those above it, up to the first one that has a
//! `.git`: the top of the repository.

use vstd::prelude::*;

use crate::data;
use crate::data::Data;
use crate::data::Entries;
use crate::data::Entry;
use crate::data::Node;
use crate::error::Error;
use crate::error::ErrorOf;
use crate::error::ErrorView;
use crate::paths;
use crate::session;
use crate::session::Cursor;
use crate::session::Model;
use crate::session::Next;
use crate::session::Session;
use crate::session::Step;
use crate::text::own;
use crate::text::same;
use crate::toml;

verus! {

/// The name of the configuration file.
pub const FILE_NAME: &'static str = ".release.toml";

/// The first key of the configuration that is not `publish`.
pub open spec fn first_unknown(keys: Seq<Seq<char>>, i: int) -> Option<Seq<char>>
    decreases keys.len() - i,
{
    if i >= keys.len() {
        None
    } else if keys[i] != "publish"@ {
        Some(keys[i])
    } else {
        first_unknown(keys, i + 1)
    }
}

/// Whether a configuration enables publishing: it does unless it says
/// `publish = false`. It has no other keys.
pub open spec fn publish_flag(entries: Entries, path: Seq<char>) -> Result<bool, ErrorView> {
    match first_unknown(data::keys_of(entries), 0) {
        Some(key) => Err(ErrorOf::UnknownKey(key, path)),
        None => match data::find(entries, "publish"@) {
            None => Ok(true),
            Some(Node::Flag(b)) => Ok(b),
            Some(_) => Err(ErrorOf::PublishNotBool(path)),
        },
    }
}

/// Whether the text of the configuration file at `path` enables publishing.
pub open spec fn flag_in_text(t: Seq<char>, path: Seq<char>) -> Result<bool, ErrorView> {
    match toml::toml_read(t) {
        Err(why) => Err(ErrorOf::Parse(path, why)),
        Ok(Node::Table(entries)) => publish_flag(entries, path),
        Ok(_) => Ok(true),
    }
}

/// The search for the configuration from the directory at `i` on.
pub open spec fn search_from(c: Cursor, dirs: Seq<Seq<char>>, i: int) -> Next<
    Result<bool, ErrorView>,
>
    decreases dirs.len() - i,
{
    if i >= dirs.len() {
        Next::Done(Ok(true), c)
    } else {
        let path = paths::joined_to(dirs[i], FILE_NAME@, c.sep);
        c.look(path).and_ok(
            |found: Option<Seq<char>>, c: Cursor|
                match found {
                    Some(t) => Next::Done(flag_in_text(t, path), c),
                    None => c.exists_at(paths::joined_to(dirs[i], ".git"@, c.sep)).and(
                        |top: bool, c: Cursor|
                            if top {
                                Next::Done(Ok(true), c)
                            } else {
                                search_from(c, dirs, i + 1)
                            },
                    ),
                },
        )
    }
}

/// Whether publishing is enabled for the project.
pub open spec fn publish_enabled_step(c: Cursor) -> Next<Result<bool, ErrorView>> {
    c.ancestors().and_ok(|dirs: Seq<Seq<char>>, c: Cursor| search_from(c, dirs, 0))
}

/// The nearest configuration decides, and the search does not go beyond the top
/// of the repository: neither looks at the directories further up.
pub proof fn law_nearest_configuration_decides(c: Cursor, dirs: Seq<Seq<char>>, i: int)
    requires
        0 <= i < dirs.len(),
    ensures
        ({
            let path = paths::joined_to(dirs[i], FILE_NAME@, c.sep);
            let top = paths::joined_to(dirs[i], ".git"@, c.sep);
            match c.look(path) {
                Next::Done(Ok(Some(t)), c1) => search_from(c, dirs, i) == Next::Done(
                    flag_in_text(t, path),
                    c1,
                ),
                Next::Done(Ok(None), c1) => c1.exists_at(top) matches Next::Done(true, c2)
                    ==> search_from(c, dirs, i) == Next::Done(Ok::<bool, ErrorView>(true), c2),
                _ => true,
            }
        }),
{
}

/// Whether the entries of the configuration file at `path` enable publishing.
pub fn read_publish_flag(entries: &Vec<Entry>, path: &str) -> (r: Result<bool, Error>)
    ensures
        r.model() == publish_flag(data::seen_entries(entries@), path@),
{
    let ghost all = data::keys_of(data::seen_entries(entries@));
    proof {
        data::lemma_seen_entries(entries@);
    }
    let mut i: usize = 0;
    while i < entries.len()
        invariant
            i <= entries.len(),
            all == data::keys_of(data::seen_entries(entries@)),
            all.len() == entries.len(),
            forall|k: int| 0 <= k < entries.len() ==> #[trigger] all[k] == entries@[k].key@,
            first_unknown(all, 0) == first_unknown(all, i as int),
        decreases entries.len() - i,
    {
        if !same(&entries[i].key, "publish") {
            return Err(ErrorOf::UnknownKey(entries[i].key.clone(), own(path)));
        }
        i = i + 1;
    }
    match data::find_entry(entries, "publish") {
        None => Ok(true),
        Some(Data::Flag(b)) => Ok(*b),
        Some(_) => Err(ErrorOf::PublishNotBool(own(path))),
    }
}

/// Whether the text of the configuration file at `path` enables publishing.
pub fn parse_publish_flag(t: &str, path: &str) -> (r: Result<bool, Error>)
    ensures
        r.model() == flag_in_text(t@, path@),
{
    match toml::read(t) {
        Ok(entries) => read_publish_flag(&entries, path),
        Err(why) => Err(ErrorOf::Parse(own(path), why)),
    }
}

/// Whether the publish step is enabled for the project.
pub fn is_publish_enabled(s: &mut Session<'_>) -> (r: Step<Result<bool, Error>>)
    ensures
        session::step(r, final(s)@) == publish_enabled_step(old(s)@),
{
    let dirs = match s.ancestors()? {
        Ok(dirs) => dirs,
        Err(e) => {
            return Ok(Err(e));
        },
    };
    let ghost all = dirs.deep_view();
    let mut i: usize = 0;
    while i < dirs.len()
        invariant
            i <= dirs.len(),
            dirs.deep_view() == all,
            publish_enabled_step(old(s)@) == search_from(s@, all, i as int),
        decreases dirs.len() - i,
    {
        assert(all[i as int] == dirs@[i as int]@);
        let path = paths::join(&dirs[i], FILE_NAME, s.separator());
        match s.look(&path)? {
            Ok(Some(t)) => {
                return Ok(parse_publish_flag(&t, &path));
            },
            Ok(None) => {},
            Err(e) => {
                return Ok(Err(e));
            },
        }
        if s.exists_at(&paths::join(&dirs[i], ".git", s.separator()))? {
            return Ok(Ok(true));
        }
        i = i + 1;
    }
    Ok(Ok(true))
}

} // verus!
