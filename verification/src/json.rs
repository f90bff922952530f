//! JSON documents: reading them, and putting a text into one of their fields.
//!
//! Parsing and printing are the work of the `serde_json` crate.

use vstd::prelude::*;

use crate::data;
use crate::data::Data;
use crate::data::Entries;
use crate::data::Entry;
use crate::data::Node;
use crate::error::Error;
use crate::error::ErrorOf;
use crate::error::ErrorView;
use crate::session;
use crate::session::Cursor;
use crate::session::Model;
use crate::session::Next;
use crate::session::Session;
use crate::session::Step;
use crate::text::own;
use crate::text::same;

verus! {

#[verifier::external_type_specification]
#[verifier::external_body]
pub struct ExValue(serde_json::Value);

/// What a text says as a JSON document, or why it is none.
pub uninterp spec fn json_read(text: Seq<char>) -> Result<Node, Seq<char>>;

/// What a value holds. An object is a `Node::Table`, with its fields in its own
/// order; there is no `Node::Inline`.
pub uninterp spec fn node_of(value: serde_json::Value) -> Node;

/// The JSON document `text`, an object, printed anew with the text `new` in
/// its field `key`.
pub uninterp spec fn json_with(text: Seq<char>, key: Seq<char>, new: Seq<char>) -> Seq<char>;

/// `after` is the object `before` with the text `new` in its field `key`.
pub open spec fn put_in(before: Node, after: Node, key: Seq<char>, new: Seq<char>) -> bool {
    &&& data::field(after, key) == Some(Node::Text(new))
    &&& forall|k: Seq<char>|
        k != key ==> #[trigger] data::field(after, k) == data::field(before, k)
}

/// One text reads as the object that the other one becomes when a text is put
/// into the field `key`.
pub open spec fn reads_put(
    before: Seq<char>,
    after: Seq<char>,
    key: Seq<char>,
    new: Seq<char>,
) -> bool {
    json_read(before) matches Ok(b) && json_read(after) matches Ok(a) && data::fields(b) is Some
        && a is Table && put_in(b, a, key, new)
}

/// Every text that is printed anew with a changed field reads as the object
/// with that field changed. This is what the call below promises of each text
/// that it is given.
pub open spec fn is_faithful() -> bool {
    forall|text: Seq<char>, key: Seq<char>, new: Seq<char>|
        (json_read(text) matches Ok(node) && data::fields(node) is Some) ==> reads_put(
            text,
            #[trigger] json_with(text, key, new),
            key,
            new,
        )
}

// ---------------------------------------------------------------------------
// The calls
// ---------------------------------------------------------------------------

/// `serde_json::from_str` to a `serde_json::Value`. The contract names what is
/// read; an error is told by its own text.
#[verifier::external_body]
fn parse(text: &str) -> (r: Result<serde_json::Value, String>)
    ensures
        match r {
            Ok(value) => json_read(text@) == Ok::<Node, Seq<char>>(node_of(value)),
            Err(why) => json_read(text@) == Err::<Node, Seq<char>>(why@),
        },
{
    serde_json::from_str(text).map_err(|e| e.to_string())
}

/// `serde_json::Value::as_object`, then `Map::keys`: the keys of an object, in
/// its order. No key occurs twice.
#[verifier::external_body]
fn keys(value: &serde_json::Value) -> (r: Option<Vec<String>>)
    ensures
        match r {
            Some(names) => node_of(*value) matches Node::Table(entries) && names.deep_view()
                == data::keys_of(entries) && names.deep_view().no_duplicates(),
            None => data::fields(node_of(*value)) is None,
        },
{
    value.as_object().map(|o| o.keys().cloned().collect())
}

/// `serde_json::Value::get`: the field of an object.
#[verifier::external_body]
fn field_of<'a>(value: &'a serde_json::Value, key: &str) -> (r: Option<&'a serde_json::Value>)
    ensures
        match r {
            Some(inner) => data::field(node_of(*value), key@) == Some(node_of(*inner)),
            None => data::field(node_of(*value), key@) is None,
        },
{
    value.get(key)
}

/// `serde_json::Value::as_str`: the text that the value is.
#[verifier::external_body]
fn as_str(value: &serde_json::Value) -> (r: Option<&str>)
    ensures
        match r {
            Some(t) => node_of(*value) == Node::Text(t@),
            None => !(node_of(*value) is Text),
        },
{
    value.as_str()
}

/// `serde_json::Value::as_bool`: the flag that the value is.
#[verifier::external_body]
fn as_bool(value: &serde_json::Value) -> (r: Option<bool>)
    ensures
        match r {
            Some(b) => node_of(*value) == Node::Flag(b),
            None => !(node_of(*value) is Flag),
        },
{
    value.as_bool()
}

/// `serde_json::Value::as_array`, with `Value::as_str` for each value of the
/// array.
#[verifier::external_body]
fn array_texts(value: &serde_json::Value) -> (r: Option<Vec<Option<String>>>)
    ensures
        match r {
            Some(texts) => node_of(*value) == Node::List(data::texts_seen(texts@)),
            None => !(node_of(*value) is List),
        },
{
    value.as_array().map(|a| a.iter().map(|v| v.as_str().map(str::to_owned)).collect())
}

/// Put a text into a field of an object and print it: `Map::insert` of the
/// object that `Value::as_object_mut` hands out, then
/// `serde_json::to_string_pretty`, which fails on no value that was read from a
/// text. The contract names the printed text and says that it reads as the
/// object with that field changed.
#[verifier::external_body]
pub(crate) fn with_text(text: &str, key: &str, new: &str) -> (r: String)
    requires
        json_read(text@) matches Ok(node) && data::fields(node) is Some,
    ensures
        r@ == json_with(text@, key@, new@),
        reads_put(text@, r@, key@, new@),
{
    let mut json: serde_json::Value = serde_json::from_str(text).unwrap_or_default();
    if let Some(object) = json.as_object_mut() {
        object.insert(key.to_owned(), serde_json::Value::String(new.to_owned()));
    }
    serde_json::to_string_pretty(&json).unwrap_or_default()
}

// ---------------------------------------------------------------------------
// Reading a document
// ---------------------------------------------------------------------------

/// What a value holds, piece by piece.
fn load(value: &serde_json::Value) -> (r: Data)
    ensures
        r.seen() == node_of(*value),
    decreases node_of(*value),
{
    if let Some(t) = as_str(value) {
        return Data::Text(t.to_owned());
    }
    if let Some(b) = as_bool(value) {
        return Data::Flag(b);
    }
    if let Some(texts) = array_texts(value) {
        return Data::List(texts);
    }
    let names = match keys(value) {
        Some(names) => names,
        None => {
            return Data::Other;
        },
    };
    let ghost node = node_of(*value);
    let ghost entries = node->Table_0;
    let mut out: Vec<Entry> = Vec::new();
    let mut i: usize = 0;
    assert(names.deep_view().len() == names@.len());
    while i < names.len()
        invariant
            i <= names.len(),
            node == node_of(*value),
            node == Node::Table(entries),
            names.deep_view() == data::keys_of(entries),
            names.deep_view().no_duplicates(),
            names@.len() == entries.len(),
            data::seen_entries(out@) == entries.take(i as int),
        decreases names.len() - i,
    {
        let ghost k = i as int;
        proof {
            assert(names.deep_view()[k] == names@[k]@);
            assert(data::keys_of(entries)[k] == entries[k].0);
            assert forall|j: int| 0 <= j < k implies (#[trigger] entries[j]).0 != entries[k].0 by {
                assert(data::keys_of(entries)[j] == entries[j].0);
                assert(names.deep_view()[j] != names.deep_view()[k]);
            }
            data::lemma_found(entries, k);
        }
        match field_of(value, &names[i]) {
            Some(inner) => {
                proof {
                    lemma_smaller(node, entries, k);
                }
                let loaded = load(inner);
                let ghost before = out@;
                out.push(Entry { key: names[i].clone(), value: loaded });
                proof {
                    assert(out@.drop_last() =~= before);
                    assert(entries.take(k + 1) =~= entries.take(k).push(entries[k]));
                }
            },
            None => {},
        }
        i = i + 1;
    }
    assert(entries.take(i as int) =~= entries);
    Data::Table(out)
}

/// What an object holds is smaller than the object.
proof fn lemma_smaller(node: Node, entries: Entries, k: int)
    requires
        node == Node::Table(entries),
        0 <= k < entries.len(),
    ensures
        decreases_to!(node => entries[k].1),
{
    assert(decreases_to!(entries => entries[k]));
    assert(decreases_to!(entries[k] => entries[k].1));
    assert(decreases_to!(node => node->Table_0));
}

/// Whether `after` is the object `before` with the text `new` in its field
/// `key`.
pub fn is_put(before: &Data, after: &Data, key: &str, new: &str) -> (r: bool)
    ensures
        r == (data::fields(before.seen()) is Some && after.seen() is Table && put_in(
            before.seen(),
            after.seen(),
            key@,
            new@,
        )),
{
    let b = match before {
        Data::Table(b) => b,
        Data::Inline(b) => b,
        _ => {
            return false;
        },
    };
    let a = match after {
        Data::Table(a) => a,
        _ => {
            return false;
        },
    };
    let there = match data::find_entry(a, key) {
        Some(Data::Text(t)) => same(t, new),
        _ => false,
    };
    let r = there && data::has_all_but(a, b, key) && data::has_all_but(b, a, key);
    proof {
        let (x, y) = (before.seen(), after.seen());
        let (p, q) = (data::seen_entries(b@), data::seen_entries(a@));
        if r {
            assert forall|k: Seq<char>| k != key@ implies #[trigger] data::field(y, k)
                == data::field(x, k) by {
                assert(data::find(q, k) is Some ==> data::find(q, k) == data::find(p, k));
                assert(data::find(p, k) is Some ==> data::find(p, k) == data::find(q, k));
            }
        } else if put_in(x, y, key@, new@) {
            assert forall|k: Seq<char>| k != key@ implies #[trigger] data::find(q, k)
                == data::find(p, k) by {
                assert(data::field(y, k) == data::field(x, k));
            }
            assert(data::all_but(q, p, key@));
            assert forall|k: Seq<char>| k != key@ implies #[trigger] data::find(p, k)
                == data::find(q, k) by {
                assert(data::field(y, k) == data::field(x, k));
            }
            assert(data::all_but(p, q, key@));
            assert(data::field(y, key@) == Some(Node::Text(new@)));
        }
    }
    r
}

/// What a text says as a JSON document, or why it is none.
pub fn read(text: &str) -> (r: Result<Data, String>)
    ensures
        match r {
            Ok(d) => json_read(text@) == Ok::<Node, Seq<char>>(d.seen()),
            Err(why) => json_read(text@) == Err::<Node, Seq<char>>(why@),
        },
{
    match parse(text) {
        Ok(value) => Ok(load(&value)),
        Err(why) => Err(why),
    }
}

/// Read and parse the file at `path`.
pub open spec fn doc_step(c: Cursor, path: Seq<char>) -> Next<
    Result<(Seq<char>, Node), ErrorView>,
> {
    c.read(path).and_ok(
        |t: Seq<char>, c: Cursor|
            match json_read(t) {
                Ok(node) => Next::Done(Ok((t, node)), c),
                Err(why) => Next::Done(Err(ErrorOf::Parse(c.shown(path), why)), c),
            },
    )
}

/// A JSON document: its text and what it says.
pub struct Doc {
    text: String,
    data: Data,
}

impl Model for Doc {
    type M = (Seq<char>, Node);

    closed spec fn model(&self) -> (Seq<char>, Node) {
        (self.text@, self.data.seen())
    }
}

/// The text reads as a document that says this.
pub open spec fn reads_as(text: Seq<char>, node: Node) -> bool {
    json_read(text) == Ok::<Node, Seq<char>>(node)
}

impl Doc {
    #[verifier::type_invariant]
    spec fn says_its_text(self) -> bool {
        reads_as(self.text@, self.data.seen())
    }

    /// The document with this text, or why it is none.
    pub fn parse(text: &str) -> (r: Result<Doc, String>)
        ensures
            match r {
                Ok(doc) => reads_as(text@, doc.model().1) && doc.model().0 == text@,
                Err(why) => json_read(text@) == Err::<Node, Seq<char>>(why@),
            },
    {
        match read(text) {
            Ok(data) => Ok(Doc { text: own(text), data }),
            Err(why) => Err(why),
        }
    }

    /// The text.
    pub fn text(&self) -> (r: &String)
        ensures
            r@ == self.model().0,
            reads_as(r@, self.model().1),
    {
        proof {
            use_type_invariant(self);
        }
        &self.text
    }

    /// What the text says.
    pub fn data(&self) -> (r: &Data)
        ensures
            r.seen() == self.model().1,
    {
        &self.data
    }
}

/// Read and parse the file at `path`.
pub fn read_doc(s: &mut Session<'_>, path: &str) -> (r: Step<Result<Doc, Error>>)
    ensures
        session::step(r, final(s)@) == doc_step(old(s)@, path@),
{
    match s.read(path)? {
        Ok(text) => match Doc::parse(&text) {
            Ok(doc) => Ok(Ok(doc)),
            Err(why) => Ok(Err(ErrorOf::Parse(s.shown(path), why))),
        },
        Err(e) => Ok(Err(e)),
    }
}

} // verus!
