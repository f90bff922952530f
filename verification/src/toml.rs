//! TOML documents: reading them, and putting a text into one of their slots.
//!
//! Parsing and printing are the work of the `toml_edit` crate.

use vstd::prelude::*;

use crate::data;
use crate::data::Data;
use crate::data::Entries;
use crate::data::Entry;
use crate::data::Node;
use crate::error::Error;
use crate::error::ErrorOf;
use crate::error::ErrorView;
use crate::session;
use crate::session::Answer;
use crate::session::Cursor;
use crate::session::Model;
use crate::session::Next;
use crate::session::Session;
use crate::session::Step;
use crate::text::list1;
use crate::text::list2;
use crate::text::own;

verus! {

#[verifier::external_type_specification]
#[verifier::external_body]
pub struct ExItem(toml_edit::Item);

/// What a text says as a TOML document, which is a `Node::Table`, or why it is
/// none.
pub uninterp spec fn toml_read(text: Seq<char>) -> Result<Node, Seq<char>>;

/// What an item holds. The entries of a table are in the order of the document.
pub uninterp spec fn node_of(item: toml_edit::Item) -> Node;

/// The TOML document `text` with the text `new` in the slot at `path`.
pub uninterp spec fn toml_with(text: Seq<char>, path: Seq<Seq<char>>, new: Seq<char>) -> Seq<char>;

/// One path leads through the end of the other.
pub open spec fn nested(p: Seq<Seq<char>>, q: Seq<Seq<char>>) -> bool {
    p.is_prefix_of(q) || q.is_prefix_of(p)
}

/// Each table on the way to the end of the path is there.
pub open spec fn has_way(node: Node, path: Seq<Seq<char>>) -> bool {
    path.len() > 0 && forall|k: int|
        0 <= k < path.len() ==> (#[trigger] data::at(node, path.take(k)) matches Some(n)
            && data::fields(n) is Some)
}

/// `after` is what `before` becomes when a text is put into the slot at
/// `path`: that text is there, the tables on the way are of the kind that they
/// were, and what is not on the way is what it was.
pub open spec fn put_at(before: Node, after: Node, path: Seq<Seq<char>>, new: Seq<char>) -> bool {
    &&& data::at(after, path) == Some(Node::Text(new))
    &&& forall|k: int|
        0 <= k < path.len() ==> (#[trigger] data::at(after, path.take(k)) matches Some(n)
            && data::fields(n) is Some && (n is Table <==> data::at(
            before,
            path.take(k),
        ) matches Some(Node::Table(_))))
    &&& forall|q: Seq<Seq<char>>|
        !nested(path, q) ==> #[trigger] data::at(after, q) == data::at(before, q)
}

/// One text reads as the document that the other one becomes when a text is
/// put into the slot at `path`.
pub open spec fn reads_put(
    before: Seq<char>,
    after: Seq<char>,
    path: Seq<Seq<char>>,
    new: Seq<char>,
) -> bool {
    toml_read(before) matches Ok(b) && toml_read(after) matches Ok(a) && put_at(b, a, path, new)
}

/// Every document is a table, and every text with a changed slot reads as the
/// document with that slot changed. This is what the calls below promise of
/// each text that they are given.
pub open spec fn is_faithful() -> bool {
    &&& forall|text: Seq<char>| (#[trigger] toml_read(text)) matches Ok(node) ==> node is Table
    &&& forall|text: Seq<char>, path: Seq<Seq<char>>, new: Seq<char>|
        (toml_read(text) matches Ok(node) && has_way(node, path)) ==> reads_put(
            text,
            #[trigger] toml_with(text, path, new),
            path,
            new,
        )
}

// ---------------------------------------------------------------------------
// The calls
// ---------------------------------------------------------------------------

/// Parse a document: `str::parse` to a `toml_edit::DocumentMut`, whose root
/// `DocumentMut::into_item` hands out and is always a table. The contract names
/// what is read; an error is told by its own text.
#[verifier::external_body]
fn parse(text: &str) -> (r: Result<toml_edit::Item, String>)
    ensures
        match r {
            Ok(item) => toml_read(text@) == Ok::<Node, Seq<char>>(node_of(item)) && node_of(
                item,
            ) is Table,
            Err(why) => toml_read(text@) == Err::<Node, Seq<char>>(why@),
        },
{
    match text.parse::<toml_edit::DocumentMut>() {
        Ok(doc) => Ok(doc.into_item()),
        Err(e) => Err(e.to_string()),
    }
}

/// `toml_edit::Item::is_table`: the item is a table, and not an inline one.
#[verifier::external_body]
fn is_table(item: &toml_edit::Item) -> (r: bool)
    ensures
        r == (node_of(*item) is Table),
{
    item.is_table()
}

/// `toml_edit::Item::as_table_like`, then `TableLike::iter`: the keys of a
/// table of either kind, in its order. No key occurs twice.
#[verifier::external_body]
fn keys(item: &toml_edit::Item) -> (r: Option<Vec<String>>)
    ensures
        match r {
            Some(names) => data::fields(node_of(*item)) matches Some(entries) && names.deep_view()
                == data::keys_of(entries) && names.deep_view().no_duplicates(),
            None => data::fields(node_of(*item)) is None,
        },
{
    item.as_table_like().map(|t| t.iter().map(|(key, _)| key.to_owned()).collect())
}

/// `toml_edit::Item::as_table_like`, then `TableLike::get`: the field of a
/// table of either kind.
#[verifier::external_body]
fn field_of<'a>(item: &'a toml_edit::Item, key: &str) -> (r: Option<&'a toml_edit::Item>)
    ensures
        match r {
            Some(inner) => data::field(node_of(*item), key@) == Some(node_of(*inner)),
            None => data::field(node_of(*item), key@) is None,
        },
{
    item.as_table_like().and_then(|t| t.get(key))
}

/// `toml_edit::Item::as_str`: the text that the item is.
#[verifier::external_body]
fn as_str(item: &toml_edit::Item) -> (r: Option<&str>)
    ensures
        match r {
            Some(t) => node_of(*item) == Node::Text(t@),
            None => !(node_of(*item) is Text),
        },
{
    item.as_str()
}

/// `toml_edit::Item::as_bool`: the flag that the item is.
#[verifier::external_body]
fn as_bool(item: &toml_edit::Item) -> (r: Option<bool>)
    ensures
        match r {
            Some(b) => node_of(*item) == Node::Flag(b),
            None => !(node_of(*item) is Flag),
        },
{
    item.as_bool()
}

/// `toml_edit::Item::as_array`, with `Value::as_str` for each value of the
/// array.
#[verifier::external_body]
fn array_texts(item: &toml_edit::Item) -> (r: Option<Vec<Option<String>>>)
    ensures
        match r {
            Some(texts) => node_of(*item) == Node::List(data::texts_seen(texts@)),
            None => !(node_of(*item) is List),
        },
{
    item.as_array().map(|a| a.iter().map(|v| v.as_str().map(str::to_owned)).collect())
}

/// Put a text into the slot at a path and print the document: the items on the
/// way with `IndexMut` of `toml_edit::Item`, the text with `toml_edit::value`,
/// the document with `to_string`. `IndexMut` needs the tables on the way to be
/// there. The contract names the printed text and says that it reads as the
/// document with that slot changed.
#[verifier::external_body]
pub(crate) fn with_text(text: &str, path: &Vec<String>, new: &str) -> (r: String)
    requires
        toml_read(text@) matches Ok(node) && has_way(node, path.deep_view()),
    ensures
        r@ == toml_with(text@, path.deep_view(), new@),
        reads_put(text@, r@, path.deep_view(), new@),
{
    let mut doc = text.parse::<toml_edit::DocumentMut>().unwrap_or_default();
    let mut slot = doc.as_item_mut();
    for key in path {
        slot = &mut slot[key.as_str()];
    }
    *slot = toml_edit::value(new);
    doc.to_string()
}

// ---------------------------------------------------------------------------
// Reading a document
// ---------------------------------------------------------------------------

/// What an item holds, piece by piece.
fn load(item: &toml_edit::Item) -> (r: Data)
    ensures
        r.seen() == node_of(*item),
    decreases node_of(*item),
{
    if let Some(t) = as_str(item) {
        return Data::Text(t.to_owned());
    }
    if let Some(b) = as_bool(item) {
        return Data::Flag(b);
    }
    if let Some(texts) = array_texts(item) {
        return Data::List(texts);
    }
    let names = match keys(item) {
        Some(names) => names,
        None => {
            return Data::Other;
        },
    };
    let ghost node = node_of(*item);
    let ghost entries = data::fields(node)->0;
    let mut out: Vec<Entry> = Vec::new();
    let mut i: usize = 0;
    assert(names.deep_view().len() == names@.len());
    while i < names.len()
        invariant
            i <= names.len(),
            node == node_of(*item),
            data::fields(node) == Some(entries),
            names.deep_view() == data::keys_of(entries),
            names.deep_view().no_duplicates(),
            names@.len() == entries.len(),
            data::seen_entries(out@) == entries.take(i as int),
        decreases names.len() - i,
    {
        let ghost k = i as int;
        proof {
            assert(names.deep_view()[k] == names@[k]@);
            assert(data::keys_of(entries)[k] == entries[k].0);
            assert forall|j: int| 0 <= j < k implies (#[trigger] entries[j]).0 != entries[k].0 by {
                assert(data::keys_of(entries)[j] == entries[j].0);
                assert(names.deep_view()[j] != names.deep_view()[k]);
            }
            data::lemma_found(entries, k);
        }
        match field_of(item, &names[i]) {
            Some(inner) => {
                proof {
                    lemma_smaller(node, entries, k);
                }
                let value = load(inner);
                let ghost before = out@;
                out.push(Entry { key: names[i].clone(), value });
                proof {
                    assert(out@.drop_last() =~= before);
                    assert(entries.take(k + 1) =~= entries.take(k).push(entries[k]));
                }
            },
            None => {},
        }
        i = i + 1;
    }
    assert(entries.take(i as int) =~= entries);
    if is_table(item) {
        Data::Table(out)
    } else {
        Data::Inline(out)
    }
}

/// What a table holds is smaller than the table.
proof fn lemma_smaller(node: Node, entries: Entries, k: int)
    requires
        data::fields(node) == Some(entries),
        0 <= k < entries.len(),
    ensures
        decreases_to!(node => entries[k].1),
{
    assert(decreases_to!(entries => entries[k]));
    assert(decreases_to!(entries[k] => entries[k].1));
    match node {
        Node::Table(e) => {
            assert(decreases_to!(node => node->Table_0));
        },
        Node::Inline(e) => {
            assert(decreases_to!(node => node->Inline_0));
        },
        _ => {},
    }
}

/// The entries of a text that is a TOML document, or why it is none.
pub open spec fn entries_in(text: Seq<char>) -> Result<Entries, Seq<char>> {
    match toml_read(text) {
        Ok(node) => Ok(data::top(node)),
        Err(why) => Err(why),
    }
}

/// What a text says as a TOML document: its entries, or why it is none.
pub fn read(text: &str) -> (r: Result<Vec<Entry>, String>)
    ensures
        match r {
            Ok(entries) => toml_read(text@) == Ok::<Node, Seq<char>>(
                Node::Table(data::seen_entries(entries@)),
            ) && entries_in(text@) == Ok::<Entries, Seq<char>>(data::seen_entries(entries@)),
            Err(why) => toml_read(text@) == Err::<Node, Seq<char>>(why@) && entries_in(text@)
                == Err::<Entries, Seq<char>>(why@),
        },
{
    match parse(text) {
        Ok(item) => match load(&item) {
            Data::Table(entries) => Ok(entries),
            _ => Ok(Vec::new()),
        },
        Err(why) => Err(why),
    }
}

/// A manifest: its text and what it says.
pub struct Doc {
    text: String,
    entries: Vec<Entry>,
}

impl Model for Doc {
    type M = (Seq<char>, Entries);

    closed spec fn model(&self) -> (Seq<char>, Entries) {
        (self.text@, data::seen_entries(self.entries@))
    }
}

/// The text reads as a document with these entries.
pub open spec fn reads_as(text: Seq<char>, entries: Entries) -> bool {
    toml_read(text) == Ok::<Node, Seq<char>>(Node::Table(entries))
}

impl Doc {
    #[verifier::type_invariant]
    spec fn says_its_text(self) -> bool {
        reads_as(self.text@, data::seen_entries(self.entries@))
    }

    /// The manifest with this text, or why it is none.
    pub fn parse(text: &str) -> (r: Result<Doc, String>)
        ensures
            match r {
                Ok(doc) => reads_as(text@, doc.model().1) && doc.model().0 == text@,
                Err(why) => toml_read(text@) == Err::<Node, Seq<char>>(why@),
            },
    {
        match read(text) {
            Ok(entries) => Ok(Doc { text: own(text), entries }),
            Err(why) => Err(why),
        }
    }

    /// The text.
    pub fn text(&self) -> (r: &String)
        ensures
            r@ == self.model().0,
            reads_as(r@, self.model().1),
    {
        proof {
            use_type_invariant(self);
        }
        &self.text
    }

    /// What the text says.
    pub fn entries(&self) -> (r: &Vec<Entry>)
        ensures
            data::seen_entries(r@) == self.model().1,
    {
        &self.entries
    }
}

/// Read and parse the manifest at `path`.
pub open spec fn doc_step(c: Cursor, path: Seq<char>) -> Next<
    Result<(Seq<char>, Entries), ErrorView>,
> {
    c.read(path).and_ok(
        |t: Seq<char>, c: Cursor|
            match entries_in(t) {
                Ok(entries) => Next::Done(Ok((t, entries)), c),
                Err(why) => Next::Done(Err(ErrorOf::Parse(c.shown(path), why)), c),
            },
    )
}

/// What an answer says as a manifest.
pub open spec fn manifest_of(a: Answer) -> Option<(Seq<char>, Entries)> {
    match a {
        Answer::Text(t) => match entries_in(t@) {
            Ok(entries) => Some((t@, entries)),
            Err(_) => None,
        },
        _ => None,
    }
}

/// The error about a manifest that the answer does not give.
pub open spec fn unread(c: Cursor, path: Seq<char>, a: Answer) -> ErrorView {
    doc_step(c.with(seq![a]), path)->Done_0->Err_0
}

/// Read and parse the manifest at `path`.
pub fn read_doc(s: &mut Session<'_>, path: &str) -> (r: Step<Result<Doc, Error>>)
    ensures
        session::step(r, final(s)@) == doc_step(old(s)@, path@),
{
    match s.read(path)? {
        Ok(text) => match Doc::parse(&text) {
            Ok(doc) => Ok(Ok(doc)),
            Err(why) => Ok(Err(ErrorOf::Parse(s.shown(path), why))),
        },
        Err(e) => Ok(Err(e)),
    }
}

/// Going on by one key.
pub proof fn lemma_at_push(node: Node, path: Seq<Seq<char>>, key: Seq<char>)
    ensures
        data::at(node, path.push(key)) == (match data::at(node, path) {
            Some(n) => data::field(n, key),
            None => None,
        }),
    decreases path.len(),
{
    let longer = path.push(key);
    if path.len() == 0 {
        assert(longer.skip(1) =~= Seq::empty());
        reveal_with_fuel(data::at, 2);
    } else {
        assert(longer[0] == path[0]);
        assert(longer.skip(1) =~= path.skip(1).push(key));
        if let Some(next) = data::field(node, path[0]) {
            lemma_at_push(next, path.skip(1), key);
        }
    }
}

/// In a table there is a way to each of its slots.
pub proof fn lemma_way_one(node: Node, key: Seq<char>)
    requires
        data::fields(node) is Some,
    ensures
        has_way(node, seq![key]),
        data::at(node, seq![key]) == data::field(node, key),
{
    assert(seq![key] =~= Seq::empty().push(key));
    lemma_at_push(node, Seq::empty(), key);
    assert forall|k: int| 0 <= k < 1 implies (#[trigger] data::at(
        node,
        seq![key].take(k),
    ) matches Some(n) && data::fields(n) is Some) by {
        assert(seq![key].take(k) =~= Seq::empty());
    }
}

/// Where a way ends in a table, it goes on to each of its slots.
pub proof fn lemma_way_push(node: Node, path: Seq<Seq<char>>, key: Seq<char>)
    requires
        has_way(node, path),
        data::at(node, path) matches Some(n) && data::fields(n) is Some,
    ensures
        has_way(node, path.push(key)),
        data::at(node, path.push(key)) == data::field(data::at(node, path)->0, key),
{
    let longer = path.push(key);
    lemma_at_push(node, path, key);
    assert forall|k: int| 0 <= k < longer.len() implies (#[trigger] data::at(
        node,
        longer.take(k),
    ) matches Some(n) && data::fields(n) is Some) by {
        if k < path.len() {
            assert(longer.take(k) =~= path.take(k));
            assert(data::at(node, path.take(k)) is Some);
        } else {
            assert(longer.take(k) =~= path);
        }
    }
}

/// Off the path, and on the way to its end, tables stay tables and others stay
/// others.
pub proof fn lemma_kind_kept(
    before: Node,
    after: Node,
    path: Seq<Seq<char>>,
    new: Seq<char>,
    q: Seq<Seq<char>>,
)
    requires
        has_way(before, path),
        put_at(before, after, path, new),
        !path.is_prefix_of(q),
    ensures
        data::at(after, q) is Some <==> data::at(before, q) is Some,
        data::at(after, q) matches Some(Node::Table(_)) <==> data::at(before, q) matches Some(
            Node::Table(_),
        ),
{
    if q.is_prefix_of(path) {
        let k = q.len() as int;
        assert(path.take(k) =~= q);
        if k == path.len() {
            assert(path =~= q);
        }
        assert(data::at(after, path.take(k)) is Some);
        assert(data::at(before, path.take(k)) is Some);
    }
}

/// Two paths that part at a key do not lead through each other's end.
pub proof fn lemma_part(p: Seq<Seq<char>>, q: Seq<Seq<char>>, k: int)
    requires
        0 <= k < p.len(),
        k < q.len(),
        p[k] != q[k],
    ensures
        !nested(p, q),
{
    if p.is_prefix_of(q) {
        assert(q.take(p.len() as int)[k] == p[k]);
    }
    if q.is_prefix_of(p) {
        assert(p.take(q.len() as int)[k] == q[k]);
    }
}

/// A slot of the outermost table.
pub proof fn lemma_put_one(before: Node, after: Node, a: Seq<char>, new: Seq<char>)
    requires
        before is Table,
        put_at(before, after, seq![a], new),
    ensures
        after is Table,
        data::find(data::top(after), a) == Some(Node::Text(new)),
        forall|k: Seq<char>|
            k != a ==> #[trigger] data::find(data::top(after), k) == data::find(
                data::top(before),
                k,
            ),
{
    lemma_way_one(before, a);
    let none = Seq::<Seq<char>>::empty();
    assert(seq![a].take(0) =~= none);
    assert(data::at(after, none) == Some(after));
    assert(data::at(before, none) == Some(before));
    assert(data::at(after, seq![a].take(0)) is Some);
    lemma_way_one(after, a);
    assert forall|k: Seq<char>| k != a implies #[trigger] data::find(data::top(after), k)
        == data::find(data::top(before), k) by {
        lemma_part(seq![a], seq![k], 0);
        lemma_way_one(after, k);
        lemma_way_one(before, k);
    }
}

/// A slot of a table in the outermost table.
pub proof fn lemma_put_two(
    before: Node,
    after: Node,
    a: Seq<char>,
    b: Seq<char>,
    new: Seq<char>,
)
    requires
        before is Table,
        data::table_in(data::top(before), a) is Some,
        put_at(before, after, seq![a, b], new),
    ensures
        after is Table,
        data::table_in(data::top(after), a) is Some,
        data::find(data::table_in(data::top(after), a)->0, b) == Some(Node::Text(new)),
        forall|k: Seq<char>|
            k != a ==> #[trigger] data::find(data::top(after), k) == data::find(
                data::top(before),
                k,
            ),
        forall|k: Seq<char>|
            k != b ==> #[trigger] data::find(data::table_in(data::top(after), a)->0, k)
                == data::find(data::table_in(data::top(before), a)->0, k),
{
    let path = seq![a, b];
    assert(path =~= seq![a].push(b));
    lemma_way_one(before, a);
    lemma_way_push(before, seq![a], b);
    let none = Seq::<Seq<char>>::empty();
    assert(path.take(0) =~= none);
    assert(path.take(1) =~= seq![a]);
    assert(data::at(after, none) == Some(after));
    assert(data::at(before, none) == Some(before));
    assert(data::at(after, path.take(0)) is Some);
    assert(data::at(after, path.take(1)) is Some);
    lemma_way_one(after, a);
    lemma_way_push(after, seq![a], b);
    assert forall|k: Seq<char>| k != a implies #[trigger] data::find(data::top(after), k)
        == data::find(data::top(before), k) by {
        lemma_part(path, seq![k], 0);
        lemma_way_one(after, k);
        lemma_way_one(before, k);
    }
    assert forall|k: Seq<char>| k != b implies #[trigger] data::find(
        data::table_in(data::top(after), a)->0,
        k,
    ) == data::find(data::table_in(data::top(before), a)->0, k) by {
        let q = seq![a].push(k);
        lemma_part(path, q, 1);
        lemma_way_push(after, seq![a], k);
        lemma_way_push(before, seq![a], k);
    }
}

/// Put a text into a slot of the outermost table.
pub(crate) fn put_one(text: &str, a: &str, new: &str) -> (r: String)
    requires
        toml_read(text@) matches Ok(Node::Table(_)),
    ensures
        r@ == toml_with(text@, seq![a@], new@),
        reads_put(text@, r@, seq![a@], new@),
{
    proof {
        lemma_way_one(toml_read(text@)->Ok_0, a@);
    }
    with_text(text, &list1(a), new)
}

/// Put a text into a slot of a table in the outermost table.
pub(crate) fn put_two(text: &str, a: &str, b: &str, new: &str) -> (r: String)
    requires
        toml_read(text@) matches Ok(node) && node is Table && data::table_in(
            data::top(node),
            a@,
        ) is Some,
    ensures
        r@ == toml_with(text@, seq![a@, b@], new@),
        reads_put(text@, r@, seq![a@, b@], new@),
{
    proof {
        let node = toml_read(text@)->Ok_0;
        lemma_way_one(node, a@);
        lemma_way_push(node, seq![a@], b@);
        assert(seq![a@, b@] =~= seq![a@].push(b@));
    }
    with_text(text, &list2(a, b), new)
}

} // verus!
