//! What stands in a manifest, whatever its format.

use vstd::prelude::*;

use crate::session::Model;
use crate::text::list0;
use crate::text::put;
use crate::text::same;

verus! {

/// A piece of a manifest.
#[derive(Debug)]
pub enum Data {
    Text(String),
    Flag(bool),
    /// A list: for each value its text, if it is one.
    List(Vec<Option<String>>),
    /// A table that is written inline.
    Inline(Vec<Entry>),
    /// A table or an object.
    Table(Vec<Entry>),
    /// Anything else: a number, a date, nothing.
    Other,
}

/// An entry of a table. No two entries of a table have the same key.
#[derive(Debug)]
pub struct Entry {
    pub key: String,
    pub value: Data,
}

/// A piece of a manifest as a mathematical value.
pub enum Node {
    Text(Seq<char>),
    Flag(bool),
    List(Seq<Option<Seq<char>>>),
    Inline(Seq<(Seq<char>, Node)>),
    Table(Seq<(Seq<char>, Node)>),
    Other,
}

pub type Entries = Seq<(Seq<char>, Node)>;

impl Data {
    pub open spec fn seen(self) -> Node
        decreases self,
    {
        match self {
            Data::Text(t) => Node::Text(t@),
            Data::Flag(b) => Node::Flag(b),
            Data::List(v) => Node::List(texts_seen(v@)),
            Data::Inline(e) => Node::Inline(seen_entries(e@)),
            Data::Table(e) => Node::Table(seen_entries(e@)),
            Data::Other => Node::Other,
        }
    }
}

/// The texts of a list.
pub open spec fn texts_seen(v: Seq<Option<String>>) -> Seq<Option<Seq<char>>> {
    Seq::new(v.len(), |i: int| v[i].model())
}

pub open spec fn seen_entries(e: Seq<Entry>) -> Entries
    decreases e,
{
    if e.len() == 0 {
        Seq::empty()
    } else {
        seen_entries(e.drop_last()).push((e.last().key@, e.last().value.seen()))
    }
}

/// The first entry with this key.
pub open spec fn find(entries: Entries, key: Seq<char>) -> Option<Node>
    decreases entries.len(),
{
    if entries.len() == 0 {
        None
    } else if entries[0].0 == key {
        Some(entries[0].1)
    } else {
        find(entries.skip(1), key)
    }
}

/// The keys of entries, in their order.
pub open spec fn keys_of(entries: Entries) -> Seq<Seq<char>> {
    Seq::new(entries.len(), |i: int| entries[i].0)
}

/// The entries of a table of either kind.
pub open spec fn fields(node: Node) -> Option<Entries> {
    match node {
        Node::Table(entries) => Some(entries),
        Node::Inline(entries) => Some(entries),
        _ => None,
    }
}

/// The field with this key, in a table of either kind.
pub open spec fn field(node: Node, key: Seq<char>) -> Option<Node> {
    match fields(node) {
        Some(entries) => find(entries, key),
        None => None,
    }
}

/// What stands at the end of a path of keys.
pub open spec fn at(node: Node, path: Seq<Seq<char>>) -> Option<Node>
    decreases path.len(),
{
    if path.len() == 0 {
        Some(node)
    } else {
        match field(node, path[0]) {
            Some(next) => at(next, path.skip(1)),
            None => None,
        }
    }
}

/// The table with this key, unless it is an inline one.
pub open spec fn table_in(entries: Entries, key: Seq<char>) -> Option<Entries> {
    match find(entries, key) {
        Some(Node::Table(inner)) => Some(inner),
        _ => None,
    }
}

/// The text with this key.
pub open spec fn text_in(entries: Entries, key: Seq<char>) -> Option<Seq<char>> {
    match find(entries, key) {
        Some(Node::Text(t)) => Some(t),
        _ => None,
    }
}

/// The flag with this key.
pub open spec fn flag_in(entries: Entries, key: Seq<char>) -> Option<bool> {
    match find(entries, key) {
        Some(Node::Flag(b)) => Some(b),
        _ => None,
    }
}

/// The texts of a list, in their order, without what is no text.
pub open spec fn texts_among(list: Seq<Option<Seq<char>>>) -> Seq<Seq<char>>
    decreases list.len(),
{
    if list.len() == 0 {
        Seq::empty()
    } else {
        match list.last() {
            Some(t) => texts_among(list.drop_last()).push(t),
            None => texts_among(list.drop_last()),
        }
    }
}

/// The texts in the list with this key.
pub open spec fn texts_in(entries: Entries, key: Seq<char>) -> Seq<Seq<char>> {
    match find(entries, key) {
        Some(Node::List(list)) => texts_among(list),
        _ => Seq::empty(),
    }
}

/// The text in the field with this key.
pub open spec fn text_field(node: Node, key: Seq<char>) -> Option<Seq<char>> {
    match field(node, key) {
        Some(Node::Text(t)) => Some(t),
        _ => None,
    }
}

/// The flag in the field with this key.
pub open spec fn flag_field(node: Node, key: Seq<char>) -> Option<bool> {
    match field(node, key) {
        Some(Node::Flag(b)) => Some(b),
        _ => None,
    }
}

/// The entries of a table or object, none if the piece is something else.
pub open spec fn top(node: Node) -> Entries {
    match node {
        Node::Table(entries) => entries,
        _ => Seq::empty(),
    }
}

pub proof fn lemma_seen_entries(e: Seq<Entry>)
    ensures
        seen_entries(e).len() == e.len(),
        forall|i: int|
            0 <= i < e.len() ==> #[trigger] seen_entries(e)[i] == (e[i].key@, e[i].value.seen()),
    decreases e.len(),
{
    if e.len() > 0 {
        lemma_seen_entries(e.drop_last());
        assert forall|i: int| 0 <= i < e.len() implies #[trigger] seen_entries(e)[i] == (
            e[i].key@,
            e[i].value.seen(),
        ) by {
            if i < e.len() - 1 {
                assert(seen_entries(e.drop_last())[i] == (
                    e.drop_last()[i].key@,
                    e.drop_last()[i].value.seen(),
                ));
            }
        }
    }
}

/// The position of the first entry with a key.
pub proof fn lemma_find(entries: Entries, key: Seq<char>) -> (i: int)
    ensures
        match find(entries, key) {
            Some(node) => 0 <= i < entries.len() && entries[i] == (key, node) && forall|j: int|
                0 <= j < i ==> (#[trigger] entries[j]).0 != key,
            None => i == entries.len() && forall|j: int|
                0 <= j < entries.len() ==> (#[trigger] entries[j]).0 != key,
        },
    decreases entries.len(),
{
    if entries.len() == 0 {
        0
    } else if entries[0].0 == key {
        0
    } else {
        let i = lemma_find(entries.skip(1), key);
        assert forall|j: int| 0 <= j < (if i < entries.len() - 1 {
            i + 1
        } else {
            entries.len() as int
        }) implies (#[trigger] entries[j]).0 != key by {
            if j > 0 {
                assert(entries.skip(1)[j - 1] == entries[j]);
            }
        }
        i + 1
    }
}

/// An entry whose key does not occur before is the first one with it.
pub proof fn lemma_found(entries: Entries, i: int)
    requires
        0 <= i < entries.len(),
        forall|j: int| 0 <= j < i ==> (#[trigger] entries[j]).0 != entries[i].0,
    ensures
        find(entries, entries[i].0) == Some(entries[i].1),
{
    let k = lemma_find(entries, entries[i].0);
    assert(entries[i].0 == entries[i].0);
}

/// The value of the first entry with this key.
pub fn find_entry<'a>(entries: &'a Vec<Entry>, key: &str) -> (r: Option<&'a Data>)
    ensures
        match r {
            Some(d) => find(seen_entries(entries@), key@) == Some(d.seen()),
            None => find(seen_entries(entries@), key@) is None,
        },
{
    let ghost all = seen_entries(entries@);
    proof {
        lemma_seen_entries(entries@);
    }
    let mut i: usize = 0;
    while i < entries.len()
        invariant
            i <= entries.len(),
            all == seen_entries(entries@),
            all.len() == entries.len(),
            forall|k: int|
                0 <= k < entries.len() ==> #[trigger] all[k] == (
                    entries@[k].key@,
                    entries@[k].value.seen(),
                ),
            forall|k: int| 0 <= k < i ==> (#[trigger] all[k]).0 != key@,
        decreases entries.len() - i,
    {
        assert(all[i as int] == (entries@[i as int].key@, entries@[i as int].value.seen()));
        if same(&entries[i].key, key) {
            proof {
                lemma_found(all, i as int);
            }
            return Some(&entries[i].value);
        }
        i = i + 1;
    }
    proof {
        let k = lemma_find(all, key@);
    }
    None
}

/// The table with this key, unless it is an inline one.
pub fn find_table<'a>(entries: &'a Vec<Entry>, key: &str) -> (r: Option<&'a Vec<Entry>>)
    ensures
        match r {
            Some(inner) => table_in(seen_entries(entries@), key@) == Some(seen_entries(inner@)),
            None => table_in(seen_entries(entries@), key@) is None,
        },
{
    match find_entry(entries, key) {
        Some(Data::Table(inner)) => Some(inner),
        _ => None,
    }
}

/// The text with this key.
pub fn find_text(entries: &Vec<Entry>, key: &str) -> (r: Option<String>)
    ensures
        r.model() == text_in(seen_entries(entries@), key@),
{
    match find_entry(entries, key) {
        Some(Data::Text(t)) => Some(t.clone()),
        _ => None,
    }
}

/// The flag with this key.
pub fn find_flag(entries: &Vec<Entry>, key: &str) -> (r: Option<bool>)
    ensures
        r == flag_in(seen_entries(entries@), key@),
{
    match find_entry(entries, key) {
        Some(Data::Flag(b)) => Some(*b),
        _ => None,
    }
}

/// The texts of a list.
pub fn texts_of(list: &Vec<Option<String>>) -> (r: Vec<String>)
    ensures
        r.deep_view() == texts_among(texts_seen(list@)),
{
    let ghost all = texts_seen(list@);
    let mut out: Vec<String> = Vec::new();
    let mut i: usize = 0;
    assert(all.take(0) =~= Seq::empty());
    assert(out.deep_view() =~= Seq::empty());
    while i < list.len()
        invariant
            i <= list.len(),
            all == texts_seen(list@),
            out.deep_view() == texts_among(all.take(i as int)),
        decreases list.len() - i,
    {
        proof {
            assert(all.take(i + 1).drop_last() =~= all.take(i as int));
            assert(all.take(i + 1).last() == list@[i as int].model());
        }
        match &list[i] {
            Some(t) => {
                put(&mut out, t.clone());
            },
            None => {},
        }
        i = i + 1;
    }
    assert(all.take(i as int) =~= all);
    out
}

/// The texts in the list with this key.
pub fn find_texts(entries: &Vec<Entry>, key: &str) -> (r: Vec<String>)
    ensures
        r.deep_view() == texts_in(seen_entries(entries@), key@),
{
    match find_entry(entries, key) {
        Some(Data::List(list)) => texts_of(list),
        _ => {
            list0()
        },
    }
}

/// The field with this key, in a table of either kind.
pub fn find_field<'a>(data: &'a Data, key: &str) -> (r: Option<&'a Data>)
    ensures
        match r {
            Some(d) => field(data.seen(), key@) == Some(d.seen()),
            None => field(data.seen(), key@) is None,
        },
{
    match data {
        Data::Table(entries) => find_entry(entries, key),
        Data::Inline(entries) => find_entry(entries, key),
        _ => None,
    }
}

/// What a table of either kind holds is smaller than the table.
proof fn lemma_entry_smaller(node: Node, entries: Entries, k: int)
    requires
        fields(node) == Some(entries),
        0 <= k < entries.len(),
    ensures
        decreases_to!(node => entries[k].1),
{
    assert(decreases_to!(entries => entries[k]));
    assert(decreases_to!(entries[k] => entries[k].1));
    if node is Table {
        assert(decreases_to!(node => node->Table_0));
    } else {
        assert(decreases_to!(node => node->Inline_0));
    }
}

/// Whether two lists hold the same texts.
fn same_texts(a: &Vec<Option<String>>, b: &Vec<Option<String>>) -> (r: bool)
    ensures
        r == (texts_seen(a@) == texts_seen(b@)),
{
    if a.len() != b.len() {
        assert(texts_seen(a@).len() != texts_seen(b@).len());
        return false;
    }
    let mut i: usize = 0;
    while i < a.len()
        invariant
            i <= a.len(),
            a.len() == b.len(),
            forall|k: int| 0 <= k < i ==> #[trigger] texts_seen(a@)[k] == texts_seen(b@)[k],
        decreases a.len() - i,
    {
        let alike = match (&a[i], &b[i]) {
            (Some(s), Some(t)) => same(s, t),
            (None, None) => true,
            _ => false,
        };
        if !alike {
            assert(texts_seen(a@)[i as int] != texts_seen(b@)[i as int]);
            return false;
        }
        i = i + 1;
    }
    assert(texts_seen(a@) =~= texts_seen(b@));
    true
}

/// Whether two pieces say the same.
pub fn same_data(a: &Data, b: &Data) -> (r: bool)
    ensures
        r == (a.seen() == b.seen()),
    decreases a.seen(),
{
    let (x, y) = match (a, b) {
        (Data::Text(s), Data::Text(t)) => {
            return same(s, t);
        },
        (Data::Flag(s), Data::Flag(t)) => {
            return *s == *t;
        },
        (Data::List(s), Data::List(t)) => {
            return same_texts(s, t);
        },
        (Data::Other, Data::Other) => {
            return true;
        },
        (Data::Inline(x), Data::Inline(y)) => (x, y),
        (Data::Table(x), Data::Table(y)) => (x, y),
        _ => {
            return false;
        },
    };
    let ghost left = seen_entries(x@);
    let ghost right = seen_entries(y@);
    proof {
        lemma_seen_entries(x@);
        lemma_seen_entries(y@);
    }
    if x.len() != y.len() {
        return false;
    }
    let mut i: usize = 0;
    while i < x.len()
        invariant
            i <= x.len(),
            x.len() == y.len(),
            left == seen_entries(x@),
            right == seen_entries(y@),
            left.len() == x.len(),
            right.len() == y.len(),
            fields(a.seen()) == Some(left),
            fields(b.seen()) == Some(right),
            forall|k: int|
                0 <= k < x.len() ==> #[trigger] left[k] == (x@[k].key@, x@[k].value.seen()),
            forall|k: int|
                0 <= k < y.len() ==> #[trigger] right[k] == (y@[k].key@, y@[k].value.seen()),
            forall|k: int| 0 <= k < i ==> left[k] == right[k],
        decreases x.len() - i,
    {
        proof {
            assert(left[i as int] == (x@[i as int].key@, x@[i as int].value.seen()));
            assert(right[i as int] == (y@[i as int].key@, y@[i as int].value.seen()));
            lemma_entry_smaller(a.seen(), left, i as int);
        }
        if !same(&x[i].key, &y[i].key) || !same_data(&x[i].value, &y[i].value) {
            return false;
        }
        i = i + 1;
    }
    assert(left =~= right);
    true
}

/// Whatever is in `a`, but for what has this key, is also in `b`.
pub open spec fn all_but(a: Entries, b: Entries, key: Seq<char>) -> bool {
    forall|k: Seq<char>|
        k != key && find(a, k) is Some ==> #[trigger] find(a, k) == find(b, k)
}

/// Whether whatever is in `a`, but for what has this key, is also in `b`.
pub fn has_all_but(a: &Vec<Entry>, b: &Vec<Entry>, key: &str) -> (r: bool)
    ensures
        r == all_but(seen_entries(a@), seen_entries(b@), key@),
{
    let ghost left = seen_entries(a@);
    let ghost right = seen_entries(b@);
    proof {
        lemma_seen_entries(a@);
    }
    let mut i: usize = 0;
    while i < a.len()
        invariant
            i <= a.len(),
            left == seen_entries(a@),
            right == seen_entries(b@),
            left.len() == a.len(),
            forall|k: int|
                0 <= k < a.len() ==> #[trigger] left[k] == (a@[k].key@, a@[k].value.seen()),
            forall|k: int|
                0 <= k < i && left[k].0 != key@ ==> find(left, (#[trigger] left[k]).0) == find(
                    right,
                    left[k].0,
                ),
        decreases a.len() - i,
    {
        assert(left[i as int] == (a@[i as int].key@, a@[i as int].value.seen()));
        let k = &a[i].key;
        if !same(k, key) {
            let alike = match (find_entry(a, k), find_entry(b, k)) {
                (Some(x), Some(y)) => same_data(x, y),
                (None, None) => true,
                _ => false,
            };
            if !alike {
                proof {
                    lemma_is_found(left, i as int);
                    assert(find(left, k@) != find(right, k@));
                }
                return false;
            }
        }
        i = i + 1;
    }
    proof {
        assert forall|k: Seq<char>| k != key@ && find(left, k) is Some implies #[trigger] find(
            left,
            k,
        ) == find(right, k) by {
            let j = lemma_find(left, k);
            assert(left[j].0 == k);
        }
    }
    true
}

/// An entry's key is found.
proof fn lemma_is_found(entries: Entries, i: int)
    requires
        0 <= i < entries.len(),
    ensures
        find(entries, entries[i].0) is Some,
    decreases entries.len(),
{
    if entries[0].0 != entries[i].0 {
        assert(entries.skip(1)[i - 1] == entries[i]);
        lemma_is_found(entries.skip(1), i - 1);
    }
}

/// What stands at the end of a path of keys.
pub fn find_at<'a>(entries: &'a Vec<Entry>, path: &Vec<String>) -> (r: Option<&'a Data>)
    requires
        path.deep_view().len() > 0,
    ensures
        match r {
            Some(d) => at(Node::Table(seen_entries(entries@)), path.deep_view()) == Some(d.seen()),
            None => at(Node::Table(seen_entries(entries@)), path.deep_view()) is None,
        },
{
    let ghost all = path.deep_view();
    let ghost node = Node::Table(seen_entries(entries@));
    assert(all.len() == path.len());
    assert(all[0] == path@[0]@);
    let mut cur = match find_entry(entries, &path[0]) {
        Some(d) => d,
        None => {
            return None;
        },
    };
    let mut i: usize = 1;
    while i < path.len()
        invariant
            1 <= i <= path.len(),
            all == path.deep_view(),
            all.len() == path.len(),
            node == Node::Table(seen_entries(entries@)),
            at(node, all) == at(cur.seen(), all.skip(i as int)),
        decreases path.len() - i,
    {
        proof {
            assert(all[i as int] == path@[i as int]@);
            assert(all.skip(i as int)[0] == all[i as int]);
            assert(all.skip(i as int).skip(1) =~= all.skip(i + 1));
        }
        cur = match find_field(cur, &path[i]) {
            Some(d) => d,
            None => {
                return None;
            },
        };
        i = i + 1;
    }
    assert(all.skip(i as int).len() == 0);
    Some(cur)
}

/// The text in the field with this key.
pub fn find_text_field(data: &Data, key: &str) -> (r: Option<String>)
    ensures
        r.model() == text_field(data.seen(), key@),
{
    match find_field(data, key) {
        Some(Data::Text(t)) => Some(t.clone()),
        _ => None,
    }
}

/// The flag in the field with this key.
pub fn find_flag_field(data: &Data, key: &str) -> (r: Option<bool>)
    ensures
        r == flag_field(data.seen(), key@),
{
    match find_field(data, key) {
        Some(Data::Flag(b)) => Some(*b),
        _ => None,
    }
}

} // verus!
