//! The `packages:` list of a `pnpm-workspace.yaml`.

use vstd::prelude::*;

use crate::text;
use crate::text::chars_of;
use crate::text::is_space_char;
use crate::text::lines;
use crate::text::list0;
use crate::text::own;
use crate::text::put;
use crate::text::split;
use crate::text::starts_with;
use crate::text::text_of;
use crate::text::trim;
use crate::text::trim_start;

verus! {

/// Whether a line begins with white space.
pub open spec fn indented(line: Seq<char>) -> bool {
    line.len() > 0 && text::is_space(line[0])
}

/// A line without its comment, which begins at the first `#`.
pub open spec fn uncommented(line: Seq<char>) -> Seq<char> {
    text::split_by(line, '#')[0]
}

/// A value without the quotes around it.
pub open spec fn unquoted(s: Seq<char>) -> Seq<char> {
    if s.len() >= 2 && s[0] == s.last() && (s[0] == '"' || s[0] == '\'') {
        s.subrange(1, s.len() - 1)
    } else {
        s
    }
}

/// The entries that the lines from the one at `i` on list. `inside` says
/// whether they stand under the `packages:` key, which only a line that is not
/// indented can hold. The list ends with a line that is not indented either and
/// is no entry.
pub open spec fn entries_from(lines: Seq<Seq<char>>, i: int, inside: bool) -> Seq<Seq<char>>
    decreases lines.len() - i,
{
    if i >= lines.len() {
        Seq::empty()
    } else {
        let line = uncommented(lines[i]);
        let content = text::trim_left(line);
        if text::trim_both(line).len() == 0 {
            entries_from(lines, i + 1, inside)
        } else if !inside {
            entries_from(lines, i + 1, !indented(line) && text::occurs_at(line, "packages:"@, 0))
        } else if content[0] == '-' {
            let value = text::trim_both(content.skip(1));
            if value.len() == 0 {
                entries_from(lines, i + 1, true)
            } else {
                seq![unquoted(value)] + entries_from(lines, i + 1, true)
            }
        } else {
            entries_from(lines, i + 1, indented(line))
        }
    }
}

/// The patterns under `packages:`.
pub open spec fn patterns_in(t: Seq<char>) -> Seq<Seq<char>> {
    entries_from(text::lines_of(t), 0, false)
}

/// Whether a line begins with white space.
fn is_indented(line: &str) -> (r: bool)
    ensures
        r == indented(line@),
{
    let cs = chars_of(line);
    cs.len() > 0 && is_space_char(cs[0])
}

/// A value without the quotes around it.
fn strip_yaml_quotes(s: &str) -> (r: String)
    ensures
        r@ == unquoted(s@),
{
    let cs = chars_of(s);
    let n = cs.len();
    if n >= 2 && cs[0] == cs[n - 1] && (cs[0] == '"' || cs[0] == '\'') {
        let r = text_of(&cs, 1, n - 1);
        assert(r@ =~= cs@.subrange(1, n - 1));
        r
    } else {
        own(s)
    }
}

proof fn lemma_split_not_empty(s: Seq<char>, sep: char)
    ensures
        text::split_by(s, sep).len() > 0,
{
}

/// What is not blank begins, behind its white space, with a character.
proof fn lemma_not_blank(line: Seq<char>)
    requires
        text::trim_both(line).len() > 0,
    ensures
        text::trim_left(line).len() > 0,
{
    if text::trim_left(line).len() == 0 {
        assert(text::trim_right(text::trim_left(line)).len() == 0);
    }
}

/// The patterns under `packages:`, which are entries `- "..."`, `- '...'` or
/// `- ...`.
pub fn parse_pnpm_workspace_patterns(t: &str) -> (r: Vec<String>)
    ensures
        r.deep_view() == patterns_in(t@),
{
    let all = lines(t);
    let ghost seen = text::lines_of(t@);
    let mut out = list0();
    let mut inside = false;
    let mut i: usize = 0;
    while i < all.len()
        invariant
            i <= all.len(),
            all.deep_view() == seen,
            seen == text::lines_of(t@),
            patterns_in(t@) == out.deep_view() + entries_from(seen, i as int, inside),
        decreases all.len() - i,
    {
        let ghost before = out.deep_view();
        let ghost rest = entries_from(seen, i as int, inside);
        assert(seen[i as int] == all@[i as int]@);
        let pieces = split(&all[i], '#');
        proof {
            lemma_split_not_empty(seen[i as int], '#');
            assert(pieces.deep_view().len() == pieces@.len());
            assert(pieces.deep_view()[0] == pieces@[0]@);
        }
        let line = &pieces[0];
        i = i + 1;
        if chars_of(&trim(line)).len() == 0 {
            continue;
        }
        proof {
            lemma_not_blank(line@);
        }
        let content = trim_start(line);
        let cs = chars_of(&content);
        if !inside {
            inside = !is_indented(line) && starts_with(line, "packages:");
        } else if cs[0] == '-' {
            let tail = text_of(&cs, 1, cs.len());
            assert(tail@ =~= cs@.skip(1));
            let value = trim(&tail);
            if chars_of(&value).len() > 0 {
                put(&mut out, strip_yaml_quotes(&value));
                proof {
                    let more = entries_from(seen, i as int, inside);
                    assert(rest == seq![unquoted(value@)] + more);
                    assert(before + rest =~= out.deep_view() + more);
                }
            }
        } else {
            inside = is_indented(line);
        }
    }
    assert(out.deep_view() + entries_from(seen, i as int, inside) =~= out.deep_view());
    out
}

/// A pattern that can stand in a list: neither blank nor with white space, a
/// comment or quotes at its ends.
pub open spec fn is_plain(item: Seq<char>) -> bool {
    &&& item.len() > 0
    &&& !text::is_space(item[0]) && !text::is_space(item.last())
    &&& item[0] != '"' && item[0] != '\''
    &&& !item.contains('#')
}

/// A line that lists a pattern, with these quotes around it or with none.
pub open spec fn item_line(item: Seq<char>, quote: Option<char>) -> Seq<char> {
    seq![' ', ' ', '-', ' '] + (match quote {
        Some(q) => seq![q] + item + seq![q],
        None => item,
    })
}

/// The quotes are such that a list can have.
pub open spec fn is_quote(quote: Option<char>) -> bool {
    quote matches Some(q) ==> q == '"' || q == '\''
}

proof fn lemma_item_line(item: Seq<char>, quote: Option<char>)
    requires
        is_plain(item),
        is_quote(quote),
    ensures
        uncommented(item_line(item, quote)) == item_line(item, quote),
        text::trim_both(item_line(item, quote)).len() > 0,
        ({
            let content = text::trim_left(item_line(item, quote));
            &&& content[0] == '-'
            &&& unquoted(text::trim_both(content.skip(1))) == item
            &&& text::trim_both(content.skip(1)).len() > 0
        }),
{
    let line = item_line(item, quote);
    let value = match quote {
        Some(q) => seq![q] + item + seq![q],
        None => item,
    };
    assert(!line.contains('#')) by {
        if line.contains('#') {
            let i = choose|i: int| 0 <= i < line.len() && line[i] == '#';
            assert(value[i - 4] == '#');
            match quote {
                Some(q) => {
                    assert(item[i - 5] == '#');
                },
                None => {
                    assert(item[i - 4] == '#');
                },
            }
        }
    }
    text::lemma_split_whole(line, '#');
    let one = line.skip(1);
    let content = line.skip(2);
    assert(one.skip(1) =~= content);
    assert(line[0] == ' ' && one[0] == ' ' && content[0] == '-');
    assert(text::trim_left(one) == text::trim_left(content));
    assert(text::trim_left(line) == text::trim_left(one));
    assert(text::trim_left(content) == content);
    assert(value.len() > 0);
    assert(!text::is_space(value[0]) && !text::is_space(value.last()));
    assert(content.last() == value.last());
    assert(text::trim_right(content) == content);
    let tail = content.skip(1);
    assert(tail[0] == ' ');
    assert(tail.skip(1) =~= value);
    assert(text::trim_left(tail) == text::trim_left(value));
    assert(text::trim_both(tail) == value);
    match quote {
        Some(q) => {
            assert(value.subrange(1, value.len() - 1) =~= item);
        },
        None => {},
    }
}

/// Lines that list these patterns.
pub open spec fn item_lines(items: Seq<Seq<char>>, quotes: Seq<Option<char>>) -> Seq<Seq<char>> {
    Seq::new(items.len(), |i: int| item_line(items[i], quotes[i]))
}

proof fn lemma_items(
    lines: Seq<Seq<char>>,
    items: Seq<Seq<char>>,
    quotes: Seq<Option<char>>,
    k: int,
)
    requires
        items.len() == quotes.len(),
        0 <= k <= items.len(),
        lines.len() == items.len() + 1,
        forall|i: int| 0 <= i < items.len() ==> is_plain(#[trigger] items[i]),
        forall|i: int| 0 <= i < items.len() ==> is_quote(#[trigger] quotes[i]),
        forall|i: int|
            0 <= i < items.len() ==> #[trigger] lines[i + 1] == item_line(items[i], quotes[i]),
    ensures
        entries_from(lines, k + 1, true) == items.skip(k),
    decreases items.len() - k,
{
    if k < items.len() {
        assert(lines[k + 1] == item_line(items[k], quotes[k]));
        assert(is_quote(quotes[k]));
        lemma_item_line(items[k], quotes[k]);
        lemma_items(lines, items, quotes, k + 1);
        assert(seq![items[k]] + items.skip(k + 1) =~= items.skip(k));
    } else {
        assert(items.skip(k) =~= Seq::empty());
    }
}

/// The patterns that stand under `packages:`, one in each line, with quotes or
/// without, are those that are read, all of them and in their order.
pub proof fn law_listed_patterns_are_read(items: Seq<Seq<char>>, quotes: Seq<Option<char>>)
    requires
        items.len() == quotes.len(),
        forall|i: int| 0 <= i < items.len() ==> is_plain(#[trigger] items[i]),
        forall|i: int| 0 <= i < items.len() ==> is_quote(#[trigger] quotes[i]),
    ensures
        entries_from(seq!["packages:"@] + item_lines(items, quotes), 0, false) == items,
{
    reveal_strlit("packages:");
    let head = "packages:"@;
    let lines = seq![head] + item_lines(items, quotes);
    assert(!head.contains('#')) by {
        if head.contains('#') {
            let i = choose|i: int| 0 <= i < head.len() && head[i] == '#';
            assert(head[i] != '#');
        }
    }
    text::lemma_split_whole(head, '#');
    assert(!text::is_space(head[0]));
    assert(!text::is_space(head.last()));
    text::lemma_trim_nothing(head);
    assert(head.subrange(0, 9) =~= head);
    assert forall|i: int| 0 <= i < items.len() implies #[trigger] lines[i + 1] == item_line(
        items[i],
        quotes[i],
    ) by {}
    lemma_items(lines, items, quotes, 0);
    assert(items.skip(0) =~= items);
    assert(lines[0] == head);
}

/// The line begins the list of patterns.
pub open spec fn begins_list(line: Seq<char>) -> bool {
    text::occurs_at(line, "packages:"@, 0)
}

proof fn lemma_uncommented(line: Seq<char>)
    ensures
        uncommented(line).len() <= line.len(),
        uncommented(line) == line.take(uncommented(line).len() as int),
        line.len() > 0 && line[0] != '#' ==> uncommented(line).len() > 0,
{
    text::lemma_first_at(line, seq!['#'], 0);
    assert(line.take(line.len() as int) =~= line);
    if let Some(i) = text::first_at(line, seq!['#'], 0) {
        text::lemma_occurs_char(line, '#', i);
    }
}

proof fn lemma_not_begun(line: Seq<char>)
    requires
        !begins_list(line),
    ensures
        !begins_list(uncommented(line)),
{
    lemma_uncommented(line);
    let head = "packages:"@;
    let cut = uncommented(line);
    if begins_list(cut) {
        assert(line.subrange(0, head.len() as int) =~= cut.subrange(0, head.len() as int));
    }
}

/// Lines outside the list give no patterns.
proof fn lemma_outside(lines: Seq<Seq<char>>, from: int, to: int)
    requires
        0 <= from <= to <= lines.len(),
        forall|i: int| from <= i < to ==> !begins_list(#[trigger] lines[i]),
    ensures
        entries_from(lines, from, false) == entries_from(lines, to, false),
    decreases to - from,
{
    if from < to {
        lemma_not_begun(lines[from]);
        lemma_outside(lines, from + 1, to);
    }
}

/// The lines of the list, from the one at `start` on, with what follows them.
proof fn lemma_items_then(
    lines: Seq<Seq<char>>,
    start: int,
    items: Seq<Seq<char>>,
    quotes: Seq<Option<char>>,
    k: int,
)
    requires
        items.len() == quotes.len(),
        0 <= k <= items.len(),
        0 <= start,
        start + items.len() <= lines.len(),
        forall|i: int| 0 <= i < items.len() ==> is_plain(#[trigger] items[i]),
        forall|i: int| 0 <= i < items.len() ==> is_quote(#[trigger] quotes[i]),
        forall|i: int|
            0 <= i < items.len() ==> lines[start + i] == item_line(#[trigger] items[i], quotes[i]),
    ensures
        entries_from(lines, start + k, true) == items.skip(k) + entries_from(
            lines,
            start + items.len(),
            true,
        ),
    decreases items.len() - k,
{
    let rest = entries_from(lines, start + items.len(), true);
    if k < items.len() {
        assert(lines[start + k] == item_line(items[k], quotes[k]));
        assert(is_quote(quotes[k]));
        lemma_item_line(items[k], quotes[k]);
        lemma_items_then(lines, start, items, quotes, k + 1);
        assert(seq![items[k]] + (items.skip(k + 1) + rest) =~= items.skip(k) + rest);
    } else {
        assert(items.skip(k) + rest =~= rest);
    }
}

/// Only what is listed under `packages:` is read: neither what stands before
/// that line, nor what stands behind the next key.
pub proof fn law_only_packages_are_listed(
    before: Seq<Seq<char>>,
    items: Seq<Seq<char>>,
    quotes: Seq<Option<char>>,
    key: Seq<char>,
    after: Seq<Seq<char>>,
)
    requires
        items.len() == quotes.len(),
        forall|i: int| 0 <= i < items.len() ==> is_plain(#[trigger] items[i]),
        forall|i: int| 0 <= i < items.len() ==> is_quote(#[trigger] quotes[i]),
        forall|i: int| 0 <= i < before.len() ==> !begins_list(#[trigger] before[i]),
        forall|i: int| 0 <= i < after.len() ==> !begins_list(#[trigger] after[i]),
        key.len() > 0,
        !text::is_space(key[0]) && key[0] != '-' && key[0] != '#',
    ensures
        entries_from(
            before + seq!["packages:"@] + item_lines(items, quotes) + seq![key] + after,
            0,
            false,
        ) == items,
{
    let head = "packages:"@;
    let lines = before + seq![head] + item_lines(items, quotes) + seq![key] + after;
    let at = before.len() as int;
    let next = at + 1 + items.len();
    assert forall|i: int| 0 <= i < at implies !begins_list(#[trigger] lines[i]) by {
        assert(lines[i] == before[i]);
    }
    lemma_outside(lines, 0, at);
    assert(lines[at] == head);
    lemma_head();
    assert forall|i: int| 0 <= i < items.len() implies lines[at + 1 + i] == item_line(
        #[trigger] items[i],
        quotes[i],
    ) by {}
    lemma_items_then(lines, at + 1, items, quotes, 0);
    assert(lines[next] == key);
    lemma_uncommented(key);
    let cut = uncommented(key);
    assert(cut[0] == key[0]);
    assert(text::trim_left(cut) == cut);
    lemma_stays(cut);
    assert forall|i: int| next + 1 <= i < lines.len() implies !begins_list(#[trigger] lines[i]) by {
        assert(lines[i] == after[i - next - 1]);
    }
    lemma_outside(lines, next + 1, lines.len() as int);
    assert(entries_from(lines, next, true) == Seq::<Seq<char>>::empty());
    assert(items.skip(0) + Seq::<Seq<char>>::empty() =~= items);
}

proof fn lemma_stays(s: Seq<char>)
    requires
        s.len() > 0,
        !text::is_space(s[0]),
    ensures
        text::trim_both(s).len() > 0,
{
    assert(text::trim_left(s) == s);
    lemma_kept_right(s);
}

proof fn lemma_kept_right(s: Seq<char>)
    requires
        s.len() > 0,
        !text::is_space(s[0]),
    ensures
        text::trim_right(s).len() > 0,
    decreases s.len(),
{
    if text::is_space(s.last()) {
        assert(s.len() > 1);
        assert(s.drop_last()[0] == s[0]);
        lemma_kept_right(s.drop_last());
    }
}

proof fn lemma_head()
    ensures
        uncommented("packages:"@) == "packages:"@,
        text::trim_both("packages:"@).len() > 0,
        !indented("packages:"@),
        begins_list("packages:"@),
{
    reveal_strlit("packages:");
    let head = "packages:"@;
    assert(!head.contains('#')) by {
        if head.contains('#') {
            let i = choose|i: int| 0 <= i < head.len() && head[i] == '#';
            assert(head[i] != '#');
        }
    }
    text::lemma_split_whole(head, '#');
    assert(!text::is_space(head[0]));
    assert(!text::is_space(head.last()));
    text::lemma_trim_nothing(head);
    assert(head.subrange(0, 9) =~= head);
}

} // verus!
