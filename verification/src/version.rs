//! Versions of the form `MAJOR.MINOR.PATCH`, and how they are raised.

use vstd::prelude::*;

use crate::backend::BumpKind;
use crate::error::Error;
use crate::error::ErrorOf;
use crate::error::ErrorView;
use crate::error::Part;
use crate::text;
use crate::text::parse_number;
use crate::text::plus;
use crate::text::plus3;
use crate::text::print_number;
use crate::text::split;
use crate::text::trim;

verus! {

/// The three numbers of a version.
pub type Numbers = (u64, u64, u64);

/// The numbers that a text writes as `MAJOR.MINOR.PATCH`, or what is wrong
/// with it. White space around it is ignored; there can be no suffix.
pub open spec fn numbers_of(s: Seq<char>) -> Result<Numbers, ErrorView> {
    let trimmed = text::trim_both(s);
    let parts = text::split_by(trimmed, '.');
    if parts.len() < 2 {
        Err(ErrorOf::MissingPart(Part::Minor))
    } else if parts.len() < 3 {
        Err(ErrorOf::MissingPart(Part::Patch))
    } else if parts.len() > 3 {
        Err(ErrorOf::TooManyParts(trimmed))
    } else {
        match (
            text::number_of(parts[0]),
            text::number_of(parts[1]),
            text::number_of(parts[2]),
        ) {
            (Some(major), Some(minor), Some(patch)) => Ok((major, minor, patch)),
            (None, _, _) => Err(ErrorOf::NotANumber(Part::Major, parts[0])),
            (_, None, _) => Err(ErrorOf::NotANumber(Part::Minor, parts[1])),
            (_, _, None) => Err(ErrorOf::NotANumber(Part::Patch, parts[2])),
        }
    }
}

/// The number that a bump raises.
pub open spec fn raised_part(v: Numbers, kind: BumpKind) -> u64 {
    match kind {
        BumpKind::Patch => v.2,
        BumpKind::Minor => v.1,
        BumpKind::Major => v.0,
    }
}

/// The version after `v`: the number that `kind` names is one more, and the
/// numbers behind it are 0.
pub open spec fn raised(v: Numbers, kind: BumpKind) -> Numbers {
    match kind {
        BumpKind::Patch => (v.0, v.1, (v.2 + 1) as u64),
        BumpKind::Minor => (v.0, (v.1 + 1) as u64, 0),
        BumpKind::Major => ((v.0 + 1) as u64, 0, 0),
    }
}

/// A version as a text.
pub open spec fn shown(v: Numbers) -> Seq<char> {
    text::decimal(v.0 as nat) + "."@ + text::decimal(v.1 as nat) + "."@ + text::decimal(v.2 as nat)
}

/// The text does not write a version whose number cannot grow any more.
pub open spec fn can_raise(s: Seq<char>, kind: BumpKind) -> bool {
    numbers_of(s) matches Ok(v) ==> raised_part(v, kind) < u64::MAX
}

/// The version after the one that a text writes.
pub open spec fn bumped(s: Seq<char>, kind: BumpKind) -> Result<Seq<char>, ErrorView> {
    match numbers_of(s) {
        Ok(v) => if raised_part(v, kind) < u64::MAX {
            Ok(shown(raised(v, kind)))
        } else {
            Err(ErrorOf::VersionTooLarge(s))
        },
        Err(e) => Err(e),
    }
}

/// The numbers of a version that is written as a text.
fn parse(s: &str) -> (r: Result<Numbers, Error>)
    ensures
        match r {
            Ok(v) => numbers_of(s@) == Ok::<Numbers, ErrorView>(v),
            Err(e) => numbers_of(s@) == Err::<Numbers, ErrorView>(e.seen()),
        },
{
    let trimmed = trim(s);
    let parts = split(&trimmed, '.');
    let ghost pieces = parts.deep_view();
    if parts.len() < 2 {
        return Err(ErrorOf::MissingPart(Part::Minor));
    }
    if parts.len() < 3 {
        return Err(ErrorOf::MissingPart(Part::Patch));
    }
    if parts.len() > 3 {
        return Err(ErrorOf::TooManyParts(trimmed));
    }
    assert(pieces[0] == parts@[0]@ && pieces[1] == parts@[1]@ && pieces[2] == parts@[2]@);
    let major = match parse_number(&parts[0]) {
        Some(n) => n,
        None => {
            return Err(ErrorOf::NotANumber(Part::Major, parts[0].clone()));
        },
    };
    let minor = match parse_number(&parts[1]) {
        Some(n) => n,
        None => {
            return Err(ErrorOf::NotANumber(Part::Minor, parts[1].clone()));
        },
    };
    let patch = match parse_number(&parts[2]) {
        Some(n) => n,
        None => {
            return Err(ErrorOf::NotANumber(Part::Patch, parts[2].clone()));
        },
    };
    Ok((major, minor, patch))
}

/// Raise the version that a text writes as `kind` says.
pub fn bump(current: &str, kind: BumpKind) -> (r: Result<String, Error>)
    requires
        can_raise(current@, kind),
    ensures
        match r {
            Ok(new) => bumped(current@, kind) == Ok::<Seq<char>, ErrorView>(new@),
            Err(e) => bumped(current@, kind) == Err::<Seq<char>, ErrorView>(e.seen()),
        },
{
    bump_if_possible(current, kind)
}

/// Raise the version that a text writes as `kind` says, unless the number to
/// raise is the largest one.
pub fn bump_if_possible(current: &str, kind: BumpKind) -> (r: Result<String, Error>)
    ensures
        match r {
            Ok(new) => bumped(current@, kind) == Ok::<Seq<char>, ErrorView>(new@),
            Err(e) => bumped(current@, kind) == Err::<Seq<char>, ErrorView>(e.seen()),
        },
{
    let (major, minor, patch) = match parse(current) {
        Ok(v) => v,
        Err(e) => {
            return Err(e);
        },
    };
    let part: u64 = match kind {
        BumpKind::Patch => patch,
        BumpKind::Minor => minor,
        BumpKind::Major => major,
    };
    if part == u64::MAX {
        return Err(ErrorOf::VersionTooLarge(current.to_owned()));
    }
    let (major, minor, patch): (u64, u64, u64) = match kind {
        BumpKind::Patch => (major, minor, patch + 1),
        BumpKind::Minor => (major, minor + 1, 0),
        BumpKind::Major => (major + 1, 0, 0),
    };
    Ok(
        plus(
            &plus3(&plus(&print_number(major), "."), &print_number(minor), "."),
            &print_number(patch),
        ),
    )
}

/// `a` comes before `b`.
pub open spec fn precedes(a: Numbers, b: Numbers) -> bool {
    a.0 < b.0 || (a.0 == b.0 && (a.1 < b.1 || (a.1 == b.1 && a.2 < b.2)))
}

/// A version that is written out reads back.
pub proof fn law_shown_reads_back(v: Numbers)
    ensures
        numbers_of(shown(v)) == Ok::<Numbers, ErrorView>(v),
{
    reveal_strlit(".");
    let a = text::decimal(v.0 as nat);
    let b = text::decimal(v.1 as nat);
    let c = text::decimal(v.2 as nat);
    lemma_no_dot(v.0);
    lemma_no_dot(v.1);
    lemma_no_dot(v.2);
    assert("."@ =~= seq!['.']);
    let rest = b + seq!['.'] + c;
    assert(shown(v) =~= a + seq!['.'] + rest);
    assert(shown(v)[0] == a[0]);
    assert(shown(v).last() == c.last());
    text::lemma_trim_nothing(shown(v));
    text::lemma_split_first(a, '.', rest);
    text::lemma_split_first(b, '.', c);
    text::lemma_split_whole(c, '.');
    assert(text::split_by(shown(v), '.') =~= seq![a, b, c]);
    text::lemma_decimal_reads_back(v.0);
    text::lemma_decimal_reads_back(v.1);
    text::lemma_decimal_reads_back(v.2);
}

proof fn lemma_no_dot(n: u64)
    ensures
        !text::decimal(n as nat).contains('.'),
        text::decimal(n as nat).len() > 0,
        !text::is_space(text::decimal(n as nat)[0]),
        !text::is_space(text::decimal(n as nat).last()),
{
    let d = text::decimal(n as nat);
    text::lemma_decimal(n as nat);
    assert(text::is_digit(d[0]));
    assert(text::is_digit(d[d.len() - 1]));
    if d.contains('.') {
        let i = choose|i: int| 0 <= i < d.len() && d[i] == '.';
        assert(text::is_digit(d[i]));
    }
}

/// A bump gives a version again, one that comes later; it keeps the numbers
/// before the one that it raises.
pub proof fn law_bump_goes_up(s: Seq<char>, kind: BumpKind)
    requires
        numbers_of(s) is Ok,
        can_raise(s, kind),
    ensures
        bumped(s, kind) is Ok,
        numbers_of(bumped(s, kind)->Ok_0) == Ok::<Numbers, ErrorView>(
            raised(numbers_of(s)->Ok_0, kind),
        ),
        precedes(numbers_of(s)->Ok_0, raised(numbers_of(s)->Ok_0, kind)),
{
    law_shown_reads_back(raised(numbers_of(s)->Ok_0, kind));
}

/// A version, written out: three numbers with dots between them.
pub open spec fn dotted(a: nat, b: nat, c: nat) -> Seq<char> {
    text::decimal(a) + seq!['.'] + text::decimal(b) + seq!['.'] + text::decimal(c)
}

/// From `a.b.c` a patch gives `a.b.(c+1)`, a minor bump `a.(b+1).0` and a major
/// one `(a+1).0.0`, whatever the numbers are. The largest number cannot grow.
pub proof fn law_bump_counts(a: u64, b: u64, c: u64)
    ensures
        ({
            let s = dotted(a as nat, b as nat, c as nat);
            let full = Err::<Seq<char>, ErrorView>(ErrorOf::VersionTooLarge(s));
            &&& c < u64::MAX ==> bumped(s, BumpKind::Patch) == Ok::<Seq<char>, ErrorView>(
                dotted(a as nat, b as nat, (c + 1) as nat),
            )
            &&& b < u64::MAX ==> bumped(s, BumpKind::Minor) == Ok::<Seq<char>, ErrorView>(
                dotted(a as nat, (b + 1) as nat, 0),
            )
            &&& a < u64::MAX ==> bumped(s, BumpKind::Major) == Ok::<Seq<char>, ErrorView>(
                dotted((a + 1) as nat, 0, 0),
            )
            &&& c == u64::MAX ==> bumped(s, BumpKind::Patch) == full
            &&& b == u64::MAX ==> bumped(s, BumpKind::Minor) == full
            &&& a == u64::MAX ==> bumped(s, BumpKind::Major) == full
        }),
{
    lemma_dotted((a, b, c));
    if c < u64::MAX {
        lemma_dotted((a, b, (c + 1) as u64));
    }
    if b < u64::MAX {
        lemma_dotted((a, (b + 1) as u64, 0));
    }
    if a < u64::MAX {
        lemma_dotted(((a + 1) as u64, 0, 0));
    }
    law_shown_reads_back((a, b, c));
}

proof fn lemma_dotted(v: Numbers)
    ensures
        shown(v) == dotted(v.0 as nat, v.1 as nat, v.2 as nat),
{
    reveal_strlit(".");
    assert("."@ =~= seq!['.']);
}

/// The text is made of decimal digits, at least one of them.
pub open spec fn is_count(s: Seq<char>) -> bool {
    s.len() > 0 && forall|i: int| 0 <= i < s.len() ==> '0' <= #[trigger] s[i] <= '9'
}

/// The text is white space.
pub open spec fn is_blank(s: Seq<char>) -> bool {
    forall|i: int| 0 <= i < s.len() ==> text::is_space(#[trigger] s[i])
}

proof fn lemma_trim_blanks(left: Seq<char>, s: Seq<char>, right: Seq<char>)
    requires
        is_blank(left),
        is_blank(right),
        s.len() > 0,
        !text::is_space(s[0]),
        !text::is_space(s.last()),
    ensures
        text::trim_both(left + s + right) == s,
    decreases left.len() + right.len(),
{
    let whole = left + s + right;
    if left.len() > 0 {
        assert(whole.skip(1) =~= left.skip(1) + s + right);
        assert(whole[0] == left[0]);
        assert forall|i: int| 0 <= i < left.skip(1).len() implies text::is_space(
            #[trigger] left.skip(1)[i],
        ) by {
            assert(left.skip(1)[i] == left[i + 1]);
        }
        lemma_trim_blanks(left.skip(1), s, right);
    } else {
        assert(whole =~= s + right);
        assert(whole[0] == s[0]);
        lemma_trim_behind(s, right);
    }
}

proof fn lemma_trim_behind(s: Seq<char>, right: Seq<char>)
    requires
        is_blank(right),
        s.len() > 0,
        !text::is_space(s.last()),
    ensures
        text::trim_right(s + right) == s,
    decreases right.len(),
{
    let whole = s + right;
    if right.len() > 0 {
        assert(whole.last() == right.last());
        assert(whole.drop_last() =~= s + right.drop_last());
        lemma_trim_behind(s, right.drop_last());
    } else {
        assert(whole =~= s);
    }
}

/// White space around a version and zeros before its numbers make no difference
/// to a bump: it goes by what the digits count.
pub proof fn law_bump_goes_by_value(
    left: Seq<char>,
    x: Seq<char>,
    y: Seq<char>,
    z: Seq<char>,
    right: Seq<char>,
    a: u64,
    b: u64,
    c: u64,
    kind: BumpKind,
)
    requires
        is_blank(left) && is_blank(right),
        is_count(x) && is_count(y) && is_count(z),
        text::digits_value(x) == a && text::digits_value(y) == b && text::digits_value(z) == c,
        bumped(dotted(a as nat, b as nat, c as nat), kind) is Ok,
    ensures
        bumped(left + (x + seq!['.'] + y + seq!['.'] + z) + right, kind) == bumped(
            dotted(a as nat, b as nat, c as nat),
            kind,
        ),
{
    lemma_dotted((a, b, c));
    law_shown_reads_back((a, b, c));
    let s = x + seq!['.'] + y + seq!['.'] + z;
    assert(s[0] == x[0]);
    assert(s.last() == z.last());
    assert('0' <= x[0] <= '9' && '0' <= z[z.len() - 1] <= '9');
    lemma_trim_blanks(left, s, right);
    let rest = y + seq!['.'] + z;
    assert(s =~= x + seq!['.'] + rest);
    lemma_count(x);
    lemma_count(y);
    lemma_count(z);
    text::lemma_split_first(x, '.', rest);
    text::lemma_split_first(y, '.', z);
    text::lemma_split_whole(z, '.');
    assert(text::split_by(s, '.') =~= seq![x, y, z]);
}

proof fn lemma_count(s: Seq<char>)
    requires
        is_count(s),
    ensures
        !s.contains('.'),
        s[0] != '+',
        text::all_digits(s),
{
    assert('0' <= s[0] <= '9');
    assert forall|i: int| 0 <= i < s.len() implies text::is_digit(#[trigger] s[i]) by {}
    if s.contains('.') {
        let i = choose|i: int| 0 <= i < s.len() && s[i] == '.';
        assert('0' <= s[i] <= '9');
    }
}

/// How often a character stands in a text.
pub open spec fn times(s: Seq<char>, c: char) -> nat
    decreases s.len(),
{
    if s.len() == 0 {
        0
    } else {
        times(s.skip(1), c) + if s[0] == c {
            1nat
        } else {
            0nat
        }
    }
}

proof fn lemma_times_join(a: Seq<char>, b: Seq<char>, c: char)
    ensures
        times(a + b, c) == times(a, c) + times(b, c),
    decreases a.len(),
{
    if a.len() == 0 {
        assert(a + b =~= b);
    } else {
        assert((a + b).skip(1) =~= a.skip(1) + b);
        lemma_times_join(a.skip(1), b, c);
    }
}

proof fn lemma_times_none(s: Seq<char>, c: char)
    requires
        !s.contains(c),
    ensures
        times(s, c) == 0,
    decreases s.len(),
{
    if s.len() > 0 {
        assert(s.contains(s[0]));
        assert forall|x: char| s.skip(1).contains(x) implies s.contains(x) by {
            let i = choose|i: int| 0 <= i < s.skip(1).len() && s.skip(1)[i] == x;
            assert(s[i + 1] == x);
        }
        lemma_times_none(s.skip(1), c);
    }
}

proof fn lemma_pieces(s: Seq<char>, sep: char)
    ensures
        text::split_by(s, sep).len() == times(s, sep) + 1,
    decreases s.len(),
{
    text::lemma_first_at(s, seq![sep], 0);
    match text::first_at(s, seq![sep], 0) {
        Some(i) => {
            text::lemma_occurs_char(s, sep, i);
            let (a, rest) = (s.take(i), s.skip(i + 1));
            assert(s =~= a + (seq![sep] + rest));
            if a.contains(sep) {
                let j = choose|j: int| 0 <= j < a.len() && a[j] == sep;
                text::lemma_occurs_char(s, sep, j);
                assert(s[j] == sep);
                assert(text::occurs_at(s, seq![sep], j));
            }
            lemma_times_none(a, sep);
            lemma_times_join(a, seq![sep] + rest, sep);
            assert((seq![sep] + rest).skip(1) =~= rest);
            lemma_pieces(rest, sep);
        },
        None => {
            if s.contains(sep) {
                let j = choose|j: int| 0 <= j < s.len() && s[j] == sep;
                text::lemma_occurs_char(s, sep, j);
            }
            lemma_times_none(s, sep);
        },
    }
}

/// Only a text with exactly two dots can be bumped, and what stands before,
/// between and behind them has to be a number.
pub proof fn law_only_versions_bump(s: Seq<char>, kind: BumpKind)
    ensures
        times(text::trim_both(s), '.') != 2 ==> bumped(s, kind) is Err,
        forall|x: Seq<char>, y: Seq<char>, z: Seq<char>|
            (text::trim_both(s) == #[trigger] triple(x, y, z) && !x.contains('.') && !y.contains(
                '.',
            ) && !z.contains('.') && !(text::number_of(x) is Some && text::number_of(y) is Some
                && text::number_of(z) is Some)) ==> bumped(s, kind) is Err,
{
    lemma_pieces(text::trim_both(s), '.');
    assert forall|x: Seq<char>, y: Seq<char>, z: Seq<char>|
        (text::trim_both(s) == #[trigger] triple(x, y, z) && !x.contains('.') && !y.contains('.')
            && !z.contains('.') && !(text::number_of(x) is Some && text::number_of(y) is Some
            && text::number_of(z) is Some)) implies bumped(s, kind) is Err by {
        let rest = y + seq!['.'] + z;
        assert(triple(x, y, z) =~= x + seq!['.'] + rest);
        text::lemma_split_first(x, '.', rest);
        text::lemma_split_first(y, '.', z);
        text::lemma_split_whole(z, '.');
        assert(text::split_by(triple(x, y, z), '.') =~= seq![x, y, z]);
    }
}

/// Three texts with dots between them.
pub open spec fn triple(x: Seq<char>, y: Seq<char>, z: Seq<char>) -> Seq<char> {
    x + seq!['.'] + y + seq!['.'] + z
}

} // verus!
