//! Text primitives on sequences of characters: searching, trimming, splitting
//! into lines, and decimal numbers.

use vstd::prelude::*;
use vstd::string::StringExecFns;

verus! {

/// `String::push` puts one character at the end of the string.
pub assume_specification[ String::push ](s: &mut String, c: char)
    ensures
        final(s)@ == old(s)@.push(c),
;

// ---------------------------------------------------------------------------
// What the operations mean
// ---------------------------------------------------------------------------

/// The characters with the Unicode property `White_Space`.
pub open spec fn is_space(c: char) -> bool {
    let u = c as u32;
    ||| 0x9 <= u <= 0xD
    ||| u == 0x20
    ||| u == 0x85
    ||| u == 0xA0
    ||| u == 0x1680
    ||| 0x2000 <= u <= 0x200A
    ||| u == 0x2028
    ||| u == 0x2029
    ||| u == 0x202F
    ||| u == 0x205F
    ||| u == 0x3000
}

/// `s` without its leading white space.
pub open spec fn trim_left(s: Seq<char>) -> Seq<char>
    decreases s.len(),
{
    if s.len() > 0 && is_space(s[0]) {
        trim_left(s.skip(1))
    } else {
        s
    }
}

/// `s` without its trailing white space.
pub open spec fn trim_right(s: Seq<char>) -> Seq<char>
    decreases s.len(),
{
    if s.len() > 0 && is_space(s.last()) {
        trim_right(s.drop_last())
    } else {
        s
    }
}

/// `s` without the white space at both ends.
pub open spec fn trim_both(s: Seq<char>) -> Seq<char> {
    trim_right(trim_left(s))
}

/// `needle` stands in `hay` at position `i`.
pub open spec fn occurs_at<T>(hay: Seq<T>, needle: Seq<T>, i: int) -> bool {
    0 <= i && i + needle.len() <= hay.len() && hay.subrange(i, i + needle.len()) == needle
}

/// The first position at or after `from` where `needle` stands in `hay`.
pub open spec fn first_at<T>(hay: Seq<T>, needle: Seq<T>, from: int) -> Option<int>
    decreases hay.len() - from + 1,
{
    if from < 0 || from + needle.len() > hay.len() {
        None
    } else if occurs_at(hay, needle, from) {
        Some(from)
    } else {
        first_at(hay, needle, from + 1)
    }
}

/// `needle` stands somewhere in `hay`.
pub open spec fn has(hay: Seq<char>, needle: Seq<char>) -> bool {
    first_at(hay, needle, 0) is Some
}

/// The pieces of `s` between the characters `sep`: always at least one.
pub open spec fn split_by(s: Seq<char>, sep: char) -> Seq<Seq<char>>
    decreases s.len(),
{
    match first_at(s, seq![sep], 0) {
        Some(i) => if 0 <= i < s.len() {
            seq![s.take(i)] + split_by(s.skip(i + 1), sep)
        } else {
            seq![s]
        },
        None => seq![s],
    }
}

/// A line's content: what stood before its line feed, without the carriage
/// return of a `\r\n`.
pub open spec fn chomp(s: Seq<char>) -> Seq<char> {
    if s.len() > 0 && s.last() == '\r' {
        s.drop_last()
    } else {
        s
    }
}

/// The lines of `s`. A line ends with `\n` or `\r\n`; the ending of the last
/// one is optional.
pub open spec fn lines_of(s: Seq<char>) -> Seq<Seq<char>>
    decreases s.len(),
{
    if s.len() == 0 {
        Seq::empty()
    } else {
        match first_at(s, seq!['\n'], 0) {
            Some(i) => if 0 <= i < s.len() {
                seq![chomp(s.take(i))] + lines_of(s.skip(i + 1))
            } else {
                seq![s]
            },
            None => seq![s],
        }
    }
}

/// The texts of `list` one after the other, with `sep` between them.
pub open spec fn joined(list: Seq<Seq<char>>, sep: Seq<char>) -> Seq<char>
    decreases list.len(),
{
    if list.len() == 0 {
        Seq::empty()
    } else if list.len() == 1 {
        list[0]
    } else {
        joined(list.drop_last(), sep) + sep + list.last()
    }
}

pub open spec fn is_digit(c: char) -> bool {
    '0' <= c <= '9'
}

/// The number that a sequence of decimal digits writes.
pub open spec fn digits_value(s: Seq<char>) -> nat
    decreases s.len(),
{
    if s.len() == 0 {
        0
    } else {
        digits_value(s.drop_last()) * 10 + (s.last() as u32 - '0' as u32) as nat
    }
}

pub open spec fn all_digits(s: Seq<char>) -> bool {
    forall|i: int| 0 <= i < s.len() ==> is_digit(#[trigger] s[i])
}

/// The number that `s` writes: an optional `+`, then one or more decimal
/// digits, with a value that fits in 64 bits.
pub open spec fn number_of(s: Seq<char>) -> Option<u64> {
    let digits = if s.len() > 0 && s[0] == '+' {
        s.skip(1)
    } else {
        s
    };
    if digits.len() > 0 && all_digits(digits) && digits_value(digits) <= u64::MAX {
        Some(digits_value(digits) as u64)
    } else {
        None
    }
}

/// Whether the digits that `s` begins with make, behind those of `n`, a number
/// that is too large for 64 bits.
pub open spec fn too_large(s: Seq<char>, n: nat) -> bool
    decreases s.len(),
{
    if s.len() == 0 || !is_digit(s[0]) {
        false
    } else {
        let m = (n * 10 + (s[0] as int - '0' as int)) as nat;
        m > u64::MAX || too_large(s.skip(1), m)
    }
}

/// Why a text that is not a 64-bit unsigned number is none.
pub open spec fn number_fault(s: Seq<char>) -> Seq<char> {
    if s.len() == 0 {
        "cannot parse integer from empty string"@
    } else if too_large(
        if s[0] == '+' {
            s.skip(1)
        } else {
            s
        },
        0,
    ) {
        "number too large to fit in target type"@
    } else {
        "invalid digit found in string"@
    }
}

/// `n` in decimal, without leading zeros.
pub open spec fn decimal(n: nat) -> Seq<char>
    decreases n,
{
    let digit = ('0' as u32 + n % 10) as char;
    if n < 10 {
        seq![digit]
    } else {
        decimal(n / 10).push(digit)
    }
}

pub open spec fn ascii_lower(c: char) -> char {
    if 'A' <= c <= 'Z' {
        (c as u32 + 32) as char
    } else {
        c
    }
}

/// `a` and `b` are the same but for the case of ASCII letters.
pub open spec fn same_but_case(a: Seq<char>, b: Seq<char>) -> bool {
    a.map_values(|c: char| ascii_lower(c)) == b.map_values(|c: char| ascii_lower(c))
}

// ---------------------------------------------------------------------------
// The operations
// ---------------------------------------------------------------------------

/// The characters of `s`.
pub fn chars_of(s: &str) -> (r: Vec<char>)
    ensures
        r@ == s@,
{
    let mut out: Vec<char> = Vec::new();
    for c in it: s.chars()
        invariant
            out@ == it.seq().take(it.index() as int),
            it.seq() == s@,
    {
        out.push(c);
    }
    out
}

/// The text of the characters from `from` up to `to`.
pub fn text_of(cs: &Vec<char>, from: usize, to: usize) -> (r: String)
    requires
        from <= to <= cs@.len(),
    ensures
        r@ == cs@.subrange(from as int, to as int),
{
    let mut out = String::new();
    let mut i = from;
    while i < to
        invariant
            from <= i <= to <= cs@.len(),
            out@ == cs@.subrange(from as int, i as int),
        decreases to - i,
    {
        out.push(cs[i]);
        i += 1;
    }
    out
}

pub fn same(a: &str, b: &str) -> (r: bool)
    ensures
        r == (a@ == b@),
{
    a.to_owned() == b.to_owned()
}

pub fn is_space_char(c: char) -> (r: bool)
    ensures
        r == is_space(c),
{
    let u = c as u32;
    (0x9 <= u && u <= 0xD) || u == 0x20 || u == 0x85 || u == 0xA0 || u == 0x1680 || (0x2000 <= u
        && u <= 0x200A) || u == 0x2028 || u == 0x2029 || u == 0x202F || u == 0x205F || u == 0x3000
}


/// `str::trim`: the text without the white space at both ends.
pub fn trim(s: &str) -> (r: String)
    ensures
        r@ == trim_both(s@),
{
    let cs = chars_of(s);
    let mut from: usize = 0;
    proof {
        assert(cs@.skip(0) =~= cs@);
    }
    while from < cs.len() && is_space_char(cs[from])
        invariant
            from <= cs@.len(),
            trim_left(cs@) == trim_left(cs@.skip(from as int)),
        decreases cs@.len() - from,
    {
        proof {
            assert(cs@.skip(from as int).skip(1) =~= cs@.skip(from + 1));
        }
        from += 1;
    }
    let mut to: usize = cs.len();
    proof {
        assert(trim_left(cs@) == cs@.skip(from as int));
        assert(cs@.skip(from as int) =~= cs@.subrange(from as int, to as int));
    }
    while to > from && is_space_char(cs[to - 1])
        invariant
            from <= to <= cs@.len(),
            trim_both(cs@) == trim_right(cs@.subrange(from as int, to as int)),
        decreases to,
    {
        proof {
            let cut = cs@.subrange(from as int, to as int);
            assert(cut.last() == cs@[to - 1]);
            assert(cut.drop_last() =~= cs@.subrange(from as int, to - 1));
        }
        to -= 1;
    }
    proof {
        let cut = cs@.subrange(from as int, to as int);
        if to > from {
            assert(cut.last() == cs@[to - 1]);
        }
    }
    text_of(&cs, from, to)
}

/// `str::trim_start`: the text without its leading white space.
pub fn trim_start(s: &str) -> (r: String)
    ensures
        r@ == trim_left(s@),
{
    let cs = chars_of(s);
    let mut from: usize = 0;
    proof {
        assert(cs@.skip(0) =~= cs@);
    }
    while from < cs.len() && is_space_char(cs[from])
        invariant
            from <= cs@.len(),
            trim_left(cs@) == trim_left(cs@.skip(from as int)),
        decreases cs@.len() - from,
    {
        proof {
            assert(cs@.skip(from as int).skip(1) =~= cs@.skip(from + 1));
        }
        from += 1;
    }
    proof {
        assert(cs@.skip(from as int) =~= cs@.subrange(from as int, cs@.len() as int));
    }
    text_of(&cs, from, cs.len())
}

/// `needle` stands in `hay` at position `i`.
pub fn stands_at(hay: &Vec<char>, needle: &Vec<char>, i: usize) -> (r: bool)
    ensures
        r == occurs_at(hay@, needle@, i as int),
{
    if i > hay.len() || needle.len() > hay.len() - i {
        return false;
    }
    let mut k: usize = 0;
    while k < needle.len()
        invariant
            k <= needle@.len(),
            i + needle@.len() <= hay.len(),
            forall|j: int| 0 <= j < k ==> hay@[i + j] == needle@[j],
        decreases needle@.len() - k,
    {
        if hay[i + k] != needle[k] {
            proof {
                assert(hay@.subrange(i as int, i + needle@.len())[k as int] != needle@[k as int]);
            }
            return false;
        }
        k += 1;
    }
    proof {
        assert(hay@.subrange(i as int, i + needle@.len()) =~= needle@);
    }
    true
}

/// `str::find`: the first position at or after `from` where `needle` stands.
pub fn find_from(hay: &Vec<char>, needle: &Vec<char>, from: usize) -> (r: Option<usize>)
    requires
        from <= hay@.len(),
    ensures
        r matches Some(i) ==> first_at(hay@, needle@, from as int) == Some(i as int) && i
            + needle@.len() <= hay.len() && from <= i,
        r is None ==> first_at(hay@, needle@, from as int) is None,
{
    let mut i = from;
    while needle.len() <= hay.len() - i
        invariant
            from <= i <= hay@.len(),
            first_at(hay@, needle@, from as int) == first_at(hay@, needle@, i as int),
        decreases hay@.len() - i + 1,
    {
        if stands_at(hay, needle, i) {
            return Some(i);
        }
        if i == hay.len() {
            proof {
                assert(hay@.subrange(i as int, i as int) =~= needle@);
            }
            return None;
        }
        i += 1;
    }
    None
}

/// `str::contains`.
pub fn contains(hay: &str, needle: &str) -> (r: bool)
    ensures
        r == has(hay@, needle@),
{
    find_from(&chars_of(hay), &chars_of(needle), 0).is_some()
}

/// `str::starts_with`.
pub fn starts_with(s: &str, prefix: &str) -> (r: bool)
    ensures
        r == occurs_at(s@, prefix@, 0),
{
    stands_at(&chars_of(s), &chars_of(prefix), 0)
}

/// The texts `a` and `b` one after the other.
pub fn plus(a: &str, b: &str) -> (r: String)
    ensures
        r@ == a@ + b@,
{
    let mut out = a.to_owned();
    out.append(b);
    out
}

/// The texts `a`, `b` and `c` one after the other.
pub fn plus3(a: &str, b: &str, c: &str) -> (r: String)
    ensures
        r@ == a@ + b@ + c@,
{
    let mut out = plus(a, b);
    out.append(c);
    out
}

/// `[String]::join`.
pub fn join(list: &Vec<String>, sep: &str) -> (r: String)
    ensures
        r@ == joined(list.deep_view(), sep@),
{
    let ghost all = list.deep_view();
    let mut out = String::new();
    let mut k: usize = 0;
    while k < list.len()
        invariant
            k <= list@.len(),
            all == list.deep_view(),
            out@ == joined(all.take(k as int), sep@),
        decreases list@.len() - k,
    {
        proof {
            assert(all.take(k + 1).drop_last() =~= all.take(k as int));
            assert(all.take(k + 1).last() == list@[k as int]@);
        }
        if k > 0 {
            out.append(sep);
        }
        out.append(&list[k]);
        k += 1;
    }
    proof {
        assert(all.take(k as int) =~= all);
    }
    out
}

/// `str::lines`.
pub fn lines(s: &str) -> (r: Vec<String>)
    ensures
        r.deep_view() == lines_of(s@),
{
    let cs = chars_of(s);
    let newline: Vec<char> = vec!['\n'];
    let mut out: Vec<String> = Vec::new();
    let mut from: usize = 0;
    proof {
        assert(cs@.skip(0) =~= cs@);
        assert(newline@ =~= seq!['\n']);
    }
    while from < cs.len()
        invariant
            from <= cs@.len(),
            newline@ == seq!['\n'],
            cs@ == s@,
            lines_of(cs@) == out.deep_view() + lines_of(cs@.skip(from as int)),
        decreases cs@.len() - from,
    {
        let ghost before = out.deep_view();
        let ghost rest = cs@.skip(from as int);
        proof {
            lemma_first_at_skip(cs@, newline@, from as int, from as int);
        }
        match find_from(&cs, &newline, from) {
            Some(i) => {
                let to = if i > from && cs[i - 1] == '\r' {
                    i - 1
                } else {
                    i
                };
                out.push(text_of(&cs, from, to));
                proof {
                    let line = rest.take(i - from);
                    assert(line =~= cs@.subrange(from as int, i as int));
                    assert(chomp(line) =~= cs@.subrange(from as int, to as int));
                    assert(rest.skip(i - from + 1) =~= cs@.skip(i + 1));
                    assert(out.deep_view() =~= before.push(chomp(line)));
                    assert(before.push(chomp(line)) + lines_of(cs@.skip(i + 1)) =~= before + (seq![
                        chomp(line),
                    ] + lines_of(cs@.skip(i + 1))));
                }
                from = i + 1;
            },
            None => {
                out.push(text_of(&cs, from, cs.len()));
                proof {
                    assert(rest =~= cs@.subrange(from as int, cs@.len() as int));
                    assert(out.deep_view() =~= before + seq![rest]);
                }
                return out;
            },
        }
    }
    proof {
        assert(out.deep_view() + lines_of(cs@.skip(from as int)) =~= out.deep_view());
    }
    out
}

/// `str::split` on one character, collected.
pub fn split(s: &str, sep: char) -> (r: Vec<String>)
    ensures
        r.deep_view() == split_by(s@, sep),
{
    let cs = chars_of(s);
    let seps: Vec<char> = vec![sep];
    let mut out: Vec<String> = Vec::new();
    let mut from: usize = 0;
    proof {
        assert(cs@.skip(0) =~= cs@);
        assert(seps@ =~= seq![sep]);
    }
    loop
        invariant
            from <= cs@.len(),
            seps@ == seq![sep],
            split_by(cs@, sep) == out.deep_view() + split_by(cs@.skip(from as int), sep),
            cs@ == s@,
        decreases cs@.len() - from,
    {
        let ghost before = out.deep_view();
        let ghost rest = cs@.skip(from as int);
        proof {
            lemma_first_at_skip(cs@, seps@, from as int, from as int);
        }
        match find_from(&cs, &seps, from) {
            Some(i) => {
                out.push(text_of(&cs, from, i));
                proof {
                    let piece = rest.take(i - from);
                    assert(piece =~= cs@.subrange(from as int, i as int));
                    assert(rest.skip(i - from + 1) =~= cs@.skip(i + 1));
                    assert(out.deep_view() =~= before.push(piece));
                    assert(before.push(piece) + split_by(cs@.skip(i + 1), sep) =~= before + (seq![
                        piece,
                    ] + split_by(cs@.skip(i + 1), sep)));
                }
                from = i + 1;
            },
            None => {
                out.push(text_of(&cs, from, cs.len()));
                proof {
                    assert(rest =~= cs@.subrange(from as int, cs@.len() as int));
                    assert(out.deep_view() =~= before + seq![rest]);
                }
                return out;
            },
        }
    }
}

/// `str::parse` to a 64-bit unsigned number.
pub fn parse_number(s: &str) -> (r: Option<u64>)
    ensures
        r == number_of(s@),
{
    let cs = chars_of(s);
    let start: usize = if cs.len() > 0 && cs[0] == '+' {
        1
    } else {
        0
    };
    let ghost digits = if cs@.len() > 0 && cs@[0] == '+' {
        cs@.skip(1)
    } else {
        cs@
    };
    if start == cs.len() {
        return None;
    }
    let mut value: u64 = 0;
    let mut i: usize = start;
    while i < cs.len()
        invariant
            start <= i <= cs@.len(),
            start <= 1,
            digits == cs@.skip(start as int),
            digits.len() > 0,
            digits == if cs@.len() > 0 && cs@[0] == '+' {
                cs@.skip(1)
            } else {
                cs@
            },
            cs@ == s@,
            all_digits(digits.take(i - start)),
            value == digits_value(digits.take(i - start)),
        decreases cs@.len() - i,
    {
        let c = cs[i];
        proof {
            assert(digits[i - start] == c);
            assert(digits.take(i - start + 1).drop_last() =~= digits.take(i - start));
        }
        if c < '0' || c > '9' {
            return None;
        }
        let digit = (c as u32 - '0' as u32) as u64;
        proof {
            lemma_digits_value_grows(digits, i - start + 1);
        }
        match value.checked_mul(10) {
            None => {
                return None;
            },
            Some(tens) => match tens.checked_add(digit) {
                None => {
                    return None;
                },
                Some(next) => {
                    proof {
                        assert forall|j: int| 0 <= j < i - start + 1 implies is_digit(
                            #[trigger] digits.take(i - start + 1)[j],
                        ) by {
                            if j < i - start {
                                assert(digits.take(i - start)[j] == digits[j]);
                            }
                        }
                    }
                    value = next;
                },
            },
        }
        i += 1;
    }
    proof {
        assert(digits.take(i - start) =~= digits);
    }
    Some(value)
}

/// Why a text that is not a 64-bit unsigned number is none.
pub fn why_no_number(s: &str) -> (r: String)
    ensures
        r@ == number_fault(s@),
{
    let cs = chars_of(s);
    if cs.len() == 0 {
        return own("cannot parse integer from empty string");
    }
    let mut i: usize = if cs[0] == '+' {
        1
    } else {
        0
    };
    let mut value: u64 = 0;
    let ghost digits = if cs@[0] == '+' {
        cs@.skip(1)
    } else {
        cs@
    };
    assert(digits =~= cs@.skip(i as int));
    while i < cs.len() && cs[i] >= '0' && cs[i] <= '9'
        invariant
            i <= cs.len(),
            cs.len() > 0,
            cs@ == s@,
            digits == if cs@[0] == '+' {
                cs@.skip(1)
            } else {
                cs@
            },
            too_large(digits, 0) == too_large(cs@.skip(i as int), value as nat),
        decreases cs.len() - i,
    {
        proof {
            assert(cs@.skip(i as int)[0] == cs@[i as int]);
            assert(cs@.skip(i as int).skip(1) =~= cs@.skip(i + 1));
        }
        let next: u128 = value as u128 * 10 + (cs[i] as u32 - '0' as u32) as u128;
        if next > u64::MAX as u128 {
            return own("number too large to fit in target type");
        }
        value = next as u64;
        i = i + 1;
    }
    proof {
        if i < cs.len() {
            assert(cs@.skip(i as int)[0] == cs@[i as int]);
        }
    }
    own("invalid digit found in string")
}

/// `n` in decimal.
pub fn print_number(n: u64) -> (r: String)
    ensures
        r@ == decimal(n as nat),
    decreases n,
{
    let digit = digit_char((n % 10) as u8);
    let mut out = if n < 10 {
        String::new()
    } else {
        print_number(n / 10)
    };
    out.push(digit);
    proof {
        assert(seq![digit] =~= Seq::<char>::empty().push(digit));
    }
    out
}

fn digit_char(d: u8) -> (r: char)
    requires
        d < 10,
    ensures
        r == ('0' as u32 + d) as char,
{
    (48u8 + d) as char
}

/// `str::eq_ignore_ascii_case`.
pub fn same_ignoring_case(a: &Vec<char>, b: &Vec<char>) -> (r: bool)
    ensures
        r == same_but_case(a@, b@),
{
    let ghost low_a = a@.map_values(|c: char| ascii_lower(c));
    let ghost low_b = b@.map_values(|c: char| ascii_lower(c));
    if a.len() != b.len() {
        proof {
            assert(low_a.len() != low_b.len());
        }
        return false;
    }
    let mut i: usize = 0;
    while i < a.len()
        invariant
            i <= a@.len(),
            a@.len() == b@.len(),
            low_a == a@.map_values(|c: char| ascii_lower(c)),
            low_b == b@.map_values(|c: char| ascii_lower(c)),
            forall|j: int| 0 <= j < i ==> low_a[j] == low_b[j],
        decreases a@.len() - i,
    {
        if lower(a[i]) != lower(b[i]) {
            proof {
                assert(low_a[i as int] != low_b[i as int]);
            }
            return false;
        }
        i += 1;
    }
    proof {
        assert(low_a =~= low_b);
    }
    true
}

fn lower(c: char) -> (r: char)
    ensures
        r == ascii_lower(c),
{
    if 'A' <= c && c <= 'Z' {
        (c as u8 + 32) as char
    } else {
        c
    }
}

/// Put a text at the end of a list.
pub fn put(list: &mut Vec<String>, s: String)
    ensures
        final(list).deep_view() == old(list).deep_view().push(s@),
{
    let ghost before = list.deep_view();
    list.push(s);
    assert(list.deep_view() =~= before.push(s@));
}

/// Put a text at the end of a list unless it is there.
pub fn put_new(list: &mut Vec<String>, s: String)
    ensures
        final(list).deep_view().to_set() == old(list).deep_view().to_set().insert(s@),
{
    let ghost before = list.deep_view();
    if !listed(list, &s) {
        put(list, s);
        proof {
            lemma_push_to_set(before, s@);
        }
    } else {
        assert(before.to_set() =~= before.to_set().insert(s@));
    }
}

/// A text of one's own.
pub fn own(s: &str) -> (r: String)
    ensures
        r@ == s@,
{
    s.to_owned()
}

/// A list of one text.
pub fn list1(a: &str) -> (r: Vec<String>)
    ensures
        r.deep_view() == seq![a@],
{
    let mut r: Vec<String> = Vec::new();
    put(&mut r, own(a));
    assert(r.deep_view() =~= seq![a@]);
    r
}

/// A list of two texts.
pub fn list2(a: &str, b: &str) -> (r: Vec<String>)
    ensures
        r.deep_view() == seq![a@, b@],
{
    let mut r: Vec<String> = Vec::new();
    put(&mut r, own(a));
    put(&mut r, own(b));
    assert(r.deep_view() =~= seq![a@, b@]);
    r
}

/// A list of three texts.
pub fn list3(a: &str, b: &str, c: &str) -> (r: Vec<String>)
    ensures
        r.deep_view() == seq![a@, b@, c@],
{
    let mut r = list2(a, b);
    put(&mut r, own(c));
    assert(r.deep_view() =~= seq![a@, b@, c@]);
    r
}

/// A list of four texts.
pub fn list4(a: &str, b: &str, c: &str, d: &str) -> (r: Vec<String>)
    ensures
        r.deep_view() == seq![a@, b@, c@, d@],
{
    let mut r = list3(a, b, c);
    put(&mut r, own(d));
    assert(r.deep_view() =~= seq![a@, b@, c@, d@]);
    r
}

/// A list without texts.
pub fn list0() -> (r: Vec<String>)
    ensures
        r.deep_view() == Seq::<Seq<char>>::empty(),
{
    let r: Vec<String> = Vec::new();
    assert(r.deep_view() =~= Seq::empty());
    r
}

/// Put texts at the end of a list.
pub fn append(list: &mut Vec<String>, more: Vec<String>)
    ensures
        final(list).deep_view() == old(list).deep_view() + more.deep_view(),
{
    let ghost before = list.deep_view();
    let mut i: usize = 0;
    assert(list.deep_view() =~= before + more.deep_view().take(0));
    while i < more.len()
        invariant
            i <= more.len(),
            list.deep_view() == before + more.deep_view().take(i as int),
        decreases more.len() - i,
    {
        put(list, more[i].clone());
        i = i + 1;
        assert(list.deep_view() =~= before + more.deep_view().take(i as int));
    }
    assert(more.deep_view().take(i as int) =~= more.deep_view());
}

/// A list with copies of the same texts.
pub fn copies(list: &Vec<String>) -> (r: Vec<String>)
    ensures
        r.deep_view() == list.deep_view(),
{
    let mut r: Vec<String> = Vec::new();
    let mut i: usize = 0;
    assert(r.deep_view() =~= list.deep_view().take(0));
    while i < list.len()
        invariant
            i <= list.len(),
            r.deep_view() == list.deep_view().take(i as int),
        decreases list.len() - i,
    {
        put(&mut r, list[i].clone());
        i = i + 1;
        assert(r.deep_view() =~= list.deep_view().take(i as int));
    }
    assert(list.deep_view().take(i as int) =~= list.deep_view());
    r
}

/// The lists hold the same texts in the same order.
pub fn same_list(a: &Vec<String>, b: &Vec<String>) -> (r: bool)
    ensures
        r == (a.deep_view() == b.deep_view()),
{
    assert(a.deep_view().len() == a.len() && b.deep_view().len() == b.len());
    if a.len() != b.len() {
        return false;
    }
    let mut i: usize = 0;
    while i < a.len()
        invariant
            i <= a.len(),
            a.len() == b.len(),
            forall|k: int| 0 <= k < i ==> #[trigger] a.deep_view()[k] == b.deep_view()[k],
        decreases a.len() - i,
    {
        assert(a.deep_view()[i as int] == a@[i as int]@);
        assert(b.deep_view()[i as int] == b@[i as int]@);
        if !same(&a[i], &b[i]) {
            return false;
        }
        i = i + 1;
    }
    assert(a.deep_view() =~= b.deep_view());
    true
}

/// The same text is in the list.
pub fn listed(list: &Vec<String>, s: &str) -> (r: bool)
    ensures
        r == list.deep_view().contains(s@),
{
    let mut i: usize = 0;
    while i < list.len()
        invariant
            i <= list@.len(),
            forall|j: int| 0 <= j < i ==> list@[j]@ != s@,
        decreases list@.len() - i,
    {
        if same(&list[i], s) {
            proof {
                assert(list.deep_view()[i as int] == s@);
            }
            return true;
        }
        i += 1;
    }
    proof {
        assert forall|j: int| 0 <= j < list.deep_view().len() implies list.deep_view()[j] != s@ by {
            assert(list.deep_view()[j] == list@[j]@);
        }
    }
    false
}

// ---------------------------------------------------------------------------
// Lemmas
// ---------------------------------------------------------------------------

/// What a longer list holds.
pub proof fn lemma_push_to_set(s: Seq<Seq<char>>, x: Seq<char>)
    ensures
        s.push(x).to_set() == s.to_set().insert(x),
{
    assert forall|y: Seq<char>| s.push(x).to_set().contains(y) == s.to_set().insert(x).contains(
        y,
    ) by {
        if s.contains(y) {
            let i = choose|i: int| 0 <= i < s.len() && s[i] == y;
            assert(s.push(x)[i] == y);
        }
        if y == x {
            assert(s.push(x)[s.len() as int] == y);
        }
        if s.push(x).contains(y) && y != x {
            let i = choose|i: int| 0 <= i < s.push(x).len() && s.push(x)[i] == y;
            assert(s[i] == y);
        }
    }
    assert(s.push(x).to_set() =~= s.to_set().insert(x));
}

/// Searching the tail of a sequence is searching the sequence from there on.
pub proof fn lemma_first_at_skip<T>(hay: Seq<T>, needle: Seq<T>, cut: int, from: int)
    requires
        0 <= cut <= from <= hay.len(),
    ensures
        first_at(hay, needle, from) == (match first_at(hay.skip(cut), needle, from - cut) {
            Some(i) => Some(i + cut),
            None => None,
        }),
    decreases hay.len() - from + 1,
{
    let tail = hay.skip(cut);
    if from + needle.len() <= hay.len() {
        assert(tail.subrange(from - cut, from - cut + needle.len()) =~= hay.subrange(
            from,
            from + needle.len(),
        ));
        if !occurs_at(hay, needle, from) {
            if from < hay.len() {
                lemma_first_at_skip(hay, needle, cut, from + 1);
            }
        }
    }
}

/// The first position of `needle` from `from` on is one where it stands, and
/// it stands at none in between.
pub proof fn lemma_first_at<T>(hay: Seq<T>, needle: Seq<T>, from: int)
    requires
        0 <= from,
    ensures
        match first_at(hay, needle, from) {
            Some(i) => from <= i && occurs_at(hay, needle, i) && forall|j: int|
                from <= j < i ==> !#[trigger] occurs_at(hay, needle, j),
            None => forall|j: int| from <= j ==> !#[trigger] occurs_at(hay, needle, j),
        },
    decreases hay.len() - from + 1,
{
    if from + needle.len() <= hay.len() && !occurs_at(hay, needle, from) {
        lemma_first_at(hay, needle, from + 1);
    }
}

/// Where `needle` stands, and does not stand before, is its first position.
pub proof fn lemma_first_found<T>(hay: Seq<T>, needle: Seq<T>, from: int, i: int)
    requires
        0 <= from <= i,
        occurs_at(hay, needle, i),
        forall|j: int| from <= j < i ==> !#[trigger] occurs_at(hay, needle, j),
    ensures
        first_at(hay, needle, from) == Some(i),
{
    lemma_first_at(hay, needle, from);
}

/// A single character stands where the character is.
pub proof fn lemma_occurs_char(s: Seq<char>, c: char, i: int)
    ensures
        occurs_at(s, seq![c], i) <==> 0 <= i < s.len() && s[i] == c,
{
    if 0 <= i < s.len() {
        if s[i] == c {
            assert(s.subrange(i, i + 1) =~= seq![c]);
        } else {
            assert(s.subrange(i, i + 1)[0] == s[i]);
        }
    }
}

/// A text without the separator is one piece.
pub proof fn lemma_split_whole(s: Seq<char>, sep: char)
    requires
        !s.contains(sep),
    ensures
        split_by(s, sep) == seq![s],
{
    lemma_first_at(s, seq![sep], 0);
    if let Some(i) = first_at(s, seq![sep], 0) {
        lemma_occurs_char(s, sep, i);
        assert(s.contains(s[i]));
    }
}

/// What stands before the first separator is the first piece.
pub proof fn lemma_split_first(a: Seq<char>, sep: char, rest: Seq<char>)
    requires
        !a.contains(sep),
    ensures
        split_by(a + seq![sep] + rest, sep) == seq![a] + split_by(rest, sep),
{
    let s = a + seq![sep] + rest;
    let i = a.len() as int;
    assert(s[i] == sep);
    lemma_occurs_char(s, sep, i);
    assert forall|j: int| 0 <= j < i implies !#[trigger] occurs_at(s, seq![sep], j) by {
        lemma_occurs_char(s, sep, j);
        assert(s[j] == a[j]);
        assert(a.contains(a[j]));
    }
    lemma_first_found(s, seq![sep], 0, i);
    assert(s.take(i) =~= a);
    assert(s.skip(i + 1) =~= rest);
}

/// Nothing is trimmed where no white space stands at the ends.
pub proof fn lemma_trim_nothing(s: Seq<char>)
    requires
        s.len() > 0 ==> !is_space(s[0]) && !is_space(s.last()),
    ensures
        trim_both(s) == s,
{
}

/// A number in decimal is made of digits, and writes that number.
pub proof fn lemma_decimal(n: nat)
    ensures
        decimal(n).len() > 0,
        all_digits(decimal(n)),
        digits_value(decimal(n)) == n,
    decreases n,
{
    let digit = ('0' as u32 + n % 10) as char;
    assert(digit as u32 - '0' as u32 == n % 10);
    if n < 10 {
        assert(decimal(n).drop_last() =~= Seq::empty());
        reveal_with_fuel(digits_value, 2);
    } else {
        lemma_decimal(n / 10);
        assert(decimal(n).drop_last() =~= decimal(n / 10));
        assert forall|i: int| 0 <= i < decimal(n).len() implies is_digit(
            #[trigger] decimal(n)[i],
        ) by {
            if i < decimal(n / 10).len() {
                assert(decimal(n / 10)[i] == decimal(n)[i]);
            }
        }
    }
}

/// A number in decimal reads back.
pub proof fn lemma_decimal_reads_back(n: u64)
    ensures
        number_of(decimal(n as nat)) == Some(n),
{
    lemma_decimal(n as nat);
    assert(is_digit(decimal(n as nat)[0]));
}

/// More digits never write a smaller number.
proof fn lemma_digits_value_grows(s: Seq<char>, k: int)
    requires
        0 <= k <= s.len(),
    ensures
        all_digits(s) ==> digits_value(s.take(k)) <= digits_value(s),
    decreases s.len() - k,
{
    if k < s.len() {
        lemma_digits_value_grows(s, k + 1);
        if all_digits(s) {
            assert(s.take(k + 1).drop_last() =~= s.take(k));
            assert(is_digit(s[k]));
        }
    } else {
        assert(s.take(k) =~= s);
    }
}

/// A line ends with its line feed, and a carriage return before that is part of
/// the ending.
pub proof fn law_lines_end_with_line_feeds(line: Seq<char>, rest: Seq<char>)
    requires
        !line.contains('\n'),
    ensures
        lines_of(line + seq!['\n'] + rest) == seq![chomp(line)] + lines_of(rest),
        lines_of(line + seq!['\r', '\n'] + rest) == seq![line] + lines_of(rest),
        line.len() > 0 ==> lines_of(line) == seq![line],
        lines_of(Seq::empty()) == Seq::<Seq<char>>::empty(),
{
    lemma_line(line, rest);
    let longer = line + seq!['\r'];
    assert(!longer.contains('\n')) by {
        if longer.contains('\n') {
            let i = choose|i: int| 0 <= i < longer.len() && longer[i] == '\n';
            assert(line[i] == '\n');
        }
    }
    lemma_line(longer, rest);
    assert(line + seq!['\r', '\n'] + rest =~= longer + seq!['\n'] + rest);
    assert(longer.drop_last() =~= line);
    lemma_first_at(line, seq!['\n'], 0);
    if let Some(i) = first_at(line, seq!['\n'], 0) {
        lemma_occurs_char(line, '\n', i);
        assert(line.contains(line[i]));
    }
}

proof fn lemma_line(line: Seq<char>, rest: Seq<char>)
    requires
        !line.contains('\n'),
    ensures
        lines_of(line + seq!['\n'] + rest) == seq![chomp(line)] + lines_of(rest),
{
    let s = line + seq!['\n'] + rest;
    let i = line.len() as int;
    assert(s[i] == '\n');
    lemma_occurs_char(s, '\n', i);
    assert forall|j: int| 0 <= j < i implies !#[trigger] occurs_at(s, seq!['\n'], j) by {
        lemma_occurs_char(s, '\n', j);
        assert(s[j] == line[j]);
        assert(line.contains(line[j]));
    }
    lemma_first_found(s, seq!['\n'], 0, i);
    assert(s.take(i) =~= line);
    assert(s.skip(i + 1) =~= rest);
}

spec fn blank(s: Seq<char>) -> bool {
    forall|i: int| 0 <= i < s.len() ==> is_space(#[trigger] s[i])
}

proof fn lemma_trim_left(s: Seq<char>, before: Seq<char>, inner: Seq<char>)
    requires
        s == before + inner,
        blank(before),
        inner.len() == 0 || !is_space(inner[0]),
    ensures
        trim_left(s) == inner,
    decreases before.len(),
{
    if before.len() > 0 {
        assert(s[0] == before[0]);
        assert(s.skip(1) =~= before.skip(1) + inner);
        assert forall|i: int| 0 <= i < before.skip(1).len() implies is_space(
            #[trigger] before.skip(1)[i],
        ) by {
            assert(before.skip(1)[i] == before[i + 1]);
        }
        lemma_trim_left(s.skip(1), before.skip(1), inner);
    } else {
        assert(s =~= inner);
    }
}

proof fn lemma_trim_right(s: Seq<char>, inner: Seq<char>, after: Seq<char>)
    requires
        s == inner + after,
        blank(after),
        inner.len() == 0 || !is_space(inner.last()),
    ensures
        trim_right(s) == inner,
    decreases after.len(),
{
    if after.len() > 0 {
        assert(s.last() == after.last());
        assert(s.drop_last() =~= inner + after.drop_last());
        assert forall|i: int| 0 <= i < after.drop_last().len() implies is_space(
            #[trigger] after.drop_last()[i],
        ) by {
            assert(after.drop_last()[i] == after[i]);
        }
        lemma_trim_right(s.drop_last(), inner, after.drop_last());
    } else {
        assert(s =~= inner);
    }
}

/// Trimming takes away the white space on both sides, and nothing else.
pub proof fn law_white_space_around_is_trimmed(
    before: Seq<char>,
    inner: Seq<char>,
    after: Seq<char>,
)
    requires
        forall|i: int| 0 <= i < before.len() ==> is_space(#[trigger] before[i]),
        forall|i: int| 0 <= i < after.len() ==> is_space(#[trigger] after[i]),
        inner.len() > 0 && !is_space(inner[0]) && !is_space(inner.last()),
    ensures
        trim_both(before + inner + after) == inner,
        trim_both(before + after).len() == 0,
{
    let s = before + inner + after;
    assert(s =~= before + (inner + after));
    assert((inner + after)[0] == inner[0]);
    lemma_trim_left(s, before, inner + after);
    lemma_trim_right(s, before + inner, after);
    lemma_trim_right(inner + after, inner, after);
    lemma_trim_left(before + inner, before, inner);
    let all = before + after;
    let none = Seq::<char>::empty();
    assert forall|i: int| 0 <= i < all.len() implies is_space(#[trigger] all[i]) by {
        if i >= before.len() {
            assert(all[i] == after[i - before.len()]);
        }
    }
    lemma_trim_left(all, all, none);
    assert(all =~= all + none);
    lemma_trim_right(all, none, all);
    assert(all =~= none + all);
}

/// The pieces of a joined text are the texts in their order, with the separator
/// between each two.
pub proof fn law_first_piece_comes_first(first: Seq<char>, rest: Seq<Seq<char>>, sep: Seq<char>)
    ensures
        rest.len() > 0 ==> joined(seq![first] + rest, sep) == first + sep + joined(rest, sep),
        joined(seq![first], sep) == first,
    decreases rest.len(),
{
    if rest.len() > 0 {
        let all = seq![first] + rest;
        assert(all.last() == rest.last());
        assert(all.drop_last() =~= seq![first] + rest.drop_last());
        law_first_piece_comes_first(first, rest.drop_last(), sep);
        if rest.len() == 1 {
            assert(all.drop_last() =~= seq![first]);
            assert(joined(all, sep) =~= first + sep + joined(rest, sep));
        } else {
            assert(joined(all, sep) =~= first + sep + joined(rest, sep));
        }
    }
}

proof fn lemma_too_large(s: Seq<char>, k: int, n: nat)
    requires
        all_digits(s),
        0 <= k <= s.len(),
        n == digits_value(s.take(k)),
        n <= u64::MAX,
    ensures
        too_large(s.skip(k), n) == (digits_value(s) > u64::MAX),
    decreases s.len() - k,
{
    if k == s.len() {
        assert(s.take(k) =~= s);
    } else {
        let next = s.take(k + 1);
        assert(next.drop_last() =~= s.take(k));
        assert(next.last() == s[k]);
        assert(s.skip(k)[0] == s[k]);
        assert(s.skip(k).skip(1) =~= s.skip(k + 1));
        assert(is_digit(s[k]));
        let m = digits_value(next);
        if m > u64::MAX {
            lemma_digits_value_grows(s, k + 1);
        } else {
            lemma_too_large(s, k + 1, m);
        }
    }
}

/// A text that is not a number is said to be empty, if it is; too large, if it
/// has digits alone; and to have a character that is no digit, if it begins
/// with one.
pub proof fn law_fault_of_what_is_no_number(s: Seq<char>)
    requires
        number_of(s) is None,
    ensures
        s.len() == 0 ==> number_fault(s) == "cannot parse integer from empty string"@,
        s.len() > 0 && all_digits(s) ==> number_fault(s)
            == "number too large to fit in target type"@,
        s.len() > 0 && !is_digit(s[0]) && s[0] != '+' ==> number_fault(s)
            == "invalid digit found in string"@,
        s.len() == 1 && s[0] == '+' ==> number_fault(s) == "invalid digit found in string"@,
{
    if s.len() > 0 && all_digits(s) {
        assert(is_digit(s[0]));
        assert(s.take(0) =~= Seq::<char>::empty());
        assert(s.skip(0) =~= s);
        lemma_too_large(s, 0, 0);
    }
}

/// Letters of ASCII are the same in both cases, and other characters only if
/// they are equal.
pub proof fn law_case_is_passed_over(a: Seq<char>, b: Seq<char>)
    ensures
        same_but_case(a, b) == (a.len() == b.len() && forall|i: int|
            0 <= i < a.len() ==> (#[trigger] a[i] == b[i] || ('A' <= a[i] <= 'Z' && b[i] as u32
                == a[i] as u32 + 32) || ('A' <= b[i] <= 'Z' && a[i] as u32 == b[i] as u32 + 32))),
{
    let x = a.map_values(|c: char| ascii_lower(c));
    let y = b.map_values(|c: char| ascii_lower(c));
    if same_but_case(a, b) {
        assert(x.len() == a.len() && y.len() == b.len());
        assert forall|i: int| 0 <= i < a.len() implies (#[trigger] a[i] == b[i] || ('A' <= a[i]
            <= 'Z' && b[i] as u32 == a[i] as u32 + 32) || ('A' <= b[i] <= 'Z' && a[i] as u32
            == b[i] as u32 + 32)) by {
            assert(x[i] == ascii_lower(a[i]));
            assert(y[i] == ascii_lower(b[i]));
        }
    }
    if a.len() == b.len() && forall|i: int|
        0 <= i < a.len() ==> (#[trigger] a[i] == b[i] || ('A' <= a[i] <= 'Z' && b[i] as u32
            == a[i] as u32 + 32) || ('A' <= b[i] <= 'Z' && a[i] as u32 == b[i] as u32 + 32)) {
        assert forall|i: int| 0 <= i < a.len() implies #[trigger] x[i] == y[i] by {
            assert(a[i] == b[i] || a[i] != b[i]);
        }
        assert(x =~= y);
    }
}

} // verus!
