//! The versions of workspace members in the text of a `bun.lock`.

use vstd::prelude::*;

use crate::error::Error;
use crate::error::ErrorOf;
use crate::error::ErrorView;
use crate::text;
use crate::text::chars_of;
use crate::text::is_space_char;
use crate::text::own;
use crate::text::plus3;
use crate::text::stands_at;
use crate::text::text_of;

verus! {

/// What a scan over a JSON text is in.
#[derive(Clone, Copy, PartialEq, Eq, Structural)]
pub enum Mode {
    /// Neither a string nor a comment.
    Plain,
    /// Behind a `/` that may begin a comment.
    Slash,
    /// A comment that ends with the line.
    Line,
    /// A comment that ends with `*/`.
    Block,
    /// Behind a `*` in such a comment.
    Star,
    /// A string.
    Quoted,
    /// Behind a backslash in a string.
    Escaped,
}

/// How far a scan over a JSON text has got.
pub struct Scan {
    /// How many braces are open.
    pub depth: int,
    pub mode: Mode,
}

/// The scan is neither in a string nor in a comment.
pub open spec fn outside(mode: Mode) -> bool {
    mode is Plain || mode is Slash
}

/// The scan after one more character. `comments` tells whether there can be
/// comments in the text.
pub open spec fn scanned(s: Scan, code: u32, comments: bool) -> Scan {
    match s.mode {
        Mode::Quoted => if code == '\\' as u32 {
            Scan { mode: Mode::Escaped, ..s }
        } else if code == '"' as u32 {
            Scan { mode: Mode::Plain, ..s }
        } else {
            s
        },
        Mode::Escaped => Scan { mode: Mode::Quoted, ..s },
        Mode::Line => if code == '\n' as u32 {
            Scan { mode: Mode::Plain, ..s }
        } else {
            s
        },
        Mode::Block => if code == '*' as u32 {
            Scan { mode: Mode::Star, ..s }
        } else {
            s
        },
        Mode::Star => if code == '/' as u32 {
            Scan { mode: Mode::Plain, ..s }
        } else if code == '*' as u32 {
            s
        } else {
            Scan { mode: Mode::Block, ..s }
        },
        _ => if s.mode is Slash && code == '/' as u32 {
            Scan { mode: Mode::Line, ..s }
        } else if s.mode is Slash && code == '*' as u32 {
            Scan { mode: Mode::Block, ..s }
        } else if code == '"' as u32 {
            Scan { mode: Mode::Quoted, ..s }
        } else if code == '{' as u32 {
            Scan { depth: s.depth + 1, mode: Mode::Plain }
        } else if code == '}' as u32 {
            Scan { depth: s.depth - 1, mode: Mode::Plain }
        } else if comments && code == '/' as u32 {
            Scan { mode: Mode::Slash, ..s }
        } else {
            Scan { mode: Mode::Plain, ..s }
        },
    }
}

/// The scan of what stands from `open` up to `i`.
pub open spec fn scan_to(codes: Seq<u32>, open: int, i: int, comments: bool) -> Scan
    decreases i - open,
{
    if i <= open {
        Scan { depth: 0, mode: Mode::Plain }
    } else {
        scanned(scan_to(codes, open, i - 1, comments), codes[i - 1], comments)
    }
}

/// The position `i` is in the object that the brace at `open` opens, and
/// neither in a string, a comment nor an object inside of it.
pub open spec fn at_level(codes: Seq<u32>, open: int, i: int, comments: bool) -> bool {
    &&& open < i < codes.len()
    &&& outside(scan_to(codes, open, i, comments).mode)
    &&& scan_to(codes, open, i, comments).depth == 1
}

/// The brace at `i` closes the one at `open`: it stands outside of strings,
/// and no other one is open.
pub open spec fn closes(codes: Seq<u32>, open: int, i: int, comments: bool) -> bool {
    at_level(codes, open, i, comments) && codes[i] == '}' as u32
}

/// The first position from `i` on of a brace that closes the one at `open`.
pub open spec fn closing_from(codes: Seq<u32>, open: int, i: int, comments: bool) -> Option<int>
    decreases codes.len() - i,
{
    if i >= codes.len() {
        None
    } else if closes(codes, open, i, comments) {
        Some(i)
    } else {
        closing_from(codes, open, i + 1, comments)
    }
}

/// The codes of characters.
pub open spec fn codes(s: Seq<char>) -> Seq<u32> {
    Seq::new(s.len(), |i: int| s[i] as u32)
}

/// The numbers that bytes are.
pub open spec fn widened(s: Seq<u8>) -> Seq<u32> {
    Seq::new(s.len(), |i: int| s[i] as u32)
}

/// The scan of a lockfile, which can have comments, from `open` up to `i`.
pub open spec fn scan(s: Seq<char>, open: int, i: int) -> Scan {
    scan_to(codes(s), open, i, true)
}

/// The position of the brace that closes the one at `open`.
pub open spec fn closing(s: Seq<char>, open: int) -> Option<int> {
    closing_from(codes(s), open, open, true)
}

pub open spec fn unbalanced() -> ErrorView {
    ErrorOf::Malformed("bun.lock: unbalanced braces"@)
}

/// How a key stands before its value.
pub open spec fn quoted_key(key: Seq<char>) -> Seq<char> {
    "\""@ + key + "\":"@
}

/// Where, from `i` on, `key` first stands outside of strings and comments.
pub open spec fn anchor_from(s: Seq<char>, i: int, key: Seq<char>) -> Option<int>
    decreases s.len() - i,
{
    if i >= s.len() {
        None
    } else if outside(scan(s, 0, i).mode) && text::occurs_at(s, quoted_key(key), i) {
        Some(i)
    } else {
        anchor_from(s, i + 1, key)
    }
}

/// Where, from `i` on, `key` first stands as a key of the object that the brace
/// at `open` opens. Keys of objects inside of it do not count.
pub open spec fn key_from(s: Seq<char>, open: int, i: int, key: Seq<char>) -> Option<int>
    decreases s.len() - i,
{
    if i >= s.len() || closes(codes(s), open, i, true) {
        None
    } else if at_level(codes(s), open, i, true) && text::occurs_at(s, quoted_key(key), i) {
        Some(i)
    } else {
        key_from(s, open, i + 1, key)
    }
}

/// A comment begins at `i`.
pub open spec fn comment_at(s: Seq<char>, i: int) -> bool {
    &&& 0 <= i < s.len() - 1
    &&& s[i] == '/'
    &&& s[i + 1] == '/' || s[i + 1] == '*'
}

/// The first position from `i` on, in what follows `from`, that is neither
/// white space nor in a comment.
pub open spec fn value_from(s: Seq<char>, from: int, i: int) -> int
    decreases s.len() - i,
{
    if i >= s.len() || (scan(s, from, i).mode is Plain && !text::is_space(s[i]) && !comment_at(
        s,
        i,
    )) {
        i
    } else {
        value_from(s, from, i + 1)
    }
}

/// There is an opening brace at `i`.
pub open spec fn opens(s: Seq<char>, i: int) -> bool {
    0 <= i < s.len() && s[i] == '{'
}

/// The object that is the value behind the key at `at`: where its brace is.
pub open spec fn object_behind(s: Seq<char>, at: int, key: Seq<char>) -> Option<int> {
    let from = at + quoted_key(key).len();
    if opens(s, value_from(s, from, from)) {
        Some(value_from(s, from, from))
    } else {
        None
    }
}

/// The object with this key in the one that the brace at `open` opens.
pub open spec fn object_of(s: Seq<char>, open: int, key: Seq<char>) -> Option<int> {
    match key_from(s, open, open, key) {
        Some(at) => object_behind(s, at, key),
        None => None,
    }
}

/// The object of the workspaces in a `bun.lock`.
pub open spec fn workspaces_in(s: Seq<char>) -> Option<int> {
    match anchor_from(s, 0, "workspaces"@) {
        Some(at) => object_behind(s, at, "workspaces"@),
        None => None,
    }
}

/// The first quote from `i` on, in what follows `from`, that begins a string.
pub open spec fn quote_from(s: Seq<char>, from: int, i: int) -> Option<int>
    decreases s.len() - i,
{
    if i >= s.len() {
        None
    } else if outside(scan(s, from, i).mode) && s[i] == '"' {
        Some(i)
    } else {
        quote_from(s, from, i + 1)
    }
}

/// Where, from `i` on, a string ends: at the first quote that is not escaped.
pub open spec fn string_end(s: Seq<char>, i: int) -> Option<int>
    decreases s.len() + 1 - i,
{
    if i < 0 || i >= s.len() {
        None
    } else if s[i] == '"' {
        Some(i)
    } else if s[i] == '\\' {
        string_end(s, i + 2)
    } else {
        string_end(s, i + 1)
    }
}

/// What stands between the quotes of the first string behind `from`.
pub open spec fn string_behind(s: Seq<char>, from: int) -> Result<Option<(int, int)>, ErrorView> {
    match quote_from(s, from, from) {
        None => Err(ErrorOf::Malformed("bun.lock: version value not quoted"@)),
        Some(q) => match string_end(s, q + 1) {
            None => Err(ErrorOf::Malformed("bun.lock: unterminated version string"@)),
            Some(end) => Ok(Some((q + 1, end))),
        },
    }
}

/// Where the version of the workspace member `key` stands in a `bun.lock`:
/// between the quotes behind the `"version":` of the object of `key` in the
/// object of `"workspaces":`. `None` if one of these is not there.
pub open spec fn version_span(s: Seq<char>, key: Seq<char>) -> Result<
    Option<(int, int)>,
    ErrorView,
> {
    match workspaces_in(s) {
        None => Ok(None),
        Some(ws) => if closing(s, ws) is None {
            Err(unbalanced())
        } else {
            match object_of(s, ws, key) {
                None => Ok(None),
                Some(block) => match key_from(s, block, block, "version"@) {
                    None => Ok(None),
                    Some(at) => string_behind(s, (at + quoted_key("version"@).len()) as int),
                },
            }
        },
    }
}

/// A `bun.lock` with another version of the workspace member `key`. It stays
/// as it is if it has no version of that member.
pub open spec fn with_version(s: Seq<char>, key: Seq<char>, new: Seq<char>) -> Result<
    Seq<char>,
    ErrorView,
> {
    match version_span(s, key) {
        Err(e) => Err(e),
        Ok(None) => Ok(s),
        Ok(Some((start, end))) => Ok(s.take(start) + new + s.skip(end)),
    }
}

/// How far a scan has got.
#[derive(Clone, Copy)]
struct Progress {
    depth: usize,
    mode: Mode,
}

impl Progress {
    spec fn seen(self) -> Scan {
        Scan { depth: self.depth as int, mode: self.mode }
    }

    /// The scan is at its beginning.
    fn start() -> (r: Progress)
        ensures
            r.seen() == (Scan { depth: 0, mode: Mode::Plain }),
    {
        Progress { depth: 0, mode: Mode::Plain }
    }

    /// The scan is neither in a string nor in a comment.
    fn is_outside(self) -> (r: bool)
        ensures
            r == outside(self.mode),
    {
        match self.mode {
            Mode::Plain => true,
            Mode::Slash => true,
            _ => false,
        }
    }

    /// The same depth in another mode.
    fn turned(self, mode: Mode) -> (r: Progress)
        ensures
            r.seen() == (Scan { mode, ..self.seen() }),
    {
        Progress { depth: self.depth, mode }
    }

    /// The scan after one more character.
    fn on(self, code: u32, comments: bool) -> (r: Progress)
        requires
            self.depth < usize::MAX,
            self.depth > 0 || !outside(self.mode) || code != '}' as u32,
        ensures
            r.seen() == scanned(self.seen(), code, comments),
    {
        match self.mode {
            Mode::Quoted => if code == '\\' as u32 {
                self.turned(Mode::Escaped)
            } else if code == '"' as u32 {
                self.turned(Mode::Plain)
            } else {
                self
            },
            Mode::Escaped => self.turned(Mode::Quoted),
            Mode::Line => if code == '\n' as u32 {
                self.turned(Mode::Plain)
            } else {
                self
            },
            Mode::Block => if code == '*' as u32 {
                self.turned(Mode::Star)
            } else {
                self
            },
            Mode::Star => if code == '/' as u32 {
                self.turned(Mode::Plain)
            } else if code == '*' as u32 {
                self
            } else {
                self.turned(Mode::Block)
            },
            mode => {
                let slash = mode == Mode::Slash;
                if slash && code == '/' as u32 {
                    self.turned(Mode::Line)
                } else if slash && code == '*' as u32 {
                    self.turned(Mode::Block)
                } else if code == '"' as u32 {
                    self.turned(Mode::Quoted)
                } else if code == '{' as u32 {
                    Progress { depth: self.depth + 1, mode: Mode::Plain }
                } else if code == '}' as u32 {
                    Progress { depth: self.depth - 1, mode: Mode::Plain }
                } else if comments && code == '/' as u32 {
                    self.turned(Mode::Slash)
                } else {
                    self.turned(Mode::Plain)
                }
            },
        }
    }

    /// The scan after one more character, for which the depth does not matter.
    fn flat(self, code: u32) -> (r: Progress)
        ensures
            r.mode == scanned(self.seen(), code, true).mode,
    {
        let level = Progress { depth: 1, mode: self.mode };
        level.on(code, true)
    }
}

/// Scan on from an opening brace to the one that closes it.
fn find_closing(codes: &Vec<u32>, open: usize, comments: bool) -> (r: Option<usize>)
    requires
        open < codes.len(),
        codes@[open as int] == '{' as u32,
    ensures
        match r {
            Some(i) => closing_from(codes@, open as int, open as int, comments) == Some(i as int),
            None => closing_from(codes@, open as int, open as int, comments) is None,
        },
{
    let mut scan = Progress::start();
    let mut i: usize = open;
    while i < codes.len()
        invariant
            open <= i <= codes.len(),
            open < codes.len(),
            codes@[open as int] == '{' as u32,
            scan.seen() == scan_to(codes@, open as int, i as int, comments),
            scan.depth <= i - open,
            i > open ==> scan.depth > 0,
            i == open ==> scan.mode is Plain,
            closing_from(codes@, open as int, open as int, comments) == closing_from(
                codes@,
                open as int,
                i as int,
                comments,
            ),
        decreases codes.len() - i,
    {
        let code = codes[i];
        if i > open && scan.is_outside() && scan.depth == 1 && code == '}' as u32 {
            return Some(i);
        }
        scan = scan.on(code, comments);
        i = i + 1;
    }
    None
}

/// The byte index of the brace that closes the one with byte index `open`.
pub open spec fn closing_byte(s: Seq<char>, open: int) -> Result<int, ErrorView> {
    let bytes = vstd::utf8::encode_utf8(s);
    if !(0 <= open < bytes.len() && bytes[open] == '{' as u8) {
        Err(ErrorOf::Absent("internal: match_brace called on non-`{` byte"@))
    } else {
        match closing_from(widened(bytes), open, open, false) {
            Some(i) => Ok(i),
            None => Err(unbalanced()),
        }
    }
}

/// Given the byte index of an opening brace, the index of the brace that
/// closes it. Braces inside strings do not count.
pub fn match_brace(content: &str, open: usize) -> (r: Result<usize, Error>)
    ensures
        match r {
            Ok(i) => closing_byte(content@, open as int) == Ok::<int, ErrorView>(i as int),
            Err(e) => closing_byte(content@, open as int) == Err::<int, ErrorView>(e.seen()),
        },
{
    let bytes = content.as_bytes();
    if open >= bytes.len() || bytes[open] != '{' as u8 {
        return Err(ErrorOf::Absent(own("internal: match_brace called on non-`{` byte")));
    }
    let mut wide: Vec<u32> = Vec::new();
    let mut i: usize = 0;
    while i < bytes.len()
        invariant
            i <= bytes@.len(),
            wide.len() == i,
            forall|k: int| 0 <= k < i ==> #[trigger] wide@[k] == bytes@[k] as u32,
        decreases bytes.len() - i,
    {
        wide.push(bytes[i] as u32);
        i = i + 1;
    }
    assert(wide@ =~= widened(vstd::utf8::encode_utf8(content@)));
    match find_closing(&wide, open, false) {
        Some(i) => Ok(i),
        None => Err(ErrorOf::Malformed(own("bun.lock: unbalanced braces"))),
    }
}

fn codes_of(s: &Vec<char>) -> (r: Vec<u32>)
    ensures
        r@ == codes(s@),
{
    let mut r: Vec<u32> = Vec::new();
    let mut i: usize = 0;
    while i < s.len()
        invariant
            i <= s.len(),
            r.len() == i,
            forall|k: int| 0 <= k < i ==> #[trigger] r@[k] == s@[k] as u32,
        decreases s.len() - i,
    {
        r.push(s[i] as u32);
        i = i + 1;
    }
    assert(r@ =~= codes(s@));
    r
}

/// Where `key` stands as a key of the object that the brace at `open` opens.
fn find_key(s: &Vec<char>, codes: &Vec<u32>, open: usize, key: &str) -> (r: Option<usize>)
    requires
        codes@ == self::codes(s@),
        opens(s@, open as int),
    ensures
        match r {
            Some(i) => key_from(s@, open as int, open as int, key@) == Some(i as int) && i
                + quoted_key(key@).len() <= s.len(),
            None => key_from(s@, open as int, open as int, key@) is None,
        },
{
    let written = chars_of(&plus3("\"", key, "\":"));
    let mut scan = Progress::start();
    let mut i: usize = open;
    while i < s.len()
        invariant
            open <= i <= s.len(),
            opens(s@, open as int),
            codes@ == self::codes(s@),
            written@ == quoted_key(key@),
            scan.seen() == scan_to(codes@, open as int, i as int, true),
            scan.depth <= i - open,
            i > open ==> scan.depth > 0,
            i == open ==> scan.mode is Plain,
            key_from(s@, open as int, open as int, key@) == key_from(
                s@,
                open as int,
                i as int,
                key@,
            ),
        decreases s.len() - i,
    {
        let code = codes[i];
        if i > open && scan.is_outside() && scan.depth == 1 {
            if code == '}' as u32 {
                return None;
            }
            if stands_at(s, &written, i) {
                return Some(i);
            }
        }
        scan = scan.on(code, true);
        i = i + 1;
    }
    None
}

/// Depths do not matter to what a scan is in.
proof fn lemma_mode(a: Scan, b: Scan, code: u32)
    requires
        a.mode == b.mode,
    ensures
        scanned(a, code, true).mode == scanned(b, code, true).mode,
{
}

/// Where `key` first stands outside of strings and comments.
fn find_anchor(s: &Vec<char>, codes: &Vec<u32>, key: &str) -> (r: Option<usize>)
    requires
        codes@ == self::codes(s@),
    ensures
        match r {
            Some(i) => anchor_from(s@, 0, key@) == Some(i as int) && i + quoted_key(key@).len()
                <= s.len(),
            None => anchor_from(s@, 0, key@) is None,
        },
{
    let written = chars_of(&plus3("\"", key, "\":"));
    let mut state = Progress::start();
    let mut i: usize = 0;
    while i < s.len()
        invariant
            i <= s.len(),
            codes@ == self::codes(s@),
            written@ == quoted_key(key@),
            state.mode == scan(s@, 0, i as int).mode,
            anchor_from(s@, 0, key@) == anchor_from(s@, i as int, key@),
        decreases s.len() - i,
    {
        if state.is_outside() && stands_at(s, &written, i) {
            return Some(i);
        }
        let code = codes[i];
        proof {
            lemma_mode(state.seen(), scan(s@, 0, i as int), code);
        }
        state = state.flat(code);
        i = i + 1;
    }
    None
}

/// The first position from `from` on that is neither white space nor in a
/// comment.
fn find_value(s: &Vec<char>, codes: &Vec<u32>, from: usize) -> (r: usize)
    requires
        codes@ == self::codes(s@),
        from <= s.len(),
    ensures
        r == value_from(s@, from as int, from as int),
        r <= s.len(),
{
    let mut state = Progress::start();
    let mut i: usize = from;
    while i < s.len()
        invariant
            from <= i <= s.len(),
            codes@ == self::codes(s@),
            state.mode == scan(s@, from as int, i as int).mode,
            value_from(s@, from as int, from as int) == value_from(
                s@,
                from as int,
                i as int,
            ),
        decreases s.len() - i,
    {
        let comment = i + 1 < s.len() && s[i] == '/' && (s[i + 1] == '/' || s[i + 1] == '*');
        if state.mode == Mode::Plain && !is_space_char(s[i]) && !comment {
            return i;
        }
        let code = codes[i];
        proof {
            lemma_mode(state.seen(), scan(s@, from as int, i as int), code);
        }
        state = state.flat(code);
        i = i + 1;
    }
    i
}

/// The first quote from `from` on that begins a string.
fn find_quote(s: &Vec<char>, codes: &Vec<u32>, from: usize) -> (r: Option<usize>)
    requires
        codes@ == self::codes(s@),
        from <= s.len(),
    ensures
        match r {
            Some(i) => quote_from(s@, from as int, from as int) == Some(i as int) && i < s.len(),
            None => quote_from(s@, from as int, from as int) is None,
        },
{
    let mut state = Progress::start();
    let mut i: usize = from;
    while i < s.len()
        invariant
            from <= i <= s.len(),
            codes@ == self::codes(s@),
            state.mode == scan(s@, from as int, i as int).mode,
            quote_from(s@, from as int, from as int) == quote_from(
                s@,
                from as int,
                i as int,
            ),
        decreases s.len() - i,
    {
        if state.is_outside() && s[i] == '"' {
            return Some(i);
        }
        let code = codes[i];
        proof {
            lemma_mode(state.seen(), scan(s@, from as int, i as int), code);
        }
        state = state.flat(code);
        i = i + 1;
    }
    None
}

/// The object that is the value behind the key at `at`.
fn find_object(s: &Vec<char>, codes: &Vec<u32>, at: usize, key: &str) -> (r: Option<usize>)
    requires
        codes@ == self::codes(s@),
        at + quoted_key(key@).len() <= s.len(),
    ensures
        match r {
            Some(i) => object_behind(s@, at as int, key@) == Some(i as int) && opens(
                s@,
                i as int,
            ),
            None => object_behind(s@, at as int, key@) is None,
        },
{
    let width = chars_of(&plus3("\"", key, "\":")).len();
    let i = find_value(s, codes, at + width);
    if i < s.len() && s[i] == '{' {
        Some(i)
    } else {
        None
    }
}

/// Where the string ends that goes on at `from`.
fn find_string_end(s: &Vec<char>, from: usize) -> (r: Option<usize>)
    requires
        from <= s.len(),
    ensures
        match r {
            Some(i) => string_end(s@, from as int) == Some(i as int) && from <= i < s.len(),
            None => string_end(s@, from as int) is None,
        },
{
    let mut i: usize = from;
    while i < s.len()
        invariant
            from <= i <= s.len(),
            string_end(s@, from as int) == string_end(s@, i as int),
        decreases s.len() - i,
    {
        if s[i] == '"' {
            return Some(i);
        }
        if s[i] == '\\' {
            if i + 1 == s.len() {
                assert(string_end(s@, i + 2) is None);
                return None;
            }
            i = i + 1;
        }
        i = i + 1;
    }
    None
}

/// Where the version of a workspace member stands.
fn find_version(s: &Vec<char>, key: &str) -> (r: Result<Option<(usize, usize)>, Error>)
    ensures
        match r {
            Ok(Some((start, end))) => version_span(s@, key@) == Ok::<
                Option<(int, int)>,
                ErrorView,
            >(Some((start as int, end as int))) && start <= end <= s.len(),
            Ok(None) => version_span(s@, key@) == Ok::<Option<(int, int)>, ErrorView>(None),
            Err(e) => version_span(s@, key@) == Err::<Option<(int, int)>, ErrorView>(e.seen()),
        },
{
    let all = codes_of(s);
    let anchor = match find_anchor(s, &all, "workspaces") {
        Some(at) => at,
        None => {
            return Ok(None);
        },
    };
    let ws = match find_object(s, &all, anchor, "workspaces") {
        Some(ws) => ws,
        None => {
            return Ok(None);
        },
    };
    if find_closing(&all, ws, true).is_none() {
        return Err(ErrorOf::Malformed(own("bun.lock: unbalanced braces")));
    }
    let key_at = match find_key(s, &all, ws, key) {
        Some(at) => at,
        None => {
            return Ok(None);
        },
    };
    let block = match find_object(s, &all, key_at, key) {
        Some(block) => block,
        None => {
            return Ok(None);
        },
    };
    let at = match find_key(s, &all, block, "version") {
        Some(at) => at,
        None => {
            return Ok(None);
        },
    };
    let width = chars_of(&plus3("\"", "version", "\":")).len();
    let q = match find_quote(s, &all, at + width) {
        Some(q) => q,
        None => {
            return Err(ErrorOf::Malformed(own("bun.lock: version value not quoted")));
        },
    };
    match find_string_end(s, q + 1) {
        Some(end) => Ok(Some((q + 1, end))),
        None => Err(ErrorOf::Malformed(own("bun.lock: unterminated version string"))),
    }
}

/// Put another version of the workspace member `key` into the text of a
/// `bun.lock`.
pub fn replace_workspace_version_in_lockfile(
    content: &str,
    workspace_key: &str,
    new_version: &str,
) -> (r: Result<String, Error>)
    ensures
        match r {
            Ok(t) => with_version(content@, workspace_key@, new_version@) == Ok::<
                Seq<char>,
                ErrorView,
            >(t@),
            Err(e) => with_version(content@, workspace_key@, new_version@) == Err::<
                Seq<char>,
                ErrorView,
            >(e.seen()),
        },
{
    let s = chars_of(content);
    match find_version(&s, workspace_key) {
        Err(e) => Err(e),
        Ok(None) => Ok(own(content)),
        Ok(Some((start, end))) => {
            let head = text_of(&s, 0, start);
            let tail = text_of(&s, end, s.len());
            assert(head@ =~= s@.take(start as int));
            assert(tail@ =~= s@.skip(end as int));
            Ok(plus3(&head, new_version, &tail))
        },
    }
}

// ---------------------------------------------------------------------------
// What is written is what is read
// ---------------------------------------------------------------------------

/// The version of the workspace member `key` in a `bun.lock`.
pub open spec fn version_of(s: Seq<char>, key: Seq<char>) -> Result<Option<Seq<char>>, ErrorView> {
    match version_span(s, key) {
        Err(e) => Err(e),
        Ok(None) => Ok(None),
        Ok(Some((start, end))) => Ok(Some(s.subrange(start, end))),
    }
}

/// `v` can stand between two quotes: each quote in it is escaped, and its last
/// character escapes none.
pub open spec fn is_text(v: Seq<char>) -> bool
    decreases v.len(),
{
    if v.len() == 0 {
        true
    } else if v[0] == '"' {
        false
    } else if v[0] == '\\' {
        v.len() >= 2 && is_text(v.skip(2))
    } else {
        is_text(v.skip(1))
    }
}

/// A text without quotes and backslashes, such as a version or a path, can
/// stand between two quotes.
pub proof fn law_plain_is_text(v: Seq<char>)
    requires
        !v.contains('"'),
        !v.contains('\\'),
    ensures
        is_text(v),
    decreases v.len(),
{
    if v.len() > 0 {
        let w = v.skip(1);
        assert(v.contains(v[0]));
        assert forall|c: char| w.contains(c) implies v.contains(c) by {
            let i = choose|i: int| 0 <= i < w.len() && w[i] == c;
            assert(v[i + 1] == c);
        }
        law_plain_is_text(w);
    }
}

proof fn lemma_names_are_texts()
    ensures
        is_text("workspaces"@),
        is_text("version"@),
{
    reveal_strlit("workspaces");
    reveal_strlit("version");
    law_plain_is_text("workspaces"@);
    law_plain_is_text("version"@);
}

/// Different characters have different codes.
proof fn lemma_code(a: char, b: char)
    ensures
        a as u32 == b as u32 ==> a == b,
{
}

/// Two texts that begin alike are scanned alike.
proof fn lemma_scan_same(s: Seq<char>, t: Seq<char>, open: int, i: int)
    requires
        0 <= open,
        i <= s.len(),
        i <= t.len(),
        forall|k: int| 0 <= k < i ==> s[k] == t[k],
    ensures
        scan(s, open, i) == scan(t, open, i),
    decreases i - open,
{
    if i > open {
        lemma_scan_same(s, t, open, i - 1);
        assert(codes(s)[i - 1] == codes(t)[i - 1]);
    }
}

/// Two scans that are alike stay so where the texts go on alike.
proof fn lemma_scan_on(s: Seq<char>, t: Seq<char>, open: int, i: int, j: int, more: int)
    requires
        0 <= open <= i,
        open <= j,
        0 <= more,
        i + more <= s.len(),
        j + more <= t.len(),
        scan(s, open, i) == scan(t, open, j),
        forall|k: int| 0 <= k < more ==> #[trigger] s[i + k] == t[j + k],
    ensures
        scan(s, open, i + more) == scan(t, open, j + more),
    decreases more,
{
    if more > 0 {
        lemma_scan_on(s, t, open, i, j, more - 1);
        assert(s[i + (more - 1)] == t[j + (more - 1)]);
        assert(codes(s)[i + more - 1] == codes(t)[j + more - 1]);
    }
}

/// A scan goes on, outside of strings and comments, as one that begins there.
proof fn lemma_scan_within(s: Seq<char>, outer: int, inner: int, i: int)
    requires
        0 <= outer <= inner <= i <= s.len(),
        scan(s, outer, inner).mode is Plain,
    ensures
        scan(s, outer, i).depth == scan(s, outer, inner).depth + scan(s, inner, i).depth,
        scan(s, outer, i).mode == scan(s, inner, i).mode,
    decreases i - inner,
{
    if i > inner {
        lemma_scan_within(s, outer, inner, i - 1);
    }
}

/// As long as a brace is not closed, it is open.
proof fn lemma_still_open(s: Seq<char>, open: int, i: int)
    requires
        0 <= open < i <= s.len(),
        s[open] == '{',
        forall|j: int| open <= j < i ==> !#[trigger] closes(codes(s), open, j, true),
    ensures
        scan(s, open, i).depth >= 1,
    decreases i - open,
{
    if i > open + 1 {
        lemma_still_open(s, open, i - 1);
        assert(!closes(codes(s), open, i - 1, true));
    } else {
        assert(scan(s, open, open) == (Scan { depth: 0, mode: Mode::Plain }));
    }
}

proof fn lemma_closing_from(codes: Seq<u32>, open: int, i: int)
    requires
        0 <= i,
    ensures
        match closing_from(codes, open, i, true) {
            Some(c) => i <= c && closes(codes, open, c, true) && forall|j: int|
                i <= j < c ==> !#[trigger] closes(codes, open, j, true),
            None => forall|j: int| i <= j ==> !#[trigger] closes(codes, open, j, true),
        },
    decreases codes.len() - i,
{
    if i < codes.len() && !closes(codes, open, i, true) {
        lemma_closing_from(codes, open, i + 1);
    }
}

proof fn lemma_anchor_from(s: Seq<char>, i: int, key: Seq<char>)
    requires
        0 <= i,
    ensures
        anchor_from(s, i, key) matches Some(at) ==> {
            &&& i <= at
            &&& outside(scan(s, 0, at).mode)
            &&& text::occurs_at(s, quoted_key(key), at)
        },
    decreases s.len() - i,
{
    if i < s.len() && !(outside(scan(s, 0, i).mode) && text::occurs_at(s, quoted_key(key), i)) {
        lemma_anchor_from(s, i + 1, key);
    }
}

/// An anchor that is found in a part that two texts share is found in both.
proof fn lemma_anchor_alike(s: Seq<char>, t: Seq<char>, i: int, key: Seq<char>, part: int)
    requires
        0 <= i,
        anchor_from(s, i, key) matches Some(at) && at + quoted_key(key).len() <= part,
        part <= s.len(),
        part <= t.len(),
        forall|k: int| 0 <= k < part ==> s[k] == t[k],
    ensures
        anchor_from(t, i, key) == anchor_from(s, i, key),
    decreases s.len() - i,
{
    let width = quoted_key(key).len();
    assert(width > 0) by {
        reveal_strlit("\"");
    }
    lemma_anchor_from(s, i, key);
    let at = anchor_from(s, i, key)->0;
    lemma_scan_same(s, t, 0, i);
    assert(s.subrange(i, i + width) =~= t.subrange(i, i + width));
    if i < at {
        lemma_anchor_alike(s, t, i + 1, key, part);
    }
}

proof fn lemma_key_from(s: Seq<char>, open: int, i: int, key: Seq<char>)
    requires
        0 <= i,
    ensures
        key_from(s, open, i, key) matches Some(at) ==> {
            &&& i <= at
            &&& at_level(codes(s), open, at, true)
            &&& text::occurs_at(s, quoted_key(key), at)
            &&& forall|j: int| i <= j <= at ==> !#[trigger] closes(codes(s), open, j, true)
        },
    decreases s.len() - i,
{
    if !(i >= s.len() || closes(codes(s), open, i, true)) && !(at_level(codes(s), open, i, true)
        && text::occurs_at(s, quoted_key(key), i)) {
        lemma_key_from(s, open, i + 1, key);
    }
}

/// A key that is found in a part that two texts share is found in both.
proof fn lemma_key_alike(
    s: Seq<char>,
    t: Seq<char>,
    open: int,
    i: int,
    key: Seq<char>,
    part: int,
)
    requires
        0 <= open,
        0 <= i,
        key_from(s, open, i, key) matches Some(at) && at + quoted_key(key).len() <= part,
        part <= s.len(),
        part <= t.len(),
        forall|k: int| 0 <= k < part ==> s[k] == t[k],
    ensures
        key_from(t, open, i, key) == key_from(s, open, i, key),
    decreases s.len() - i,
{
    let width = quoted_key(key).len();
    assert(width > 0) by {
        reveal_strlit("\"");
    }
    lemma_key_from(s, open, i, key);
    let at = key_from(s, open, i, key)->0;
    lemma_scan_same(s, t, open, i);
    assert(codes(s)[i] == codes(t)[i]);
    assert(s.subrange(i, i + width) =~= t.subrange(i, i + width));
    if i < at {
        lemma_key_alike(s, t, open, i + 1, key, part);
    }
}

/// What may stand between a key and its value: white space and comments.
spec fn in_gap(s: Seq<char>, from: int, i: int) -> bool {
    let here = scan(s, from, i);
    &&& here.depth == 0
    &&& match here.mode {
        Mode::Quoted => false,
        Mode::Escaped => false,
        Mode::Slash => i < s.len() && (s[i] == '/' || s[i] == '*'),
        _ => true,
    }
}

/// On the way to a value no brace is closed, and the scan is where it was.
proof fn lemma_gap(s: Seq<char>, open: int, from: int, i: int)
    requires
        0 <= open <= from <= i <= s.len(),
        scan(s, open, from).mode is Plain,
        in_gap(s, from, i),
    ensures
        i <= value_from(s, from, i) <= s.len(),
        forall|j: int|
            i <= j < value_from(s, from, i) ==> !#[trigger] closes(codes(s), open, j, true),
        value_from(s, from, i) < s.len() ==> scan(s, open, value_from(s, from, i)) == scan(
            s,
            open,
            from,
        ),
    decreases s.len() - i,
{
    lemma_scan_within(s, open, from, i);
    if i < s.len() {
        if scan(s, from, i).mode is Plain && !text::is_space(s[i]) && !comment_at(s, i) {
        } else {
            lemma_code(s[i], '"');
            lemma_code(s[i], '{');
            lemma_code(s[i], '}');
            lemma_code(s[i], '/');
            lemma_code(s[i], '*');
            assert(scan(s, from, i + 1) == scanned(scan(s, from, i), codes(s)[i], true));
            assert(in_gap(s, from, i + 1));
            lemma_gap(s, open, from, i + 1);
        }
    }
}

proof fn lemma_value_alike(s: Seq<char>, t: Seq<char>, from: int, i: int, part: int)
    requires
        0 <= from <= i <= value_from(s, from, i),
        value_from(s, from, i) + 1 < part,
        part <= s.len(),
        part <= t.len(),
        forall|k: int| 0 <= k < part ==> s[k] == t[k],
    ensures
        value_from(t, from, i) == value_from(s, from, i),
    decreases s.len() - i,
{
    lemma_scan_same(s, t, from, i);
    assert(s[i] == t[i] && s[i + 1] == t[i + 1]);
    if !(scan(s, from, i).mode is Plain && !text::is_space(s[i]) && !comment_at(s, i)) {
        assert(value_from(s, from, i) == value_from(s, from, i + 1));
        lemma_value_bound(s, from, i + 1);
        lemma_value_alike(s, t, from, i + 1, part);
    }
}

proof fn lemma_value_bound(s: Seq<char>, from: int, i: int)
    ensures
        i <= value_from(s, from, i),
    decreases s.len() - i,
{
    if i < s.len() {
        lemma_value_bound(s, from, i + 1);
    }
}

proof fn lemma_quote_from(s: Seq<char>, from: int, i: int)
    requires
        0 <= i,
    ensures
        quote_from(s, from, i) matches Some(q) ==> i <= q < s.len() && s[q] == '"' && outside(
            scan(s, from, q).mode,
        ),
    decreases s.len() - i,
{
    if i < s.len() && !(outside(scan(s, from, i).mode) && s[i] == '"') {
        lemma_quote_from(s, from, i + 1);
    }
}

proof fn lemma_quote_alike(s: Seq<char>, t: Seq<char>, from: int, i: int, part: int)
    requires
        0 <= from <= i,
        quote_from(s, from, i) matches Some(q) && q < part,
        part <= s.len(),
        part <= t.len(),
        forall|k: int| 0 <= k < part ==> s[k] == t[k],
    ensures
        quote_from(t, from, i) == quote_from(s, from, i),
    decreases s.len() - i,
{
    lemma_quote_from(s, from, i);
    lemma_scan_same(s, t, from, i);
    if quote_from(s, from, i) != Some(i) {
        lemma_quote_alike(s, t, from, i + 1, part);
    }
}

/// A scan that goes over a text inside a string stays inside of it.
proof fn lemma_in_string(s: Seq<char>, open: int, i: int, v: Seq<char>)
    requires
        0 <= open <= i,
        i + v.len() <= s.len(),
        s.subrange(i, i + v.len()) == v,
        is_text(v),
        scan(s, open, i).mode is Quoted,
    ensures
        scan(s, open, i + v.len()) == scan(s, open, i),
        forall|j: int|
            i <= j <= i + v.len() ==> !outside((#[trigger] scan(s, open, j)).mode),
    decreases v.len(),
{
    if v.len() > 0 {
        assert(v[0] == s[i]);
        lemma_code(s[i], '"');
        lemma_code(s[i], '\\');
        let step: int = if v[0] == '\\' {
            2
        } else {
            1
        };
        assert(scan(s, open, i + 1) == scanned(scan(s, open, i), codes(s)[i], true));
        if step == 2 {
            assert(v[1] == s[i + 1]);
            assert(scan(s, open, i + 1).mode is Escaped);
            assert(scan(s, open, i + 2) == scanned(scan(s, open, i + 1), codes(s)[i + 1], true));
        }
        assert(scan(s, open, i + step) == scan(s, open, i));
        assert(s.subrange(i + step, i + v.len()) =~= v.skip(step));
        lemma_in_string(s, open, i + step, v.skip(step));
        assert forall|j: int| i <= j <= i + v.len() implies !outside(
            (#[trigger] scan(s, open, j)).mode,
        ) by {
            if j >= i + step {
                assert(j <= i + step + v.skip(step).len());
            }
        }
    }
}

/// A scan that goes over a string is where it was, and on its way no brace is
/// closed.
proof fn lemma_over_string(s: Seq<char>, open: int, q: int, v: Seq<char>)
    requires
        0 <= open <= q,
        q + v.len() + 2 <= s.len(),
        s[q] == '"',
        s.subrange(q + 1, q + 1 + v.len()) == v,
        s[q + 1 + v.len()] == '"',
        is_text(v),
        outside(scan(s, open, q).mode),
    ensures
        scan(s, open, q + v.len() + 2) == (Scan { mode: Mode::Plain, ..scan(s, open, q) }),
        scan(s, open, q + 1) == scan(s, open, q + 1 + v.len()),
        forall|j: int| q <= j < q + v.len() + 2 ==> !#[trigger] closes(codes(s), open, j, true),
{
    let n = v.len() as int;
    assert(scan(s, open, q + 1) == scanned(scan(s, open, q), codes(s)[q], true));
    assert(scan(s, open, q + 1).mode is Quoted);
    lemma_in_string(s, open, q + 1, v);
    assert(scan(s, open, q + n + 2) == scanned(
        scan(s, open, q + 1 + n),
        codes(s)[q + 1 + n],
        true,
    ));
    assert forall|j: int| q <= j < q + v.len() + 2 implies !#[trigger] closes(
        codes(s),
        open,
        j,
        true,
    ) by {
        if j > q {
            assert(!outside(scan(s, open, j).mode));
        }
    }
}

/// A scan that goes over a key is where it was, and on its way no brace is
/// closed.
proof fn lemma_over_key(s: Seq<char>, open: int, at: int, key: Seq<char>)
    requires
        0 <= open <= at,
        text::occurs_at(s, quoted_key(key), at),
        is_text(key),
        outside(scan(s, open, at).mode),
    ensures
        ({
            let from = at + quoted_key(key).len();
            &&& at < from <= s.len()
            &&& scan(s, open, from) == (Scan { mode: Mode::Plain, ..scan(s, open, at) })
            &&& forall|j: int| at <= j < from ==> !#[trigger] closes(codes(s), open, j, true)
        }),
{
    reveal_strlit("\"");
    reveal_strlit("\":");
    let written = quoted_key(key);
    let n = key.len();
    let from = at + written.len();
    assert(written.len() == n + 3);
    assert forall|k: int| 0 <= k < n + 3 implies #[trigger] s[at + k] == written[k] by {
        assert(s.subrange(at, from)[k] == written[k]);
    }
    assert(s[at + 0] == '"');
    assert(s[at + (n + 1)] == '"');
    assert(s[at + (n + 2)] == ':');
    assert(s.subrange(at + 1, at + 1 + n) =~= key) by {
        assert forall|k: int| 0 <= k < n implies s[at + 1 + k] == key[k] by {
            assert(s[at + (k + 1)] == written[k + 1]);
        }
    }
    lemma_over_string(s, open, at, key);
    assert(scan(s, open, from) == scanned(scan(s, open, from - 1), codes(s)[from - 1], true));
    assert(!closes(codes(s), open, from - 1, true));
}

/// A scan that goes over a key and what stands before its value.
proof fn lemma_to_value(s: Seq<char>, open: int, at: int, key: Seq<char>)
    requires
        0 <= open <= at,
        text::occurs_at(s, quoted_key(key), at),
        is_text(key),
        outside(scan(s, open, at).mode),
    ensures
        ({
            let from = (at + quoted_key(key).len()) as int;
            let i = value_from(s, from, from);
            &&& from <= i <= s.len()
            &&& i < s.len() ==> scan(s, open, i) == (Scan {
                mode: Mode::Plain,
                ..scan(s, open, at)
            })
            &&& forall|j: int| at <= j < i ==> !#[trigger] closes(codes(s), open, j, true)
        }),
{
    let from = (at + quoted_key(key).len()) as int;
    lemma_over_key(s, open, at, key);
    assert(scan(s, from, from) == (Scan { depth: 0, mode: Mode::Plain }));
    assert(in_gap(s, from, from));
    lemma_gap(s, open, from, from);
}

proof fn lemma_string_end(s: Seq<char>, i: int)
    requires
        0 <= i,
    ensures
        string_end(s, i) matches Some(e) ==> {
            &&& i <= e < s.len()
            &&& s[e] == '"'
            &&& is_text(s.subrange(i, e))
        },
    decreases s.len() + 1 - i,
{
    if i < s.len() && s[i] != '"' {
        let step: int = if s[i] == '\\' {
            2
        } else {
            1
        };
        lemma_string_end(s, i + step);
        if let Some(e) = string_end(s, i) {
            assert(s.subrange(i, e)[0] == s[i]);
            assert(s.subrange(i, e).skip(step) =~= s.subrange(i + step, e));
        }
    }
}

proof fn lemma_string_ends(s: Seq<char>, i: int, v: Seq<char>)
    requires
        0 <= i,
        i + v.len() < s.len(),
        s.subrange(i, i + v.len()) == v,
        s[i + v.len()] == '"',
        is_text(v),
    ensures
        string_end(s, i) == Some(i + v.len()),
    decreases v.len(),
{
    if v.len() > 0 {
        assert(v[0] == s[i]);
        let step: int = if v[0] == '\\' {
            2
        } else {
            1
        };
        assert(s.subrange(i + step, i + v.len()) =~= v.skip(step));
        lemma_string_ends(s, i + step, v.skip(step));
    }
}

/// A text in which what stands from `start` to `end` is replaced.
spec fn replaced(s: Seq<char>, start: int, end: int, new: Seq<char>) -> Seq<char> {
    s.take(start) + new + s.skip(end)
}

/// The version of a workspace member is a string.
pub open spec fn is_string(s: Seq<char>, key: Seq<char>) -> bool {
    version_span(s, key) matches Ok(Some((start, _))) && ({
        let block = object_of(s, workspaces_in(s)->0, key)->0;
        let at = key_from(s, block, block, "version"@)->0;
        let from = at + quoted_key("version"@).len();
        value_from(s, from, from) == start - 1
    })
}

/// Behind `key`, where it stands among the workspaces, there is neither a string
/// nor a comment that goes on. So it is with each key that can stand between
/// quotes, and with one that spans several keys of a document.
pub open spec fn stands_whole(s: Seq<char>, key: Seq<char>) -> bool {
    is_text(key) || (workspaces_in(s) matches Some(ws) && (key_from(s, ws, ws, key) matches Some(
        at,
    ) ==> scan(s, ws, (at + quoted_key(key).len()) as int).mode is Plain))
}

/// Where the parts on the way to a version stand.
proof fn lemma_way(s: Seq<char>, key: Seq<char>)
    requires
        stands_whole(s, key),
        version_span(s, key) matches Ok(Some(_)),
    ensures
        ({
            let (start, end) = version_span(s, key)->Ok_0->0;
            let ws = workspaces_in(s)->0;
            let block = object_of(s, ws, key)->0;
            let w = anchor_from(s, 0, "workspaces"@)->0;
            let k = key_from(s, ws, ws, key)->0;
            let v = key_from(s, block, block, "version"@)->0;
            let c = closing(s, ws)->0;
            &&& 0 <= w
            &&& w + quoted_key("workspaces"@).len() <= ws
            &&& ws < k
            &&& k + quoted_key(key).len() <= block
            &&& block < v
            &&& v + quoted_key("version"@).len() <= start - 1
            &&& start <= end < s.len()
            &&& s[start - 1] == '"'
            &&& s[end] == '"'
            &&& is_text(s.subrange(start, end))
            &&& outside(scan(s, ws, start - 1).mode)
            &&& ws < c
            &&& c < start - 1 || end < c
            &&& is_text(key) && is_string(s, key) ==> end < c
        }),
{
    lemma_names_are_texts();
    let (start, end) = version_span(s, key)->Ok_0->0;
    let ws = workspaces_in(s)->0;
    let block = object_of(s, ws, key)->0;
    let w = anchor_from(s, 0, "workspaces"@)->0;
    let k = key_from(s, ws, ws, key)->0;
    let v = key_from(s, block, block, "version"@)->0;
    let c = closing(s, ws)->0;
    let all = codes(s);
    lemma_anchor_from(s, 0, "workspaces"@);
    lemma_to_value(s, 0, w, "workspaces"@);
    lemma_key_from(s, ws, ws, key);
    let k_from = (k + quoted_key(key).len()) as int;
    if is_text(key) {
        lemma_over_key(s, ws, k, key);
    }
    assert(in_gap(s, k_from, k_from)) by {
        assert(scan(s, k_from, k_from) == (Scan { depth: 0, mode: Mode::Plain }));
    }
    lemma_gap(s, ws, k_from, k_from);
    lemma_key_from(s, block, block, "version"@);
    let from = (v + quoted_key("version"@).len()) as int;
    lemma_scan_within(s, ws, block, v);
    lemma_over_key(s, ws, v, "version"@);
    lemma_quote_from(s, from, from);
    lemma_scan_within(s, ws, from, start - 1);
    lemma_string_end(s, start);
    lemma_closing_from(all, ws, ws);
    lemma_over_string(s, ws, start - 1, s.subrange(start, end));
    assert(closes(all, ws, c, true));
    if is_text(key) && is_string(s, key) {
        lemma_to_value(s, ws, k, key);
        lemma_to_value(s, ws, v, "version"@);
        if block < c < v {
            lemma_scan_within(s, ws, block, c);
            assert forall|j: int| block <= j < c implies !#[trigger] closes(
                all,
                block,
                j,
                true,
            ) by {}
            lemma_still_open(s, block, c);
        }
        assert(!closes(all, ws, block, true));
    }
}

/// The version of a workspace member stands where the one before it stood.
proof fn lemma_span_after(s: Seq<char>, key: Seq<char>, new: Seq<char>)
    requires
        stands_whole(s, key),
        is_text(new),
        version_span(s, key) matches Ok(Some(_)),
    ensures
        ({
            let (start, end) = version_span(s, key)->Ok_0->0;
            &&& 0 <= start <= end <= s.len()
            &&& version_span(replaced(s, start, end, new), key) == Ok::<
                Option<(int, int)>,
                ErrorView,
            >(Some((start, (start + new.len()) as int)))
        }),
{
    lemma_way(s, key);
    lemma_names_are_texts();
    let (start, end) = version_span(s, key)->Ok_0->0;
    let t = replaced(s, start, end, new);
    let behind = start + new.len();
    let ws = workspaces_in(s)->0;
    let block = object_of(s, ws, key)->0;
    let w = anchor_from(s, 0, "workspaces"@)->0;
    let k = key_from(s, ws, ws, key)->0;
    let v = key_from(s, block, block, "version"@)->0;
    let c = closing(s, ws)->0;
    let from = (v + quoted_key("version"@).len()) as int;
    assert forall|i: int| 0 <= i < start implies s[i] == t[i] by {}
    lemma_anchor_alike(s, t, 0, "workspaces"@, start);
    let w_from = (w + quoted_key("workspaces"@).len()) as int;
    lemma_value_alike(s, t, w_from, w_from, start);
    assert(workspaces_in(t) == Some(ws));
    lemma_key_alike(s, t, ws, ws, key, start);
    let k_from = (k + quoted_key(key).len()) as int;
    lemma_value_alike(s, t, k_from, k_from, start);
    assert(object_of(t, ws, key) == Some(block));
    lemma_key_alike(s, t, block, block, "version"@, start);
    lemma_quote_alike(s, t, from, from, start);
    assert(t.subrange(start, behind) =~= new);
    assert(t[behind] == s[end]);
    lemma_string_ends(t, start, new);

    lemma_scan_same(s, t, ws, start);
    lemma_scan_same(s, t, ws, start - 1);
    lemma_over_string(s, ws, start - 1, s.subrange(start, end));
    lemma_over_string(t, ws, start - 1, new);
    lemma_closing_from(codes(s), ws, ws);
    lemma_closing_from(codes(t), ws, ws);
    if c < start - 1 {
        lemma_scan_same(s, t, ws, c);
        assert(codes(s)[c] == codes(t)[c]);
        assert(closes(codes(t), ws, c, true));
    } else {
        assert forall|i: int| 0 <= i < s.len() - end implies #[trigger] s[end + i] == t[behind
            + i] by {}
        lemma_scan_on(s, t, ws, end, behind, c - end);
        assert(s[end + (c - end)] == t[behind + (c - end)]);
        assert(closes(codes(t), ws, behind + (c - end), true));
    }
}

/// The version that is put into a `bun.lock` is the one that is read from it,
/// and the rest of the text stays. Where it is a string, and the key can stand
/// between quotes, it stands among the workspaces.
pub proof fn law_lock_reads_back(s: Seq<char>, key: Seq<char>, new: Seq<char>)
    requires
        stands_whole(s, key),
        is_text(new),
        version_of(s, key) matches Ok(Some(_)),
    ensures
        with_version(s, key, new) matches Ok(t) && version_of(t, key) == Ok::<
            Option<Seq<char>>,
            ErrorView,
        >(Some(new)) && ({
            let (start, end) = version_span(s, key)->Ok_0->0;
            &&& t.take(start) == s.take(start)
            &&& t.skip(start + new.len()) == s.skip(end)
            &&& is_text(key) && is_string(s, key) ==> (workspaces_in(s) matches Some(ws) && ws
                < start && (closing(s, ws) matches Some(close) && end < close))
        }),
{
    lemma_way(s, key);
    lemma_span_after(s, key, new);
    let (start, end) = version_span(s, key)->Ok_0->0;
    let t = replaced(s, start, end, new);
    assert(with_version(s, key, new) == Ok::<Seq<char>, ErrorView>(t));
    assert(t.subrange(start, start + new.len()) =~= new);
    assert(t.take(start) =~= s.take(start));
    assert(t.skip(start + new.len()) =~= s.skip(end));
}

/// Of two versions of a member that are put into a `bun.lock`, the last one
/// stays, as if the first had never been there.
pub proof fn law_last_version_stays(
    s: Seq<char>,
    key: Seq<char>,
    first: Seq<char>,
    last: Seq<char>,
)
    requires
        version_of(s, key) matches Ok(Some(_)) ==> stands_whole(s, key),
        is_text(first),
    ensures
        with_version(s, key, first) matches Ok(t) ==> with_version(t, key, last) == with_version(
            s,
            key,
            last,
        ),
{
    if let Ok(Some((start, end))) = version_span(s, key) {
        lemma_span_after(s, key, first);
        let t = replaced(s, start, end, first);
        assert(t.take(start) + last + t.skip(start + first.len()) =~= s.take(start) + last + s.skip(
            end,
        ));
    }
}

} // verus!
