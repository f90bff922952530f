//! What can go wrong in a release, and how it is told.

use vstd::prelude::*;

use crate::text;
use crate::text::append;
use crate::text::join;
use crate::text::list0;
use crate::text::list1;
use crate::text::own;
use crate::text::plus;
use crate::text::plus3;
use crate::text::why_no_number;

verus! {

/// One of the three numbers of a version.
#[derive(Debug, Clone, Copy, PartialEq, Eq)]
pub enum Part {
    Major,
    Minor,
    Patch,
}

/// An error, with texts of type `S` and lists of texts of type `L`.
#[derive(Debug, PartialEq, Eq)]
pub enum ErrorOf<S, L> {
    /// A version lacks this number.
    MissingPart(Part),
    /// The version has more than three numbers.
    TooManyParts(S),
    /// This part of a version is not a number.
    NotANumber(Part, S),
    /// The number to raise is already the largest one.
    VersionTooLarge(S),
    /// The file could not be read, and why.
    Read(S, S),
    /// The file could not be written, and why.
    Write(S, S),
    /// What the system said, and nothing else.
    Plain(S),
    /// The file could not be parsed, and why.
    Parse(S, S),
    /// The program ran with these arguments and failed.
    Failed(S, L),
    /// The program could not be run with these arguments, and why.
    NotRun(S, L, S),
    /// What was to be done with a text that is not UTF-8, and why it is none.
    NotUtf8(S, S),
    /// The pattern with this path is not UTF-8.
    OddPattern(S),
    /// This directory has no absolute path, and why.
    NotAbsolute(S, S),
    /// No supported package manager was recognised in this directory.
    NoBackend(S),
    /// A key that the configuration file at this path does not know.
    UnknownKey(S, S),
    /// `publish` in the configuration file at this path is not a boolean.
    PublishNotBool(S),
    /// The project is not inside a git repository.
    NotARepository,
    /// The working tree or the index has changes.
    Uncommitted,
    /// The branch is not `main` but this one.
    NotOnMain(S),
    /// Something that a manifest must have is not there.
    Absent(S),
    /// A lockfile is not laid out as it should be.
    Malformed(S),
    /// What depends on itself, and the names of those concerned.
    Cycle(S, L),
    /// What was being done when something else went wrong.
    During(S, Box<ErrorOf<S, L>>),
}

pub type Error = ErrorOf<String, Vec<String>>;

pub type ErrorView = ErrorOf<Seq<char>, Seq<Seq<char>>>;

impl ErrorOf<String, Vec<String>> {
    /// The error with its texts as sequences of characters.
    pub open spec fn seen(self) -> ErrorView
        decreases self,
    {
        match self {
            ErrorOf::MissingPart(p) => ErrorOf::MissingPart(p),
            ErrorOf::TooManyParts(v) => ErrorOf::TooManyParts(v@),
            ErrorOf::NotANumber(p, v) => ErrorOf::NotANumber(p, v@),
            ErrorOf::VersionTooLarge(v) => ErrorOf::VersionTooLarge(v@),
            ErrorOf::Read(p, w) => ErrorOf::Read(p@, w@),
            ErrorOf::Write(p, w) => ErrorOf::Write(p@, w@),
            ErrorOf::Plain(w) => ErrorOf::Plain(w@),
            ErrorOf::Parse(p, w) => ErrorOf::Parse(p@, w@),
            ErrorOf::Failed(p, a) => ErrorOf::Failed(p@, a.deep_view()),
            ErrorOf::NotRun(p, a, w) => ErrorOf::NotRun(p@, a.deep_view(), w@),
            ErrorOf::NotUtf8(d, w) => ErrorOf::NotUtf8(d@, w@),
            ErrorOf::OddPattern(p) => ErrorOf::OddPattern(p@),
            ErrorOf::NotAbsolute(r, w) => ErrorOf::NotAbsolute(r@, w@),
            ErrorOf::NoBackend(r) => ErrorOf::NoBackend(r@),
            ErrorOf::UnknownKey(k, p) => ErrorOf::UnknownKey(k@, p@),
            ErrorOf::PublishNotBool(p) => ErrorOf::PublishNotBool(p@),
            ErrorOf::NotARepository => ErrorOf::NotARepository,
            ErrorOf::Uncommitted => ErrorOf::Uncommitted,
            ErrorOf::NotOnMain(b) => ErrorOf::NotOnMain(b@),
            ErrorOf::Absent(w) => ErrorOf::Absent(w@),
            ErrorOf::Malformed(w) => ErrorOf::Malformed(w@),
            ErrorOf::Cycle(k, n) => ErrorOf::Cycle(k@, n.deep_view()),
            ErrorOf::During(d, e) => ErrorOf::During(d@, Box::new(e.seen())),
        }
    }
}

/// The name of a part of a version, in capitals.
pub open spec fn part_name(p: Part) -> Seq<char> {
    match p {
        Part::Major => "MAJOR"@,
        Part::Minor => "MINOR"@,
        Part::Patch => "PATCH"@,
    }
}

/// A program with its arguments, as one types them.
pub open spec fn command_line(program: Seq<char>, args: Seq<Seq<char>>) -> Seq<char> {
    program + " "@ + text::joined(args, " "@)
}

/// The text that tells the error.
pub open spec fn message_of(e: ErrorView) -> Seq<char> {
    match e {
        ErrorOf::MissingPart(p) => "missing "@ + part_name(p),
        ErrorOf::TooManyParts(v) => "version '"@ + v
            + "' has too many components (expected MAJOR.MINOR.PATCH)"@,
        ErrorOf::NotANumber(p, v) => part_name(p) + " '"@ + v + "' is not a number"@,
        ErrorOf::VersionTooLarge(v) => "version '"@ + v + "' cannot be raised"@,
        ErrorOf::Read(p, _) => "read "@ + p,
        ErrorOf::Write(p, _) => "write "@ + p,
        ErrorOf::Plain(w) => w,
        ErrorOf::Parse(p, _) => "parse "@ + p,
        ErrorOf::Failed(p, a) => command_line(p, a) + " failed"@,
        ErrorOf::NotRun(p, a, _) => "run "@ + command_line(p, a),
        ErrorOf::NotUtf8(d, _) => d,
        ErrorOf::OddPattern(p) => "non-utf8 workspace pattern: "@ + p,
        ErrorOf::NotAbsolute(r, _) => "make "@ + r + " absolute"@,
        ErrorOf::NoBackend(r) => "could not detect a supported package manager in "@ + r,
        ErrorOf::UnknownKey(k, p) => "unknown key `"@ + k + "` in "@ + p
            + " (supported keys: publish)"@,
        ErrorOf::PublishNotBool(p) => "`publish` in "@ + p + " must be a boolean (true or false)"@,
        ErrorOf::NotARepository => "not inside a git repository"@,
        ErrorOf::Uncommitted =>
            "uncommitted changes exist. Please commit or stash them before releasing."@,
        ErrorOf::NotOnMain(b) => "not on main branch (current: "@ + b + ")"@,
        ErrorOf::Absent(w) => w,
        ErrorOf::Malformed(w) => "malformed "@ + w,
        ErrorOf::Cycle(k, n) => "workspace dependency cycle prevents publish; affected "@ + k
            + ": "@ + text::joined(n, ", "@),
        ErrorOf::During(d, _) => d,
    }
}

/// What was behind the error, and what was behind that, down to the last.
pub open spec fn causes_of(e: ErrorView) -> Seq<Seq<char>>
    decreases e,
{
    match e {
        ErrorOf::NotANumber(_, v) => seq![text::number_fault(v)],
        ErrorOf::Read(_, w) => seq![w],
        ErrorOf::Write(_, w) => seq![w],
        ErrorOf::Parse(_, w) => seq![w],
        ErrorOf::NotRun(_, _, w) => seq![w],
        ErrorOf::NotUtf8(_, w) => seq![w],
        ErrorOf::NotAbsolute(_, w) => seq![w],
        ErrorOf::During(_, inner) => seq![message_of(*inner)] + causes_of(*inner),
        _ => Seq::empty(),
    }
}

fn name_of_part(p: Part) -> (r: String)
    ensures
        r@ == part_name(p),
{
    match p {
        Part::Major => "MAJOR".to_owned(),
        Part::Minor => "MINOR".to_owned(),
        Part::Patch => "PATCH".to_owned(),
    }
}

/// A program with its arguments, as one types them.
pub fn typed(program: &str, args: &Vec<String>) -> (r: String)
    ensures
        r@ == command_line(program@, args.deep_view()),
{
    plus3(program, " ", &join(args, " "))
}

impl ErrorOf<String, Vec<String>> {
    /// The text that tells the error.
    pub fn message(&self) -> (r: String)
        ensures
            r@ == message_of(self.seen()),
    {
        match self {
            ErrorOf::MissingPart(p) => plus("missing ", &name_of_part(*p)),
            ErrorOf::TooManyParts(v) => plus3(
                "version '",
                v,
                "' has too many components (expected MAJOR.MINOR.PATCH)",
            ),
            ErrorOf::NotANumber(p, v) => plus(
                &plus3(&name_of_part(*p), " '", v),
                "' is not a number",
            ),
            ErrorOf::VersionTooLarge(v) => plus3("version '", v, "' cannot be raised"),
            ErrorOf::Read(p, _) => plus("read ", p),
            ErrorOf::Write(p, _) => plus("write ", p),
            ErrorOf::Plain(w) => w.clone(),
            ErrorOf::Parse(p, _) => plus("parse ", p),
            ErrorOf::Failed(p, a) => plus(&typed(p, a), " failed"),
            ErrorOf::NotRun(p, a, _) => plus("run ", &typed(p, a)),
            ErrorOf::NotUtf8(d, _) => d.clone(),
            ErrorOf::OddPattern(p) => plus("non-utf8 workspace pattern: ", p),
            ErrorOf::NotAbsolute(r, _) => plus3("make ", r, " absolute"),
            ErrorOf::NoBackend(r) => plus("could not detect a supported package manager in ", r),
            ErrorOf::UnknownKey(k, p) => plus3(
                &plus3("unknown key `", k, "` in "),
                p,
                " (supported keys: publish)",
            ),
            ErrorOf::PublishNotBool(p) => plus3(
                "`publish` in ",
                p,
                " must be a boolean (true or false)",
            ),
            ErrorOf::NotARepository => "not inside a git repository".to_owned(),
            ErrorOf::Uncommitted => own(
                "uncommitted changes exist. Please commit or stash them before releasing.",
            ),
            ErrorOf::NotOnMain(b) => plus3("not on main branch (current: ", b, ")"),
            ErrorOf::Absent(w) => w.clone(),
            ErrorOf::Malformed(w) => plus("malformed ", w),
            ErrorOf::Cycle(k, n) => plus(
                &plus3("workspace dependency cycle prevents publish; affected ", k, ": "),
                &join(n, ", "),
            ),
            ErrorOf::During(d, _) => d.clone(),
        }
    }

    /// What was behind the error, and what was behind that, down to the last.
    pub fn causes(&self) -> (r: Vec<String>)
        ensures
            r.deep_view() == causes_of(self.seen()),
        decreases self,
    {
        match self {
            ErrorOf::NotANumber(_, v) => list1(&why_no_number(v)),
            ErrorOf::Read(_, w) => list1(w),
            ErrorOf::Write(_, w) => list1(w),
            ErrorOf::Parse(_, w) => list1(w),
            ErrorOf::NotRun(_, _, w) => list1(w),
            ErrorOf::NotUtf8(_, w) => list1(w),
            ErrorOf::NotAbsolute(_, w) => list1(w),
            ErrorOf::During(_, inner) => {
                let mut all = list1(&inner.message());
                append(&mut all, inner.causes());
                all
            },
            _ => list0(),
        }
    }
}

} // verus!
