//! The conversation between the release flow and the machine it runs on.
//!
//! The flow itself touches no file and starts no program. It asks its host,
//! one question or order at a time, and goes on from the answer. A
//! [`Session`] holds the answers given so far: a step of the flow either ends
//! with a value or with the first [`Ask`] that has no answer yet. The host
//! carries that out, appends the answer, and runs the step again.

use vstd::prelude::*;

use crate::error;
use crate::error::Error;
use crate::error::ErrorOf;
use crate::error::ErrorView;
use crate::paths;
use crate::text::copies;
use crate::text::list1;
use crate::text::own;

verus! {

/// What the flow asks of its host. Paths are relative to the project's
/// directory (or absolute), and that directory itself is the empty path.
#[derive(Debug, PartialEq, Eq)]
pub enum AskOf<S, L> {
    /// Is there a file at this path?
    IsFile(S),
    /// Is there a directory at this path?
    IsDir(S),
    /// Is there anything at this path?
    Exists(S),
    /// The text of the file at this path.
    Read(S),
    /// The entries of the directory at this path.
    List(S),
    /// The paths that match this pattern.
    Glob(S),
    /// The project's directory and the directories above it, nearest first.
    Ancestors,
    /// The exit status of `git` with these arguments, which change nothing.
    GitCheck(L),
    /// The output of `git` with these arguments, which change nothing.
    GitOutput(L),
    /// Put this text into the file at this path.
    Write(S, S),
    /// Run `git` with these arguments.
    Git(L),
    /// Run, in this directory, this program with these arguments.
    Run(S, S, L),
    /// Run this program with these arguments, without showing its output.
    Probe(S, L),
    /// Print this line.
    Say(S),
    /// Print this line as a warning.
    Warn(S),
}

pub type Ask = AskOf<String, Vec<String>>;

pub type AskView = AskOf<Seq<char>, Seq<Seq<char>>>;

impl AskOf<String, Vec<String>> {
    /// The request with its texts as sequences of characters.
    pub open spec fn seen(self) -> AskView {
        match self {
            AskOf::IsFile(p) => AskOf::IsFile(p@),
            AskOf::IsDir(p) => AskOf::IsDir(p@),
            AskOf::Exists(p) => AskOf::Exists(p@),
            AskOf::Read(p) => AskOf::Read(p@),
            AskOf::List(p) => AskOf::List(p@),
            AskOf::Glob(p) => AskOf::Glob(p@),
            AskOf::Ancestors => AskOf::Ancestors,
            AskOf::GitCheck(a) => AskOf::GitCheck(a.deep_view()),
            AskOf::GitOutput(a) => AskOf::GitOutput(a.deep_view()),
            AskOf::Write(p, t) => AskOf::Write(p@, t@),
            AskOf::Git(a) => AskOf::Git(a.deep_view()),
            AskOf::Run(d, p, a) => AskOf::Run(d@, p@, a.deep_view()),
            AskOf::Probe(p, a) => AskOf::Probe(p@, a.deep_view()),
            AskOf::Say(l) => AskOf::Say(l@),
            AskOf::Warn(l) => AskOf::Warn(l@),
        }
    }
}

impl<S, L> AskOf<S, L> {
    /// The request changes neither files nor repositories and starts no
    /// program but `git`, to look something up.
    pub open spec fn harmless(self) -> bool {
        !(self is Write || self is Git || self is Run || self is Probe)
    }
}

/// What a directory entry is.
#[derive(Debug)]
pub enum Kind {
    Symlink,
    Dir,
    /// A file or anything else.
    Other,
    /// The host could not tell, and why.
    Unknown(String),
}

/// One entry of a listed directory.
#[derive(Debug)]
pub enum Listed {
    /// An entry, with its name, and whether the name is UTF-8 as it stands.
    Entry(String, bool, Kind),
    /// An entry that could not be read, and why.
    Failed(String),
}

/// One match of a pattern.
#[derive(Debug)]
pub enum Found {
    Path(String),
    /// A match that could not be read, and why.
    Failed(String),
}

/// What the host answers.
#[derive(Debug)]
pub enum Answer {
    /// It is so, or it is done, or the program succeeded.
    Yes,
    /// It is not so, or the program ran and failed.
    No,
    Text(String),
    /// There is no such file, in the system's words.
    Missing(String),
    /// It could not be done, and why.
    Failed(String),
    Listing(Vec<Listed>),
    Matches(Vec<Found>),
    /// The pattern is not a valid one, and why.
    BadPattern(String),
    Paths(Vec<String>),
    /// A program's output: whether it succeeded, and what it printed or why
    /// that is not UTF-8.
    Output(bool, Result<String, String>),
}

/// Where the project is, the answers given so far, and how many of them have
/// been used.
#[verifier::ext_equal]
pub struct Cursor {
    pub root: Seq<char>,
    /// What separates the names in the host's paths.
    pub sep: char,
    pub answers: Seq<Answer>,
    pub at: nat,
}

/// How a step of the flow goes on: it asks, or it ends with a value and the
/// answers that are left.
pub enum Next<T> {
    Ask(AskView),
    Done(T, Cursor),
}

impl<T> Next<T> {
    /// This step, then the one that `f` makes of its value.
    pub open spec fn and<U>(self, f: spec_fn(T, Cursor) -> Next<U>) -> Next<U> {
        match self {
            Next::Ask(q) => Next::Ask(q),
            Next::Done(v, c) => f(v, c),
        }
    }

    /// If this step has ended, the one `later`, with these further answers, has
    /// ended in the same way and left the further answers alone.
    pub open spec fn kept(self, later: Next<T>, more: Seq<Answer>) -> bool {
        self matches Next::Done(v, c) ==> later == Next::Done(v, c.with(more))
    }

    /// If this step asks, it asks for nothing but a look.
    pub open spec fn calm(self) -> bool {
        self matches Next::Ask(q) ==> q.harmless()
    }

    /// If this step asks, it asks neither for a file to be written nor for the
    /// repository to be changed.
    pub open spec fn keeps(self) -> bool {
        self matches Next::Ask(q) ==> !(q is Write || q is Git)
    }

    /// If this step asks for a program to be run, it is by this command line.
    pub open spec fn runs_only(self, command: Option<Seq<char>>) -> bool {
        self matches Next::Ask(q) ==> match q {
            AskOf::Run(_, program, args) => command == Some(error::command_line(program, args)),
            AskOf::Probe(_, _) => false,
            _ => true,
        }
    }
}

impl<T> Next<Result<T, ErrorView>> {
    /// This step, then, unless it failed, the one that `f` makes of its value.
    pub open spec fn and_ok<U>(
        self,
        f: spec_fn(T, Cursor) -> Next<Result<U, ErrorView>>,
    ) -> Next<Result<U, ErrorView>> {
        match self {
            Next::Ask(q) => Next::Ask(q),
            Next::Done(Err(e), c) => Next::Done(Err(e), c),
            Next::Done(Ok(v), c) => f(v, c),
        }
    }

    /// This step as a part of something larger, which is told if it fails.
    pub open spec fn during(self, what: Seq<char>) -> Next<Result<T, ErrorView>> {
        match self {
            Next::Done(Err(e), c) => Next::Done(Err(ErrorOf::During(what, Box::new(e))), c),
            _ => self,
        }
    }
}

/// Values that the flow hands around, as mathematical values.
pub trait Model {
    type M;

    spec fn model(&self) -> Self::M;
}

impl Model for () {
    type M = ();

    open spec fn model(&self) -> () {
        ()
    }
}

impl Model for bool {
    type M = bool;

    open spec fn model(&self) -> bool {
        *self
    }
}

impl Model for String {
    type M = Seq<char>;

    open spec fn model(&self) -> Seq<char> {
        self@
    }
}

impl Model for Vec<String> {
    type M = Seq<Seq<char>>;

    open spec fn model(&self) -> Seq<Seq<char>> {
        self.deep_view()
    }
}

impl<A: Model, B: Model> Model for (A, B) {
    type M = (A::M, B::M);

    open spec fn model(&self) -> (A::M, B::M) {
        (self.0.model(), self.1.model())
    }
}

impl Model for &Vec<Listed> {
    type M = Seq<Listed>;

    open spec fn model(&self) -> Seq<Listed> {
        (**self)@
    }
}

impl Model for &Answer {
    type M = Answer;

    open spec fn model(&self) -> Answer {
        **self
    }
}

impl<T: Model> Model for Option<T> {
    type M = Option<T::M>;

    open spec fn model(&self) -> Option<T::M> {
        match self {
            Some(v) => Some(v.model()),
            None => None,
        }
    }
}

impl Model for Result<String, String> {
    type M = Result<Seq<char>, Seq<char>>;

    open spec fn model(&self) -> Result<Seq<char>, Seq<char>> {
        match self {
            Ok(t) => Ok(t@),
            Err(why) => Err(why@),
        }
    }
}

impl<T: Model> Model for Result<T, Error> {
    type M = Result<T::M, ErrorView>;

    open spec fn model(&self) -> Result<T::M, ErrorView> {
        match self {
            Ok(v) => Ok(v.model()),
            Err(e) => Err(e.seen()),
        }
    }
}

/// The outcome of a step: its value, or the request that it waits for.
pub type Step<T> = Result<T, Ask>;

/// A step's outcome, as a mathematical value.
pub open spec fn step<T: Model>(r: Step<T>, c: Cursor) -> Next<T::M> {
    match r {
        Ok(v) => Next::Done(v.model(), c),
        Err(q) => Next::Ask(q.seen()),
    }
}

/// The outcome of a step that is a part of something larger, which is told if
/// it fails.
pub fn during<T: Model>(r: Step<Result<T, Error>>, what: &str) -> (told: Step<Result<T, Error>>)
    ensures
        forall|c: Cursor| #[trigger] step(told, c) == step(r, c).during(what@),
        told matches Err(q) ==> r == Err::<Result<T, Error>, Ask>(q),
{
    match r {
        Ok(Err(e)) => Ok(Err(ErrorOf::During(own(what), Box::new(e)))),
        r => r,
    }
}

/// The host's answers, read from the front.
pub struct Session<'a> {
    root: &'a str,
    sep: char,
    answers: &'a Vec<Answer>,
    at: usize,
}

impl<'a> View for Session<'a> {
    type V = Cursor;

    closed spec fn view(&self) -> Cursor {
        Cursor { root: self.root@, sep: self.sep, answers: self.answers@, at: self.at as nat }
    }
}

/// The answer at the cursor says yes.
pub open spec fn says_yes(a: Answer) -> bool {
    a is Yes
}

/// Whether the order was carried out: yes, no, or why it could not be tried.
pub open spec fn outcome(a: Answer) -> Result<bool, Seq<char>> {
    match a {
        Answer::Yes => Ok(true),
        Answer::Failed(why) => Err(why@),
        _ => Ok(false),
    }
}

/// The text of a file, or why it cannot be read.
pub open spec fn reading(a: Answer) -> Result<Seq<char>, Seq<char>> {
    match a {
        Answer::Text(t) => Ok(t@),
        Answer::Missing(why) => Err(why@),
        Answer::Failed(why) => Err(why@),
        _ => Err(Seq::empty()),
    }
}

/// A program's output: whether it succeeded, and what it printed; or why it
/// could not be run.
pub open spec fn output(a: Answer) -> Result<(bool, Result<Seq<char>, Seq<char>>), Seq<char>> {
    match a {
        Answer::Output(ok, text) => Ok((ok, text.model())),
        Answer::Failed(why) => Err(why@),
        _ => Ok((false, Ok(Seq::empty()))),
    }
}

/// The entries of a directory, or why it cannot be listed.
pub open spec fn listing(a: Answer) -> Result<Seq<Listed>, Seq<char>> {
    match a {
        Answer::Listing(entries) => Ok(entries@),
        Answer::Failed(why) => Err(why@),
        _ => Err(Seq::empty()),
    }
}

impl Cursor {
    /// A path of the project as one shows it.
    pub open spec fn shown(self, path: Seq<char>) -> Seq<char> {
        paths::joined_to(self.root, path, self.sep)
    }

    /// There is an answer that has not been used.
    pub open spec fn answered(self) -> bool {
        self.at < self.answers.len()
    }

    /// The next answer.
    pub open spec fn answer(self) -> Answer {
        self.answers[self.at as int]
    }

    /// The cursor, with further answers behind those that there are.
    pub open spec fn with(self, more: Seq<Answer>) -> Cursor {
        Cursor { answers: self.answers + more, ..self }
    }

    /// The cursor behind the next answer.
    pub open spec fn past(self) -> Cursor {
        Cursor { at: self.at + 1, ..self }
    }

    /// Ask `q` and take the answer as `f` reads it.
    pub open spec fn ask<T>(self, q: AskView, f: spec_fn(Answer) -> T) -> Next<T> {
        if self.answered() {
            Next::Done(f(self.answer()), self.past())
        } else {
            Next::Ask(q)
        }
    }

    pub open spec fn is_file(self, path: Seq<char>) -> Next<bool> {
        self.ask(AskOf::IsFile(path), |a: Answer| says_yes(a))
    }

    pub open spec fn is_dir(self, path: Seq<char>) -> Next<bool> {
        self.ask(AskOf::IsDir(path), |a: Answer| says_yes(a))
    }

    pub open spec fn exists_at(self, path: Seq<char>) -> Next<bool> {
        self.ask(AskOf::Exists(path), |a: Answer| says_yes(a))
    }

    /// Print a line.
    pub open spec fn say(self, line: Seq<char>) -> Next<()> {
        self.ask(AskOf::Say(line), |a: Answer| ())
    }

    /// Print a warning.
    pub open spec fn warn(self, line: Seq<char>) -> Next<()> {
        self.ask(AskOf::Warn(line), |a: Answer| ())
    }

    /// The text of a file, `None` if there is no such file.
    pub open spec fn look(self, path: Seq<char>) -> Next<Result<Option<Seq<char>>, ErrorView>> {
        self.ask(
            AskOf::Read(path),
            |a: Answer|
                if a is Missing {
                    Ok(None)
                } else {
                    match reading(a) {
                        Ok(t) => Ok(Some(t)),
                        Err(why) => Err(ErrorOf::Read(self.shown(path), why)),
                    }
                },
        )
    }

    /// The text of a file that has to be there.
    pub open spec fn read(self, path: Seq<char>) -> Next<Result<Seq<char>, ErrorView>> {
        self.ask(
            AskOf::Read(path),
            |a: Answer|
                match reading(a) {
                    Ok(t) => Ok(t),
                    Err(why) => Err(ErrorOf::Read(self.shown(path), why)),
                },
        )
    }

    /// The text of a file that has to be there. What goes wrong is told in the
    /// system's words alone.
    pub open spec fn read_plainly(self, path: Seq<char>) -> Next<Result<Seq<char>, ErrorView>> {
        self.ask(
            AskOf::Read(path),
            |a: Answer|
                match reading(a) {
                    Ok(t) => Ok(t),
                    Err(why) => Err(ErrorOf::Plain(why)),
                },
        )
    }

    pub open spec fn write(self, path: Seq<char>, text: Seq<char>) -> Next<Result<(), ErrorView>> {
        self.ask(
            AskOf::Write(path, text),
            |a: Answer|
                match outcome(a) {
                    Ok(true) => Ok(()),
                    Ok(false) => Err(ErrorOf::Write(self.shown(path), Seq::empty())),
                    Err(why) => Err(ErrorOf::Write(self.shown(path), why)),
                },
        )
    }

    /// The entries of a directory.
    pub open spec fn list(self, path: Seq<char>) -> Next<Result<Seq<Listed>, ErrorView>> {
        self.ask(
            AskOf::List(path),
            |a: Answer|
                match listing(a) {
                    Ok(entries) => Ok(entries),
                    Err(why) => Err(ErrorOf::Plain(why)),
                },
        )
    }

    /// The matches of a pattern, as the host answered.
    pub open spec fn glob(self, pattern: Seq<char>) -> Next<Answer> {
        self.ask(AskOf::Glob(pattern), |a: Answer| a)
    }

    /// The project's directory and those above it.
    pub open spec fn ancestors(self) -> Next<Result<Seq<Seq<char>>, ErrorView>> {
        self.ask(
            AskOf::Ancestors,
            |a: Answer|
                match a {
                    Answer::Paths(paths) => Ok(paths.deep_view()),
                    Answer::Failed(why) => Err(ErrorOf::NotAbsolute(self.root, why@)),
                    _ => Err(ErrorOf::NotAbsolute(self.root, Seq::empty())),
                },
        )
    }

    /// Run a program that has to succeed.
    pub open spec fn run(
        self,
        dir: Seq<char>,
        program: Seq<char>,
        args: Seq<Seq<char>>,
    ) -> Next<Result<(), ErrorView>> {
        self.ask(AskOf::Run(dir, program, args), |a: Answer| must_succeed(a, program, args))
    }

    /// Run `git`, which has to succeed.
    pub open spec fn git(self, args: Seq<Seq<char>>) -> Next<Result<(), ErrorView>> {
        self.ask(AskOf::Git(args), |a: Answer| must_succeed(a, "git"@, args))
    }

    /// Whether a program succeeds.
    pub open spec fn probe(self, program: Seq<char>, args: Seq<Seq<char>>) -> Next<
        Result<bool, ErrorView>,
    > {
        self.ask(AskOf::Probe(program, args), |a: Answer| may_fail(a, program, args))
    }

    /// Whether `git` succeeds.
    pub open spec fn git_check(self, args: Seq<Seq<char>>) -> Next<Result<bool, ErrorView>> {
        self.ask(AskOf::GitCheck(args), |a: Answer| may_fail(a, "git"@, args))
    }

    /// Whether `git` succeeds, and what it prints. If it cannot be run, only
    /// its first argument is told.
    pub open spec fn git_output(self, args: Seq<Seq<char>>) -> Next<
        Result<(bool, Result<Seq<char>, Seq<char>>), ErrorView>,
    > {
        self.ask(
            AskOf::GitOutput(args),
            |a: Answer|
                match output(a) {
                    Ok(o) => Ok(o),
                    Err(why) => Err(ErrorOf::NotRun("git"@, args.take(1), why)),
                },
        )
    }
}

/// Further answers do not matter to how far the cursor is.
pub broadcast proof fn lemma_past_with(c: Cursor, more: Seq<Answer>)
    ensures
        #[trigger] c.with(more).past() == c.past().with(more),
{
}

/// A program that has to succeed: it did not if it could not be started or
/// ended with a failure.
pub open spec fn must_succeed(a: Answer, program: Seq<char>, args: Seq<Seq<char>>) -> Result<
    (),
    ErrorView,
> {
    match outcome(a) {
        Ok(true) => Ok(()),
        Ok(false) => Err(ErrorOf::Failed(program, args)),
        Err(why) => Err(ErrorOf::NotRun(program, args, why)),
    }
}

/// A program that may end with a failure.
pub open spec fn may_fail(a: Answer, program: Seq<char>, args: Seq<Seq<char>>) -> Result<
    bool,
    ErrorView,
> {
    match outcome(a) {
        Ok(ok) => Ok(ok),
        Err(why) => Err(ErrorOf::NotRun(program, args, why)),
    }
}

impl<'a> Session<'a> {
    /// A session on the project at `root` with these answers, none of them
    /// used. `sep` separates the names in the host's paths.
    pub fn new(root: &'a str, sep: char, answers: &'a Vec<Answer>) -> (r: Session<'a>)
        ensures
            r@ == (Cursor { root: root@, sep, answers: answers@, at: 0 }),
    {
        Session { root, sep, answers, at: 0 }
    }

    /// What separates the names in the host's paths.
    pub fn separator(&self) -> (r: char)
        ensures
            r == self@.sep,
    {
        self.sep
    }

    /// Where the project is.
    pub fn root(&self) -> (r: &'a str)
        ensures
            r@ == self@.root,
    {
        self.root
    }

    /// A path of the project as one shows it.
    pub fn shown(&self, path: &str) -> (r: String)
        ensures
            r@ == self@.shown(path@),
    {
        paths::join(self.root, path, self.sep)
    }

    /// The next answer, which is then used; `None` if there is none.
    fn next(&mut self) -> (r: Option<&'a Answer>)
        ensures
            match r {
                Some(a) => old(self)@.answered() && *a == old(self)@.answer() && final(self)@
                    == old(self)@.past(),
                None => !old(self)@.answered() && final(self)@ == old(self)@,
            },
    {
        if self.at < self.answers.len() {
            let a = &self.answers[self.at];
            self.at = self.at + 1;
            Some(a)
        } else {
            None
        }
    }

    pub fn is_file(&mut self, path: &str) -> (r: Step<bool>)
        ensures
            step(r, final(self)@) == old(self)@.is_file(path@),
    {
        match self.next() {
            None => Err(AskOf::IsFile(own(path))),
            Some(Answer::Yes) => Ok(true),
            Some(_) => Ok(false),
        }
    }

    pub fn is_dir(&mut self, path: &str) -> (r: Step<bool>)
        ensures
            step(r, final(self)@) == old(self)@.is_dir(path@),
    {
        match self.next() {
            None => Err(AskOf::IsDir(own(path))),
            Some(Answer::Yes) => Ok(true),
            Some(_) => Ok(false),
        }
    }

    pub fn exists_at(&mut self, path: &str) -> (r: Step<bool>)
        ensures
            step(r, final(self)@) == old(self)@.exists_at(path@),
    {
        match self.next() {
            None => Err(AskOf::Exists(own(path))),
            Some(Answer::Yes) => Ok(true),
            Some(_) => Ok(false),
        }
    }

    /// Print a line.
    pub fn say(&mut self, line: &str) -> (r: Step<()>)
        ensures
            step(r, final(self)@) == old(self)@.say(line@),
    {
        match self.next() {
            None => Err(AskOf::Say(own(line))),
            Some(_) => Ok(()),
        }
    }

    /// Print a warning.
    pub fn warn(&mut self, line: &str) -> (r: Step<()>)
        ensures
            step(r, final(self)@) == old(self)@.warn(line@),
    {
        match self.next() {
            None => Err(AskOf::Warn(own(line))),
            Some(_) => Ok(()),
        }
    }

    /// The text of a file, `None` if there is no such file.
    pub fn look(&mut self, path: &str) -> (r: Step<Result<Option<String>, Error>>)
        ensures
            step(r, final(self)@) == old(self)@.look(path@),
    {
        match self.next() {
            None => Err(AskOf::Read(own(path))),
            Some(Answer::Text(t)) => Ok(Ok(Some(t.clone()))),
            Some(Answer::Missing(_)) => Ok(Ok(None)),
            Some(Answer::Failed(why)) => Ok(Err(ErrorOf::Read(self.shown(path), why.clone()))),
            Some(_) => {
                let why = String::new();
                assert(why@ =~= Seq::empty());
                Ok(Err(ErrorOf::Read(self.shown(path), why)))
            },
        }
    }

    /// The text of a file that has to be there.
    pub fn read(&mut self, path: &str) -> (r: Step<Result<String, Error>>)
        ensures
            step(r, final(self)@) == old(self)@.read(path@),
    {
        match self.file(path)? {
            Ok(t) => Ok(Ok(t)),
            Err(why) => Ok(Err(ErrorOf::Read(self.shown(path), why))),
        }
    }

    /// The text of a file that has to be there.
    pub fn read_plainly(&mut self, path: &str) -> (r: Step<Result<String, Error>>)
        ensures
            step(r, final(self)@) == old(self)@.read_plainly(path@),
    {
        match self.file(path)? {
            Ok(t) => Ok(Ok(t)),
            Err(why) => Ok(Err(ErrorOf::Plain(why))),
        }
    }

    /// The text of a file, or why it cannot be read.
    fn file(&mut self, path: &str) -> (r: Step<Result<String, String>>)
        ensures
            step(r, final(self)@) == old(self)@.ask(
                AskOf::Read(path@),
                |a: Answer| reading(a),
            ),
    {
        match self.next() {
            None => Err(AskOf::Read(own(path))),
            Some(Answer::Text(t)) => Ok(Ok(t.clone())),
            Some(Answer::Missing(why)) => Ok(Err(why.clone())),
            Some(Answer::Failed(why)) => Ok(Err(why.clone())),
            Some(_) => {
                let why = String::new();
                assert(why@ =~= Seq::empty());
                Ok(Err(why))
            },
        }
    }

    pub fn write(&mut self, path: &str, text: &str) -> (r: Step<Result<(), Error>>)
        ensures
            step(r, final(self)@) == old(self)@.write(path@, text@),
    {
        match self.next() {
            None => Err(AskOf::Write(own(path), own(text))),
            Some(Answer::Yes) => Ok(Ok(())),
            Some(Answer::Failed(why)) => Ok(Err(ErrorOf::Write(self.shown(path), why.clone()))),
            Some(_) => {
                let why = String::new();
                assert(why@ =~= Seq::empty());
                Ok(Err(ErrorOf::Write(self.shown(path), why)))
            },
        }
    }

    /// The entries of a directory.
    pub fn list(&mut self, path: &str) -> (r: Step<Result<&'a Vec<Listed>, Error>>)
        ensures
            step(r, final(self)@) == old(self)@.list(path@),
    {
        match self.next() {
            None => Err(AskOf::List(own(path))),
            Some(Answer::Listing(entries)) => Ok(Ok(entries)),
            Some(Answer::Failed(why)) => Ok(Err(ErrorOf::Plain(why.clone()))),
            Some(_) => {
                let why = String::new();
                assert(why@ =~= Seq::empty());
                Ok(Err(ErrorOf::Plain(why)))
            },
        }
    }

    /// The matches of a pattern.
    pub fn glob(&mut self, pattern: &str) -> (r: Step<&'a Answer>)
        ensures
            step(r, final(self)@) == old(self)@.glob(pattern@),
    {
        match self.next() {
            None => Err(AskOf::Glob(own(pattern))),
            Some(a) => Ok(a),
        }
    }

    /// The project's directory and those above it.
    pub fn ancestors(&mut self) -> (r: Step<Result<Vec<String>, Error>>)
        ensures
            step(r, final(self)@) == old(self)@.ancestors(),
    {
        match self.next() {
            None => Err(AskOf::Ancestors),
            Some(Answer::Paths(paths)) => Ok(Ok(copies(paths))),
            Some(Answer::Failed(why)) => Ok(Err(ErrorOf::NotAbsolute(own(self.root), why.clone()))),
            Some(_) => {
                let why = String::new();
                assert(why@ =~= Seq::empty());
                Ok(Err(ErrorOf::NotAbsolute(own(self.root), why)))
            },
        }
    }

    /// Run a program that has to succeed.
    pub fn run(&mut self, dir: &str, program: &str, args: Vec<String>) -> (r: Step<
        Result<(), Error>,
    >)
        ensures
            step(r, final(self)@) == old(self)@.run(dir@, program@, args.deep_view()),
    {
        match self.next() {
            None => Err(AskOf::Run(own(dir), own(program), args)),
            Some(Answer::Yes) => Ok(Ok(())),
            Some(Answer::Failed(why)) => Ok(
                Err(ErrorOf::NotRun(own(program), args, why.clone())),
            ),
            Some(_) => Ok(Err(ErrorOf::Failed(own(program), args))),
        }
    }

    /// Run `git`, which has to succeed.
    pub fn git(&mut self, args: Vec<String>) -> (r: Step<Result<(), Error>>)
        ensures
            step(r, final(self)@) == old(self)@.git(args.deep_view()),
    {
        match self.next() {
            None => Err(AskOf::Git(args)),
            Some(Answer::Yes) => Ok(Ok(())),
            Some(Answer::Failed(why)) => Ok(Err(ErrorOf::NotRun(own("git"), args, why.clone()))),
            Some(_) => Ok(Err(ErrorOf::Failed(own("git"), args))),
        }
    }

    /// Whether a program succeeds.
    pub fn probe(&mut self, program: &str, args: Vec<String>) -> (r: Step<Result<bool, Error>>)
        ensures
            step(r, final(self)@) == old(self)@.probe(program@, args.deep_view()),
    {
        match self.next() {
            None => Err(AskOf::Probe(own(program), args)),
            Some(Answer::Yes) => Ok(Ok(true)),
            Some(Answer::Failed(why)) => Ok(
                Err(ErrorOf::NotRun(own(program), args, why.clone())),
            ),
            Some(_) => Ok(Ok(false)),
        }
    }

    /// Whether `git` succeeds.
    pub fn git_check(&mut self, args: Vec<String>) -> (r: Step<Result<bool, Error>>)
        ensures
            step(r, final(self)@) == old(self)@.git_check(args.deep_view()),
    {
        match self.next() {
            None => Err(AskOf::GitCheck(args)),
            Some(Answer::Yes) => Ok(Ok(true)),
            Some(Answer::Failed(why)) => Ok(Err(ErrorOf::NotRun(own("git"), args, why.clone()))),
            Some(_) => Ok(Ok(false)),
        }
    }

    /// Whether `git` succeeds, and what it prints.
    pub fn git_output(&mut self, args: Vec<String>) -> (r: Step<
        Result<(bool, Result<String, String>), Error>,
    >)
        requires
            args.deep_view().len() > 0,
        ensures
            step(r, final(self)@) == old(self)@.git_output(args.deep_view()),
    {
        match self.next() {
            None => Err(AskOf::GitOutput(args)),
            Some(Answer::Output(ok, Ok(t))) => Ok(Ok((*ok, Ok(t.clone())))),
            Some(Answer::Output(ok, Err(why))) => Ok(Ok((*ok, Err(why.clone())))),
            Some(Answer::Failed(why)) => {
                assert(args.deep_view().len() == args.len());
                let first = list1(&args[0]);
                assert(first.deep_view() =~= args.deep_view().take(1));
                Ok(Err(ErrorOf::NotRun(own("git"), first, why.clone())))
            },
            Some(_) => {
                let nothing = own("");
                proof {
                    reveal_strlit("");
                    assert(nothing@ =~= Seq::empty());
                }
                Ok(Ok((false, Ok(nothing))))
            },
        }
    }
}

} // verus!
