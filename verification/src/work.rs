//! Performing a call, one step on the disk at a time.
//!
//! A call that was let through becomes a piece of work: what to do next on the
//! machine. What came of that is handed back, and the next piece of work, or the
//! end with its journal entry, comes out. Nothing here touches the disk itself.

use vstd::prelude::*;
use crate::digits;
use crate::digits::write_number;
use crate::dispatcher;
use crate::dispatcher::{patch_paths, patch_targets, show_command, Actor, Came, Dispatcher, Outcome};
use crate::journal;
use crate::journal::{Effect, Entry, Line};
use crate::paths;
use crate::paths::FilePath;
use crate::sandbox;
use crate::sandbox::{resolve, Call, GateReason, Survey, ToolCall, Verdict};
use crate::split;
use crate::split::{count_occurrences, replace_once};
use crate::text;
use crate::text::chars_of;

verus! {

/// What to do next on the machine.
#[derive(Debug, Clone, PartialEq, Eq)]
pub enum Work {
    /// Read a file, and hand its text back.
    Read { path: FilePath },
    /// See whether a file is there that is about to be written.
    BeforeWrite { path: FilePath, content: String },
    /// Read a file of which a fragment is to be replaced. `named` is the path as
    /// it was asked for.
    BeforeReplace { path: FilePath, named: FilePath, find: String, replace: String },
    /// See whether a file is there, and what it holds, that is about to grow.
    BeforeAppend { path: FilePath, content: String },
    /// See whether a file is there that is about to be deleted.
    BeforeDelete { path: FilePath },
    /// See which of the files are there that a patch is about to change.
    BeforePatch { paths: Vec<FilePath>, diff: String },
    /// Write a file, with the directories on the way to it.
    Store { path: FilePath, content: String, existed: bool },
    /// Remove a file.
    Remove { path: FilePath },
    /// Hand a diff to git in the root of the project.
    Patch { paths: Vec<FilePath>, which: Vec<bool>, diff: String },
    /// Run a program in the root of the project, with a constructed environment.
    Run { program: String, args: Vec<String> },
}

/// What to do next, as texts.
pub enum Job {
    Read { path: Seq<char> },
    BeforeWrite { path: Seq<char>, content: Seq<char> },
    BeforeReplace { path: Seq<char>, named: Seq<char>, find: Seq<char>, replace: Seq<char> },
    BeforeAppend { path: Seq<char>, content: Seq<char> },
    BeforeDelete { path: Seq<char> },
    BeforePatch { paths: Seq<Seq<char>>, diff: Seq<char> },
    Store { path: Seq<char>, content: Seq<char>, existed: bool },
    Remove { path: Seq<char> },
    Patch { paths: Seq<Seq<char>>, which: Seq<bool>, diff: Seq<char> },
    Run { program: Seq<char>, args: Seq<Seq<char>> },
}

impl View for Work {
    type V = Job;

    open spec fn view(&self) -> Job {
        match self {
            Work::Read { path } => Job::Read { path: path@ },
            Work::BeforeWrite { path, content } => Job::BeforeWrite { path: path@, content: content@ },
            Work::BeforeReplace { path, named, find, replace } => Job::BeforeReplace {
                path: path@,
                named: named@,
                find: find@,
                replace: replace@,
            },
            Work::BeforeAppend { path, content } => Job::BeforeAppend { path: path@, content: content@ },
            Work::BeforeDelete { path } => Job::BeforeDelete { path: path@ },
            Work::BeforePatch { paths, diff } => Job::BeforePatch {
                paths: journal::path_texts(paths@),
                diff: diff@,
            },
            Work::Store { path, content, existed } => Job::Store {
                path: path@,
                content: content@,
                existed: *existed,
            },
            Work::Remove { path } => Job::Remove { path: path@ },
            Work::Patch { paths, which, diff } => Job::Patch {
                paths: journal::path_texts(paths@),
                which: which@,
                diff: diff@,
            },
            Work::Run { program, args } => Job::Run { program: program@, args: text::texts(args@) },
        }
    }
}

/// What came of a piece of work.
#[derive(Debug, Clone, PartialEq, Eq)]
pub enum Reply {
    /// The text of a file.
    Text(String),
    /// Whether a file is there.
    There(bool),
    /// Whether a file is there, and its text. What cannot be read counts as
    /// empty.
    Held { there: bool, text: String },
    /// Which of the files are there.
    Which(Vec<bool>),
    Done,
    /// A program ended. No code means that a signal ended it.
    Exited { code: Option<i32>, stdout: String, stderr: String },
    Failed(String),
}

/// What came of a piece of work, as texts.
pub enum Heard {
    Text(Seq<char>),
    There(bool),
    Held { there: bool, text: Seq<char> },
    Which(Seq<bool>),
    Done,
    Exited { code: Option<i32>, stdout: Seq<char>, stderr: Seq<char> },
    Failed(Seq<char>),
}

impl View for Reply {
    type V = Heard;

    open spec fn view(&self) -> Heard {
        match self {
            Reply::Text(t) => Heard::Text(t@),
            Reply::There(b) => Heard::There(*b),
            Reply::Held { there, text } => Heard::Held { there: *there, text: text@ },
            Reply::Which(v) => Heard::Which(v@),
            Reply::Done => Heard::Done,
            Reply::Exited { code, stdout, stderr } => Heard::Exited {
                code: *code,
                stdout: stdout@,
                stderr: stderr@,
            },
            Reply::Failed(e) => Heard::Failed(e@),
        }
    }
}

/// How far a call has come.
#[derive(Debug, PartialEq, Eq)]
pub enum Progress {
    Do(Work),
    /// The entry goes to the journal, where there is one. An outcome that is an
    /// error fails the call.
    End { entry: Option<Entry>, outcome: Result<Outcome, String> },
}

/// How far a call has come, as texts.
pub enum Stage {
    Do(Job),
    End { entry: Option<Line>, outcome: Result<Came, Seq<char>> },
}

/// An entry, where there is one, as texts.
pub open spec fn line_of(entry: Option<Entry>) -> Option<Line> {
    match entry {
        Some(e) => Some(e@),
        None => None,
    }
}

/// What came of a call, or why it failed, as texts.
pub open spec fn came_of(outcome: Result<Outcome, String>) -> Result<Came, Seq<char>> {
    match outcome {
        Ok(o) => Ok(o@),
        Err(e) => Err(e@),
    }
}

impl View for Progress {
    type V = Stage;

    open spec fn view(&self) -> Stage {
        match self {
            Progress::Do(w) => Stage::Do(w@),
            Progress::End { entry, outcome } => Stage::End { entry: line_of(*entry), outcome: came_of(*outcome) },
        }
    }
}

// ---------------------------------------------------------------------- texts written

/// A file's text with more at its end: on lines of its own, and with its last
/// line ended.
pub open spec fn appended(before: Seq<char>, content: Seq<char>) -> Seq<char> {
    let joined = if before.len() > 0 && before.last() != '\n' {
        before + "\n"@ + content
    } else {
        before + content
    };
    if joined.len() > 0 && joined.last() == '\n' {
        joined
    } else {
        joined + "\n"@
    }
}

/// Puts more at the end of a file's text.
pub fn append_text(before: &str, content: &str) -> (s: String)
    ensures
        s@ == appended(before@, content@),
{
    let chars = chars_of(before);
    let more = chars_of(content);
    let mut s = before.to_owned();
    let broken = chars.len() > 0 && chars[chars.len() - 1] != '\n';
    if broken {
        s.append("\n");
    }
    s.append(content);
    let ghost joined = s@;
    assert(joined == if broken {
        before@ + "\n"@ + content@
    } else {
        before@ + content@
    });
    proof {
        reveal_strlit("\n");
    }
    let ended = if more.len() > 0 {
        more[more.len() - 1] == '\n'
    } else {
        broken || chars.len() > 0
    };
    if !ended {
        s.append("\n");
    }
    s
}

/// What a file's text becomes where one fragment of it is replaced, or why it is
/// not. Exactly once, or not at all: a fragment that appears twice does not say
/// which one is meant, and guessing would change code nobody looked at.
pub open spec fn replaced(
    before: Seq<char>,
    named: Seq<char>,
    find: Seq<char>,
    replace: Seq<char>,
) -> Result<Seq<char>, Seq<char>> {
    let hits = split::occurrences(before, find);
    if hits == 0 {
        Err(
            "that fragment does not appear in "@ + named
                + ". Read the file and quote an existing fragment exactly, including indentation."@,
        )
    } else if hits > 1 {
        Err(
            "that fragment appears "@ + digits::decimal(hits) + " times in "@ + named
                + ". Quote a longer fragment so there is only one match."@,
        )
    } else {
        Ok(split::replaced_once(before, find, replace))
    }
}

/// Replaces the one fragment of a file's text.
pub fn replace_fragment(before: &str, named: &str, find: &str, replace: &str) -> (r: Result<String, String>)
    ensures
        match r {
            Ok(s) => replaced(before@, named@, find@, replace@) == Ok::<Seq<char>, Seq<char>>(s@),
            Err(s) => replaced(before@, named@, find@, replace@) == Err::<Seq<char>, Seq<char>>(s@),
        },
{
    let text = chars_of(before);
    let old_part = chars_of(find);
    let hits: u128 = count_occurrences(text.as_slice(), old_part.as_slice());
    if hits == 0 {
        let mut s = "that fragment does not appear in ".to_owned();
        s.append(named);
        s.append(". Read the file and quote an existing fragment exactly, including indentation.");
        return Err(s);
    }
    if hits > 1 {
        let mut s = "that fragment appears ".to_owned();
        s.append(write_number(hits).as_str());
        s.append(" times in ");
        s.append(named);
        s.append(". Quote a longer fragment so there is only one match.");
        return Err(s);
    }
    let new_part = chars_of(replace);
    Ok(replace_once(text.as_slice(), old_part.as_slice(), new_part.as_slice()))
}

// --------------------------------------------------------------------------- patches

/// Whether a verdict on writing a file keeps a patch from touching it: where it
/// leads is unknown, or outside the root.
pub open spec fn is_out_of_bounds(v: Verdict) -> bool {
    v is Forbidden || v == (Verdict::Gated { reason: GateReason::WriteOutsideRoot, consentable: false })
}

/// The verdict on writing a file that a patch names.
pub open spec fn target_verdict<'a>(d: Dispatcher<'a>, target: Seq<char>, seen: Seq<(Seq<char>, sandbox::Sight)>) -> Verdict {
    d.verdict_on(Call::WriteFile { path: target, content: ""@ }, false, seen)
}

/// The first target that a patch may not touch.
pub open spec fn first_out<'a>(
    d: Dispatcher<'a>,
    targets: Seq<Seq<char>>,
    seen: Seq<(Seq<char>, sandbox::Sight)>,
) -> Option<Seq<char>>
    decreases targets.len(),
{
    if targets.len() == 0 {
        None
    } else if is_out_of_bounds(target_verdict(d, targets[0], seen)) {
        Some(targets[0])
    } else {
        first_out(d, targets.drop_first(), seen)
    }
}

/// The targets seen from the root.
pub open spec fn in_root(root: Seq<char>, targets: Seq<Seq<char>>) -> Seq<Seq<char>> {
    targets.map_values(|t: Seq<char>| paths::joined(root, t))
}

fn find_out<'a>(d: &Dispatcher<'a>, targets: &[FilePath], survey: &Survey) -> (r: Option<FilePath>)
    ensures
        r is Some == first_out(*d, journal::path_texts(targets@), survey.seen@) is Some,
        r matches Some(p) ==> Some(p@) == first_out(*d, journal::path_texts(targets@), survey.seen@),
{
    let ghost all = journal::path_texts(targets@);
    let mut i: usize = 0;
    assert(all.skip(0) =~= all);
    while i < targets.len()
        invariant
            i <= targets.len(),
            all == journal::path_texts(targets@),
            first_out(*d, all.skip(i as int), survey.seen@) == first_out(*d, all, survey.seen@),
        decreases targets.len() - i,
    {
        assert(all.skip(i as int)[0] == targets@[i as int]@);
        assert(all.skip(i as int).drop_first() =~= all.skip(i + 1));
        let probe = ToolCall::WriteFile { path: targets[i].clone(), content: "".to_owned() };
        let v = d.judge(&probe, false, survey);
        let out = match v {
            Verdict::Forbidden { .. } => true,
            Verdict::Gated { reason, consentable } => reason == GateReason::WriteOutsideRoot && !consentable,
            Verdict::Allowed => false,
        };
        if out {
            return Some(targets[i].clone());
        }
        i = i + 1;
    }
    None
}

fn seen_from_root(root: &FilePath, targets: &[FilePath]) -> (v: Vec<FilePath>)
    ensures
        journal::path_texts(v@) == in_root(root@, journal::path_texts(targets@)),
{
    let ghost all = in_root(root@, journal::path_texts(targets@));
    let mut v: Vec<FilePath> = Vec::new();
    let mut i: usize = 0;
    assert(journal::path_texts(v@) =~= all.take(0));
    while i < targets.len()
        invariant
            i <= targets.len(),
            all == in_root(root@, journal::path_texts(targets@)),
            journal::path_texts(v@) == all.take(i as int),
        decreases targets.len() - i,
    {
        let p = root.join(targets[i].as_str());
        let ghost before = v@;
        let ghost path = p@;
        assert(path == all[i as int]);
        v.push(p);
        i = i + 1;
        assert(journal::path_texts(v@) =~= journal::path_texts(before).push(path));
        assert(all.take(i as int) =~= all.take(i - 1).push(all[i - 1]));
    }
    assert(all.take(i as int) =~= all);
    v
}

// ------------------------------------------------------------------------ performing

/// A call that ends without an entry, in an error.
pub open spec fn failed(why: Seq<char>) -> Stage {
    Stage::End { entry: None, outcome: Err(why) }
}

/// A call that ends without an entry, in a refusal.
pub open spec fn refused(why: Seq<char>) -> Stage {
    Stage::End { entry: None, outcome: Ok(Came::Refused(why)) }
}

/// The first piece of work on a file, where the path of the call leads to
/// `path`.
pub open spec fn job_at(call: Call, path: Seq<char>) -> Job {
    match call {
        Call::ReadFile { .. } => Job::Read { path },
        Call::WriteFile { content, .. } => Job::BeforeWrite { path, content },
        Call::ReplaceInFile { path: named, find, replace } => Job::BeforeReplace { path, named, find, replace },
        Call::AppendToFile { content, .. } => Job::BeforeAppend { path, content },
        _ => Job::BeforeDelete { path },
    }
}

/// Where a call that was let through begins.
pub open spec fn begun<'a>(
    d: Dispatcher<'a>,
    call: Call,
    verdict: Seq<char>,
    seen: Seq<(Seq<char>, sandbox::Sight)>,
    by: Actor,
) -> Stage {
    match call {
        Call::Search { .. } => Stage::End {
            entry: Some(
                dispatcher::done_entry(Effect::Searched, verdict, seq![], seq![], None, None, None, by),
            ),
            outcome: Err("no index is built for this project yet"@),
        },
        Call::ApplyPatch { diff } => {
            let paths = dispatcher::patched_paths(split::lines(diff));
            if dispatcher::targets_of(split::lines(diff)).len() == 0 {
                failed("the patch names no target files"@)
            } else {
                match first_out(d, paths, seen) {
                    Some(t) => refused("the patch touches "@ + t + ", which is outside the working folder"@),
                    None => Stage::Do(Job::BeforePatch { paths: in_root(d.root_text(), paths), diff }),
                }
            }
        },
        Call::RunCommand { program, args } => Stage::Do(Job::Run { program, args }),
        _ => {
            let named = dispatcher::named_paths(call)[0];
            match sandbox::resolved(named, d.root_text(), sandbox::shown(seen)) {
                None => failed("cannot resolve "@ + named),
                Some(path) => Stage::Do(job_at(call, path)),
            }
        },
    }
}

/// Whether a reply is one that the work can bring.
pub open spec fn fits(job: Job, heard: Heard) -> bool {
    heard is Failed || match job {
        Job::Read { .. } => heard is Text,
        Job::BeforeReplace { .. } => heard is Text,
        Job::BeforeWrite { .. } => heard is There,
        Job::BeforeDelete { .. } => heard is There,
        Job::BeforeAppend { .. } => heard is Held,
        Job::BeforePatch { .. } => heard is Which,
        Job::Store { .. } => heard is Done,
        Job::Remove { .. } => heard is Done,
        Job::Patch { .. } => heard is Exited,
        Job::Run { .. } => heard is Exited,
    }
}

/// A code, where a signal that ended a program counts as minus one.
pub open spec fn code_or_signal(code: Option<i32>) -> i32 {
    match code {
        Some(c) => c,
        None => -1 as i32,
    }
}

/// Why a piece of work failed.
pub open spec fn failure_of(job: Job, why: Seq<char>) -> Seq<char> {
    match job {
        Job::Read { path } => "reading "@ + path + ": "@ + why,
        Job::BeforeReplace { path, .. } => "reading "@ + path + ": "@ + why,
        Job::Run { program, .. } => "running "@ + program + ": "@ + why,
        _ => why,
    }
}

/// Where a call stands once a piece of work brought a reply.
pub open spec fn proceeded(job: Job, heard: Heard, verdict: Seq<char>, by: Actor) -> Stage {
    match (job, heard) {
        (_, Heard::Failed(why)) => failed(failure_of(job, why)),
        (Job::Read { path }, Heard::Text(t)) => Stage::End {
            entry: Some(
                dispatcher::done_entry(Effect::Read, verdict, seq![path], seq![], None, None, None, by),
            ),
            outcome: Ok(Came::Read(t)),
        },
        (Job::BeforeWrite { path, content }, Heard::There(existed)) => Stage::Do(
            Job::Store { path, content, existed },
        ),
        (Job::BeforeReplace { path, named, find, replace }, Heard::Text(before)) => match replaced(
            before,
            named,
            find,
            replace,
        ) {
            Ok(content) => Stage::Do(Job::Store { path, content, existed: true }),
            Err(why) => refused(why),
        },
        (Job::BeforeAppend { path, content }, Heard::Held { there, text }) => Stage::Do(
            Job::Store { path, content: appended(text, content), existed: there },
        ),
        (Job::BeforeDelete { path }, Heard::There(existed)) => if existed {
            Stage::Do(Job::Remove { path })
        } else {
            deleted(path, false, verdict, by)
        },
        (Job::BeforePatch { paths, diff }, Heard::Which(which)) => Stage::Do(Job::Patch { paths, which, diff }),
        (Job::Store { path, existed, .. }, Heard::Done) => Stage::End {
            entry: Some(
                dispatcher::done_entry(
                    Effect::Wrote,
                    verdict,
                    seq![path],
                    seq![existed],
                    None,
                    None,
                    None,
                    by,
                ),
            ),
            outcome: Ok(Came::Wrote),
        },
        (Job::Remove { path }, Heard::Done) => deleted(path, true, verdict, by),
        (Job::Patch { paths, which, .. }, Heard::Exited { code, stderr, .. }) => if code == Some(0i32) {
            Stage::End {
                entry: Some(
                    dispatcher::done_entry(Effect::Wrote, verdict, paths, which, None, code, None, by),
                ),
                outcome: Ok(Came::Wrote),
            }
        } else {
            Stage::End {
                entry: Some(
                    dispatcher::done_entry(
                        Effect::Wrote,
                        verdict,
                        seq![],
                        seq![],
                        None,
                        code,
                        Some(stderr),
                        by,
                    ),
                ),
                outcome: Err("git apply failed: "@ + stderr),
            }
        },
        (Job::Run { program, args }, Heard::Exited { code, stdout, stderr }) => Stage::End {
            entry: Some(
                dispatcher::done_entry(
                    Effect::Ran,
                    verdict,
                    seq![],
                    seq![],
                    Some(dispatcher::command_shown(program, args)),
                    Some(code_or_signal(code)),
                    None,
                    by,
                ),
            ),
            outcome: Ok(Came::Ran { exit_code: code_or_signal(code), stdout, stderr }),
        },
        _ => arbitrary(),
    }
}

/// A deletion that is done, whether or not there was anything to delete.
pub open spec fn deleted(path: Seq<char>, existed: bool, verdict: Seq<char>, by: Actor) -> Stage {
    Stage::End {
        entry: Some(
            dispatcher::done_entry(
                Effect::Deleted,
                verdict,
                seq![path],
                seq![existed],
                None,
                None,
                None,
                by,
            ),
        ),
        outcome: Ok(Came::Deleted),
    }
}

/// What a piece of work that a file needs first is, once its path is resolved.
fn work_at(call: ToolCall, path: FilePath) -> (w: Work)
    requires
        dispatcher::named_paths(call@).len() == 1,
    ensures
        w@ == job_at(call@, path@),
{
    match call {
        ToolCall::ReadFile { .. } => Work::Read { path },
        ToolCall::WriteFile { content, .. } => Work::BeforeWrite { path, content },
        ToolCall::ReplaceInFile { path: named, find, replace } => Work::BeforeReplace {
            path,
            named,
            find,
            replace,
        },
        ToolCall::AppendToFile { content, .. } => Work::BeforeAppend { path, content },
        _ => Work::BeforeDelete { path },
    }
}

fn one_path(path: FilePath) -> (v: Vec<FilePath>)
    ensures
        journal::path_texts(v@) == seq![path@],
{
    let ghost text = path@;
    let mut v: Vec<FilePath> = Vec::new();
    v.push(path);
    assert(journal::path_texts(v@) =~= seq![text]);
    v
}

fn one_flag(b: bool) -> (v: Vec<bool>)
    ensures
        v@ == seq![b],
{
    let mut v: Vec<bool> = Vec::new();
    v.push(b);
    assert(v@ =~= seq![b]);
    v
}

impl<'a> Dispatcher<'a> {
    /// Begins with a call on a file.
    fn begin_at(&self, call: ToolCall, named: &FilePath, survey: &Survey) -> (p: Progress)
        requires
            dispatcher::named_paths(call@) == seq![named@],
        ensures
            p@ == match sandbox::resolved(named@, self.root_text(), sandbox::shown(survey.seen@)) {
                None => failed("cannot resolve "@ + named@),
                Some(path) => Stage::Do(job_at(call@, path)),
            },
    {
        match resolve(named, self.root(), survey) {
            None => {
                let mut why = "cannot resolve ".to_owned();
                why.append(named.as_str());
                Progress::End { entry: None, outcome: Err(why) }
            },
            Some(path) => Progress::Do(work_at(call, path)),
        }
    }

    /// Begins with a patch. Each path that it touches is judged individually
    /// through the same function as a write.
    fn begin_patch(&self, diff: String, survey: &Survey) -> (p: Progress)
        ensures
            forall|verdict: Seq<char>, by: Actor|
                p@ == #[trigger] begun(*self, Call::ApplyPatch { diff: diff@ }, verdict, survey.seen@, by),
    {
        let targets = patch_targets(diff.as_str());
        assert(journal::path_texts(targets@).len() == targets@.len());
        if targets.len() == 0 {
            return Progress::End { entry: None, outcome: Err("the patch names no target files".to_owned()) };
        }
        let touched = patch_paths(diff.as_str());
        match find_out(self, touched.as_slice(), survey) {
            Some(t) => {
                let mut why = "the patch touches ".to_owned();
                why.append(t.as_str());
                why.append(", which is outside the working folder");
                Progress::End { entry: None, outcome: Ok(Outcome::Refused(why)) }
            },
            None => {
                let paths = seen_from_root(self.root(), touched.as_slice());
                Progress::Do(Work::BeforePatch { paths, diff })
            },
        }
    }

    /// Begins with a call that was let through under a verdict.
    pub fn begin(&self, call: ToolCall, verdict: &str, survey: &Survey, at: &str) -> (p: Progress)
        ensures
            p@ == begun(*self, call@, verdict@, survey.seen@, self.acting(at@)),
    {
        match call {
            ToolCall::Search { .. } => {
                let entry = self.record(
                    Effect::Searched,
                    verdict,
                    Vec::new(),
                    Vec::new(),
                    None,
                    None,
                    None,
                    at,
                );
                assert(entry@.paths =~= seq![]);
                assert(entry@.existed_before =~= seq![]);
                Progress::End {
                    entry: Some(entry),
                    outcome: Err("no index is built for this project yet".to_owned()),
                }
            },
            ToolCall::ApplyPatch { diff } => self.begin_patch(diff, survey),
            ToolCall::RunCommand { program, args } => Progress::Do(Work::Run { program, args }),
            ToolCall::ReadFile { path } => {
                let named = path.clone();
                self.begin_at(ToolCall::ReadFile { path }, &named, survey)
            },
            ToolCall::WriteFile { path, content } => {
                let named = path.clone();
                self.begin_at(ToolCall::WriteFile { path, content }, &named, survey)
            },
            ToolCall::ReplaceInFile { path, find, replace } => {
                let named = path.clone();
                self.begin_at(ToolCall::ReplaceInFile { path, find, replace }, &named, survey)
            },
            ToolCall::AppendToFile { path, content } => {
                let named = path.clone();
                self.begin_at(ToolCall::AppendToFile { path, content }, &named, survey)
            },
            ToolCall::DeleteFile { path } => {
                let named = path.clone();
                self.begin_at(ToolCall::DeleteFile { path }, &named, survey)
            },
        }
    }

    /// Ends a call that changed one file.
    fn end_with(
        &self,
        effect: Effect,
        path: FilePath,
        existed: Vec<bool>,
        outcome: Outcome,
        verdict: &str,
        at: &str,
    ) -> (p: Progress)
        ensures
            p@ == (Stage::End {
                entry: Some(
                    dispatcher::done_entry(
                        effect,
                        verdict@,
                        seq![path@],
                        existed@,
                        None,
                        None,
                        None,
                        self.acting(at@),
                    ),
                ),
                outcome: Ok(outcome@),
            }),
    {
        let entry = self.record(effect, verdict, one_path(path), existed, None, None, None, at);
        Progress::End { entry: Some(entry), outcome: Ok(outcome) }
    }

    /// Ends a patch that git was handed.
    fn end_patch(
        &self,
        paths: Vec<FilePath>,
        which: Vec<bool>,
        code: Option<i32>,
        stderr: String,
        verdict: &str,
        at: &str,
    ) -> (p: Progress)
        ensures
            forall|diff: Seq<char>, stdout: Seq<char>|
                p@ == #[trigger] proceeded(
                    Job::Patch { paths: journal::path_texts(paths@), which: which@, diff },
                    Heard::Exited { code, stdout, stderr: stderr@ },
                    verdict@,
                    self.acting(at@),
                ),
    {
        let applied = match code {
            Some(c) => c == 0,
            None => false,
        };
        if applied {
            let entry = self.record(Effect::Wrote, verdict, paths, which, None, code, None, at);
            return Progress::End { entry: Some(entry), outcome: Ok(Outcome::Wrote) };
        }
        let mut why = "git apply failed: ".to_owned();
        why.append(stderr.as_str());
        let entry = self.record(
            Effect::Wrote,
            verdict,
            Vec::new(),
            Vec::new(),
            None,
            code,
            Some(stderr),
            at,
        );
        assert(entry@.paths =~= seq![]);
        assert(entry@.existed_before =~= seq![]);
        Progress::End { entry: Some(entry), outcome: Err(why) }
    }

    /// Ends a command that ran.
    fn end_run(
        &self,
        program: String,
        args: Vec<String>,
        code: Option<i32>,
        stdout: String,
        stderr: String,
        verdict: &str,
        at: &str,
    ) -> (p: Progress)
        ensures
            p@ == proceeded(
                Job::Run { program: program@, args: text::texts(args@) },
                Heard::Exited { code, stdout: stdout@, stderr: stderr@ },
                verdict@,
                self.acting(at@),
            ),
    {
        let exit_code: i32 = match code {
            Some(c) => c,
            None => -1,
        };
        let shown = show_command(program.as_str(), args.as_slice());
        let entry = self.record(
            Effect::Ran,
            verdict,
            Vec::new(),
            Vec::new(),
            Some(shown),
            Some(exit_code),
            None,
            at,
        );
        assert(entry@.paths =~= seq![]);
        assert(entry@.existed_before =~= seq![]);
        Progress::End { entry: Some(entry), outcome: Ok(Outcome::Ran { exit_code, stdout, stderr }) }
    }

    /// Why a piece of work failed, in the words the agent is given.
    fn describe_failure(work: &Work, why: String) -> (s: String)
        ensures
            s@ == failure_of(work@, why@),
    {
        match work {
            Work::Read { path } => reading_failed(path, why.as_str()),
            Work::BeforeReplace { path, .. } => reading_failed(path, why.as_str()),
            Work::Run { program, .. } => {
                let mut s = "running ".to_owned();
                s.append(program.as_str());
                s.append(": ");
                s.append(why.as_str());
                s
            },
            _ => why,
        }
    }

    /// Goes on with a call, once a piece of work brought a reply.
    pub fn proceed(&self, work: Work, reply: Reply, verdict: &str, at: &str) -> (p: Progress)
        requires
            fits(work@, reply@),
        ensures
            p@ == proceeded(work@, reply@, verdict@, self.acting(at@)),
    {
        match (work, reply) {
            (work, Reply::Failed(why)) => Progress::End {
                entry: None,
                outcome: Err(Self::describe_failure(&work, why)),
            },
            (Work::Read { path }, Reply::Text(t)) => self.end_with(
                Effect::Read,
                path,
                Vec::new(),
                Outcome::Read(t),
                verdict,
                at,
            ),
            (Work::BeforeWrite { path, content }, Reply::There(existed)) => Progress::Do(
                Work::Store { path, content, existed },
            ),
            (Work::BeforeReplace { path, named, find, replace }, Reply::Text(before)) => {
                match replace_fragment(before.as_str(), named.as_str(), find.as_str(), replace.as_str()) {
                    Ok(content) => Progress::Do(Work::Store { path, content, existed: true }),
                    Err(why) => Progress::End { entry: None, outcome: Ok(Outcome::Refused(why)) },
                }
            },
            (Work::BeforeAppend { path, content }, Reply::Held { there, text }) => {
                let grown = append_text(text.as_str(), content.as_str());
                Progress::Do(Work::Store { path, content: grown, existed: there })
            },
            (Work::BeforeDelete { path }, Reply::There(existed)) => {
                if existed {
                    Progress::Do(Work::Remove { path })
                } else {
                    self.end_with(Effect::Deleted, path, one_flag(false), Outcome::Deleted, verdict, at)
                }
            },
            (Work::BeforePatch { paths, diff }, Reply::Which(which)) => Progress::Do(
                Work::Patch { paths, which, diff },
            ),
            (Work::Store { path, existed, .. }, Reply::Done) => self.end_with(
                Effect::Wrote,
                path,
                one_flag(existed),
                Outcome::Wrote,
                verdict,
                at,
            ),
            (Work::Remove { path }, Reply::Done) => self.end_with(
                Effect::Deleted,
                path,
                one_flag(true),
                Outcome::Deleted,
                verdict,
                at,
            ),
            (Work::Patch { paths, which, .. }, Reply::Exited { code, stderr, .. }) => self.end_patch(
                paths,
                which,
                code,
                stderr,
                verdict,
                at,
            ),
            (Work::Run { program, args }, Reply::Exited { code, stdout, stderr }) => self.end_run(
                program,
                args,
                code,
                stdout,
                stderr,
                verdict,
                at,
            ),
            _ => {
                assert(false);
                Progress::End { entry: None, outcome: Ok(Outcome::Wrote) }
            },
        }
    }
}

fn reading_failed(path: &FilePath, why: &str) -> (s: String)
    ensures
        s@ == "reading "@ + path@ + ": "@ + why@,
{
    let mut s = "reading ".to_owned();
    s.append(path.as_str());
    s.append(": ");
    s.append(why);
    s
}

impl Work {
    /// Whether a reply is one that this work can bring.
    pub fn suits(&self, reply: &Reply) -> (r: bool)
        ensures
            r == fits(self@, reply@),
    {
        match (self, reply) {
            (_, Reply::Failed(_)) => true,
            (Work::Read { .. }, Reply::Text(_)) => true,
            (Work::BeforeReplace { .. }, Reply::Text(_)) => true,
            (Work::BeforeWrite { .. }, Reply::There(_)) => true,
            (Work::BeforeDelete { .. }, Reply::There(_)) => true,
            (Work::BeforeAppend { .. }, Reply::Held { .. }) => true,
            (Work::BeforePatch { .. }, Reply::Which(_)) => true,
            (Work::Store { .. }, Reply::Done) => true,
            (Work::Remove { .. }, Reply::Done) => true,
            (Work::Patch { .. }, Reply::Exited { .. }) => true,
            (Work::Run { .. }, Reply::Exited { .. }) => true,
            _ => false,
        }
    }
}

// ------------------------------------------------------------------------------ laws

/// The effect of what came of a call, where it had one.
pub open spec fn effect_had(came: Came) -> Option<Effect> {
    match came {
        Came::Read(_) => Some(Effect::Read),
        Came::Wrote => Some(Effect::Wrote),
        Came::Deleted => Some(Effect::Deleted),
        Came::Ran { .. } => Some(Effect::Ran),
        Came::Refused(_) => None,
    }
}

/// Whatever was done ends with an entry that says so, under the verdict that let
/// it through and the name of the node that asked.
pub proof fn law_what_was_done_is_recorded(job: Job, heard: Heard, verdict: Seq<char>, by: Actor)
    requires
        fits(job, heard),
    ensures
        proceeded(job, heard, verdict, by) matches Stage::End { entry, outcome: Ok(came) } ==> (effect_had(
            came,
        ) is Some ==> (entry matches Some(e) && e.effect == effect_had(came)->0 && e.verdict == verdict && e.node
            == by.node)),
{
}

/// A call that came to nothing counts for no write: whatever entry it ends with
/// leaves the count of every node as it was.
pub proof fn law_a_failure_counts_for_no_write(
    job: Job,
    heard: Heard,
    verdict: Seq<char>,
    by: Actor,
    entries: Seq<Entry>,
    e: Entry,
    node: Seq<char>,
)
    requires
        fits(job, heard),
        proceeded(job, heard, verdict, by) matches Stage::End { entry: Some(line), outcome: Err(_) } && e@ == line,
    ensures
        journal::count_writes(entries.push(e), node) == journal::count_writes(entries, node),
{
    assert(entries.push(e).drop_last() =~= entries);
    assert(e@.paths.len() == e.paths@.len());
}

/// A replacement changes one fragment, the only one there is, and keeps all that
/// stands around it.
pub proof fn law_a_replacement_changes_one_fragment(
    before: Seq<char>,
    named: Seq<char>,
    find: Seq<char>,
    replace: Seq<char>,
) -> (k: int)
    requires
        replaced(before, named, find, replace) is Ok,
    ensures
        split::occurrences(before, find) == 1,
        text::stands_at(before, find, k),
        before == before.take(k) + find + before.skip(k + find.len()),
        replaced(before, named, find, replace) == Ok::<Seq<char>, Seq<char>>(
            before.take(k) + replace + before.skip(k + find.len()),
        ),
{
    text::lemma_first_place(before, find);
    if find.len() == 0 {
        assert(before.take(0) =~= find);
        assert(text::starts_with(before, find));
    }
    assert(text::first_place(before, find) is Some);
    let k = text::first_place(before, find)->0;
    assert(before =~= before.take(k) + find + before.skip(k + find.len()));
    k
}

/// An append keeps all that was there, in front, and ends its last line.
pub proof fn law_an_append_keeps_what_was_there(before: Seq<char>, content: Seq<char>)
    ensures
        text::starts_with(appended(before, content), before),
        appended(before, content).last() == '\n',
        text::occurs(appended(before, content), content),
{
    reveal_strlit("\n");
    let s = appended(before, content);
    assert(s.subrange(0, before.len() as int) =~= before);
    let at = if before.len() > 0 && before.last() != '\n' {
        before.len() as int + 1
    } else {
        before.len() as int
    };
    assert(s.subrange(at, at + content.len()) =~= content);
    assert(text::stands_at(s, content, at));
}

/// A patch that is handed on touches only files that lead to places below the
/// root, those that it deletes too.
pub proof fn law_a_patch_stays_inside<'a>(
    d: Dispatcher<'a>,
    diff: Seq<char>,
    verdict: Seq<char>,
    seen: Seq<(Seq<char>, sandbox::Sight)>,
    by: Actor,
    i: int,
)
    requires
        begun(d, Call::ApplyPatch { diff }, verdict, seen, by) is Do,
        0 <= i < dispatcher::patched_paths(split::lines(diff)).len(),
    ensures
        ({
            let target = dispatcher::patched_paths(split::lines(diff))[i];
            let place = sandbox::resolved(target, d.root_text(), sandbox::shown(seen));
            place is Some && paths::under(place->0, d.root_text())
        }),
{
    lemma_first_out(d, dispatcher::patched_paths(split::lines(diff)), seen, i);
}

proof fn lemma_first_out<'a>(
    d: Dispatcher<'a>,
    targets: Seq<Seq<char>>,
    seen: Seq<(Seq<char>, sandbox::Sight)>,
    i: int,
)
    requires
        first_out(d, targets, seen) is None,
        0 <= i < targets.len(),
    ensures
        !is_out_of_bounds(target_verdict(d, targets[i], seen)),
    decreases targets.len(),
{
    if i > 0 {
        lemma_first_out(d, targets.drop_first(), seen, i - 1);
    }
}

/// A reading brings what is in the file that the path leads to.
pub proof fn law_a_reading_is_carried_out<'a>(
    d: Dispatcher<'a>,
    path: Seq<char>,
    place: Seq<char>,
    text: Seq<char>,
    verdict: Seq<char>,
    seen: Seq<(Seq<char>, sandbox::Sight)>,
    by: Actor,
)
    requires
        sandbox::resolved(path, d.root_text(), sandbox::shown(seen)) == Some(place),
    ensures
        begun(d, Call::ReadFile { path }, verdict, seen, by) == Stage::Do(Job::Read { path: place }),
        proceeded(Job::Read { path: place }, Heard::Text(text), verdict, by) matches Stage::End {
            entry: Some(e),
            outcome: Ok(Came::Read(t)),
        } && t == text && e.effect == Effect::Read && e.paths == seq![place],
{
}

/// A write stores what it was given in the file that the path leads to, and is
/// recorded with whether that was there before.
pub proof fn law_a_write_is_carried_out<'a>(
    d: Dispatcher<'a>,
    path: Seq<char>,
    place: Seq<char>,
    content: Seq<char>,
    there: bool,
    verdict: Seq<char>,
    seen: Seq<(Seq<char>, sandbox::Sight)>,
    by: Actor,
)
    requires
        sandbox::resolved(path, d.root_text(), sandbox::shown(seen)) == Some(place),
    ensures
        begun(d, Call::WriteFile { path, content }, verdict, seen, by) matches Stage::Do(asks) && asks
            is BeforeWrite && asks->BeforeWrite_path == place && (proceeded(asks, Heard::There(there), verdict, by)
            matches Stage::Do(Job::Store { path: p, content: c, existed }) && p == place && c == content && existed
            == there),
        proceeded(Job::Store { path: place, content, existed: there }, Heard::Done, verdict, by) matches Stage::End {
            entry: Some(e),
            outcome: Ok(Came::Wrote),
        } && e.effect == Effect::Wrote && e.verdict == verdict && e.paths == seq![place] && e.existed_before
            == seq![there] && e.node == by.node,
{
}

/// An addition stores what was in the file with what is added behind it.
pub proof fn law_an_addition_is_carried_out<'a>(
    d: Dispatcher<'a>,
    path: Seq<char>,
    place: Seq<char>,
    content: Seq<char>,
    there: bool,
    held: Seq<char>,
    verdict: Seq<char>,
    seen: Seq<(Seq<char>, sandbox::Sight)>,
    by: Actor,
)
    requires
        sandbox::resolved(path, d.root_text(), sandbox::shown(seen)) == Some(place),
    ensures
        begun(d, Call::AppendToFile { path, content }, verdict, seen, by) matches Stage::Do(asks) && asks
            is BeforeAppend && asks->BeforeAppend_path == place && (proceeded(
            asks,
            Heard::Held { there, text: held },
            verdict,
            by,
        ) matches Stage::Do(Job::Store { path: p, content: c, existed }) && p == place && existed == there && c
            == appended(held, content)),
{
}

/// What is added to a file begins on a line of its own, and the file ends with a
/// line end: nothing else comes in.
pub proof fn law_what_is_added_stands_on_its_own(before: Seq<char>, content: Seq<char>)
    ensures
        ({
            let gap = if before.len() > 0 && before.last() != '\n' {
                seq!['\n']
            } else {
                Seq::<char>::empty()
            };
            let all = before + gap + content;
            appended(before, content) == if all.len() > 0 && all.last() == '\n' {
                all
            } else {
                all + seq!['\n']
            }
        }),
{
    reveal_strlit("\n");
    assert("\n"@ =~= seq!['\n']);
    assert(before + Seq::<char>::empty() + content =~= before + content);
}

/// A deletion removes the file that the path leads to where there is one, and is
/// recorded with whether there was.
pub proof fn law_a_deletion_is_carried_out<'a>(
    d: Dispatcher<'a>,
    path: Seq<char>,
    place: Seq<char>,
    verdict: Seq<char>,
    seen: Seq<(Seq<char>, sandbox::Sight)>,
    by: Actor,
)
    requires
        sandbox::resolved(path, d.root_text(), sandbox::shown(seen)) == Some(place),
    ensures
        begun(d, Call::DeleteFile { path }, verdict, seen, by) == Stage::Do(Job::BeforeDelete { path: place }),
        proceeded(Job::BeforeDelete { path: place }, Heard::There(true), verdict, by) == Stage::Do(
            Job::Remove { path: place },
        ),
        proceeded(Job::Remove { path: place }, Heard::Done, verdict, by) matches Stage::End {
            entry: Some(e),
            outcome: Ok(Came::Deleted),
        } && e.effect == Effect::Deleted && e.paths == seq![place] && e.existed_before == seq![true],
        proceeded(Job::BeforeDelete { path: place }, Heard::There(false), verdict, by) matches Stage::End {
            entry: Some(e),
            outcome: Ok(Came::Deleted),
        } && e.effect == Effect::Deleted && e.paths == seq![place] && e.existed_before == seq![false],
{
}

/// A replacement stores the file with its fragment replaced where the fragment is
/// found once, and is refused otherwise; the file is left alone then.
pub proof fn law_a_replacement_is_carried_out<'a>(
    d: Dispatcher<'a>,
    path: Seq<char>,
    place: Seq<char>,
    find: Seq<char>,
    replace: Seq<char>,
    held: Seq<char>,
    verdict: Seq<char>,
    seen: Seq<(Seq<char>, sandbox::Sight)>,
    by: Actor,
)
    requires
        sandbox::resolved(path, d.root_text(), sandbox::shown(seen)) == Some(place),
    ensures
        begun(d, Call::ReplaceInFile { path, find, replace }, verdict, seen, by) matches Stage::Do(asks) && asks
            is BeforeReplace && asks->BeforeReplace_path == place && ({
            let next = proceeded(asks, Heard::Text(held), verdict, by);
            &&& split::occurrences(held, find) == 1 ==> (next matches Stage::Do(Job::Store {
                path: p,
                content: c,
                existed,
            }) && p == place && existed && c == split::replaced_once(held, find, replace))
            &&& split::occurrences(held, find) != 1 ==> (next matches Stage::End {
                entry: None,
                outcome: Ok(Came::Refused(_)),
            })
        }),
{
}

/// A command is run as it is, and brings what it exited with and all it printed;
/// one that a signal ended exited with minus one.
pub proof fn law_a_command_is_carried_out<'a>(
    d: Dispatcher<'a>,
    program: Seq<char>,
    args: Seq<Seq<char>>,
    code: Option<i32>,
    stdout: Seq<char>,
    stderr: Seq<char>,
    verdict: Seq<char>,
    seen: Seq<(Seq<char>, sandbox::Sight)>,
    by: Actor,
)
    ensures
        begun(d, Call::RunCommand { program, args }, verdict, seen, by) == Stage::Do(Job::Run { program, args }),
        proceeded(Job::Run { program, args }, Heard::Exited { code, stdout, stderr }, verdict, by) matches Stage::End {
            entry: Some(e),
            outcome: Ok(Came::Ran { exit_code, stdout: o, stderr: x }),
        } && o == stdout && x == stderr && exit_code == (match code {
            Some(c) => c as int,
            None => -1,
        }) && e.effect == Effect::Ran && e.exit_code == Some(exit_code) && e.command == Some(
            program + " "@ + split::join(args, " "@),
        ),
{
}

/// A patch is handed to git as it is, once it is known which of its files are
/// there; where git applied it, it is recorded with all of them, and where git did
/// not, it is an error.
pub proof fn law_a_patch_is_carried_out(
    paths: Seq<Seq<char>>,
    which: Seq<bool>,
    diff: Seq<char>,
    code: Option<i32>,
    stdout: Seq<char>,
    stderr: Seq<char>,
    verdict: Seq<char>,
    by: Actor,
)
    ensures
        proceeded(Job::BeforePatch { paths, diff }, Heard::Which(which), verdict, by) == Stage::Do(
            Job::Patch { paths, which, diff },
        ),
        code == Some(0i32) ==> (proceeded(
            Job::Patch { paths, which, diff },
            Heard::Exited { code, stdout, stderr },
            verdict,
            by,
        ) matches Stage::End { entry: Some(e), outcome: Ok(Came::Wrote) } && e.effect == Effect::Wrote && e.paths
            == paths && e.existed_before == which),
        code != Some(0i32) ==> (proceeded(
            Job::Patch { paths, which, diff },
            Heard::Exited { code, stdout, stderr },
            verdict,
            by,
        ) matches Stage::End { entry: Some(e), outcome: Err(why) } && e.paths.len() == 0 && why
            == "git apply failed: "@ + stderr),
{
}

/// A patch whose files all lead below the root is carried out; one of which some
/// file does not is refused, and git never sees it.
pub proof fn law_a_patch_is_refused_for_what_lies_outside<'a>(
    d: Dispatcher<'a>,
    diff: Seq<char>,
    verdict: Seq<char>,
    seen: Seq<(Seq<char>, sandbox::Sight)>,
    by: Actor,
)
    ensures
        ({
            let paths = dispatcher::patched_paths(split::lines(diff));
            let inside = forall|i: int|
                #![trigger paths[i]]
                0 <= i < paths.len() ==> (sandbox::resolved(paths[i], d.root_text(), sandbox::shown(seen)) matches Some(
                    place,
                ) && paths::under(place, d.root_text()));
            let stage = begun(d, Call::ApplyPatch { diff }, verdict, seen, by);
            dispatcher::targets_of(split::lines(diff)).len() > 0 ==> {
                &&& inside ==> (stage matches Stage::Do(Job::BeforePatch { paths: p, diff: x }) && x == diff && p
                    == in_root(d.root_text(), paths))
                &&& !inside ==> (stage matches Stage::End { entry: None, outcome: Ok(Came::Refused(_)) })
            }
        }),
{
    let paths = dispatcher::patched_paths(split::lines(diff));
    lemma_none_out(d, paths, seen);
    if first_out(d, paths, seen) is None {
        assert forall|i: int| #![trigger paths[i]] 0 <= i < paths.len() implies (sandbox::resolved(
            paths[i],
            d.root_text(),
            sandbox::shown(seen),
        ) matches Some(place) && paths::under(place, d.root_text())) by {
            lemma_first_out(d, paths, seen, i);
        }
    }
}

proof fn lemma_none_out<'a>(
    d: Dispatcher<'a>,
    targets: Seq<Seq<char>>,
    seen: Seq<(Seq<char>, sandbox::Sight)>,
)
    ensures
        (forall|i: int|
            #![trigger targets[i]]
            0 <= i < targets.len() ==> (sandbox::resolved(targets[i], d.root_text(), sandbox::shown(seen)) matches Some(
                place,
            ) && paths::under(place, d.root_text()))) ==> first_out(d, targets, seen) is None,
    decreases targets.len(),
{
    if targets.len() > 0 {
        let rest = targets.drop_first();
        lemma_none_out(d, rest, seen);
        if forall|i: int|
            #![trigger targets[i]]
            0 <= i < targets.len() ==> (sandbox::resolved(targets[i], d.root_text(), sandbox::shown(seen)) matches Some(
                place,
            ) && paths::under(place, d.root_text())) {
            assert(targets[0] == targets[0]);
            assert forall|i: int| #![trigger rest[i]] 0 <= i < rest.len() implies (sandbox::resolved(
                rest[i],
                d.root_text(),
                sandbox::shown(seen),
            ) matches Some(place) && paths::under(place, d.root_text())) by {
                assert(rest[i] == targets[i + 1]);
            }
        }
    }
}

/// Work that cannot be done is an error, with its reason, and is not recorded as
/// done.
pub proof fn law_what_cannot_be_done_is_an_error(job: Job, why: Seq<char>, verdict: Seq<char>, by: Actor)
    ensures
        proceeded(job, Heard::Failed(why), verdict, by) matches Stage::End { entry: None, outcome: Err(told) }
            && text::ends_with(told, why),
{
    let told = failure_of(job, why);
    assert(told.skip(told.len() - why.len()) =~= why);
}

/// A target of a patch is recorded where it lies below the root.
pub proof fn law_targets_are_recorded_below_the_root(root: Seq<char>, targets: Seq<Seq<char>>, i: int)
    requires
        0 <= i < targets.len(),
    ensures
        in_root(root, targets).len() == targets.len(),
        in_root(root, targets)[i] == paths::joined(root, targets[i]),
{
}

} // verus!
