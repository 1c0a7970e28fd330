//! The only thing that acts.
//!
//! Every effect the product has on the machine passes through `dispatch`. It
//! classifies and asks a human where the classification says to; what it lets
//! through is performed step by step, and what happened is journalled — in that
//! order, always.

use vstd::prelude::*;
use crate::journal;
use crate::journal::{Effect, Entry, Journal, Line};
use crate::json;
use crate::kept::{keep, Kept};
use crate::paths;
use crate::paths::FilePath;
use crate::sandbox;
use crate::sandbox::{
    classify, next_to_look_at, Call, ForbidReason, GateReason, PermissionMode, Request, ScopedConsent, Seen, Sight,
    Survey, ToolCall, Verdict,
};
use crate::split;
use crate::split::{join_strings, split_any, split_lines};
use crate::text;
use crate::text::{chars_of, drop_prefix, reads, string_of, strip_prefix, trimmed};

verus! {

/// How a gate is answered.
#[derive(Debug, Clone, PartialEq, Eq)]
pub enum GateDecision {
    Approve,
    /// Approve and widen, for this run and this prefix only.
    ApproveWithConsent { prefix: FilePath },
    Edit { call: ToolCall },
    Reject { note: String },
}

/// An answer to a gate, as texts.
pub enum Choice {
    Approve,
    ApproveWithConsent { prefix: Seq<char> },
    Edit { call: Call },
    Reject { note: Seq<char> },
}

impl View for GateDecision {
    type V = Choice;

    open spec fn view(&self) -> Choice {
        match self {
            GateDecision::Approve => Choice::Approve,
            GateDecision::ApproveWithConsent { prefix } => Choice::ApproveWithConsent { prefix: prefix@ },
            GateDecision::Edit { call } => Choice::Edit { call: call@ },
            GateDecision::Reject { note } => Choice::Reject { note: note@ },
        }
    }
}

/// Who answers a gate. A trait so the engine can be driven by the UI in the
/// product and by a script in tests.
pub trait GateAuthority: Send + Sync {
    /// Whether this is an answer of this authority's to that question. One that
    /// says nothing of its answers may give any.
    open spec fn may_answer(&self, call: Call, reason: GateReason, consentable: bool, choice: Choice) -> bool {
        true
    }

    fn ask(&self, call: &ToolCall, reason: GateReason, consentable: bool) -> (d: GateDecision)
        ensures
            self.may_answer(call@, reason, consentable, d@),
    ;
}

/// The answer where nobody is there to be asked: ordinary work and the
/// workflow's own gates are approved, the floor is refused.
///
/// A node gate is not a floor category: it is a stop the workflow author put
/// there for a human, and it is marked not consentable so that no scoped consent
/// can silently swallow it.
pub fn answer_within_floor(reason: GateReason, consentable: bool) -> (d: GateDecision)
    ensures
        d@ == (if reason == GateReason::NodeGate || consentable {
            Choice::Approve
        } else {
            Choice::Reject { note: reason_name(reason) + " is on the floor and needs a human"@ }
        }),
{
    if reason == GateReason::NodeGate || consentable {
        GateDecision::Approve
    } else {
        let mut note = name_of_reason(reason).to_owned();
        note.append(" is on the floor and needs a human");
        GateDecision::Reject { note }
    }
}

/// The name of a reason.
pub open spec fn reason_name(reason: GateReason) -> Seq<char> {
    match reason {
        GateReason::WriteOutsideRoot => "WriteOutsideRoot"@,
        GateReason::WriteToSource => "WriteToSource"@,
        GateReason::WriteInsideRoot => "WriteInsideRoot"@,
        GateReason::Delete => "Delete"@,
        GateReason::Command => "Command"@,
        GateReason::RemoteRepository => "RemoteRepository"@,
        GateReason::PackageInstall => "PackageInstall"@,
        GateReason::Network => "Network"@,
        GateReason::PrivilegeEscalation => "PrivilegeEscalation"@,
        GateReason::NodeGate => "NodeGate"@,
        GateReason::RepositoryRewrite => "RepositoryRewrite"@,
        GateReason::ShellRedirect => "ShellRedirect"@,
        GateReason::OpaqueCommand => "OpaqueCommand"@,
    }
}

pub fn name_of_reason(reason: GateReason) -> (s: &'static str)
    ensures
        s@ == reason_name(reason),
{
    match reason {
        GateReason::WriteOutsideRoot => "WriteOutsideRoot",
        GateReason::WriteToSource => "WriteToSource",
        GateReason::WriteInsideRoot => "WriteInsideRoot",
        GateReason::Delete => "Delete",
        GateReason::Command => "Command",
        GateReason::RemoteRepository => "RemoteRepository",
        GateReason::PackageInstall => "PackageInstall",
        GateReason::Network => "Network",
        GateReason::PrivilegeEscalation => "PrivilegeEscalation",
        GateReason::NodeGate => "NodeGate",
        GateReason::RepositoryRewrite => "RepositoryRewrite",
        GateReason::ShellRedirect => "ShellRedirect",
        GateReason::OpaqueCommand => "OpaqueCommand",
    }
}

/// What came of a call.
#[derive(Debug, Clone, PartialEq, Eq)]
pub enum Outcome {
    Read(String),
    Wrote,
    Deleted,
    Ran { exit_code: i32, stdout: String, stderr: String },
    /// The agent asked for something it may not have. This is returned to the
    /// agent as a refusal rather than failing the run.
    Refused(String),
}

/// What came of a call, as texts.
pub enum Came {
    Read(Seq<char>),
    Wrote,
    Deleted,
    Ran { exit_code: i32, stdout: Seq<char>, stderr: Seq<char> },
    Refused(Seq<char>),
}

impl View for Outcome {
    type V = Came;

    open spec fn view(&self) -> Came {
        match self {
            Outcome::Read(t) => Came::Read(t@),
            Outcome::Wrote => Came::Wrote,
            Outcome::Deleted => Came::Deleted,
            Outcome::Ran { exit_code, stdout, stderr } => Came::Ran {
                exit_code: *exit_code,
                stdout: stdout@,
                stderr: stderr@,
            },
            Outcome::Refused(why) => Came::Refused(why@),
        }
    }
}

// ------------------------------------------------------------ what a call is about

/// The kind of effect a call asks for.
pub open spec fn effect(call: Call) -> Effect {
    match call {
        Call::ReadFile { .. } => Effect::Read,
        Call::DeleteFile { .. } => Effect::Deleted,
        Call::RunCommand { .. } => Effect::Ran,
        Call::Search { .. } => Effect::Searched,
        _ => Effect::Wrote,
    }
}

/// The path a call names, where it names one.
pub open spec fn named_paths(call: Call) -> Seq<Seq<char>> {
    match call {
        Call::ReadFile { path } => seq![path],
        Call::WriteFile { path, .. } => seq![path],
        Call::ReplaceInFile { path, .. } => seq![path],
        Call::AppendToFile { path, .. } => seq![path],
        Call::DeleteFile { path } => seq![path],
        _ => seq![],
    }
}

/// A command as the journal shows it.
pub open spec fn command_shown(program: Seq<char>, args: Seq<Seq<char>>) -> Seq<char> {
    program + " "@ + split::join(args, " "@)
}

/// The command a call runs, where it runs one.
pub open spec fn command_text(call: Call) -> Option<Seq<char>> {
    match call {
        Call::RunCommand { program, args } => Some(command_shown(program, args)),
        _ => None,
    }
}

fn effect_of(call: &ToolCall) -> (e: Effect)
    ensures
        e == effect(call@),
{
    match call {
        ToolCall::ReadFile { .. } => Effect::Read,
        ToolCall::DeleteFile { .. } => Effect::Deleted,
        ToolCall::RunCommand { .. } => Effect::Ran,
        ToolCall::Search { .. } => Effect::Searched,
        _ => Effect::Wrote,
    }
}

fn paths_of(call: &ToolCall) -> (v: Vec<FilePath>)
    ensures
        journal::path_texts(v@) == named_paths(call@),
{
    let mut v: Vec<FilePath> = Vec::new();
    match call {
        ToolCall::ReadFile { path } => v.push(path.clone()),
        ToolCall::WriteFile { path, .. } => v.push(path.clone()),
        ToolCall::ReplaceInFile { path, .. } => v.push(path.clone()),
        ToolCall::AppendToFile { path, .. } => v.push(path.clone()),
        ToolCall::DeleteFile { path } => v.push(path.clone()),
        _ => {},
    }
    assert(journal::path_texts(v@) =~= named_paths(call@));
    v
}

/// Writes a command as the journal shows it.
pub fn show_command(program: &str, args: &[String]) -> (s: String)
    ensures
        s@ == command_shown(program@, text::texts(args@)),
{
    let mut s = program.to_owned();
    s.append(" ");
    s.append(join_strings(args, " ").as_str());
    s
}

fn command_of(call: &ToolCall) -> (c: Option<String>)
    ensures
        json::said(c) == command_text(call@),
{
    match call {
        ToolCall::RunCommand { program, args } => Some(show_command(program.as_str(), args.as_slice())),
        _ => None,
    }
}

// -------------------------------------------------------------------------- patches

/// The file that a header line of a unified diff names. `mark` is what the header
/// begins with, and `side` what a name may have before it. A line that is no such
/// header names none, nor does one that stands for no file.
pub open spec fn named_after(line: Seq<char>, mark: Seq<char>, side: Seq<char>) -> Option<Seq<char>> {
    match text::after_prefix(line, mark) {
        None => None,
        Some(rest) => if text::trim(rest) == "/dev/null"@ {
            None
        } else {
            Some(split::split(text::without_prefix(text::trim(rest), side), split::Cut::Any("\t"@))[0])
        },
    }
}

/// Whether a line of a unified diff says that no file is left.
pub open spec fn leaves_no_file(line: Seq<char>) -> bool {
    match text::after_prefix(line, "+++ "@) {
        None => false,
        Some(rest) => text::trim(rest) == "/dev/null"@,
    }
}

/// The paths with one more, where a line names one that is not among them.
pub open spec fn with_path(before: Seq<Seq<char>>, named: Option<Seq<char>>) -> Seq<Seq<char>> {
    match named {
        None => before,
        Some(t) => if is_among(before, t) {
            before
        } else {
            before.push(t)
        },
    }
}

/// The targets that the lines name, each once.
pub open spec fn targets_of(lines: Seq<Seq<char>>) -> Seq<Seq<char>>
    decreases lines.len(),
{
    if lines.len() == 0 {
        seq![]
    } else {
        with_path(targets_of(lines.drop_last()), named_after(lines.last(), "+++ "@, "b/"@))
    }
}

/// The file that the last of the lines says is deleted: no file is left of the one
/// that the line before names.
pub open spec fn deleted_by(lines: Seq<Seq<char>>) -> Option<Seq<char>> {
    if lines.len() > 1 && leaves_no_file(lines.last()) {
        named_after(lines[lines.len() - 2], "--- "@, "a/"@)
    } else {
        None
    }
}

/// The paths with the files that the lines delete.
pub open spec fn with_deleted(paths: Seq<Seq<char>>, lines: Seq<Seq<char>>) -> Seq<Seq<char>>
    decreases lines.len(),
{
    if lines.len() == 0 {
        paths
    } else {
        with_path(with_deleted(paths, lines.drop_last()), deleted_by(lines))
    }
}

/// The paths that the lines touch: the targets, and then what is deleted besides.
pub open spec fn patched_paths(lines: Seq<Seq<char>>) -> Seq<Seq<char>> {
    with_deleted(targets_of(lines), lines)
}

/// Whether the path, by its components, is among the targets.
pub open spec fn is_among(targets: Seq<Seq<char>>, path: Seq<char>) -> bool {
    exists|i: int| 0 <= i < targets.len() && paths::comps(#[trigger] targets[i]) == paths::comps(path)
}

/// The first piece of a text that is cut at every tab.
fn before_tab<'a>(s: &'a [char]) -> (r: &'a [char])
    ensures
        r@ == split::split(s@, split::Cut::Any("\t"@))[0],
{
    let v = split_any(s, "\t");
    assert(text::pieces(v@).len() == v@.len());
    assert(text::pieces(v@)[0] == v@[0]@);
    v[0]
}

/// Reads the file that a header line names.
fn name_in(line: &[char], mark: &str, side: &str) -> (r: Option<String>)
    ensures
        json::said(r) == named_after(line@, mark@, side@),
{
    match strip_prefix(line, mark) {
        None => None,
        Some(rest) => {
            let rest = trimmed(rest);
            if reads(rest, "/dev/null") {
                None
            } else {
                Some(string_of(before_tab(drop_prefix(rest, side))))
            }
        },
    }
}

/// Reads the file that the line at `i` says is deleted.
fn deleted_at(lines: &[&[char]], i: usize) -> (r: Option<String>)
    requires
        i < lines@.len(),
    ensures
        json::said(r) == deleted_by(text::pieces(lines@).take(i + 1)),
{
    let ghost all = text::pieces(lines@).take(i + 1);
    assert(all.last() == lines@[i as int]@);
    let gone = match strip_prefix(lines[i], "+++ ") {
        None => false,
        Some(rest) => reads(trimmed(rest), "/dev/null"),
    };
    if i == 0 || !gone {
        return None;
    }
    assert(all[all.len() - 2] == lines@[i - 1]@);
    name_in(lines[i - 1], "--- ", "a/")
}

/// Adds the path that a line names, where it is not there already.
fn add_path(v: &mut Vec<FilePath>, named: Option<String>)
    ensures
        journal::path_texts(final(v)@) == with_path(journal::path_texts(old(v)@), json::said(named)),
{
    if let Some(t) = named {
        let p = FilePath { text: t };
        if !holds_path(v.as_slice(), &p) {
            let ghost path = p@;
            v.push(p);
            assert(journal::path_texts(v@) =~= journal::path_texts(old(v)@).push(path));
        }
    }
}

/// Target paths of a unified diff, taken from the `+++ b/...` headers.
pub fn patch_targets(diff: &str) -> (v: Vec<FilePath>)
    ensures
        journal::path_texts(v@) == targets_of(split::lines(diff@)),
{
    let chars = chars_of(diff);
    let lines = split_lines(chars.as_slice());
    let ghost all = text::pieces(lines@);
    let mut v: Vec<FilePath> = Vec::new();
    let mut i: usize = 0;
    assert(journal::path_texts(v@) =~= targets_of(all.take(0)));
    while i < lines.len()
        invariant
            i <= lines.len(),
            all == text::pieces(lines@),
            journal::path_texts(v@) == targets_of(all.take(i as int)),
        decreases lines.len() - i,
    {
        assert(all.take(i + 1).drop_last() =~= all.take(i as int));
        assert(all.take(i + 1).last() == lines@[i as int]@);
        add_path(&mut v, name_in(lines[i], "+++ ", "b/"));
        i = i + 1;
    }
    assert(all.take(i as int) =~= all);
    v
}

/// All the paths that a unified diff touches: its targets, and then the files that
/// it deletes. A deletion has no `+++ b/...` header, so it is no target; it is
/// judged and recorded with the targets all the same.
pub fn patch_paths(diff: &str) -> (v: Vec<FilePath>)
    ensures
        journal::path_texts(v@) == patched_paths(split::lines(diff@)),
{
    let chars = chars_of(diff);
    let lines = split_lines(chars.as_slice());
    let ghost all = text::pieces(lines@);
    let mut v = patch_targets(diff);
    let ghost targets = journal::path_texts(v@);
    let mut i: usize = 0;
    while i < lines.len()
        invariant
            i <= lines.len(),
            all == text::pieces(lines@),
            journal::path_texts(v@) == with_deleted(targets, all.take(i as int)),
        decreases lines.len() - i,
    {
        assert(all.take(i + 1).drop_last() =~= all.take(i as int));
        add_path(&mut v, deleted_at(lines.as_slice(), i));
        i = i + 1;
    }
    assert(all.take(i as int) =~= all);
    v
}

fn holds_path(v: &[FilePath], path: &FilePath) -> (r: bool)
    ensures
        r == is_among(journal::path_texts(v@), path@),
{
    let ghost all = journal::path_texts(v@);
    let mut i: usize = 0;
    while i < v.len()
        invariant
            i <= v.len(),
            all == journal::path_texts(v@),
            forall|j: int| 0 <= j < i ==> paths::comps(#[trigger] all[j]) != paths::comps(path@),
        decreases v.len() - i,
    {
        assert(all[i as int] == v@[i as int]@);
        if v[i] == *path {
            return true;
        }
        i = i + 1;
    }
    false
}

// ------------------------------------------------------------------------- dispatch

/// Why a call that is forbidden is refused.
pub open spec fn refusal(reason: ForbidReason) -> Seq<char> {
    match reason {
        ForbidReason::ReadOutsideRoot => "reading outside the working folder is not permitted"@,
        ForbidReason::UnresolvablePath => "that path cannot be resolved"@,
    }
}

/// What is to become of a call.
#[derive(Debug, Clone, PartialEq, Eq)]
pub enum Dispatched {
    /// It is not performed. The entry goes to the journal and the reason to the
    /// agent.
    Refused { entry: Entry, why: String },
    /// It is performed, under the verdict that let it through.
    Perform { call: ToolCall, verdict: &'static str },
}

/// What is to become of a call, as texts.
pub enum Ruling {
    Refused { entry: Line, why: Seq<char> },
    Perform { call: Call, verdict: Seq<char> },
}

impl View for Dispatched {
    type V = Ruling;

    open spec fn view(&self) -> Ruling {
        match self {
            Dispatched::Refused { entry, why } => Ruling::Refused { entry: entry@, why: why@ },
            Dispatched::Perform { call, verdict } => Ruling::Perform { call: call@, verdict: verdict@ },
        }
    }
}

/// Who acts, and when, for the journal.
pub struct Actor {
    pub node: Seq<char>,
    pub attempt: u32,
    pub at: Seq<char>,
}

/// The entry for a call that is not performed.
pub open spec fn refused_entry(call: Call, verdict: Seq<char>, why: Seq<char>, by: Actor) -> Line {
    Line {
        at: by.at,
        node: by.node,
        attempt: by.attempt,
        effect: effect(call),
        verdict,
        paths: named_paths(call),
        command: command_text(call),
        exit_code: None,
        note: Some(why),
        existed_before: seq![],
    }
}

/// The entry for what was done.
pub open spec fn done_entry(
    effect: Effect,
    verdict: Seq<char>,
    paths: Seq<Seq<char>>,
    existed_before: Seq<bool>,
    command: Option<Seq<char>>,
    exit_code: Option<i32>,
    note: Option<Seq<char>>,
    by: Actor,
) -> Line {
    Line {
        at: by.at,
        node: by.node,
        attempt: by.attempt,
        effect,
        verdict,
        paths,
        command,
        exit_code,
        note,
        existed_before,
    }
}

/// What is to become of a gated call, once the question is answered.
pub open spec fn ruling_on(call: Call, consentable: bool, choice: Choice, by: Actor) -> Ruling {
    match choice {
        Choice::Reject { note } => Ruling::Refused { entry: refused_entry(call, "Rejected"@, note, by), why: note },
        Choice::Approve => Ruling::Perform { call, verdict: "Approved"@ },
        Choice::Edit { call: edited } => Ruling::Perform { call: edited, verdict: "Approved after edit"@ },
        // The floor is not consentable. Honour the approval once; refuse to
        // widen.
        Choice::ApproveWithConsent { .. } => Ruling::Perform {
            call,
            verdict: if consentable {
                "Approved with consent"@
            } else {
                "Approved (consent refused: floor)"@
            },
        },
    }
}

/// The consents, as the prefixes they cover.
pub open spec fn prefixes(consents: Seq<ScopedConsent>) -> Seq<Seq<char>> {
    consents.map_values(|c: ScopedConsent| c.prefix@)
}

/// The prefixes covered after a gate is answered.
pub open spec fn widened(covered: Seq<Seq<char>>, consentable: bool, choice: Choice) -> Seq<Seq<char>> {
    match choice {
        Choice::ApproveWithConsent { prefix } => if consentable {
            covered.push(prefix)
        } else {
            covered
        },
        _ => covered,
    }
}

/// Decides what is done in a project, for one node at a time.
pub struct Dispatcher<'a> {
    root: FilePath,
    mode: PermissionMode,
    consents: Vec<ScopedConsent>,
    source_roots: Vec<FilePath>,
    authority: Kept<&'a dyn GateAuthority>,
    journal: Journal,
    node: String,
    attempt: u32,
    /// In seconds.
    command_timeout: u64,
}

impl<'a> Dispatcher<'a> {
    pub closed spec fn root_text(self) -> Seq<char> {
        self.root@
    }

    pub closed spec fn permission(self) -> PermissionMode {
        self.mode
    }

    pub closed spec fn granted(self) -> Seq<ScopedConsent> {
        self.consents@
    }

    pub closed spec fn sources(self) -> Seq<FilePath> {
        self.source_roots@
    }

    pub closed spec fn kept_in(self) -> Journal {
        self.journal
    }

    pub closed spec fn timeout(self) -> u64 {
        self.command_timeout
    }

    /// Whether this is an answer to that question of the authority that is asked
    /// here.
    pub closed spec fn may_answer(self, call: Call, reason: GateReason, consentable: bool, choice: Choice) -> bool {
        self.authority.inner.may_answer(call, reason, consentable, choice)
    }

    pub closed spec fn acting(self, at: Seq<char>) -> Actor {
        Actor { node: self.node@, attempt: self.attempt, at }
    }

    /// Whether all but the node and its attempt, and the consents, is the same.
    pub open spec fn is_kin(self, other: Dispatcher<'a>) -> bool {
        &&& self.root_text() == other.root_text()
        &&& self.permission() == other.permission()
        &&& self.sources() == other.sources()
        &&& self.kept_in() == other.kept_in()
        &&& self.timeout() == other.timeout()
        &&& self.asks_as(other)
    }

    /// Whether the same authority is asked.
    pub open spec fn asks_as(self, other: Dispatcher<'a>) -> bool {
        forall|call: Call, reason: GateReason, consentable: bool, choice: Choice| #[trigger]
            self.may_answer(call, reason, consentable, choice) == other.may_answer(
                call,
                reason,
                consentable,
                choice,
            )
    }

    /// The verdict on a call, as far as the survey shows the disk.
    pub open spec fn verdict_on(self, call: Call, node_gate: bool, seen: Seq<(Seq<char>, Sight)>) -> Verdict {
        sandbox::verdict(
            call,
            self.root_text(),
            self.permission(),
            self.granted(),
            node_gate,
            self.sources(),
            sandbox::shown(seen),
        )
    }

    /// Whether a ruling on a call, and what is consented to after it, is one that
    /// the authority's answer can lead to. Nobody is asked about a call that is not
    /// gated.
    pub open spec fn may_rule(
        self,
        call: Call,
        node_gate: bool,
        seen: Seq<(Seq<char>, Sight)>,
        by: Actor,
        ruling: Ruling,
        covered: Seq<Seq<char>>,
    ) -> bool {
        match self.verdict_on(call, node_gate, seen) {
            Verdict::Gated { reason, consentable } => exists|choice: Choice|
                {
                    &&& #[trigger] self.may_answer(call, reason, consentable, choice)
                    &&& ruling == ruling_on(call, consentable, choice, by)
                    &&& covered == widened(prefixes(self.granted()), consentable, choice)
                },
            v => ruling == plain_ruling(call, v, by) && covered == prefixes(self.granted()),
        }
    }

    /// Acts in the project at `root`, which is its canonical path. Questions go to
    /// `authority`.
    pub fn new(
        root: &FilePath,
        mode: PermissionMode,
        source_roots: Vec<FilePath>,
        authority: &'a dyn GateAuthority,
        journal: Journal,
    ) -> (d: Self)
        ensures
            d.root_text() == root@,
            d.permission() == mode,
            d.granted() == Seq::<ScopedConsent>::empty(),
            d.sources() == source_roots@,
            d.kept_in() == journal,
            forall|at: Seq<char>|
                #[trigger] d.acting(at) == (Actor { node: "unknown"@, attempt: 1, at }),
            d.timeout() == 600,
            forall|call: Call, reason: GateReason, consentable: bool, choice: Choice| #[trigger]
                d.may_answer(call, reason, consentable, choice) == authority.may_answer(
                    call,
                    reason,
                    consentable,
                    choice,
                ),
    {
        let authority = keep(authority);
        Dispatcher {
            root: root.clone(),
            mode,
            consents: Vec::new(),
            source_roots,
            authority,
            journal,
            node: "unknown".to_owned(),
            attempt: 1,
            command_timeout: 600,
        }
    }

    /// Acts for a node from here on.
    pub fn for_node(&mut self, node: &str, attempt: u32)
        ensures
            final(self).is_kin(*old(self)),
            final(self).granted() == old(self).granted(),
            forall|at: Seq<char>|
                #[trigger] final(self).acting(at) == (Actor { node: node@, attempt, at }),
    {
        self.node = node.to_owned();
        self.attempt = attempt;
    }

    pub fn journal(&self) -> (j: &Journal)
        ensures
            *j == self.kept_in(),
    {
        &self.journal
    }

    pub fn consents(&self) -> (c: &[ScopedConsent])
        ensures
            c@ == self.granted(),
    {
        self.consents.as_slice()
    }

    pub fn root(&self) -> (r: &FilePath)
        ensures
            r@ == self.root_text(),
    {
        &self.root
    }

    pub fn command_timeout(&self) -> (seconds: u64)
        ensures
            seconds == self.timeout(),
    {
        self.command_timeout
    }

    /// How long a command may take, in seconds.
    pub fn set_command_timeout(&mut self, seconds: u64)
        ensures
            final(self).timeout() == seconds,
            final(self).root_text() == old(self).root_text(),
            final(self).permission() == old(self).permission(),
            final(self).granted() == old(self).granted(),
            final(self).sources() == old(self).sources(),
            final(self).asks_as(*old(self)),
            final(self).kept_in() == old(self).kept_in(),
            forall|at: Seq<char>| #[trigger] final(self).acting(at) == old(self).acting(at),
    {
        self.command_timeout = seconds;
    }

    /// The verdict on a call.
    pub fn judge(&self, call: &ToolCall, node_gate: bool, survey: &Survey) -> (v: Verdict)
        ensures
            v == self.verdict_on(call@, node_gate, survey.seen@),
    {
        let req = Request {
            call,
            root: &self.root,
            mode: self.mode,
            consents: self.consents.as_slice(),
            node_gate,
            source_roots: self.source_roots.as_slice(),
            survey,
        };
        classify(&req)
    }

    /// The entry for a call that is not performed.
    fn refused(&self, call: &ToolCall, verdict: &str, why: &str, at: &str) -> (e: Entry)
        ensures
            e@ == refused_entry(call@, verdict@, why@, self.acting(at@)),
    {
        let e = Entry {
            at: at.to_owned(),
            node: self.node.as_str().to_owned(),
            attempt: self.attempt,
            effect: effect_of(call),
            verdict: verdict.to_owned(),
            paths: paths_of(call),
            command: command_of(call),
            exit_code: None,
            note: Some(why.to_owned()),
            existed_before: Vec::new(),
        };
        assert(e@ =~= refused_entry(call@, verdict@, why@, self.acting(at@)));
        e
    }

    /// The entry for what was done.
    pub fn record(
        &self,
        effect: Effect,
        verdict: &str,
        paths: Vec<FilePath>,
        existed_before: Vec<bool>,
        command: Option<String>,
        exit_code: Option<i32>,
        note: Option<String>,
        at: &str,
    ) -> (e: Entry)
        ensures
            e@ == done_entry(
                effect,
                verdict@,
                journal::path_texts(paths@),
                existed_before@,
                json::said(command),
                exit_code,
                json::said(note),
                self.acting(at@),
            ),
    {
        Entry {
            at: at.to_owned(),
            node: self.node.as_str().to_owned(),
            attempt: self.attempt,
            effect,
            verdict: verdict.to_owned(),
            paths,
            command,
            exit_code,
            note,
            existed_before,
        }
    }

    /// Rules on a gated call, once the question is answered.
    pub fn answer(&mut self, call: ToolCall, consentable: bool, decision: GateDecision, at: &str) -> (r: Dispatched)
        ensures
            r@ == ruling_on(call@, consentable, decision@, old(self).acting(at@)),
            prefixes(final(self).granted()) == widened(prefixes(old(self).granted()), consentable, decision@),
            final(self).granted().take(old(self).granted().len() as int) == old(self).granted(),
            final(self).is_kin(*old(self)),
            forall|t: Seq<char>| #[trigger] final(self).acting(t) == old(self).acting(t),
    {
        assert(self.consents@.take(self.consents@.len() as int) =~= self.consents@);
        match decision {
            GateDecision::Reject { note } => {
                let entry = self.refused(&call, "Rejected", note.as_str(), at);
                Dispatched::Refused { entry, why: note }
            },
            GateDecision::Approve => Dispatched::Perform { call, verdict: "Approved" },
            GateDecision::Edit { call: edited } => Dispatched::Perform {
                call: edited,
                verdict: "Approved after edit",
            },
            GateDecision::ApproveWithConsent { prefix } => {
                if !consentable {
                    Dispatched::Perform { call, verdict: "Approved (consent refused: floor)" }
                } else {
                    let ghost text = prefix@;
                    self.consents.push(ScopedConsent { prefix });
                    assert(prefixes(self.consents@) =~= prefixes(old(self).consents@).push(text));
                    assert(self.consents@.take(old(self).consents@.len() as int) =~= old(self).consents@);
                    Dispatched::Perform { call, verdict: "Approved with consent" }
                }
            },
        }
    }

    /// Rules on a call that needs no answer.
    fn rule(&self, call: ToolCall, verdict: &Verdict, at: &str) -> (r: Dispatched)
        requires
            verdict !is Gated,
        ensures
            r@ == plain_ruling(call@, *verdict, self.acting(at@)),
    {
        match verdict {
            Verdict::Forbidden { reason } => {
                let why = match reason {
                    ForbidReason::ReadOutsideRoot => "reading outside the working folder is not permitted",
                    ForbidReason::UnresolvablePath => "that path cannot be resolved",
                };
                let entry = self.refused(&call, "Forbidden", why, at);
                Dispatched::Refused { entry, why: why.to_owned() }
            },
            _ => Dispatched::Perform { call, verdict: "Allowed" },
        }
    }

    /// Classify, and ask if required. A rejection is returned to the agent as a
    /// refusal so it can proceed differently, not as a run failure.
    ///
    /// A gated call is put to the authority, with what it is gated for and whether
    /// a consent could open it. The answer is the authority's; for every answer the
    /// ruling is the one that `answer` gives. Nobody is asked about another call.
    pub fn dispatch(&mut self, call: ToolCall, node_gate: bool, survey: &Survey, at: &str) -> (r: Dispatched)
        ensures
            old(self).may_rule(
                call@,
                node_gate,
                survey.seen@,
                old(self).acting(at@),
                r@,
                prefixes(final(self).granted()),
            ),
            old(self).verdict_on(call@, node_gate, survey.seen@) !is Gated ==> final(self).granted()
                == old(self).granted(),
            final(self).granted().take(old(self).granted().len() as int) == old(self).granted(),
            final(self).is_kin(*old(self)),
            forall|t: Seq<char>| #[trigger] final(self).acting(t) == old(self).acting(t),
    {
        let verdict = self.judge(&call, node_gate, survey);
        match verdict {
            Verdict::Gated { reason, consentable } => {
                let decision = self.authority.inner.ask(&call, reason, consentable);
                assert(self.may_answer(call@, reason, consentable, decision@));
                self.answer(call, consentable, decision, at)
            },
            _ => {
                assert(self.consents@.take(self.consents@.len() as int) =~= self.consents@);
                self.rule(call, &verdict, at)
            },
        }
    }

    /// The first place that has to be looked at before a call can be judged and
    /// performed, or nothing where the survey shows all that it takes.
    pub fn next_to_look_at(&self, call: &ToolCall, survey: &Survey) -> (r: Option<FilePath>)
        ensures
            r is Some == unknown_among(judged_paths(call@), self.root_text(), survey.seen@) is Some,
            r matches Some(p) ==> Some(p@) == unknown_among(
                judged_paths(call@),
                self.root_text(),
                survey.seen@,
            ),
    {
        let paths = match call {
            ToolCall::ApplyPatch { diff } => patch_paths(diff.as_str()),
            _ => paths_of(call),
        };
        let ghost all = journal::path_texts(paths@);
        let mut i: usize = 0;
        assert(all.skip(0) =~= all);
        while i < paths.len()
            invariant
                i <= paths.len(),
                all == journal::path_texts(paths@),
                all == judged_paths(call@),
                unknown_among(all.skip(i as int), self.root_text(), survey.seen@) == unknown_among(
                    all,
                    self.root_text(),
                    survey.seen@,
                ),
            decreases paths.len() - i,
        {
            assert(all.skip(i as int)[0] == paths@[i as int]@);
            assert(all.skip(i as int).drop_first() =~= all.skip(i + 1));
            let found = next_to_look_at(&paths[i], &self.root, survey);
            if found.is_some() {
                return found;
            }
            i = i + 1;
        }
        None
    }
}

/// What is to become of a call that is allowed or forbidden outright.
pub open spec fn plain_ruling(call: Call, verdict: Verdict, by: Actor) -> Ruling {
    match verdict {
        Verdict::Forbidden { reason } => Ruling::Refused {
            entry: refused_entry(call, "Forbidden"@, refusal(reason), by),
            why: refusal(reason),
        },
        _ => Ruling::Perform { call, verdict: "Allowed"@ },
    }
}

/// The paths that a call is judged by.
pub open spec fn judged_paths(call: Call) -> Seq<Seq<char>> {
    match call {
        Call::ApplyPatch { diff } => patched_paths(split::lines(diff)),
        _ => named_paths(call),
    }
}

/// The first place on the way to the paths of which nothing is known.
pub open spec fn unknown_among(
    v: Seq<Seq<char>>,
    root: Seq<char>,
    seen: Seq<(Seq<char>, Sight)>,
) -> Option<Seq<char>>
    decreases v.len(),
{
    if v.len() == 0 {
        None
    } else {
        match sandbox::unknown_place(v[0], root, seen) {
            Some(place) => Some(place),
            None => unknown_among(v.drop_first(), root, seen),
        }
    }
}
// ----------------------------------------------------------------------------- laws

/// However a gate is answered that no consent opens, nothing is widened.
pub proof fn law_the_floor_takes_no_consent(covered: Seq<Seq<char>>, choice: Choice)
    ensures
        widened(covered, false, choice) == covered,
{
}

/// A call is widened for only by a consent, and then by its one prefix: what was
/// covered stays covered.
pub proof fn law_nothing_but_a_consent_widens(covered: Seq<Seq<char>>, consentable: bool, choice: Choice)
    ensures
        widened(covered, consentable, choice) == covered || (choice matches Choice::ApproveWithConsent { prefix }
            && consentable && widened(covered, consentable, choice) == covered.push(prefix)),
{
}

/// Once a consent covers the place a write leads to, inside the root, the same
/// question is not asked again, in any mode.
pub proof fn law_a_consent_stops_the_second_question(
    call: Call,
    root: Seq<char>,
    mode: PermissionMode,
    consents: Seq<ScopedConsent>,
    i: int,
    source_roots: Seq<FilePath>,
    look: spec_fn(Seq<char>) -> Seen,
)
    requires
        sandbox::write_path(call) is Some,
        sandbox::resolved(sandbox::write_path(call)->0, root, look) is Some,
        paths::under(sandbox::resolved(sandbox::write_path(call)->0, root, look)->0, root),
        0 <= i < consents.len(),
        paths::under(sandbox::resolved(sandbox::write_path(call)->0, root, look)->0, consents[i].prefix@),
    ensures
        sandbox::verdict(call, root, mode, consents, false, source_roots, look) == Verdict::Allowed,
{
    let p = sandbox::resolved(sandbox::write_path(call)->0, root, look)->0;
    assert(paths::under(p, consents[i].prefix@));
    assert(sandbox::is_consented(p, consents));
}

/// Where the authority can only reject a gated call, the call is refused, and
/// nothing more is consented to than before.
pub proof fn law_what_the_authority_rejects_is_refused<'a>(
    d: Dispatcher<'a>,
    call: Call,
    node_gate: bool,
    seen: Seq<(Seq<char>, Sight)>,
    by: Actor,
    ruling: Ruling,
    covered: Seq<Seq<char>>,
)
    requires
        d.verdict_on(call, node_gate, seen) matches Verdict::Gated { reason, consentable } && (forall|choice: Choice|
            #[trigger] d.may_answer(call, reason, consentable, choice) ==> choice is Reject),
        d.may_rule(call, node_gate, seen, by, ruling, covered),
    ensures
        ruling is Refused,
        covered == prefixes(d.granted()),
{
}

/// A gated call is performed only where the authority approves it: what is
/// performed is that call, or the one that the authority put in its place.
pub proof fn law_a_gated_call_needs_an_approval<'a>(
    d: Dispatcher<'a>,
    call: Call,
    node_gate: bool,
    seen: Seq<(Seq<char>, Sight)>,
    by: Actor,
    ruling: Ruling,
    covered: Seq<Seq<char>>,
)
    requires
        d.verdict_on(call, node_gate, seen) is Gated,
        d.may_rule(call, node_gate, seen, by, ruling, covered),
        ruling is Perform,
    ensures
        d.verdict_on(call, node_gate, seen) matches Verdict::Gated { reason, consentable } && exists|choice: Choice|
            {
                &&& #[trigger] d.may_answer(call, reason, consentable, choice)
                &&& choice !is Reject
                &&& ruling->Perform_call == (match choice {
                    Choice::Edit { call: edited } => edited,
                    _ => call,
                })
            },
{
}

/// A call that is not performed is recorded as one, with the reason that the
/// agent is told.
pub proof fn law_what_is_declined_is_recorded(call: Call, verdict: Verdict, consentable: bool, choice: Choice, by: Actor)
    ensures
        ruling_on(call, consentable, choice, by) matches Ruling::Refused { entry, why } ==> entry.verdict
            == "Rejected"@ && entry.note == Some(why) && entry.effect == effect(call),
        plain_ruling(call, verdict, by) matches Ruling::Refused { entry, why } ==> entry.verdict == "Forbidden"@
            && entry.note == Some(why) && entry.effect == effect(call),
{
}

/// A call that is refused leaves no trace in what rollback considers: its entry
/// names paths that the run never touched.
pub proof fn law_a_refusal_is_no_mutation(entries: Seq<Entry>, e: Entry, call: Call, why: Seq<char>, by: Actor)
    requires
        e@ == refused_entry(call, "Rejected"@, why, by) || e@ == refused_entry(call, "Forbidden"@, why, by),
    ensures
        journal::touched(entries.push(e)) == journal::touched(entries),
{
    journal::law_only_mutations_are_considered(entries, e);
}

/// Where a survey shows all it takes to judge a call, it is judged as the disk
/// itself would have it judged.
pub proof fn law_a_whole_survey_judges_as_the_disk_does(
    call: Call,
    root: Seq<char>,
    mode: PermissionMode,
    consents: Seq<ScopedConsent>,
    node_gate: bool,
    source_roots: Seq<FilePath>,
    seen: Seq<(Seq<char>, Sight)>,
    disk: spec_fn(Seq<char>) -> Seen,
)
    requires
        forall|place: Seq<char>| #[trigger]
            crate::table::lookup(seen, place) matches Some(s) ==> s@ == disk(place),
        unknown_among(judged_paths(call), root, seen) is None,
    ensures
        sandbox::verdict(call, root, mode, consents, node_gate, source_roots, sandbox::shown(seen))
            == sandbox::verdict(call, root, mode, consents, node_gate, source_roots, disk),
{
    let v = judged_paths(call);
    if !(call is ApplyPatch) && v.len() > 0 {
        sandbox::law_survey_is_enough(v[0], root, seen, disk);
    }
}

/// What becomes of a gated call is what the authority said: it is refused with the
/// reason given, or performed as it is, or performed as the authority put it; and
/// it is known afterwards which of these it was.
pub proof fn law_a_ruling_follows_the_answer(
    call: Call,
    edited: Call,
    note: Seq<char>,
    prefix: Seq<char>,
    consentable: bool,
    by: Actor,
)
    ensures
        ruling_on(call, consentable, Choice::Reject { note }, by) matches Ruling::Refused { why, entry } && why == note
            && entry.verdict == "Rejected"@ && entry.note == Some(note),
        ruling_on(call, consentable, Choice::Approve, by) == (Ruling::Perform { call, verdict: "Approved"@ }),
        ruling_on(call, consentable, Choice::Edit { call: edited }, by) == (Ruling::Perform {
            call: edited,
            verdict: "Approved after edit"@,
        }),
        ruling_on(call, true, Choice::ApproveWithConsent { prefix }, by) == (Ruling::Perform {
            call,
            verdict: "Approved with consent"@,
        }),
        ruling_on(call, false, Choice::ApproveWithConsent { prefix }, by) == (Ruling::Perform {
            call,
            verdict: "Approved (consent refused: floor)"@,
        }),
{
}

/// A call that needs no answer is performed where it is allowed, and refused with
/// the reason where it is forbidden.
pub proof fn law_a_plain_verdict_is_carried_out(call: Call, verdict: Verdict, by: Actor)
    requires
        !(verdict is Gated),
    ensures
        verdict is Allowed ==> plain_ruling(call, verdict, by) == (Ruling::Perform { call, verdict: "Allowed"@ }),
        verdict matches Verdict::Forbidden { reason } ==> (plain_ruling(call, verdict, by) matches Ruling::Refused {
            entry,
            why,
        } && why == refusal(reason) && entry.verdict == "Forbidden"@ && entry.note == Some(why)),
{
}

/// A refusal is recorded as what it was a refusal of: who asked and when, what it
/// would have done, to which paths or by which command, and why it was not done.
pub proof fn law_a_refusal_says_what_was_refused(call: Call, verdict: Seq<char>, why: Seq<char>, by: Actor)
    ensures
        ({
            let e = refused_entry(call, verdict, why, by);
            &&& e.at == by.at && e.node == by.node && e.attempt == by.attempt
            &&& e.verdict == verdict && e.note == Some(why) && e.exit_code is None
            &&& e.existed_before.len() == 0
            &&& call matches Call::ReadFile { path } ==> e.effect == Effect::Read && e.paths == seq![path]
            &&& call matches Call::WriteFile { path, .. } ==> e.effect == Effect::Wrote && e.paths == seq![path]
            &&& call matches Call::ReplaceInFile { path, .. } ==> e.effect == Effect::Wrote && e.paths == seq![path]
            &&& call matches Call::AppendToFile { path, .. } ==> e.effect == Effect::Wrote && e.paths == seq![path]
            &&& call matches Call::DeleteFile { path } ==> e.effect == Effect::Deleted && e.paths == seq![path]
            &&& call matches Call::RunCommand { program, args } ==> e.effect == Effect::Ran && e.command == Some(
                program + " "@ + split::join(args, " "@),
            )
            &&& call is ApplyPatch ==> e.effect == Effect::Wrote
            &&& call is Search ==> e.effect == Effect::Searched
            &&& !(call is RunCommand) ==> e.command is None
        }),
{
}

/// A header names the file that follows its mark and its side.
pub proof fn law_a_header_names_its_file(line: Seq<char>, mark: Seq<char>, side: Seq<char>, name: Seq<char>)
    requires
        line == mark + side + name,
        text::trim(side + name) == side + name,
        side + name != "/dev/null"@,
        !name.contains('\t'),
    ensures
        named_after(line, mark, side) == Some(name),
{
    reveal_strlit("\t");
    let rest = side + name;
    assert(line =~= mark + rest);
    assert(line.take(mark.len() as int) =~= mark);
    assert(line.subrange(0, mark.len() as int) =~= mark);
    assert(line.skip(mark.len() as int) =~= rest);
    assert(text::after_prefix(line, mark) == Some(rest));
    assert(rest.take(side.len() as int) =~= side);
    assert(rest.subrange(0, side.len() as int) =~= side);
    assert(rest.skip(side.len() as int) =~= name);
    let at = split::Cut::Any("\t"@);
    assert forall|j: int| 0 <= j < name.len() implies !split::cuts(at, #[trigger] name[j]) by {
        if split::cuts(at, name[j]) {
            let i = choose|i: int| 0 <= i < "\t"@.len() && "\t"@[i] == name[j];
            assert(name.contains('\t'));
        }
    }
    split::law_what_is_not_cut_is_one_piece(name, at);
}

proof fn lemma_with_path(before: Seq<Seq<char>>, named: Option<Seq<char>>, path: Seq<char>)
    ensures
        is_among(before, path) ==> is_among(with_path(before, named), path),
        named == Some(path) ==> is_among(with_path(before, named), path),
{
    let after = with_path(before, named);
    if is_among(before, path) {
        let i = choose|i: int| 0 <= i < before.len() && paths::comps(#[trigger] before[i]) == paths::comps(path);
        assert(after[i] == before[i]);
    }
    if named == Some(path) && !is_among(before, path) {
        assert(after[before.len() as int] == path);
    }
}

/// Every file that a header of a diff gives a new state is a target of it.
pub proof fn law_every_header_names_a_target(lines: Seq<Seq<char>>, i: int, name: Seq<char>)
    requires
        0 <= i < lines.len(),
        named_after(lines[i], "+++ "@, "b/"@) == Some(name),
    ensures
        is_among(targets_of(lines), name),
        is_among(patched_paths(lines), name),
{
    lemma_targets(lines, i, name);
    lemma_with_deleted(targets_of(lines), lines, name);
}

proof fn lemma_targets(lines: Seq<Seq<char>>, i: int, name: Seq<char>)
    requires
        0 <= i < lines.len(),
        named_after(lines[i], "+++ "@, "b/"@) == Some(name),
    ensures
        is_among(targets_of(lines), name),
    decreases lines.len(),
{
    let head = lines.drop_last();
    lemma_with_path(targets_of(head), named_after(lines.last(), "+++ "@, "b/"@), name);
    if i < head.len() {
        lemma_targets(head, i, name);
    }
}

proof fn lemma_with_deleted(paths: Seq<Seq<char>>, lines: Seq<Seq<char>>, name: Seq<char>)
    requires
        is_among(paths, name),
    ensures
        is_among(with_deleted(paths, lines), name),
    decreases lines.len(),
{
    if lines.len() > 0 {
        lemma_with_deleted(paths, lines.drop_last(), name);
        lemma_with_path(with_deleted(paths, lines.drop_last()), deleted_by(lines), name);
    }
}

/// Every file that a diff deletes is touched by it.
pub proof fn law_every_deletion_is_touched(lines: Seq<Seq<char>>, i: int, name: Seq<char>)
    requires
        0 < i < lines.len(),
        named_after(lines[i - 1], "--- "@, "a/"@) == Some(name),
        text::after_prefix(lines[i], "+++ "@) matches Some(rest) && text::trim(rest) == "/dev/null"@,
    ensures
        is_among(patched_paths(lines), name),
{
    lemma_deletion(targets_of(lines), lines, i, name);
}

proof fn lemma_deletion(paths: Seq<Seq<char>>, lines: Seq<Seq<char>>, i: int, name: Seq<char>)
    requires
        0 < i < lines.len(),
        named_after(lines[i - 1], "--- "@, "a/"@) == Some(name),
        leaves_no_file(lines[i]),
    ensures
        is_among(with_deleted(paths, lines), name),
    decreases lines.len(),
{
    let head = lines.drop_last();
    lemma_with_path(with_deleted(paths, head), deleted_by(lines), name);
    if i < head.len() {
        lemma_deletion(paths, head, i, name);
    }
}

/// A diff has no target but those that its headers name, and each of them once.
pub proof fn law_a_target_is_named_by_a_header(lines: Seq<Seq<char>>, k: int) -> (i: int)
    requires
        0 <= k < targets_of(lines).len(),
    ensures
        0 <= i < lines.len(),
        named_after(lines[i], "+++ "@, "b/"@) == Some(targets_of(lines)[k]),
        forall|a: int, b: int|
            0 <= a < b < targets_of(lines).len() ==> paths::comps(#[trigger] targets_of(lines)[a]) != paths::comps(
                #[trigger] targets_of(lines)[b],
            ),
    decreases lines.len(),
{
    let head = lines.drop_last();
    let before = targets_of(head);
    if before.len() > 0 {
        let _ = law_a_target_is_named_by_a_header(head, 0);
    }
    let all = targets_of(lines);
    assert forall|a: int, b: int| 0 <= a < b < all.len() implies paths::comps(#[trigger] all[a]) != paths::comps(
        #[trigger] all[b],
    ) by {
        if b == before.len() {
            assert(all[a] == before[a]);
            if paths::comps(before[a]) == paths::comps(all[b]) {
                assert(is_among(before, all[b]));
            }
        } else {
            assert(all[a] == before[a] && all[b] == before[b]);
        }
    }
    if k < before.len() {
        law_a_target_is_named_by_a_header(head, k)
    } else {
        lines.len() - 1
    }
}

/// What is kept where a dispatcher acts for another node: where it works, what it
/// may do, where it records, how long it waits, and whom it asks.
pub proof fn law_kin_differ_only_in_whom_they_act_for<'a>(
    a: Dispatcher<'a>,
    b: Dispatcher<'a>,
    c: Dispatcher<'a>,
    call: Call,
    reason: GateReason,
    consentable: bool,
    choice: Choice,
)
    ensures
        a.is_kin(a),
        a.is_kin(b) && b.is_kin(c) ==> a.is_kin(c),
        a.is_kin(b) ==> {
            &&& a.root_text() == b.root_text() && a.permission() == b.permission() && a.sources() == b.sources()
            &&& a.kept_in() == b.kept_in() && a.timeout() == b.timeout()
            &&& a.may_answer(call, reason, consentable, choice) == b.may_answer(call, reason, consentable, choice)
        },
{
}

} // verus!
