//! The dispatcher is the only thing that acts, so these tests are about what it
//! refuses to do and what it records having done.

use std::sync::Mutex;

use minions_core::dispatcher::{
    answer_within_floor, name_of_reason, patch_paths, patch_targets, show_command, Dispatched, Dispatcher, GateAuthority,
    GateDecision, Outcome,
};
use minions_core::floor::GateReason;
use minions_core::journal::{Effect, Entry, Journal};
use minions_core::paths::FilePath;
use minions_core::sandbox::{PermissionMode, Sight, Survey, ToolCall};
use minions_core::work::{append_text, replace_fragment, Progress, Reply, Work};

struct Scripted {
    answers: Mutex<Vec<GateDecision>>,
    asked: Mutex<Vec<(GateReason, bool)>>,
}

impl Scripted {
    fn new(answers: Vec<GateDecision>) -> Self {
        Self { answers: Mutex::new(answers), asked: Mutex::new(Vec::new()) }
    }
    fn asked(&self) -> Vec<(GateReason, bool)> {
        self.asked.lock().unwrap().clone()
    }
}

impl GateAuthority for Scripted {
    fn ask(&self, _call: &ToolCall, reason: GateReason, consentable: bool) -> GateDecision {
        self.asked.lock().unwrap().push((reason, consentable));
        let mut a = self.answers.lock().unwrap();
        if a.is_empty() {
            GateDecision::Reject { note: "no answer scripted".into() }
        } else {
            a.remove(0)
        }
    }
}

fn path(text: &str) -> FilePath {
    FilePath::new(text)
}

/// A disk, and the entries that were written down.
#[derive(Default)]
struct World {
    files: Vec<(FilePath, String)>,
    links: Vec<(FilePath, FilePath)>,
    entries: Vec<Entry>,
    patched: Vec<String>,
    ran: Vec<String>,
}

impl World {
    fn read(&self, at: &FilePath) -> Option<String> {
        self.files.iter().find(|(p, _)| p == at).map(|(_, t)| t.clone())
    }

    fn write(&mut self, at: &FilePath, text: &str) {
        self.remove(at);
        self.files.push((at.clone(), text.to_string()));
    }

    fn remove(&mut self, at: &FilePath) {
        self.files.retain(|(p, _)| p != at);
    }

    fn survey(&self, d: &Dispatcher<'_>, call: &ToolCall) -> Survey {
        let mut survey = Survey::new();
        while let Some(place) = d.next_to_look_at(call, &survey) {
            let sight = match self.links.iter().find(|(p, _)| *p == place) {
                Some((_, to)) => Sight::Link(to.clone()),
                None => Sight::Plain,
            };
            survey.note(&place, sight);
        }
        survey
    }

    fn work(&mut self, work: &Work) -> Reply {
        match work {
            Work::Read { path } | Work::BeforeReplace { path, .. } => match self.read(path) {
                Some(text) => Reply::Text(text),
                None => Reply::Failed("no such file".into()),
            },
            Work::BeforeWrite { path, .. } | Work::BeforeDelete { path } => Reply::There(self.read(path).is_some()),
            Work::BeforeAppend { path, .. } => {
                Reply::Held { there: self.read(path).is_some(), text: self.read(path).unwrap_or_default() }
            }
            Work::BeforePatch { paths, .. } => Reply::Which(paths.iter().map(|p| self.read(p).is_some()).collect()),
            Work::Store { path, content, .. } => {
                self.write(path, content);
                Reply::Done
            }
            Work::Remove { path } => {
                self.remove(path);
                Reply::Done
            }
            Work::Patch { diff, .. } => {
                self.patched.push(diff.clone());
                let broken = diff.contains("broken");
                Reply::Exited {
                    code: Some(if broken { 1 } else { 0 }),
                    stdout: String::new(),
                    stderr: if broken { "patch does not apply".into() } else { String::new() },
                }
            }
            Work::Run { program, args } => {
                self.ran.push(show_command(program, args));
                Reply::Exited { code: Some(0), stdout: "/p\n".into(), stderr: String::new() }
            }
        }
    }

    fn dispatch(&mut self, d: &mut Dispatcher<'_>, call: ToolCall, node_gate: bool) -> Result<Outcome, String> {
        let survey = self.survey(d, &call);
        let (call, verdict) = match d.dispatch(call, node_gate, &survey, "now") {
            Dispatched::Refused { entry, why } => {
                self.entries.push(entry);
                return Ok(Outcome::Refused(why));
            }
            Dispatched::Perform { call, verdict } => (call, verdict),
        };
        let survey = self.survey(d, &call);
        let mut progress = d.begin(call, verdict, &survey, "now");
        loop {
            match progress {
                Progress::Do(work) => {
                    let reply = self.work(&work);
                    assert!(work.suits(&reply));
                    progress = d.proceed(work, reply, verdict, "now");
                }
                Progress::End { entry, outcome } => {
                    self.entries.extend(entry);
                    return outcome;
                }
            }
        }
    }
}

fn dispatcher<'a>(mode: PermissionMode, auth: &'a Scripted) -> Dispatcher<'a> {
    let j = Journal::create(&path("/p/run"));
    let mut d = Dispatcher::new(&path("/p"), mode, vec![path("Sources")], auth, j);
    d.for_node("coder", 1);
    d
}

#[test]
fn a_write_inside_the_root_is_asked_about_and_then_performed() {
    let auth = Scripted::new(vec![GateDecision::Approve]);
    let mut world = World::default();
    let mut d = dispatcher(PermissionMode::AskForEverything, &auth);

    let target = path("/p/Sources/new.swift");
    let out = world
        .dispatch(&mut d, ToolCall::WriteFile { path: target.clone(), content: "code".into() }, false)
        .unwrap();

    assert_eq!(out, Outcome::Wrote);
    assert_eq!(world.read(&target).unwrap(), "code");
    assert_eq!(auth.asked().len(), 1);

    let entries = &world.entries;
    assert_eq!(entries.len(), 1);
    assert_eq!(entries[0].effect, Effect::Wrote);
    assert_eq!(entries[0].verdict, "Approved");
    assert_eq!(entries[0].existed_before, vec![false], "a new file must be recorded as new");
    assert_eq!((entries[0].node.as_str(), entries[0].attempt), ("coder", 1));
    assert_eq!(d.journal().path(), &path("/p/run/journal.jsonl"));
}

#[test]
fn a_rejected_gate_leaves_the_disk_untouched_and_tells_the_agent() {
    let auth = Scripted::new(vec![GateDecision::Reject { note: "not this file".into() }]);
    let mut world = World::default();
    let mut d = dispatcher(PermissionMode::AskForEverything, &auth);

    let target = path("/p/Sources/new.swift");
    let out = world
        .dispatch(&mut d, ToolCall::WriteFile { path: target.clone(), content: "code".into() }, false)
        .unwrap();

    assert!(matches!(out, Outcome::Refused(ref s) if s.contains("not this file")));
    assert!(world.read(&target).is_none(), "a rejected write must not reach the disk");
    assert_eq!(world.entries[0].verdict, "Rejected");
    assert_eq!(world.entries.len(), 1);
    assert_eq!(auth.asked(), vec![(GateReason::WriteInsideRoot, true)], "asked once, and about that");
    assert!(d.consents().is_empty());
    assert!(Journal::mutated_paths(&world.entries).is_empty(), "rollback has nothing to consider");
}

#[test]
fn reading_outside_the_root_is_refused_without_being_asked() {
    let auth = Scripted::new(vec![]);
    let mut world = World::default();
    let mut d = dispatcher(PermissionMode::DoNotAskInsideSandbox, &auth);

    let out = world.dispatch(&mut d, ToolCall::ReadFile { path: path("/etc/hosts") }, false).unwrap();
    assert!(matches!(out, Outcome::Refused(_)));
    assert!(auth.asked().is_empty(), "a forbidden read must not reach a human");
}

#[test]
fn consent_is_refused_for_floor_categories_even_when_offered() {
    let auth = Scripted::new(vec![GateDecision::ApproveWithConsent { prefix: path("/") }]);
    let mut world = World::default();
    let mut d = dispatcher(PermissionMode::DoNotAskInsideSandbox, &auth);

    let victim = path("/p/Sources/old.swift");
    world.write(&victim, "x");

    let out = world.dispatch(&mut d, ToolCall::DeleteFile { path: victim.clone() }, false).unwrap();
    assert_eq!(out, Outcome::Deleted);
    assert!(world.read(&victim).is_none());
    assert!(d.consents().is_empty(), "the floor must not accept a consent");

    let (reason, consentable) = auth.asked()[0];
    assert_eq!(reason, GateReason::Delete);
    assert!(!consentable);
}

#[test]
fn granted_consent_stops_the_second_question() {
    let root = path("/p");
    let j = Journal::create(&path("/p/run"));
    let auth2 = Scripted::new(vec![GateDecision::ApproveWithConsent { prefix: root.join("Sources") }]);
    let mut world = World::default();
    let mut d = Dispatcher::new(&root, PermissionMode::AskForEverything, vec![], &auth2, j);
    d.for_node("coder", 1);

    world
        .dispatch(&mut d, ToolCall::WriteFile { path: root.join("Sources/a.swift"), content: "a".into() }, false)
        .unwrap();
    world
        .dispatch(&mut d, ToolCall::WriteFile { path: root.join("Sources/b.swift"), content: "b".into() }, false)
        .unwrap();

    assert_eq!(auth2.asked().len(), 1, "the second write should be covered by consent");
    assert!(world.read(&root.join("Sources/b.swift")).is_some());
}

#[test]
fn an_explicit_node_gate_is_asked_even_in_the_permissive_mode() {
    let auth = Scripted::new(vec![GateDecision::Approve]);
    let mut world = World::default();
    let mut d = dispatcher(PermissionMode::DoNotAskInsideSandbox, &auth);

    world
        .dispatch(&mut d, ToolCall::WriteFile { path: path("/p/Sources/x.swift"), content: "x".into() }, true)
        .unwrap();

    assert_eq!(auth.asked().len(), 1);
    assert_eq!(auth.asked()[0].0, GateReason::NodeGate);
}

#[test]
fn a_command_runs_in_the_project_root_with_a_constructed_environment() {
    let auth = Scripted::new(vec![GateDecision::Approve]);
    let mut world = World::default();
    let mut d = dispatcher(PermissionMode::DoNotAskInsideSandbox, &auth);

    let out =
        world.dispatch(&mut d, ToolCall::RunCommand { program: "pwd".into(), args: vec![] }, false).unwrap();

    match out {
        Outcome::Ran { exit_code, stdout, .. } => {
            assert_eq!(exit_code, 0);
            assert_eq!(path(stdout.trim()), *d.root());
        }
        other => panic!("expected Ran, got {other:?}"),
    }
    assert_eq!(auth.asked()[0].0, GateReason::Command, "every command asks");
    assert_eq!(world.entries[0].command.as_deref(), Some("pwd "));
    assert_eq!(world.entries[0].exit_code, Some(0));
}

#[test]
fn patch_targets_are_taken_from_the_diff_headers() {
    let diff = "diff --git a/Sources/a.swift b/Sources/a.swift\n\
                --- a/Sources/a.swift\n\
                +++ b/Sources/a.swift\n\
                @@ -1 +1 @@\n\
                -old\n\
                +new\n\
                --- /dev/null\n\
                +++ b/Sources/b.swift\n";
    let t = patch_targets(diff);
    assert_eq!(t, vec![path("Sources/a.swift"), path("Sources/b.swift")]);
}

#[test]
fn a_file_that_a_patch_deletes_is_no_target_but_is_touched() {
    let diff = "--- a/Sources/a.swift\n+++ /dev/null\n@@ -1 +0,0 @@\n-old\n\
                --- a/Sources/b.swift\n+++ b/Sources/b.swift\n@@ -1 +1 @@\n-old\n+new\n";
    assert_eq!(patch_targets(diff), vec![path("Sources/b.swift")]);
    assert_eq!(patch_paths(diff), vec![path("Sources/b.swift"), path("Sources/a.swift")]);
    assert!(patch_targets("--- a/Sources/a.swift\n+++ /dev/null\n").is_empty());
    assert!(patch_paths("--- /dev/null\n+++ /dev/null\n").is_empty());
    assert!(patch_paths("+++ /dev/null\n").is_empty());
}

#[test]
fn a_patch_deleting_outside_the_root_is_refused_before_git_sees_it() {
    let auth = Scripted::new(vec![]);
    let mut world = World::default();
    let mut d = dispatcher(PermissionMode::DoNotAskInsideSandbox, &auth);
    let diff = "--- a/../../escape.swift\n+++ /dev/null\n@@ -1 +0,0 @@\n-a\n\
                --- a/x\n+++ b/x\n@@ -1 +1 @@\n-a\n+b\n";
    let out = world.dispatch(&mut d, ToolCall::ApplyPatch { diff: diff.into() }, false).unwrap();
    assert!(matches!(out, Outcome::Refused(_)), "{out:?}");
    assert!(world.patched.is_empty());
}

#[test]
fn a_patch_reaching_outside_the_root_is_refused_before_git_sees_it() {
    let auth = Scripted::new(vec![]);
    let mut world = World::default();
    let mut d = dispatcher(PermissionMode::DoNotAskInsideSandbox, &auth);

    let diff = "--- a/x\n+++ b/../../escape.swift\n@@ -1 +1 @@\n-a\n+b\n";
    let out = world.dispatch(&mut d, ToolCall::ApplyPatch { diff: diff.into() }, false).unwrap();
    assert!(matches!(out, Outcome::Refused(_)), "patch escaping the root must be refused");
    assert!(world.patched.is_empty());
}

#[test]
fn a_patch_through_a_link_out_of_the_root_is_refused_too() {
    let auth = Scripted::new(vec![GateDecision::Approve]);
    let mut world = World { links: vec![(path("/p/out"), path("/elsewhere"))], ..World::default() };
    let mut d = dispatcher(PermissionMode::DoNotAskInsideSandbox, &auth);

    let diff = "--- a/out/x\n+++ b/out/x\n@@ -1 +1 @@\n-a\n+b\n";
    let out = world.dispatch(&mut d, ToolCall::ApplyPatch { diff: diff.into() }, false).unwrap();
    assert!(matches!(out, Outcome::Refused(_)), "{out:?}");
    assert!(world.patched.is_empty());
}

#[test]
fn a_patch_inside_the_root_goes_to_git_and_records_what_was_there() {
    let auth = Scripted::new(vec![
        GateDecision::Approve,
        GateDecision::Approve,
        GateDecision::Approve,
        GateDecision::Approve,
    ]);
    let mut world = World::default();
    world.write(&path("/p/Sources/a.swift"), "old\n");
    let mut d = dispatcher(PermissionMode::AskForEverything, &auth);

    let diff = "--- a/Sources/a.swift\n+++ b/Sources/a.swift\n@@ -1 +1 @@\n-old\n+new\n--- /dev/null\n+++ b/Sources/b.swift\n";
    let out = world.dispatch(&mut d, ToolCall::ApplyPatch { diff: diff.into() }, false).unwrap();
    assert_eq!(out, Outcome::Wrote);
    assert_eq!(world.patched, vec![diff.to_string()]);
    let last = world.entries.last().unwrap();
    assert_eq!(last.paths, vec![path("/p/Sources/a.swift"), path("/p/Sources/b.swift")]);
    assert_eq!(last.existed_before, vec![true, false]);

    let mixed = "--- a/Sources/a.swift\n+++ /dev/null\n@@ -1 +0,0 @@\n-new\n--- /dev/null\n+++ b/Sources/c.swift\n";
    let out = world.dispatch(&mut d, ToolCall::ApplyPatch { diff: mixed.into() }, false).unwrap();
    assert_eq!(out, Outcome::Wrote);
    let last = world.entries.last().unwrap();
    assert_eq!(
        last.paths,
        vec![path("/p/Sources/c.swift"), path("/p/Sources/a.swift")],
        "a deletion is recorded with the targets"
    );
    assert_eq!(last.existed_before, vec![false, true]);

    let removal = "--- a/Sources/a.swift\n+++ /dev/null\n@@ -1 +0,0 @@\n-new\n";
    let out = world.dispatch(&mut d, ToolCall::ApplyPatch { diff: removal.into() }, false);
    assert_eq!(out, Err("the patch names no target files".to_string()));

    let broken = "--- a/Sources/a.swift\n+++ b/Sources/a.swift\nbroken\n";
    let out = world.dispatch(&mut d, ToolCall::ApplyPatch { diff: broken.into() }, false);
    let told = match out {
        Ok(Outcome::Refused(why)) => why,
        Err(why) => why,
        other => panic!("{other:?}"),
    };
    assert!(told.contains("patch does not apply"), "{told}");
}

#[test]
fn a_fragment_is_replaced_only_where_it_stands_once() {
    assert_eq!(replace_fragment("a b c", "f.txt", "b", "x"), Ok("a x c".to_string()));
    let none = replace_fragment("a b c", "f.txt", "z", "x").unwrap_err();
    assert!(none.contains("f.txt"), "{none}");
    let twice = replace_fragment("b b", "f.txt", "b", "x").unwrap_err();
    assert!(twice.contains('2'), "{twice}");
}

#[test]
fn an_append_starts_on_a_line_of_its_own() {
    assert_eq!(append_text("", "x"), "x\n");
    assert_eq!(append_text("a\n", "x\n"), "a\nx\n");
    assert_eq!(append_text("a", "x\n"), "a\nx\n");
}

#[test]
fn an_edit_by_the_human_is_what_is_performed() {
    let edited = ToolCall::WriteFile { path: path("/p/Sources/other.swift"), content: "mine".into() };
    let auth = Scripted::new(vec![GateDecision::Edit { call: edited }]);
    let mut world = World::default();
    let mut d = dispatcher(PermissionMode::AskForEverything, &auth);
    let call = ToolCall::WriteFile { path: path("/p/Sources/new.swift"), content: "theirs".into() };
    assert_eq!(world.dispatch(&mut d, call, false).unwrap(), Outcome::Wrote);
    assert_eq!(world.read(&path("/p/Sources/other.swift")).as_deref(), Some("mine"));
    assert!(world.read(&path("/p/Sources/new.swift")).is_none());
}

#[test]
fn what_was_there_before_is_written_down() {
    let auth = Scripted::new(vec![]);
    let mut world = World::default();
    world.write(&path("/p/notes.md"), "one");
    let mut d = dispatcher(PermissionMode::DoNotAskInsideSandbox, &auth);
    let more = ToolCall::AppendToFile { path: path("notes.md"), content: "two".into() };
    assert_eq!(world.dispatch(&mut d, more, false).unwrap(), Outcome::Wrote);
    assert_eq!(world.read(&path("/p/notes.md")).as_deref(), Some("one\ntwo\n"));
    let entry = world.entries.last().unwrap();
    assert_eq!((entry.verdict.as_str(), &entry.existed_before), ("Allowed", &vec![true]));

    let read = ToolCall::ReadFile { path: path("notes.md") };
    assert_eq!(world.dispatch(&mut d, read, false).unwrap(), Outcome::Read("one\ntwo\n".into()));
    let absent = ToolCall::ReadFile { path: path("absent.md") };
    assert!(world.dispatch(&mut d, absent, false).is_err());
}

#[test]
fn an_unattended_run_approves_what_is_above_the_floor_and_nothing_else() {
    assert!(matches!(answer_within_floor(GateReason::Command, true), GateDecision::Approve));
    assert!(matches!(answer_within_floor(GateReason::NodeGate, false), GateDecision::Approve));
    match answer_within_floor(GateReason::Network, false) {
        GateDecision::Reject { note } => assert_eq!(note, "Network is on the floor and needs a human"),
        other => panic!("{other:?}"),
    }
    assert_eq!(name_of_reason(GateReason::OpaqueCommand), "OpaqueCommand");
}

#[test]
fn a_command_has_a_time_it_may_take() {
    let auth = Scripted::new(vec![]);
    let mut d = dispatcher(PermissionMode::AskForEverything, &auth);
    d.set_command_timeout(7);
    assert_eq!(d.command_timeout(), 7);
}

#[test]
fn an_authority_that_only_rejects_has_every_gated_call_refused() {
    let auth = Scripted::new(vec![]);
    let mut world = World::default();
    world.write(&path("/p/Sources/a.swift"), "old\n");
    let mut d = dispatcher(PermissionMode::AskForEverything, &auth);
    let calls = vec![
        ToolCall::WriteFile { path: path("/p/Sources/b.swift"), content: "new".into() },
        ToolCall::DeleteFile { path: path("/p/Sources/a.swift") },
        ToolCall::RunCommand { program: "ls".into(), args: vec![] },
        ToolCall::RunCommand { program: "sudo".into(), args: vec!["id".into()] },
    ];
    let n = calls.len();
    for call in calls {
        let out = world.dispatch(&mut d, call, false).unwrap();
        assert_eq!(out, Outcome::Refused("no answer scripted".into()));
    }
    assert_eq!(auth.asked().len(), n, "each was put to the authority that was handed in");
    assert_eq!(world.read(&path("/p/Sources/a.swift")).as_deref(), Some("old\n"));
    assert!(world.read(&path("/p/Sources/b.swift")).is_none());
    assert!(world.ran.is_empty() && d.consents().is_empty());
}
