use minions_core::backend::ReplayBackend;
use minions_core::chat::{Message, ToolCallRequest};
use minions_core::document::{parse, Artifact};
use minions_core::engine::Engine;
use minions_core::graph::{Edge, Graph, Node, NodeKind};
use minions_core::outputs::{
    can_count, describe, extract_diff, numbered, parse_test_output, run_name, task_document, tool_document, truncate,
    TestCounts,
};
use minions_core::paths::FilePath;
use minions_core::report::compose_report;
use minions_core::run::{NodeState, RunState, TestBaseline};
use minions_core::sandbox::ToolCall;
use minions_core::table::Table;
use minions_core::tokens::CharRatioTokenizer;

#[test]
fn a_diff_is_found_fenced_or_not() {
    assert_eq!(extract_diff("Here:\n```diff\n--- a/x\n+++ b/x\n```\nDone."), "--- a/x\n+++ b/x\n");
    assert_eq!(extract_diff("I changed it.\n--- a/x\n+++ b/x"), "--- a/x\n+++ b/x\n");
    assert_eq!(extract_diff("```\n```\ndiff --git a/x b/x\n"), "diff --git a/x b/x\n");
}

#[test]
fn the_runners_own_summary_is_what_counts() {
    let green = parse_test_output("Ran 6 tests in 0.001s\n\nOK\n");
    assert_eq!(green, TestCounts { total: 6, failed: 0, conclusive: true });
    let red = parse_test_output("Ran 6 tests in 0.001s\n\nFAILED (failures=1, errors=2)\n");
    assert_eq!(red, TestCounts { total: 6, failed: 3, conclusive: true });
    let bare = parse_test_output("FAILED\n");
    assert_eq!(bare, TestCounts { total: 0, failed: 1, conclusive: true });
    assert_eq!(parse_test_output("command not found\n"), TestCounts { total: 0, failed: 0, conclusive: false });
    assert!(can_count("FAILED (failures=4294967295)"));
    assert!(!can_count("FAILED (failures=4294967295, errors=1)"));
}

#[test]
fn a_tool_result_becomes_a_document_without_a_model() {
    let tok = CharRatioTokenizer::default();
    let text = tool_document("r1", "tests", "make test", 1, "Ran 5 tests in 0.1s\n\nFAILED (failures=2)\n", "now");
    let d = parse(&text, &tok).unwrap();
    assert_eq!(d.header.artifact, Artifact::TestReport);
    assert_eq!(d.header.digest, "`make test` ran 5 tests, 2 failed (exit 1).");
    assert_eq!(d.header.results.get("passed").map(String::as_str), Some("3"));
    assert!(d.body.starts_with("$ make test\n\nRan 5 tests"), "{}", d.body);

    let silent = parse(&tool_document("r1", "tests", "make test", 0, "done\n", "now"), &tok).unwrap();
    assert_eq!(silent.header.results.get("conclusive").map(String::as_str), Some("no"));
    assert_eq!(silent.header.results.get("total"), None, "a missing count is not a zero");
}

#[test]
fn a_repeat_gets_a_name_of_its_own() {
    assert_eq!(numbered("03_changes.diff", 2), "03_changes.a2.diff");
    assert_eq!(numbered("notes", 3), "notes.a3");
}

#[test]
fn a_long_text_is_cut_and_says_so() {
    assert_eq!(truncate("abc", 3), "abc");
    assert_eq!(truncate("abcdef", 4), "abcd\n[... 2 more characters]");
    // The length is counted in bytes, the head in characters.
    assert_eq!(truncate("ééééé", 4), "éééé\n[... 6 more characters]");
}

#[test]
fn a_call_is_described_in_a_few_words() {
    let path = FilePath::new("src/a.rs");
    assert_eq!(describe(&ToolCall::ReadFile { path: path.clone() }), "read src/a.rs");
    let write = ToolCall::WriteFile { path: path.clone(), content: "one\ntwo\n".into() };
    assert_eq!(describe(&write), "wrote src/a.rs (2 lines)");
    let swap = ToolCall::ReplaceInFile { path: path.clone(), find: "x".into(), replace: "y\nz".into() };
    assert_eq!(describe(&swap), "replaced a fragment in src/a.rs (2 lines in)");
    let more = ToolCall::AppendToFile { path: path.clone(), content: "x".into() };
    assert_eq!(describe(&more), "appended 1 lines to src/a.rs");
    assert_eq!(describe(&ToolCall::DeleteFile { path }), "deleted src/a.rs");
    let ran = ToolCall::RunCommand { program: "bash".into(), args: vec!["-lc".into(), "make".into()] };
    assert_eq!(describe(&ran), "ran make");
    assert_eq!(describe(&ToolCall::ApplyPatch { diff: String::new() }), "applied a patch");
    assert_eq!(describe(&ToolCall::Search { query: "q".into(), limit: 1 }), "searched for q");
}

#[test]
fn a_run_is_named_by_its_time_and_its_workflow() {
    assert_eq!(run_name("2026-08-19T12-00-00", "Éclair Plan"), "2026-08-19T12-00-00_éclair-plan");
}

#[test]
fn the_task_is_a_document_too() {
    let d = parse(&task_document("r1", "Add a clock."), &CharRatioTokenizer::default()).unwrap();
    assert_eq!(d.header.artifact, Artifact::Task);
    assert_eq!(d.body, "Add a clock.");
}

fn node(id: &str, kind: NodeKind) -> Node {
    Node { id: id.into(), kind, role: None, slot: None, output: None, loop_limit: None, command: None, gate: false }
}

#[test]
fn a_report_says_how_the_run_went() {
    let g = Graph { nodes: vec![node("a", NodeKind::Agent), node("b", NodeKind::Agent), node("c", NodeKind::Agent)], edges: vec![] };
    let mut run = RunState::new("r1", "flow", &g);
    run.produced("a", "01.md");
    run.attempted("a", 2);
    run.enter("b", NodeState::Skipped);
    run.fail("c", "it broke");
    run.checkpoint = Some("refs/minions/checkpoints/r1".into());
    run.take_baseline(Some(TestBaseline { total: 4, failed: 1 }));
    let report = compose_report(&run, &["not a document".to_string()], "now", &CharRatioTokenizer::default());
    assert!(report.contains("### a — `01.md`\n\nUnreadable: "), "{report}");
    assert!(report.contains("- Repeated attempts: 1\n"), "{report}");
    assert!(report.contains("- Not taken: b\n"), "{report}");
    assert!(report.contains("- **Failed: c**\n"), "{report}");
    assert!(
        report.contains("- Checkpoint: `refs/minions/checkpoints/r1` — this run is reversible in one action\n"),
        "{report}"
    );
    assert_eq!(run.failure.as_deref(), Some("c: it broke"));
}

#[test]
fn skipping_goes_on_to_what_is_left_with_no_way_in() {
    let e = |a: &str, b: &str| Edge { from: a.into(), to: b.into(), when: None };
    let g = Graph {
        nodes: ["in", "a", "b", "c", "out"].iter().map(|n| node(n, NodeKind::Merge)).collect(),
        edges: vec![e("in", "a"), e("a", "b"), e("b", "out"), e("in", "c"), e("c", "out")],
    };
    let engine = Engine::new(g.clone(), Table::new(), Table::new());
    let mut run = RunState::new("r", "w", &g);
    engine.skip_from(&mut run, "a");
    assert_eq!(run.state("b"), NodeState::Skipped);
    assert_eq!(run.state("out"), NodeState::Idle, "there is another way in");
}

#[test]
fn a_script_is_replayed_in_order_and_then_ends() {
    let mut b = ReplayBackend::new(vec!["one".into(), "CUT:tw".into()]);
    assert_eq!(b.generate("p1", 10).unwrap().text, "one");
    let cut = b.generate("p2", 20).unwrap();
    assert_eq!((cut.text.as_str(), cut.truncated), ("tw", true));
    assert_eq!(b.remaining(), 0);
    assert_eq!(b.generate("p3", 30).unwrap_err(), "the replay backend ran out of scripted replies");
    assert_eq!(b.remaining(), 0);
    assert_eq!(b.prompts(), vec!["p1", "p2", "p3"]);
    assert_eq!(b.predicts(), vec![10, 20, 30]);
}

#[test]
fn a_conversation_is_shown_with_the_calls_in_it() {
    let mut b = ReplayBackend::new(vec!["ok".into()]);
    let call = ToolCallRequest { name: "read_file".into(), arguments: "{}".into() };
    let talk = [Message::user("hi"), Message::assistant_with_calls("", vec![call]), Message::tool_result("read_file", "x")];
    b.chat(&talk, 5).unwrap();
    assert_eq!(b.prompts(), vec!["[User] hi\n[Assistant]  <calls: read_file>\n[Tool] x"]);
}
