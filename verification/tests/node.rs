use minions_core::document::{parse, Artifact};
use minions_core::node::{
    format_contract, stamp_harness_fields, strip_outer_fence, NodeRun, Received, Role, MAX_ATTEMPTS,
};
use minions_core::tokens::CharRatioTokenizer;

const SECTIONS: &str = "Statement: s.\n\nRequirements:\n1. one\n\nOut of scope:\n- nothing\n\n";

fn role() -> Role {
    Role {
        name: "analyst",
        model: "qwen2.5:14b".into(),
        window: 8192,
        artifact: Artifact::Requirements,
        system: "",
    }
}

fn reply() -> String {
    format!("---\nartifact: Requirements\nrun: made-up\nnode: impostor\nattempt: 9\nmodel: gpt-9\ncreated: 2023-10-07T19:24:41Z\ninputs: [nonsense.md]\nresults:\n  requirements: 2\n  unknowns: 0\ndigest: |\n  Something short.\n---\n\n{SECTIONS}Body.\n")
}

#[test]
fn strips_a_fence_wrapping_the_whole_reply() {
    let t = "```markdown\n---\nartifact: Plan\n---\n\nbody\n```";
    assert!(strip_outer_fence(t).starts_with("---"));
    assert!(!strip_outer_fence(t).contains("```"));
}

#[test]
fn leaves_unfenced_text_alone() {
    assert_eq!(strip_outer_fence("---\nartifact: Plan\n"), "---\nartifact: Plan");
}

#[test]
fn harness_fields_override_whatever_the_model_wrote() {
    let mut doc = parse(&reply(), &CharRatioTokenizer::default()).unwrap();
    stamp_harness_fields(&mut doc, "2026-run", &role(), 1, &["00_task.md".to_string()], "2026-08-16T00:00:00Z");
    assert_eq!(doc.header.run, "2026-run");
    assert_eq!(doc.header.node, "analyst");
    assert_eq!(doc.header.attempt, 1);
    assert_eq!(doc.header.model, "qwen2.5:14b");
    assert_eq!(doc.header.inputs, vec!["00_task.md"]);
    assert!(!doc.header.created.starts_with("2023"), "the model's invented timestamp survived");
    // what the model legitimately owns is untouched
    assert_eq!(doc.header.results.get("requirements").unwrap(), "2");
    assert_eq!(doc.body, format!("{SECTIONS}Body."));
}

#[test]
fn contract_names_every_required_results_key() {
    let c = format_contract(Artifact::Findings, "r", "inspector", 1, "m", &[]);
    for k in Artifact::Findings.required_results() {
        assert!(c.contains(k), "contract omits {k}");
    }
}

#[test]
fn a_node_is_corrected_and_then_writes_under_its_attempt() {
    let mut run = NodeRun::start();
    assert_eq!(run.announcement(&role()), "attempt 1 of 3 — analyst on qwen2.5:14b");
    assert!(!run.prompt(&role(), "r", "do it", &[]).contains("CORRECTION"));
    let first = run.receive("no document", false, 4096, &role(), "r", &[], "01_req", "now", &CharRatioTokenizer::default());
    assert!(matches!(first, Received::Again(..)), "{first:?}");
    assert!(run.prompt(&role(), "r", "do it", &[]).contains("CORRECTION"));
    match run.receive(&reply(), false, 4096, &role(), "r", &[], "01_req", "now", &CharRatioTokenizer::default()) {
        Received::Written(o) => {
            assert_eq!(o.path, "01_req.a2.md");
            assert_eq!(o.attempts_used, 2);
            assert_eq!(o.document.header.created, "now");
        }
        other => panic!("expected a document, got {other:?}"),
    }
}

#[test]
fn a_node_fails_when_its_attempts_are_spent() {
    let mut run = NodeRun::start();
    for _ in 1..MAX_ATTEMPTS {
        assert!(matches!(run.receive("junk", false, 4096, &role(), "r", &[], "f", "now", &CharRatioTokenizer::default()), Received::Again(..)));
    }
    match run.receive("junk", false, 4096, &role(), "r", &[], "f", "now", &CharRatioTokenizer::default()) {
        Received::Failed(_, _, why) => assert!(why.contains("in 3 attempts"), "{why}"),
        other => panic!("expected a failure, got {other:?}"),
    }
}

#[test]
fn a_cut_off_reply_is_answered_with_the_room_it_has() {
    let tok = CharRatioTokenizer::default();
    let mut run = NodeRun::start();
    match run.receive("---\nartifact: Req", true, 64, &role(), "r", &[], "f", "now", &tok) {
        Received::Again(_, note) => assert_eq!(note, "the answer was cut off at 64 tokens"),
        other => panic!("expected another attempt, got {other:?}"),
    }
    assert!(run.prompt(&role(), "r", "do it", &[]).ends_with(
        "CORRECTION\nThe previous reply was cut off at 64 tokens, before the document was finished. \
         Reply with the whole document again, and make it short enough to fit."
    ));
    match run.receive("---\nartifact: Req", false, 64, &role(), "r", &[], "f", "now", &tok) {
        Received::Again(e, note) => {
            assert_eq!(note, format!("rejected: {}", e.message()));
            assert!(run.prompt(&role(), "r", "do it", &[]).contains(&e.guidance()));
        }
        other => panic!("expected another attempt, got {other:?}"),
    }
    // A document that parses was finished, however much room it took.
    let last = run.receive(&reply(), true, 64, &role(), "r", &[], "f", "now", &tok);
    assert!(matches!(last, Received::Written(_)), "{last:?}");
}

#[test]
fn a_fence_that_does_not_wrap_the_entire_reply_is_left_alone() {
    let text = "```py\nx = 1\n```\nThat was only an example.";
    assert_eq!(strip_outer_fence(text), text);
    assert_eq!(strip_outer_fence("  ```\nx\n\n```  \n"), "x");
    assert_eq!(strip_outer_fence("```md\nbody\n```diff\n+x\n```\nmore\n```"), "body\n```diff\n+x\n```\nmore");
    assert_eq!(strip_outer_fence("```md\ncut off"), "cut off", "a fence that never closes goes on to the end");
    assert_eq!(strip_outer_fence("```"), "```");
}
