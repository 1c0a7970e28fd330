use minions_core::clarify::{
    answered_prompt, append_knowledge, extract_questions, knowledge_path, self_resolution_prompt, unknown_count,
};
use minions_core::document::{parse, Artifact, Document};
use minions_core::ladder::{pair_up, rerun_prompt, rewrite, settle, show_procedure, Ladder, Rung, Settled};
use minions_core::paths::FilePath;
use minions_core::tokens::CharRatioTokenizer;

fn text_with(unknowns: &str, body: &str) -> String {
    format!(
        "---\nartifact: Requirements\nrun: r\nnode: analyst\nattempt: 1\nmodel: m\ncreated: c\ninputs: []\nresults:\n  requirements: 3\n  unknowns: {unknowns}\ndigest: |\n  Something.\n---\n\nStatement: s.\n\nRequirements:\n1. one\n\nOut of scope:\n- nothing\n\n{body}\n"
    )
}

fn doc_with(unknowns: &str, body: &str) -> Document {
    parse(&text_with(unknowns, body), &CharRatioTokenizer::default()).unwrap()
}

#[test]
fn none_and_zero_and_missing_all_mean_no_questions() {
    assert_eq!(unknown_count(&doc_with("none", "b")), 0);
    assert_eq!(unknown_count(&doc_with("0", "b")), 0);
    let mut d = doc_with("0", "b");
    d.header.results.remove("unknowns");
    assert_eq!(unknown_count(&d), 0);
}

#[test]
fn an_unreadable_count_is_treated_as_a_question() {
    // Better to ask once too often than to proceed on a number nobody read.
    assert_eq!(unknown_count(&doc_with("several", "b")), 1);
}

#[test]
fn questions_are_taken_from_the_unknowns_section() {
    let body = "Statement: do the thing.\n\nUnknowns:\n1. Should negative input raise or clamp?\n2. Which locale?\n\nAreas touched:\n- src/a.py\n";
    let qs = extract_questions(body);
    assert_eq!(qs.len(), 2, "{qs:?}");
    assert!(qs[0].contains("negative"));
    assert!(qs[1].contains("locale"));
    assert!(!qs.iter().any(|q| q.contains("src/a.py")), "the next section leaked in");
}

#[test]
fn an_inline_none_yields_nothing() {
    assert!(extract_questions("Unknowns: none\n").is_empty());
}

#[test]
fn an_inline_question_is_taken() {
    let qs = extract_questions("Unknowns: what should happen on an empty string?\n");
    assert_eq!(qs.len(), 1);
    assert!(qs[0].contains("empty string"));
}

#[test]
fn knowledge_accumulates_without_duplicating() {
    let pairs = vec![("Which locale?".to_string(), "en_GB".to_string())];
    let once = append_knowledge(None, &pairs).unwrap();
    let text = append_knowledge(Some(&once), &pairs).unwrap();
    assert_eq!(text.matches("Which locale?").count(), 1, "the same answer was stored twice");
    assert!(text.contains("en_GB"));
}

#[test]
fn the_self_resolution_prompt_carries_every_question() {
    let qs = vec!["First?".to_string(), "Second?".to_string()];
    let p = self_resolution_prompt(&qs);
    assert!(p.contains("First?") && p.contains("Second?"));
    assert!(p.contains("from the code and documents"), "it must tell the model where to look");
}

#[test]
fn artifact_stays_untouched() {
    // The ladder never rewrites the artifact type.
    assert_eq!(doc_with("2", "b").header.artifact, Artifact::Requirements);
}

#[test]
fn no_answers_leave_no_file() {
    assert_eq!(append_knowledge(None, &[]), None);
    assert_eq!(knowledge_path(&FilePath::new("/p")).as_str(), "/p/.minions/knowledge.md");
}

#[test]
fn the_human_is_asked_after_two_passes_and_not_before() {
    let doc = doc_with("1", "Unknowns:\n1. Which locale?\n");
    let mut ladder = Ladder::new();
    match ladder.climb("a", "01.md", &doc, true) {
        Rung::Rerun { note, instruction } => {
            assert_eq!(note, "a: 1 unknown(s) — self-resolution pass 1 of 2");
            assert!(instruction.contains("1. Which locale?"));
        }
        other => panic!("expected a pass, got {other:?}"),
    }
    assert!(matches!(ladder.climb("a", "01.md", &doc, true), Rung::Rerun { .. }));
    let mut alone = ladder;
    match alone.climb("a", "01.md", &doc, false) {
        Rung::Stop { note } => {
            assert_eq!(
                note.unwrap(),
                "a: 1 unknown(s) remain and nobody can be asked — they stay recorded in 01.md"
            );
        }
        other => panic!("expected the end, got {other:?}"),
    }
    match ladder.climb("a", "01.md", &doc, true) {
        Rung::Ask { note, questions } => {
            assert_eq!(note, "a: asking the human 1 question(s)");
            assert_eq!(questions, vec!["Which locale?".to_string()]);
        }
        other => panic!("expected a question, got {other:?}"),
    }
    assert_eq!(ladder.climb("a", "01.md", &doc_with("0", "b"), true), Rung::Stop { note: None });
}

#[test]
fn blank_answers_are_no_answers() {
    let qs = vec!["One?".to_string(), "Two?".to_string(), "Three?".to_string()];
    let pairs = pair_up(&qs, &["  ".to_string(), "yes".to_string()]);
    assert_eq!(pairs, vec![("Two?".to_string(), "yes".to_string())]);
    assert_eq!(
        settle("a", &[], true),
        Settled::Unanswered { note: "a: no answers given, the unknowns stay recorded".into() }
    );
    assert_eq!(
        settle("a", &pairs, true),
        Settled::Answered {
            note: Some("a: 1 answer(s) kept for later runs".into()),
            instruction: answered_prompt(&pairs)
        }
    );
    assert_eq!(settle("a", &pairs, false), Settled::Answered { note: None, instruction: answered_prompt(&pairs) });
}

#[test]
fn a_malformed_rewrite_keeps_the_document_that_is_there() {
    let note = rewrite("a", "r", "m", "no document", false, 1400, "now", &CharRatioTokenizer::default()).unwrap_err();
    assert!(note.contains("malformed") && note.ends_with("keeping the previous document"), "{note}");
    let note = rewrite("a", "r", "m", "---\nartifact", true, 1400, "now", &CharRatioTokenizer::default()).unwrap_err();
    assert_eq!(note, "a: the rewrite was cut off at 1400 tokens, keeping the previous document");
    let text = rewrite("a", "r", "m", &text_with("0", "b"), false, 1400, "now", &CharRatioTokenizer::default()).unwrap();
    let doc = parse(&text, &CharRatioTokenizer::default()).unwrap();
    assert_eq!(doc.header.node, "a");
    assert_eq!(doc.header.created, "now");
}

#[test]
fn a_rerun_is_shown_the_procedure_and_the_instruction() {
    let procedure = show_procedure(&Some("Step one.".to_string()));
    assert_eq!(procedure, "\n\nHOW TO DO THIS WELL\nStep one.");
    assert_eq!(show_procedure(&None), "");
    assert_eq!(rerun_prompt("base", &procedure, "do it"), format!("base\n\n{procedure}\n\ndo it"));
}
