use minions_core::document::{parse, render, Artifact, DocError, DIGEST_TOKEN_LIMIT};
use minions_core::tokens::CharRatioTokenizer;

fn tk() -> CharRatioTokenizer {
    CharRatioTokenizer::default()
}

const GOOD: &str = "---
artifact: Requirements
run: 2026-08-16T14-30-12
node: analyst
attempt: 1
model: qwen2.5:14b
created: 2026-08-16T14:31:05
inputs: [00_task.md]
results:
  requirements: 3
  unknowns: 0
digest: |
  Switching the tunnel profile must not drop the active session.
  Three requirements, no unknowns.
---

Statement: the profile must change without a restart.

Requirements:
1. The active session survives the switch.
2. The switch is atomic.

Out of scope:
- Changing the tunnel protocol.
";

#[test]
fn parses_a_well_formed_document() {
    let d = parse(GOOD, &tk()).unwrap();
    assert_eq!(d.header.artifact, Artifact::Requirements);
    assert_eq!(d.header.attempt, 1);
    assert_eq!(d.header.inputs, vec!["00_task.md"]);
    assert_eq!(d.header.results.get("requirements").unwrap(), "3");
    assert!(d.header.digest.contains("no unknowns"));
    assert!(d.body.starts_with("Statement:"));
}

#[test]
fn round_trips() {
    let d = parse(GOOD, &tk()).unwrap();
    let again = parse(&render(&d), &tk()).unwrap();
    assert_eq!(d, again);
}

#[test]
fn rejects_missing_front_matter() {
    let e = parse("just prose", &tk()).unwrap_err();
    assert_eq!(e, DocError::MissingFrontMatter);
    assert!(e.guidance().contains("---"));
}

#[test]
fn rejects_missing_results_key_naming_it() {
    let text = GOOD.replace("  unknowns: 0\n", "");
    let e = parse(&text, &tk()).unwrap_err();
    assert_eq!(e, DocError::MissingResultsKey { artifact: "Requirements", key: "unknowns" });
    assert!(e.guidance().contains("unknowns"));
}

#[test]
fn a_report_that_claims_a_measurement_must_carry_it() {
    let head = "---\nartifact: TestReport\nrun: r\nnode: tests\nattempt: 1\nmodel: harness\ncreated: c\ninputs: []\nresults:\n";
    let tail = "digest: |\n  Something ran.\n---\n\n$ python3 -m unittest\n\nRan 4 tests\n";

    // Nothing measured: `conclusive` alone is the whole contract.
    let nothing = format!("{head}  conclusive: no\n{tail}");
    assert!(parse(&nothing, &tk()).is_ok(), "a report of nothing owes no numbers");

    // Something measured, and the numbers left out: that is the shape a
    // branch would read as zero.
    let half = format!("{head}  conclusive: yes\n  total: 4\n  passed: 4\n{tail}");
    assert_eq!(
        parse(&half, &tk()).unwrap_err(),
        DocError::MissingResultsKey { artifact: "TestReport", key: "failed" }
    );

    let whole = format!("{head}  conclusive: yes\n  total: 4\n  passed: 3\n  failed: 1\n{tail}");
    assert!(parse(&whole, &tk()).is_ok());
}

#[test]
fn rejects_a_body_that_is_the_header_said_again() {
    let echo = "{\n  \"artifact\": \"Findings\",\n  \"run\": \"2026-08-16T18-41-51_full-development\",\n  \"node\": \"inspector\",\n  \"attempt\": 1,\n  \"model\": \"qwen2.5-coder:14b\",\n  \"results\": {\n    \"breaking\": 1\n  },\n  \"digest\": \"One breaking issue found in src/durations.py.\"\n}";
    let text = format!(
        "---\nartifact: Findings\nrun: r\nnode: inspector\nattempt: 1\nmodel: m\ncreated: c\ninputs: []\nresults:\n  breaking: 1\n  risky: 0\n  minor: 0\n  unmet_requirements: 0\ndigest: |\n  One breaking issue.\n---\n\n{echo}\n"
    );
    let e = parse(&text, &tk()).unwrap_err();
    assert_eq!(e, DocError::BodyRestatesHeader);
    assert!(e.guidance().contains("prose"), "{}", e.guidance());

    // Fenced, which is how the same model writes it half the time.
    let fenced = text.replace(echo, &format!("```json\n{echo}\n```"));
    assert_eq!(parse(&fenced, &tk()).unwrap_err(), DocError::BodyRestatesHeader);
}

#[test]
fn a_body_that_merely_contains_json_is_not_an_echo() {
    // Quoting a payload is legitimate: the rule is about a body that *is*
    // the header, not about the character `{`.
    let body = "The failure fires on this input:\n\n```json\n{\"digest\": \"x\"}\n```\n\nThe parser then returns None.";
    let text = format!(
        "---\nartifact: Findings\nrun: r\nnode: inspector\nattempt: 1\nmodel: m\ncreated: c\ninputs: []\nresults:\n  breaking: 1\n  risky: 0\n  minor: 0\n  unmet_requirements: 0\ndigest: |\n  One issue.\n---\n\n{body}\n"
    );
    assert!(parse(&text, &tk()).is_ok(), "a body quoting JSON was taken for an echo of the header");
}

#[test]
fn rejects_a_body_missing_a_required_section_and_names_it() {
    let text = GOOD.replace("\nOut of scope:\n- Changing the tunnel protocol.\n", "\n");
    let e = parse(&text, &tk()).unwrap_err();
    assert_eq!(e, DocError::MissingSection { artifact: "Requirements", name: "Out of scope" });
    assert!(e.guidance().contains("Out of scope"), "{}", e.guidance());
}

#[test]
fn a_section_is_recognised_however_the_model_dresses_it() {
    for dressed in ["## Out of scope", "- Out of scope:", "**Out of scope**", "OUT OF SCOPE:", "> Out of scope"] {
        let text = GOOD.replace("Out of scope:\n- Changing", &format!("{dressed}\n- Changing"));
        assert!(
            parse(&text, &tk()).is_ok(),
            "a section written as `{dressed}` was rejected, which spends an attempt on punctuation"
        );
    }
}

#[test]
fn an_artifact_whose_role_asks_for_prose_demands_no_sections() {
    assert!(Artifact::RiskAssessment.required_sections().is_empty());
    assert!(Artifact::Findings.required_sections().is_empty());
    assert!(Artifact::Patch.required_sections().is_empty());
}

#[test]
fn rejects_an_over_long_digest_rather_than_truncating() {
    let long = "word ".repeat(2000);
    let text = GOOD.replace(
        "  Switching the tunnel profile must not drop the active session.\n  Three requirements, no unknowns.\n",
        &format!("  {long}\n"),
    );
    match parse(&text, &tk()).unwrap_err() {
        DocError::DigestTooLong { tokens, limit } => {
            assert!(tokens > limit);
            assert_eq!(limit, DIGEST_TOKEN_LIMIT);
        }
        other => panic!("expected DigestTooLong, got {other:?}"),
    }
}

#[test]
fn rejects_empty_digest() {
    let text = GOOD.replace(
        "digest: |\n  Switching the tunnel profile must not drop the active session.\n  Three requirements, no unknowns.\n",
        "digest: |\n",
    );
    assert_eq!(parse(&text, &tk()).unwrap_err(), DocError::EmptyDigest);
}

#[test]
fn rejects_unknown_artifact() {
    let text = GOOD.replace("artifact: Requirements", "artifact: Wishlist");
    assert!(matches!(parse(&text, &tk()).unwrap_err(), DocError::UnknownArtifact(_)));
}

#[test]
fn rejects_empty_body() {
    let text = GOOD.split("---\n\n").next().unwrap().to_string() + "---\n\n";
    assert_eq!(parse(&text, &tk()).unwrap_err(), DocError::EmptyBody);
}

#[test]
fn every_guidance_tells_the_model_what_to_do() {
    let errors = [
        DocError::MissingFrontMatter,
        DocError::UnterminatedFrontMatter,
        DocError::MissingField("run"),
        DocError::UnknownArtifact("x".into()),
        DocError::BadAttempt("x".into()),
        DocError::EmptyDigest,
        DocError::DigestTooLong { tokens: 500, limit: 400 },
        DocError::MissingResultsKey { artifact: "Plan", key: "steps" },
        DocError::EmptyBody,
    ];
    for e in errors {
        let g = e.guidance();
        assert!(g.len() > 40, "guidance too thin for {e:?}");
        assert!(g.contains("rejected"), "guidance must say what happened: {g}");
    }
}

#[test]
fn the_other_rejections_name_what_is_wrong() {
    assert_eq!(parse("---\nartifact: Task\n", &tk()).unwrap_err(), DocError::UnterminatedFrontMatter);
    assert_eq!(
        parse(&GOOD.replace("artifact: Requirements\n", ""), &tk()).unwrap_err(),
        DocError::MissingField("artifact")
    );
    let e = parse(&GOOD.replace("attempt: 1", "attempt: first"), &tk()).unwrap_err();
    assert_eq!(e, DocError::BadAttempt("first".into()));
    assert!(e.message().contains("first"), "{}", e.message());
}

#[test]
fn every_artifact_is_known_by_its_name() {
    for name in [
        "Task", "Requirements", "Plan", "Patch", "Findings", "SystemMap", "RiskAssessment", "TestSurface", "TestPlan",
        "TestSuite", "TestReport", "Triage", "ForemanLog", "Report",
    ] {
        assert_eq!(Artifact::parse(&format!(" {name} ")).unwrap().name(), name);
    }
    assert_eq!(Artifact::parse("task"), None);
}
