use minions_core::sandbox::ToolCall;
use minions_core::toolcalls::{as_request, calls_in_lines, parse, Step, TOOL_INSTRUCTIONS};

#[test]
fn reads_writes_and_runs_are_parsed_in_order() {
    let reply = "Let me look first.\nTOOL read src/a.py\nTOOL run python3 -m unittest\n";
    let steps = parse(reply);
    assert_eq!(steps.len(), 2);
    assert!(
        matches!(&steps[0], Step::Call(ToolCall::ReadFile { path }) if path.file_name().as_deref() == Some("a.py"))
    );
    assert!(matches!(&steps[1], Step::Call(ToolCall::RunCommand { .. })));
}

#[test]
fn a_write_carries_the_whole_body() {
    let reply = "TOOL write src/a.py\n<<<FILE\nline one\nline two\nFILE>>>\n";
    match &parse(reply)[0] {
        Step::Call(ToolCall::WriteFile { path, content }) => {
            assert_eq!(path.file_name().as_deref(), Some("a.py"));
            assert_eq!(content, "line one\nline two\n");
        }
        other => panic!("expected a write, got {other:?}"),
    }
}

#[test]
fn an_unterminated_write_is_not_performed() {
    // Half a file is worse than none: it would pass the sandbox and leave
    // the project broken in a way the agent believes succeeded.
    let reply = "TOOL write src/a.py\n<<<FILE\nline one\n";
    assert!(parse(reply).is_empty(), "an unterminated write must be dropped");
}

#[test]
fn chatter_around_the_calls_is_ignored() {
    let reply = "I will now read the file.\n\nTOOL read src/a.py\n\nThat should tell me what I need.";
    assert_eq!(parse(reply).len(), 1);
}

#[test]
fn done_is_recognised() {
    assert_eq!(parse("TOOL done").len(), 1);
    assert!(matches!(parse("TOOL done")[0], Step::Done));
}

#[test]
fn a_reply_with_no_calls_yields_nothing() {
    assert!(parse("---\nartifact: Patch\n---\n\nAll finished.").is_empty());
}

#[test]
fn the_instructions_show_exactly_what_the_parser_accepts() {
    // The syntax the model is shown and the syntax the parser takes must
    // not drift apart.
    for marker in ["TOOL read", "TOOL run", "TOOL write", "<<<FILE", "FILE>>>"] {
        assert!(TOOL_INSTRUCTIONS.contains(marker), "the instructions omit {marker}");
    }
}

#[test]
fn the_calls_end_where_the_agent_says_it_is_done() {
    let reply = "TOOL read src/a.py\nTOOL run python3 -m unittest\nTOOL done\nTOOL read src/b.py\n";
    assert_eq!(parse(reply).len(), 4);
    let calls = calls_in_lines(reply);
    assert_eq!(calls.len(), 2);
    assert!(matches!(&calls[1], ToolCall::RunCommand { program, .. } if program == "bash"));
    assert!(calls_in_lines("TOOL done\nTOOL read src/b.py\n").is_empty());
    assert!(calls_in_lines("No calls here.").is_empty());
}

#[test]
fn a_call_made_by_a_line_is_shown_as_the_channel_would_have_had_it() {
    let reply = "TOOL read src/\"a\".py\nTOOL run echo hi\nTOOL write b.py\n<<<FILE\nx = 1\n\ty\nFILE>>>\n";
    let made: Vec<(String, String)> = calls_in_lines(reply)
        .iter()
        .map(as_request)
        .map(|r| (r.name, r.arguments))
        .collect();
    assert_eq!(
        made,
        vec![
            ("read_file".to_string(), r#"{"path":"src/\"a\".py"}"#.to_string()),
            ("run_command".to_string(), r#"{"command":"echo hi"}"#.to_string()),
            ("write_file".to_string(), r#"{"path":"b.py","content":"x = 1\n\ty\n"}"#.to_string()),
        ]
    );
}
