use minions_core::chat::{
    command_line, recover_from_text, to_tool_call, tool_schemas, CallSource, Message, Role, ToolCallRequest,
};
use minions_core::paths::FilePath;
use minions_core::sandbox::{classify, GateReason, PermissionMode, Request, Survey, ToolCall, Verdict};
use serde_json::Value;

fn req(name: &str, args: &str) -> ToolCallRequest {
    ToolCallRequest { name: name.into(), arguments: args.into() }
}

fn value(text: &str) -> Value {
    serde_json::from_str(text).expect("it spells a value")
}

#[test]
fn every_schema_names_its_required_arguments() {
    for s in tool_schemas() {
        let s = value(&s.to_json());
        let f = &s["function"];
        let required = f["parameters"]["required"].as_array().expect("required list");
        assert!(!required.is_empty(), "{} declares no required argument", f["name"]);
        for r in required {
            let key = r.as_str().unwrap();
            assert!(
                !f["parameters"]["properties"][key].is_null(),
                "{} requires {key} but does not describe it",
                f["name"]
            );
        }
    }
}

#[test]
fn a_write_maps_to_the_sandbox_call() {
    let c = to_tool_call(&req("write_file", r#"{"path": "src/a.py", "content": "x = 1\n"}"#)).unwrap();
    match c {
        ToolCall::WriteFile { path, content } => {
            assert_eq!(path.file_name().as_deref(), Some("a.py"));
            assert_eq!(content, "x = 1\n");
        }
        other => panic!("expected a write, got {other:?}"),
    }
}

#[test]
fn a_missing_argument_is_reported_not_guessed() {
    let e = to_tool_call(&req("write_file", r#"{"path": "src/a.py"}"#)).unwrap_err();
    assert!(e.contains("content"), "the message must name what is missing: {e}");
}

#[test]
fn an_invented_tool_is_named_back_with_the_real_ones() {
    let e = to_tool_call(&req("delete_everything", "{}")).unwrap_err();
    assert!(e.contains("delete_everything"));
    assert!(e.contains("read_file") && e.contains("write_file") && e.contains("run_command"));
}

#[test]
fn a_command_becomes_a_shell_invocation_the_sandbox_can_judge() {
    let ordinary = to_tool_call(&req("run_command", r#"{"command": "python3 -m unittest"}"#)).unwrap();
    match &ordinary {
        ToolCall::RunCommand { program, args } => {
            assert_eq!(program, "bash");
            assert_eq!(args, &vec!["-lc".to_string(), "python3 -m unittest".to_string()]);
        }
        other => panic!("expected a command, got {other:?}"),
    }

    let root = FilePath::new("/tmp/minions-root");
    let survey = Survey::new();
    let judge = |call: &ToolCall| {
        classify(&Request {
            call,
            root: &root,
            mode: PermissionMode::DoNotAskInsideSandbox,
            consents: &[],
            node_gate: false,
            source_roots: &[],
            survey: &survey,
        })
    };

    assert_eq!(
        judge(&ordinary),
        Verdict::Gated { reason: GateReason::Command, consentable: true },
        "running the tests must stay possible unattended"
    );

    let dangerous = to_tool_call(&req("run_command", r#"{"command": "sudo rm -rf /"}"#)).unwrap();
    assert_eq!(
        judge(&dangerous),
        Verdict::Gated { reason: GateReason::PrivilegeEscalation, consentable: false },
        "the floor must read the script, not the word `bash`"
    );
}

#[test]
fn a_call_written_as_json_prose_is_recovered() {
    let text = "{\n  \"name\": \"read_file\",\n  \"arguments\": {\n    \"path\": \"src/durations.py\"\n  }\n}";
    let calls = recover_from_text(text);
    assert_eq!(calls.len(), 1);
    assert_eq!(calls[0].name, "read_file");
    assert_eq!(value(&calls[0].arguments)["path"], "src/durations.py");
}

#[test]
fn the_wrapped_function_form_is_recovered_too() {
    let text = "Sure, I will do that.\n{\"type\":\"function\",\"function\":{\"name\":\"run_command\",\"arguments\":{\"command\":\"ls\"}}}";
    let calls = recover_from_text(text);
    assert_eq!(calls.len(), 1);
    assert_eq!(calls[0].name, "run_command");
    assert_eq!(value(&calls[0].arguments)["command"], "ls");
}

#[test]
fn arguments_given_as_a_json_string_are_unwrapped() {
    let text = "{\"name\":\"read_file\",\"arguments\":\"{\\\"path\\\":\\\"a.py\\\"}\"}";
    let calls = recover_from_text(text);
    assert_eq!(calls.len(), 1);
    assert_eq!(value(&calls[0].arguments)["path"], "a.py");
}

#[test]
fn braces_inside_strings_do_not_confuse_the_scan() {
    let text = "{\"name\":\"write_file\",\"arguments\":{\"path\":\"a.py\",\"content\":\"d = {}\\nprint(d)\"}}";
    let calls = recover_from_text(text);
    assert_eq!(calls.len(), 1, "the scan stopped at a brace inside a string");
    assert!(value(&calls[0].arguments)["content"].as_str().unwrap().contains("d = {}"));
}

#[test]
fn ordinary_prose_yields_no_calls() {
    assert!(recover_from_text("I have finished the work and the tests pass.").is_empty());
    assert!(recover_from_text("The result is {1, 2, 3} as expected.").is_empty());
}

#[test]
fn a_call_is_sent_in_the_shape_the_server_speaks() {
    let m = Message::assistant_with_calls("", vec![req("read_file", r#"{"path": "a.txt"}"#)]);
    let v = value(&m.to_wire());
    assert_eq!(v["tool_calls"][0]["function"]["name"], "read_file");
    assert_eq!(v["tool_calls"][0]["function"]["arguments"]["path"], "a.txt");
    assert!(
        v["tool_calls"][0].get("name").is_none(),
        "the flat shape renders as a call to nothing, which is worse than sending none"
    );
}

#[test]
fn a_turn_with_calls_survives_a_round_trip() {
    let m = Message::assistant_with_calls("thinking", vec![req("run_command", r#"{"command":"ls"}"#)]);
    let v = value(&m.to_wire());
    let back: Vec<ToolCallRequest> = v["tool_calls"]
        .as_array()
        .unwrap()
        .iter()
        .map(|c| ToolCallRequest {
            name: c["function"]["name"].as_str().unwrap().to_string(),
            arguments: c["function"]["arguments"].to_string(),
        })
        .collect();
    assert_eq!(back, m.tool_calls, "what we send must be what we can read back");
    assert_eq!(v["content"], "thinking");
    assert_eq!(v["role"], "assistant");
}

#[test]
fn a_turn_without_calls_carries_no_empty_field() {
    let v = value(&Message::assistant("just words").to_wire());
    assert!(v.get("tool_calls").is_none());
    assert!(v.get("tool_name").is_none());
}

#[test]
fn a_shell_wrapped_command_is_shown_as_the_command_itself() {
    let argv = ["bash", "-lc", "python3 -m unittest discover -s tests"].map(String::from);
    assert_eq!(command_line(&argv), "python3 -m unittest discover -s tests");
    // And the way back: what run_command makes of that line is the argv we
    // started from, so the model is told a command it can actually send.
    let mut arguments = serde_json::Map::new();
    arguments.insert("command".to_string(), Value::String(command_line(&argv)));
    let back = to_tool_call(&req("run_command", &Value::Object(arguments).to_string())).unwrap();
    assert_eq!(back, ToolCall::RunCommand { program: "bash".into(), args: argv[1..].to_vec() });
}

#[test]
fn a_command_that_is_not_a_shell_invocation_is_shown_whole() {
    let argv = ["cargo", "test", "--all"].map(String::from);
    assert_eq!(command_line(&argv), "cargo test --all");
}

#[test]
fn a_tool_result_carries_the_name_the_model_used() {
    let m = Message::tool_result("read_file", "contents");
    assert_eq!(m.role, Role::Tool);
    assert_eq!(m.tool_name.as_deref(), Some("read_file"));
    let v = value(&m.to_wire());
    assert_eq!(v["tool_name"], "read_file");
    assert_eq!(v["role"], "tool");
}

#[test]
fn what_has_to_be_escaped_is_spelled_the_short_way() {
    let text = "\"\\\n\r\t\u{8}\u{c}\u{0}\u{1f}/\u{7f}é";
    let wire = Message::user(text).to_wire();
    assert!(wire.contains(r#""content":"\"\\\n\r\t\b\f\u0000\u001f/"#), "{wire}");
    assert!(wire.contains("/\u{7f}é\""), "{wire}");
}

#[test]
fn text_is_escaped_on_the_wire() {
    let v = value(&Message::user("a \"quoted\"\nline \\ and a tab\t").to_wire());
    assert_eq!(v["content"], "a \"quoted\"\nline \\ and a tab\t");
}

#[test]
fn the_other_tools_say_what_they_miss() {
    for (name, args, missing) in [
        ("read_file", "{}", "path"),
        ("replace_in_file", r#"{"path":"a"}"#, "find"),
        ("replace_in_file", r#"{"path":"a","find":"x"}"#, "replace"),
        ("append_to_file", r#"{"path":"a"}"#, "content"),
        ("run_command", r#"{"command":7}"#, "command"),
        ("read_file", "not json at all", "path"),
    ] {
        let e = to_tool_call(&req(name, args)).unwrap_err();
        assert!(e.contains(missing), "{name}: {e}");
    }
    let c = to_tool_call(&req("append_to_file", r#"{"path":"a","content":"é"}"#)).unwrap();
    assert_eq!(c, ToolCall::AppendToFile { path: FilePath::new("a"), content: "é".into() });
}

#[test]
fn arguments_are_kept_as_the_value_they_spell() {
    let text = "{\"name\":\"read_file\",\"arguments\":\"{ \\\"path\\\" : \\\"a.py\\\" }\"}";
    assert_eq!(recover_from_text(text)[0].arguments, "{\"path\":\"a.py\"}");
    let broken = "{\"name\":\"read_file\",\"arguments\":\"{ path\"}";
    assert_eq!(recover_from_text(broken)[0].arguments, "{}", "a text that spells no value is no argument");
    assert_eq!(recover_from_text("{\"name\":\"read_file\"}")[0].arguments, "{}");
    assert_eq!(recover_from_text("{\"name\":\"read_file\" {\"name\":\"x\"}"), vec![], "an object that is never closed");
}

#[test]
fn a_way_of_calling_has_a_name() {
    for source in [CallSource::Native, CallSource::JsonInText, CallSource::LineSyntax] {
        assert_eq!(source.name(), format!("{source:?}"));
    }
}
