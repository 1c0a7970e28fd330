use minions_core::backend::ReplayBackend;
use minions_core::chat::Message;
use minions_core::probe::{wants, Probe};
use minions_core::profile::{EditStyle, ModelProfile, ToolChannel};
use minions_core::tokens::CharRatioTokenizer;

fn doc() -> String {
    "---\nartifact: Requirements\nrun: r\nnode: n\nattempt: 1\nmodel: m\ncreated: c\ninputs: []\nresults:\n  requirements: 1\n  unknowns: 0\ndigest: |\n  Short.\n---\n\nStatement: s.\n\nRequirements:\n1. one\n\nOut of scope:\n- nothing\n\nBody.\n".to_string()
}

fn measure(replies: Vec<String>) -> (ModelProfile, Vec<String>) {
    let tok = CharRatioTokenizer::default();
    let mut backend = ReplayBackend::new(replies);
    let mut probe = Probe::begin("stub", "now");
    let mut notes = vec![];
    while let Some(ask) = probe.exchange() {
        notes.push(ask.note.to_string());
        let messages = [Message::system(&ask.system), Message::user(ask.user)];
        let reply = backend.chat(&messages, 900).unwrap();
        notes.push(probe.hear(reply, &tok));
    }
    notes.push(probe.closing_note());
    assert_eq!(backend.remaining(), 0);
    (probe.profile, notes)
}

#[test]
fn a_model_using_the_channel_is_profiled_as_native() {
    let (p, notes) = measure(vec![
        r#"NATIVE:{"name":"read_file","arguments":{"path":"src/main.py"}}"#.to_string(),
        r#"NATIVE:{"name":"read_file","arguments":{"path":"a"}} {"name":"read_file","arguments":{"path":"b"}}"#.to_string(),
        r#"NATIVE:{"name":"write_file","arguments":{"path":"src/greet.py","content":"def greet(name):\n    return 'hello ' + name\n"}}"#.to_string(),
        doc(),
    ]);
    assert_eq!(p.channel, ToolChannel::Native);
    assert!(p.parallel_calls, "two calls in one turn were scripted");
    assert!(p.send_schemas(), "a proven channel may be sent schemas");
    assert_eq!(p.edit_style, EditStyle::WholeFile);
    assert_eq!(
        notes,
        vec![
            "channel: asking for a single file read".to_string(),
            "channel: Native, read_file requested: true".to_string(),
            "parallel: asking for two file reads at once".to_string(),
            "parallel: 2 call(s) in one turn".to_string(),
            "edit style: asking for a whole small file".to_string(),
            "edit style: WholeFile".to_string(),
            "format: asking for a document with our header".to_string(),
            "format held first time: true".to_string(),
            format!("longest reply seen: {} characters", doc().len()),
        ]
    );
}

#[test]
fn a_model_answering_in_json_text_is_profiled_as_such() {
    let (p, _) = measure(vec![
        r#"{"name":"read_file","arguments":{"path":"src/main.py"}}"#.to_string(),
        r#"{"name":"read_file","arguments":{"path":"src/main.py"}}"#.to_string(),
        r#"{"name":"write_file","arguments":{"path":"src/greet.py","content":"def greet(name):\n    return 'hello ' + name\n"}}"#.to_string(),
        doc(),
    ]);

    assert_eq!(p.channel, ToolChannel::JsonInText);
    assert!(!p.parallel_calls, "one call per turn was scripted");
    assert_eq!(p.edit_style, EditStyle::WholeFile, "it delivered a whole file");
    assert!(p.holds_format);
    assert!(p.is_measured());
    assert!(p.max_output_chars > 0);
    assert_eq!(p.document_attempts(), 3);
}

#[test]
fn a_model_that_never_calls_a_tool_gets_the_weakest_profile() {
    let (p, _) = measure(vec![
        "I would read the file.".to_string(),
        "I would read both files.".to_string(),
        "Here is the code you asked for.".to_string(),
        "Requirements: it should work well.".to_string(),
    ]);

    assert_eq!(p.channel, ToolChannel::TextOnly);
    assert_eq!(p.edit_style, EditStyle::Replacement, "an unproven whole-file ability must not be assumed");
    assert!(!p.holds_format);
    assert!(!p.send_schemas());
    assert_eq!(p.document_attempts(), 5, "a model that loses the format gets more attempts");
    assert_eq!(p.max_output_chars, "Requirements: it should work well.".len());
}

#[test]
fn the_longest_reply_is_counted_in_characters() {
    let (p, notes) = measure(vec![
        "Я бы прочитал файл.".to_string(),
        "No.".to_string(),
        "No.".to_string(),
        "No.".to_string(),
    ]);
    assert_eq!(p.max_output_chars, 19);
    assert_eq!(notes.last().map(String::as_str), Some("longest reply seen: 19 characters"));
}

#[test]
fn a_truncated_write_does_not_count_as_whole_file_ability() {
    // A write_file without usable content: counting it as a capability would
    // keep handing the model a tool it cannot use.
    let (p, _) = measure(vec![
        r#"{"name":"read_file","arguments":{"path":"src/main.py"}}"#.to_string(),
        r#"{"name":"read_file","arguments":{"path":"a"}}"#.to_string(),
        r#"{"name":"write_file","arguments":{"path":"src/greet.py"}}"#.to_string(),
        doc(),
    ]);
    assert_eq!(p.edit_style, EditStyle::Replacement);
}

#[test]
fn without_a_wish_every_model_is_measured() {
    assert!(wants("qwen2.5:14b", &[]));
    assert!(wants("qwen2.5:14b", &["qwen".to_string()]));
    assert!(!wants("qwen2.5:14b", &["llama".to_string()]));
}
