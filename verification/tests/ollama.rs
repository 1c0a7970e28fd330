use minions_core::chat::ToolCallRequest;
use minions_core::ollama::{cut_off_at_the_limit, ChatReply, Chunk, Completion, LineBuffer};
use serde_json::Value;

#[test]
fn a_chunk_says_why_the_model_stopped() {
    // Real lines from `/api/chat`, shortened. Nothing else in the stream
    // tells these two apart: both carry `done: true` and an empty content.
    let cut = r#"{"model":"qwen2.5:7b","message":{"role":"assistant","content":""},"done_reason":"length","done":true,"prompt_eval_count":31,"eval_count":16}"#;
    let finished = r#"{"model":"qwen2.5:7b","message":{"role":"assistant","content":""},"done_reason":"stop","done":true,"prompt_eval_count":31,"eval_count":94}"#;

    let cut: Value = serde_json::from_str(cut).expect("a real chunk decodes");
    let finished: Value = serde_json::from_str(finished).expect("a real chunk decodes");

    assert!(cut_off_at_the_limit(cut["done_reason"].as_str()));
    assert!(!cut_off_at_the_limit(finished["done_reason"].as_str()));
    // Older servers send no reason at all; silence is not a cut-off.
    assert!(!cut_off_at_the_limit(None));
    assert_eq!(cut["eval_count"].as_u64(), Some(16));
}

#[test]
fn a_generate_chunk_says_it_too() {
    let cut = r#"{"model":"qwen2.5:7b","response":"","done_reason":"length","done":true,"eval_count":16}"#;
    let c: Value = serde_json::from_str(cut).expect("a real chunk decodes");
    assert!(cut_off_at_the_limit(c["done_reason"].as_str()));
}

fn piece(content: &str) -> Chunk {
    Chunk {
        content: content.into(),
        tool_calls: vec![],
        done: false,
        done_reason: None,
        eval_count: None,
        prompt_eval_count: None,
    }
}

#[test]
fn pieces_add_up_to_an_answer() {
    let mut reply = ChatReply::default();
    reply.absorb(piece("one "));
    let mut call = piece("two");
    call.tool_calls.push(ToolCallRequest { name: "read_file".into(), arguments: "{}".into() });
    reply.absorb(call);
    let mut last = piece("");
    last.done = true;
    last.done_reason = Some("length".into());
    last.eval_count = Some(16);
    reply.absorb(last);
    assert_eq!(reply.text, "one two");
    assert_eq!(reply.tool_calls.len(), 1);
    assert_eq!((reply.prompt_tokens, reply.eval_tokens, reply.truncated), (0, 16, true));

    let mut completion = Completion::default();
    completion.absorb(&piece("a"));
    completion.absorb(&piece("b"));
    assert_eq!(completion.text, "ab");
    assert!(!completion.truncated);
}

#[test]
fn lines_come_out_whole_however_they_come_in() {
    let stream = b"{\"a\":1}\n\n{\"b\":2}\n{\"c\"";
    let mut whole = LineBuffer::new();
    let at_once = whole.feed(stream);
    assert_eq!(at_once, vec![b"{\"a\":1}".to_vec(), b"{\"b\":2}".to_vec()]);
    assert_eq!(whole.feed(b":3}\n"), vec![b"{\"c\":3}".to_vec()]);

    let mut bytewise = LineBuffer::new();
    let mut lines = Vec::new();
    for b in stream {
        lines.extend(bytewise.feed(&[*b]));
    }
    assert_eq!(lines, at_once);
}
