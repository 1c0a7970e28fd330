//! The chat protocol that models were actually trained on.
//!
//! A model expects a message structure — system separate from task, tool results
//! in their own role — and it was trained with function-calling templates, so an
//! invented text syntax competes with what it already knows.
//!
//! Native tool calls are the primary path. The text parser stays as a fallback,
//! because the protocol is not guaranteed to be followed. When the fallback
//! fires it is recorded: how often that happens is a measure of how well the
//! pairing works, not a detail.

use vstd::prelude::*;
use vstd::slice::slice_subrange;
use crate::floor;
use crate::floor::{is_script_flag, is_shell_name};
use crate::json;
use crate::json::{member, quoted, string_at, string_content, value_of};
use crate::paths::FilePath;
use crate::sandbox;
use crate::sandbox::{shell, Call, ToolCall};
use crate::split;
use crate::split::join_strings;
use crate::text;
use crate::text::{chars_of, same, string_of};

verus! {

#[derive(Debug, Clone, Copy, PartialEq, Eq, Structural)]
pub enum Role {
    System,
    User,
    Assistant,
    Tool,
}

/// A call as a model asks for it.
#[derive(Debug, PartialEq, Eq)]
pub struct ToolCallRequest {
    pub name: String,
    /// The text of a JSON value rather than a typed struct: the model decides
    /// the shape, and a mismatch has to be reported to it.
    pub arguments: String,
}

/// A call that was asked for, as texts.
#[verifier::ext_equal]
pub struct Asked {
    pub name: Seq<char>,
    pub arguments: Seq<char>,
}

impl View for ToolCallRequest {
    type V = Asked;

    open spec fn view(&self) -> Asked {
        Asked { name: self.name@, arguments: self.arguments@ }
    }
}

impl Clone for ToolCallRequest {
    fn clone(&self) -> (r: Self)
        ensures
            r@ == self@,
    {
        ToolCallRequest {
            name: self.name.as_str().to_owned(),
            arguments: self.arguments.as_str().to_owned(),
        }
    }
}

/// Calls that were asked for, as texts.
pub open spec fn all_asked(v: Seq<ToolCallRequest>) -> Seq<Asked> {
    v.map_values(|r: ToolCallRequest| r@)
}

/// A copy of a list of calls.
pub fn copy_requests(v: &[ToolCallRequest]) -> (r: Vec<ToolCallRequest>)
    ensures
        all_asked(r@) == all_asked(v@),
{
    let ghost all = all_asked(v@);
    let mut r: Vec<ToolCallRequest> = Vec::new();
    let mut i: usize = 0;
    assert(all_asked(r@) =~= all.take(0));
    while i < v.len()
        invariant
            i <= v.len(),
            all == all_asked(v@),
            all_asked(r@) == all.take(i as int),
        decreases v.len() - i,
    {
        let ghost before = r@;
        let one = v[i].clone();
        r.push(one);
        assert(all_asked(r@) =~= all_asked(before).push(one@));
        i = i + 1;
        assert(all.take(i as int) =~= all.take(i - 1).push(all[i - 1]));
    }
    assert(all.take(i as int) =~= all);
    r
}

#[derive(Debug, Clone, PartialEq, Eq)]
pub struct Message {
    pub role: Role,
    pub content: String,
    pub tool_name: Option<String>,
    /// The calls that a turn made. They belong *in* the turn: a transcript that
    /// drops them leaves the model unable to see what it asked for, and it
    /// re-asks.
    pub tool_calls: Vec<ToolCallRequest>,
}

/// A message, as texts.
#[verifier::ext_equal]
pub struct Turn {
    pub role: Role,
    pub content: Seq<char>,
    pub tool_name: Option<Seq<char>>,
    pub calls: Seq<Asked>,
}

impl View for Message {
    type V = Turn;

    open spec fn view(&self) -> Turn {
        Turn {
            role: self.role,
            content: self.content@,
            tool_name: json::said(self.tool_name),
            calls: all_asked(self.tool_calls@),
        }
    }
}

/// Messages, as texts.
pub open spec fn turns(v: Seq<Message>) -> Seq<Turn> {
    v.map_values(|m: Message| m@)
}

/// A message without calls.
pub open spec fn plain_turn(role: Role, content: Seq<char>) -> Turn {
    Turn { role, content, tool_name: None, calls: seq![] }
}

/// A result going back to the model.
pub open spec fn result_turn(name: Seq<char>, content: Seq<char>) -> Turn {
    Turn { role: Role::Tool, content, tool_name: Some(name), calls: seq![] }
}

fn plain(role: Role, text: &str) -> (m: Message)
    ensures
        m@ == plain_turn(role, text@),
{
    let m = Message { role, content: text.to_owned(), tool_name: None, tool_calls: Vec::new() };
    assert(m@ =~= plain_turn(role, text@));
    m
}

impl Message {
    pub fn system(text: &str) -> (m: Self)
        ensures
            m@ == plain_turn(Role::System, text@),
    {
        plain(Role::System, text)
    }

    pub fn user(text: &str) -> (m: Self)
        ensures
            m@ == plain_turn(Role::User, text@),
    {
        plain(Role::User, text)
    }

    pub fn assistant(text: &str) -> (m: Self)
        ensures
            m@ == plain_turn(Role::Assistant, text@),
    {
        plain(Role::Assistant, text)
    }

    /// An assistant turn that asked for tools.
    pub fn assistant_with_calls(text: &str, calls: Vec<ToolCallRequest>) -> (m: Self)
        ensures
            m@ == (Turn { role: Role::Assistant, content: text@, tool_name: None, calls: all_asked(calls@) }),
    {
        Message { role: Role::Assistant, content: text.to_owned(), tool_name: None, tool_calls: calls }
    }

    /// A result going back to the model. The name matters: the model matches it
    /// against the call it made.
    pub fn tool_result(name: &str, text: &str) -> (m: Self)
        ensures
            m@ == result_turn(name@, text@),
    {
        let m = Message {
            role: Role::Tool,
            content: text.to_owned(),
            tool_name: Some(name.to_owned()),
            tool_calls: Vec::new(),
        };
        assert(m@ =~= result_turn(name@, text@));
        m
    }
}

// ------------------------------------------------------------------ the wire shape

/// The name a role goes by on the wire.
pub open spec fn role_name(role: Role) -> Seq<char> {
    match role {
        Role::System => "system"@,
        Role::User => "user"@,
        Role::Assistant => "assistant"@,
        Role::Tool => "tool"@,
    }
}

/// A call in the shape the server speaks: nested under `function`. The flat form
/// is worse than silence, because a template renders it as a call to nothing.
pub open spec fn wire_call(c: Asked) -> Seq<char> {
    "{\"function\":{\"name\":"@ + json::json_quoted(c.name) + ",\"arguments\":"@ + c.arguments + "}}"@
}

/// A message in the shape the server speaks. A turn without calls carries no
/// empty field for them.
pub open spec fn wire_message(m: Turn) -> Seq<char> {
    "{\"role\":\""@ + role_name(m.role) + "\",\"content\":"@ + json::json_quoted(m.content) + (
    match m.tool_name {
        Some(n) => ",\"tool_name\":"@ + json::json_quoted(n),
        None => ""@,
    }) + (if m.calls.len() > 0 {
        ",\"tool_calls\":["@ + split::join(m.calls.map_values(|c: Asked| wire_call(c)), ","@) + "]"@
    } else {
        ""@
    }) + "}"@
}

impl ToolCallRequest {
    /// The call in the shape the server speaks.
    pub fn to_wire(&self) -> (s: String)
        ensures
            s@ == wire_call(self@),
    {
        let mut s = "{\"function\":{\"name\":".to_owned();
        s.append(quoted(self.name.as_str()).as_str());
        s.append(",\"arguments\":");
        s.append(self.arguments.as_str());
        s.append("}}");
        s
    }
}

impl Message {
    /// The message in the shape the server speaks.
    pub fn to_wire(&self) -> (s: String)
        ensures
            s@ == wire_message(self@),
    {
        let mut s = "{\"role\":\"".to_owned();
        match self.role {
            Role::System => s.append("system"),
            Role::User => s.append("user"),
            Role::Assistant => s.append("assistant"),
            Role::Tool => s.append("tool"),
        }
        s.append("\",\"content\":");
        s.append(quoted(self.content.as_str()).as_str());
        let mut named = "".to_owned();
        if let Some(n) = &self.tool_name {
            named = ",\"tool_name\":".to_owned();
            named.append(quoted(n.as_str()).as_str());
        }
        s.append(named.as_str());
        let ghost all = self@.calls.map_values(|c: Asked| wire_call(c));
        let mut calls: Vec<String> = Vec::new();
        let mut i: usize = 0;
        assert(text::texts(calls@) =~= all.take(0));
        while i < self.tool_calls.len()
            invariant
                i <= self.tool_calls.len(),
                all == self@.calls.map_values(|c: Asked| wire_call(c)),
                text::texts(calls@) == all.take(i as int),
            decreases self.tool_calls.len() - i,
        {
            let one = self.tool_calls[i].to_wire();
            assert(one@ == all[i as int]);
            proof {
                text::lemma_texts_push(calls@, one);
            }
            calls.push(one);
            i = i + 1;
            assert(all.take(i as int) =~= all.take(i - 1).push(all[i - 1]));
        }
        assert(all.take(i as int) =~= all);
        let mut listed = "".to_owned();
        if self.tool_calls.len() > 0 {
            listed = ",\"tool_calls\":[".to_owned();
            listed.append(join_strings(calls.as_slice(), ",").as_str());
            listed.append("]");
        }
        s.append(listed.as_str());
        s.append("}");
        s
    }
}

// -------------------------------------------------------------------- the tools

/// A tool an agent may call.
#[derive(Debug, Clone, PartialEq, Eq)]
pub struct ToolSchema {
    pub name: &'static str,
    pub description: &'static str,
    pub required: Vec<&'static str>,
    /// Each argument, a string, with what it is for.
    pub properties: Vec<(&'static str, &'static str)>,
}

/// A tool, as texts.
#[verifier::ext_equal]
pub struct Tool {
    pub name: Seq<char>,
    pub description: Seq<char>,
    pub required: Seq<Seq<char>>,
    pub properties: Seq<(Seq<char>, Seq<char>)>,
}

/// Arguments with what they are for, as texts.
pub open spec fn described(v: Seq<(&str, &str)>) -> Seq<(Seq<char>, Seq<char>)> {
    v.map_values(|p: (&str, &str)| (p.0@, p.1@))
}

impl View for ToolSchema {
    type V = Tool;

    open spec fn view(&self) -> Tool {
        Tool {
            name: self.name@,
            description: self.description@,
            required: text::names(self.required@),
            properties: described(self.properties@),
        }
    }
}

/// The tools an agent may call.
pub open spec fn tools() -> Seq<Tool> {
    seq![
        Tool {
            name: "read_file"@,
            description: "Read a file from the project. Always read a file before changing it."@,
            required: seq!["path"@],
            properties: seq![("path"@, "Path relative to the project root"@)],
        },
        Tool {
            name: "write_file"@,
            description: "Replace a file with new contents. Always send the WHOLE file, never a fragment and never a diff."@,
            required: seq!["path"@, "content"@],
            properties: seq![("path"@, "Path relative to the project root"@), ("content"@, "The entire new contents of the file"@)],
        },
        Tool {
            name: "replace_in_file"@,
            description: "Replace one fragment of a file. Use this when a whole file is too large to send. The fragment must appear exactly once."@,
            required: seq!["path"@, "find"@, "replace"@],
            properties: seq![("path"@, "Path relative to the project root"@), ("find"@, "The existing text, quoted exactly, including indentation"@), ("replace"@, "What it becomes"@)],
        },
        Tool {
            name: "append_to_file"@,
            description: "Add text to the end of a file. The natural way to add a new function without resending the file."@,
            required: seq!["path"@, "content"@],
            properties: seq![("path"@, "Path relative to the project root"@), ("content"@, "The text to add at the end"@)],
        },
        Tool {
            name: "run_command"@,
            description: "Run a shell command in the project root, for example the test suite."@,
            required: seq!["command"@],
            properties: seq![("command"@, "The command line to run"@)],
        },
    ]
}

/// The tool as the server is told of it: a function with an object of strings
/// for its arguments.
pub open spec fn tool_json(t: Tool) -> Seq<char> {
    "{\"type\":\"function\",\"function\":{\"name\":"@ + json::json_quoted(t.name) + ",\"description\":"@
        + json::json_quoted(t.description) + ",\"parameters\":{\"type\":\"object\",\"required\":["@ + split::join(
        t.required.map_values(|r: Seq<char>| json::json_quoted(r)),
        ","@,
    ) + "],\"properties\":{"@ + split::join(
        t.properties.map_values(|p: (Seq<char>, Seq<char>)| property_json(p)),
        ","@,
    ) + "}}}}"@
}

pub open spec fn property_json(p: (Seq<char>, Seq<char>)) -> Seq<char> {
    json::json_quoted(p.0) + ":{\"type\":\"string\",\"description\":"@ + json::json_quoted(p.1) + "}"@
}

impl ToolSchema {
    /// The tool as the server is told of it.
    pub fn to_json(&self) -> (s: String)
        ensures
            s@ == tool_json(self@),
    {
        let ghost req = self@.required.map_values(|r: Seq<char>| json::json_quoted(r));
        let mut required: Vec<String> = Vec::new();
        let mut i: usize = 0;
        assert(text::texts(required@) =~= req.take(0));
        while i < self.required.len()
            invariant
                i <= self.required.len(),
                req == self@.required.map_values(|r: Seq<char>| json::json_quoted(r)),
                text::texts(required@) == req.take(i as int),
            decreases self.required.len() - i,
        {
            let one = quoted(self.required[i]);
            assert(one@ == req[i as int]);
            proof {
                text::lemma_texts_push(required@, one);
            }
            required.push(one);
            i = i + 1;
            assert(req.take(i as int) =~= req.take(i - 1).push(req[i - 1]));
        }
        assert(req.take(i as int) =~= req);
        let ghost prop = self@.properties.map_values(|p: (Seq<char>, Seq<char>)| property_json(p));
        let mut properties: Vec<String> = Vec::new();
        let mut j: usize = 0;
        assert(text::texts(properties@) =~= prop.take(0));
        while j < self.properties.len()
            invariant
                j <= self.properties.len(),
                prop == self@.properties.map_values(|p: (Seq<char>, Seq<char>)| property_json(p)),
                text::texts(properties@) == prop.take(j as int),
            decreases self.properties.len() - j,
        {
            let mut one = quoted(self.properties[j].0);
            one.append(":{\"type\":\"string\",\"description\":");
            one.append(quoted(self.properties[j].1).as_str());
            one.append("}");
            assert(one@ == prop[j as int]);
            proof {
                text::lemma_texts_push(properties@, one);
            }
            properties.push(one);
            j = j + 1;
            assert(prop.take(j as int) =~= prop.take(j - 1).push(prop[j - 1]));
        }
        assert(prop.take(j as int) =~= prop);
        let mut s = "{\"type\":\"function\",\"function\":{\"name\":".to_owned();
        s.append(quoted(self.name).as_str());
        s.append(",\"description\":");
        s.append(quoted(self.description).as_str());
        s.append(",\"parameters\":{\"type\":\"object\",\"required\":[");
        s.append(join_strings(required.as_slice(), ",").as_str());
        s.append("],\"properties\":{");
        s.append(join_strings(properties.as_slice(), ",").as_str());
        s.append("}}}}");
        s
    }
}

fn schema(
    name: &'static str,
    description: &'static str,
    required: &[&'static str],
    properties: &[(&'static str, &'static str)],
) -> (s: ToolSchema)
    ensures
        s@ == (Tool {
            name: name@,
            description: description@,
            required: text::names(required@),
            properties: described(properties@),
        }),
{
    let mut r: Vec<&'static str> = Vec::new();
    let mut i: usize = 0;
    while i < required.len()
        invariant
            i <= required.len(),
            r@ == required@.take(i as int),
        decreases required.len() - i,
    {
        r.push(required[i]);
        i = i + 1;
        assert(required@.take(i as int) =~= required@.take(i - 1).push(required@[i - 1]));
    }
    assert(r@ =~= required@);
    let mut p: Vec<(&'static str, &'static str)> = Vec::new();
    let mut j: usize = 0;
    while j < properties.len()
        invariant
            j <= properties.len(),
            p@ == properties@.take(j as int),
        decreases properties.len() - j,
    {
        p.push(properties[j]);
        j = j + 1;
        assert(properties@.take(j as int) =~= properties@.take(j - 1).push(properties@[j - 1]));
    }
    assert(p@ =~= properties@);
    ToolSchema { name, description, required: r, properties: p }
}

/// The tools an agent may call. One definition, used both to tell the model what
/// exists and to judge what comes back.
pub fn tool_schemas() -> (v: Vec<ToolSchema>)
    ensures
        v@.map_values(|s: ToolSchema| s@) == tools(),
{
    let v = vec![
        schema(
            "read_file",
            "Read a file from the project. Always read a file before changing it.",
            &["path"],
            &[("path", "Path relative to the project root")],
        ),
        schema(
            "write_file",
            "Replace a file with new contents. Always send the WHOLE file, never a fragment and never a diff.",
            &["path", "content"],
            &[("path", "Path relative to the project root"), ("content", "The entire new contents of the file")],
        ),
        schema(
            "replace_in_file",
            "Replace one fragment of a file. Use this when a whole file is too large to send. The fragment must appear exactly once.",
            &["path", "find", "replace"],
            &[("path", "Path relative to the project root"), ("find", "The existing text, quoted exactly, including indentation"), ("replace", "What it becomes")],
        ),
        schema(
            "append_to_file",
            "Add text to the end of a file. The natural way to add a new function without resending the file.",
            &["path", "content"],
            &[("path", "Path relative to the project root"), ("content", "The text to add at the end")],
        ),
        schema(
            "run_command",
            "Run a shell command in the project root, for example the test suite.",
            &["command"],
            &[("command", "The command line to run")],
        ),
    ];
    assert(v@.map_values(|s: ToolSchema| s@) =~~= tools());
    v
}

// ---------------------------------------------------------- from a call to an action

/// The arguments of a call, each where it is a string.
#[derive(Debug, Clone, PartialEq, Eq)]
pub struct Arguments {
    pub path: Option<String>,
    pub content: Option<String>,
    pub find: Option<String>,
    pub replace: Option<String>,
    pub command: Option<String>,
}

/// The arguments of a call, as texts.
pub struct Given {
    pub path: Option<Seq<char>>,
    pub content: Option<Seq<char>>,
    pub find: Option<Seq<char>>,
    pub replace: Option<Seq<char>>,
    pub command: Option<Seq<char>>,
}

impl View for Arguments {
    type V = Given;

    open spec fn view(&self) -> Given {
        Given {
            path: json::said(self.path),
            content: json::said(self.content),
            find: json::said(self.find),
            replace: json::said(self.replace),
            command: json::said(self.command),
        }
    }
}

/// The arguments that a JSON value holds.
pub open spec fn given(arguments: Seq<char>) -> Given {
    Given {
        path: json::string_member(arguments, "path"@),
        content: json::string_member(arguments, "content"@),
        find: json::string_member(arguments, "find"@),
        replace: json::string_member(arguments, "replace"@),
        command: json::string_member(arguments, "command"@),
    }
}

/// The action a call asks for, or what the model is told about it. Anything that
/// does not map is reported back rather than guessed at.
pub open spec fn action_of(name: Seq<char>, a: Given) -> Result<Call, Seq<char>> {
    if name == "read_file"@ {
        match a.path {
            Some(path) => Ok(Call::ReadFile { path }),
            None => Err("read_file needs a `path` string"@),
        }
    } else if name == "write_file"@ {
        match (a.path, a.content) {
            (None, _) => Err("write_file needs a `path` string"@),
            (_, None) => Err("write_file needs a `content` string holding the whole file"@),
            (Some(path), Some(content)) => Ok(Call::WriteFile { path, content }),
        }
    } else if name == "replace_in_file"@ {
        match (a.path, a.find, a.replace) {
            (None, _, _) => Err("replace_in_file needs a `path` string"@),
            (_, None, _) => Err("replace_in_file needs a `find` string quoting the existing text"@),
            (_, _, None) => Err("replace_in_file needs a `replace` string"@),
            (Some(path), Some(find), Some(replace)) => Ok(Call::ReplaceInFile { path, find, replace }),
        }
    } else if name == "append_to_file"@ {
        match (a.path, a.content) {
            (None, _) => Err("append_to_file needs a `path` string"@),
            (_, None) => Err("append_to_file needs a `content` string"@),
            (Some(path), Some(content)) => Ok(Call::AppendToFile { path, content }),
        }
    } else if name == "run_command"@ {
        match a.command {
            Some(command) => Ok(sandbox::shell_call(command)),
            None => Err("run_command needs a `command` string"@),
        }
    } else {
        Err(
            "`"@ + name
                + "` is not a tool that exists. The tools are read_file, write_file, replace_in_file, append_to_file and run_command."@,
        )
    }
}

/// What a result says, as texts.
pub open spec fn outcome_of(r: Result<ToolCall, String>) -> Result<Call, Seq<char>> {
    match r {
        Ok(c) => Ok(c@),
        Err(e) => Err(e@),
    }
}

fn no(why: &str) -> (r: Result<ToolCall, String>)
    ensures
        outcome_of(r) == Err::<Call, Seq<char>>(why@),
{
    Err(why.to_owned())
}

/// The action a call of that name with those arguments asks for.
pub fn action_from(name: &str, a: Arguments) -> (r: Result<ToolCall, String>)
    ensures
        outcome_of(r) == action_of(name@, a@),
{
    if same(name, "read_file") {
        match a.path {
            Some(path) => Ok(ToolCall::ReadFile { path: FilePath { text: path } }),
            None => no("read_file needs a `path` string"),
        }
    } else if same(name, "write_file") {
        match (a.path, a.content) {
            (None, _) => no("write_file needs a `path` string"),
            (_, None) => no("write_file needs a `content` string holding the whole file"),
            (Some(path), Some(content)) => Ok(ToolCall::WriteFile { path: FilePath { text: path }, content }),
        }
    } else if same(name, "replace_in_file") {
        match (a.path, a.find, a.replace) {
            (None, _, _) => no("replace_in_file needs a `path` string"),
            (_, None, _) => no("replace_in_file needs a `find` string quoting the existing text"),
            (_, _, None) => no("replace_in_file needs a `replace` string"),
            (Some(path), Some(find), Some(replace)) => Ok(
                ToolCall::ReplaceInFile { path: FilePath { text: path }, find, replace },
            ),
        }
    } else if same(name, "append_to_file") {
        match (a.path, a.content) {
            (None, _) => no("append_to_file needs a `path` string"),
            (_, None) => no("append_to_file needs a `content` string"),
            (Some(path), Some(content)) => Ok(ToolCall::AppendToFile { path: FilePath { text: path }, content }),
        }
    } else if same(name, "run_command") {
        match a.command {
            Some(command) => Ok(shell(command)),
            None => no("run_command needs a `command` string"),
        }
    } else {
        let mut why = "`".to_owned();
        why.append(name);
        why.append(
            "` is not a tool that exists. The tools are read_file, write_file, replace_in_file, append_to_file and run_command.",
        );
        Err(why)
    }
}

/// Turns a model's call into the closed set the sandbox judges. Anything that
/// does not map is reported back to the model rather than guessed at.
pub fn to_tool_call(req: &ToolCallRequest) -> (r: Result<ToolCall, String>)
    ensures
        outcome_of(r) == action_of(req@.name, given(req@.arguments)),
{
    let json = req.arguments.as_str();
    let a = Arguments {
        path: string_at(json, "path"),
        content: string_at(json, "content"),
        find: string_at(json, "find"),
        replace: string_at(json, "replace"),
        command: string_at(json, "command"),
    };
    action_from(req.name.as_str(), a)
}

/// The command line an agent has to send to get these words run.
pub open spec fn line_of(argv: Seq<Seq<char>>) -> Seq<char> {
    if argv.len() == 3 && floor::is_shell(floor::base_name(argv[0])) && floor::carries_script(argv[1]) {
        argv[2]
    } else {
        split::join(argv, " "@)
    }
}

/// The command line an agent has to send to get this argv run. The inverse of
/// the wrapper `to_tool_call` puts on every `run_command`: the harness keeps its
/// own test command as an argv with a shell in front of it, and handing that to
/// a model as it stands would wrap it a second time.
pub fn command_line(argv: &[String]) -> (s: String)
    ensures
        s@ == line_of(text::texts(argv@)),
{
    if argv.len() == 3 {
        assert(text::texts(argv@)[0] == argv@[0]@);
        assert(text::texts(argv@)[1] == argv@[1]@);
        assert(text::texts(argv@)[2] == argv@[2]@);
        if is_shell_name(argv[0].as_str()) && is_script_flag(argv[1].as_str()) {
            return argv[2].as_str().to_owned();
        }
    }
    join_strings(argv, " ")
}

/// How a call reached us. Recorded because the mix is a measure of how well the
/// pairing works: some models declare the tools capability and then write their
/// calls into the text instead of the channel.
#[derive(Debug, Clone, Copy, PartialEq, Eq, Structural)]
pub enum CallSource {
    Native,
    JsonInText,
    LineSyntax,
}

/// What a way of calling is called.
pub open spec fn source_name(source: CallSource) -> Seq<char> {
    match source {
        CallSource::Native => "Native"@,
        CallSource::JsonInText => "JsonInText"@,
        CallSource::LineSyntax => "LineSyntax"@,
    }
}

impl CallSource {
    pub fn name(&self) -> (n: &'static str)
        ensures
            n@ == source_name(*self),
    {
        match self {
            CallSource::Native => "Native",
            CallSource::JsonInText => "JsonInText",
            CallSource::LineSyntax => "LineSyntax",
        }
    }
}

// ------------------------------------------------------------- calls written as prose

/// Where the object that is open at place `j` ends: one past the brace that
/// closes it. Braces inside strings do not count.
pub open spec fn closes_at(s: Seq<char>, j: int, depth: nat, quoted: bool, escaped: bool) -> Option<int>
    decreases s.len() - j,
{
    if j < 0 || j >= s.len() {
        None
    } else if quoted {
        if escaped {
            closes_at(s, j + 1, depth, true, false)
        } else if s[j] == '\\' {
            closes_at(s, j + 1, depth, true, true)
        } else {
            closes_at(s, j + 1, depth, s[j] != '"', false)
        }
    } else if s[j] == '"' {
        closes_at(s, j + 1, depth, true, false)
    } else if s[j] == '{' {
        closes_at(s, j + 1, depth + 1, false, false)
    } else if s[j] == '}' {
        if depth <= 1 {
            Some(j + 1)
        } else {
            closes_at(s, j + 1, (depth - 1) as nat, false, false)
        }
    } else {
        closes_at(s, j + 1, depth, false, false)
    }
}

/// Where the object that begins at place `i` ends.
pub open spec fn object_end(s: Seq<char>, i: int) -> Option<int> {
    closes_at(s, i, 0, false, false)
}

/// The call that the parts of a JSON object make: either the object itself names
/// it, or what stands under `function` does. The arguments are an object, or the
/// text of one in a string.
pub open spec fn call_from(
    name: Option<Seq<char>>,
    arguments: Option<Seq<char>>,
    unwrapped: Option<Seq<char>>,
    is_string: bool,
) -> Option<Asked> {
    match name {
        None => None,
        Some(n) => Some(
            Asked {
                name: n,
                arguments: if is_string {
                    match unwrapped {
                        Some(u) => u,
                        None => "{}"@,
                    }
                } else {
                    match arguments {
                        Some(a) => a,
                        None => "{}"@,
                    }
                },
            },
        ),
    }
}

/// The call that the text of a JSON object is.
pub open spec fn call_in(object: Seq<char>) -> Option<Asked> {
    let candidate = match json::json_member(object, "function"@) {
        Some(f) => f,
        None => object,
    };
    let arguments = json::json_member(candidate, "arguments"@);
    let inner = match arguments {
        Some(a) => json::json_string(a),
        None => None,
    };
    let unwrapped = match inner {
        Some(t) => json::json_value(t),
        None => None,
    };
    call_from(json::string_member(candidate, "name"@), arguments, unwrapped, inner is Some)
}

/// The calls written into a text, from place `i` on. An object that is never
/// closed ends the search.
pub open spec fn calls_from(s: Seq<char>, i: int) -> Seq<Asked>
    decreases s.len() - i,
{
    if i < 0 || i >= s.len() {
        seq![]
    } else if s[i] != '{' {
        calls_from(s, i + 1)
    } else {
        match object_end(s, i) {
            None => seq![],
            Some(e) => if i < e <= s.len() {
                (match call_in(s.subrange(i, e)) {
                    Some(c) => seq![c],
                    None => seq![],
                }) + calls_from(s, e)
            } else {
                seq![]
            },
        }
    }
}

/// Where the object that begins at place `i` ends: one past the brace that
/// closes it.
pub fn find_object_end(s: &[char], i: usize) -> (r: Option<usize>)
    ensures
        match r {
            Some(e) => object_end(s@, i as int) == Some(e as int) && i < e <= s.len(),
            None => object_end(s@, i as int) is None,
        },
{
    let mut j: usize = i;
    let mut depth: usize = 0;
    let mut in_string = false;
    let mut escaped = false;
    while j < s.len()
        invariant
            i <= j,
            j <= s.len() || j == i,
            depth <= j - i,
            closes_at(s@, j as int, depth as nat, in_string, escaped) == object_end(s@, i as int),
        decreases s.len() - j,
    {
        let c = s[j];
        if in_string {
            if escaped {
                escaped = false;
            } else if c == '\\' {
                escaped = true;
            } else if c == '"' {
                in_string = false;
            }
        } else if c == '"' {
            in_string = true;
            escaped = false;
        } else if c == '{' {
            depth = depth + 1;
            escaped = false;
        } else if c == '}' {
            if depth <= 1 {
                return Some(j + 1);
            }
            depth = depth - 1;
            escaped = false;
        } else {
            escaped = false;
        }
        j = j + 1;
    }
    None
}

/// The call that the parts of a JSON object make.
pub fn request_from(
    name: Option<String>,
    arguments: Option<String>,
    unwrapped: Option<String>,
    is_string: bool,
) -> (r: Option<ToolCallRequest>)
    ensures
        match r {
            Some(c) => call_from(json::said(name), json::said(arguments), json::said(unwrapped), is_string)
                == Some(c@),
            None => call_from(json::said(name), json::said(arguments), json::said(unwrapped), is_string) is None,
        },
{
    match name {
        None => None,
        Some(n) => {
            let chosen = if is_string {
                unwrapped
            } else {
                arguments
            };
            let arguments = match chosen {
                Some(a) => a,
                None => "{}".to_owned(),
            };
            Some(ToolCallRequest { name: n, arguments })
        },
    }
}

fn request_in(object: &str) -> (r: Option<ToolCallRequest>)
    ensures
        match r {
            Some(c) => call_in(object@) == Some(c@),
            None => call_in(object@) is None,
        },
{
    let candidate = match member(object, "function") {
        Some(f) => f,
        None => object.to_owned(),
    };
    let name = string_at(candidate.as_str(), "name");
    let arguments = member(candidate.as_str(), "arguments");
    let inner = match &arguments {
        Some(a) => string_content(a.as_str()),
        None => None,
    };
    let unwrapped = match &inner {
        Some(t) => value_of(t.as_str()),
        None => None,
    };
    request_from(name, arguments, unwrapped, inner.is_some())
}

/// Recovers calls a model wrote as JSON prose instead of sending through the
/// tool channel. The content is right, only the channel is wrong, so throwing it
/// away would waste a correct answer.
pub fn recover_from_text(text: &str) -> (v: Vec<ToolCallRequest>)
    ensures
        all_asked(v@) == calls_from(text@, 0),
{
    let chars = chars_of(text);
    let s = chars.as_slice();
    let mut v: Vec<ToolCallRequest> = Vec::new();
    let mut i: usize = 0;
    assert(all_asked(v@) + calls_from(s@, 0) =~= calls_from(s@, 0));
    while i < s.len()
        invariant
            i <= s.len(),
            s@ == text@,
            all_asked(v@) + calls_from(s@, i as int) == calls_from(s@, 0),
        decreases s.len() - i,
    {
        if s[i] != '{' {
            i = i + 1;
            continue ;
        }
        let ghost before = v@;
        match find_object_end(s, i) {
            None => {
                assert(all_asked(v@) + seq![] =~= all_asked(v@));
                return v;
            },
            Some(e) => {
                let piece = slice_subrange(s, i, e);
                let object = string_of(piece);
                assert(object@ =~= s@.subrange(i as int, e as int));
                match request_in(object.as_str()) {
                    Some(c) => {
                        v.push(c);
                        assert(all_asked(v@) =~= all_asked(before) + seq![c@]);
                        assert(all_asked(v@) + calls_from(s@, e as int) =~= all_asked(before) + calls_from(
                            s@,
                            i as int,
                        ));
                    },
                    None => {
                        assert(all_asked(v@) + calls_from(s@, e as int) =~= all_asked(before) + calls_from(
                            s@,
                            i as int,
                        ));
                    },
                }
                i = e;
            },
        }
    }
    assert(calls_from(s@, i as int) =~= seq![]);
    assert(all_asked(v@) + calls_from(s@, i as int) =~= all_asked(v@));
    v
}

// -------------------------------------------------------------------------- laws

/// What the harness would run, the model is told as a line, and that line is
/// what `run_command` makes of it again.
pub proof fn law_command_line_is_the_way_back(line: Seq<char>, a: Given)
    requires
        a.command == Some(line_of(seq!["bash"@, "-lc"@, line])),
    ensures
        line_of(seq!["bash"@, "-lc"@, line]) == line,
        action_of("run_command"@, a) == Ok::<Call, Seq<char>>(sandbox::shell_call(line)),
{
    let argv = seq!["bash"@, "-lc"@, line];
    assert(argv[0] == "bash"@);
    assert(argv[1] == "-lc"@);
    lemma_bash();
    lemma_tool_names_differ();
}

proof fn lemma_bash()
    ensures
        floor::is_shell(floor::base_name("bash"@)),
        floor::carries_script("-lc"@),
{
    reveal_strlit("bash");
    reveal_strlit("-lc");
    reveal_strlit("-");
    reveal_strlit("--");
    reveal_strlit(".");
    reveal_strlit("..");
    reveal_strlit("/");
    let b = "bash"@;
    let at = split::Cut::Any("/"@);
    assert forall|j: int| 0 <= j < b.len() implies !split::cuts(at, b[j]) by {
        assert("/"@.len() == 1 && "/"@[0] == '/');
    }
    split::lemma_first_cut_is(b, at, 4);
    let pieces = split::split(b, at);
    assert(pieces =~= seq![b]);
    assert(b.len() == 4 && "."@.len() == 1 && ".."@.len() == 2);
    assert(pieces.drop_first() =~= seq![]);
    assert(crate::paths::comps_of(pieces.drop_first()) =~= seq![]);
    assert(crate::paths::comps_of(pieces) =~= seq![crate::paths::Comp::Name(b)]);
    assert(b[0] == 'b');
    assert(crate::paths::comps(b) =~= seq![crate::paths::Comp::Name(b)]);
    assert(crate::paths::last_name(b) == Some(b));
    assert(text::lower(b) =~= b);
    let f = "-lc"@;
    assert(f.take(1) =~= "-"@);
    assert(f.take(2)[1] == 'l');
    assert("--"@[1] == '-');
    assert(f[2] == 'c');
}

proof fn lemma_tool_names_differ()
    ensures
        "run_command"@ != "read_file"@,
        "run_command"@ != "write_file"@,
        "run_command"@ != "replace_in_file"@,
        "run_command"@ != "append_to_file"@,
{
    reveal_strlit("run_command");
    reveal_strlit("read_file");
    reveal_strlit("write_file");
    reveal_strlit("replace_in_file");
    reveal_strlit("append_to_file");
    assert("run_command"@.len() == 11);
    assert("read_file"@.len() == 9);
    assert("write_file"@.len() == 10);
    assert("replace_in_file"@.len() == 15);
    assert("append_to_file"@.len() == 14);
}

/// Whether a tool describes an argument.
pub open spec fn describes(t: Tool, argument: Seq<char>) -> bool {
    exists|k: int| 0 <= k < t.properties.len() && (#[trigger] t.properties[k]).0 == argument
}

/// Every tool asks for something, and describes everything it asks for.
pub proof fn law_every_required_argument_is_described(i: int, j: int)
    requires
        0 <= i < tools().len(),
    ensures
        tools()[i].required.len() > 0,
        0 <= j < tools()[i].required.len() ==> describes(tools()[i], tools()[i].required[j]),
{
    let t = tools()[i];
    if 0 <= j < t.required.len() {
        assert(t.properties[j].0 == t.required[j]);
    }
}

/// What was given for an argument, by the name a tool describes it under.
pub open spec fn argument(a: Given, name: Seq<char>) -> Option<Seq<char>> {
    if name == "path"@ {
        a.path
    } else if name == "content"@ {
        a.content
    } else if name == "find"@ {
        a.find
    } else if name == "replace"@ {
        a.replace
    } else if name == "command"@ {
        a.command
    } else {
        None
    }
}

proof fn lemma_argument_names_differ()
    ensures
        "path"@ != "content"@,
        "path"@ != "find"@,
        "path"@ != "replace"@,
        "path"@ != "command"@,
        "content"@ != "find"@,
        "content"@ != "replace"@,
        "content"@ != "command"@,
        "find"@ != "replace"@,
        "find"@ != "command"@,
        "replace"@ != "command"@,
{
    reveal_strlit("path");
    reveal_strlit("content");
    reveal_strlit("find");
    reveal_strlit("replace");
    reveal_strlit("command");
    assert("path"@[0] == 'p' && "content"@[2] == 'n' && "find"@[0] == 'f' && "replace"@[0] == 'r' && "command"@[2]
        == 'm');
    assert("content"@[0] == 'c' && "command"@[0] == 'c');
}

proof fn lemma_all_tool_names_differ()
    ensures
        "read_file"@ != "write_file"@,
        "read_file"@ != "replace_in_file"@,
        "read_file"@ != "append_to_file"@,
        "write_file"@ != "replace_in_file"@,
        "write_file"@ != "append_to_file"@,
        "replace_in_file"@ != "append_to_file"@,
{
    reveal_strlit("read_file");
    reveal_strlit("write_file");
    reveal_strlit("replace_in_file");
    reveal_strlit("append_to_file");
    assert("read_file"@.len() == 9);
    assert("write_file"@.len() == 10);
    assert("replace_in_file"@.len() == 15);
    assert("append_to_file"@.len() == 14);
}

/// A request for a tool is a call exactly where everything that the tool asks for
/// was given.
pub proof fn law_a_request_needs_what_its_tool_asks_for(i: int, a: Given)
    requires
        0 <= i < tools().len(),
    ensures
        action_of(tools()[i].name, a) is Ok <==> forall|j: int|
            0 <= j < tools()[i].required.len() ==> argument(a, #[trigger] tools()[i].required[j]) is Some,
{
    lemma_argument_names_differ();
    lemma_all_tool_names_differ();
    lemma_tool_names_differ();
    let r = tools()[i].required;
    if i == 0 {
        assert(r[0] == "path"@ && r.len() == 1);
    } else if i == 1 {
        assert(r[0] == "path"@ && r[1] == "content"@ && r.len() == 2);
    } else if i == 2 {
        assert(r[0] == "path"@ && r[1] == "find"@ && r[2] == "replace"@ && r.len() == 3);
    } else if i == 3 {
        assert(r[0] == "path"@ && r[1] == "content"@ && r.len() == 2);
    } else {
        assert(i == 4);
        assert(r[0] == "command"@ && r.len() == 1);
    }
}

/// A request becomes the call of its name, on what was given and on nothing else.
pub proof fn law_a_request_becomes_its_call(name: Seq<char>, a: Given)
    ensures
        action_of(name, a) matches Ok(call) ==> match call {
            Call::ReadFile { path } => name == "read_file"@ && a.path == Some(path),
            Call::WriteFile { path, content } => name == "write_file"@ && a.path == Some(path) && a.content == Some(
                content,
            ),
            Call::ReplaceInFile { path, find, replace } => name == "replace_in_file"@ && a.path == Some(path) && a.find
                == Some(find) && a.replace == Some(replace),
            Call::AppendToFile { path, content } => name == "append_to_file"@ && a.path == Some(path) && a.content
                == Some(content),
            Call::RunCommand { program, args } => name == "run_command"@ && program == "bash"@ && args.len() == 2
                && args[0] == "-lc"@ && a.command == Some(args[1]),
            _ => false,
        },
{
}

/// What no tool is called is no call, and the answer says what was asked for.
pub proof fn law_another_name_is_no_call(name: Seq<char>, a: Given)
    requires
        forall|i: int| 0 <= i < tools().len() ==> (#[trigger] tools()[i]).name != name,
    ensures
        action_of(name, a) matches Err(e) && text::occurs(e, name),
{
    assert(tools()[0].name != name);
    assert(tools()[1].name != name);
    assert(tools()[2].name != name);
    assert(tools()[3].name != name);
    assert(tools()[4].name != name);
    text::lemma_occurs_within(
        "`"@,
        name,
        "` is not a tool that exists. The tools are read_file, write_file, replace_in_file, append_to_file and run_command."@,
    );
}

/// Whether a text holds neither a brace nor a quote.
pub open spec fn is_plain(s: Seq<char>) -> bool {
    forall|i: int| 0 <= i < s.len() ==> #[trigger] s[i] != '"' && s[i] != '{' && s[i] != '}'
}

/// Whether a text holds nothing that ends or changes a quoted text.
pub open spec fn is_quotable(s: Seq<char>) -> bool {
    forall|i: int| 0 <= i < s.len() ==> #[trigger] s[i] != '"' && s[i] != '\\'
}

proof fn lemma_over_plain(s: Seq<char>, j: int, e: int, depth: nat)
    requires
        0 <= j <= e <= s.len(),
        is_plain(s.subrange(j, e)),
    ensures
        closes_at(s, j, depth, false, false) == closes_at(s, e, depth, false, false),
    decreases e - j,
{
    if j < e {
        assert(s.subrange(j, e)[0] == s[j]);
        assert forall|i: int| 0 <= i < e - j - 1 implies #[trigger] s.subrange(j + 1, e)[i] != '"' && s.subrange(
            j + 1,
            e,
        )[i] != '{' && s.subrange(j + 1, e)[i] != '}' by {
            assert(s.subrange(j + 1, e)[i] == s.subrange(j, e)[i + 1]);
        }
        lemma_over_plain(s, j + 1, e, depth);
    }
}

proof fn lemma_over_quoted(s: Seq<char>, j: int, e: int, depth: nat)
    requires
        0 <= j <= e <= s.len(),
        is_quotable(s.subrange(j, e)),
    ensures
        closes_at(s, j, depth, true, false) == closes_at(s, e, depth, true, false),
    decreases e - j,
{
    if j < e {
        assert(s.subrange(j, e)[0] == s[j]);
        assert forall|i: int| 0 <= i < e - j - 1 implies #[trigger] s.subrange(j + 1, e)[i] != '"' && s.subrange(
            j + 1,
            e,
        )[i] != '\\' by {
            assert(s.subrange(j + 1, e)[i] == s.subrange(j, e)[i + 1]);
        }
        lemma_over_quoted(s, j + 1, e, depth);
    }
}

/// An object ends where its brace is closed, whatever follows.
pub proof fn law_an_object_ends_at_its_brace(a: Seq<char>, rest: Seq<char>)
    requires
        is_plain(a),
    ensures
        object_end(seq!['{'] + a + seq!['}'] + rest, 0) == Some((a.len() + 2) as int),
        object_end(seq!['{'] + a, 0) is None,
{
    let s = seq!['{'] + a + seq!['}'] + rest;
    let e = (a.len() + 1) as int;
    assert(s.subrange(1, e) =~= a);
    assert(s[0] == '{' && s[e] == '}');
    lemma_over_plain(s, 1, e, 1);
    let t = seq!['{'] + a;
    assert(t.subrange(1, e) =~= a);
    lemma_over_plain(t, 1, e, 1);
}

/// An object within an object is a part of it.
pub proof fn law_an_object_holds_what_is_within(a: Seq<char>, b: Seq<char>, c: Seq<char>, rest: Seq<char>)
    requires
        is_plain(a),
        is_plain(b),
        is_plain(c),
    ensures
        object_end(seq!['{'] + a + seq!['{'] + b + seq!['}'] + c + seq!['}'] + rest, 0) == Some(
            (a.len() + b.len() + c.len() + 4) as int,
        ),
{
    let s = seq!['{'] + a + seq!['{'] + b + seq!['}'] + c + seq!['}'] + rest;
    let i = (a.len() + 1) as int;
    let j = (i + 1 + b.len()) as int;
    let k = (j + 1 + c.len()) as int;
    assert(s.subrange(1, i) =~= a);
    assert(s.subrange(i + 1, j) =~= b);
    assert(s.subrange(j + 1, k) =~= c);
    assert(s[0] == '{' && s[i] == '{' && s[j] == '}' && s[k] == '}');
    lemma_over_plain(s, 1, i, 1);
    lemma_over_plain(s, i + 1, j, 2);
    lemma_over_plain(s, j + 1, k, 1);
}

/// A brace within quotes neither opens nor closes anything, and a quote behind a
/// backslash does not end them.
pub proof fn law_what_is_quoted_closes_nothing(
    a: Seq<char>,
    q: Seq<char>,
    escaped: char,
    r: Seq<char>,
    b: Seq<char>,
    rest: Seq<char>,
)
    requires
        is_plain(a),
        is_quotable(q),
        is_quotable(r),
        is_plain(b),
    ensures
        object_end(seq!['{'] + a + seq!['"'] + q + seq!['"'] + b + seq!['}'] + rest, 0) == Some(
            (a.len() + q.len() + b.len() + 4) as int,
        ),
        object_end(
            seq!['{'] + a + seq!['"'] + q + seq!['\\', escaped] + r + seq!['"'] + b + seq!['}'] + rest,
            0,
        ) == Some((a.len() + q.len() + r.len() + b.len() + 6) as int),
{
    let s = seq!['{'] + a + seq!['"'] + q + seq!['"'] + b + seq!['}'] + rest;
    let i = (a.len() + 1) as int;
    let j = (i + 1 + q.len()) as int;
    let k = (j + 1 + b.len()) as int;
    assert(s.subrange(1, i) =~= a);
    assert(s.subrange(i + 1, j) =~= q);
    assert(s.subrange(j + 1, k) =~= b);
    assert(s[0] == '{' && s[i] == '"' && s[j] == '"' && s[k] == '}');
    lemma_over_plain(s, 1, i, 1);
    lemma_over_quoted(s, i + 1, j, 1);
    lemma_over_plain(s, j + 1, k, 1);
    let t = seq!['{'] + a + seq!['"'] + q + seq!['\\', escaped] + r + seq!['"'] + b + seq!['}'] + rest;
    let l = (j + 2 + r.len()) as int;
    let m = (l + 1 + b.len()) as int;
    assert(t.subrange(1, i) =~= a);
    assert(t.subrange(i + 1, j) =~= q);
    assert(t.subrange(j + 2, l) =~= r);
    assert(t.subrange(l + 1, m) =~= b);
    assert(t[0] == '{' && t[i] == '"' && t[j] == '\\' && t[l] == '"' && t[m] == '}');
    lemma_over_plain(t, 1, i, 1);
    lemma_over_quoted(t, i + 1, j, 1);
    assert(closes_at(t, j, 1, true, false) == closes_at(t, j + 1, 1, true, true));
    assert(closes_at(t, j + 1, 1, true, true) == closes_at(t, j + 2, 1, true, false));
    lemma_over_quoted(t, j + 2, l, 1);
    lemma_over_plain(t, l + 1, m, 1);
}

proof fn lemma_closes_behind(p: Seq<char>, s: Seq<char>, j: int, depth: nat, quoted: bool, escaped: bool)
    requires
        0 <= j,
    ensures
        closes_at(p + s, p.len() + j, depth, quoted, escaped) == (match closes_at(s, j, depth, quoted, escaped) {
            Some(e) => Some(p.len() + e),
            None => None,
        }),
    decreases s.len() - j,
{
    if j < s.len() {
        assert((p + s)[p.len() + j] == s[j]);
        lemma_closes_behind(p, s, j + 1, depth, true, false);
        lemma_closes_behind(p, s, j + 1, depth, true, true);
        lemma_closes_behind(p, s, j + 1, depth, false, false);
        lemma_closes_behind(p, s, j + 1, depth + 1, false, false);
        if depth > 1 {
            lemma_closes_behind(p, s, j + 1, (depth - 1) as nat, false, false);
        }
    }
}

proof fn lemma_closes_before(s: Seq<char>, r: Seq<char>, j: int, depth: nat, quoted: bool, escaped: bool)
    requires
        0 <= j,
        closes_at(s, j, depth, quoted, escaped) is Some,
    ensures
        closes_at(s + r, j, depth, quoted, escaped) == closes_at(s, j, depth, quoted, escaped),
        j < closes_at(s, j, depth, quoted, escaped)->0 <= s.len(),
    decreases s.len() - j,
{
    if j < s.len() {
        assert((s + r)[j] == s[j]);
        if quoted {
            if escaped {
                lemma_closes_before(s, r, j + 1, depth, true, false);
            } else if s[j] == '\\' {
                lemma_closes_before(s, r, j + 1, depth, true, true);
            } else {
                lemma_closes_before(s, r, j + 1, depth, s[j] != '"', false);
            }
        } else if s[j] == '"' {
            lemma_closes_before(s, r, j + 1, depth, true, false);
        } else if s[j] == '{' {
            lemma_closes_before(s, r, j + 1, depth + 1, false, false);
        } else if s[j] == '}' {
            if depth > 1 {
                lemma_closes_before(s, r, j + 1, (depth - 1) as nat, false, false);
            }
        } else {
            lemma_closes_before(s, r, j + 1, depth, false, false);
        }
    }
}

proof fn lemma_calls_behind(p: Seq<char>, s: Seq<char>, j: int)
    requires
        0 <= j,
    ensures
        calls_from(p + s, p.len() + j) == calls_from(s, j),
    decreases s.len() - j,
{
    if j < s.len() {
        assert((p + s)[p.len() + j] == s[j]);
        if s[j] != '{' {
            lemma_calls_behind(p, s, j + 1);
        } else {
            lemma_closes_behind(p, s, j, 0, false, false);
            if object_end(s, j) is Some {
                let e = object_end(s, j)->0;
                if j < e <= s.len() {
                    assert((p + s).subrange(p.len() + j, p.len() + e) =~= s.subrange(j, e));
                    lemma_calls_behind(p, s, e);
                }
            }
        }
    }
}

/// Prose before the calls makes no difference to them, and alone it makes none.
pub proof fn law_prose_makes_no_call(p: Seq<char>, s: Seq<char>)
    requires
        !p.contains('{'),
    ensures
        calls_from(p + s, 0) == calls_from(s, 0),
        calls_from(p, 0).len() == 0,
{
    lemma_prose(p, s, 0);
    lemma_calls_behind(p, s, 0);
    lemma_prose(p, seq![], 0);
    assert(p + Seq::<char>::empty() =~= p);
}

proof fn lemma_prose(p: Seq<char>, s: Seq<char>, j: int)
    requires
        !p.contains('{'),
        0 <= j <= p.len(),
    ensures
        calls_from(p + s, j) == calls_from(p + s, p.len() as int),
    decreases p.len() - j,
{
    if j < p.len() {
        assert((p + s)[j] == p[j]);
        assert(p.contains(p[j]));
        lemma_prose(p, s, j + 1);
    }
}

/// Each object in a text is asked for a call of its own: the calls of a text that
/// begins with an object are the one in it, if there is one, and those of the rest.
pub proof fn law_each_object_is_asked_for_its_call(o: Seq<char>, s: Seq<char>)
    requires
        o.len() > 0,
        o[0] == '{',
        object_end(o, 0) == Some(o.len() as int),
    ensures
        calls_from(o + s, 0) == (match call_in(o) {
            Some(c) => seq![c],
            None => seq![],
        }) + calls_from(s, 0),
{
    lemma_closes_before(o, s, 0, 0, false, false);
    assert((o + s)[0] == '{');
    assert((o + s).subrange(0, o.len() as int) =~= o);
    lemma_calls_behind(o, s, 0);
}

/// An object is a call where it has a name, whether it is the function itself or
/// holds it under `function`; its arguments are those given, also where they were
/// given as a text, and an empty object where none were given.
pub proof fn law_a_call_is_its_name_and_arguments(object: Seq<char>)
    ensures
        ({
            let inner = json::json_member(object, "function"@);
            let f = if inner is Some {
                inner->0
            } else {
                object
            };
            let name = json::string_member(f, "name"@);
            let given = json::json_member(f, "arguments"@);
            &&& call_in(object) is Some <==> name is Some
            &&& call_in(object) matches Some(c) ==> {
                &&& c.name == name->0
                &&& given is None ==> c.arguments == "{}"@
                &&& given is Some && json::json_string(given->0) is None ==> c.arguments == given->0
                &&& given is Some && json::json_string(given->0) is Some ==> c.arguments == (match json::json_value(
                    json::json_string(given->0)->0,
                ) {
                    Some(v) => v,
                    None => "{}"@,
                })
            }
        }),
{
}

proof fn lemma_four_parts(a: Seq<char>, b: Seq<char>, c: Seq<char>, d: Seq<char>)
    ensures
        text::starts_with(a + b + c + d, a),
        text::occurs(a + b + c + d, b),
        text::occurs(a + b + c + d, c),
{
    assert((a + b + c + d).take(a.len() as int) =~= a);
    text::lemma_occurs_within(a, b, c + d);
    assert(a + b + (c + d) =~= a + b + c + d);
    text::lemma_occurs_within(a + b, c, d);
}

proof fn lemma_call_parts(c: Asked)
    ensures
        text::occurs(wire_call(c), json::json_quoted(c.name)),
        text::occurs(wire_call(c), c.arguments),
{
    let a = "{\"function\":{\"name\":"@;
    let name = json::json_quoted(c.name);
    let b = ",\"arguments\":"@;
    assert(wire_call(c) == a + name + b + c.arguments + "}}"@);
    lemma_four_parts(a, name, b, c.arguments + "}}"@);
    assert(a + name + b + (c.arguments + "}}"@) =~= wire_call(c));
    text::lemma_occurs_within(a + name + b, c.arguments, "}}"@);
}

/// What goes over the wire says who speaks and what was said, the tool that a result
/// is of, and every call.
pub proof fn law_a_message_is_sent_whole(m: Turn, i: int)
    ensures
        text::starts_with(
            wire_message(m),
            "{\"role\":\""@ + role_name(m.role) + "\",\"content\":"@ + json::json_quoted(m.content),
        ),
        m.tool_name matches Some(n) ==> text::occurs(wire_message(m), ",\"tool_name\":"@ + json::json_quoted(n)),
        0 <= i < m.calls.len() ==> text::occurs(wire_message(m), json::json_quoted(m.calls[i].name)) && text::occurs(
            wire_message(m),
            m.calls[i].arguments,
        ),
{
    let w = wire_message(m);
    let spoken = "{\"role\":\""@ + role_name(m.role) + "\",\"content\":"@ + json::json_quoted(m.content);
    let named = match m.tool_name {
        Some(n) => ",\"tool_name\":"@ + json::json_quoted(n),
        None => ""@,
    };
    let pieces = m.calls.map_values(|c: Asked| wire_call(c));
    let joined = split::join(pieces, ","@);
    let called = if m.calls.len() > 0 {
        ",\"tool_calls\":["@ + joined + "]"@
    } else {
        ""@
    };
    assert(w == spoken + named + called + "}"@);
    lemma_four_parts(spoken, named, called, "}"@);
    if 0 <= i < m.calls.len() {
        let c = m.calls[i];
        text::lemma_occurs_within(",\"tool_calls\":["@, joined, "]"@);
        split::law_a_joined_text_holds_its_pieces(pieces, ","@, i);
        assert(pieces[i] == wire_call(c));
        lemma_call_parts(c);
        text::lemma_occurs_trans(joined, wire_call(c), json::json_quoted(c.name));
        text::lemma_occurs_trans(joined, wire_call(c), c.arguments);
        text::lemma_occurs_trans(called, joined, json::json_quoted(c.name));
        text::lemma_occurs_trans(called, joined, c.arguments);
        text::lemma_occurs_trans(w, called, json::json_quoted(c.name));
        text::lemma_occurs_trans(w, called, c.arguments);
    }
}

/// The form of a tool tells its name and what it is for, what it asks for, and what
/// each of its arguments means.
pub proof fn law_a_form_tells_all_of_its_tool(t: Tool, i: int, j: int)
    ensures
        text::occurs(tool_json(t), json::json_quoted(t.name)),
        text::occurs(tool_json(t), json::json_quoted(t.description)),
        0 <= i < t.required.len() ==> text::occurs(tool_json(t), json::json_quoted(t.required[i])),
        0 <= j < t.properties.len() ==> text::occurs(tool_json(t), json::json_quoted(t.properties[j].0))
            && text::occurs(tool_json(t), json::json_quoted(t.properties[j].1)),
{
    let w = tool_json(t);
    let a = "{\"type\":\"function\",\"function\":{\"name\":"@;
    let name = json::json_quoted(t.name);
    let b = ",\"description\":"@;
    let told = json::json_quoted(t.description);
    let c = ",\"parameters\":{\"type\":\"object\",\"required\":["@;
    let asked = t.required.map_values(|r: Seq<char>| json::json_quoted(r));
    let needs = split::join(asked, ","@);
    let d = "],\"properties\":{"@;
    let means = t.properties.map_values(|p: (Seq<char>, Seq<char>)| property_json(p));
    let has = split::join(means, ","@);
    let e = "}}}}"@;
    assert(w =~= a + name + (b + told + c + needs + d + has + e));
    text::lemma_occurs_within(a, name, b + told + c + needs + d + has + e);
    assert(w =~= (a + name + b) + told + (c + needs + d + has + e));
    text::lemma_occurs_within(a + name + b, told, c + needs + d + has + e);
    assert(w =~= (a + name + b + told + c) + needs + (d + has + e));
    text::lemma_occurs_within(a + name + b + told + c, needs, d + has + e);
    assert(w =~= (a + name + b + told + c + needs + d) + has + e);
    text::lemma_occurs_within(a + name + b + told + c + needs + d, has, e);
    if 0 <= i < t.required.len() {
        split::law_a_joined_text_holds_its_pieces(asked, ","@, i);
        assert(asked[i] == json::json_quoted(t.required[i]));
        text::lemma_occurs_trans(w, needs, asked[i]);
    }
    if 0 <= j < t.properties.len() {
        split::law_a_joined_text_holds_its_pieces(means, ","@, j);
        let p = t.properties[j];
        let one = property_json(p);
        assert(means[j] == one);
        text::lemma_occurs_trans(w, has, one);
        let k = json::json_quoted(p.0);
        let v = json::json_quoted(p.1);
        let f = ":{\"type\":\"string\",\"description\":"@;
        assert(one =~= Seq::<char>::empty() + k + (f + v + "}"@));
        text::lemma_occurs_within(seq![], k, f + v + "}"@);
        text::lemma_occurs_trans(w, one, k);
        assert(one =~= (k + f) + v + "}"@);
        text::lemma_occurs_within(k + f, v, "}"@);
        text::lemma_occurs_trans(w, one, v);
    }
}

/// The roles go by the names that the protocol gives them.
pub proof fn law_each_role_has_its_name(r: Role)
    ensures
        r is System <==> role_name(r) == "system"@,
        r is User <==> role_name(r) == "user"@,
        r is Assistant <==> role_name(r) == "assistant"@,
        r is Tool <==> role_name(r) == "tool"@,
{
    reveal_strlit("system");
    reveal_strlit("user");
    reveal_strlit("assistant");
    reveal_strlit("tool");
    assert("user"@[0] == 'u' && "tool"@[0] == 't');
    assert("system"@.len() == 6 && "assistant"@.len() == 9 && "user"@.len() == 4);
}

} // verus!
