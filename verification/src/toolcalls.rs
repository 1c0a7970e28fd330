//! Line-oriented tool calls.
//!
//! Not JSON. A small model mangles nested JSON often enough that the parser
//! would spend more attempts on punctuation than on work, and every mangled call
//! costs a model round trip. Line prefixes with an explicit block terminator
//! survive what JSON does not.
//!
//! ```text
//! TOOL read src/durations.py
//! TOOL run python3 -m unittest discover -s tests
//! TOOL write src/durations.py
//! <<<FILE
//! ...the whole file...
//! FILE>>>
//! TOOL done
//! ```

use vstd::prelude::*;
use vstd::slice::slice_subrange;
use crate::chat;
use crate::chat::{command_line, ToolCallRequest};
use crate::json;
use crate::json::quoted;
use crate::node::copy_texts;
use crate::paths::FilePath;
use crate::sandbox;
use crate::sandbox::{shell, Call, ToolCall};
use crate::split;
use crate::split::{split_lines, write_lines};
use crate::text;
use crate::text::{begins, chars_of, is_ignoring_case, string_of, strip_prefix, trimmed};

verus! {

#[derive(Debug, Clone, PartialEq, Eq)]
pub enum Step {
    Call(ToolCall),
    /// The agent says it has finished acting and the rest is its document.
    Done,
}

/// A step, as texts.
pub enum Taken {
    Call(Call),
    Done,
}

/// The step a value is.
pub open spec fn step_of(s: Step) -> Taken {
    match s {
        Step::Done => Taken::Done,
        Step::Call(c) => Taken::Call(c@),
    }
}

pub open spec fn steps_of(v: Seq<Step>) -> Seq<Taken> {
    v.map_values(|s: Step| step_of(s))
}

/// The place of the first line from `i` on that begins with `mark`, or the
/// number of lines where none does.
pub open spec fn next_mark(lines: Seq<Seq<char>>, i: int, mark: Seq<char>) -> int
    decreases lines.len() - i,
{
    if i < 0 || i >= lines.len() || text::starts_with(text::trim(lines[i]), mark) {
        i
    } else {
        next_mark(lines, i + 1, mark)
    }
}

/// What a line asks for, after its `TOOL `.
pub enum Asked {
    Nothing,
    Step(Taken),
    /// To write the file whose contents follow.
    Write(Seq<char>),
}

pub open spec fn asked(line: Seq<char>) -> Asked {
    match text::after_prefix(text::trim(line), "TOOL "@) {
        None => Asked::Nothing,
        Some(r) => {
            let rest = text::trim(r);
            if text::same_letters(rest, "done"@) {
                Asked::Step(Taken::Done)
            } else if text::starts_with(rest, "read "@) {
                Asked::Step(Taken::Call(Call::ReadFile { path: text::trim(rest.skip("read "@.len() as int)) }))
            } else if text::starts_with(rest, "run "@) {
                let command = text::trim(rest.skip("run "@.len() as int));
                if command.len() > 0 {
                    Asked::Step(Taken::Call(sandbox::shell_call(command)))
                } else {
                    Asked::Nothing
                }
            } else if text::starts_with(rest, "write "@) {
                Asked::Write(text::trim(rest.skip("write "@.len() as int)))
            } else {
                Asked::Nothing
            }
        },
    }
}

/// The steps from line `i` on. The contents of a file run from the line after
/// `<<<FILE` to the line before `FILE>>>`; whatever stands before them is the
/// model talking to itself. Without a terminator the write is dropped: half a
/// file is worse than none.
pub open spec fn steps_from(lines: Seq<Seq<char>>, i: int) -> Seq<Taken>
    decreases lines.len() - i,
{
    if i < 0 || i >= lines.len() {
        seq![]
    } else {
        match asked(lines[i]) {
            Asked::Nothing => steps_from(lines, i + 1),
            Asked::Step(s) => seq![s] + steps_from(lines, i + 1),
            Asked::Write(path) => {
                let open = next_mark(lines, i + 1, "<<<FILE"@) + 1;
                let close = next_mark(lines, open, "FILE>>>"@);
                if i < close < lines.len() {
                    seq![
                        Taken::Call(Call::WriteFile { path, content: split::unlines(lines.subrange(open, close)) }),
                    ] + steps_from(lines, close + 1)
                } else {
                    steps_from(lines, i + 1)
                }
            },
        }
    }
}

proof fn lemma_next_mark(lines: Seq<Seq<char>>, i: int, mark: Seq<char>)
    requires
        0 <= i,
    ensures
        next_mark(lines, i, mark) >= i,
        next_mark(lines, i, mark) <= lines.len() || next_mark(lines, i, mark) == i,
    decreases lines.len() - i,
{
    if i < lines.len() && !text::starts_with(text::trim(lines[i]), mark) {
        lemma_next_mark(lines, i + 1, mark);
    }
}

fn find_mark(lines: &[&[char]], from: usize, mark: &str) -> (k: usize)
    requires
        from <= lines.len(),
    ensures
        k == next_mark(text::pieces(lines@), from as int, mark@),
        from <= k <= lines.len(),
{
    let ghost p = text::pieces(lines@);
    let mut k: usize = from;
    while k < lines.len() && !begins(trimmed(lines[k]), mark)
        invariant
            from <= k <= lines.len(),
            p == text::pieces(lines@),
            next_mark(p, k as int, mark@) == next_mark(p, from as int, mark@),
        decreases lines.len() - k,
    {
        assert(p[k as int] == lines@[k as int]@);
        k = k + 1;
    }
    proof {
        if k < lines.len() {
            assert(p[k as int] == lines@[k as int]@);
        }
    }
    k
}

/// What a line asks for.
enum Ask {
    Nothing,
    Step(Step),
    Write(String),
}

fn read_line(line: &[char]) -> (a: Ask)
    ensures
        match a {
            Ask::Nothing => asked(line@) == Asked::Nothing,
            Ask::Step(s) => asked(line@) == Asked::Step(step_of(s)),
            Ask::Write(p) => asked(line@) == Asked::Write(p@),
        },
{
    let rest = match strip_prefix(trimmed(line), "TOOL ") {
        Some(r) => trimmed(r),
        None => return Ask::Nothing,
    };
    if is_ignoring_case(rest, "done") {
        return Ask::Step(Step::Done);
    }
    if let Some(path) = strip_prefix(rest, "read ") {
        return Ask::Step(Step::Call(ToolCall::ReadFile { path: FilePath { text: string_of(trimmed(path)) } }));
    }
    if let Some(r) = strip_prefix(rest, "run ") {
        let command = trimmed(r);
        if command.len() == 0 {
            return Ask::Nothing;
        }
        return Ask::Step(Step::Call(shell(string_of(command))));
    }
    if let Some(path) = strip_prefix(rest, "write ") {
        return Ask::Write(string_of(trimmed(path)));
    }
    Ask::Nothing
}

/// Extracts the calls in the order the model wrote them.
pub fn parse(reply: &str) -> (steps: Vec<Step>)
    ensures
        steps_of(steps@) == steps_from(split::lines(reply@), 0),
{
    let chars = chars_of(reply);
    let lines = split_lines(chars.as_slice());
    let ghost p = text::pieces(lines@);
    let mut steps: Vec<Step> = Vec::new();
    let mut i: usize = 0;
    assert(steps_of(steps@) + steps_from(p, 0) =~= steps_from(p, 0));
    while i < lines.len()
        invariant
            i <= lines.len(),
            p == text::pieces(lines@),
            steps_of(steps@) + steps_from(p, i as int) == steps_from(p, 0),
        decreases lines.len() - i,
    {
        let ghost before = steps@;
        assert(p[i as int] == lines@[i as int]@);
        match read_line(lines[i]) {
            Ask::Nothing => {
                i = i + 1;
            },
            Ask::Step(s) => {
                steps.push(s);
                assert(steps_of(steps@) =~= steps_of(before) + seq![step_of(s)]);
                i = i + 1;
                assert(steps_of(steps@) + steps_from(p, i as int) =~= steps_of(before) + steps_from(p, i - 1));
            },
            Ask::Write(path) => {
                let mark = find_mark(lines.as_slice(), i + 1, "<<<FILE");
                if mark < lines.len() {
                    let close = find_mark(lines.as_slice(), mark + 1, "FILE>>>");
                    if close < lines.len() {
                        let body = slice_subrange(lines.as_slice(), mark + 1, close);
                        assert(text::pieces(body@) =~= p.subrange(mark + 1, close as int));
                        let s = Step::Call(
                            ToolCall::WriteFile { path: FilePath { text: path }, content: write_lines(body) },
                        );
                        steps.push(s);
                        assert(steps_of(steps@) =~= steps_of(before) + seq![step_of(s)]);
                        assert(steps_of(steps@) + steps_from(p, close + 1) =~= steps_of(before) + steps_from(
                            p,
                            i as int,
                        ));
                        i = close + 1;
                    } else {
                        i = i + 1;
                    }
                } else {
                    proof {
                        lemma_next_mark(p, mark + 1, "FILE>>>"@);
                    }
                    i = i + 1;
                }
            },
        }
    }
    assert(steps_from(p, i as int) =~= seq![]);
    assert(steps_of(steps@) + steps_from(p, i as int) =~= steps_of(steps@));
    steps
}

/// What the agent is told it may do. Kept in one place so the syntax the parser
/// accepts and the syntax the model is shown cannot drift apart.
pub const TOOL_INSTRUCTIONS: &'static str = "
HOW TO ACT

You work in steps. In each reply, do ONE of these two things.

Either issue tool calls, one per line, and nothing else:

  TOOL read <path>
  TOOL run <shell command>
  TOOL write <path>
  <<<FILE
  the entire new contents of the file
  FILE>>>

Or, when the work is finished, reply with your document and no TOOL lines.

Rules that matter:
- `TOOL write` replaces the WHOLE file. Never write a fragment or a diff.
  Read the file first, then write it back complete with your change in it.
- After changing code, run the tests before you finish.
- One step at a time. Do not plan five steps ahead in one reply.
- Paths are relative to the project root.
";

// ------------------------------------------------------------------------ as requests

/// The calls that stand before the agent says it is done.
pub open spec fn until_done(steps: Seq<Taken>) -> Seq<Call>
    decreases steps.len(),
{
    if steps.len() == 0 {
        seq![]
    } else {
        match steps[0] {
            Taken::Done => seq![],
            Taken::Call(c) => seq![c] + until_done(steps.drop_first()),
        }
    }
}

/// The calls that a reply makes by its lines.
pub open spec fn line_calls(reply: Seq<char>) -> Seq<Call> {
    until_done(steps_from(split::lines(reply), 0))
}

/// Calls, as texts.
pub open spec fn all_calls(v: Seq<ToolCall>) -> Seq<Call> {
    v.map_values(|c: ToolCall| c@)
}

/// The calls that a reply makes by its lines, up to where the agent says that it
/// has finished acting.
pub fn calls_in_lines(reply: &str) -> (v: Vec<ToolCall>)
    ensures
        all_calls(v@) == line_calls(reply@),
{
    let steps = parse(reply);
    let ghost all = steps_of(steps@);
    let mut v: Vec<ToolCall> = Vec::new();
    let mut i: usize = 0;
    assert(all.skip(0) =~= all);
    assert(all_calls(v@) + until_done(all) =~= until_done(all));
    while i < steps.len()
        invariant
            i <= steps.len(),
            all == steps_of(steps@),
            until_done(all) == line_calls(reply@),
            all_calls(v@) + until_done(all.skip(i as int)) == until_done(all),
        decreases steps.len() - i,
    {
        assert(all.skip(i as int)[0] == step_of(steps@[i as int]));
        assert(all.skip(i as int).drop_first() =~= all.skip(i + 1));
        match &steps[i] {
            Step::Done => {
                assert(all_calls(v@) + until_done(all.skip(i as int)) =~= all_calls(v@));
                return v;
            },
            Step::Call(c) => {
                let ghost before = v@;
                let one = c.clone();
                v.push(one);
                assert(all_calls(v@) + until_done(all.skip(i + 1)) =~= all_calls(before) + (seq![c@] + until_done(
                    all.skip(i + 1),
                )));
            },
        }
        i = i + 1;
    }
    assert(all_calls(v@) + until_done(all.skip(i as int)) =~= all_calls(v@));
    v
}

/// A call that a line makes, as it would have come through the channel: the turn
/// that made it is shown with it. No line makes any other.
pub open spec fn request_of(c: Call) -> chat::Asked {
    match c {
        Call::ReadFile { path } => chat::Asked {
            name: "read_file"@,
            arguments: "{\"path\":"@ + json::json_quoted(path) + "}"@,
        },
        Call::WriteFile { path, content } => chat::Asked {
            name: "write_file"@,
            arguments: "{\"path\":"@ + json::json_quoted(path) + ",\"content\":"@ + json::json_quoted(content) + "}"@,
        },
        Call::RunCommand { program, args } => chat::Asked {
            name: "run_command"@,
            arguments: "{\"command\":"@ + json::json_quoted(chat::line_of(seq![program] + args)) + "}"@,
        },
        _ => chat::Asked { name: ""@, arguments: "{}"@ },
    }
}

/// A call that a line makes, as it would have come through the channel.
pub fn as_request(c: &ToolCall) -> (r: ToolCallRequest)
    ensures
        r@ == request_of(c@),
{
    match c {
        ToolCall::ReadFile { path } => {
            let mut arguments = "{\"path\":".to_owned();
            arguments.append(quoted(path.text.as_str()).as_str());
            arguments.append("}");
            ToolCallRequest { name: "read_file".to_owned(), arguments }
        },
        ToolCall::WriteFile { path, content } => {
            let mut arguments = "{\"path\":".to_owned();
            arguments.append(quoted(path.text.as_str()).as_str());
            arguments.append(",\"content\":");
            arguments.append(quoted(content.as_str()).as_str());
            arguments.append("}");
            ToolCallRequest { name: "write_file".to_owned(), arguments }
        },
        ToolCall::RunCommand { program, args } => {
            let mut argv = copy_texts(args.as_slice());
            argv.insert(0, program.as_str().to_owned());
            assert(text::texts(argv@) =~= seq![program@] + text::texts(args@));
            let mut arguments = "{\"command\":".to_owned();
            arguments.append(quoted(command_line(argv.as_slice()).as_str()).as_str());
            arguments.append("}");
            ToolCallRequest { name: "run_command".to_owned(), arguments }
        },
        _ => ToolCallRequest { name: "".to_owned(), arguments: "{}".to_owned() },
    }
}

// -------------------------------------------------------------------------- laws

/// Whether the step writes a whole file.
pub open spec fn is_write(s: Taken) -> bool {
    match s {
        Taken::Call(c) => c is WriteFile,
        Taken::Done => false,
    }
}

proof fn lemma_no_mark(lines: Seq<Seq<char>>, i: int, mark: Seq<char>)
    requires
        0 <= i,
        forall|j: int| 0 <= j < lines.len() ==> !text::starts_with(text::trim(#[trigger] lines[j]), mark),
    ensures
        next_mark(lines, i, mark) >= lines.len(),
    decreases lines.len() - i,
{
    if i < lines.len() {
        lemma_no_mark(lines, i + 1, mark);
    }
}

/// Half a file is worse than none: where no line closes a file, no write is
/// among the steps.
pub proof fn law_an_unterminated_write_is_dropped(lines: Seq<Seq<char>>, i: int)
    requires
        0 <= i,
        forall|j: int| 0 <= j < lines.len() ==> !text::starts_with(text::trim(#[trigger] lines[j]), "FILE>>>"@),
    ensures
        forall|k: int| 0 <= k < steps_from(lines, i).len() ==> !is_write(#[trigger] steps_from(lines, i)[k]),
    decreases lines.len() - i,
{
    if i < lines.len() {
        law_an_unterminated_write_is_dropped(lines, i + 1);
        let open = next_mark(lines, i + 1, "<<<FILE"@) + 1;
        lemma_next_mark(lines, i + 1, "<<<FILE"@);
        lemma_no_mark(lines, open, "FILE>>>"@);
        let rest = steps_from(lines, i + 1);
        assert forall|k: int| 0 <= k < steps_from(lines, i).len() implies !is_write(#[trigger] steps_from(lines, i)[k]) by {
            if let Asked::Step(s) = asked(lines[i]) {
                if k > 0 {
                    assert(steps_from(lines, i)[k] == rest[k - 1]);
                }
            }
        }
    }
}

/// Whether every file that a line from `i` on begins to write is closed by some
/// line after it.
pub open spec fn are_closed(lines: Seq<Seq<char>>, i: int) -> bool
    decreases lines.len() - i,
{
    if i < 0 || i >= lines.len() {
        true
    } else if asked(lines[i]) is Write {
        let open = next_mark(lines, i + 1, "<<<FILE"@) + 1;
        let close = next_mark(lines, open, "FILE>>>"@);
        i < close < lines.len() && are_closed(lines, close + 1)
    } else {
        are_closed(lines, i + 1)
    }
}

proof fn lemma_next_mark_in_front(lines: Seq<Seq<char>>, more: Seq<Seq<char>>, i: int, mark: Seq<char>)
    requires
        0 <= i,
        next_mark(lines, i, mark) < lines.len(),
    ensures
        next_mark(lines + more, i, mark) == next_mark(lines, i, mark),
    decreases lines.len() - i,
{
    lemma_next_mark(lines, i, mark);
    assert((lines + more)[i] == lines[i]);
    if !text::starts_with(text::trim(lines[i]), mark) {
        lemma_next_mark_in_front(lines, more, i + 1, mark);
    }
}

proof fn lemma_next_mark_behind(lines: Seq<Seq<char>>, more: Seq<Seq<char>>, j: int, mark: Seq<char>)
    requires
        0 <= j,
    ensures
        next_mark(lines + more, lines.len() + j, mark) == lines.len() + next_mark(more, j, mark),
    decreases more.len() - j,
{
    if j < more.len() {
        assert((lines + more)[lines.len() + j] == more[j]);
        if !text::starts_with(text::trim(more[j]), mark) {
            lemma_next_mark_behind(lines, more, j + 1, mark);
        }
    }
}

proof fn lemma_steps_behind(lines: Seq<Seq<char>>, more: Seq<Seq<char>>, j: int)
    requires
        0 <= j,
    ensures
        steps_from(lines + more, lines.len() + j) == steps_from(more, j),
    decreases more.len() - j,
{
    let all = lines + more;
    let n = lines.len() as int;
    if j < more.len() {
        assert(all[n + j] == more[j]);
        lemma_steps_behind(lines, more, j + 1);
        if asked(more[j]) is Write {
            let open = next_mark(more, j + 1, "<<<FILE"@) + 1;
            let close = next_mark(more, open, "FILE>>>"@);
            lemma_next_mark(more, j + 1, "<<<FILE"@);
            lemma_next_mark(more, open, "FILE>>>"@);
            lemma_next_mark_behind(lines, more, j + 1, "<<<FILE"@);
            lemma_next_mark_behind(lines, more, open, "FILE>>>"@);
            if j < close < more.len() {
                assert(all.subrange(n + open, n + close) =~= more.subrange(open, close));
                lemma_steps_behind(lines, more, close + 1);
            }
        }
    }
}

proof fn lemma_steps_of_parts(lines: Seq<Seq<char>>, more: Seq<Seq<char>>, i: int)
    requires
        0 <= i <= lines.len(),
        are_closed(lines, i),
    ensures
        steps_from(lines + more, i) == steps_from(lines, i) + steps_from(more, 0),
    decreases lines.len() - i,
{
    let all = lines + more;
    if i == lines.len() {
        lemma_steps_behind(lines, more, 0);
        assert(steps_from(lines, i) + steps_from(more, 0) =~= steps_from(more, 0));
    } else {
        assert(all[i] == lines[i]);
        if asked(lines[i]) is Write {
            let open = next_mark(lines, i + 1, "<<<FILE"@) + 1;
            let close = next_mark(lines, open, "FILE>>>"@);
            lemma_next_mark(lines, i + 1, "<<<FILE"@);
            lemma_next_mark(lines, open, "FILE>>>"@);
            lemma_next_mark_in_front(lines, more, open, "FILE>>>"@);
            lemma_next_mark_in_front(lines, more, i + 1, "<<<FILE"@);
            assert(all.subrange(open, close) =~= lines.subrange(open, close));
            lemma_steps_of_parts(lines, more, close + 1);
        } else {
            lemma_steps_of_parts(lines, more, i + 1);
        }
        assert(steps_from(all, i) =~= steps_from(lines, i) + steps_from(more, 0));
    }
}

/// No call is lost and none moves: the steps of some lines and more after them are
/// the steps of the first, and then the steps of the others, wherever the first
/// close the files that they begin to write.
pub proof fn law_the_steps_are_those_of_the_parts(lines: Seq<Seq<char>>, more: Seq<Seq<char>>)
    requires
        are_closed(lines, 0),
    ensures
        steps_from(lines + more, 0) == steps_from(lines, 0) + steps_from(more, 0),
{
    lemma_steps_of_parts(lines, more, 0);
}

/// A line that does not begin with `TOOL ` is no call.
pub proof fn law_other_lines_are_no_calls(line: Seq<char>)
    requires
        !text::starts_with(text::trim(line), "TOOL "@),
    ensures
        steps_from(seq![line], 0) == Seq::<Taken>::empty(),
        are_closed(seq![line], 0),
{
    let lines = seq![line];
    assert(lines[0] == line);
    assert(steps_from(lines, 1) =~= seq![]);
    assert(are_closed(lines, 1));
}

proof fn lemma_trimmed_end(s: Seq<char>, t: Seq<char>)
    requires
        s.len() > 0,
        !text::is_white(s[0]),
        t.len() > 0,
        text::trim(t) == t,
    ensures
        text::trim(s + t) == s + t,
{
    text::lemma_trim(t);
    assert((s + t)[0] == s[0]);
    assert((s + t).last() == t.last());
    text::lemma_trim_fixed(s + t);
}

/// A line `TOOL read <path>` asks for that file, and for nothing else.
pub proof fn law_a_read_is_a_read(line: Seq<char>, path: Seq<char>)
    requires
        text::trim(line) == "TOOL read "@ + path,
        text::trim(path) == path,
        path.len() > 0,
    ensures
        steps_from(seq![line], 0) == seq![Taken::Call(Call::ReadFile { path })],
        are_closed(seq![line], 0),
{
    reveal_strlit("TOOL read ");
    reveal_strlit("TOOL ");
    reveal_strlit("read ");
    reveal_strlit("done");
    let lines = seq![line];
    let t = text::trim(line);
    let rest = "read "@ + path;
    assert("TOOL read "@ =~= "TOOL "@ + "read "@);
    assert(t =~= "TOOL "@ + rest);
    assert(t.subrange(0, 5) =~= "TOOL "@);
    assert(t.skip(5) =~= rest);
    assert(text::after_prefix(t, "TOOL "@) == Some(rest));
    lemma_trimmed_end("read "@, path);
    assert(rest.subrange(0, 5) =~= "read "@);
    assert(rest.skip(5) =~= path);
    assert(text::lower(rest).len() != text::lower("done"@).len());
    assert(asked(lines[0]) == Asked::Step(Taken::Call(Call::ReadFile { path })));
    assert(steps_from(lines, 1) =~= seq![]);
    assert(steps_from(lines, 0) =~= seq![Taken::Call(Call::ReadFile { path })]);
    assert(are_closed(lines, 1));
}

/// A line `TOOL run <command>` asks for that command to be run, by a shell.
pub proof fn law_a_run_is_a_run(line: Seq<char>, command: Seq<char>)
    requires
        text::trim(line) == "TOOL run "@ + command,
        text::trim(command) == command,
        command.len() > 0,
    ensures
        steps_from(seq![line], 0) == seq![
            Taken::Call(Call::RunCommand { program: "bash"@, args: seq!["-lc"@, command] }),
        ],
        are_closed(seq![line], 0),
{
    reveal_strlit("TOOL run ");
    reveal_strlit("TOOL ");
    reveal_strlit("read ");
    reveal_strlit("run ");
    reveal_strlit("done");
    let lines = seq![line];
    let t = text::trim(line);
    let rest = "run "@ + command;
    let step = Taken::Call(Call::RunCommand { program: "bash"@, args: seq!["-lc"@, command] });
    assert("TOOL run "@ =~= "TOOL "@ + "run "@);
    assert(t =~= "TOOL "@ + rest);
    assert(t.subrange(0, 5) =~= "TOOL "@);
    assert(t.skip(5) =~= rest);
    assert(text::after_prefix(t, "TOOL "@) == Some(rest));
    lemma_trimmed_end("run "@, command);
    assert(rest.subrange(0, 4) =~= "run "@);
    assert(rest.skip(4) =~= command);
    assert(text::lower(rest).len() != text::lower("done"@).len());
    assert(!text::starts_with(rest, "read "@)) by {
        assert(rest[1] == 'u');
        if text::starts_with(rest, "read "@) {
            assert(rest.subrange(0, 5)[1] == 'e');
        }
    }
    assert(asked(lines[0]) == Asked::Step(step));
    assert(steps_from(lines, 1) =~= seq![]);
    assert(steps_from(lines, 0) =~= seq![step]);
    assert(are_closed(lines, 1));
}

/// A line `TOOL done`, in letters of either case, says that the calls are over.
pub proof fn law_done_is_done(line: Seq<char>, word: Seq<char>)
    requires
        text::trim(line) == "TOOL "@ + word,
        text::trim(word) == word,
        text::same_letters(word, "done"@),
    ensures
        steps_from(seq![line], 0) == seq![Taken::Done],
        are_closed(seq![line], 0),
{
    reveal_strlit("TOOL ");
    let lines = seq![line];
    let t = text::trim(line);
    assert(t.subrange(0, 5) =~= "TOOL "@);
    assert(t.skip(5) =~= word);
    assert(text::after_prefix(t, "TOOL "@) == Some(word));
    assert(asked(lines[0]) == Asked::Step(Taken::Done));
    assert(steps_from(lines, 1) =~= seq![]);
    assert(steps_from(lines, 0) =~= seq![Taken::Done]);
    assert(are_closed(lines, 1));
}

proof fn lemma_mark_at(lines: Seq<Seq<char>>, i: int, k: int, mark: Seq<char>)
    requires
        0 <= i <= k < lines.len(),
        text::starts_with(text::trim(lines[k]), mark),
        forall|j: int| i <= j < k ==> !text::starts_with(text::trim(#[trigger] lines[j]), mark),
    ensures
        next_mark(lines, i, mark) == k,
    decreases k - i,
{
    if i < k {
        lemma_mark_at(lines, i + 1, k, mark);
    }
}

/// A line `TOOL write <path>`, with a file that is opened and closed after it, asks
/// for that file to be written with exactly the lines in between; what is said
/// before the file is opened is no part of it.
pub proof fn law_a_write_carries_its_file(
    line: Seq<char>,
    path: Seq<char>,
    chatter: Seq<Seq<char>>,
    open: Seq<char>,
    body: Seq<Seq<char>>,
    close: Seq<char>,
)
    requires
        text::trim(line) == "TOOL write "@ + path,
        text::trim(path) == path,
        path.len() > 0,
        forall|j: int| 0 <= j < chatter.len() ==> !text::starts_with(text::trim(#[trigger] chatter[j]), "<<<FILE"@),
        text::starts_with(text::trim(open), "<<<FILE"@),
        forall|j: int| 0 <= j < body.len() ==> !text::starts_with(text::trim(#[trigger] body[j]), "FILE>>>"@),
        text::starts_with(text::trim(close), "FILE>>>"@),
    ensures
        ({
            let block = seq![line] + chatter + seq![open] + body + seq![close];
            &&& steps_from(block, 0) == seq![
                Taken::Call(Call::WriteFile { path, content: split::unlines(body) }),
            ]
            &&& are_closed(block, 0)
        }),
{
    reveal_strlit("TOOL write ");
    reveal_strlit("TOOL ");
    reveal_strlit("read ");
    reveal_strlit("run ");
    reveal_strlit("write ");
    reveal_strlit("done");
    let block = seq![line] + chatter + seq![open] + body + seq![close];
    let t = text::trim(line);
    let rest = "write "@ + path;
    assert("TOOL write "@ =~= "TOOL "@ + "write "@);
    assert(t =~= "TOOL "@ + rest);
    assert(t.subrange(0, 5) =~= "TOOL "@);
    assert(t.skip(5) =~= rest);
    assert(text::after_prefix(t, "TOOL "@) == Some(rest));
    lemma_trimmed_end("write "@, path);
    assert(rest.subrange(0, 6) =~= "write "@);
    assert(rest.skip(6) =~= path);
    assert(text::lower(rest).len() != text::lower("done"@).len());
    assert(rest[0] == 'w');
    assert(!text::starts_with(rest, "read "@)) by {
        if text::starts_with(rest, "read "@) {
            assert(rest.subrange(0, 5)[0] == 'r');
        }
    }
    assert(!text::starts_with(rest, "run "@)) by {
        if text::starts_with(rest, "run "@) {
            assert(rest.subrange(0, 4)[0] == 'r');
        }
    }
    assert(asked(block[0]) == Asked::Write(path));
    let o: int = chatter.len() as int + 1;
    let c: int = o + 1 + body.len() as int;
    assert(block[o] == open);
    assert(block[c] == close);
    assert forall|j: int| 1 <= j < o implies !text::starts_with(text::trim(#[trigger] block[j]), "<<<FILE"@) by {
        assert(block[j] == chatter[j - 1]);
    }
    assert forall|j: int| o + 1 <= j < c implies !text::starts_with(text::trim(#[trigger] block[j]), "FILE>>>"@) by {
        assert(block[j] == body[j - o - 1]);
    }
    lemma_mark_at(block, 1, o, "<<<FILE"@);
    lemma_mark_at(block, o + 1, c, "FILE>>>"@);
    assert(block.subrange(o + 1, c) =~= body);
    assert(steps_from(block, c + 1) =~= seq![]);
    assert(steps_from(block, 0) =~= seq![
        Taken::Call(Call::WriteFile { path, content: split::unlines(body) }),
    ]);
    assert(are_closed(block, c + 1));
}

/// The calls that are performed are those before the first `TOOL done`, all of
/// them and in their order.
pub proof fn law_calls_are_kept_up_to_done(steps: Seq<Taken>, k: int)
    requires
        0 <= k <= steps.len(),
        forall|i: int| 0 <= i < k ==> (#[trigger] steps[i]) is Call,
        k == steps.len() || steps[k] is Done,
    ensures
        until_done(steps).len() == k,
        forall|i: int| 0 <= i < k ==> steps[i] == Taken::Call(#[trigger] until_done(steps)[i]),
    decreases k,
{
    if k > 0 {
        assert(steps[0] is Call);
        let rest = steps.drop_first();
        assert forall|i: int| 0 <= i < k - 1 implies (#[trigger] rest[i]) is Call by {
            assert(rest[i] == steps[i + 1]);
        }
        if k < steps.len() {
            assert(rest[k - 1] == steps[k]);
        }
        law_calls_are_kept_up_to_done(rest, k - 1);
        assert forall|i: int| 0 <= i < k implies steps[i] == Taken::Call(#[trigger] until_done(steps)[i]) by {
            if i > 0 {
                assert(until_done(steps)[i] == until_done(rest)[i - 1]);
                assert(rest[i - 1] == steps[i]);
            }
        }
    }
}

} // verus!
