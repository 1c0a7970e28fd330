//! One agent node that answers in one shot: who does it, what it is asked, and
//! what is made of its reply.
//!
//! A malformed document goes back to the model with an instruction, and so does
//! a patch that does not apply: git says exactly what it choked on, and failing
//! the node there would waste the attempts that are left. An answer that ran out
//! of room is named as one, and not taken for a malformed one.

use vstd::prelude::*;
use crate::digits;
use crate::digits::{write_number, write_signed};
use crate::dispatcher::{Came, Outcome};
use crate::document;
use crate::document::{parse, render, Artifact, Content, DocError, Document, Fault};
use crate::engine::Engine;
use crate::graph::Node;
use crate::json;
use crate::node;
use crate::node::{strip_outer_fence, MAX_ATTEMPTS};
use crate::outputs;
use crate::outputs::{can_count, extract_diff, numbered, parse_test_output, stamp, tool_document};
use crate::run;
use crate::run::{RoleSpec, RunState, TestBaseline};
use crate::sandbox::{Call, ToolCall};
use crate::split;
use crate::split::join_strings;
use crate::table;
use crate::text;
use crate::text::{chars_of, trimmed};
use crate::tokens::Tokenizer;

verus! {

// ------------------------------------------------------------------------- the task

/// Who does the work of a node: the role, the model it runs on, the kind of
/// document it writes, and the file of that.
pub struct Assignment<'a> {
    pub role: &'a RoleSpec,
    pub model: &'a str,
    pub artifact: Artifact,
    pub output: &'a str,
}

/// Who does the work of a node, as texts.
pub struct Assigned {
    pub role: RoleSpec,
    pub model: Seq<char>,
    pub artifact: Artifact,
    pub output: Seq<char>,
}

impl<'a> View for Assignment<'a> {
    type V = Assigned;

    open spec fn view(&self) -> Assigned {
        Assigned { role: *self.role, model: self.model@, artifact: self.artifact, output: self.output@ }
    }
}

/// The slot a node runs in: its own, or that of its role.
pub open spec fn slot_of(node: Node, role: RoleSpec) -> Seq<char> {
    match node.slot {
        Some(s) => s@,
        None => role.slot@,
    }
}

/// Who does the work of a node, or why nobody does.
pub open spec fn assigned(
    roles: Seq<(Seq<char>, RoleSpec)>,
    slots: Seq<(Seq<char>, Seq<char>)>,
    node: Node,
) -> Result<Assigned, Seq<char>> {
    match node.role {
        None => Err("`"@ + node.id@ + "` names no role"@),
        Some(name) => match table::lookup(roles, name@) {
            None => Err("no role `"@ + name@ + "`"@),
            Some(role) => match table::lookup(slots, slot_of(node, role)) {
                None => Err("slot `"@ + slot_of(node, role) + "` is not bound to a model"@),
                Some(model) => match document::artifact_named(text::trim(role.artifact@)) {
                    None => Err("unknown artifact `"@ + role.artifact@ + "`"@),
                    Some(artifact) => match node.output {
                        None => Err("`"@ + node.id@ + "` declares no output"@),
                        Some(output) => Ok(Assigned { role, model, artifact, output: output@ }),
                    },
                },
            },
        },
    }
}

/// A text between two others.
fn around(before: &str, s: &str, after: &str) -> (r: String)
    ensures
        r@ == before@ + s@ + after@,
{
    let mut r = before.to_owned();
    r.append(s);
    r.append(after);
    r
}

impl Engine {
    /// Who does the work of a node.
    pub fn assign<'a>(&'a self, node: &'a Node) -> (r: Result<Assignment<'a>, String>)
        ensures
            match r {
                Ok(a) => assigned(self.roles@, table::as_texts(self.slots@), *node) == Ok::<
                    Assigned,
                    Seq<char>,
                >(a@),
                Err(why) => assigned(self.roles@, table::as_texts(self.slots@), *node) == Err::<
                    Assigned,
                    Seq<char>,
                >(why@),
            },
    {
        let name: &str = match &node.role {
            Some(name) => name.as_str(),
            None => {
                return Err(around("`", node.id.as_str(), "` names no role"));
            },
        };
        let role: &RoleSpec = match self.roles.get(name) {
            Some(role) => role,
            None => {
                return Err(around("no role `", name, "`"));
            },
        };
        let slot: &str = match &node.slot {
            Some(s) => s.as_str(),
            None => role.slot.as_str(),
        };
        proof {
            table::lemma_lookup_texts(self.slots@, slot@);
        }
        let model: &str = match self.slots.get(slot) {
            Some(m) => m.as_str(),
            None => {
                return Err(around("slot `", slot, "` is not bound to a model"));
            },
        };
        let artifact = match Artifact::parse(role.artifact.as_str()) {
            Some(a) => a,
            None => {
                return Err(around("unknown artifact `", role.artifact.as_str(), "`"));
            },
        };
        match &node.output {
            Some(output) => Ok(Assignment { role, model, artifact, output: output.as_str() }),
            None => Err(around("`", node.id.as_str(), "` declares no output")),
        }
    }
}

/// How many tokens a role's answer may take, where `usual` is what one takes that
/// says nothing of it.
pub open spec fn room_for(role: RoleSpec, usual: i32) -> i32 {
    match role.max_output {
        Some(n) => n,
        None => usual,
    }
}

/// How many tokens an answer in one shot usually takes.
pub const ANSWER_ROOM: i32 = 1400;

/// How many tokens a step with tools usually takes.
pub const STEP_ROOM: i32 = 1600;

impl RoleSpec {
    /// How many tokens an answer in one shot may take.
    pub fn answer_room(&self) -> (n: i32)
        ensures
            n == room_for(*self, ANSWER_ROOM),
    {
        match self.max_output {
            Some(n) => n,
            None => ANSWER_ROOM,
        }
    }

    /// How many tokens a step with tools may take.
    pub fn step_room(&self) -> (n: i32)
        ensures
            n == room_for(*self, STEP_ROOM),
    {
        match self.max_output {
            Some(n) => n,
            None => STEP_ROOM,
        }
    }
}

// ----------------------------------------------------------------------- tool nodes

/// The command of a tool node and the file its result goes to, or why there is
/// none.
pub open spec fn tool_task(node: Node) -> Result<(Seq<Seq<char>>, Seq<char>), Seq<char>> {
    if node.command is None || node.command->0@.len() == 0 {
        Err("`"@ + node.id@ + "` is a tool node with no command"@)
    } else {
        match node.output {
            None => Err("`"@ + node.id@ + "` declares no output"@),
            Some(output) => Ok((text::texts(node.command->0@), output@)),
        }
    }
}

/// A command to run, and the file that its result goes to.
#[derive(Debug, Clone)]
pub struct ToolTask {
    pub call: ToolCall,
    /// The command in one line.
    pub command: String,
    pub output: String,
    pub note: String,
}

/// The words of a command: the program, and its arguments.
pub open spec fn run_call(command: Seq<Seq<char>>) -> Call {
    Call::RunCommand { program: command[0], args: command.drop_first() }
}

/// Copies all but the first of the words.
fn copy_rest(v: &[String]) -> (r: Vec<String>)
    requires
        v@.len() > 0,
    ensures
        text::texts(r@) == text::texts(v@).drop_first(),
{
    let ghost all = text::texts(v@);
    let mut r: Vec<String> = Vec::new();
    let mut i: usize = 1;
    assert(text::texts(r@) =~= all.subrange(1, 1));
    while i < v.len()
        invariant
            1 <= i <= v.len(),
            all == text::texts(v@),
            text::texts(r@) == all.subrange(1, i as int),
        decreases v.len() - i,
    {
        let w = v[i].as_str().to_owned();
        proof {
            text::lemma_texts_push(r@, w);
        }
        r.push(w);
        i = i + 1;
        assert(all.subrange(1, i as int) =~= all.subrange(1, i - 1).push(all[i - 1]));
    }
    assert(all.subrange(1, i as int) =~= all.drop_first());
    r
}

/// The call that runs a command.
pub fn command_call(command: &[String]) -> (c: ToolCall)
    requires
        command@.len() > 0,
    ensures
        c@ == run_call(text::texts(command@)),
{
    assert(text::texts(command@)[0] == command@[0]@);
    ToolCall::RunCommand { program: command[0].as_str().to_owned(), args: copy_rest(command) }
}

/// What a tool node is to run.
pub fn tool_node(node: &Node) -> (r: Result<ToolTask, String>)
    ensures
        match r {
            Ok(t) => tool_task(*node) matches Ok((command, output)) && t.call@ == run_call(command) && t.command@
                == split::join(command, " "@) && t.output@ == output && t.note@ == node.id@ + " runs `"@
                + split::join(command, " "@) + "`"@,
            Err(why) => tool_task(*node) == Err::<(Seq<Seq<char>>, Seq<char>), Seq<char>>(why@),
        },
{
    let command: &Vec<String> = match &node.command {
        Some(c) => c,
        None => {
            return Err(around("`", node.id.as_str(), "` is a tool node with no command"));
        },
    };
    if command.len() == 0 {
        return Err(around("`", node.id.as_str(), "` is a tool node with no command"));
    }
    let output = match &node.output {
        Some(o) => o.as_str().to_owned(),
        None => {
            return Err(around("`", node.id.as_str(), "` declares no output"));
        },
    };
    let shown = join_strings(command.as_slice(), " ");
    let mut note = node.id.as_str().to_owned();
    note.append(" runs `");
    note.append(shown.as_str());
    note.append("`");
    Ok(ToolTask { call: command_call(command.as_slice()), command: shown, output, note })
}

/// All that a command printed.
pub open spec fn printed(stdout: Seq<char>, stderr: Seq<char>) -> Seq<char> {
    if text::is_blank(stderr) {
        stdout
    } else {
        stdout + "\n"@ + stderr
    }
}

/// Puts together all that a command printed.
pub fn combine(stdout: &str, stderr: &str) -> (s: String)
    ensures
        s@ == printed(stdout@, stderr@),
{
    let chars = chars_of(stderr);
    let mut s = stdout.to_owned();
    if trimmed(chars.as_slice()).len() > 0 {
        s.append("\n");
        s.append(stderr);
    }
    s
}

/// What comes of a tool node's command: the text of its document, and what is
/// noted once that is written. `shown` is the outcome in words, for one that no
/// command has.
pub open spec fn tool_came(
    id: Seq<char>,
    run_id: Seq<char>,
    command: Seq<char>,
    output: Seq<char>,
    came: Came,
    shown: Seq<char>,
    now: Seq<char>,
) -> Result<(Seq<char>, Seq<char>), Seq<char>> {
    match came {
        Came::Ran { exit_code, stdout, stderr } => Ok(
            (
                outputs::tool_text(run_id, id, command, exit_code as int, printed(stdout, stderr), now),
                id + " wrote "@ + output + " (exit "@ + digits::signed_decimal(exit_code as int) + ")"@,
            ),
        ),
        Came::Refused(why) => Err("`"@ + id + "` was refused: "@ + why),
        _ => Err("`"@ + id + "` produced an unexpected outcome: "@ + shown),
    }
}

/// Whether the counts in what a command printed can be read.
pub open spec fn is_readable(came: Came) -> bool {
    came matches Came::Ran { stdout, stderr, .. } ==> outputs::is_countable(split::lines(printed(stdout, stderr)))
}

/// Whether the counts in what a command printed can be read.
pub fn can_read(outcome: &Outcome) -> (r: bool)
    ensures
        r == is_readable(outcome@),
{
    match outcome {
        Outcome::Ran { stdout, stderr, .. } => can_count(combine(stdout.as_str(), stderr.as_str()).as_str()),
        _ => true,
    }
}

/// The counts of the tests that a command printed, where it did.
pub open spec fn printed_counts(came: Came) -> Option<TestBaseline> {
    match came {
        Came::Ran { stdout, stderr, .. } => {
            let c = outputs::tallied(split::lines(printed(stdout, stderr)));
            if c.conclusive {
                Some(TestBaseline { total: c.total as u32, failed: c.failed as u32 })
            } else {
                None
            }
        },
        _ => None,
    }
}

/// Makes a document of what a tool node's command came to, and what is noted once
/// that is written. Where the command ran tests, the run keeps their counts.
pub fn tool_result(
    run: &mut RunState,
    id: &str,
    task: &ToolTask,
    outcome: &Outcome,
    shown: &str,
    now: &str,
) -> (r: Result<(String, String), String>)
    requires
        is_readable(outcome@),
    ensures
        match r {
            Ok((doc, note)) => tool_came(
                id@,
                old(run).run_id@,
                task.command@,
                task.output@,
                outcome@,
                shown@,
                now@,
            ) == Ok::<(Seq<char>, Seq<char>), Seq<char>>((doc@, note@)),
            Err(why) => tool_came(
                id@,
                old(run).run_id@,
                task.command@,
                task.output@,
                outcome@,
                shown@,
                now@,
            ) == Err::<(Seq<char>, Seq<char>), Seq<char>>(why@),
        },
        *final(run) == (RunState {
            measured: run::last_counts(old(run).measured, printed_counts(outcome@)),
            ..*old(run)
        }),
{
    match outcome {
        Outcome::Ran { exit_code, stdout, stderr } => {
            let all = combine(stdout.as_str(), stderr.as_str());
            let c = parse_test_output(all.as_str());
            let counts = if c.conclusive {
                Some(TestBaseline { total: c.total, failed: c.failed })
            } else {
                None
            };
            run.note_tests(counts);
            let doc = tool_document(run.run_id.as_str(), id, task.command.as_str(), *exit_code, all.as_str(), now);
            let mut note = id.to_owned();
            note.append(" wrote ");
            note.append(task.output.as_str());
            note.append(" (exit ");
            note.append(write_signed(*exit_code).as_str());
            note.append(")");
            Ok((doc, note))
        },
        Outcome::Refused(why) => {
            let mut s = around("`", id, "` was refused: ");
            s.append(why.as_str());
            Err(s)
        },
        _ => {
            let mut s = around("`", id, "` produced an unexpected outcome: ");
            s.append(shown);
            Err(s)
        },
    }
}

// ------------------------------------------------------------------------- attempts

/// A node on its way to a document: the attempt it began with, how many it has
/// behind it, and what the model is to be told about the last one.
#[derive(Debug, Clone, PartialEq, Eq)]
pub struct AgentRun {
    pub first: u32,
    pub tries: u32,
    pub correction: Option<String>,
}

/// A node on its way to a document, as texts.
pub struct Trial {
    pub first: nat,
    pub tries: nat,
    pub correction: Option<Seq<char>>,
}

impl View for AgentRun {
    type V = Trial;

    open spec fn view(&self) -> Trial {
        Trial { first: self.first as nat, tries: self.tries as nat, correction: json::said(self.correction) }
    }
}

/// Whether there is an attempt left to make.
pub open spec fn is_open(t: Trial) -> bool {
    1 <= t.first && t.first + MAX_ATTEMPTS <= u32::MAX && t.tries < MAX_ATTEMPTS
}

/// The prompt of an attempt.
pub open spec fn prompt_text(context: Seq<char>, correction: Option<Seq<char>>) -> Seq<char> {
    match correction {
        Some(c) => context + "\n\nCORRECTION\n"@ + c,
        None => context,
    }
}

/// The file that the document of an attempt goes to.
pub open spec fn file_of(output: Seq<char>, attempt: nat) -> Seq<char> {
    if attempt == 1 {
        output
    } else {
        outputs::numbered_name(output, attempt)
    }
}

/// What a model is told whose answer ran out of room.
pub open spec fn shorten_text(room: int) -> Seq<char> {
    "The previous reply was cut off at "@ + digits::signed_decimal(room)
        + " tokens, before the document was finished. Reply with the whole document again, and make it short enough to fit."@
}

/// What a model is told whose patch did not apply.
pub open spec fn mend_patch_text(why: Seq<char>) -> Seq<char> {
    "The previous reply was rejected: the diff did not apply. git said: "@ + why
        + "\nReply with the corrected document only. Re-read the file contents you were given and quote context lines exactly as they appear there, including indentation. Do not guess line numbers — write the hunk header as @@ -1 +1 @@ and let the context lines carry the position."@
}

/// What is said of a node that has no attempt left.
pub open spec fn given_up(id: Seq<char>) -> Seq<char> {
    "`"@ + id + "` produced no valid document in "@ + digits::decimal(MAX_ATTEMPTS as nat) + " attempts"@
}

/// What became of a reply.
#[derive(Debug, Clone, PartialEq, Eq)]
pub enum Answered {
    /// The document, and the text that goes to its file.
    Wrote { doc: Document, file: String, text: String, note: String },
    /// The model is asked again.
    Again { note: String },
    /// There is no attempt left.
    Failed { note: String, why: String },
}

/// What became of a reply, as texts.
pub enum Got {
    Wrote { doc: Content, file: Seq<char>, text: Seq<char>, note: Seq<char> },
    Again { note: Seq<char> },
    Failed { note: Seq<char>, why: Seq<char> },
}

impl View for Answered {
    type V = Got;

    open spec fn view(&self) -> Got {
        match self {
            Answered::Wrote { doc, file, text, note } => Got::Wrote {
                doc: doc@,
                file: file@,
                text: text@,
                note: note@,
            },
            Answered::Again { note } => Got::Again { note: note@ },
            Answered::Failed { note, why } => Got::Failed { note: note@, why: why@ },
        }
    }
}

/// An attempt that came to nothing: on to the next with a correction, or to the
/// end.
pub open spec fn set_back(t: Trial, id: Seq<char>, note: Seq<char>, correction: Seq<char>) -> (Trial, Got) {
    (
        Trial { tries: t.tries + 1, correction: Some(correction), ..t },
        if t.tries + 1 < MAX_ATTEMPTS {
            Got::Again { note }
        } else {
            Got::Failed { note, why: given_up(id) }
        },
    )
}

/// What is noted of a reply that is no document.
pub open spec fn rejection_note(id: Seq<char>, e: Fault, truncated: bool, room: int) -> Seq<char> {
    if truncated {
        id + ": the answer was cut off at "@ + digits::signed_decimal(room) + " tokens"@
    } else {
        id + " rejected: "@ + document::complaint(e)
    }
}

/// What the model is told of a reply that is no document.
pub open spec fn rejection_text(e: Fault, truncated: bool, room: int) -> Seq<char> {
    if truncated {
        shorten_text(room)
    } else {
        document::guidance_text(e)
    }
}

/// What a reply comes to, where `room` tokens were asked for and `truncated` is
/// whether it took them all.
pub open spec fn answered<T: Tokenizer + ?Sized>(
    t: Trial,
    id: Seq<char>,
    run_id: Seq<char>,
    who: Assigned,
    reply: Seq<char>,
    truncated: bool,
    now: Seq<char>,
    tok: &T,
) -> (Trial, Got) {
    let attempt = t.first + t.tries;
    let room = room_for(who.role, ANSWER_ROOM) as int;
    match document::parsed(node::without_fence(reply), tok) {
        Ok(c) => {
            let doc = outputs::marked(c, run_id, id, attempt, who.model, now);
            let file = file_of(who.output, attempt);
            (t, Got::Wrote { doc, file, text: document::rendered(doc), note: id + " wrote "@ + file })
        },
        Err(e) => set_back(t, id, rejection_note(id, e, truncated, room), rejection_text(e, truncated, room)),
    }
}

impl AgentRun {
    /// Begins with the attempt after the last that the node has taken.
    pub fn begin(run: &RunState, id: &str) -> (a: Self)
        requires
            run::attempts_of(run.attempts@, id@) + MAX_ATTEMPTS < u32::MAX,
        ensures
            a@ == (Trial { first: run::attempts_of(run.attempts@, id@) + 1, tries: 0, correction: None }),
            is_open(a@),
    {
        AgentRun { first: run.attempts_of(id) + 1, tries: 0, correction: None }
    }

    /// The number of the attempt.
    pub fn attempt(&self) -> (n: u32)
        requires
            is_open(self@),
        ensures
            n == self@.first + self@.tries,
    {
        self.first + self.tries
    }

    /// The prompt of the attempt.
    pub fn prompt(&self, context: &str) -> (s: String)
        ensures
            s@ == prompt_text(context@, self@.correction),
    {
        let mut s = context.to_owned();
        if let Some(c) = &self.correction {
            s.append("\n\nCORRECTION\n");
            s.append(c.as_str());
        }
        s
    }

    /// What is noted when the attempt begins.
    pub fn note(&self, id: &str, model: &str) -> (s: String)
        requires
            is_open(self@),
        ensures
            s@ == id@ + " attempt "@ + digits::decimal(self@.first + self@.tries) + " on "@ + model@,
    {
        let mut s = id.to_owned();
        s.append(" attempt ");
        s.append(write_number(self.attempt() as u128).as_str());
        s.append(" on ");
        s.append(model);
        s
    }

    fn set_back(&mut self, id: &str, note: String, correction: String) -> (r: Answered)
        requires
            is_open(old(self)@),
        ensures
            (final(self)@, r@) == set_back(old(self)@, id@, note@, correction@),
    {
        self.tries = self.tries + 1;
        self.correction = Some(correction);
        if self.tries < MAX_ATTEMPTS {
            Answered::Again { note }
        } else {
            let mut why = "`".to_owned();
            why.append(id);
            why.append("` produced no valid document in ");
            why.append(write_number(MAX_ATTEMPTS as u128).as_str());
            why.append(" attempts");
            Answered::Failed { note, why }
        }
    }

    fn reject(&mut self, id: &str, e: &DocError, truncated: bool, room: i32) -> (r: Answered)
        requires
            is_open(old(self)@),
        ensures
            (final(self)@, r@) == set_back(
                old(self)@,
                id@,
                rejection_note(id@, e@, truncated, room as int),
                rejection_text(e@, truncated, room as int),
            ),
    {
        let mut note = id.to_owned();
        if truncated {
            note.append(": the answer was cut off at ");
            note.append(write_signed(room).as_str());
            note.append(" tokens");
            let correction = shorten(room);
            self.set_back(id, note, correction)
        } else {
            note.append(" rejected: ");
            note.append(e.message().as_str());
            self.set_back(id, note, e.guidance())
        }
    }

    /// Takes the model's reply to the attempt.
    pub fn receive<'a, T: Tokenizer + ?Sized>(
        &mut self,
        id: &str,
        run_id: &str,
        who: &Assignment<'a>,
        reply: &str,
        truncated: bool,
        now: &str,
        tok: &T,
    ) -> (r: Answered)
        requires
            is_open(old(self)@),
        ensures
            (final(self)@, r@) == answered(old(self)@, id@, run_id@, who@, reply@, truncated, now@, tok),
    {
        let raw = strip_outer_fence(reply);
        match parse(raw.as_str(), tok) {
            Ok(d) => {
                let mut doc = d;
                let attempt: u32 = self.attempt();
                stamp(&mut doc, run_id, id, attempt, who.model, now);
                let file = if attempt == 1 {
                    who.output.to_owned()
                } else {
                    numbered(who.output, attempt)
                };
                let text = render(&doc);
                let mut note = id.to_owned();
                note.append(" wrote ");
                note.append(file.as_str());
                Answered::Wrote { doc, file, text, note }
            },
            Err(e) => self.reject(id, &e, truncated, who.role.answer_room()),
        }
    }

    /// Takes back a document whose patch did not apply.
    pub fn patch_failed(&mut self, id: &str, why: &str) -> (r: Answered)
        requires
            is_open(old(self)@),
        ensures
            (final(self)@, r@) == set_back(
                old(self)@,
                id@,
                id@ + ": patch did not apply — "@ + why@,
                mend_patch_text(why@),
            ),
    {
        let mut note = id.to_owned();
        note.append(": patch did not apply — ");
        note.append(why);
        let mut correction = "The previous reply was rejected: the diff did not apply. git said: ".to_owned();
        correction.append(why);
        correction.append(
            "\nReply with the corrected document only. Re-read the file contents you were given and quote context lines exactly as they appear there, including indentation. Do not guess line numbers — write the hunk header as @@ -1 +1 @@ and let the context lines carry the position.",
        );
        self.set_back(id, note, correction)
    }
}

/// What a model is told whose answer ran out of room.
pub fn shorten(room: i32) -> (s: String)
    ensures
        s@ == shorten_text(room as int),
{
    let mut s = "The previous reply was cut off at ".to_owned();
    s.append(write_signed(room).as_str());
    s.append(
        " tokens, before the document was finished. Reply with the whole document again, and make it short enough to fit.",
    );
    s
}

// -------------------------------------------------------------------------- patches

/// The patch that a document carries, or what is wrong with it.
pub open spec fn patch_of(id: Seq<char>, body: Seq<char>) -> Result<Call, Seq<char>> {
    let diff = outputs::diff_in(body);
    if text::is_blank(diff) {
        Err("`"@ + id + "` produced a Patch document with no diff in it"@)
    } else {
        Ok(Call::ApplyPatch { diff })
    }
}

/// The patch that a document carries. A Patch is the one artifact that is not
/// finished when it is written: it describes a change that has to reach the
/// files, through the dispatcher like any other effect.
pub fn patch_call(id: &str, body: &str) -> (r: Result<ToolCall, String>)
    ensures
        match r {
            Ok(c) => patch_of(id@, body@) == Ok::<Call, Seq<char>>(c@),
            Err(why) => patch_of(id@, body@) == Err::<Call, Seq<char>>(why@),
        },
{
    let diff = extract_diff(body);
    let chars = chars_of(diff.as_str());
    if trimmed(chars.as_slice()).len() == 0 {
        return Err(around("`", id, "` produced a Patch document with no diff in it"));
    }
    Ok(ToolCall::ApplyPatch { diff })
}

/// What came of a patch: what is noted, or what is wrong. `shown` is the outcome
/// in words, for one that no patch has.
pub open spec fn patch_came(id: Seq<char>, came: Came, shown: Seq<char>) -> Result<Seq<char>, Seq<char>> {
    match came {
        Came::Wrote => Ok(id + ": patch applied to the working tree"@),
        Came::Refused(why) => Err("the patch from `"@ + id + "` was refused: "@ + why),
        _ => Err("applying the patch from `"@ + id + "` gave "@ + shown),
    }
}

/// What came of a patch.
pub fn patch_result(id: &str, outcome: &Outcome, shown: &str) -> (r: Result<String, String>)
    ensures
        match r {
            Ok(note) => patch_came(id@, outcome@, shown@) == Ok::<Seq<char>, Seq<char>>(note@),
            Err(why) => patch_came(id@, outcome@, shown@) == Err::<Seq<char>, Seq<char>>(why@),
        },
{
    match outcome {
        Outcome::Wrote => {
            let mut s = id.to_owned();
            s.append(": patch applied to the working tree");
            Ok(s)
        },
        Outcome::Refused(why) => {
            let mut s = around("the patch from `", id, "` was refused: ");
            s.append(why.as_str());
            Err(s)
        },
        _ => {
            let mut s = around("applying the patch from `", id, "` gave ");
            s.append(shown);
            Err(s)
        },
    }
}

// ----------------------------------------------------------------------------- laws

/// A node is asked three times and no more: an attempt that came to nothing is
/// followed by another while there is one left, and by the end of the node when
/// there is none.
pub proof fn law_a_node_gives_up_after_its_last_attempt(
    t: Trial,
    id: Seq<char>,
    note: Seq<char>,
    correction: Seq<char>,
)
    requires
        is_open(t),
    ensures
        set_back(t, id, note, correction).1 is Again == is_open(set_back(t, id, note, correction).0),
        set_back(t, id, note, correction).1 is Again ==> t.tries + 1 < MAX_ATTEMPTS,
        set_back(t, id, note, correction).0.correction == Some(correction),
{
}

/// The documents of two attempts of a node go to different files.
pub proof fn law_attempts_write_different_files(output: Seq<char>, a: nat, b: nat)
    requires
        a != b,
    ensures
        file_of(output, a) != file_of(output, b),
{
    outputs::law_a_repeat_never_overwrites(output, a, b);
    outputs::law_a_repeat_never_overwrites(output, b, a);
}

/// A reply that is a document is written at once, as the model wrote it but for
/// what the harness owns, to the file of the attempt; one that is none uses up the
/// attempt, and the model is told why: that it ran out of room where it did, and
/// what is wrong with it otherwise.
pub proof fn law_a_reply_is_written_or_turned_down<T: Tokenizer + ?Sized>(
    t: Trial,
    id: Seq<char>,
    run_id: Seq<char>,
    who: Assigned,
    reply: Seq<char>,
    truncated: bool,
    now: Seq<char>,
    tok: &T,
)
    ensures
        ({
            let (after, got) = answered(t, id, run_id, who, reply, truncated, now, tok);
            match document::parsed(node::without_fence(reply), tok) {
                Ok(c) => {
                    &&& after == t
                    &&& got matches Got::Wrote { doc, file, text, .. } && {
                        &&& text == document::rendered(doc)
                        &&& doc.artifact == c.artifact && doc.results == c.results && doc.digest == c.digest
                            && doc.body == c.body
                        &&& doc.run == run_id && doc.node == id && doc.model == who.model && doc.created == now
                        &&& doc.attempt == t.first + t.tries
                        &&& t.first + t.tries == 1 <==> file == who.output
                    }
                },
                Err(e) => {
                    &&& after.tries == t.tries + 1 && after.first == t.first
                    &&& after.correction == Some(
                        if truncated {
                            shorten_text(
                                match who.role.max_output {
                                    Some(n) => n as int,
                                    None => ANSWER_ROOM as int,
                                },
                            )
                        } else {
                            document::guidance_text(e)
                        },
                    )
                    &&& got is Again <==> t.tries + 1 < MAX_ATTEMPTS
                    &&& got is Failed <==> t.tries + 1 >= MAX_ATTEMPTS
                },
            }
        }),
{
    outputs::law_a_repeat_never_overwrites(who.output, t.first + t.tries, 0);
}

/// What a model is shown is its context, and what was wrong with its last reply
/// behind it.
pub proof fn law_a_correction_comes_last(context: Seq<char>, correction: Seq<char>)
    ensures
        prompt_text(context, None) == context,
        prompt_text(context, Some(correction)).take(context.len() as int) == context,
        text::ends_with(prompt_text(context, Some(correction)), correction),
{
    let s = prompt_text(context, Some(correction));
    assert(s.take(context.len() as int) =~= context);
    assert(s.skip(s.len() - correction.len()) =~= correction);
}

/// A node gets the role it names, the model that is bound to its own slot or else
/// to its role's, and its role's artifact; it is refused where any of these is
/// missing, or where it names no file to write.
pub proof fn law_a_node_gets_what_it_names(
    roles: Seq<(Seq<char>, RoleSpec)>,
    slots: Seq<(Seq<char>, Seq<char>)>,
    node: Node,
)
    ensures
        assigned(roles, slots, node) matches Ok(a) ==> {
            &&& node.role matches Some(name) && table::lookup(roles, name@) == Some(a.role)
            &&& node.slot matches Some(s) ==> table::lookup(slots, s@) == Some(a.model)
            &&& node.slot is None ==> table::lookup(slots, a.role.slot@) == Some(a.model)
            &&& document::artifact_named(text::trim(a.role.artifact@)) == Some(a.artifact)
            &&& node.output matches Some(o) && o@ == a.output
        },
        assigned(roles, slots, node) is Err ==> {
            ||| node.role is None
            ||| node.output is None
            ||| table::lookup(roles, node.role->0@) is None
            ||| document::artifact_named(text::trim(table::lookup(roles, node.role->0@)->0.artifact@)) is None
            ||| node.slot is Some && table::lookup(slots, node.slot->0@) is None
            ||| node.slot is None && table::lookup(slots, table::lookup(roles, node.role->0@)->0.slot@) is None
        },
{
}

/// A command is run as it is written: its first word with the others.
pub proof fn law_a_command_is_run_as_written(command: Seq<Seq<char>>)
    requires
        command.len() > 0,
    ensures
        run_call(command) matches Call::RunCommand { program, args } && seq![program] + args == command,
{
    assert(seq![command[0]] + command.drop_first() =~= command);
}

/// A tool node is done wherever its command ran, whatever that exited with; it
/// fails where the command was refused, or was none.
pub proof fn law_a_tool_node_is_done_where_it_ran(
    id: Seq<char>,
    run_id: Seq<char>,
    command: Seq<char>,
    output: Seq<char>,
    came: Came,
    shown: Seq<char>,
    now: Seq<char>,
)
    ensures
        tool_came(id, run_id, command, output, came, shown, now) is Ok <==> came is Ran,
        came matches Came::Ran { exit_code, stdout, stderr } ==> tool_came(
            id,
            run_id,
            command,
            output,
            came,
            shown,
            now,
        )->Ok_0.0 == outputs::tool_text(
            run_id,
            id,
            command,
            exit_code as int,
            if text::trim(stderr).len() == 0 {
                stdout
            } else {
                stdout + "\n"@ + stderr
            },
            now,
        ),
{
}

/// A Patch document has its diff applied, and comes to nothing without one; only a
/// patch that was written counts as applied.
pub proof fn law_a_patch_is_applied_or_not(id: Seq<char>, body: Seq<char>, came: Came, shown: Seq<char>)
    ensures
        patch_of(id, body) is Ok <==> text::trim(outputs::diff_in(body)).len() > 0,
        patch_of(id, body) matches Ok(call) ==> call == (Call::ApplyPatch { diff: outputs::diff_in(body) }),
        patch_came(id, came, shown) is Ok <==> came is Wrote,
{
}

/// An answer may take as many tokens as its role says, and as many as is usual
/// where it says nothing.
pub proof fn law_a_role_has_its_room(role: RoleSpec, usual: i32)
    ensures
        role.max_output matches Some(n) ==> room_for(role, usual) == n,
        role.max_output is None ==> room_for(role, usual) == usual,
{
}

/// A reply that is turned down is so for what is wrong with it; where it was cut
/// off, for that, and the model is told how much room it has.
pub proof fn law_a_rejection_says_what_is_wrong(id: Seq<char>, e: Fault, room: int)
    ensures
        text::ends_with(rejection_note(id, e, false, room), document::complaint(e)),
        rejection_text(e, false, room) == document::guidance_text(e),
        text::occurs(rejection_note(id, e, true, room), digits::signed_decimal(room)),
        text::occurs(rejection_text(e, true, room), digits::signed_decimal(room)),
{
    let a = rejection_note(id, e, false, room);
    let c = document::complaint(e);
    assert(a.skip(a.len() - c.len()) =~= c);
    let n = digits::signed_decimal(room);
    text::lemma_occurs_within(id + ": the answer was cut off at "@, n, " tokens"@);
    text::lemma_occurs_within(
        "The previous reply was cut off at "@,
        n,
        " tokens, before the document was finished. Reply with the whole document again, and make it short enough to fit."@,
    );
}

/// A tool node has its task where it has a command and an output: that command, and
/// that file. What it lacks is named else, with the node.
pub proof fn law_a_tool_node_does_what_it_declares(node: Node)
    ensures
        ({
            let has_command = node.command matches Some(c) && c@.len() > 0;
            &&& tool_task(node) is Ok <==> has_command && node.output is Some
            &&& tool_task(node) matches Ok((words, file)) ==> words == text::texts(node.command->0@) && file
                == node.output->0@
            &&& tool_task(node) matches Err(why) ==> text::occurs(why, node.id@)
        }),
{
    text::lemma_occurs_within("`"@, node.id@, "` is a tool node with no command"@);
    text::lemma_occurs_within("`"@, node.id@, "` declares no output"@);
}

} // verus!
