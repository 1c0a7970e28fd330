//! An agent that works in steps: it reads, changes, runs, looks at what
//! happened, and only then writes its document. One shot cannot do this — a
//! model cannot correctly change a file it has not read, and cannot know whether
//! its change works without running something.
//!
//! What the agent claims is checked against the record before it is accepted: a
//! role that must write has to have written, the tests that were there have to
//! be there still, and they have to pass.

use vstd::prelude::*;
use crate::agent;
use crate::agent::STEP_ROOM;
use crate::chat;
use crate::chat::{
    command_line, copy_requests, recover_from_text, to_tool_call, Asked, CallSource, Message, Role, ToolCallRequest,
    Turn,
};
use crate::digits;
use crate::digits::{write_number, write_signed};
use crate::dispatcher::{Came, Outcome};
use crate::document;
use crate::document::{parse, render, Content, DocError, Document, Fault};
use crate::node;
use crate::node::strip_outer_fence;
use crate::ollama::{Answer, ChatReply};
use crate::outputs;
use crate::outputs::{describe, stamp, truncate};
use crate::run::{RoleSpec, TestBaseline};
use crate::sandbox::{Call, ToolCall};
use crate::split;
use crate::split::split_lines;
use crate::text;
use crate::text::{chars_of, same, string_of};
use crate::tokens::Tokenizer;
use crate::toolcalls;
use crate::toolcalls::{as_request, calls_in_lines};
use crate::work;

verus! {

/// The node whose work it is, and all that bears on it.
pub struct Shift<'a> {
    pub id: &'a str,
    pub run_id: &'a str,
    pub role: &'a RoleSpec,
    pub model: &'a str,
    /// The file that the document goes to.
    pub output: &'a str,
    /// What the tests came to before any agent acted.
    pub baseline: Option<TestBaseline>,
    /// Whether it is known how this project runs its tests.
    pub has_tests: bool,
}

/// The node whose work it is, as texts.
pub struct Post {
    pub id: Seq<char>,
    pub run_id: Seq<char>,
    pub role: RoleSpec,
    pub model: Seq<char>,
    pub output: Seq<char>,
    pub baseline: Option<TestBaseline>,
    pub has_tests: bool,
}

impl<'a> View for Shift<'a> {
    type V = Post;

    open spec fn view(&self) -> Post {
        Post {
            id: self.id@,
            run_id: self.run_id@,
            role: *self.role,
            model: self.model@,
            output: self.output@,
            baseline: self.baseline,
            has_tests: self.has_tests,
        }
    }
}

/// A call that failed, and how.
#[derive(Debug, Clone, PartialEq, Eq)]
pub struct Failure {
    pub name: String,
    pub arguments: String,
    pub result: String,
}

/// A call that failed, as texts.
#[verifier::ext_equal]
pub struct Failing {
    pub call: Asked,
    pub result: Seq<char>,
}

impl View for Failure {
    type V = Failing;

    open spec fn view(&self) -> Failing {
        Failing { call: Asked { name: self.name@, arguments: self.arguments@ }, result: self.result@ }
    }
}

/// Failures, as texts.
pub open spec fn failings(v: Seq<Failure>) -> Seq<Failing> {
    v.map_values(|f: Failure| f@)
}

/// What the agent is in the middle of.
#[derive(Debug, PartialEq, Eq)]
pub enum Phase {
    /// It is the model's turn.
    Speaking,
    /// Its calls are performed, the next one in its turn.
    Calling { requests: Vec<ToolCallRequest>, actions: Vec<Result<ToolCall, String>>, next: usize },
    /// It wrote a document, and the journal is asked what it wrote besides.
    Counting { doc: Document, reply: String },
    /// It wrote a document, and the tests are run.
    Measuring { doc: Document, reply: String },
    Over,
}

/// What the agent is in the middle of, as texts.
pub enum Stand {
    Speaking,
    Calling { requests: Seq<Asked>, actions: Seq<Result<Call, Seq<char>>>, next: nat },
    Counting { doc: Content, reply: Seq<char> },
    Measuring { doc: Content, reply: Seq<char> },
    Over,
}

/// The actions that calls ask for, as texts.
pub open spec fn all_actions(v: Seq<Result<ToolCall, String>>) -> Seq<Result<Call, Seq<char>>> {
    v.map_values(|r: Result<ToolCall, String>| chat::outcome_of(r))
}

impl View for Phase {
    type V = Stand;

    open spec fn view(&self) -> Stand {
        match self {
            Phase::Speaking => Stand::Speaking,
            Phase::Calling { requests, actions, next } => Stand::Calling {
                requests: chat::all_asked(requests@),
                actions: all_actions(actions@),
                next: *next as nat,
            },
            Phase::Counting { doc, reply } => Stand::Counting { doc: doc@, reply: reply@ },
            Phase::Measuring { doc, reply } => Stand::Measuring { doc: doc@, reply: reply@ },
            Phase::Over => Stand::Over,
        }
    }
}

/// An agent at work.
#[derive(Debug, PartialEq, Eq)]
pub struct Worker {
    /// The conversation so far, as the model is shown it.
    pub messages: Vec<Message>,
    pub step: u32,
    pub max_steps: u32,
    /// The calls that failed, in order.
    pub failures: Vec<Failure>,
    pub phase: Phase,
}

/// An agent at work, as texts.
#[verifier::ext_equal]
pub struct Talk {
    pub turns: Seq<Turn>,
    pub step: nat,
    pub max_steps: nat,
    pub failures: Seq<Failing>,
    pub stand: Stand,
}

impl View for Worker {
    type V = Talk;

    open spec fn view(&self) -> Talk {
        Talk {
            turns: chat::turns(self.messages@),
            step: self.step as nat,
            max_steps: self.max_steps as nat,
            failures: failings(self.failures@),
            stand: self.phase@,
        }
    }
}

/// What is to be done next.
#[derive(Debug, PartialEq, Eq)]
pub enum Act {
    /// Send the conversation to the model.
    Speak,
    /// Have the dispatcher perform a call.
    Dispatch(ToolCall),
    /// Count the files that the journal says this node wrote.
    CountWrites,
    /// Run the tests and count.
    MeasureTests,
    /// Write the document, and note that it is written.
    Write { text: String, note: String },
    Fail(String),
}

/// What is to be done next, as texts.
pub enum Deed {
    Speak,
    Dispatch(Call),
    CountWrites,
    MeasureTests,
    Write { text: Seq<char>, note: Seq<char> },
    Fail(Seq<char>),
}

impl View for Act {
    type V = Deed;

    open spec fn view(&self) -> Deed {
        match self {
            Act::Speak => Deed::Speak,
            Act::Dispatch(c) => Deed::Dispatch(c@),
            Act::CountWrites => Deed::CountWrites,
            Act::MeasureTests => Deed::MeasureTests,
            Act::Write { text, note } => Deed::Write { text: text@, note: note@ },
            Act::Fail(why) => Deed::Fail(why@),
        }
    }
}

/// What is noted, and what is to be done next.
#[derive(Debug, PartialEq, Eq)]
pub struct Turned {
    pub notes: Vec<String>,
    pub act: Act,
}

/// What is noted and to be done, as texts.
#[verifier::ext_equal]
pub struct Told {
    pub notes: Seq<Seq<char>>,
    pub deed: Deed,
}

impl View for Turned {
    type V = Told;

    open spec fn view(&self) -> Told {
        Told { notes: text::texts(self.notes@), deed: self.act@ }
    }
}

// ------------------------------------------------------------------------- the opening

/// How many steps a role has.
pub open spec fn steps_of(role: RoleSpec) -> nat {
    match role.max_steps {
        Some(n) => n as nat,
        None => 12,
    }
}

/// What a role with tools is told of the tests: the command that the harness
/// itself measures with.
pub open spec fn tests_part(command: Option<Seq<Seq<char>>>) -> Seq<char> {
    match command {
        Some(c) => "\n\nThe tests of this project are run with this command, and the harness measures with it too:\n"@
            + chat::line_of(c),
        None => ""@,
    }
}

/// What a role with tools is told of its work.
pub open spec fn system_text(system: Seq<char>, procedure: Seq<char>, command: Option<Seq<Seq<char>>>) -> Seq<char> {
    system + procedure
        + "\n\nWork in steps. Use the tools to read and change files and to run the tests. Always read a file before you change it, and always send a whole file when you write. When the work is done and the tests pass, reply with your document and no tool call.\n\nThe documents you were given are already below in full. They are not files on disk — read_file is for files of the project only."@
        + tests_part(command)
}

/// The conversation at its beginning: the role and its procedure are the system
/// message, the task and its documents are the user message.
pub open spec fn opening(
    role: RoleSpec,
    procedure: Seq<char>,
    context: Seq<char>,
    command: Option<Seq<Seq<char>>>,
) -> Seq<Turn> {
    seq![
        chat::plain_turn(Role::System, system_text(role.system@, procedure, command)),
        chat::plain_turn(Role::User, context),
    ]
}

/// A command, where there is one, as texts.
pub open spec fn command_words(command: Option<Vec<String>>) -> Option<Seq<Seq<char>>> {
    match command {
        Some(c) => Some(text::texts(c@)),
        None => None,
    }
}

/// What is said of an agent that has no step left.
pub open spec fn spent(id: Seq<char>, max_steps: nat) -> Seq<char> {
    "`"@ + id + "` used all "@ + digits::decimal(max_steps) + " steps without producing its document"@
}

/// On to the next step, or to the end.
pub open spec fn next_step(w: Talk, id: Seq<char>, notes: Seq<Seq<char>>) -> (Talk, Told) {
    if w.step < w.max_steps {
        (
            Talk { step: w.step + 1, stand: Stand::Speaking, ..w },
            Told { notes, deed: Deed::Speak },
        )
    } else {
        (
            Talk { stand: Stand::Over, ..w },
            Told { notes, deed: Deed::Fail(spent(id, w.max_steps)) },
        )
    }
}

/// On to the next step with two more turns: what the model said, and what it is
/// told about it.
pub open spec fn told_off(w: Talk, id: Seq<char>, note: Seq<char>, reply: Seq<char>, answer: Seq<char>) -> (Talk, Told) {
    next_step(
        Talk {
            turns: w.turns.push(chat::plain_turn(Role::Assistant, reply)).push(
                chat::plain_turn(Role::User, answer),
            ),
            ..w
        },
        id,
        seq![note],
    )
}

impl Worker {
    /// Begins, with no step taken yet.
    pub fn begin(role: &RoleSpec, procedure: &str, context: &str, command: &Option<Vec<String>>) -> (w: Self)
        ensures
            w@ == (Talk {
                turns: opening(*role, procedure@, context@, command_words(*command)),
                step: 0,
                max_steps: steps_of(*role),
                failures: seq![],
                stand: Stand::Speaking,
            }),
    {
        let mut system = role.system.as_str().to_owned();
        system.append(procedure);
        system.append(
            "\n\nWork in steps. Use the tools to read and change files and to run the tests. Always read a file before you change it, and always send a whole file when you write. When the work is done and the tests pass, reply with your document and no tool call.\n\nThe documents you were given are already below in full. They are not files on disk — read_file is for files of the project only.",
        );
        let mut tests = "".to_owned();
        if let Some(c) = command {
            tests = "\n\nThe tests of this project are run with this command, and the harness measures with it too:\n".to_owned();
            tests.append(command_line(c.as_slice()).as_str());
        }
        system.append(tests.as_str());
        let mut messages: Vec<Message> = Vec::new();
        messages.push(Message::system(system.as_str()));
        messages.push(Message::user(context));
        assert(chat::turns(messages@) =~= opening(*role, procedure@, context@, command_words(*command)));
        let failures: Vec<Failure> = Vec::new();
        assert(failings(failures@) =~= seq![]);
        let max_steps: u32 = match role.max_steps {
            Some(n) => n,
            None => 12,
        };
        Worker { messages, step: 0, max_steps, failures, phase: Phase::Speaking }
    }

    /// On to the next step, or to the end.
    pub fn next_step(&mut self, id: &str, notes: Vec<String>) -> (r: Turned)
        ensures
            final(self).awaits(r.act),
            (final(self)@, r@) == next_step(old(self)@, id@, text::texts(notes@)),
    {
        if self.step < self.max_steps {
            self.step = self.step + 1;
            self.phase = Phase::Speaking;
            return Turned { notes, act: Act::Speak };
        }
        self.phase = Phase::Over;
        let mut why = "`".to_owned();
        why.append(id);
        why.append("` used all ");
        why.append(write_number(self.max_steps as u128).as_str());
        why.append(" steps without producing its document");
        Turned { notes, act: Act::Fail(why) }
    }

    /// What is noted when a step begins.
    pub fn announce(&self, id: &str, model: &str) -> (s: String)
        ensures
            s@ == id@ + " step "@ + digits::decimal(self@.step) + "/"@ + digits::decimal(self@.max_steps) + " on "@
                + model@,
    {
        let mut s = id.to_owned();
        s.append(" step ");
        s.append(write_number(self.step as u128).as_str());
        s.append("/");
        s.append(write_number(self.max_steps as u128).as_str());
        s.append(" on ");
        s.append(model);
        s
    }

    fn say(&mut self, m: Message)
        ensures
            final(self)@ == (Talk { turns: old(self)@.turns.push(m@), ..old(self)@ }),
    {
        let ghost before = self.messages@;
        let ghost turn = m@;
        self.messages.push(m);
        assert(chat::turns(self.messages@) =~= chat::turns(before).push(turn));
    }

    /// On to the next step, with what the model is told about what it said.
    fn tell_off(&mut self, id: &str, note: String, reply: &str, answer: &str) -> (r: Turned)
        ensures
            final(self).awaits(r.act),
            (final(self)@, r@) == told_off(old(self)@, id@, note@, reply@, answer@),
    {
        self.say(Message::assistant(reply));
        self.say(Message::user(answer));
        let ghost text = note@;
        let mut notes: Vec<String> = Vec::new();
        notes.push(note);
        assert(text::texts(notes@) =~= seq![text]);
        self.next_step(id, notes)
    }
}

// --------------------------------------------------------------------------- compacting

/// How many tokens the turns take together.
pub open spec fn tokens_of<T: Tokenizer + ?Sized>(turns: Seq<Turn>, tok: &T) -> nat
    decreases turns.len(),
{
    if turns.len() == 0 {
        0
    } else {
        tokens_of(turns.drop_last(), tok) + tok.tokens(turns.last().content)
    }
}

/// Whether a conversation has outgrown two thirds of the window.
pub open spec fn is_too_long<T: Tokenizer + ?Sized>(turns: Seq<Turn>, window: nat, tok: &T) -> bool {
    tokens_of(turns, tok) > window * 2 / 3 && turns.len() > 4
}

/// A conversation without its middle. The system message and the task are never
/// dropped.
pub open spec fn shortened(turns: Seq<Turn>) -> Seq<Turn> {
    turns.take(2).push(chat::plain_turn(Role::User, "[earlier steps were compacted away]"@)) + turns.skip(
        turns.len() - 2,
    )
}

/// The end of a step that made calls: the conversation is the context here, so it
/// must not outgrow the window.
pub open spec fn calls_done<T: Tokenizer + ?Sized>(w: Talk, post: Post, notes: Seq<Seq<char>>, tok: &T) -> (
    Talk,
    Told,
) {
    if is_too_long(w.turns, post.role.window as nat, tok) {
        next_step(
            Talk { turns: shortened(w.turns), ..w },
            post.id,
            notes.push(post.id + " compacted its step history"@),
        )
    } else {
        next_step(w, post.id, notes)
    }
}

proof fn lemma_tokens_grow<T: Tokenizer + ?Sized>(turns: Seq<Turn>, k: int, tok: &T)
    requires
        0 <= k <= turns.len(),
    ensures
        tokens_of(turns.take(k), tok) <= tokens_of(turns, tok),
    decreases turns.len() - k,
{
    if k < turns.len() {
        lemma_tokens_grow(turns, k + 1, tok);
        assert(turns.take(k + 1).drop_last() =~= turns.take(k));
    } else {
        assert(turns.take(k) =~= turns);
    }
}

/// Whether the messages take more than `limit` tokens.
fn takes_more_than<T: Tokenizer + ?Sized>(messages: &[Message], limit: u128, tok: &T) -> (r: bool)
    requires
        limit <= u64::MAX,
    ensures
        r == (tokens_of(chat::turns(messages@), tok) > limit),
{
    let ghost all = chat::turns(messages@);
    let mut sum: u128 = 0;
    let mut i: usize = 0;
    assert(all.take(0) =~= seq![]);
    while i < messages.len() && sum <= limit
        invariant
            i <= messages.len(),
            all == chat::turns(messages@),
            limit <= u64::MAX,
            sum == tokens_of(all.take(i as int), tok),
            sum <= u64::MAX + usize::MAX,
        decreases messages.len() - i,
    {
        assert(all.take(i + 1).drop_last() =~= all.take(i as int));
        assert(all.take(i + 1).last() == all[i as int]);
        assert(all[i as int].content == messages@[i as int].content@);
        let n: usize = tok.count(messages[i].content.as_str());
        sum = sum + n as u128;
        i = i + 1;
    }
    proof {
        lemma_tokens_grow(all, i as int, tok);
        if i == messages@.len() {
            assert(all.take(i as int) =~= all);
        }
    }
    sum > limit
}

impl Worker {
    fn end_calls<'a, T: Tokenizer + ?Sized>(&mut self, shift: &Shift<'a>, notes: Vec<String>, tok: &T) -> (r: Turned)
        ensures
            final(self).awaits(r.act),
            (final(self)@, r@) == calls_done(old(self)@, shift@, text::texts(notes@), tok),
    {
        let mut notes = notes;
        let limit: u128 = shift.role.window as u128 * 2 / 3;
        assert(chat::turns(self.messages@).len() == self.messages@.len());
        if self.messages.len() > 4 && takes_more_than(self.messages.as_slice(), limit, tok) {
            let ghost all = self.messages@;
            let last = self.messages.pop();
            let before_last = self.messages.pop();
            self.messages.truncate(2);
            self.messages.push(Message::user("[earlier steps were compacted away]"));
            let ghost middle = self.messages@[2]@;
            if let Some(m) = before_last {
                self.messages.push(m);
            }
            if let Some(m) = last {
                self.messages.push(m);
            }
            assert(chat::turns(self.messages@) =~= shortened(chat::turns(all)));
            let mut note = shift.id.to_owned();
            note.append(" compacted its step history");
            proof {
                text::lemma_texts_push(notes@, note);
            }
            notes.push(note);
        }
        self.next_step(shift.id, notes)
    }
}

// --------------------------------------------------------------------------- the calls

/// The calls from place `i` on: one that cannot be used is answered at once, and
/// the first that can is performed.
pub open spec fn called<T: Tokenizer + ?Sized>(
    w: Talk,
    post: Post,
    requests: Seq<Asked>,
    actions: Seq<Result<Call, Seq<char>>>,
    i: int,
    notes: Seq<Seq<char>>,
    tok: &T,
) -> (Talk, Told)
    decreases requests.len() - i,
{
    if i < 0 || i >= requests.len() {
        calls_done(w, post, notes, tok)
    } else {
        match actions[i] {
            Err(why) => called(
                Talk { turns: w.turns.push(chat::result_turn(requests[i].name, why)), ..w },
                post,
                requests,
                actions,
                i + 1,
                notes.push(post.id + ": unusable call — "@ + why),
                tok,
            ),
            Ok(call) => (
                Talk { stand: Stand::Calling { requests, actions, next: i as nat }, ..w },
                Told { notes, deed: Deed::Dispatch(call) },
            ),
        }
    }
}

/// What the model is told of what came of its call.
pub open spec fn result_text(came: Result<Came, Seq<char>>) -> Seq<char> {
    match came {
        Ok(Came::Read(t)) => outputs::truncated(t, 8000),
        Ok(Came::Wrote) => "written"@,
        Ok(Came::Deleted) => "deleted"@,
        Ok(Came::Ran { exit_code, stdout, stderr }) => "exit "@ + digits::signed_decimal(exit_code as int) + "\n"@
            + outputs::truncated(stdout + stderr, 4000),
        Ok(Came::Refused(why)) => "REFUSED: "@ + why,
        Err(e) => "ERROR: "@ + e,
    }
}

/// Whether a call was performed.
pub open spec fn is_performed(came: Result<Came, Seq<char>>) -> bool {
    came matches Ok(c) && !(c is Refused)
}

/// Whether a call failed: it was not performed, or it was a command that says so.
pub open spec fn has_failed(came: Result<Came, Seq<char>>) -> bool {
    !is_performed(came) || (came matches Ok(Came::Ran { exit_code, .. }) && exit_code != 0)
}

/// How often a call failed the same way.
pub open spec fn times(failures: Seq<Failing>, f: Failing) -> nat
    decreases failures.len(),
{
    if failures.len() == 0 {
        0
    } else {
        times(failures.drop_last(), f) + if failures.last() == f {
            1nat
        } else {
            0
        }
    }
}

/// What the model is told of a call that fails the same way again. It will not
/// start working, and the harness is the only party that can see the repetition.
pub open spec fn again_text(n: nat) -> Seq<char> {
    "\n\nThe same call has now failed "@ + digits::decimal(n)
        + " times in the same way. It will not start working: change the call, or do something else."@
}

/// The first line of a text.
pub open spec fn first_line(s: Seq<char>) -> Seq<char> {
    if split::lines(s).len() == 0 {
        ""@
    } else {
        split::lines(s)[0]
    }
}

/// What is noted of a call.
pub open spec fn call_note(id: Seq<char>, call: Call, came: Result<Came, Seq<char>>) -> Seq<char> {
    if is_performed(came) {
        id + ": "@ + outputs::described(call)
    } else {
        id + ": "@ + outputs::described(call) + " — NOT DONE, "@ + first_line(result_text(came))
    }
}

/// What comes of a call that was performed, or was not.
pub open spec fn came_back<T: Tokenizer + ?Sized>(
    w: Talk,
    post: Post,
    requests: Seq<Asked>,
    actions: Seq<Result<Call, Seq<char>>>,
    i: int,
    came: Result<Came, Seq<char>>,
    tok: &T,
) -> (Talk, Told) {
    let text = result_text(came);
    let f = Failing { call: requests[i], result: text };
    let failures = if has_failed(came) {
        w.failures.push(f)
    } else {
        w.failures
    };
    let n = times(failures, f);
    let again = has_failed(came) && n > 1;
    let noted = seq![call_note(post.id, actions[i]->Ok_0, came)];
    called(
        Talk {
            turns: w.turns.push(
                chat::result_turn(
                    requests[i].name,
                    if again {
                        text + again_text(n)
                    } else {
                        text
                    },
                ),
            ),
            failures,
            ..w
        },
        post,
        requests,
        actions,
        i + 1,
        if again {
            noted.push(post.id + ": the same call has now failed "@ + digits::decimal(n) + " times"@)
        } else {
            noted
        },
        tok,
    )
}

fn write_result(outcome: &Result<Outcome, String>) -> (s: String)
    ensures
        s@ == result_text(work::came_of(*outcome)),
{
    match outcome {
        Ok(Outcome::Read(t)) => truncate(t.as_str(), 8000),
        Ok(Outcome::Wrote) => "written".to_owned(),
        Ok(Outcome::Deleted) => "deleted".to_owned(),
        Ok(Outcome::Ran { exit_code, stdout, stderr }) => {
            let mut all = stdout.as_str().to_owned();
            all.append(stderr.as_str());
            let mut s = "exit ".to_owned();
            s.append(write_signed(*exit_code).as_str());
            s.append("\n");
            s.append(truncate(all.as_str(), 4000).as_str());
            s
        },
        Ok(Outcome::Refused(why)) => {
            let mut s = "REFUSED: ".to_owned();
            s.append(why.as_str());
            s
        },
        Err(e) => {
            let mut s = "ERROR: ".to_owned();
            s.append(e.as_str());
            s
        },
    }
}

fn take_first_line(s: &str) -> (r: String)
    ensures
        r@ == first_line(s@),
{
    let chars = chars_of(s);
    let lines = split_lines(chars.as_slice());
    assert(text::pieces(lines@).len() == lines@.len());
    if lines.len() == 0 {
        return "".to_owned();
    }
    assert(text::pieces(lines@)[0] == lines@[0]@);
    string_of(lines[0])
}

fn performed(outcome: &Result<Outcome, String>) -> (r: bool)
    ensures
        r == is_performed(work::came_of(*outcome)),
{
    match outcome {
        Ok(Outcome::Refused(_)) => false,
        Ok(_) => true,
        Err(_) => false,
    }
}

fn failed(outcome: &Result<Outcome, String>) -> (r: bool)
    ensures
        r == has_failed(work::came_of(*outcome)),
{
    match outcome {
        Ok(Outcome::Refused(_)) => true,
        Ok(Outcome::Ran { exit_code, .. }) => *exit_code != 0,
        Ok(_) => false,
        Err(_) => true,
    }
}

fn count_times(failures: &[Failure], f: &Failure) -> (n: usize)
    ensures
        n == times(failings(failures@), f@),
{
    let ghost all = failings(failures@);
    let mut n: usize = 0;
    let mut i: usize = 0;
    assert(all.take(0) =~= seq![]);
    while i < failures.len()
        invariant
            n <= i <= failures.len(),
            all == failings(failures@),
            n == times(all.take(i as int), f@),
        decreases failures.len() - i,
    {
        let g = &failures[i];
        assert(all.take(i + 1).drop_last() =~= all.take(i as int));
        assert(all.take(i + 1).last() == g@);
        if same(g.name.as_str(), f.name.as_str()) && same(g.arguments.as_str(), f.arguments.as_str()) && same(
            g.result.as_str(),
            f.result.as_str(),
        ) {
            assert(g@ =~= f@);
            n = n + 1;
        }
        i = i + 1;
    }
    assert(all.take(i as int) =~= all);
    n
}

impl Worker {
    /// Performs the calls from place `from` on.
    fn call_on<'a, T: Tokenizer + ?Sized>(
        &mut self,
        shift: &Shift<'a>,
        requests: Vec<ToolCallRequest>,
        actions: Vec<Result<ToolCall, String>>,
        from: usize,
        notes: Vec<String>,
        tok: &T,
    ) -> (r: Turned)
        requires
            requests@.len() == actions@.len(),
            from <= requests@.len(),
        ensures
            final(self).awaits(r.act),
            (final(self)@, r@) == called(
                old(self)@,
                shift@,
                chat::all_asked(requests@),
                all_actions(actions@),
                from as int,
                text::texts(notes@),
                tok,
            ),
    {
        let ghost first = text::texts(notes@);
        let mut noted = notes;
        let ghost asked = chat::all_asked(requests@);
        let ghost deeds = all_actions(actions@);
        let ghost whole = called(self@, shift@, asked, deeds, from as int, first, tok);
        let mut i: usize = from;
        while i < requests.len()
            invariant
                i <= requests.len(),
                requests@.len() == actions@.len(),
                asked == chat::all_asked(requests@),
                deeds == all_actions(actions@),
                called(self@, shift@, asked, deeds, i as int, text::texts(noted@), tok) == whole,
                whole == called(old(self)@, shift@, asked, deeds, from as int, first, tok),
                first == text::texts(notes@),
            decreases requests.len() - i,
        {
            assert(asked[i as int] == requests@[i as int]@);
            assert(deeds[i as int] == chat::outcome_of(actions@[i as int]));
            match &actions[i] {
                Ok(call) => {
                    let act = Act::Dispatch(call.clone());
                    let ghost at = self@;
                    self.phase = Phase::Calling { requests, actions, next: i };
                    assert(self@ =~= (Talk {
                        stand: Stand::Calling { requests: asked, actions: deeds, next: i as nat },
                        ..at
                    }));
                    return Turned { notes: noted, act };
                },
                Err(why) => {
                    self.say(Message::tool_result(requests[i].name.as_str(), why.as_str()));
                    let mut note = shift.id.to_owned();
                    note.append(": unusable call — ");
                    note.append(why.as_str());
                    proof {
                        text::lemma_texts_push(noted@, note);
                    }
                    noted.push(note);
                },
            }
            i = i + 1;
        }
        self.end_calls(shift, noted, tok)
    }

    /// Takes in what came of the call that was to be performed.
    pub fn came<'a, T: Tokenizer + ?Sized>(
        &mut self,
        shift: &Shift<'a>,
        outcome: &Result<Outcome, String>,
        tok: &T,
    ) -> (r: Turned)
        requires
            old(self).is_calling(),
        ensures
            final(self).awaits(r.act),
            old(self)@.stand matches Stand::Calling { requests, actions, next } && (final(self)@, r@) == came_back(
                old(self)@,
                shift@,
                requests,
                actions,
                next as int,
                work::came_of(*outcome),
                tok,
            ),
    {
        let ghost before = self@;
        let mut phase = Phase::Over;
        std::mem::swap(&mut phase, &mut self.phase);
        match phase {
            Phase::Calling { requests, actions, next } => {
                let ghost asked = chat::all_asked(requests@);
                let ghost deeds = all_actions(actions@);
                assert(asked[next as int] == requests@[next as int]@);
                assert(deeds[next as int] == chat::outcome_of(actions@[next as int]));
                assert(next < requests.len());
                let result = write_result(outcome);
                let mut note = shift.id.to_owned();
                note.append(": ");
                if let Ok(call) = &actions[next] {
                    note.append(describe(call).as_str());
                }
                if !performed(outcome) {
                    note.append(" — NOT DONE, ");
                    note.append(take_first_line(result.as_str()).as_str());
                }
                let ghost first = note@;
                let mut notes: Vec<String> = Vec::new();
                notes.push(note);
                assert(text::texts(notes@) =~= seq![first]);
                let mut shown = result.as_str().to_owned();
                if failed(outcome) {
                    let f = Failure {
                        name: requests[next].name.as_str().to_owned(),
                        arguments: requests[next].arguments.as_str().to_owned(),
                        result,
                    };
                    let ghost fail = f@;
                    let ghost old_failures = self.failures@;
                    assert(fail =~= (Failing {
                        call: asked[next as int],
                        result: result_text(work::came_of(*outcome)),
                    }));
                    let count: usize = count_times(self.failures.as_slice(), &f);
                    self.failures.push(f);
                    assert(failings(self.failures@) =~= failings(old_failures).push(fail));
                    assert(failings(self.failures@).drop_last() =~= failings(old_failures));
                    if count > 0 {
                        let n: u128 = count as u128 + 1;
                        shown.append(again(n).as_str());
                        let mut more = shift.id.to_owned();
                        more.append(": the same call has now failed ");
                        more.append(write_number(n).as_str());
                        more.append(" times");
                        proof {
                            text::lemma_texts_push(notes@, more);
                        }
                        notes.push(more);
                    }
                }
                self.say(Message::tool_result(requests[next].name.as_str(), shown.as_str()));
                proof {
                    lemma_stand_does_not_matter(
                        self@,
                        Talk { stand: before.stand, ..self@ },
                        shift@,
                        asked,
                        deeds,
                        next + 1,
                        text::texts(notes@),
                        tok,
                    );
                }
                self.call_on(shift, requests, actions, next + 1, notes, tok)
            },
            _ => Turned { notes: Vec::new(), act: Act::Speak },
        }
    }

    /// Whether the agent is in the middle of what is to be done next.
    pub open spec fn awaits(self, act: Act) -> bool {
        match act {
            Act::Dispatch(_) => self.is_calling(),
            Act::CountWrites => self.phase is Counting,
            Act::MeasureTests => self.phase is Measuring,
            _ => true,
        }
    }

    /// Whether a call is being performed.
    pub open spec fn is_calling(self) -> bool {
        self.phase matches Phase::Calling { requests, actions, next } && next < requests@.len() && requests@.len()
            == actions@.len() && actions@[next as int] is Ok
    }
}

/// What a model is told of a call that fails the same way again.
fn again(n: u128) -> (s: String)
    ensures
        s@ == again_text(n as nat),
{
    let mut s = "\n\nThe same call has now failed ".to_owned();
    s.append(write_number(n).as_str());
    s.append(" times in the same way. It will not start working: change the call, or do something else.");
    s
}

/// Every way on from the calls sets the phase anew, whatever it was.
proof fn lemma_stand_does_not_matter<T: Tokenizer + ?Sized>(
    a: Talk,
    b: Talk,
    post: Post,
    requests: Seq<Asked>,
    actions: Seq<Result<Call, Seq<char>>>,
    i: int,
    notes: Seq<Seq<char>>,
    tok: &T,
)
    requires
        a == (Talk { stand: a.stand, ..b }),
    ensures
        called(a, post, requests, actions, i, notes, tok) == called(b, post, requests, actions, i, notes, tok),
    decreases requests.len() - i,
{
    if 0 <= i < requests.len() {
        if let Err(why) = actions[i] {
            let turn = chat::result_turn(requests[i].name, why);
            lemma_stand_does_not_matter(
                Talk { turns: a.turns.push(turn), ..a },
                Talk { turns: b.turns.push(turn), ..b },
                post,
                requests,
                actions,
                i + 1,
                notes.push(post.id + ": unusable call — "@ + why),
                tok,
            );
        }
    }
}

// ------------------------------------------------------------------------- the document

/// Whether the tests are run before a document is accepted: where it is known
/// how, and there is something to hold them against or a change to hold them
/// to.
pub open spec fn needs_measuring(post: Post) -> bool {
    post.has_tests && (post.baseline is Some || post.role.must_write)
}

/// A document that is accepted.
pub open spec fn accepted(w: Talk, post: Post, doc: Content, now: Seq<char>) -> (Talk, Told) {
    (
        Talk { stand: Stand::Over, ..w },
        Told {
            notes: seq![],
            deed: Deed::Write {
                text: document::rendered(outputs::marked(doc, post.run_id, post.id, w.step, post.model, now)),
                note: post.id + " wrote "@ + post.output + " after "@ + digits::decimal(w.step) + " steps"@,
            },
        },
    )
}

/// A document whose author is known to have written: on to the tests, or
/// accepted.
pub open spec fn vouched(w: Talk, post: Post, doc: Content, reply: Seq<char>, now: Seq<char>) -> (Talk, Told) {
    if needs_measuring(post) {
        (
            Talk { stand: Stand::Measuring { doc, reply }, ..w },
            Told { notes: seq![], deed: Deed::MeasureTests },
        )
    } else {
        accepted(w, post, doc, now)
    }
}

/// A document as it comes in: on to the journal where the role must write.
pub open spec fn handed_in(w: Talk, post: Post, doc: Content, reply: Seq<char>, now: Seq<char>) -> (Talk, Told) {
    if post.role.must_write {
        (
            Talk { stand: Stand::Counting { doc, reply }, ..w },
            Told { notes: seq![], deed: Deed::CountWrites },
        )
    } else {
        vouched(w, post, doc, reply, now)
    }
}

/// A reply that is neither a call nor a document.
pub open spec fn misheard(w: Talk, post: Post, e: Fault, reply: Seq<char>, truncated: bool) -> (Talk, Told) {
    let room = agent::room_for(post.role, STEP_ROOM) as int;
    if truncated {
        told_off(
            w,
            post.id,
            post.id + ": the answer was cut off at "@ + digits::signed_decimal(room) + " tokens"@,
            reply,
            agent::shorten_text(room),
        )
    } else {
        told_off(
            w,
            post.id,
            post.id + " not a document yet: "@ + document::complaint(e),
            reply,
            "That was neither a tool call nor a valid document, so the step did nothing. Either call a tool now, or reply with the document. "@
                + document::guidance_text(e),
        )
    }
}

/// What a reply without calls comes to.
pub open spec fn said<T: Tokenizer + ?Sized>(
    w: Talk,
    post: Post,
    reply: Seq<char>,
    truncated: bool,
    now: Seq<char>,
    tok: &T,
) -> (Talk, Told) {
    match document::parsed(node::without_fence(reply), tok) {
        Ok(doc) => handed_in(w, post, doc, reply, now),
        Err(e) => misheard(w, post, e, reply, truncated),
    }
}

/// What a reply with calls comes to. They go into the turn that made them:
/// without them the model is shown an empty turn followed by results it never
/// asked for, and it asks again.
pub open spec fn asked<T: Tokenizer + ?Sized>(
    w: Talk,
    post: Post,
    reply: Seq<char>,
    requests: Seq<Asked>,
    source: CallSource,
    actions: Seq<Result<Call, Seq<char>>>,
    tok: &T,
) -> (Talk, Told) {
    called(
        Talk {
            turns: w.turns.push(
                Turn { role: Role::Assistant, content: reply, tool_name: None, calls: requests },
            ),
            ..w
        },
        post,
        requests,
        actions,
        0,
        if source == CallSource::Native {
            seq![]
        } else {
            seq![
                post.id + ": the call came as "@ + chat::source_name(source)
                    + " rather than through the tool channel"@,
            ]
        },
        tok,
    )
}

/// The calls of a reply: those that came through the channel, or else those that
/// are written in its text. Some models declare the channel and then write their
/// calls into the text.
pub open spec fn calls_in(reply: Answer) -> Seq<Asked> {
    if reply.calls.len() > 0 {
        reply.calls
    } else {
        chat::calls_from(reply.text, 0)
    }
}

/// The way that the calls of a reply came.
pub open spec fn source_of(reply: Answer) -> CallSource {
    if reply.calls.len() > 0 {
        CallSource::Native
    } else {
        CallSource::JsonInText
    }
}

/// The actions that calls ask for.
pub open spec fn actions_of(requests: Seq<Asked>) -> Seq<Result<Call, Seq<char>>> {
    requests.map_values(|r: Asked| chat::action_of(r.name, chat::given(r.arguments)))
}

/// The calls that lines make, as they would have come through the channel.
pub open spec fn requests_of(calls: Seq<Call>) -> Seq<Asked> {
    calls.map_values(|c: Call| toolcalls::request_of(c))
}

/// The actions that the calls of lines are.
pub open spec fn as_actions(calls: Seq<Call>) -> Seq<Result<Call, Seq<char>>> {
    calls.map_values(|c: Call| Ok::<Call, Seq<char>>(c))
}

/// What a reply comes to. There are three layers, in order of how much the model
/// is trusted to have got the mechanics right: calls through the channel, calls
/// that its text spells in JSON, and calls that its lines make. The last are
/// looked for only where the text is no document, for a document may speak of
/// such lines.
pub open spec fn heard<T: Tokenizer + ?Sized>(w: Talk, post: Post, reply: Answer, now: Seq<char>, tok: &T) -> (
    Talk,
    Told,
) {
    let requests = calls_in(reply);
    let lines = toolcalls::line_calls(reply.text);
    if requests.len() > 0 {
        asked(w, post, reply.text, requests, source_of(reply), actions_of(requests), tok)
    } else if lines.len() > 0 && document::parsed(node::without_fence(reply.text), tok) is Err {
        asked(w, post, reply.text, requests_of(lines), CallSource::LineSyntax, as_actions(lines), tok)
    } else {
        said(w, post, reply.text, reply.truncated, now, tok)
    }
}

/// What the count of the files that a node wrote comes to. An agent that reports
/// work it did not do is worse than one that fails: a failure is visible.
pub open spec fn counted(
    w: Talk,
    post: Post,
    doc: Content,
    reply: Seq<char>,
    written: nat,
    now: Seq<char>,
) -> (Talk, Told) {
    if written == 0 {
        told_off(
            w,
            post.id,
            post.id + ": reported completion but the journal shows no file written — refused"@,
            reply,
            "You reported the work as finished, but no file has been written. The record of this run shows only reads. Do the work: call write_file with the whole new contents of each file you need to change, then run the tests, then reply with your document."@,
        )
    } else {
        vouched(w, post, doc, reply, now)
    }
}

/// What the tests come to. Writing something is not the same as not destroying
/// something: a run that adds two tests and deletes four has gone backwards. And
/// a role that changes code cannot close its document while they fail.
pub open spec fn measured(
    w: Talk,
    post: Post,
    doc: Content,
    reply: Seq<char>,
    counts: Option<TestBaseline>,
    now: Seq<char>,
) -> (Talk, Told) {
    match counts {
        None => accepted(w, post, doc, now),
        Some(c) => if post.baseline matches Some(b) && c.total < b.total {
            told_off(
                w,
                post.id,
                post.id + ": "@ + digits::decimal(post.baseline->0.total as nat) + " tests before, "@
                    + digits::decimal(c.total as nat) + " now — refused"@,
                reply,
                "There were "@ + digits::decimal(post.baseline->0.total as nat)
                    + " tests before you started and there are "@ + digits::decimal(c.total as nat)
                    + " now. You have deleted tests that existed. Restore every test that was there and keep your own as well, then run the tests again."@,
            )
        } else if post.role.must_write && c.failed > 0 {
            told_off(
                w,
                post.id,
                post.id + ": "@ + digits::decimal(c.failed as nat) + " of "@ + digits::decimal(c.total as nat)
                    + " tests fail — refused"@,
                reply,
                "You reported the work as finished, but "@ + digits::decimal(c.failed as nat) + " of "@
                    + digits::decimal(c.total as nat)
                    + " tests fail. Read what the tests print, mend the code, run the tests again, and reply with your document when they pass."@,
            )
        } else {
            accepted(w, post, doc, now)
        },
    }
}

/// The calls that lines make, with the actions they are.
fn collect_lines(calls: Vec<ToolCall>) -> (r: (Vec<ToolCallRequest>, Vec<Result<ToolCall, String>>))
    ensures
        r.0@.len() == r.1@.len(),
        chat::all_asked(r.0@) == requests_of(toolcalls::all_calls(calls@)),
        all_actions(r.1@) == as_actions(toolcalls::all_calls(calls@)),
{
    let ghost all = toolcalls::all_calls(calls@);
    let mut requests: Vec<ToolCallRequest> = Vec::new();
    let mut actions: Vec<Result<ToolCall, String>> = Vec::new();
    let mut i: usize = 0;
    assert(chat::all_asked(requests@) =~= requests_of(all).take(0));
    assert(all_actions(actions@) =~= as_actions(all).take(0));
    while i < calls.len()
        invariant
            i <= calls.len(),
            requests@.len() == i,
            actions@.len() == i,
            all == toolcalls::all_calls(calls@),
            chat::all_asked(requests@) == requests_of(all).take(i as int),
            all_actions(actions@) == as_actions(all).take(i as int),
        decreases calls.len() - i,
    {
        let ghost r0 = requests@;
        let ghost a0 = actions@;
        assert(all[i as int] == calls@[i as int]@);
        let one = as_request(&calls[i]);
        let act: Result<ToolCall, String> = Ok(calls[i].clone());
        assert(one@ == requests_of(all)[i as int]);
        assert(chat::outcome_of(act) == as_actions(all)[i as int]);
        requests.push(one);
        actions.push(act);
        assert(chat::all_asked(requests@) =~= requests_of(all).take(i + 1));
        assert(all_actions(actions@) =~= as_actions(all).take(i + 1));
        i = i + 1;
    }
    assert(requests_of(all).take(i as int) =~= requests_of(all));
    assert(as_actions(all).take(i as int) =~= as_actions(all));
    (requests, actions)
}

fn collect_actions(requests: &[ToolCallRequest]) -> (v: Vec<Result<ToolCall, String>>)
    ensures
        v@.len() == requests@.len(),
        all_actions(v@) == actions_of(chat::all_asked(requests@)),
{
    let ghost all = actions_of(chat::all_asked(requests@));
    let mut v: Vec<Result<ToolCall, String>> = Vec::new();
    let mut i: usize = 0;
    assert(all_actions(v@) =~= all.take(0));
    while i < requests.len()
        invariant
            i <= requests.len(),
            v@.len() == i,
            all == actions_of(chat::all_asked(requests@)),
            all_actions(v@) == all.take(i as int),
        decreases requests.len() - i,
    {
        let ghost before = v@;
        let one = to_tool_call(&requests[i]);
        assert(chat::outcome_of(one) == all[i as int]);
        v.push(one);
        assert(all_actions(v@) =~= all_actions(before).push(all[i as int]));
        i = i + 1;
        assert(all.take(i as int) =~= all.take(i - 1).push(all[i - 1]));
    }
    assert(all.take(i as int) =~= all);
    v
}

impl Worker {
    fn accept<'a>(&mut self, shift: &Shift<'a>, doc: Document, now: &str) -> (r: Turned)
        ensures
            final(self).awaits(r.act),
            (final(self)@, r@) == accepted(old(self)@, shift@, doc@, now@),
    {
        self.phase = Phase::Over;
        let mut doc = doc;
        stamp(&mut doc, shift.run_id, shift.id, self.step, shift.model, now);
        let text = render(&doc);
        let mut note = shift.id.to_owned();
        note.append(" wrote ");
        note.append(shift.output);
        note.append(" after ");
        note.append(write_number(self.step as u128).as_str());
        note.append(" steps");
        let notes: Vec<String> = Vec::new();
        assert(text::texts(notes@) =~= seq![]);
        Turned { notes, act: Act::Write { text, note } }
    }

    fn vouch<'a>(&mut self, shift: &Shift<'a>, doc: Document, reply: String, now: &str) -> (r: Turned)
        ensures
            final(self).awaits(r.act),
            (final(self)@, r@) == vouched(old(self)@, shift@, doc@, reply@, now@),
    {
        if shift.has_tests && (shift.baseline.is_some() || shift.role.must_write) {
            self.phase = Phase::Measuring { doc, reply };
            let notes: Vec<String> = Vec::new();
            assert(text::texts(notes@) =~= seq![]);
            return Turned { notes, act: Act::MeasureTests };
        }
        self.accept(shift, doc, now)
    }

    fn mishear<'a>(&mut self, shift: &Shift<'a>, e: &DocError, reply: &str, truncated: bool) -> (r: Turned)
        ensures
            final(self).awaits(r.act),
            (final(self)@, r@) == misheard(old(self)@, shift@, e@, reply@, truncated),
    {
        let room: i32 = shift.role.step_room();
        let mut note = shift.id.to_owned();
        if truncated {
            note.append(": the answer was cut off at ");
            note.append(write_signed(room).as_str());
            note.append(" tokens");
            let answer = agent::shorten(room);
            return self.tell_off(shift.id, note, reply, answer.as_str());
        }
        note.append(" not a document yet: ");
        note.append(e.message().as_str());
        let mut answer =
            "That was neither a tool call nor a valid document, so the step did nothing. Either call a tool now, or reply with the document. ".to_owned();
        answer.append(e.guidance().as_str());
        self.tell_off(shift.id, note, reply, answer.as_str())
    }

    /// Takes a reply that asks for no tools.
    pub fn hear_text<'a, T: Tokenizer + ?Sized>(
        &mut self,
        shift: &Shift<'a>,
        reply: &str,
        truncated: bool,
        now: &str,
        tok: &T,
    ) -> (r: Turned)
        ensures
            final(self).awaits(r.act),
            (final(self)@, r@) == said(old(self)@, shift@, reply@, truncated, now@, tok),
    {
        let raw = strip_outer_fence(reply);
        match parse(raw.as_str(), tok) {
            Ok(doc) => {
                if shift.role.must_write {
                    self.phase = Phase::Counting { doc, reply: reply.to_owned() };
                    let notes: Vec<String> = Vec::new();
                    assert(text::texts(notes@) =~= seq![]);
                    return Turned { notes, act: Act::CountWrites };
                }
                self.vouch(shift, doc, reply.to_owned(), now)
            },
            Err(e) => self.mishear(shift, &e, reply, truncated),
        }
    }

    /// Takes a reply that asks for tools, with the actions that its calls come
    /// to and the way that they came.
    pub fn hear_calls<'a, T: Tokenizer + ?Sized>(
        &mut self,
        shift: &Shift<'a>,
        reply: &str,
        requests: Vec<ToolCallRequest>,
        source: CallSource,
        actions: Vec<Result<ToolCall, String>>,
        tok: &T,
    ) -> (r: Turned)
        requires
            requests@.len() == actions@.len(),
        ensures
            final(self).awaits(r.act),
            (final(self)@, r@) == asked(
                old(self)@,
                shift@,
                reply@,
                chat::all_asked(requests@),
                source,
                all_actions(actions@),
                tok,
            ),
    {
        let calls = copy_requests(requests.as_slice());
        self.say(Message::assistant_with_calls(reply, calls));
        let mut notes: Vec<String> = Vec::new();
        assert(text::texts(notes@) =~= seq![]);
        if source != CallSource::Native {
            let mut note = shift.id.to_owned();
            note.append(": the call came as ");
            note.append(source.name());
            note.append(" rather than through the tool channel");
            let ghost text = note@;
            notes.push(note);
            assert(text::texts(notes@) =~= seq![text]);
        }
        self.call_on(shift, requests, actions, 0, notes, tok)
    }

    /// Takes the model's reply. Its calls come through the channel, or stand in
    /// its text as JSON or line by line; a reply without calls is its document.
    pub fn hear<'a, T: Tokenizer + ?Sized>(&mut self, shift: &Shift<'a>, reply: ChatReply, now: &str, tok: &T) -> (r:
        Turned)
        ensures
            final(self).awaits(r.act),
            (final(self)@, r@) == heard(old(self)@, shift@, reply@, now@, tok),
    {
        assert(chat::all_asked(reply.tool_calls@).len() == reply.tool_calls@.len());
        let (requests, source) = if reply.tool_calls.len() > 0 {
            (reply.tool_calls, CallSource::Native)
        } else {
            (recover_from_text(reply.text.as_str()), CallSource::JsonInText)
        };
        assert(chat::all_asked(requests@).len() == requests@.len());
        if requests.len() > 0 {
            let actions = collect_actions(requests.as_slice());
            return self.hear_calls(shift, reply.text.as_str(), requests, source, actions, tok);
        }
        let lines = calls_in_lines(reply.text.as_str());
        assert(toolcalls::all_calls(lines@).len() == lines@.len());
        if lines.len() > 0 && parse(strip_outer_fence(reply.text.as_str()).as_str(), tok).is_err() {
            let (asked, actions) = collect_lines(lines);
            return self.hear_calls(shift, reply.text.as_str(), asked, CallSource::LineSyntax, actions, tok);
        }
        self.hear_text(shift, reply.text.as_str(), reply.truncated, now, tok)
    }

    /// Takes in how many files the journal says this node wrote.
    pub fn count<'a>(&mut self, shift: &Shift<'a>, written: usize, now: &str) -> (r: Turned)
        requires
            old(self).phase is Counting,
        ensures
            final(self).awaits(r.act),
            old(self)@.stand matches Stand::Counting { doc, reply } && (final(self)@, r@) == counted(
                Talk { stand: Stand::Over, ..old(self)@ },
                shift@,
                doc,
                reply,
                written as nat,
                now@,
            ),
    {
        let mut phase = Phase::Over;
        std::mem::swap(&mut phase, &mut self.phase);
        match phase {
            Phase::Counting { doc, reply } => {
                if written == 0 {
                    let mut note = shift.id.to_owned();
                    note.append(": reported completion but the journal shows no file written — refused");
                    return self.tell_off(
                        shift.id,
                        note,
                        reply.as_str(),
                        "You reported the work as finished, but no file has been written. The record of this run shows only reads. Do the work: call write_file with the whole new contents of each file you need to change, then run the tests, then reply with your document.",
                    );
                }
                self.vouch(shift, doc, reply, now)
            },
            _ => Turned { notes: Vec::new(), act: Act::Speak },
        }
    }

    fn refuse_deletion<'a>(&mut self, shift: &Shift<'a>, reply: &str, before: u32, after: u32) -> (r: Turned)
        ensures
            final(self).awaits(r.act),
            (final(self)@, r@) == told_off(
                old(self)@,
                shift@.id,
                shift@.id + ": "@ + digits::decimal(before as nat) + " tests before, "@ + digits::decimal(
                    after as nat,
                ) + " now — refused"@,
                reply@,
                "There were "@ + digits::decimal(before as nat) + " tests before you started and there are "@
                    + digits::decimal(after as nat)
                    + " now. You have deleted tests that existed. Restore every test that was there and keep your own as well, then run the tests again."@,
            ),
    {
        let had = write_number(before as u128);
        let has = write_number(after as u128);
        let mut note = shift.id.to_owned();
        note.append(": ");
        note.append(had.as_str());
        note.append(" tests before, ");
        note.append(has.as_str());
        note.append(" now — refused");
        let mut answer = "There were ".to_owned();
        answer.append(had.as_str());
        answer.append(" tests before you started and there are ");
        answer.append(has.as_str());
        answer.append(
            " now. You have deleted tests that existed. Restore every test that was there and keep your own as well, then run the tests again.",
        );
        self.tell_off(shift.id, note, reply, answer.as_str())
    }

    fn refuse_red<'a>(&mut self, shift: &Shift<'a>, reply: &str, failed: u32, total: u32) -> (r: Turned)
        ensures
            final(self).awaits(r.act),
            (final(self)@, r@) == told_off(
                old(self)@,
                shift@.id,
                shift@.id + ": "@ + digits::decimal(failed as nat) + " of "@ + digits::decimal(total as nat)
                    + " tests fail — refused"@,
                reply@,
                "You reported the work as finished, but "@ + digits::decimal(failed as nat) + " of "@
                    + digits::decimal(total as nat)
                    + " tests fail. Read what the tests print, mend the code, run the tests again, and reply with your document when they pass."@,
            ),
    {
        let red = write_number(failed as u128);
        let all = write_number(total as u128);
        let mut note = shift.id.to_owned();
        note.append(": ");
        note.append(red.as_str());
        note.append(" of ");
        note.append(all.as_str());
        note.append(" tests fail — refused");
        let mut answer = "You reported the work as finished, but ".to_owned();
        answer.append(red.as_str());
        answer.append(" of ");
        answer.append(all.as_str());
        answer.append(
            " tests fail. Read what the tests print, mend the code, run the tests again, and reply with your document when they pass.",
        );
        self.tell_off(shift.id, note, reply, answer.as_str())
    }

    /// Takes in what the tests come to now. No counts mean that the output
    /// carries no summary: a missing count is not a zero.
    pub fn measure<'a>(&mut self, shift: &Shift<'a>, counts: Option<TestBaseline>, now: &str) -> (r: Turned)
        requires
            old(self).phase is Measuring,
        ensures
            final(self).awaits(r.act),
            old(self)@.stand matches Stand::Measuring { doc, reply } && (final(self)@, r@) == measured(
                Talk { stand: Stand::Over, ..old(self)@ },
                shift@,
                doc,
                reply,
                counts,
                now@,
            ),
    {
        let mut phase = Phase::Over;
        std::mem::swap(&mut phase, &mut self.phase);
        match phase {
            Phase::Measuring { doc, reply } => {
                if let Some(c) = counts {
                    if let Some(b) = shift.baseline {
                        if c.total < b.total {
                            return self.refuse_deletion(shift, reply.as_str(), b.total, c.total);
                        }
                    }
                    if shift.role.must_write && c.failed > 0 {
                        return self.refuse_red(shift, reply.as_str(), c.failed, c.total);
                    }
                }
                self.accept(shift, doc, now)
            },
            _ => Turned { notes: Vec::new(), act: Act::Speak },
        }
    }
}

// -------------------------------------------------------------------------------- laws

/// Success is never claimed over failing tests: where a role must write, and the
/// tests were counted and some fail, its document is not accepted.
pub proof fn law_no_success_over_failing_tests(
    w: Talk,
    post: Post,
    doc: Content,
    reply: Seq<char>,
    counts: TestBaseline,
    now: Seq<char>,
)
    requires
        post.role.must_write,
        counts.failed > 0,
    ensures
        !(measured(w, post, doc, reply, Some(counts), now).1.deed is Write),
{
}

/// A run that lost tests has gone backwards: where fewer are left than there were
/// before any agent acted, no document is accepted, whatever the role.
pub proof fn law_no_test_is_lost(
    w: Talk,
    post: Post,
    doc: Content,
    reply: Seq<char>,
    counts: TestBaseline,
    now: Seq<char>,
)
    requires
        post.baseline matches Some(b) && counts.total < b.total,
    ensures
        !(measured(w, post, doc, reply, Some(counts), now).1.deed is Write),
{
}

/// The claim is held against the record: a role that must write is never taken at
/// its word, and where the journal shows no file written, its document is not
/// accepted.
pub proof fn law_a_claim_is_held_against_the_record(
    w: Talk,
    post: Post,
    doc: Content,
    reply: Seq<char>,
    now: Seq<char>,
)
    requires
        post.role.must_write,
    ensures
        handed_in(w, post, doc, reply, now).1.deed is CountWrites,
        !(counted(w, post, doc, reply, 0, now).1.deed is Write),
        post.has_tests ==> forall|n: nat| !(#[trigger] counted(w, post, doc, reply, n, now).1.deed is Write),
{
}

/// A reply that makes its calls line by line is acted on, as one that uses the
/// channel is: where it is no document and spells no call in JSON, its first call
/// is performed next.
pub proof fn law_calls_made_by_lines_are_performed<T: Tokenizer + ?Sized>(
    w: Talk,
    post: Post,
    reply: Answer,
    now: Seq<char>,
    tok: &T,
)
    requires
        calls_in(reply).len() == 0,
        toolcalls::line_calls(reply.text).len() > 0,
        document::parsed(node::without_fence(reply.text), tok) is Err,
    ensures
        heard(w, post, reply, now, tok).1.deed == Deed::Dispatch(toolcalls::line_calls(reply.text)[0]),
{
    let lines = toolcalls::line_calls(reply.text);
    assert(as_actions(lines)[0] == Ok::<Call, Seq<char>>(lines[0]));
    assert(requests_of(lines).len() == lines.len());
}

/// Compacting drops neither the role nor the task, and keeps the last exchange.
pub proof fn law_compacting_keeps_the_task(turns: Seq<Turn>)
    requires
        turns.len() > 4,
    ensures
        shortened(turns).len() == 5,
        shortened(turns).take(2) == turns.take(2),
        shortened(turns).skip(3) == turns.skip(turns.len() - 2),
{
    assert(shortened(turns).take(2) =~= turns.take(2));
    assert(shortened(turns).skip(3) =~= turns.skip(turns.len() - 2));
}

/// An agent takes no more steps than it has: each one counts, and after the last
/// the node fails.
pub proof fn law_steps_are_bounded(w: Talk, id: Seq<char>, notes: Seq<Seq<char>>)
    requires
        w.step <= w.max_steps,
    ensures
        next_step(w, id, notes).0.step <= w.max_steps,
        next_step(w, id, notes).0.max_steps == w.max_steps,
        next_step(w, id, notes).1.deed is Speak == (next_step(w, id, notes).0.step == w.step + 1),
        w.step == w.max_steps ==> next_step(w, id, notes).1.deed is Fail,
{
}

/// Each failure is counted: one more of the same raises the count by one, one of
/// another kind leaves it alone.
pub proof fn law_a_repetition_is_counted(failures: Seq<Failing>, f: Failing, g: Failing)
    ensures
        times(failures.push(f), f) == times(failures, f) + 1,
        g != f ==> times(failures.push(g), f) == times(failures, f),
{
    assert(failures.push(f).drop_last() =~= failures);
    assert(failures.push(g).drop_last() =~= failures);
}

/// What stands between a document and its acceptance is the tests alone: once they
/// are counted, it is written exactly where none was lost and, for a role that must
/// write, none fails; where they cannot be counted, it is written.
pub proof fn law_a_sound_document_is_accepted(
    w: Talk,
    post: Post,
    doc: Content,
    reply: Seq<char>,
    counts: TestBaseline,
    now: Seq<char>,
)
    ensures
        measured(w, post, doc, reply, None, now).1.deed is Write,
        measured(w, post, doc, reply, Some(counts), now).1.deed is Write <==> (post.baseline matches Some(b)
            ==> counts.total >= b.total) && (post.role.must_write ==> counts.failed == 0),
        measured(w, post, doc, reply, Some(counts), now).1.deed is Write ==> measured(
            w,
            post,
            doc,
            reply,
            Some(counts),
            now,
        ) == measured(w, post, doc, reply, None, now),
{
}

/// What a document has to pass goes by the role and by what is known of the tests:
/// a role that must write is held against the journal first; then the tests are
/// run, where it is known how and there is something to hold them against; and a
/// document that has to pass neither is written at once.
pub proof fn law_what_a_document_has_to_pass(
    w: Talk,
    post: Post,
    doc: Content,
    reply: Seq<char>,
    written: nat,
    now: Seq<char>,
)
    ensures
        ({
            let tests = post.has_tests && (post.baseline is Some || post.role.must_write);
            let at_first = handed_in(w, post, doc, reply, now);
            let later = counted(w, post, doc, reply, written, now);
            &&& post.role.must_write <==> at_first.1.deed is CountWrites
            &&& !post.role.must_write && tests <==> at_first.1.deed is MeasureTests
            &&& !post.role.must_write && !tests <==> at_first.1.deed is Write
            &&& written > 0 && tests <==> later.1.deed is MeasureTests
            &&& written > 0 && !tests <==> later.1.deed is Write
            &&& at_first.0.turns == w.turns && at_first.0.step == w.step
        }),
{
}

/// A document that is written is the one the model handed in, but for what the
/// harness owns; it is told after how many steps.
pub proof fn law_what_is_written_is_what_was_handed_in(w: Talk, post: Post, doc: Content, now: Seq<char>)
    ensures
        accepted(w, post, doc, now).1.deed matches Deed::Write { text, .. } && exists|c: Content|
            {
                &&& text == #[trigger] document::rendered(c)
                &&& c.artifact == doc.artifact && c.results == doc.results && c.digest == doc.digest && c.body == doc.body
                &&& c.run == post.run_id && c.node == post.id && c.attempt == w.step && c.model == post.model
                &&& c.created == now
            },
{
    let c = outputs::marked(doc, post.run_id, post.id, w.step, post.model, now);
    assert(accepted(w, post, doc, now).1.deed->Write_text == document::rendered(c));
}

/// A reply that is turned down is shown to the model again, with what it is told
/// about it behind it; the rest of the conversation stays, and the step is over.
pub proof fn law_a_reply_that_is_turned_down_is_answered(
    w: Talk,
    id: Seq<char>,
    note: Seq<char>,
    reply: Seq<char>,
    answer: Seq<char>,
)
    ensures
        ({
            let (after, told) = told_off(w, id, note, reply, answer);
            &&& after.turns.len() == w.turns.len() + 2
            &&& after.turns.take(w.turns.len() as int) == w.turns
            &&& after.turns[w.turns.len() as int].content == reply
            &&& after.turns[w.turns.len() as int].role == Role::Assistant
            &&& after.turns[w.turns.len() as int + 1].content == answer
            &&& after.turns[w.turns.len() as int + 1].role == Role::User
            &&& after.failures == w.failures
            &&& told.notes == seq![note]
            &&& w.step < w.max_steps ==> told.deed is Speak && after.step == w.step + 1
            &&& w.step >= w.max_steps ==> told.deed is Fail
        }),
{
    let (after, told) = told_off(w, id, note, reply, answer);
    assert(after.turns.take(w.turns.len() as int) =~= w.turns);
}

/// A reply that is no document and makes no call is turned down; one that is a
/// document and makes no call through the channel or in JSON is handed in.
pub proof fn law_a_reply_without_calls_is_its_document<T: Tokenizer + ?Sized>(
    w: Talk,
    post: Post,
    reply: Answer,
    now: Seq<char>,
    tok: &T,
)
    requires
        reply.calls.len() == 0,
        chat::calls_from(reply.text, 0).len() == 0,
    ensures
        document::parsed(node::without_fence(reply.text), tok) matches Ok(doc) ==> heard(w, post, reply, now, tok)
            == handed_in(w, post, doc, reply.text, now),
        document::parsed(node::without_fence(reply.text), tok) is Err && toolcalls::line_calls(reply.text).len()
            == 0 ==> {
            let (after, told) = heard(w, post, reply, now, tok);
            &&& after.turns.len() == w.turns.len() + 2
            &&& after.turns[w.turns.len() as int].content == reply.text
            &&& told.deed is Speak || told.deed is Fail
        },
{
}

/// The calls from place `i` on, the first usable one in place `k`: that one is
/// performed next, and each before it is answered, in its place, with what is wrong
/// with it.
pub proof fn law_calls_are_performed_in_order<T: Tokenizer + ?Sized>(
    w: Talk,
    post: Post,
    requests: Seq<Asked>,
    actions: Seq<Result<Call, Seq<char>>>,
    i: int,
    k: int,
    notes: Seq<Seq<char>>,
    tok: &T,
)
    requires
        0 <= i <= k < requests.len(),
        actions.len() == requests.len(),
        actions[k] is Ok,
        forall|j: int| i <= j < k ==> (#[trigger] actions[j]) is Err,
    ensures
        ({
            let (after, told) = called(w, post, requests, actions, i, notes, tok);
            &&& told.deed == Deed::Dispatch(actions[k]->Ok_0)
            &&& after.stand == (Stand::Calling { requests, actions, next: k as nat })
            &&& after.turns.len() == w.turns.len() + (k - i)
            &&& after.turns.take(w.turns.len() as int) == w.turns
            &&& forall|j: int|
                i <= j < k ==> #[trigger] after.turns[w.turns.len() + (j - i)] == chat::result_turn(
                    requests[j].name,
                    actions[j]->Err_0,
                )
            &&& after.step == w.step && after.failures == w.failures
        }),
    decreases k - i,
{
    let (after, told) = called(w, post, requests, actions, i, notes, tok);
    if i < k {
        assert(actions[i] is Err);
        let why = actions[i]->Err_0;
        let w1 = Talk { turns: w.turns.push(chat::result_turn(requests[i].name, why)), ..w };
        law_calls_are_performed_in_order(
            w1,
            post,
            requests,
            actions,
            i + 1,
            k,
            notes.push(post.id + ": unusable call — "@ + why),
            tok,
        );
        assert(after.turns.take(w.turns.len() as int) =~= w.turns) by {
            assert forall|x: int| 0 <= x < w.turns.len() implies after.turns[x] == w.turns[x] by {
                assert(after.turns.take(w1.turns.len() as int)[x] == w1.turns[x]);
            }
        }
        assert forall|j: int| i <= j < k implies #[trigger] after.turns[w.turns.len() + (j - i)]
            == chat::result_turn(requests[j].name, actions[j]->Err_0) by {
            if j == i {
                assert(after.turns.take(w1.turns.len() as int)[w.turns.len() as int] == w1.turns[w.turns.len() as int]);
            } else {
                assert(after.turns[w1.turns.len() + (j - (i + 1))] == chat::result_turn(
                    requests[j].name,
                    actions[j]->Err_0,
                ));
            }
        }
    } else {
        assert(after.turns.take(w.turns.len() as int) =~= w.turns);
    }
}

/// Where no call is left that can be used, the step is over.
pub proof fn law_a_step_ends_with_its_calls<T: Tokenizer + ?Sized>(
    w: Talk,
    post: Post,
    requests: Seq<Asked>,
    actions: Seq<Result<Call, Seq<char>>>,
    i: int,
    notes: Seq<Seq<char>>,
    tok: &T,
)
    requires
        0 <= i <= requests.len(),
        actions.len() == requests.len(),
        forall|j: int| i <= j < requests.len() ==> (#[trigger] actions[j]) is Err,
    ensures
        called(w, post, requests, actions, i, notes, tok).1.deed is Speak || called(
            w,
            post,
            requests,
            actions,
            i,
            notes,
            tok,
        ).1.deed is Fail,
    decreases requests.len() - i,
{
    if i < requests.len() {
        assert(actions[i] is Err);
        let why = actions[i]->Err_0;
        law_a_step_ends_with_its_calls(
            Talk { turns: w.turns.push(chat::result_turn(requests[i].name, why)), ..w },
            post,
            requests,
            actions,
            i + 1,
            notes.push(post.id + ": unusable call — "@ + why),
            tok,
        );
    }
}

/// What came of a call goes back to the model under the name of that call, before
/// the next usable one is performed; a call that has failed the same way before is
/// named as such, with how often.
pub proof fn law_a_result_goes_to_its_call<T: Tokenizer + ?Sized>(
    w: Talk,
    post: Post,
    requests: Seq<Asked>,
    actions: Seq<Result<Call, Seq<char>>>,
    i: int,
    k: int,
    came: Result<Came, Seq<char>>,
    tok: &T,
)
    requires
        0 <= i < k < requests.len(),
        actions.len() == requests.len(),
        actions[k] is Ok,
        forall|j: int| i < j < k ==> (#[trigger] actions[j]) is Err,
    ensures
        ({
            let (after, told) = came_back(w, post, requests, actions, i, came, tok);
            let f = Failing { call: requests[i], result: result_text(came) };
            let failed = !(came matches Ok(c) && !(c is Refused) && (c matches Came::Ran { exit_code, .. } ==> exit_code
                == 0));
            &&& told.deed == Deed::Dispatch(actions[k]->Ok_0)
            &&& after.turns.take(w.turns.len() as int) == w.turns
            &&& after.turns[w.turns.len() as int] == chat::result_turn(
                requests[i].name,
                if failed && times(w.failures, f) > 0 {
                    result_text(came) + again_text(times(w.failures, f) + 1)
                } else {
                    result_text(came)
                },
            )
            &&& after.failures == if failed {
                w.failures.push(f)
            } else {
                w.failures
            }
        }),
{
    let f = Failing { call: requests[i], result: result_text(came) };
    law_a_repetition_is_counted(w.failures, f, f);
    let failed = has_failed(came);
    let failures = if failed {
        w.failures.push(f)
    } else {
        w.failures
    };
    let n = times(failures, f);
    let again = failed && n > 1;
    let shown = if again {
        result_text(came) + again_text(n)
    } else {
        result_text(came)
    };
    let noted = seq![call_note(post.id, actions[i]->Ok_0, came)];
    let notes = if again {
        noted.push(post.id + ": the same call has now failed "@ + digits::decimal(n) + " times"@)
    } else {
        noted
    };
    let w1 = Talk { turns: w.turns.push(chat::result_turn(requests[i].name, shown)), failures, ..w };
    law_calls_are_performed_in_order(w1, post, requests, actions, i + 1, k, notes, tok);
    let (after, told) = came_back(w, post, requests, actions, i, came, tok);
    assert((after, told) == called(w1, post, requests, actions, i + 1, notes, tok));
    assert(after.turns.take(w.turns.len() as int) =~= w.turns) by {
        assert forall|x: int| 0 <= x < w.turns.len() implies after.turns[x] == w.turns[x] by {
            assert(after.turns.take(w1.turns.len() as int)[x] == w1.turns[x]);
        }
    }
    assert(after.turns.take(w1.turns.len() as int)[w.turns.len() as int] == w1.turns[w.turns.len() as int]);
}

/// What a call brought is shown whole where it is short enough, with what a command
/// exited with; a refusal and an error are shown with their reason.
pub proof fn law_results_are_shown_whole(t: Seq<char>, stdout: Seq<char>, stderr: Seq<char>, code: i32)
    ensures
        text::byte_len(t) <= 8000 ==> result_text(Ok(Came::Read(t))) == t,
        text::byte_len(stdout + stderr) <= 4000 ==> result_text(Ok(Came::Ran { exit_code: code, stdout, stderr }))
            == "exit "@ + digits::signed_decimal(code as int) + "\n"@ + (stdout + stderr),
        result_text(Ok(Came::Refused(t))) == "REFUSED: "@ + t,
        result_text(Err(t)) == "ERROR: "@ + t,
{
}

/// Calls that come through the channel are the ones that count, whatever the text
/// says; where there are none, those that the text spells in JSON are.
pub proof fn law_the_channel_comes_first<T: Tokenizer + ?Sized>(
    w: Talk,
    post: Post,
    reply: Answer,
    now: Seq<char>,
    tok: &T,
)
    ensures
        reply.calls.len() > 0 ==> heard(w, post, reply, now, tok) == asked(
            w,
            post,
            reply.text,
            reply.calls,
            CallSource::Native,
            actions_of(reply.calls),
            tok,
        ),
        reply.calls.len() == 0 && chat::calls_from(reply.text, 0).len() > 0 ==> heard(w, post, reply, now, tok)
            == asked(
            w,
            post,
            reply.text,
            chat::calls_from(reply.text, 0),
            CallSource::JsonInText,
            actions_of(chat::calls_from(reply.text, 0)),
            tok,
        ),
{
}

/// A turn that made calls is kept with them, and is followed by what came of them.
pub proof fn law_a_turn_keeps_its_calls<T: Tokenizer + ?Sized>(
    w: Talk,
    post: Post,
    reply: Seq<char>,
    requests: Seq<Asked>,
    source: CallSource,
    actions: Seq<Result<Call, Seq<char>>>,
    k: int,
    tok: &T,
)
    requires
        0 <= k < requests.len(),
        actions.len() == requests.len(),
        actions[k] is Ok,
        forall|j: int| 0 <= j < k ==> (#[trigger] actions[j]) is Err,
    ensures
        ({
            let (after, told) = asked(w, post, reply, requests, source, actions, tok);
            let turn = after.turns[w.turns.len() as int];
            &&& after.turns.take(w.turns.len() as int) == w.turns
            &&& turn.role == Role::Assistant && turn.content == reply && turn.calls == requests
            &&& told.deed == Deed::Dispatch(actions[k]->Ok_0)
        }),
{
    let w1 = Talk {
        turns: w.turns.push(Turn { role: Role::Assistant, content: reply, tool_name: None, calls: requests }),
        ..w
    };
    let notes = if source == CallSource::Native {
        seq![]
    } else {
        seq![post.id + ": the call came as "@ + chat::source_name(source) + " rather than through the tool channel"@]
    };
    law_calls_are_performed_in_order(w1, post, requests, actions, 0, k, notes, tok);
    let (after, told) = asked(w, post, reply, requests, source, actions, tok);
    assert(after.turns.take(w.turns.len() as int) =~= w.turns) by {
        assert forall|x: int| 0 <= x < w.turns.len() implies after.turns[x] == w.turns[x] by {
            assert(after.turns.take(w1.turns.len() as int)[x] == w1.turns[x]);
        }
    }
    assert(after.turns.take(w1.turns.len() as int)[w.turns.len() as int] == w1.turns[w.turns.len() as int]);
}

/// A conversation is compacted exactly where it takes more than two thirds of the
/// window and there is a middle to drop; otherwise it stays as it is.
pub proof fn law_a_conversation_is_compacted_when_it_must_be<T: Tokenizer + ?Sized>(
    w: Talk,
    post: Post,
    notes: Seq<Seq<char>>,
    tok: &T,
)
    ensures
        3 * tokens_of(w.turns, tok) > 2 * post.role.window && w.turns.len() > 4 ==> calls_done(
            w,
            post,
            notes,
            tok,
        ).0.turns == shortened(w.turns),
        !(3 * tokens_of(w.turns, tok) > 2 * post.role.window && w.turns.len() > 4) ==> calls_done(
            w,
            post,
            notes,
            tok,
        ).0.turns == w.turns,
{
}

/// The tokens of a conversation are those of its turns together.
pub proof fn law_every_turn_counts<T: Tokenizer + ?Sized>(turns: Seq<Turn>, turn: Turn, tok: &T)
    ensures
        tokens_of(Seq::<Turn>::empty(), tok) == 0,
        tokens_of(turns.push(turn), tok) == tokens_of(turns, tok) + tok.tokens(turn.content),
{
    assert(turns.push(turn).drop_last() =~= turns);
}

/// An agent has the steps that its role gives it, and twelve where it says nothing.
pub proof fn law_a_role_has_its_steps(role: RoleSpec)
    ensures
        role.max_steps matches Some(n) ==> steps_of(role) == n,
        role.max_steps is None ==> steps_of(role) == 12,
{
}

/// What is noted of a call says what it was; of one that was refused or went wrong
/// it says that it was not done, and why.
pub proof fn law_what_was_not_done_is_noted_so(id: Seq<char>, call: Call, came: Result<Came, Seq<char>>)
    ensures
        ({
            let what = id + ": "@ + outputs::described(call);
            let note = call_note(id, call, came);
            &&& came matches Ok(Came::Refused(_)) ==> note == what + " — NOT DONE, "@ + first_line(result_text(came))
            &&& came is Err ==> note == what + " — NOT DONE, "@ + first_line(result_text(came))
            &&& (came matches Ok(c) && !(c is Refused)) ==> note == what
        }),
{
    let what = id + ": "@ + outputs::described(call);
    assert(id + ": "@ + outputs::described(call) + " — NOT DONE, "@ + first_line(result_text(came)) =~= what
        + " — NOT DONE, "@ + first_line(result_text(came)));
}

/// The first line of a text is what stands before its first break.
pub proof fn law_the_first_line_ends_at_the_first_break(a: Seq<char>, rest: Seq<char>)
    requires
        a.len() > 0,
        !a.contains('\n'),
        a.last() != '\r',
    ensures
        first_line(a) == a,
        first_line(a + seq!['\n'] + rest) == a,
        first_line(seq![]) == ""@,
{
    split::lemma_lines_cons(a, rest);
    text::lemma_first_of(a, '\n');
    if text::first_of(a, '\n') < a.len() {
        assert(a.contains(a[text::first_of(a, '\n')]));
    }
}

/// The conversation opens with what the role is told, how it proceeds and how the
/// tests are run, and then what it is given to work on.
pub proof fn law_the_opening_says_it_all(
    role: RoleSpec,
    procedure: Seq<char>,
    context: Seq<char>,
    command: Seq<Seq<char>>,
)
    ensures
        ({
            let turns = opening(role, procedure, context, Some(command));
            &&& turns.len() == 2
            &&& turns[0].role == Role::System
            &&& text::starts_with(turns[0].content, role.system@ + procedure)
            &&& text::ends_with(turns[0].content, "\n"@ + chat::line_of(command))
            &&& turns[1].role == Role::User
            &&& turns[1].content == context
            &&& text::starts_with(opening(role, procedure, context, None)[0].content, role.system@ + procedure)
        }),
{
    let turns = opening(role, procedure, context, Some(command));
    let lead = role.system@ + procedure;
    let s = turns[0].content;
    assert(s.take(lead.len() as int) =~= lead);
    let told = "\n\nThe tests of this project are run with this command, and the harness measures with it too:\n"@;
    reveal_strlit("\n\nThe tests of this project are run with this command, and the harness measures with it too:\n");
    reveal_strlit("\n");
    let tail = "\n"@ + chat::line_of(command);
    assert(told[told.len() - 1] == '\n');
    assert(s.skip(s.len() - tail.len()) =~= tail);
    let t = opening(role, procedure, context, None)[0].content;
    assert(t.take(lead.len() as int) =~= lead);
}

/// A model whose reply was no document is told why; one whose answer was cut off is
/// told how much room it has.
pub proof fn law_a_model_is_told_why_it_was_not_heard(w: Talk, post: Post, e: Fault, reply: Seq<char>)
    ensures
        ({
            let n = w.turns.len() as int;
            let room = digits::signed_decimal(agent::room_for(post.role, STEP_ROOM) as int);
            let wrong = misheard(w, post, e, reply, false).0.turns[n + 1].content;
            let cut = misheard(w, post, e, reply, true).0.turns[n + 1].content;
            &&& text::ends_with(wrong, document::guidance_text(e))
            &&& text::occurs(cut, room)
        }),
{
    let n = w.turns.len() as int;
    let room = digits::signed_decimal(agent::room_for(post.role, STEP_ROOM) as int);
    let wrong = misheard(w, post, e, reply, false).0.turns[n + 1].content;
    let g = document::guidance_text(e);
    assert(wrong.skip(wrong.len() - g.len()) =~= g);
    text::lemma_occurs_within(
        "The previous reply was cut off at "@,
        room,
        " tokens, before the document was finished. Reply with the whole document again, and make it short enough to fit."@,
    );
}

/// A model whose work does not stand is told by how much: how many tests there were
/// and are, or how many of them fail.
pub proof fn law_a_model_is_told_what_the_tests_say(
    w: Talk,
    post: Post,
    doc: Content,
    reply: Seq<char>,
    counts: TestBaseline,
    now: Seq<char>,
)
    ensures
        ({
            let told = measured(w, post, doc, reply, Some(counts), now).0.turns;
            let answer = told[told.len() - 1].content;
            let lost = post.baseline matches Some(b) && counts.total < b.total;
            &&& lost ==> text::occurs(answer, digits::decimal(post.baseline->0.total as nat)) && text::occurs(
                answer,
                digits::decimal(counts.total as nat),
            )
            &&& !lost && post.role.must_write && counts.failed > 0 ==> text::occurs(
                answer,
                digits::decimal(counts.failed as nat),
            ) && text::occurs(answer, digits::decimal(counts.total as nat))
        }),
{
    let told = measured(w, post, doc, reply, Some(counts), now).0.turns;
    let answer = told[told.len() - 1].content;
    let total = digits::decimal(counts.total as nat);
    if post.baseline matches Some(b) && counts.total < b.total {
        let a = "There were "@;
        let was = digits::decimal(post.baseline->0.total as nat);
        let c = " tests before you started and there are "@;
        let d =
            " now. You have deleted tests that existed. Restore every test that was there and keep your own as well, then run the tests again."@;
        assert(answer == a + was + c + total + d);
        text::lemma_occurs_within(a, was, c + total + d);
        assert(a + was + (c + total + d) =~= answer);
        text::lemma_occurs_within(a + was + c, total, d);
    } else if post.role.must_write && counts.failed > 0 {
        let a = "You reported the work as finished, but "@;
        let bad = digits::decimal(counts.failed as nat);
        let c = " of "@;
        let d =
            " tests fail. Read what the tests print, mend the code, run the tests again, and reply with your document when they pass."@;
        assert(answer == a + bad + c + total + d);
        text::lemma_occurs_within(a, bad, c + total + d);
        assert(a + bad + (c + total + d) =~= answer);
        text::lemma_occurs_within(a + bad + c, total, d);
    }
}

/// A failure for want of steps says whose they were and how many.
pub proof fn law_a_node_that_ran_out_says_so(id: Seq<char>, max_steps: nat)
    ensures
        text::occurs(spent(id, max_steps), id),
        text::occurs(spent(id, max_steps), digits::decimal(max_steps)),
{
    let n = digits::decimal(max_steps);
    let s = spent(id, max_steps);
    let tail = " steps without producing its document"@;
    text::lemma_occurs_within("`"@, id, "` used all "@ + n + tail);
    assert("`"@ + id + ("` used all "@ + n + tail) =~= s);
    text::lemma_occurs_within("`"@ + id + "` used all "@, n, tail);
}

} // verus!
