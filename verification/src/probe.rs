//! Measuring what a model can do, once, so the engine can adapt to it.
//!
//! The probe never executes anything. It only looks at what the model *asks
//! for*, which is all the engine needs to choose a protocol and means a probe
//! can never touch a project.

use vstd::prelude::*;
use crate::chat;
use crate::chat::{recover_from_text, Asked, ToolCallRequest};
use crate::digits;
use crate::digits::write_number;
use crate::document;
use crate::document::{parse, Artifact};
use crate::json;
use crate::json::string_at;
use crate::node;
use crate::node::{format_contract, strip_outer_fence};
use crate::ollama::{Answer, ChatReply};
use crate::profile;
use crate::profile::{EditStyle, Measured, ModelProfile, ToolChannel};
use crate::text;
use crate::text::{chars_of, mentions, same};
use crate::tokens::Tokenizer;

verus! {

/// What is asked next.
#[derive(Debug, Clone, Copy, PartialEq, Eq, Structural)]
pub enum Question {
    /// Does it call a tool at all, and by which route?
    Channel,
    /// Several calls in one turn.
    Parallel,
    /// Can it deliver a whole file in one argument? This is a capability, not a
    /// preference: a model that cannot is not a model that cannot edit.
    WholeFile,
    /// Does it hold the document format without being corrected?
    Format,
    /// Nothing: all was asked.
    Done,
}

/// A measurement under way.
#[derive(Debug, Clone, PartialEq, Eq)]
pub struct Probe {
    pub profile: ModelProfile,
    pub longest: usize,
    pub question: Question,
}

/// A measurement under way, as texts and figures.
#[verifier::ext_equal]
pub struct Inquiry {
    pub profile: Measured,
    pub longest: nat,
    pub question: Question,
}

impl View for Probe {
    type V = Inquiry;

    open spec fn view(&self) -> Inquiry {
        Inquiry { profile: self.profile@, longest: self.longest as nat, question: self.question }
    }
}

/// One exchange with the model.
#[derive(Debug, Clone, PartialEq, Eq)]
pub struct Exchange {
    /// What is said of it.
    pub note: &'static str,
    pub system: String,
    pub user: &'static str,
    pub with_tools: bool,
}

/// The instructions of a question.
pub open spec fn system_of(question: Question, model: Seq<char>) -> Seq<char> {
    match question {
        Question::WholeFile =>
            "You change files in a project. Use the tools you are given. When you write a file, send its entire contents."@,
        Question::Format => "You are an analyst. Turn a task into requirements."@ + node::contract_text(
            Artifact::Requirements,
            "probe"@,
            "probe"@,
            1,
            model,
            seq![],
        ),
        _ => "You change files in a project. Use the tools you are given."@,
    }
}

/// What is asked.
pub open spec fn user_of(question: Question) -> Seq<char> {
    match question {
        Question::Channel => "Read the file src/main.py so you can see what is in it."@,
        Question::Parallel => "Read both src/main.py and tests/test_main.py. Do it in one reply."@,
        Question::WholeFile =>
            "Create src/greet.py containing a single function greet(name) that returns the string 'hello ' followed by the name. Write the whole file."@,
        Question::Format => "TASK\nAdd a function that formats a number of seconds as a duration string."@,
        Question::Done => ""@,
    }
}

/// What is said of a question.
pub open spec fn note_of(question: Question) -> Seq<char> {
    match question {
        Question::Channel => "channel: asking for a single file read"@,
        Question::Parallel => "parallel: asking for two file reads at once"@,
        Question::WholeFile => "edit style: asking for a whole small file"@,
        Question::Format => "format: asking for a document with our header"@,
        Question::Done => ""@,
    }
}

/// The calls of a reply, and the route by which they came.
pub open spec fn route_of(reply: Answer) -> (Seq<Asked>, ToolChannel) {
    if reply.calls.len() > 0 {
        (reply.calls, ToolChannel::Native)
    } else if chat::calls_from(reply.text, 0).len() > 0 {
        (chat::calls_from(reply.text, 0), ToolChannel::JsonInText)
    } else {
        (seq![], ToolChannel::TextOnly)
    }
}

/// Whether one of the calls has the name.
pub open spec fn has_call(calls: Seq<Asked>, name: Seq<char>) -> bool {
    exists|i: int| 0 <= i < calls.len() && (#[trigger] calls[i]).name == name
}

/// Whether a call, with the content it came with, writes a file that holds the
/// function that was asked for.
pub open spec fn delivers(call: Asked, content: Option<Seq<char>>) -> bool {
    call.name == "write_file"@ && (content matches Some(c) && text::occurs(c, "def greet"@))
}

/// Whether one of the calls delivers the file that was asked for.
pub open spec fn is_delivered(calls: Seq<Asked>, contents: Seq<Option<Seq<char>>>) -> bool {
    exists|i: int| 0 <= i < calls.len() && #[trigger] delivers(calls[i], contents[i])
}

/// The contents that calls come with.
pub open spec fn contents_of(calls: Seq<Asked>) -> Seq<Option<Seq<char>>> {
    calls.map_values(|c: Asked| json::string_member(c.arguments, "content"@))
}

pub open spec fn channel_name(c: ToolChannel) -> Seq<char> {
    match c {
        ToolChannel::Native => "Native"@,
        ToolChannel::JsonInText => "JsonInText"@,
        ToolChannel::TextOnly => "TextOnly"@,
    }
}

pub open spec fn truth(b: bool) -> Seq<char> {
    if b {
        "true"@
    } else {
        "false"@
    }
}

/// The longer of a length and that of a text, in characters.
pub open spec fn at_least(longest: nat, t: Seq<char>) -> nat {
    if t.len() > longest {
        t.len()
    } else {
        longest
    }
}

/// Where a measurement stands after an answer, and what is said of it. `contents`
/// is what the calls come with, and `held` whether the text is a document.
pub open spec fn learned(
    p: Inquiry,
    text: Seq<char>,
    calls: Seq<Asked>,
    channel: ToolChannel,
    contents: Seq<Option<Seq<char>>>,
    held: bool,
) -> (Inquiry, Seq<char>) {
    let longest = at_least(p.longest, text);
    match p.question {
        Question::Channel => (
            Inquiry { profile: Measured { channel, ..p.profile }, longest, question: Question::Parallel },
            "channel: "@ + channel_name(channel) + ", read_file requested: "@ + truth(
                has_call(calls, "read_file"@),
            ),
        ),
        Question::Parallel => (
            Inquiry {
                profile: Measured { parallel_calls: calls.len() >= 2, ..p.profile },
                longest,
                question: Question::WholeFile,
            },
            "parallel: "@ + digits::decimal(calls.len()) + " call(s) in one turn"@,
        ),
        Question::WholeFile => {
            let style = if is_delivered(calls, contents) {
                EditStyle::WholeFile
            } else {
                EditStyle::Replacement
            };
            (
                Inquiry {
                    profile: Measured { edit_style: style, ..p.profile },
                    longest,
                    question: Question::Format,
                },
                "edit style: "@ + (if style == EditStyle::WholeFile {
                    "WholeFile"@
                } else {
                    "Replacement"@
                }),
            )
        },
        Question::Format => (
            Inquiry {
                profile: Measured { holds_format: held, max_output_chars: longest, ..p.profile },
                longest,
                question: Question::Done,
            },
            "format held first time: "@ + truth(held),
        ),
        Question::Done => (p, ""@),
    }
}

fn say(b: bool) -> (s: &'static str)
    ensures
        s@ == truth(b),
{
    if b {
        "true"
    } else {
        "false"
    }
}

fn asks_for(calls: &[ToolCallRequest], name: &str) -> (r: bool)
    ensures
        r == has_call(chat::all_asked(calls@), name@),
{
    let ghost all = chat::all_asked(calls@);
    let mut i: usize = 0;
    while i < calls.len()
        invariant
            i <= calls.len(),
            all == chat::all_asked(calls@),
            forall|j: int| 0 <= j < i ==> (#[trigger] all[j]).name != name@,
        decreases calls.len() - i,
    {
        assert(all[i as int].name == calls@[i as int].name@);
        if same(calls[i].name.as_str(), name) {
            return true;
        }
        i = i + 1;
    }
    assert(all.len() == calls@.len());
    false
}

/// Contents, as texts.
pub open spec fn all_said(v: Seq<Option<String>>) -> Seq<Option<Seq<char>>> {
    v.map_values(|s: Option<String>| json::said(s))
}

fn delivered(calls: &[ToolCallRequest], contents: &[Option<String>]) -> (r: bool)
    requires
        calls@.len() == contents@.len(),
    ensures
        r == is_delivered(chat::all_asked(calls@), all_said(contents@)),
{
    let ghost all = chat::all_asked(calls@);
    let ghost with = all_said(contents@);
    let mut i: usize = 0;
    while i < calls.len()
        invariant
            i <= calls.len(),
            calls@.len() == contents@.len(),
            all == chat::all_asked(calls@),
            with == all_said(contents@),
            forall|j: int| 0 <= j < i ==> !#[trigger] delivers(all[j], with[j]),
        decreases calls.len() - i,
    {
        assert(all[i as int].name == calls@[i as int].name@);
        assert(with[i as int] == json::said(contents@[i as int]));
        if same(calls[i].name.as_str(), "write_file") {
            if let Some(c) = &contents[i] {
                let chars = chars_of(c.as_str());
                if mentions(chars.as_slice(), "def greet") {
                    assert(delivers(all[i as int], with[i as int]));
                    return true;
                }
            }
        }
        i = i + 1;
    }
    assert(all.len() == calls@.len());
    false
}

fn collect_contents(calls: &[ToolCallRequest]) -> (v: Vec<Option<String>>)
    ensures
        v@.len() == calls@.len(),
        all_said(v@) == contents_of(chat::all_asked(calls@)),
{
    let ghost all = contents_of(chat::all_asked(calls@));
    let mut v: Vec<Option<String>> = Vec::new();
    let mut i: usize = 0;
    assert(all_said(v@) =~= all.take(0));
    while i < calls.len()
        invariant
            i <= calls.len(),
            v@.len() == i,
            all == contents_of(chat::all_asked(calls@)),
            all_said(v@) == all.take(i as int),
        decreases calls.len() - i,
    {
        let ghost before = v@;
        let one = string_at(calls[i].arguments.as_str(), "content");
        assert(json::said(one) == all[i as int]);
        v.push(one);
        assert(all_said(v@) =~= all_said(before).push(all[i as int]));
        i = i + 1;
        assert(all.take(i as int) =~= all.take(i - 1).push(all[i - 1]));
    }
    assert(all.take(i as int) =~= all);
    v
}

impl Probe {
    /// Begins to measure a model.
    pub fn begin(model: &str, now: &str) -> (p: Self)
        ensures
            p@ == (Inquiry {
                profile: Measured { measured_at: now@, ..profile::assumed(model@) },
                longest: 0,
                question: Question::Channel,
            }),
    {
        let mut profile = ModelProfile::unmeasured(model);
        profile.measured_at = now.to_owned();
        Probe { profile, longest: 0, question: Question::Channel }
    }

    /// What is asked next, or nothing where all was asked.
    pub fn exchange(&self) -> (r: Option<Exchange>)
        ensures
            r is None == (self.question == Question::Done),
            r matches Some(e) ==> e.note@ == note_of(self.question) && e.system@ == system_of(
                self.question,
                self.profile.model@,
            ) && e.user@ == user_of(self.question) && e.with_tools == (self.question != Question::Format),
    {
        match self.question {
            Question::Channel => Some(
                Exchange {
                    note: "channel: asking for a single file read",
                    system: "You change files in a project. Use the tools you are given.".to_owned(),
                    user: "Read the file src/main.py so you can see what is in it.",
                    with_tools: true,
                },
            ),
            Question::Parallel => Some(
                Exchange {
                    note: "parallel: asking for two file reads at once",
                    system: "You change files in a project. Use the tools you are given.".to_owned(),
                    user: "Read both src/main.py and tests/test_main.py. Do it in one reply.",
                    with_tools: true,
                },
            ),
            Question::WholeFile => Some(
                Exchange {
                    note: "edit style: asking for a whole small file",
                    system:
                        "You change files in a project. Use the tools you are given. When you write a file, send its entire contents.".to_owned(),
                    user:
                        "Create src/greet.py containing a single function greet(name) that returns the string 'hello ' followed by the name. Write the whole file.",
                    with_tools: true,
                },
            ),
            Question::Format => {
                let mut system = "You are an analyst. Turn a task into requirements.".to_owned();
                let none: Vec<String> = Vec::new();
                assert(text::texts(none@) =~= seq![]);
                system.append(
                    format_contract(
                        Artifact::Requirements,
                        "probe",
                        "probe",
                        1,
                        self.profile.model.as_str(),
                        none.as_slice(),
                    ).as_str(),
                );
                Some(
                    Exchange {
                        note: "format: asking for a document with our header",
                        system,
                        user: "TASK\nAdd a function that formats a number of seconds as a duration string.",
                        with_tools: false,
                    },
                )
            },
            Question::Done => None,
        }
    }

    /// Learns from an answer: its text, the calls in it with the contents that
    /// they come with, the route by which they came, and whether the text is a
    /// document.
    pub fn learn(
        &mut self,
        text: &str,
        calls: &[ToolCallRequest],
        channel: ToolChannel,
        contents: &[Option<String>],
        held: bool,
    ) -> (note: String)
        requires
            calls@.len() == contents@.len(),
        ensures
            (final(self)@, note@) == learned(
                old(self)@,
                text@,
                chat::all_asked(calls@),
                channel,
                all_said(contents@),
                held,
            ),
    {
        let chars = chars_of(text);
        let length: usize = chars.len();
        assert(chat::all_asked(calls@).len() == calls@.len());
        if self.question != Question::Done && length > self.longest {
            self.longest = length;
        }
        match self.question {
            Question::Channel => {
                self.profile.channel = channel;
                self.question = Question::Parallel;
                let mut note = "channel: ".to_owned();
                note.append(
                    match channel {
                        ToolChannel::Native => "Native",
                        ToolChannel::JsonInText => "JsonInText",
                        ToolChannel::TextOnly => "TextOnly",
                    },
                );
                note.append(", read_file requested: ");
                note.append(say(asks_for(calls, "read_file")));
                note
            },
            Question::Parallel => {
                self.profile.parallel_calls = calls.len() >= 2;
                self.question = Question::WholeFile;
                let mut note = "parallel: ".to_owned();
                note.append(write_number(calls.len() as u128).as_str());
                note.append(" call(s) in one turn");
                note
            },
            Question::WholeFile => {
                let whole = delivered(calls, contents);
                self.question = Question::Format;
                let mut note = "edit style: ".to_owned();
                if whole {
                    self.profile.edit_style = EditStyle::WholeFile;
                    note.append("WholeFile");
                } else {
                    self.profile.edit_style = EditStyle::Replacement;
                    note.append("Replacement");
                }
                note
            },
            Question::Format => {
                self.profile.holds_format = held;
                self.profile.max_output_chars = self.longest;
                self.question = Question::Done;
                let mut note = "format held first time: ".to_owned();
                note.append(say(held));
                note
            },
            Question::Done => "".to_owned(),
        }
    }

    /// Takes the model's reply to what was asked.
    pub fn hear<T: Tokenizer + ?Sized>(&mut self, reply: ChatReply, tok: &T) -> (note: String)
        ensures
            ({
                let (calls, channel) = route_of(reply@);
                (final(self)@, note@) == learned(
                    old(self)@,
                    reply@.text,
                    calls,
                    channel,
                    contents_of(calls),
                    document::parsed(node::without_fence(reply@.text), tok) is Ok,
                )
            }),
    {
        assert(chat::all_asked(reply.tool_calls@).len() == reply.tool_calls@.len());
        let native = reply.tool_calls.len() > 0;
        let calls = if native {
            reply.tool_calls
        } else {
            recover_from_text(reply.text.as_str())
        };
        assert(chat::all_asked(calls@).len() == calls@.len());
        let channel = if native {
            ToolChannel::Native
        } else if calls.len() > 0 {
            ToolChannel::JsonInText
        } else {
            ToolChannel::TextOnly
        };
        assert(calls@.len() == 0 ==> chat::all_asked(calls@) =~= seq![]);
        let contents = collect_contents(calls.as_slice());
        let raw = strip_outer_fence(reply.text.as_str());
        let held = parse(raw.as_str(), tok).is_ok();
        self.learn(reply.text.as_str(), calls.as_slice(), channel, contents.as_slice(), held)
    }

    /// What is said when all was asked.
    pub fn closing_note(&self) -> (s: String)
        ensures
            s@ == "longest reply seen: "@ + digits::decimal(self@.longest) + " characters"@,
    {
        let mut s = "longest reply seen: ".to_owned();
        s.append(write_number(self.longest as u128).as_str());
        s.append(" characters");
        s
    }
}

/// Whether a model is to be measured: one that answers, and where some were asked
/// for, one whose name holds one of those.
pub open spec fn is_wanted(name: Seq<char>, wanted: Seq<Seq<char>>) -> bool {
    !text::occurs(name, "embed"@) && (wanted.len() == 0 || exists|i: int|
        0 <= i < wanted.len() && text::occurs(name, #[trigger] wanted[i]))
}

/// Whether a model is to be measured.
pub fn wants(name: &str, wanted: &[String]) -> (r: bool)
    ensures
        r == is_wanted(name@, text::texts(wanted@)),
{
    let ghost all = text::texts(wanted@);
    let chars = chars_of(name);
    if mentions(chars.as_slice(), "embed") {
        return false;
    }
    assert(all.len() == wanted@.len());
    if wanted.len() == 0 {
        return true;
    }
    let mut i: usize = 0;
    while i < wanted.len()
        invariant
            i <= wanted.len(),
            all == text::texts(wanted@),
            chars@ == name@,
            !text::occurs(name@, "embed"@),
            forall|j: int| 0 <= j < i ==> !text::occurs(name@, #[trigger] all[j]),
        decreases wanted.len() - i,
    {
        assert(all[i as int] == wanted@[i as int]@);
        if mentions(chars.as_slice(), wanted[i].as_str()) {
            return true;
        }
        i = i + 1;
    }
    assert(all.len() == wanted@.len());
    false
}

/// Every capability is proven, never presumed: a model that answers without a
/// call is given none that takes one.
pub proof fn law_no_capability_without_a_call(p: Inquiry, text: Seq<char>, held: bool)
    ensures
        p.question == Question::Channel ==> learned(
            p,
            text,
            seq![],
            ToolChannel::TextOnly,
            seq![],
            held,
        ).0.profile.channel == ToolChannel::TextOnly,
        p.question == Question::Parallel ==> !learned(
            p,
            text,
            seq![],
            ToolChannel::TextOnly,
            seq![],
            held,
        ).0.profile.parallel_calls,
        p.question == Question::WholeFile ==> learned(
            p,
            text,
            seq![],
            ToolChannel::TextOnly,
            seq![],
            held,
        ).0.profile.edit_style == EditStyle::Replacement,
{
}

/// Each question teaches what it asks about and nothing else, and leads to the next.
pub proof fn law_each_question_teaches_one_thing(
    p: Inquiry,
    text: Seq<char>,
    calls: Seq<Asked>,
    channel: ToolChannel,
    held: bool,
)
    ensures
        ({
            let q = learned(p, text, calls, channel, contents_of(calls), held).0;
            let delivered = exists|i: int|
                0 <= i < calls.len() && (#[trigger] calls[i]).name == "write_file"@ && (json::string_member(
                    calls[i].arguments,
                    "content"@,
                ) matches Some(c) && text::occurs(c, "def greet"@));
            &&& p.question is Channel ==> q.question is Parallel && q.profile == (Measured { channel, ..p.profile })
            &&& p.question is Parallel ==> q.question is WholeFile && q.profile == (Measured {
                parallel_calls: calls.len() > 1,
                ..p.profile
            })
            &&& p.question is WholeFile ==> q.question is Format && q.profile == (Measured {
                edit_style: q.profile.edit_style,
                ..p.profile
            }) && (q.profile.edit_style is WholeFile <==> delivered)
            &&& p.question is Format ==> q.question is Done && q.profile == (Measured {
                holds_format: held,
                max_output_chars: q.longest,
                ..p.profile
            })
            &&& p.question is Done ==> q == p
            &&& !(p.question is Done) ==> q.longest >= p.longest && q.longest >= text.len() && (q.longest == p.longest
                || q.longest == text.len())
        }),
{
    let contents = contents_of(calls);
    assert forall|i: int| 0 <= i < calls.len() implies contents[i] == json::string_member(
        (#[trigger] calls[i]).arguments,
        "content"@,
    ) by {}
    if is_delivered(calls, contents) {
        let i = choose|i: int| 0 <= i < calls.len() && #[trigger] delivers(calls[i], contents[i]);
        assert(calls[i].name == "write_file"@);
    }
    if exists|i: int|
        0 <= i < calls.len() && (#[trigger] calls[i]).name == "write_file"@ && (json::string_member(
            calls[i].arguments,
            "content"@,
        ) matches Some(c) && text::occurs(c, "def greet"@)) {
        let i = choose|i: int|
            0 <= i < calls.len() && (#[trigger] calls[i]).name == "write_file"@ && (json::string_member(
                calls[i].arguments,
                "content"@,
            ) matches Some(c) && text::occurs(c, "def greet"@));
        assert(delivers(calls[i], contents[i]));
    }
}

/// What came by the channel counts before what stands in the text, and where neither
/// holds a call the model has text alone.
pub proof fn law_the_channel_counts_before_the_text(reply: Answer)
    ensures
        reply.calls.len() > 0 ==> route_of(reply) == (reply.calls, ToolChannel::Native),
        reply.calls.len() == 0 ==> route_of(reply).0 == chat::calls_from(reply.text, 0),
        reply.calls.len() == 0 ==> (route_of(reply).1 is JsonInText <==> chat::calls_from(reply.text, 0).len() > 0),
        route_of(reply).1 is TextOnly <==> route_of(reply).0.len() == 0,
{
    assert(chat::calls_from(reply.text, 0).len() == 0 ==> chat::calls_from(reply.text, 0) =~= seq![]);
}

/// A model that embeds is never asked; of the others all are where none was named,
/// and else those with a name that was.
pub proof fn law_which_models_are_asked(name: Seq<char>, wanted: Seq<Seq<char>>, i: int)
    ensures
        text::occurs(name, "embed"@) ==> !is_wanted(name, wanted),
        !text::occurs(name, "embed"@) && wanted.len() == 0 ==> is_wanted(name, wanted),
        !text::occurs(name, "embed"@) && 0 <= i < wanted.len() && text::occurs(name, wanted[i]) ==> is_wanted(
            name,
            wanted,
        ),
        wanted.len() > 0 && (forall|k: int| 0 <= k < wanted.len() ==> !text::occurs(name, #[trigger] wanted[k]))
            ==> !is_wanted(name, wanted),
{
}

/// The notes tell which channel was found, whether a read was asked for, how many
/// calls came at once and whether the format held.
pub proof fn law_the_notes_tell_what_was_learned(
    p: Inquiry,
    text: Seq<char>,
    calls: Seq<Asked>,
    channel: ToolChannel,
    contents: Seq<Option<Seq<char>>>,
    held: bool,
)
    ensures
        ({
            let note = learned(p, text, calls, channel, contents, held).1;
            &&& p.question is Channel ==> text::occurs(note, channel_name(channel)) && text::ends_with(
                note,
                truth(
                    exists|i: int| 0 <= i < calls.len() && (#[trigger] calls[i]).name == "read_file"@,
                ),
            )
            &&& p.question is Parallel ==> text::occurs(note, digits::decimal(calls.len()))
            &&& p.question is Format ==> text::ends_with(note, truth(held))
        }),
{
    let note = learned(p, text, calls, channel, contents, held).1;
    let a = "channel: "@;
    let b = ", read_file requested: "@;
    let t = truth(has_call(calls, "read_file"@));
    if p.question is Channel {
        assert(note =~= a + channel_name(channel) + (b + t));
        text::lemma_occurs_within(a, channel_name(channel), b + t);
        assert(note.skip(note.len() - t.len()) =~= t);
    }
    if p.question is Parallel {
        text::lemma_occurs_within("parallel: "@, digits::decimal(calls.len()), " call(s) in one turn"@);
    }
    if p.question is Format {
        assert(note.skip(note.len() - truth(held).len()) =~= truth(held));
    }
}

} // verus!
