//! Running one agent node: prompt, stream, parse, retry with guidance, write.
//!
//! The retry loop stands in place of silent acceptance: a malformed document
//! goes back to the model with an instruction, at most three times, and then
//! the node fails so a human can supply it.

use vstd::prelude::*;
use crate::agent;
use crate::agent::shorten;
use crate::digits;
use crate::digits::{write_number, write_signed};
use crate::document;
use crate::document::{parse, Artifact, Content, DocError, Document, Fault};
use crate::split;
use crate::split::{join_strings, split_at_last, split_once};
use crate::text;
use crate::text::{begins, chars_of, string_of, trimmed, trimmed_end};
use crate::tokens::Tokenizer;

verus! {

pub const MAX_ATTEMPTS: u32 = 3;

/// A role as a node is given it.
#[derive(Debug, Clone, PartialEq, Eq)]
pub struct Role {
    pub name: &'static str,
    pub model: String,
    pub window: u32,
    pub artifact: Artifact,
    pub system: &'static str,
}

/// One line of the results block as the contract shows it.
pub open spec fn contract_line(key: Seq<char>) -> Seq<char> {
    "  "@ + key + ": <number or single word>"@
}

/// The results block as the contract shows it.
pub open spec fn contract_results(keys: Seq<Seq<char>>) -> Seq<char> {
    if keys.len() == 0 {
        "  (none required)"@
    } else {
        split::join(keys.map_values(|k: Seq<char>| contract_line(k)), "\n"@)
    }
}

/// The format contract, as a text.
pub open spec fn contract_text(
    artifact: Artifact,
    run: Seq<char>,
    node: Seq<char>,
    attempt: nat,
    model: Seq<char>,
    inputs: Seq<Seq<char>>,
) -> Seq<char> {
    "\n\nOUTPUT FORMAT — this is not optional, and the reply is rejected without it.\nReply with exactly one document and nothing else. No preamble, no closing remarks,\nno code fence around the whole reply.\n\n---\nartifact: "@
        + artifact.label() + "\nrun: "@ + run + "\nnode: "@ + node + "\nattempt: "@ + digits::decimal(attempt)
        + "\nmodel: "@ + model + "\ncreated: <ISO 8601 timestamp>\ninputs: ["@ + split::join(inputs, ", "@)
        + "]\nresults:\n"@ + contract_results(artifact.results_keys())
        + "\ndigest: |\n  <two or three sentences of substance, with key numbers, at most 400 tokens>\n---\n\n<the document body, in the structure described above>\n"@
}

fn write_contract_results(keys: &[&'static str]) -> (s: String)
    ensures
        s@ == contract_results(text::names(keys@)),
{
    if keys.len() == 0 {
        return "  (none required)".to_owned();
    }
    let ghost all = text::names(keys@).map_values(|k: Seq<char>| contract_line(k));
    let mut v: Vec<String> = Vec::new();
    let mut i: usize = 0;
    assert(text::texts(v@) =~= all.take(0));
    while i < keys.len()
        invariant
            i <= keys.len(),
            all == text::names(keys@).map_values(|k: Seq<char>| contract_line(k)),
            text::texts(v@) == all.take(i as int),
        decreases keys.len() - i,
    {
        let mut line = "  ".to_owned();
        line.append(keys[i]);
        line.append(": <number or single word>");
        assert(text::names(keys@)[i as int] == keys@[i as int]@);
        assert(line@ == all[i as int]);
        proof {
            text::lemma_texts_push(v@, line);
        }
        v.push(line);
        i = i + 1;
        assert(all.take(i as int) =~= all.take(i - 1).push(all[i - 1]));
    }
    assert(all.take(i as int) =~= all);
    join_strings(v.as_slice(), "\n")
}

/// The format contract, appended to every role prompt. Kept in one place so a
/// change to the document format cannot drift from what roles are told.
pub fn format_contract(
    artifact: Artifact,
    run: &str,
    node: &str,
    attempt: u32,
    model: &str,
    inputs: &[String],
) -> (s: String)
    ensures
        s@ == contract_text(artifact, run@, node@, attempt as nat, model@, text::texts(inputs@)),
{
    let mut s =
        "\n\nOUTPUT FORMAT — this is not optional, and the reply is rejected without it.\nReply with exactly one document and nothing else. No preamble, no closing remarks,\nno code fence around the whole reply.\n\n---\nartifact: ".to_owned();
    s.append(artifact.name());
    s.append("\nrun: ");
    s.append(run);
    s.append("\nnode: ");
    s.append(node);
    s.append("\nattempt: ");
    s.append(write_number(attempt as u128).as_str());
    s.append("\nmodel: ");
    s.append(model);
    s.append("\ncreated: <ISO 8601 timestamp>\ninputs: [");
    s.append(join_strings(inputs, ", ").as_str());
    s.append("]\nresults:\n");
    s.append(write_contract_results(artifact.required_results()).as_str());
    s.append(
        "\ndigest: |\n  <two or three sentences of substance, with key numbers, at most 400 tokens>\n---\n\n<the document body, in the structure described above>\n",
    );
    s
}

/// The reply without a fence that wraps all of it: one that opens it, and that
/// nothing but white space follows where it closes. A fence that never closes
/// goes on to the end, and wraps all of it too.
pub open spec fn without_fence(s: Seq<char>) -> Seq<char> {
    let t = text::trim(s);
    if !text::starts_with(t, "```"@) {
        t
    } else {
        match split::halves(t, '\n') {
            None => t,
            Some((_, after)) => match split::halves_at_last(after, "```"@) {
                Some((inner, rest)) => if text::is_blank(rest) {
                    text::trim_end(inner)
                } else {
                    t
                },
                None => after,
            },
        }
    }
}

/// Strips a fence that wraps the entire reply, which some models add despite
/// being told not to. A fence inside the body is left alone, and so is one that
/// opens a reply which goes on behind it.
pub fn strip_outer_fence(text: &str) -> (s: String)
    ensures
        s@ == without_fence(text@),
{
    let chars = chars_of(text);
    let t = trimmed(chars.as_slice());
    if !begins(t, "```") {
        return string_of(t);
    }
    match split_once(t, '\n') {
        None => string_of(t),
        Some((_, after)) => match split_at_last(after, "```") {
            Some((inner, rest)) => if trimmed(rest).len() == 0 {
                string_of(trimmed_end(inner))
            } else {
                string_of(t)
            },
            None => string_of(after),
        },
    }
}

/// A copy of a list of texts.
pub fn copy_texts(v: &[String]) -> (r: Vec<String>)
    ensures
        text::texts(r@) == text::texts(v@),
{
    let ghost all = text::texts(v@);
    let mut r: Vec<String> = Vec::new();
    let mut i: usize = 0;
    assert(text::texts(r@) =~= all.take(0));
    while i < v.len()
        invariant
            i <= v.len(),
            all == text::texts(v@),
            text::texts(r@) == all.take(i as int),
        decreases v.len() - i,
    {
        let s = v[i].as_str().to_owned();
        proof {
            text::lemma_texts_push(r@, s);
        }
        r.push(s);
        i = i + 1;
        assert(all.take(i as int) =~= all.take(i - 1).push(all[i - 1]));
    }
    assert(all.take(i as int) =~= all);
    r
}

/// A document with every header field set that the harness already knows.
pub open spec fn stamped(
    c: Content,
    run: Seq<char>,
    node: Seq<char>,
    attempt: nat,
    model: Seq<char>,
    inputs: Seq<Seq<char>>,
    now: Seq<char>,
) -> Content {
    Content { run, node, attempt, model, created: now, inputs, authored_by_human: false, ..c }
}

/// Overwrites every header field the harness already knows.
///
/// A model cannot know the wall clock, and asking it produces a timestamp out of
/// its training data. The same argument applies to the run id, node name,
/// attempt number, model name and input list: the harness owns all of them, so
/// whatever the model wrote is discarded rather than trusted. What genuinely
/// comes from the model is the artifact type, the results block, the digest and
/// the body. `now` is the time at which the document was received.
pub fn stamp_harness_fields(
    doc: &mut Document,
    run_id: &str,
    role: &Role,
    attempt: u32,
    inputs: &[String],
    now: &str,
)
    ensures
        final(doc)@ == stamped(
            old(doc)@,
            run_id@,
            role.name@,
            attempt as nat,
            role.model@,
            text::texts(inputs@),
            now@,
        ),
        final(doc).header.results == old(doc).header.results,
{
    doc.header.run = run_id.to_owned();
    doc.header.node = role.name.to_owned();
    doc.header.attempt = attempt;
    doc.header.model = role.model.as_str().to_owned();
    doc.header.created = now.to_owned();
    doc.header.inputs = copy_texts(inputs);
    doc.header.authored_by_human = false;
}

// -------------------------------------------------------------- one node, by steps

/// The prompt of one attempt.
pub open spec fn node_prompt(
    role: Role,
    run: Seq<char>,
    task: Seq<char>,
    inputs: Seq<Seq<char>>,
    attempt: nat,
    correction: Option<Seq<char>>,
) -> Seq<char> {
    let p = role.system@ + contract_text(role.artifact, run, role.name@, attempt, role.model@, inputs)
        + "\n\nTASK\n"@ + task;
    match correction {
        Some(c) => p + "\n\nCORRECTION\n"@ + c,
        None => p,
    }
}

/// The file an attempt is written to. A repeat never overwrites.
pub open spec fn attempt_file(stem: Seq<char>, attempt: nat) -> Seq<char> {
    if attempt == 1 {
        stem + ".md"@
    } else {
        stem + ".a"@ + digits::decimal(attempt) + ".md"@
    }
}

/// A node on its way to a document: which attempt it is at, and what the model
/// is to be told about the one before.
#[derive(Debug, Clone, PartialEq, Eq)]
pub struct NodeRun {
    attempt: u32,
    correction: Option<String>,
}

/// A node that produced its document.
#[derive(Debug, Clone, PartialEq, Eq)]
pub struct NodeOutcome {
    pub document: Document,
    pub attempts_used: u32,
    /// The file in the run's directory that holds the document.
    pub path: String,
}

/// What became of a reply.
#[derive(Debug, Clone, PartialEq, Eq)]
pub enum Received {
    /// The document, to be written to its file.
    Written(NodeOutcome),
    /// What was wrong, and what is said of it; the model is asked again.
    Again(DocError, String),
    /// What was wrong, what is said of it, and why there is no further attempt.
    Failed(DocError, String, String),
}

/// What is said of a reply that is no document, where `room` tokens were asked
/// for and `truncated` is whether it took them all.
pub open spec fn refusal(e: Fault, truncated: bool, room: int) -> Seq<char> {
    if truncated {
        "the answer was cut off at "@ + digits::signed_decimal(room) + " tokens"@
    } else {
        "rejected: "@ + document::complaint(e)
    }
}

impl NodeRun {
    pub closed spec fn at(self) -> nat {
        self.attempt as nat
    }

    pub closed spec fn told(self) -> Option<Seq<char>> {
        match self.correction {
            Some(c) => Some(c@),
            None => None,
        }
    }

    /// Whether there is an attempt left to make.
    pub open spec fn is_open(self) -> bool {
        1 <= self.at() <= MAX_ATTEMPTS
    }

    pub fn start() -> (n: Self)
        ensures
            n.at() == 1,
            n.told() is None,
            n.is_open(),
    {
        NodeRun { attempt: 1, correction: None }
    }

    pub fn attempt(&self) -> (n: u32)
        ensures
            n == self.at(),
    {
        self.attempt
    }

    /// The prompt of this attempt.
    pub fn prompt(&self, role: &Role, run_id: &str, task: &str, inputs: &[String]) -> (s: String)
        ensures
            s@ == node_prompt(*role, run_id@, task@, text::texts(inputs@), self.at(), self.told()),
    {
        let mut s = role.system.to_owned();
        s.append(
            format_contract(role.artifact, run_id, role.name, self.attempt, role.model.as_str(), inputs).as_str(),
        );
        s.append("\n\nTASK\n");
        s.append(task);
        if let Some(c) = &self.correction {
            s.append("\n\nCORRECTION\n");
            s.append(c.as_str());
        }
        s
    }

    /// What is said when an attempt begins.
    pub fn announcement(&self, role: &Role) -> (s: String)
        ensures
            s@ == "attempt "@ + digits::decimal(self.at()) + " of "@ + digits::decimal(MAX_ATTEMPTS as nat) + " — "@
                + role.name@ + " on "@ + role.model@,
    {
        let mut s = "attempt ".to_owned();
        s.append(write_number(self.attempt as u128).as_str());
        s.append(" of ");
        s.append(write_number(MAX_ATTEMPTS as u128).as_str());
        s.append(" — ");
        s.append(role.name);
        s.append(" on ");
        s.append(role.model.as_str());
        s
    }

    /// Takes the model's reply to this attempt, for which `room` tokens were asked;
    /// `truncated` is whether it took them all. A reply that is no document and was
    /// cut off is answered with the room it has, not with what a parser made of
    /// half a document.
    pub fn receive<T: Tokenizer + ?Sized>(
        &mut self,
        reply: &str,
        truncated: bool,
        room: i32,
        role: &Role,
        run_id: &str,
        inputs: &[String],
        file_stem: &str,
        now: &str,
        tok: &T,
    ) -> (r: Received)
        requires
            old(self).is_open(),
        ensures
            match document::parsed(without_fence(reply@), tok) {
                Ok(c) => match r {
                    Received::Written(o) => {
                        &&& o.document@ == stamped(
                            c,
                            run_id@,
                            role.name@,
                            old(self).at(),
                            role.model@,
                            text::texts(inputs@),
                            now@,
                        )
                        &&& o.attempts_used == old(self).at()
                        &&& o.path@ == attempt_file(file_stem@, old(self).at())
                        &&& *final(self) == *old(self)
                    },
                    _ => false,
                },
                Err(e) => match r {
                    Received::Again(d, note) => {
                        &&& d@ == e
                        &&& note@ == refusal(e, truncated, room as int)
                        &&& old(self).at() < MAX_ATTEMPTS
                        &&& final(self).at() == old(self).at() + 1
                        &&& final(self).told() == Some(agent::rejection_text(e, truncated, room as int))
                    },
                    Received::Failed(d, note, why) => {
                        &&& d@ == e
                        &&& note@ == refusal(e, truncated, room as int)
                        &&& old(self).at() == MAX_ATTEMPTS
                        &&& *final(self) == *old(self)
                        &&& why@ == "node "@ + role.name@ + " failed to produce a valid document in "@
                            + digits::decimal(MAX_ATTEMPTS as nat) + " attempts — manual supply is the next step"@
                    },
                    Received::Written(_) => false,
                },
            },
    {
        let raw = strip_outer_fence(reply);
        match parse(raw.as_str(), tok) {
            Ok(d) => {
                let mut doc = d;
                stamp_harness_fields(&mut doc, run_id, role, self.attempt, inputs, now);
                let mut path = file_stem.to_owned();
                if self.attempt != 1 {
                    path.append(".a");
                    path.append(write_number(self.attempt as u128).as_str());
                }
                path.append(".md");
                Received::Written(NodeOutcome { document: doc, attempts_used: self.attempt, path })
            },
            Err(e) => {
                let note = if truncated {
                    let mut n = "the answer was cut off at ".to_owned();
                    n.append(write_signed(room).as_str());
                    n.append(" tokens");
                    n
                } else {
                    let mut n = "rejected: ".to_owned();
                    n.append(e.message().as_str());
                    n
                };
                if self.attempt == MAX_ATTEMPTS {
                    let mut why = "node ".to_owned();
                    why.append(role.name);
                    why.append(" failed to produce a valid document in ");
                    why.append(write_number(MAX_ATTEMPTS as u128).as_str());
                    why.append(" attempts — manual supply is the next step");
                    return Received::Failed(e, note, why);
                }
                self.attempt = self.attempt + 1;
                self.correction = Some(
                    if truncated {
                        shorten(room)
                    } else {
                        e.guidance()
                    },
                );
                Received::Again(e, note)
            },
        }
    }
}

/// What the harness does not own is untouched: the artifact, the results, the
/// digest and the body stay what the model wrote.
pub proof fn law_stamping_keeps_what_the_model_owns(
    c: Content,
    run: Seq<char>,
    node: Seq<char>,
    attempt: nat,
    model: Seq<char>,
    inputs: Seq<Seq<char>>,
    now: Seq<char>,
)
    ensures
        ({
            let s = stamped(c, run, node, attempt, model, inputs, now);
            s.artifact == c.artifact && s.results == c.results && s.digest == c.digest && s.body == c.body
        }),
{
}

/// A reply without a fence around it is taken as it is, but for white space around
/// it.
pub proof fn law_an_unfenced_reply_is_taken_as_it_is(s: Seq<char>)
    requires
        !text::starts_with(text::trim(s), "```"@),
    ensures
        without_fence(s) == text::trim(s),
{
}

/// A reply that is fenced as a whole is taken without its fence: without the line
/// that opens it, and without the marks that close it.
pub proof fn law_a_fence_around_a_reply_is_taken_off(s: Seq<char>, lang: Seq<char>, inner: Seq<char>)
    requires
        !lang.contains('\n'),
        text::trim(s) == "```"@ + lang + seq!['\n'] + (inner + "```"@),
    ensures
        without_fence(s) == text::trim_end(inner),
{
    reveal_strlit("```");
    let t = text::trim(s);
    let fence = "```"@;
    let head = fence + lang;
    let after = inner + fence;
    assert(t.subrange(0, 3) =~= fence);
    assert(t.take(3) =~= fence);
    assert(!head.contains('\n')) by {
        if head.contains('\n') {
            let i = choose|i: int| 0 <= i < head.len() && head[i] == '\n';
            if i >= 3 {
                assert(lang[i - 3] == '\n');
            }
        }
    }
    split::law_a_text_is_parted_at_the_first(head, '\n', after);
    assert(t =~= head + seq!['\n'] + after);
    let none = Seq::<char>::empty();
    text::lemma_occurs_within(inner, fence, none);
    assert(inner + fence + none =~= after);
    text::law_the_last_place_is_the_last(after, fence);
    let k = text::last_place(after, fence)->0;
    assert(k == inner.len());
    assert(after.take(k) =~= inner);
    assert(after.skip(k + 3) =~= none);
}

/// No two attempts of a node write the same file.
pub proof fn law_attempts_have_files_of_their_own(stem: Seq<char>, a: nat, b: nat)
    requires
        a != b,
    ensures
        attempt_file(stem, a) != attempt_file(stem, b),
{
    reveal_strlit(".md");
    reveal_strlit(".a");
    digits::lemma_decimal(a);
    digits::lemma_decimal(b);
    let da = digits::decimal(a);
    let db = digits::decimal(b);
    let x = attempt_file(stem, a);
    let y = attempt_file(stem, b);
    let k = stem.len() as int;
    if x == y {
        if a == 1 {
            assert(x[k + 1] == 'm');
            assert(y[k + 1] == 'a');
        } else if b == 1 {
            assert(y[k + 1] == 'm');
            assert(x[k + 1] == 'a');
        } else {
            assert(x.len() == k + 2 + da.len() + 3);
            assert(y.len() == k + 2 + db.len() + 3);
            assert(x.subrange(k + 2, k + 2 + da.len()) =~= da);
            assert(y.subrange(k + 2, k + 2 + db.len()) =~= db);
        }
    }
}

/// The form that a model is given names every key that its results must have.
pub proof fn law_the_form_names_every_key(
    artifact: Artifact,
    run: Seq<char>,
    node: Seq<char>,
    attempt: nat,
    model: Seq<char>,
    inputs: Seq<Seq<char>>,
    i: int,
)
    requires
        0 <= i < artifact.results_keys().len(),
    ensures
        text::occurs(
            contract_text(artifact, run, node, attempt, model, inputs),
            "  "@ + artifact.results_keys()[i] + ": <number or single word>"@,
        ),
{
    let keys = artifact.results_keys();
    let lines = keys.map_values(|k: Seq<char>| contract_line(k));
    let part = contract_results(keys);
    split::law_a_joined_text_holds_its_pieces(lines, "\n"@, i);
    assert(lines[i] == contract_line(keys[i]));
    let whole = contract_text(artifact, run, node, attempt, model, inputs);
    let tail =
        "\ndigest: |\n  <two or three sentences of substance, with key numbers, at most 400 tokens>\n---\n\n<the document body, in the structure described above>\n"@;
    let head = whole.take(whole.len() - tail.len() - part.len());
    assert(whole =~= head + part + tail);
    text::lemma_occurs_within(head, part, tail);
    text::lemma_occurs_trans(whole, part, lines[i]);
}

/// A reply that is refused is so for what is wrong with it, or for want of room where
/// it was cut off.
pub proof fn law_a_refusal_says_what_is_wrong(e: Fault, room: int)
    ensures
        text::ends_with(refusal(e, false, room), document::complaint(e)),
        text::occurs(refusal(e, true, room), digits::signed_decimal(room)),
{
    let s = refusal(e, false, room);
    let c = document::complaint(e);
    assert(s.skip(s.len() - c.len()) =~= c);
    text::lemma_occurs_within("the answer was cut off at "@, digits::signed_decimal(room), " tokens"@);
}

} // verus!
