//! The clarification ladder: two self-resolution passes, then the human — and
//! never the other way round. Most unknowns dissolve on reading, and
//! interrupting first spends the one resource the product cannot replace.

use vstd::prelude::*;
use crate::clarify;
use crate::clarify::{
    answered_prompt, extract_questions, self_resolution_prompt, unknown_count, SELF_RESOLUTION_PASSES,
};
use crate::digits;
use crate::digits::{write_number, write_signed};
use crate::document;
use crate::document::{parse, render, Content, Document};
use crate::node;
use crate::node::strip_outer_fence;
use crate::outputs;
use crate::outputs::stamp;
use crate::split;
use crate::table;
use crate::text;
use crate::text::{chars_of, trimmed};
use crate::tokens::Tokenizer;

verus! {

/// How many self-resolution passes a node has behind it.
#[derive(Debug, Clone, Copy, PartialEq, Eq, Structural)]
pub struct Ladder {
    pub passes: u32,
}

/// What is done next about the unknowns of a document.
#[derive(Debug, Clone, PartialEq, Eq)]
pub enum Rung {
    /// Nothing more.
    Stop { note: Option<String> },
    /// The role goes over its document again.
    Rerun { note: String, instruction: String },
    /// The human is asked.
    Ask { note: String, questions: Vec<String> },
}

/// What is done next, as texts.
pub enum Move {
    Stop { note: Option<Seq<char>> },
    Rerun { note: Seq<char>, instruction: Seq<char> },
    Ask { note: Seq<char>, questions: Seq<Seq<char>> },
}

impl View for Rung {
    type V = Move;

    open spec fn view(&self) -> Move {
        match self {
            Rung::Stop { note } => Move::Stop { note: crate::json::said(*note) },
            Rung::Rerun { note, instruction } => Move::Rerun { note: note@, instruction: instruction@ },
            Rung::Ask { note, questions } => Move::Ask { note: note@, questions: text::texts(questions@) },
        }
    }
}

/// How many unknowns a document declares.
pub open spec fn unknowns_in(c: Content) -> nat {
    match table::lookup(c.results, "unknowns"@) {
        Some(v) => clarify::declared_unknowns(v),
        None => 0,
    }
}

/// The questions that a document leaves open.
pub open spec fn questions_of(c: Content) -> Seq<Seq<char>> {
    clarify::questions_in(split::lines(c.body), false)
}

/// What is done next about a document, after so many passes.
pub open spec fn climbed(passes: nat, id: Seq<char>, file: Seq<char>, c: Content, can_ask: bool) -> (nat, Move) {
    let left = unknowns_in(c);
    let questions = questions_of(c);
    if left == 0 || questions.len() == 0 {
        (passes, Move::Stop { note: None })
    } else if passes < SELF_RESOLUTION_PASSES {
        (
            passes + 1,
            Move::Rerun {
                note: id + ": "@ + digits::decimal(left) + " unknown(s) — self-resolution pass "@ + digits::decimal(
                    passes + 1,
                ) + " of "@ + digits::decimal(SELF_RESOLUTION_PASSES as nat),
                instruction: clarify::resolution_text(questions),
            },
        )
    } else if !can_ask {
        (
            passes,
            Move::Stop {
                note: Some(
                    id + ": "@ + digits::decimal(left)
                        + " unknown(s) remain and nobody can be asked — they stay recorded in "@ + file,
                ),
            },
        )
    } else {
        (
            passes,
            Move::Ask {
                note: id + ": asking the human "@ + digits::decimal(questions.len()) + " question(s)"@,
                questions,
            },
        )
    }
}

impl Ladder {
    pub fn new() -> (l: Self)
        ensures
            l.passes == 0,
    {
        Ladder { passes: 0 }
    }

    /// What is done next about the document of a node.
    pub fn climb(&mut self, id: &str, file: &str, doc: &Document, can_ask: bool) -> (r: Rung)
        ensures
            (final(self).passes as nat, r@) == climbed(old(self).passes as nat, id@, file@, doc@, can_ask),
    {
        let left: u32 = unknown_count(doc);
        if left == 0 {
            return Rung::Stop { note: None };
        }
        let questions = extract_questions(doc.body.as_str());
        assert(text::texts(questions@).len() == questions@.len());
        if questions.len() == 0 {
            return Rung::Stop { note: None };
        }
        let mut note = id.to_owned();
        if self.passes < SELF_RESOLUTION_PASSES {
            self.passes = self.passes + 1;
            note.append(": ");
            note.append(write_number(left as u128).as_str());
            note.append(" unknown(s) — self-resolution pass ");
            note.append(write_number(self.passes as u128).as_str());
            note.append(" of ");
            note.append(write_number(SELF_RESOLUTION_PASSES as u128).as_str());
            let instruction = self_resolution_prompt(questions.as_slice());
            return Rung::Rerun { note, instruction };
        }
        if !can_ask {
            note.append(": ");
            note.append(write_number(left as u128).as_str());
            note.append(" unknown(s) remain and nobody can be asked — they stay recorded in ");
            note.append(file);
            return Rung::Stop { note: Some(note) };
        }
        note.append(": asking the human ");
        note.append(write_number(questions.len() as u128).as_str());
        note.append(" question(s)");
        Rung::Ask { note, questions }
    }
}

// -------------------------------------------------------------------------- answers

/// The questions with the answers that are not blank. An answer belongs to the
/// question in its place; what has no partner is left out.
pub open spec fn paired(questions: Seq<Seq<char>>, answers: Seq<Seq<char>>, n: nat) -> Seq<(Seq<char>, Seq<char>)>
    decreases n,
{
    if n == 0 {
        seq![]
    } else {
        let before = paired(questions, answers, (n - 1) as nat);
        if text::is_blank(answers[n - 1]) {
            before
        } else {
            before.push((questions[n - 1], answers[n - 1]))
        }
    }
}

/// How many questions have an answer in their place.
pub open spec fn shared(questions: Seq<Seq<char>>, answers: Seq<Seq<char>>) -> nat {
    if answers.len() < questions.len() {
        answers.len()
    } else {
        questions.len()
    }
}

/// Puts questions and answers together.
pub fn pair_up(questions: &[String], answers: &[String]) -> (v: Vec<(String, String)>)
    ensures
        clarify::qa(v@) == paired(
            text::texts(questions@),
            text::texts(answers@),
            shared(text::texts(questions@), text::texts(answers@)),
        ),
{
    let ghost qs = text::texts(questions@);
    let ghost ans = text::texts(answers@);
    let mut v: Vec<(String, String)> = Vec::new();
    let mut i: usize = 0;
    assert(clarify::qa(v@) =~= paired(qs, ans, 0));
    while i < questions.len() && i < answers.len()
        invariant
            i <= questions.len(),
            i <= answers.len(),
            qs == text::texts(questions@),
            ans == text::texts(answers@),
            clarify::qa(v@) == paired(qs, ans, i as nat),
        decreases questions.len() - i,
    {
        assert(qs[i as int] == questions@[i as int]@);
        assert(ans[i as int] == answers@[i as int]@);
        let chars = chars_of(answers[i].as_str());
        if trimmed(chars.as_slice()).len() > 0 {
            let ghost before = v@;
            v.push((questions[i].as_str().to_owned(), answers[i].as_str().to_owned()));
            assert(clarify::qa(v@) =~= clarify::qa(before).push((qs[i as int], ans[i as int])));
        }
        i = i + 1;
    }
    v
}

/// What is done with the answers.
#[derive(Debug, Clone, PartialEq, Eq)]
pub enum Settled {
    Unanswered { note: String },
    /// The role goes over its document again. The answers are kept for later runs
    /// where there is a project to keep them in.
    Answered { note: Option<String>, instruction: String },
}

/// What is done with the answers, as texts.
pub enum Ruled {
    Unanswered { note: Seq<char> },
    Answered { note: Option<Seq<char>>, instruction: Seq<char> },
}

impl View for Settled {
    type V = Ruled;

    open spec fn view(&self) -> Ruled {
        match self {
            Settled::Unanswered { note } => Ruled::Unanswered { note: note@ },
            Settled::Answered { note, instruction } => Ruled::Answered {
                note: crate::json::said(*note),
                instruction: instruction@,
            },
        }
    }
}

/// What is done with the answers, where `kept` is whether they are kept.
pub open spec fn settled(id: Seq<char>, pairs: Seq<(Seq<char>, Seq<char>)>, kept: bool) -> Ruled {
    if pairs.len() == 0 {
        Ruled::Unanswered { note: id + ": no answers given, the unknowns stay recorded"@ }
    } else {
        Ruled::Answered {
            note: if kept {
                Some(id + ": "@ + digits::decimal(pairs.len()) + " answer(s) kept for later runs"@)
            } else {
                None
            },
            instruction: clarify::answered_text(pairs),
        }
    }
}

/// Decides what is done with the answers.
pub fn settle(id: &str, pairs: &[(String, String)], kept: bool) -> (r: Settled)
    ensures
        r@ == settled(id@, clarify::qa(pairs@), kept),
{
    assert(clarify::qa(pairs@).len() == pairs@.len());
    if pairs.len() == 0 {
        let mut note = id.to_owned();
        note.append(": no answers given, the unknowns stay recorded");
        return Settled::Unanswered { note };
    }
    let note = if kept {
        let mut note = id.to_owned();
        note.append(": ");
        note.append(write_number(pairs.len() as u128).as_str());
        note.append(" answer(s) kept for later runs");
        Some(note)
    } else {
        None
    };
    Settled::Answered { note, instruction: answered_prompt(pairs) }
}

// -------------------------------------------------------------------------- rewriting

/// The procedure of a role as it is shown, where it has one.
pub open spec fn procedure_part(procedure: Option<Seq<char>>) -> Seq<char> {
    match procedure {
        Some(p) => "\n\nHOW TO DO THIS WELL\n"@ + p,
        None => ""@,
    }
}

/// Shows the procedure of a role. Nothing is shown of one that cannot be read.
pub fn show_procedure(procedure: &Option<String>) -> (s: String)
    ensures
        s@ == procedure_part(crate::json::said(*procedure)),
{
    match procedure {
        Some(p) => {
            let mut s = "\n\nHOW TO DO THIS WELL\n".to_owned();
            s.append(p.as_str());
            s
        },
        None => "".to_owned(),
    }
}

/// The prompt that has a role go over its document again.
pub fn rerun_prompt(context: &str, procedure: &str, instruction: &str) -> (s: String)
    ensures
        s@ == context@ + "\n\n"@ + procedure@ + "\n\n"@ + instruction@,
{
    let mut s = context.to_owned();
    s.append("\n\n");
    s.append(procedure);
    s.append("\n\n");
    s.append(instruction);
    s
}

/// The text that replaces a document, or what is noted where the one there is
/// kept.
pub open spec fn rewritten<T: Tokenizer + ?Sized>(
    id: Seq<char>,
    run_id: Seq<char>,
    model: Seq<char>,
    reply: Seq<char>,
    truncated: bool,
    room: int,
    now: Seq<char>,
    tok: &T,
) -> Result<Seq<char>, Seq<char>> {
    match document::parsed(node::without_fence(reply), tok) {
        Ok(c) => Ok(document::rendered(outputs::marked(c, run_id, id, 1, model, now))),
        Err(e) => if truncated {
            Err(
                id + ": the rewrite was cut off at "@ + digits::signed_decimal(room)
                    + " tokens, keeping the previous document"@,
            )
        } else {
            Err(
                id + ": the rewrite was malformed ("@ + document::complaint(e)
                    + "), keeping the previous document"@,
            )
        },
    }
}

/// Takes the reply of a role that went over its document again. The document
/// already on disk is valid; a malformed rewrite is discarded rather than allowed
/// to replace it.
pub fn rewrite<T: Tokenizer + ?Sized>(
    id: &str,
    run_id: &str,
    model: &str,
    reply: &str,
    truncated: bool,
    room: i32,
    now: &str,
    tok: &T,
) -> (r: Result<String, String>)
    ensures
        match r {
            Ok(s) => rewritten(id@, run_id@, model@, reply@, truncated, room as int, now@, tok) == Ok::<
                Seq<char>,
                Seq<char>,
            >(s@),
            Err(s) => rewritten(id@, run_id@, model@, reply@, truncated, room as int, now@, tok) == Err::<
                Seq<char>,
                Seq<char>,
            >(s@),
        },
{
    let raw = strip_outer_fence(reply);
    match parse(raw.as_str(), tok) {
        Ok(d) => {
            let mut doc = d;
            stamp(&mut doc, run_id, id, 1, model, now);
            Ok(render(&doc))
        },
        Err(e) => {
            let mut note = id.to_owned();
            if truncated {
                note.append(": the rewrite was cut off at ");
                note.append(write_signed(room).as_str());
                note.append(" tokens, keeping the previous document");
            } else {
                note.append(": the rewrite was malformed (");
                note.append(e.message().as_str());
                note.append("), keeping the previous document");
            }
            Err(note)
        },
    }
}

// ------------------------------------------------------------------------------ laws

/// The human is asked only after both passes, and only about what is left open:
/// never while the document declares no unknowns, or names no questions.
pub proof fn law_the_human_is_asked_last(
    passes: nat,
    id: Seq<char>,
    file: Seq<char>,
    c: Content,
    can_ask: bool,
)
    ensures
        climbed(passes, id, file, c, can_ask).1 is Ask ==> passes >= SELF_RESOLUTION_PASSES && can_ask
            && unknowns_in(c) > 0 && questions_of(c).len() > 0,
        climbed(passes, id, file, c, can_ask).1 is Rerun ==> climbed(passes, id, file, c, can_ask).0 == passes + 1
            && passes < SELF_RESOLUTION_PASSES,
{
}

/// A blank answer is no answer: every answer that is kept says something, and
/// belongs to a question that was asked.
pub proof fn law_only_given_answers_count(questions: Seq<Seq<char>>, answers: Seq<Seq<char>>, n: nat, i: int)
    requires
        n <= questions.len(),
        n <= answers.len(),
        0 <= i < paired(questions, answers, n).len(),
    ensures
        !text::is_blank(paired(questions, answers, n)[i].1),
        questions.contains(paired(questions, answers, n)[i].0),
        answers.contains(paired(questions, answers, n)[i].1),
    decreases n,
{
    let before = paired(questions, answers, (n - 1) as nat);
    if i < before.len() {
        law_only_given_answers_count(questions, answers, (n - 1) as nat, i);
    } else {
        assert(questions[n - 1] == paired(questions, answers, n)[i].0);
        assert(answers[n - 1] == paired(questions, answers, n)[i].1);
    }
}

/// What is done about unknowns: nothing where the document declares none or names
/// no question; otherwise it is rewritten twice, then the human is asked where that
/// can be done, about all that the document names, and else they stay recorded.
pub proof fn law_the_ladder_is_climbed_rung_by_rung(
    passes: nat,
    id: Seq<char>,
    file: Seq<char>,
    c: Content,
    can_ask: bool,
)
    ensures
        ({
            let (after, step) = climbed(passes, id, file, c, can_ask);
            let open = unknowns_in(c) > 0 && questions_of(c).len() > 0;
            &&& step is Rerun <==> open && passes < 2
            &&& step is Ask <==> open && passes >= 2 && can_ask
            &&& step is Stop <==> !open || (passes >= 2 && !can_ask)
            &&& step matches Move::Ask { questions, .. } ==> questions == questions_of(c)
            &&& step matches Move::Rerun { instruction, .. } ==> instruction == clarify::resolution_text(
                questions_of(c),
            )
            &&& step matches Move::Stop { note } ==> (note is Some <==> open)
            &&& after == if step is Rerun {
                passes + 1
            } else {
                passes
            }
        }),
{
}

/// The unknowns are those that the document declares in its results, and none where
/// it declares none.
pub proof fn law_unknowns_are_those_declared(c: Content)
    ensures
        forall|i: int|
            #![trigger c.results[i]]
            0 <= i < c.results.len() && c.results[i].0 == "unknowns"@ && (forall|j: int|
                0 <= j < i ==> (#[trigger] c.results[j]).0 != "unknowns"@) ==> unknowns_in(c)
                == clarify::declared_unknowns(c.results[i].1),
        (forall|j: int| 0 <= j < c.results.len() ==> (#[trigger] c.results[j]).0 != "unknowns"@) ==> unknowns_in(c)
            == 0,
{
    assert forall|i: int|
        #![trigger c.results[i]]
        0 <= i < c.results.len() && c.results[i].0 == "unknowns"@ && (forall|j: int|
            0 <= j < i ==> (#[trigger] c.results[j]).0 != "unknowns"@) implies unknowns_in(c)
        == clarify::declared_unknowns(c.results[i].1) by {
        table::law_the_first_entry_is_found(c.results, "unknowns"@, i);
    }
    if forall|j: int| 0 <= j < c.results.len() ==> (#[trigger] c.results[j]).0 != "unknowns"@ {
        table::law_what_is_not_there_is_not_found(c.results, "unknowns"@);
    }
}

/// Every answer that says something is kept, with the question in the same place.
pub proof fn law_an_answer_goes_with_its_question(
    questions: Seq<Seq<char>>,
    answers: Seq<Seq<char>>,
    n: nat,
    j: int,
) -> (i: int)
    requires
        0 <= j < n,
        !text::is_blank(answers[j]),
    ensures
        0 <= i < paired(questions, answers, n).len(),
        paired(questions, answers, n)[i] == (questions[j], answers[j]),
    decreases n,
{
    if j == n - 1 {
        paired(questions, answers, n).len() - 1
    } else {
        law_an_answer_goes_with_its_question(questions, answers, (n - 1) as nat, j)
    }
}

/// What is kept is an answer with its own question, and they come in the order in
/// which they were asked.
pub proof fn law_answers_stay_in_order(
    questions: Seq<Seq<char>>,
    answers: Seq<Seq<char>>,
    n: nat,
    a: int,
    b: int,
) -> (at: (int, int))
    requires
        0 <= a < b < paired(questions, answers, n).len(),
    ensures
        0 <= at.0 < at.1 < n,
        paired(questions, answers, n)[a] == (questions[at.0], answers[at.0]),
        paired(questions, answers, n)[b] == (questions[at.1], answers[at.1]),
    decreases n,
{
    let before = paired(questions, answers, (n - 1) as nat);
    if b < before.len() {
        law_answers_stay_in_order(questions, answers, (n - 1) as nat, a, b)
    } else {
        let i = lemma_paired(questions, answers, (n - 1) as nat, a);
        (i, n - 1)
    }
}

proof fn lemma_paired(questions: Seq<Seq<char>>, answers: Seq<Seq<char>>, n: nat, a: int) -> (j: int)
    requires
        0 <= a < paired(questions, answers, n).len(),
    ensures
        0 <= j < n,
        !text::is_blank(answers[j]),
        paired(questions, answers, n)[a] == (questions[j], answers[j]),
    decreases n,
{
    let before = paired(questions, answers, (n - 1) as nat);
    if a < before.len() {
        lemma_paired(questions, answers, (n - 1) as nat, a)
    } else {
        n - 1
    }
}

/// The human's answers lead to a rewrite exactly where there is one among them.
pub proof fn law_answers_lead_to_a_rewrite(id: Seq<char>, pairs: Seq<(Seq<char>, Seq<char>)>, kept: bool)
    ensures
        settled(id, pairs, kept) is Answered <==> pairs.len() > 0,
        settled(id, pairs, kept) matches Ruled::Answered { instruction, .. } ==> instruction == clarify::answered_text(
            pairs,
        ),
{
}

/// A rewrite takes the place of the document exactly where it is one itself, and is
/// marked as the harness marks any other.
pub proof fn law_a_rewrite_replaces_only_where_it_is_sound<T: Tokenizer + ?Sized>(
    id: Seq<char>,
    run_id: Seq<char>,
    model: Seq<char>,
    reply: Seq<char>,
    truncated: bool,
    room: int,
    now: Seq<char>,
    tok: &T,
)
    ensures
        rewritten(id, run_id, model, reply, truncated, room, now, tok) is Ok <==> document::parsed(
            node::without_fence(reply),
            tok,
        ) is Ok,
        document::parsed(node::without_fence(reply), tok) matches Ok(c) ==> exists|d: Content|
            {
                &&& rewritten(id, run_id, model, reply, truncated, room, now, tok)->Ok_0 == #[trigger] document::rendered(
                    d,
                )
                &&& d.artifact == c.artifact && d.results == c.results && d.digest == c.digest && d.body == c.body
                &&& d.run == run_id && d.node == id && d.model == model && d.created == now
            },
{
    if let Ok(c) = document::parsed(node::without_fence(reply), tok) {
        let d = outputs::marked(c, run_id, id, 1, model, now);
        assert(rewritten(id, run_id, model, reply, truncated, room, now, tok)->Ok_0 == document::rendered(d));
    }
}

/// A rewrite that does not replace says what was wrong with it, and that the document
/// stays.
pub proof fn law_a_rewrite_that_is_dropped_says_why<T: Tokenizer + ?Sized>(
    id: Seq<char>,
    run_id: Seq<char>,
    model: Seq<char>,
    reply: Seq<char>,
    room: int,
    now: Seq<char>,
    tok: &T,
)
    ensures
        document::parsed(node::without_fence(reply), tok) matches Err(e) ==> {
            &&& rewritten(id, run_id, model, reply, false, room, now, tok) matches Err(why) && text::occurs(
                why,
                document::complaint(e),
            )
            &&& rewritten(id, run_id, model, reply, true, room, now, tok) matches Err(why) && text::occurs(
                why,
                digits::signed_decimal(room),
            )
        },
{
    if let Err(e) = document::parsed(node::without_fence(reply), tok) {
        text::lemma_occurs_within(
            id + ": the rewrite was malformed ("@,
            document::complaint(e),
            "), keeping the previous document"@,
        );
        text::lemma_occurs_within(
            id + ": the rewrite was cut off at "@,
            digits::signed_decimal(room),
            " tokens, keeping the previous document"@,
        );
    }
}

} // verus!
