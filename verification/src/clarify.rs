//! The clarification ladder.
//!
//! An agent that does not understand its task must not invent an answer, and
//! must not interrupt the human before it has tried. The ladder is: write the
//! unknowns down, try twice to resolve them from what is already available,
//! and only then ask — with the answers kept for every later run, so the same
//! question is not asked tomorrow.

use vstd::prelude::*;
use crate::digits;
use crate::digits::{digit, parse_number, write_number};
use crate::document::Document;
use crate::paths;
use crate::paths::FilePath;
use crate::split;
use crate::split::{join_strings, split_lines, split_once, split_once_at};
use crate::table;
use crate::text;
use crate::text::{
    begins, byte_length, chars_of, ends, mentions, is_ignoring_case, lowered, reads, string_of, stripped_start, trimmed,
};

verus! {

pub const SELF_RESOLUTION_PASSES: u32 = 2;

/// Who answers a clarification. A trait for the same reason the authority over
/// gated calls is one: the product asks in the interface, tests answer from a script.
pub trait ClarificationAuthority: Send + Sync {
    fn ask(&self, node: &str, questions: &[String]) -> (answers: Vec<String>);
}

/// How many unknowns a value declares. `none` and nothing mean zero; anything
/// unreadable counts as one, on the principle that an unreadable count is itself
/// something to ask about.
pub open spec fn declared_unknowns(value: Seq<char>) -> nat {
    let v = text::trim(value);
    if v.len() == 0 || text::same_letters(v, "none"@) || v == "0"@ {
        0
    } else {
        match digits::number(v, u32::MAX as nat) {
            Some(n) => n,
            None => 1,
        }
    }
}

/// How many unknowns the document declares.
pub fn unknown_count(doc: &Document) -> (n: u32)
    ensures
        n == match table::lookup(doc@.results, "unknowns"@) {
            Some(v) => declared_unknowns(v),
            None => 0,
        },
{
    proof {
        table::lemma_lookup_texts(doc.header.results@, "unknowns"@);
    }
    match doc.header.results.get("unknowns") {
        None => 0,
        Some(value) => {
            let chars = chars_of(value.as_str());
            let v = trimmed(chars.as_slice());
            if v.len() == 0 || is_ignoring_case(v, "none") || reads(v, "0") {
                0
            } else {
                match parse_number(v, u32::MAX as u64) {
                    Some(n) => n as u32,
                    None => 1,
                }
            }
        },
    }
}

// -------------------------------------------------------------------- questions

/// Whether the line opens the section of unknowns.
pub open spec fn opens_unknowns(line: Seq<char>) -> bool {
    text::starts_with(text::strip_start(text::lower(text::trim(line)), "#-* "@), "unknowns"@)
}

/// A question, where a text is one.
pub open spec fn question(s: Seq<char>) -> Seq<Seq<char>> {
    if s.len() > 0 && !text::same_letters(s, "none"@) {
        seq![s]
    } else {
        seq![]
    }
}

/// The question on the line that opens the section: "Unknowns: what about X?".
pub open spec fn inline_question(line: Seq<char>) -> Seq<Seq<char>> {
    match split::halves(text::trim(line), ':') {
        Some((_, rest)) => question(text::trim(rest)),
        None => seq![],
    }
}

/// Whether the line begins another section.
pub open spec fn opens_another(line: Seq<char>) -> bool {
    let t = text::trim(line);
    text::starts_with(t, "#"@) || (text::ends_with(t, ":"@) && text::byte_len(t) < 40)
}

/// The item on a line, without its bullet or number.
pub open spec fn list_item(line: Seq<char>) -> Seq<char> {
    let t = text::trim(text::strip_start(text::trim(line), "-* "@));
    match split::halves_at(t, ". "@) {
        Some((head, rest)) => if digits::all_digits(head) {
            rest
        } else {
            t
        },
        None => t,
    }
}

/// The questions in lines, of which the first may already be inside the section.
pub open spec fn questions_in(lines: Seq<Seq<char>>, inside: bool) -> Seq<Seq<char>>
    decreases lines.len(),
{
    if lines.len() == 0 {
        seq![]
    } else {
        let line = lines[0];
        let rest = lines.drop_first();
        if opens_unknowns(line) {
            inline_question(line) + questions_in(rest, true)
        } else if !inside || text::is_blank(line) {
            questions_in(rest, inside)
        } else if opens_another(line) {
            seq![]
        } else {
            question(list_item(line)) + questions_in(rest, true)
        }
    }
}

fn push_question(out: &mut Vec<String>, s: &[char])
    ensures
        text::texts(final(out)@) == text::texts(old(out)@) + question(s@),
{
    if s.len() > 0 && !is_ignoring_case(s, "none") {
        let q = string_of(s);
        proof {
            text::lemma_texts_push(out@, q);
        }
        out.push(q);
        assert(text::texts(out@) =~= text::texts(old(out)@) + question(s@));
    } else {
        assert(text::texts(out@) =~= text::texts(old(out)@) + question(s@));
    }
}

fn all_digit_chars(s: &[char]) -> (r: bool)
    ensures
        r == digits::all_digits(s@),
{
    let mut i: usize = 0;
    while i < s.len()
        invariant
            i <= s.len(),
            forall|j: int| 0 <= j < i ==> digits::is_digit(#[trigger] s@[j]),
        decreases s.len() - i,
    {
        if !digit(s[i]) {
            return false;
        }
        i = i + 1;
    }
    true
}

fn item_of<'a>(line: &'a [char]) -> (r: &'a [char])
    ensures
        r@ == list_item(line@),
{
    let t = trimmed(stripped_start(trimmed(line), "-* "));
    match split_once_at(t, ". ") {
        Some((head, rest)) => if all_digit_chars(head) {
            rest
        } else {
            t
        },
        None => t,
    }
}

/// Pulls the questions out of the body's Unknowns section.
///
/// Prose is parsed here, which the design avoids everywhere else — but the
/// count that decides whether to parse at all comes from `results`, so a
/// misread body can only ever cost a badly worded question, never a wrong
/// route.
pub fn extract_questions(body: &str) -> (out: Vec<String>)
    ensures
        text::texts(out@) == questions_in(split::lines(body@), false),
{
    let chars = chars_of(body);
    let lines = split_lines(chars.as_slice());
    let ghost p = text::pieces(lines@);
    let mut out: Vec<String> = Vec::new();
    let mut inside = false;
    let mut i: usize = 0;
    assert(p.skip(0) =~= p);
    assert(text::texts(out@) =~= seq![]);
    assert(text::texts(out@) + questions_in(p.skip(0), false) =~= questions_in(p, false));
    while i < lines.len()
        invariant
            i <= lines.len(),
            p == text::pieces(lines@),
            p == split::lines(body@),
            text::texts(out@) + questions_in(p.skip(i as int), inside) == questions_in(p, false),
        decreases lines.len() - i,
    {
        let ghost before = text::texts(out@);
        let ghost was = inside;
        assert(p.skip(i as int)[0] == lines@[i as int]@);
        assert(p.skip(i as int).drop_first() =~= p.skip(i + 1));
        let line = lines[i];
        let t = trimmed(line);
        let low = lowered(t);
        if begins(stripped_start(low.as_slice(), "#-* "), "unknowns") {
            inside = true;
            if let Some((_, rest)) = split_once(t, ':') {
                push_question(&mut out, trimmed(rest));
            }
            assert(text::texts(out@) =~= before + inline_question(line@));
            assert(text::texts(out@) + questions_in(p.skip(i + 1), true) =~= before + questions_in(
                p.skip(i as int),
                was,
            ));
        } else if inside && t.len() > 0 {
            if begins(t, "#") || (ends(t, ":") && byte_length(t) < 40) {
                assert(text::texts(out@) + seq![] =~= text::texts(out@));
                return out;
            }
            push_question(&mut out, item_of(line));
            assert(text::texts(out@) + questions_in(p.skip(i + 1), true) =~= before + questions_in(
                p.skip(i as int),
                was,
            ));
        }
        i = i + 1;
    }
    assert(p.skip(i as int) =~= seq![]);
    assert(text::texts(out@) + questions_in(p.skip(i as int), inside) =~= text::texts(out@));
    out
}

// ---------------------------------------------------------------------- prompts

/// Questions with their numbers, from one on.
pub open spec fn numbered_questions(qs: Seq<Seq<char>>) -> Seq<Seq<char>> {
    Seq::new(qs.len(), |i: int| digits::decimal((i + 1) as nat) + ". "@ + qs[i])
}

/// The instruction for a self-resolution pass, as a text.
pub open spec fn resolution_text(questions: Seq<Seq<char>>) -> Seq<char> {
    "Your previous answer left these unknowns:\n"@ + split::join(numbered_questions(questions), "\n"@)
        + "\n\nResolve as many as you can yourself, from the code and documents you were given. Most of them are answerable by reading. Rewrite your document with the resolved ones turned into requirements, and keep under Unknowns only what genuinely cannot be answered without the person who set the task. Set results.unknowns to how many are left."@
}

/// The instruction for a self-resolution pass.
pub fn self_resolution_prompt(questions: &[String]) -> (s: String)
    ensures
        s@ == resolution_text(text::texts(questions@)),
{
    let ghost all = numbered_questions(text::texts(questions@));
    let mut v: Vec<String> = Vec::new();
    let mut i: usize = 0;
    assert(text::texts(v@) =~= all.take(0));
    while i < questions.len()
        invariant
            i <= questions.len(),
            all == numbered_questions(text::texts(questions@)),
            text::texts(v@) == all.take(i as int),
        decreases questions.len() - i,
    {
        let mut line = write_number(i as u128 + 1);
        line.append(". ");
        line.append(questions[i].as_str());
        assert(line@ == all[i as int]);
        proof {
            text::lemma_texts_push(v@, line);
        }
        v.push(line);
        i = i + 1;
        assert(all.take(i as int) =~= all.take(i - 1).push(all[i - 1]));
    }
    assert(all.take(i as int) =~= all);
    let mut s = "Your previous answer left these unknowns:\n".to_owned();
    s.append(join_strings(v.as_slice(), "\n").as_str());
    s.append(
        "\n\nResolve as many as you can yourself, from the code and documents you were given. Most of them are answerable by reading. Rewrite your document with the resolved ones turned into requirements, and keep under Unknowns only what genuinely cannot be answered without the person who set the task. Set results.unknowns to how many are left.",
    );
    s
}

/// Questions and answers, as texts.
pub open spec fn qa(pairs: Seq<(String, String)>) -> Seq<(Seq<char>, Seq<char>)> {
    pairs.map_values(|p: (String, String)| (p.0@, p.1@))
}

/// A question with its answer, as the model is shown them.
pub open spec fn qa_text(p: (Seq<char>, Seq<char>)) -> Seq<char> {
    "Q: "@ + p.0 + "\nA: "@ + p.1
}

/// The instruction carrying the human's answers, as a text.
pub open spec fn answered_text(pairs: Seq<(Seq<char>, Seq<char>)>) -> Seq<char> {
    "The person who set the task has answered your questions:\n\n"@ + split::join(
        pairs.map_values(|p: (Seq<char>, Seq<char>)| qa_text(p)),
        "\n\n"@,
    ) + "\n\nRewrite your document using these answers. Set results.unknowns to 0 unless something genuinely remains."@
}

/// The instruction carrying the human's answers.
pub fn answered_prompt(pairs: &[(String, String)]) -> (s: String)
    ensures
        s@ == answered_text(qa(pairs@)),
{
    let ghost all = qa(pairs@).map_values(|p: (Seq<char>, Seq<char>)| qa_text(p));
    let mut v: Vec<String> = Vec::new();
    let mut i: usize = 0;
    assert(text::texts(v@) =~= all.take(0));
    while i < pairs.len()
        invariant
            i <= pairs.len(),
            all == qa(pairs@).map_values(|p: (Seq<char>, Seq<char>)| qa_text(p)),
            text::texts(v@) == all.take(i as int),
        decreases pairs.len() - i,
    {
        let mut line = "Q: ".to_owned();
        line.append(pairs[i].0.as_str());
        line.append("\nA: ");
        line.append(pairs[i].1.as_str());
        assert(line@ == all[i as int]);
        proof {
            text::lemma_texts_push(v@, line);
        }
        v.push(line);
        i = i + 1;
        assert(all.take(i as int) =~= all.take(i - 1).push(all[i - 1]));
    }
    assert(all.take(i as int) =~= all);
    let mut s = "The person who set the task has answered your questions:\n\n".to_owned();
    s.append(join_strings(v.as_slice(), "\n\n").as_str());
    s.append(
        "\n\nRewrite your document using these answers. Set results.unknowns to 0 unless something genuinely remains.",
    );
    s
}

// -------------------------------------------------------------------- knowledge

/// What is known with one more answer, unless its question stands there already.
pub open spec fn with_answer(known: Seq<char>, p: (Seq<char>, Seq<char>)) -> Seq<char> {
    if text::occurs(known, p.0) {
        known
    } else {
        known + "\n- **"@ + p.0 + "**\n  "@ + p.1 + "\n"@
    }
}

/// What is known with several more.
pub open spec fn with_answers(known: Seq<char>, pairs: Seq<(Seq<char>, Seq<char>)>) -> Seq<char>
    decreases pairs.len(),
{
    if pairs.len() == 0 {
        known
    } else {
        with_answer(with_answers(known, pairs.drop_last()), pairs.last())
    }
}

/// What stands at the head of what is known before anything is.
pub open spec fn knowledge_heading() -> Seq<char> {
    "# What this project's owner has already told us\n\nAnswers given at clarification gates. Every run reads this, so a question asked once is not asked again.\n"@
}

/// Where a project keeps what it knows.
pub fn knowledge_path(project: &FilePath) -> (p: FilePath)
    ensures
        p@ == paths::joined(paths::joined(project@, ".minions"@), "knowledge.md"@),
{
    project.join(".minions").join("knowledge.md")
}

/// Accumulated answers, so tomorrow's run does not ask today's questions: what
/// is to be written, or nothing where there is nothing to add. `known` is what
/// could be read of what was written before.
pub fn append_knowledge(known: Option<&str>, pairs: &[(String, String)]) -> (r: Option<String>)
    ensures
        pairs@.len() == 0 ==> r is None,
        pairs@.len() > 0 ==> r is Some && (r->0)@ == with_answers(
            match known {
                Some(t) => t@,
                None => knowledge_heading(),
            },
            qa(pairs@),
        ),
{
    if pairs.len() == 0 {
        return None;
    }
    let mut s = match known {
        Some(t) => t.to_owned(),
        None =>
            "# What this project's owner has already told us\n\nAnswers given at clarification gates. Every run reads this, so a question asked once is not asked again.\n".to_owned(),
    };
    let ghost start = s@;
    let ghost all = qa(pairs@);
    let mut i: usize = 0;
    while i < pairs.len()
        invariant
            i <= pairs.len(),
            all == qa(pairs@),
            s@ == with_answers(start, all.take(i as int)),
        decreases pairs.len() - i,
    {
        assert(all.take(i + 1).drop_last() =~= all.take(i as int));
        assert(all.take(i + 1).last() == (pairs@[i as int].0@, pairs@[i as int].1@));
        let chars = chars_of(s.as_str());
        if !mentions(chars.as_slice(), pairs[i].0.as_str()) {
            s.append("\n- **");
            s.append(pairs[i].0.as_str());
            s.append("**\n  ");
            s.append(pairs[i].1.as_str());
            s.append("\n");
        }
        i = i + 1;
    }
    assert(all.take(i as int) =~= all);
    Some(s)
}

// -------------------------------------------------------------------------- laws

proof fn lemma_occurs_in_front(a: Seq<char>, b: Seq<char>, p: Seq<char>)
    requires
        text::occurs(a, p),
    ensures
        text::occurs(a + b, p),
{
    let i = choose|i: int| text::stands_at(a, p, i);
    assert((a + b).subrange(i, i + p.len()) =~= a.subrange(i, i + p.len()));
    assert(text::stands_at(a + b, p, i));
}

proof fn lemma_with_answer(known: Seq<char>, p: (Seq<char>, Seq<char>))
    ensures
        text::occurs(with_answer(known, p), p.0),
        forall|q: Seq<char>| text::occurs(known, q) ==> #[trigger] text::occurs(with_answer(known, p), q),
{
    if !text::occurs(known, p.0) {
        let head = known + "\n- **"@;
        let tail = "**\n  "@ + p.1 + "\n"@;
        let all = with_answer(known, p);
        assert(all =~= head + p.0 + tail);
        assert(all.subrange(head.len() as int, (head.len() + p.0.len()) as int) =~= p.0);
        assert(text::stands_at(all, p.0, head.len() as int));
        assert forall|q: Seq<char>| text::occurs(known, q) implies #[trigger] text::occurs(all, q) by {
            lemma_occurs_in_front(known, "\n- **"@ + p.0 + tail, q);
            assert(all =~= known + ("\n- **"@ + p.0 + tail));
        }
    }
}

proof fn lemma_with_answers(known: Seq<char>, pairs: Seq<(Seq<char>, Seq<char>)>)
    ensures
        forall|q: Seq<char>| text::occurs(known, q) ==> #[trigger] text::occurs(with_answers(known, pairs), q),
        forall|i: int|
            0 <= i < pairs.len() ==> text::occurs(with_answers(known, pairs), (#[trigger] pairs[i]).0),
    decreases pairs.len(),
{
    if pairs.len() > 0 {
        let head = pairs.drop_last();
        lemma_with_answers(known, head);
        let k = with_answers(known, head);
        lemma_with_answer(k, pairs.last());
        assert forall|i: int| 0 <= i < pairs.len() implies text::occurs(
            with_answers(known, pairs),
            (#[trigger] pairs[i]).0,
        ) by {
            if i < head.len() {
                assert(head[i] == pairs[i]);
                assert(text::occurs(k, head[i].0));
            }
        }
    }
}

proof fn lemma_nothing_new(known: Seq<char>, pairs: Seq<(Seq<char>, Seq<char>)>)
    requires
        forall|i: int| 0 <= i < pairs.len() ==> text::occurs(known, (#[trigger] pairs[i]).0),
    ensures
        with_answers(known, pairs) == known,
    decreases pairs.len(),
{
    if pairs.len() > 0 {
        let head = pairs.drop_last();
        assert forall|i: int| 0 <= i < head.len() implies text::occurs(known, (#[trigger] head[i]).0) by {
            assert(head[i] == pairs[i]);
        }
        lemma_nothing_new(known, head);
        assert(text::occurs(known, pairs[pairs.len() - 1].0));
    }
}

/// Every question that was answered stands in what is known, and answering it
/// again adds nothing.
pub proof fn law_answers_are_kept_once(known: Seq<char>, pairs: Seq<(Seq<char>, Seq<char>)>)
    ensures
        forall|i: int|
            0 <= i < pairs.len() ==> text::occurs(with_answers(known, pairs), (#[trigger] pairs[i]).0),
        with_answers(with_answers(known, pairs), pairs) == with_answers(known, pairs),
{
    lemma_with_answers(known, pairs);
    lemma_nothing_new(with_answers(known, pairs), pairs);
}

/// A count of unknowns is read as it is written, white space around it or not.
pub proof fn law_a_declared_count_is_read(l: Seq<char>, n: nat, r: Seq<char>)
    requires
        n <= u32::MAX,
        text::all_white(l),
        text::all_white(r),
    ensures
        declared_unknowns(l + digits::decimal(n) + r) == n,
{
    let d = digits::decimal(n);
    digits::lemma_decimal(n);
    digits::lemma_number_of_decimal(n, u32::MAX as nat);
    assert(digits::is_digit(d[0]));
    assert(digits::is_digit(d[d.len() - 1]));
    text::lemma_trim_padded(l, d, r);
    reveal_strlit("none");
    reveal_strlit("0");
    if text::same_letters(d, "none"@) {
        assert(text::lower(d)[0] == text::lower("none"@)[0]);
    }
    if d == "0"@ {
        assert(digits::value("0"@) == 0) by {
            assert("0"@.drop_last() =~= seq![]);
            assert(digits::value("0"@.drop_last()) == 0);
        }
    }
}

/// `none`, in letters of either case, and nothing at all mean that there are no
/// unknowns; what cannot be read is one.
pub proof fn law_what_cannot_be_read_is_an_unknown(value: Seq<char>)
    ensures
        text::trim(value).len() == 0 || text::same_letters(text::trim(value), "none"@) ==> declared_unknowns(value)
            == 0,
        text::trim(value).len() > 0 && !text::same_letters(text::trim(value), "none"@) && digits::number(
            text::trim(value),
            u32::MAX as nat,
        ) is None ==> declared_unknowns(value) == 1,
{
    reveal_strlit("0");
    if text::trim(value) == "0"@ {
        assert(digits::all_digits("0"@));
        assert("0"@.drop_last() =~= seq![]);
        assert(digits::value("0"@.drop_last()) == 0);
        assert(digits::value("0"@) == 0);
    }
}

proof fn lemma_questions_outside(before: Seq<Seq<char>>, after: Seq<Seq<char>>)
    requires
        forall|i: int| 0 <= i < before.len() ==> !opens_unknowns(#[trigger] before[i]),
    ensures
        questions_in(before + after, false) == questions_in(after, false),
    decreases before.len(),
{
    if before.len() == 0 {
        assert(before + after =~= after);
    } else {
        let all = before + after;
        assert(all[0] == before[0]);
        assert(all.drop_first() =~= before.drop_first() + after);
        assert forall|i: int| 0 <= i < before.drop_first().len() implies !opens_unknowns(
            #[trigger] before.drop_first()[i],
        ) by {
            assert(before.drop_first()[i] == before[i + 1]);
        }
        lemma_questions_outside(before.drop_first(), after);
    }
}

/// Whether a line is an item of a list of unknowns: it opens no part of a document,
/// and what it says is something.
pub open spec fn is_item(line: Seq<char>) -> bool {
    &&& text::trim(line).len() > 0
    &&& !opens_unknowns(line)
    &&& !opens_another(line)
    &&& list_item(line).len() > 0
    &&& !text::same_letters(list_item(line), "none"@)
}

proof fn lemma_questions_inside(items: Seq<Seq<char>>, after: Seq<Seq<char>>)
    requires
        forall|i: int| 0 <= i < items.len() ==> is_item(#[trigger] items[i]),
        after.len() == 0 || (opens_another(after[0]) && !opens_unknowns(after[0]) && text::trim(after[0]).len() > 0),
    ensures
        questions_in(items + after, true) == items.map_values(|l: Seq<char>| list_item(l)),
    decreases items.len(),
{
    let all = items + after;
    if items.len() == 0 {
        assert(all =~= after);
        assert(items.map_values(|l: Seq<char>| list_item(l)) =~= seq![]);
        assert(questions_in(after, true) =~= seq![]);
    } else {
        assert(is_item(items[0]));
        assert(all[0] == items[0]);
        assert(all.drop_first() =~= items.drop_first() + after);
        assert forall|i: int| 0 <= i < items.drop_first().len() implies is_item(#[trigger] items.drop_first()[i]) by {
            assert(items.drop_first()[i] == items[i + 1]);
        }
        lemma_questions_inside(items.drop_first(), after);
        assert(questions_in(all, true) =~= items.map_values(|l: Seq<char>| list_item(l)));
    }
}

/// The questions of a document are the items of its list of unknowns, each of them
/// and in their order: what stands before the list is none, and the list ends where
/// another part begins or the document does.
pub proof fn law_the_questions_are_the_items(
    before: Seq<Seq<char>>,
    heading: Seq<char>,
    items: Seq<Seq<char>>,
    after: Seq<Seq<char>>,
)
    requires
        forall|i: int| 0 <= i < before.len() ==> !opens_unknowns(#[trigger] before[i]),
        opens_unknowns(heading),
        !text::trim(heading).contains(':'),
        forall|i: int| 0 <= i < items.len() ==> is_item(#[trigger] items[i]),
        after.len() == 0 || (opens_another(after[0]) && !opens_unknowns(after[0]) && text::trim(after[0]).len() > 0),
    ensures
        questions_in(before + (seq![heading] + (items + after)), false) == items.map_values(
            |l: Seq<char>| list_item(l),
        ),
{
    let part = seq![heading] + (items + after);
    lemma_questions_outside(before, part);
    assert(part[0] == heading);
    assert(part.drop_first() =~= items + after);
    lemma_questions_inside(items, after);
    let t = text::trim(heading);
    text::lemma_first_of(t, ':');
    if text::first_of(t, ':') < t.len() {
        assert(t.contains(':'));
    }
    assert(inline_question(heading) =~= seq![]);
    assert(questions_in(part, false) =~= items.map_values(|l: Seq<char>| list_item(l)));
}

/// A question that stands on the line of the heading is one too.
pub proof fn law_a_question_on_the_heading_counts(label: Seq<char>, q: Seq<char>, heading: Seq<char>)
    requires
        text::trim(heading) == label + seq![':'] + q,
        !label.contains(':'),
        opens_unknowns(heading),
        text::trim(q).len() > 0,
        !text::same_letters(text::trim(q), "none"@),
    ensures
        questions_in(seq![heading], false) == seq![text::trim(q)],
{
    split::law_a_text_is_parted_at_the_first(label, ':', q);
    let lines = seq![heading];
    assert(lines.drop_first() =~= seq![]);
    assert(questions_in(lines.drop_first(), true) =~= seq![]);
    assert(questions_in(lines, false) =~= seq![text::trim(q)]);
}

proof fn lemma_strip_mark(mark: char, q: Seq<char>)
    requires
        mark == '-' || mark == '*',
        q.len() > 0,
        q[0] != '-',
        q[0] != '*',
        q[0] != ' ',
    ensures
        text::strip_start(seq![mark, ' '] + q, "-* "@) == q,
{
    reveal_strlit("-* ");
    let set = "-* "@;
    let s = seq![mark, ' '] + q;
    assert(set[0] == '-' && set[1] == '*' && set[2] == ' ');
    assert(set.contains(mark)) by {
        if mark == '-' {
            assert(set[0] == mark);
        } else {
            assert(set[1] == mark);
        }
    }
    assert(set.contains(' '));
    assert(s[0] == mark);
    assert(s.drop_first()[0] == ' ');
    assert(s.drop_first().drop_first() =~= q);
    assert(!set.contains(q[0])) by {
        if set.contains(q[0]) {
            let i = choose|i: int| 0 <= i < set.len() && set[i] == q[0];
            assert(i == 0 || i == 1 || i == 2);
        }
    }
    assert(text::strip_start(q, set) == q);
    assert(text::strip_start(s.drop_first(), set) == text::strip_start(q, set));
}

/// An item is read without the mark before it.
pub proof fn law_an_item_is_read_without_its_mark(line: Seq<char>, mark: char, q: Seq<char>)
    requires
        mark == '-' || mark == '*',
        text::trim(line) == seq![mark, ' '] + q,
        text::trim(q) == q,
        q.len() > 0,
        q[0] != '-',
        q[0] != '*',
        !text::occurs(q, ". "@),
    ensures
        list_item(line) == q,
{
    text::lemma_trim(q);
    lemma_strip_mark(mark, q);
    text::lemma_first_place(q, ". "@);
}

/// An item that carries a number is read without it.
pub proof fn law_an_item_is_read_without_its_number(line: Seq<char>, n: nat, q: Seq<char>)
    requires
        text::trim(line) == digits::decimal(n) + ". "@ + q,
        text::trim(q) == q,
        q.len() > 0,
    ensures
        list_item(line) == q,
{
    reveal_strlit("-* ");
    reveal_strlit(". ");
    let d = digits::decimal(n);
    digits::lemma_decimal(n);
    let t = d + ". "@ + q;
    let set = "-* "@;
    assert(digits::is_digit(d[0]));
    assert(t[0] == d[0]);
    assert(!set.contains(t[0])) by {
        if set.contains(t[0]) {
            let i = choose|i: int| 0 <= i < set.len() && set[i] == t[0];
            assert(i == 0 || i == 1 || i == 2);
        }
    }
    assert(text::strip_start(t, set) == t);
    text::lemma_trim(line);
    text::lemma_trim_fixed(t);
    text::lemma_first_place(t, ". "@);
    text::lemma_occurs_within(d, ". "@, q);
    let k = text::first_place(t, ". "@)->0;
    assert(text::stands_at(t, ". "@, d.len() as int));
    if k < d.len() {
        assert(t.subrange(k, k + 2)[0] == '.');
        assert(t[k] == d[k]);
        assert(digits::is_digit(d[k]));
    }
    assert(k == d.len());
    assert(t.take(k) =~= d);
    assert(t.skip(k + 2) =~= q);
}

/// What a model is asked to resolve are all of its questions, and what it is told
/// are all of the answers, each with its question.
pub proof fn law_nothing_asked_or_answered_is_left_out(
    questions: Seq<Seq<char>>,
    pairs: Seq<(Seq<char>, Seq<char>)>,
    i: int,
)
    ensures
        0 <= i < questions.len() ==> text::occurs(
            resolution_text(questions),
            digits::decimal((i + 1) as nat) + ". "@ + questions[i],
        ),
        0 <= i < pairs.len() ==> text::occurs(answered_text(pairs), "Q: "@ + pairs[i].0 + "\nA: "@ + pairs[i].1),
{
    let numbered = numbered_questions(questions);
    let told = pairs.map_values(|p: (Seq<char>, Seq<char>)| qa_text(p));
    if 0 <= i < questions.len() {
        let all = split::join(numbered, "\n"@);
        split::law_a_joined_text_holds_its_pieces(numbered, "\n"@, i);
        text::lemma_occurs_within(
            "Your previous answer left these unknowns:\n"@,
            all,
            "\n\nResolve as many as you can yourself, from the code and documents you were given. Most of them are answerable by reading. Rewrite your document with the resolved ones turned into requirements, and keep under Unknowns only what genuinely cannot be answered without the person who set the task. Set results.unknowns to how many are left."@,
        );
        text::lemma_occurs_trans(resolution_text(questions), all, numbered[i]);
    }
    if 0 <= i < pairs.len() {
        let all = split::join(told, "\n\n"@);
        split::law_a_joined_text_holds_its_pieces(told, "\n\n"@, i);
        text::lemma_occurs_within(
            "The person who set the task has answered your questions:\n\n"@,
            all,
            "\n\nRewrite your document using these answers. Set results.unknowns to 0 unless something genuinely remains."@,
        );
        assert(told[i] == "Q: "@ + pairs[i].0 + "\nA: "@ + pairs[i].1);
        text::lemma_occurs_trans(answered_text(pairs), all, told[i]);
    }
}

/// What is known stays, and an answer to a question that was not there is added
/// with it.
pub proof fn law_what_is_known_only_grows(known: Seq<char>, p: (Seq<char>, Seq<char>))
    ensures
        with_answer(known, p).take(known.len() as int) == known,
        !text::occurs(known, p.0) ==> text::occurs(with_answer(known, p), p.0) && text::occurs(
            with_answer(known, p),
            p.1,
        ),
{
    let after = with_answer(known, p);
    assert(after.take(known.len() as int) =~= known);
    if !text::occurs(known, p.0) {
        text::lemma_occurs_within(known + "\n- **"@, p.0, "**\n  "@ + p.1 + "\n"@);
        assert(known + "\n- **"@ + p.0 + ("**\n  "@ + p.1 + "\n"@) =~= after);
        text::lemma_occurs_within(known + "\n- **"@ + p.0 + "**\n  "@, p.1, "\n"@);
        assert(known + "\n- **"@ + p.0 + "**\n  "@ + p.1 + "\n"@ =~= after);
    }
}

/// A heading begins another part, and so does a short line that ends with a colon; a
/// long one does not, nor does a line with neither.
pub proof fn law_another_part_begins_with_its_heading(t: Seq<char>)
    requires
        t.len() > 0,
        text::is_trimmed(t),
    ensures
        t[0] == '#' ==> opens_another(t),
        t.last() == ':' && text::byte_len(t) < 40 ==> opens_another(t),
        t[0] != '#' && t.last() != ':' ==> !opens_another(t),
        t[0] != '#' && text::byte_len(t) >= 40 ==> !opens_another(t),
{
    text::lemma_trim_fixed(t);
    reveal_strlit("#");
    reveal_strlit(":");
    if t[0] == '#' {
        assert(t.take(1) =~= "#"@);
    } else if text::starts_with(t, "#"@) {
        assert(t.take(1)[0] == "#"@[0]);
    }
    if t.last() == ':' {
        assert(t.skip(t.len() - 1) =~= ":"@);
    } else if text::ends_with(t, ":"@) {
        assert(t.skip(t.len() - 1)[0] == ":"@[0]);
    }
}

} // verus!
