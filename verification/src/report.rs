//! The final report, assembled by the harness from digests.
//!
//! No model is involved. Nothing can distort earlier conclusions on the last
//! step, it costs neither memory nor tokens, and it is instant.

use vstd::prelude::*;
use crate::digits;
use crate::digits::write_number;
use crate::document;
use crate::document::parse;
use crate::run::{NodeState, RunState, TestBaseline};
use crate::split;
use crate::split::join_strings;
use crate::table;
use crate::table::Table;
use crate::text;
use crate::text::{chars_of, string_of, trimmed};
use crate::tokens::Tokenizer;

verus! {

/// The results block in one line.
pub open spec fn results_line(results: Seq<(Seq<char>, Seq<char>)>) -> Seq<char> {
    split::join(results.map_values(|e: (Seq<char>, Seq<char>)| e.0 + ": "@ + e.1), " · "@)
}

/// What a report says of one document.
pub open spec fn section<T: Tokenizer + ?Sized>(
    node: Seq<char>,
    file: Seq<char>,
    text: Seq<char>,
    tok: &T,
) -> Seq<char> {
    let head = "### "@ + node + " — `"@ + file + "`\n\n"@;
    match document::parsed(text, tok) {
        Ok(c) => {
            let told = head + text::trim(c.digest) + "\n\n"@;
            if c.results.len() == 0 {
                told
            } else {
                told + "`"@ + results_line(c.results) + "`\n\n"@
            }
        },
        Err(e) => head + "Unreadable: "@ + document::complaint(e) + "\n\n"@,
    }
}

/// What a report says of the first `n` documents.
pub open spec fn sections<T: Tokenizer + ?Sized>(
    documents: Seq<(Seq<char>, Seq<char>)>,
    texts: Seq<Seq<char>>,
    tok: &T,
    n: nat,
) -> Seq<char>
    decreases n,
{
    if n == 0 {
        seq![]
    } else {
        sections(documents, texts, tok, (n - 1) as nat) + section(
            documents[n - 1].0,
            documents[n - 1].1,
            texts[n - 1],
            tok,
        )
    }
}

/// The names of the nodes that are in a state.
pub open spec fn names_in(states: Seq<(Seq<char>, NodeState)>, state: NodeState) -> Seq<Seq<char>>
    decreases states.len(),
{
    if states.len() == 0 {
        seq![]
    } else if states.last().1 == state {
        names_in(states.drop_last(), state).push(states.last().0)
    } else {
        names_in(states.drop_last(), state)
    }
}

/// How many nodes took more than one attempt.
pub open spec fn repeated(attempts: Seq<(Seq<char>, u32)>) -> nat
    decreases attempts.len(),
{
    if attempts.len() == 0 {
        0
    } else {
        repeated(attempts.drop_last()) + if attempts.last().1 > 1 {
            1nat
        } else {
            0
        }
    }
}

/// How many tests passed.
pub open spec fn passing(b: TestBaseline) -> nat {
    if b.failed <= b.total {
        (b.total - b.failed) as nat
    } else {
        0
    }
}

/// How many tests passed, of how many.
pub open spec fn tests_score(b: TestBaseline) -> Seq<char> {
    digits::decimal(passing(b)) + "/"@ + digits::decimal(b.total as nat) + " passing"@
}

/// Where the tests moved, where they were counted before any agent acted and
/// since then.
pub open spec fn tests_line(baseline: Option<TestBaseline>, now: Option<TestBaseline>) -> Seq<char> {
    match (baseline, now) {
        (Some(b), Some(n)) => "- Tests: was "@ + tests_score(b) + ", now "@ + tests_score(n) + "\n"@,
        _ => ""@,
    }
}

/// A line of the report that names nodes, where there are any to name.
pub open spec fn names_line(lead: Seq<char>, names: Seq<Seq<char>>, tail: Seq<char>) -> Seq<char> {
    if names.len() == 0 {
        ""@
    } else {
        lead + split::join(names, ", "@) + tail
    }
}

/// The line on the checkpoint, where there is one.
pub open spec fn checkpoint_line(checkpoint: Option<Seq<char>>) -> Seq<char> {
    match checkpoint {
        Some(c) => "- Checkpoint: `"@ + c + "` — this run is reversible in one action\n"@,
        None => ""@,
    }
}

/// The report on a run, whose documents hold the texts.
pub open spec fn report_text<T: Tokenizer + ?Sized>(
    run: RunState,
    texts: Seq<Seq<char>>,
    now: Seq<char>,
    tok: &T,
) -> Seq<char> {
    let documents = table::as_texts(run.documents@);
    "# Run report — "@ + run.run_id@ + "\n\nWorkflow: "@ + run.workflow@ + "\nAssembled: "@ + now
        + "\n\n## What each step concluded\n\n"@ + sections(documents, texts, tok, documents.len())
        + "## Course of the run\n\n- Documents produced: "@ + digits::decimal(documents.len())
        + "\n- Repeated attempts: "@ + digits::decimal(repeated(run.attempts@)) + "\n"@ + names_line(
        "- Not taken: "@,
        names_in(run.states@, NodeState::Skipped),
        "\n"@,
    ) + names_line("- **Failed: "@, names_in(run.states@, NodeState::Failed), "**\n"@) + tests_line(
        run.baseline,
        run.measured,
    ) + checkpoint_line(crate::json::said(run.checkpoint))
}

fn write_results(results: &Table<String>) -> (s: String)
    ensures
        s@ == results_line(table::as_texts(results@)),
{
    let ghost all = table::as_texts(results@).map_values(|e: (Seq<char>, Seq<char>)| e.0 + ": "@ + e.1);
    let mut v: Vec<String> = Vec::new();
    let mut i: usize = 0;
    assert(text::texts(v@) =~= all.take(0));
    while i < results.len()
        invariant
            i <= results@.len(),
            all == table::as_texts(results@).map_values(|e: (Seq<char>, Seq<char>)| e.0 + ": "@ + e.1),
            text::texts(v@) == all.take(i as int),
        decreases results@.len() - i,
    {
        let mut pair = results.key_at(i).as_str().to_owned();
        pair.append(": ");
        pair.append(results.value_at(i).as_str());
        assert(pair@ == all[i as int]);
        proof {
            text::lemma_texts_push(v@, pair);
        }
        v.push(pair);
        i = i + 1;
        assert(all.take(i as int) =~= all.take(i - 1).push(all[i - 1]));
    }
    assert(all.take(i as int) =~= all);
    join_strings(v.as_slice(), " · ")
}

fn write_section<T: Tokenizer + ?Sized>(node: &str, file: &str, text: &str, tok: &T) -> (s: String)
    ensures
        s@ == section(node@, file@, text@, tok),
{
    let mut s = "### ".to_owned();
    s.append(node);
    s.append(" — `");
    s.append(file);
    s.append("`\n\n");
    match parse(text, tok) {
        Ok(doc) => {
            let digest = chars_of(doc.header.digest.as_str());
            let told = string_of(trimmed(digest.as_slice()));
            s.append(told.as_str());
            s.append("\n\n");
            assert(doc@.results.len() == doc.header.results@.len());
            if !doc.header.results.is_empty() {
                s.append("`");
                s.append(write_results(&doc.header.results).as_str());
                s.append("`\n\n");
            }
        },
        Err(e) => {
            s.append("Unreadable: ");
            s.append(e.message().as_str());
            s.append("\n\n");
        },
    }
    s
}

fn list_names(states: &Table<NodeState>, state: NodeState) -> (v: Vec<String>)
    ensures
        text::texts(v@) == names_in(states@, state),
{
    let ghost all = states@;
    let mut v: Vec<String> = Vec::new();
    let mut i: usize = 0;
    assert(text::texts(v@) =~= names_in(all.take(0), state));
    while i < states.len()
        invariant
            i <= states@.len(),
            all == states@,
            text::texts(v@) == names_in(all.take(i as int), state),
        decreases states@.len() - i,
    {
        assert(all.take(i + 1).drop_last() =~= all.take(i as int));
        assert(all.take(i + 1).last() == all[i as int]);
        if *states.value_at(i) == state {
            let name = states.key_at(i).as_str().to_owned();
            proof {
                text::lemma_texts_push(v@, name);
            }
            v.push(name);
        }
        i = i + 1;
    }
    assert(all.take(i as int) =~= all);
    v
}

fn count_repeated(attempts: &Table<u32>) -> (n: usize)
    ensures
        n == repeated(attempts@),
{
    let ghost all = attempts@;
    let mut n: usize = 0;
    let mut i: usize = 0;
    while i < attempts.len()
        invariant
            n <= i <= attempts@.len(),
            all == attempts@,
            n == repeated(all.take(i as int)),
        decreases attempts@.len() - i,
    {
        assert(all.take(i + 1).drop_last() =~= all.take(i as int));
        assert(all.take(i + 1).last() == all[i as int]);
        if *attempts.value_at(i) > 1 {
            n = n + 1;
        }
        i = i + 1;
    }
    assert(all.take(i as int) =~= all);
    n
}

fn write_names(lead: &str, names: &[String], tail: &str) -> (s: String)
    ensures
        s@ == names_line(lead@, text::texts(names@), tail@),
{
    assert(text::texts(names@).len() == names@.len());
    if names.len() == 0 {
        return "".to_owned();
    }
    let mut s = lead.to_owned();
    s.append(join_strings(names, ", ").as_str());
    s.append(tail);
    s
}

fn write_score(b: &TestBaseline) -> (s: String)
    ensures
        s@ == tests_score(*b),
{
    let passing: u32 = if b.failed <= b.total {
        b.total - b.failed
    } else {
        0
    };
    let mut s = write_number(passing as u128);
    s.append("/");
    s.append(write_number(b.total as u128).as_str());
    s.append(" passing");
    s
}

fn write_tests(baseline: &Option<TestBaseline>, now: &Option<TestBaseline>) -> (s: String)
    ensures
        s@ == tests_line(*baseline, *now),
{
    match (baseline, now) {
        (Some(b), Some(n)) => {
            let mut s = "- Tests: was ".to_owned();
            s.append(write_score(b).as_str());
            s.append(", now ");
            s.append(write_score(n).as_str());
            s.append("\n");
            s
        },
        _ => "".to_owned(),
    }
}

fn write_sections<T: Tokenizer + ?Sized>(documents: &Table<String>, texts: &[String], tok: &T) -> (s: String)
    requires
        texts@.len() == documents@.len(),
    ensures
        s@ == sections(table::as_texts(documents@), text::texts(texts@), tok, documents@.len()),
{
    let ghost docs = table::as_texts(documents@);
    let ghost all = text::texts(texts@);
    let mut s = String::new();
    let mut i: usize = 0;
    assert(s@ =~= sections(docs, all, tok, 0));
    while i < documents.len()
        invariant
            i <= documents@.len(),
            texts@.len() == documents@.len(),
            docs == table::as_texts(documents@),
            all == text::texts(texts@),
            s@ == sections(docs, all, tok, i as nat),
        decreases documents@.len() - i,
    {
        let one = write_section(
            documents.key_at(i).as_str(),
            documents.value_at(i).as_str(),
            texts[i].as_str(),
            tok,
        );
        s.append(one.as_str());
        i = i + 1;
    }
    s
}

/// Assembles the report on a run from the texts of its documents, in the order
/// in which the run lists them.
pub fn compose_report<T: Tokenizer + ?Sized>(run: &RunState, texts: &[String], now: &str, tok: &T) -> (s: String)
    requires
        texts@.len() == run.documents@.len(),
    ensures
        s@ == report_text(*run, text::texts(texts@), now@, tok),
{
    let skipped = list_names(&run.states, NodeState::Skipped);
    let failed = list_names(&run.states, NodeState::Failed);
    let mut s = "# Run report — ".to_owned();
    s.append(run.run_id.as_str());
    s.append("\n\nWorkflow: ");
    s.append(run.workflow.as_str());
    s.append("\nAssembled: ");
    s.append(now);
    s.append("\n\n## What each step concluded\n\n");
    s.append(write_sections(&run.documents, texts, tok).as_str());
    s.append("## Course of the run\n\n- Documents produced: ");
    s.append(write_number(run.documents.len() as u128).as_str());
    s.append("\n- Repeated attempts: ");
    s.append(write_number(count_repeated(&run.attempts) as u128).as_str());
    s.append("\n");
    s.append(write_names("- Not taken: ", skipped.as_slice(), "\n").as_str());
    s.append(write_names("- **Failed: ", failed.as_slice(), "**\n").as_str());
    s.append(write_tests(&run.baseline, &run.measured).as_str());
    let mut line = "".to_owned();
    if let Some(c) = &run.checkpoint {
        line = "- Checkpoint: `".to_owned();
        line.append(c.as_str());
        line.append("` — this run is reversible in one action\n");
    }
    s.append(line.as_str());
    s
}

// ---------------------------------------------------------------------------- laws

/// The report says where the tests moved: wherever they were counted before any
/// agent acted and since then, it gives both counts, the later one as it was last
/// taken.
pub proof fn law_the_report_says_where_the_tests_moved<T: Tokenizer + ?Sized>(
    run: RunState,
    texts: Seq<Seq<char>>,
    now: Seq<char>,
    tok: &T,
)
    requires
        run.baseline is Some,
        run.measured is Some,
    ensures
        exists|before: Seq<char>, after: Seq<char>|
            report_text(run, texts, now, tok) == #[trigger] (before + ("- Tests: was "@ + tests_score(run.baseline->0)
                + ", now "@ + tests_score(run.measured->0) + "\n"@) + after),
{
    let documents = table::as_texts(run.documents@);
    let before = "# Run report — "@ + run.run_id@ + "\n\nWorkflow: "@ + run.workflow@ + "\nAssembled: "@ + now
        + "\n\n## What each step concluded\n\n"@ + sections(documents, texts, tok, documents.len())
        + "## Course of the run\n\n- Documents produced: "@ + digits::decimal(documents.len())
        + "\n- Repeated attempts: "@ + digits::decimal(repeated(run.attempts@)) + "\n"@ + names_line(
        "- Not taken: "@,
        names_in(run.states@, NodeState::Skipped),
        "\n"@,
    ) + names_line("- **Failed: "@, names_in(run.states@, NodeState::Failed), "**\n"@);
    let line = tests_line(run.baseline, run.measured);
    assert(report_text(run, texts, now, tok) == before + line + checkpoint_line(crate::json::said(run.checkpoint)));
}

/// The report has a section for every document: which step wrote it and where it is,
/// what it concluded, or why it cannot be read.
pub proof fn law_every_document_is_reported<T: Tokenizer + ?Sized>(
    run: RunState,
    texts: Seq<Seq<char>>,
    now: Seq<char>,
    tok: &T,
    i: int,
)
    requires
        0 <= i < run.documents@.len(),
    ensures
        ({
            let whole = report_text(run, texts, now, tok);
            let (node, file) = table::as_texts(run.documents@)[i];
            &&& text::occurs(whole, "### "@ + node + " — `"@ + file + "`\n\n"@)
            &&& document::parsed(texts[i], tok) matches Ok(c) ==> text::occurs(whole, text::trim(c.digest))
            &&& document::parsed(texts[i], tok) matches Err(e) ==> text::occurs(
                whole,
                "Unreadable: "@ + document::complaint(e),
            )
        }),
{
    let documents = table::as_texts(run.documents@);
    let whole = report_text(run, texts, now, tok);
    let all = sections(documents, texts, tok, documents.len());
    let one = section(documents[i].0, documents[i].1, texts[i], tok);
    lemma_section_is_there(documents, texts, tok, documents.len(), i);
    lemma_sections_are_there(run, texts, now, tok);
    text::lemma_occurs_trans(whole, all, one);
    lemma_section_parts(documents[i].0, documents[i].1, texts[i], tok);
    let head = "### "@ + documents[i].0 + " — `"@ + documents[i].1 + "`\n\n"@;
    text::lemma_occurs_trans(whole, one, head);
    match document::parsed(texts[i], tok) {
        Ok(c) => {
            text::lemma_occurs_trans(whole, one, text::trim(c.digest));
        },
        Err(e) => {
            text::lemma_occurs_trans(whole, one, "Unreadable: "@ + document::complaint(e));
        },
    }
}

proof fn lemma_section_parts<T: Tokenizer + ?Sized>(node: Seq<char>, file: Seq<char>, t: Seq<char>, tok: &T)
    ensures
        text::occurs(section(node, file, t, tok), "### "@ + node + " — `"@ + file + "`\n\n"@),
        document::parsed(t, tok) matches Ok(c) ==> text::occurs(section(node, file, t, tok), text::trim(c.digest)),
        document::parsed(t, tok) matches Err(e) ==> text::occurs(
            section(node, file, t, tok),
            "Unreadable: "@ + document::complaint(e),
        ),
{
    let head = "### "@ + node + " — `"@ + file + "`\n\n"@;
    let none: Seq<char> = seq![];
    let one = section(node, file, t, tok);
    match document::parsed(t, tok) {
        Ok(c) => {
            let d = text::trim(c.digest);
            let line = "`"@ + results_line(c.results) + "`\n\n"@;
            let rest = if c.results.len() == 0 {
                "\n\n"@
            } else {
                "\n\n"@ + line
            };
            assert(one =~= head + d + rest);
            text::lemma_occurs_within(head, d, rest);
            text::lemma_occurs_within(none, head, d + rest);
            assert(none + head + (d + rest) =~= one);
        },
        Err(e) => {
            let why = "Unreadable: "@ + document::complaint(e);
            assert(one =~= head + why + "\n\n"@);
            text::lemma_occurs_within(head, why, "\n\n"@);
            text::lemma_occurs_within(none, head, why + "\n\n"@);
            assert(none + head + (why + "\n\n"@) =~= one);
        },
    }
}

proof fn lemma_section_is_there<T: Tokenizer + ?Sized>(
    documents: Seq<(Seq<char>, Seq<char>)>,
    texts: Seq<Seq<char>>,
    tok: &T,
    n: nat,
    i: int,
)
    requires
        0 <= i < n,
    ensures
        text::occurs(sections(documents, texts, tok, n), section(documents[i].0, documents[i].1, texts[i], tok)),
    decreases n,
{
    let before = sections(documents, texts, tok, (n - 1) as nat);
    let last = section(documents[n - 1].0, documents[n - 1].1, texts[n - 1], tok);
    let none: Seq<char> = seq![];
    let all = sections(documents, texts, tok, n);
    if i == n - 1 {
        text::lemma_occurs_within(before, last, none);
        assert(before + last + none =~= all);
    } else {
        lemma_section_is_there(documents, texts, tok, (n - 1) as nat, i);
        text::lemma_occurs_within(none, before, last);
        assert(none + before + last =~= all);
        text::lemma_occurs_trans(all, before, section(documents[i].0, documents[i].1, texts[i], tok));
    }
}

proof fn lemma_sections_are_there<T: Tokenizer + ?Sized>(run: RunState, texts: Seq<Seq<char>>, now: Seq<char>, tok: &T)
    ensures
        text::occurs(
            report_text(run, texts, now, tok),
            sections(table::as_texts(run.documents@), texts, tok, run.documents@.len()),
        ),
{
    let documents = table::as_texts(run.documents@);
    let a = "# Run report — "@ + run.run_id@ + "\n\nWorkflow: "@ + run.workflow@ + "\nAssembled: "@ + now
        + "\n\n## What each step concluded\n\n"@;
    let all = sections(documents, texts, tok, documents.len());
    let b = "## Course of the run\n\n- Documents produced: "@;
    let c = digits::decimal(documents.len());
    let d = "\n- Repeated attempts: "@;
    let e = digits::decimal(repeated(run.attempts@));
    let f = "\n"@;
    let g = names_line("- Not taken: "@, names_in(run.states@, NodeState::Skipped), "\n"@);
    let h = names_line("- **Failed: "@, names_in(run.states@, NodeState::Failed), "**\n"@);
    let i = tests_line(run.baseline, run.measured);
    let j = checkpoint_line(crate::json::said(run.checkpoint));
    assert(report_text(run, texts, now, tok) == a + all + b + c + d + e + f + g + h + i + j);
    lemma_kept(a + all, b, all, a);
    lemma_kept_on(a + all + b, c, all);
    lemma_kept_on(a + all + b + c, d, all);
    lemma_kept_on(a + all + b + c + d, e, all);
    lemma_kept_on(a + all + b + c + d + e, f, all);
    lemma_kept_on(a + all + b + c + d + e + f, g, all);
    lemma_kept_on(a + all + b + c + d + e + f + g, h, all);
    lemma_kept_on(a + all + b + c + d + e + f + g + h, i, all);
    lemma_kept_on(a + all + b + c + d + e + f + g + h + i, j, all);
}

proof fn lemma_kept(s: Seq<char>, t: Seq<char>, p: Seq<char>, a: Seq<char>)
    requires
        s == a + p,
    ensures
        text::occurs(s + t, p),
{
    text::lemma_occurs_within(a, p, t);
}

proof fn lemma_kept_on(s: Seq<char>, t: Seq<char>, p: Seq<char>)
    requires
        text::occurs(s, p),
    ensures
        text::occurs(s + t, p),
{
    let none: Seq<char> = seq![];
    text::lemma_occurs_within(none, s, t);
    assert(none + s + t =~= s + t);
    text::lemma_occurs_trans(s + t, s, p);
}

/// The nodes that are named for a state are those that are in it, each once for each
/// entry, in the order of the entries.
pub proof fn law_the_nodes_named_are_those_in_the_state(
    states: Seq<(Seq<char>, NodeState)>,
    more: Seq<(Seq<char>, NodeState)>,
    id: Seq<char>,
    state: NodeState,
)
    ensures
        names_in(states, state).contains(id) <==> states.contains((id, state)),
        names_in(states + more, state) == names_in(states, state) + names_in(more, state),
    decreases states.len() + more.len(),
{
    if more.len() > 0 {
        law_the_nodes_named_are_those_in_the_state(states, more.drop_last(), id, state);
        assert((states + more).drop_last() =~= states + more.drop_last());
        assert((states + more).last() == more.last());
        assert(names_in(states + more, state) =~= names_in(states, state) + names_in(more, state));
    } else {
        assert(states + more =~= states);
        assert(names_in(states, state) + names_in(more, state) =~= names_in(states, state));
        if states.len() > 0 {
            let rest = states.drop_last();
            let last = states.last();
            law_the_nodes_named_are_those_in_the_state(rest, more, id, state);
            let a = names_in(rest, state);
            let b = names_in(states, state);
            if states.contains((id, state)) {
                let i = choose|i: int| 0 <= i < states.len() && states[i] == (id, state);
                if i < rest.len() {
                    assert(rest[i] == (id, state));
                    let k = choose|k: int| 0 <= k < a.len() && a[k] == id;
                    assert(b[k] == id);
                } else {
                    assert(b[b.len() - 1] == id);
                }
            }
            if b.contains(id) {
                let k = choose|k: int| 0 <= k < b.len() && b[k] == id;
                if k < a.len() {
                    assert(a[k] == id);
                    let i = choose|i: int| 0 <= i < rest.len() && rest[i] == (id, state);
                    assert(states[i] == (id, state));
                } else {
                    assert(states[states.len() - 1] == (id, state));
                }
            }
        }
    }
}

/// A node counts as repeated where it took more than one attempt, once however many
/// it took.
pub proof fn law_a_node_is_repeated_once(attempts: Seq<(Seq<char>, u32)>, id: Seq<char>, n: u32)
    ensures
        repeated(attempts.push((id, n))) == repeated(attempts) + (if n >= 2 {
            1nat
        } else {
            0
        }),
        repeated(seq![]) == 0,
{
    assert(attempts.push((id, n)).drop_last() =~= attempts);
}

/// What passed is what did not fail.
pub proof fn law_what_passed_did_not_fail(b: TestBaseline)
    ensures
        b.failed <= b.total ==> passing(b) + b.failed == b.total,
        b.failed > b.total ==> passing(b) == 0,
        tests_line(Some(b), None).len() == 0,
        tests_line(None, Some(b)).len() == 0,
{
    reveal_strlit("");
}

/// A run that can be reversed is reported with its checkpoint.
pub proof fn law_a_checkpoint_is_reported<T: Tokenizer + ?Sized>(
    run: RunState,
    texts: Seq<Seq<char>>,
    now: Seq<char>,
    tok: &T,
)
    requires
        run.checkpoint is Some,
    ensures
        text::occurs(report_text(run, texts, now, tok), "- Checkpoint: `"@ + run.checkpoint->0@ + "`"@),
{
    let c = run.checkpoint->0@;
    let line = checkpoint_line(crate::json::said(run.checkpoint));
    let named = "- Checkpoint: `"@ + c + "`"@;
    let tail = "` — this run is reversible in one action\n"@;
    reveal_strlit("` — this run is reversible in one action\n");
    reveal_strlit("`");
    let none: Seq<char> = seq![];
    assert(line == "- Checkpoint: `"@ + c + tail);
    let rest = tail.skip(1);
    assert(tail =~= "`"@ + rest);
    assert(line =~= none + named + rest);
    text::lemma_occurs_within(none, named, rest);
    let documents = table::as_texts(run.documents@);
    let before = "# Run report — "@ + run.run_id@ + "\n\nWorkflow: "@ + run.workflow@ + "\nAssembled: "@ + now
        + "\n\n## What each step concluded\n\n"@ + sections(documents, texts, tok, documents.len())
        + "## Course of the run\n\n- Documents produced: "@ + digits::decimal(documents.len())
        + "\n- Repeated attempts: "@ + digits::decimal(repeated(run.attempts@)) + "\n"@ + names_line(
        "- Not taken: "@,
        names_in(run.states@, NodeState::Skipped),
        "\n"@,
    ) + names_line("- **Failed: "@, names_in(run.states@, NodeState::Failed), "**\n"@) + tests_line(
        run.baseline,
        run.measured,
    );
    assert(report_text(run, texts, now, tok) == before + line);
    text::lemma_occurs_within(before, line, none);
    assert(before + line + none =~= before + line);
    text::lemma_occurs_trans(before + line, line, named);
}

/// The course of the run names every node that was not taken and every one that
/// failed.
pub proof fn law_what_was_left_out_or_failed_is_named<T: Tokenizer + ?Sized>(
    run: RunState,
    texts: Seq<Seq<char>>,
    now: Seq<char>,
    tok: &T,
    id: Seq<char>,
)
    ensures
        run.states@.contains((id, NodeState::Skipped)) || run.states@.contains((id, NodeState::Failed))
            ==> text::occurs(report_text(run, texts, now, tok), id),
{
    let documents = table::as_texts(run.documents@);
    let skipped = names_in(run.states@, NodeState::Skipped);
    let failed = names_in(run.states@, NodeState::Failed);
    law_the_nodes_named_are_those_in_the_state(run.states@, seq![], id, NodeState::Skipped);
    law_the_nodes_named_are_those_in_the_state(run.states@, seq![], id, NodeState::Failed);
    let a = "# Run report — "@ + run.run_id@ + "\n\nWorkflow: "@ + run.workflow@ + "\nAssembled: "@ + now
        + "\n\n## What each step concluded\n\n"@ + sections(documents, texts, tok, documents.len())
        + "## Course of the run\n\n- Documents produced: "@ + digits::decimal(documents.len())
        + "\n- Repeated attempts: "@ + digits::decimal(repeated(run.attempts@)) + "\n"@;
    let g = names_line("- Not taken: "@, skipped, "\n"@);
    let h = names_line("- **Failed: "@, failed, "**\n"@);
    let i = tests_line(run.baseline, run.measured);
    let j = checkpoint_line(crate::json::said(run.checkpoint));
    assert(report_text(run, texts, now, tok) == a + g + h + i + j);
    if skipped.contains(id) {
        lemma_name_in_line("- Not taken: "@, skipped, "\n"@, id);
        lemma_kept(a + g, h, g, a);
        text::lemma_occurs_trans(a + g + h, g, id);
        lemma_kept_on(a + g + h, i, id);
        lemma_kept_on(a + g + h + i, j, id);
    }
    if failed.contains(id) {
        lemma_name_in_line("- **Failed: "@, failed, "**\n"@, id);
        lemma_kept(a + g + h, i, h, a + g);
        text::lemma_occurs_trans(a + g + h + i, h, id);
        lemma_kept_on(a + g + h + i, j, id);
    }
}

proof fn lemma_name_in_line(lead: Seq<char>, names: Seq<Seq<char>>, tail: Seq<char>, id: Seq<char>)
    requires
        names.contains(id),
    ensures
        text::occurs(names_line(lead, names, tail), id),
{
    let k = choose|k: int| 0 <= k < names.len() && names[k] == id;
    let joined = split::join(names, ", "@);
    split::law_a_joined_text_holds_its_pieces(names, ", "@, k);
    text::lemma_occurs_within(lead, joined, tail);
    text::lemma_occurs_trans(names_line(lead, names, tail), joined, id);
}

} // verus!
