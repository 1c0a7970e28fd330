//! What a role is shown: its instructions, what the owner has settled, the
//! format contract, and the documents of the run.
//!
//! Context does not grow by carrying every earlier document in full: a role gets
//! the full bodies of its declared inputs, and digests of everything else.

use vstd::prelude::*;
use crate::digits;
use crate::digits::write_number;
use crate::document;
use crate::document::{parse, Artifact, Content};
use crate::graph::holds_name;
use crate::node;
use crate::node::format_contract;
use crate::run::{RoleSpec, RunState};
use crate::table;
use crate::text;
use crate::text::{chars_of, replace_char, trimmed};
use crate::tokens::Tokenizer;

verus! {

/// What a role is shown, part by part.
#[derive(Debug, Clone, PartialEq, Eq)]
pub struct Context {
    pub system: String,
    pub knowledge: String,
    pub contract: String,
    pub digests: String,
    pub inputs: String,
}

/// What a role is shown, as texts.
pub struct Shown {
    pub system: Seq<char>,
    pub knowledge: Seq<char>,
    pub contract: Seq<char>,
    pub digests: Seq<char>,
    pub inputs: Seq<char>,
}

impl View for Context {
    type V = Shown;

    open spec fn view(&self) -> Shown {
        Shown {
            system: self.system@,
            knowledge: self.knowledge@,
            contract: self.contract@,
            digests: self.digests@,
            inputs: self.inputs@,
        }
    }
}

/// What a role is shown, in one text.
pub open spec fn shown_text(c: Shown) -> Seq<char> {
    c.system + c.knowledge + c.contract + c.digests + c.inputs
}

/// What the owner has answered before. Without this the same questions would be
/// asked every day.
pub open spec fn knowledge_part(known: Seq<char>) -> Seq<char> {
    if text::is_blank(known) {
        ""@
    } else {
        "\n\nWHAT THIS PROJECT'S OWNER HAS ALREADY TOLD US\n"@ + known
            + "\nTreat these as settled. Do not ask them again.\n"@
    }
}

/// The digest of a document, in one line.
pub open spec fn digest_line(file: Seq<char>, c: Content) -> Seq<char> {
    "\n- "@ + file + ": "@ + text::with_char(c.digest, '\n', ' ')
}

/// A document in full.
pub open spec fn full_text(file: Seq<char>, c: Content) -> Seq<char> {
    "\n\n--- "@ + file + " (in full) ---\n"@ + c.body
}

/// The digests of those of the first `n` documents that are read, and are no
/// primary inputs.
pub open spec fn digests_of<T: Tokenizer + ?Sized>(
    files: Seq<Seq<char>>,
    texts: Seq<Seq<char>>,
    primary: Seq<Seq<char>>,
    tok: &T,
    n: nat,
) -> Seq<char>
    decreases n,
{
    if n == 0 {
        ""@
    } else {
        let before = digests_of(files, texts, primary, tok, (n - 1) as nat);
        match document::parsed(texts[n - 1], tok) {
            Ok(c) => if primary.contains(files[n - 1]) {
                before
            } else {
                before + digest_line(files[n - 1], c)
            },
            Err(_) => before,
        }
    }
}

/// The bodies of those of the first `n` documents that are read, and are primary
/// inputs.
pub open spec fn bodies_of<T: Tokenizer + ?Sized>(
    files: Seq<Seq<char>>,
    texts: Seq<Seq<char>>,
    primary: Seq<Seq<char>>,
    tok: &T,
    n: nat,
) -> Seq<char>
    decreases n,
{
    if n == 0 {
        ""@
    } else {
        let before = bodies_of(files, texts, primary, tok, (n - 1) as nat);
        match document::parsed(texts[n - 1], tok) {
            Ok(c) => if primary.contains(files[n - 1]) {
                before + full_text(files[n - 1], c)
            } else {
                before
            },
            Err(_) => before,
        }
    }
}

/// A part of the context under its heading, where there is anything to show.
pub open spec fn under_heading(heading: Seq<char>, part: Seq<char>) -> Seq<char> {
    if part.len() == 0 {
        ""@
    } else {
        heading + part
    }
}

/// The files of the documents, in the order of the nodes.
pub open spec fn files_of(documents: Seq<(Seq<char>, Seq<char>)>) -> Seq<Seq<char>> {
    documents.map_values(|e: (Seq<char>, Seq<char>)| e.1)
}

/// What a role is shown, where the documents of the run hold the texts.
pub open spec fn context_of<T: Tokenizer + ?Sized>(
    role: RoleSpec,
    run: RunState,
    attempt: nat,
    model: Seq<char>,
    artifact: Artifact,
    known: Seq<char>,
    texts: Seq<Seq<char>>,
    tok: &T,
) -> Shown {
    let files = files_of(table::as_texts(run.documents@));
    let primary = text::texts(role.primary_inputs@);
    Shown {
        system: role.system@,
        knowledge: knowledge_part(known),
        contract: node::contract_text(artifact, run.run_id@, role.name@, attempt, model, files),
        digests: under_heading(
            "\n\nWHAT ELSE THIS RUN HAS PRODUCED (digests only)\n"@,
            digests_of(files, texts, primary, tok, files.len()),
        ),
        inputs: under_heading("\n\nYOUR INPUTS"@, bodies_of(files, texts, primary, tok, files.len())),
    }
}

/// How many tokens the parts take together.
pub open spec fn tokens_of<T: Tokenizer + ?Sized>(c: Shown, tok: &T) -> nat {
    tok.tokens(c.system) + tok.tokens(c.knowledge) + tok.tokens(c.contract) + tok.tokens(c.digests) + tok.tokens(
        c.inputs,
    )
}

/// How big the prompt of a node is, and of what.
pub open spec fn size_note<T: Tokenizer + ?Sized>(node: Seq<char>, c: Shown, budget: nat, tok: &T) -> Seq<char> {
    node + ": context system "@ + digits::decimal(tok.tokens(c.system)) + " + knowledge "@ + digits::decimal(
        tok.tokens(c.knowledge),
    ) + " + contract "@ + digits::decimal(tok.tokens(c.contract)) + " + digests "@ + digits::decimal(
        tok.tokens(c.digests),
    ) + " + inputs "@ + digits::decimal(tok.tokens(c.inputs)) + " = "@ + digits::decimal(tokens_of(c, tok))
        + " tokens of a "@ + digits::decimal(budget) + " token budget"@
}

impl Context {
    /// The whole of it, in one text.
    pub fn text(&self) -> (s: String)
        ensures
            s@ == shown_text(self@),
    {
        let mut s = self.system.as_str().to_owned();
        s.append(self.knowledge.as_str());
        s.append(self.contract.as_str());
        s.append(self.digests.as_str());
        s.append(self.inputs.as_str());
        s
    }

    /// How big the prompt of a node is, and of what, for the log of a run: an
    /// overflow is not to be guessed at from how the model behaves.
    pub fn size_note<T: Tokenizer + ?Sized>(&self, node: &str, budget: u32, tok: &T) -> (s: String)
        ensures
            s@ == size_note(node@, self@, budget as nat, tok),
    {
        let system: usize = tok.count(self.system.as_str());
        let knowledge: usize = tok.count(self.knowledge.as_str());
        let contract: usize = tok.count(self.contract.as_str());
        let digests: usize = tok.count(self.digests.as_str());
        let inputs: usize = tok.count(self.inputs.as_str());
        let total: u128 = system as u128 + knowledge as u128 + contract as u128 + digests as u128 + inputs as u128;
        let mut s = node.to_owned();
        s.append(": context system ");
        s.append(write_number(system as u128).as_str());
        s.append(" + knowledge ");
        s.append(write_number(knowledge as u128).as_str());
        s.append(" + contract ");
        s.append(write_number(contract as u128).as_str());
        s.append(" + digests ");
        s.append(write_number(digests as u128).as_str());
        s.append(" + inputs ");
        s.append(write_number(inputs as u128).as_str());
        s.append(" = ");
        s.append(write_number(total).as_str());
        s.append(" tokens of a ");
        s.append(write_number(budget as u128).as_str());
        s.append(" token budget");
        s
    }
}

fn write_knowledge(known: &str) -> (s: String)
    ensures
        s@ == knowledge_part(known@),
{
    let chars = chars_of(known);
    if trimmed(chars.as_slice()).len() == 0 {
        return "".to_owned();
    }
    let mut s = "\n\nWHAT THIS PROJECT'S OWNER HAS ALREADY TOLD US\n".to_owned();
    s.append(known);
    s.append("\nTreat these as settled. Do not ask them again.\n");
    s
}

fn put_under(heading: &str, part: &str) -> (s: String)
    ensures
        s@ == under_heading(heading@, part@),
{
    let chars = chars_of(part);
    if chars.len() == 0 {
        return "".to_owned();
    }
    let mut s = heading.to_owned();
    s.append(part);
    s
}

fn list_files(run: &RunState) -> (v: Vec<String>)
    ensures
        text::texts(v@) == files_of(table::as_texts(run.documents@)),
{
    let ghost all = files_of(table::as_texts(run.documents@));
    let mut v: Vec<String> = Vec::new();
    let mut i: usize = 0;
    assert(text::texts(v@) =~= all.take(0));
    while i < run.documents.len()
        invariant
            i <= run.documents@.len(),
            all == files_of(table::as_texts(run.documents@)),
            text::texts(v@) == all.take(i as int),
        decreases run.documents@.len() - i,
    {
        let file = run.documents.value_at(i).as_str().to_owned();
        assert(file@ == all[i as int]);
        proof {
            text::lemma_texts_push(v@, file);
        }
        v.push(file);
        i = i + 1;
        assert(all.take(i as int) =~= all.take(i - 1).push(all[i - 1]));
    }
    assert(all.take(i as int) =~= all);
    v
}

/// Full bodies of declared primary inputs, digests of everything else. `known` is
/// what the owner has answered before, and `texts` what the documents of the run
/// hold, in the order in which it lists them.
pub fn assemble<T: Tokenizer + ?Sized>(
    role: &RoleSpec,
    run: &RunState,
    attempt: u32,
    model: &str,
    artifact: Artifact,
    known: &str,
    texts: &[String],
    tok: &T,
) -> (c: Context)
    requires
        texts@.len() == run.documents@.len(),
    ensures
        c@ == context_of(*role, *run, attempt as nat, model@, artifact, known@, text::texts(texts@), tok),
{
    let files = list_files(run);
    let ghost names = text::texts(files@);
    let ghost all = text::texts(texts@);
    let ghost primary = text::texts(role.primary_inputs@);
    assert(names.len() == files@.len());
    let mut digests = "".to_owned();
    let mut full = "".to_owned();
    let mut i: usize = 0;
    while i < files.len()
        invariant
            i <= files.len(),
            files@.len() == texts@.len(),
            names == text::texts(files@),
            all == text::texts(texts@),
            primary == text::texts(role.primary_inputs@),
            digests@ == digests_of(names, all, primary, tok, i as nat),
            full@ == bodies_of(names, all, primary, tok, i as nat),
        decreases files.len() - i,
    {
        assert(names[i as int] == files@[i as int]@);
        assert(all[i as int] == texts@[i as int]@);
        if let Ok(doc) = parse(texts[i].as_str(), tok) {
            let file = files[i].as_str();
            if holds_name(role.primary_inputs.as_slice(), file) {
                let mut one = "\n\n--- ".to_owned();
                one.append(file);
                one.append(" (in full) ---\n");
                one.append(doc.body.as_str());
                full.append(one.as_str());
            } else {
                let digest = chars_of(doc.header.digest.as_str());
                let mut one = "\n- ".to_owned();
                one.append(file);
                one.append(": ");
                one.append(replace_char(digest.as_slice(), '\n', ' ').as_str());
                digests.append(one.as_str());
            }
        }
        i = i + 1;
    }
    Context {
        system: role.system.as_str().to_owned(),
        knowledge: write_knowledge(known),
        contract: format_contract(
            artifact,
            run.run_id.as_str(),
            role.name.as_str(),
            attempt,
            model,
            files.as_slice(),
        ),
        digests: put_under("\n\nWHAT ELSE THIS RUN HAS PRODUCED (digests only)\n", digests.as_str()),
        inputs: put_under("\n\nYOUR INPUTS", full.as_str()),
    }
}

/// Whether two lists of texts differ only in documents that are no primary
/// inputs, and there only in what stands beside the digest.
pub open spec fn differ_beside_digests<T: Tokenizer + ?Sized>(
    a: Seq<Seq<char>>,
    b: Seq<Seq<char>>,
    files: Seq<Seq<char>>,
    primary: Seq<Seq<char>>,
    tok: &T,
) -> bool {
    forall|i: int|
        #![trigger a[i]]
        #![trigger b[i]]
        0 <= i < files.len() ==> a[i] == b[i] || (!primary.contains(files[i]) && (document::parsed(
            a[i],
            tok,
        ) matches Ok(x) && document::parsed(b[i], tok) matches Ok(y) && x.digest == y.digest))
}

/// A role sees no more of a document than its digest, unless it declares it as an
/// input: whatever the bodies of the others hold, it is shown the same.
pub proof fn law_a_body_is_shown_to_those_who_declare_it<T: Tokenizer + ?Sized>(
    files: Seq<Seq<char>>,
    a: Seq<Seq<char>>,
    b: Seq<Seq<char>>,
    primary: Seq<Seq<char>>,
    tok: &T,
    n: nat,
)
    requires
        n <= files.len(),
        differ_beside_digests(a, b, files, primary, tok),
    ensures
        digests_of(files, a, primary, tok, n) == digests_of(files, b, primary, tok, n),
        bodies_of(files, a, primary, tok, n) == bodies_of(files, b, primary, tok, n),
    decreases n,
{
    if n > 0 {
        law_a_body_is_shown_to_those_who_declare_it(files, a, b, primary, tok, (n - 1) as nat);
        assert(a[n - 1] == a[n - 1]);
    }
}

/// A document that the role declares is shown to it whole.
pub proof fn law_a_declared_document_is_shown_whole<T: Tokenizer + ?Sized>(
    files: Seq<Seq<char>>,
    texts: Seq<Seq<char>>,
    primary: Seq<Seq<char>>,
    tok: &T,
    n: nat,
    i: int,
)
    requires
        0 <= i < n,
        primary.contains(files[i]),
        document::parsed(texts[i], tok) is Ok,
    ensures
        text::occurs(bodies_of(files, texts, primary, tok, n), document::parsed(texts[i], tok)->Ok_0.body),
        text::occurs(
            bodies_of(files, texts, primary, tok, n),
            "\n\n--- "@ + files[i] + " (in full) ---\n"@ + document::parsed(texts[i], tok)->Ok_0.body,
        ),
    decreases n,
{
    let none = Seq::<char>::empty();
    let c = document::parsed(texts[i], tok)->Ok_0;
    let whole = "\n\n--- "@ + files[i] + " (in full) ---\n"@ + c.body;
    let all = bodies_of(files, texts, primary, tok, n);
    let before = bodies_of(files, texts, primary, tok, (n - 1) as nat);
    text::lemma_occurs_within("\n\n--- "@ + files[i] + " (in full) ---\n"@, c.body, none);
    assert("\n\n--- "@ + files[i] + " (in full) ---\n"@ + c.body + none =~= whole);
    if i == n - 1 {
        text::lemma_occurs_within(before, whole, none);
        assert(before + whole + none =~= all);
    } else {
        law_a_declared_document_is_shown_whole(files, texts, primary, tok, (n - 1) as nat, i);
        let tail = all.skip(before.len() as int);
        assert(all =~= none + before + tail);
        text::lemma_occurs_within(none, before, tail);
        text::lemma_occurs_trans(all, before, whole);
    }
    text::lemma_occurs_trans(all, whole, c.body);
}

/// Every other document is shown by its digest, on one line.
pub proof fn law_every_other_document_is_shown_by_its_digest<T: Tokenizer + ?Sized>(
    files: Seq<Seq<char>>,
    texts: Seq<Seq<char>>,
    primary: Seq<Seq<char>>,
    tok: &T,
    n: nat,
    i: int,
)
    requires
        0 <= i < n,
        !primary.contains(files[i]),
        document::parsed(texts[i], tok) is Ok,
    ensures
        text::occurs(
            digests_of(files, texts, primary, tok, n),
            "\n- "@ + files[i] + ": "@ + text::with_char(document::parsed(texts[i], tok)->Ok_0.digest, '\n', ' '),
        ),
    decreases n,
{
    let none = Seq::<char>::empty();
    let c = document::parsed(texts[i], tok)->Ok_0;
    let line = "\n- "@ + files[i] + ": "@ + text::with_char(c.digest, '\n', ' ');
    let all = digests_of(files, texts, primary, tok, n);
    let before = digests_of(files, texts, primary, tok, (n - 1) as nat);
    if i == n - 1 {
        text::lemma_occurs_within(before, line, none);
        assert(before + line + none =~= all);
    } else {
        law_every_other_document_is_shown_by_its_digest(files, texts, primary, tok, (n - 1) as nat, i);
        let tail = all.skip(before.len() as int);
        assert(all =~= none + before + tail);
        text::lemma_occurs_within(none, before, tail);
        text::lemma_occurs_trans(all, before, line);
    }
}

/// What the owner said before is shown wherever there is any, and told to be
/// settled.
pub proof fn law_what_is_known_is_shown(known: Seq<char>)
    ensures
        text::trim(known).len() > 0 ==> text::occurs(knowledge_part(known), known),
        text::trim(known).len() == 0 ==> knowledge_part(known).len() == 0,
{
    reveal_strlit("");
    if text::trim(known).len() > 0 {
        text::lemma_occurs_within(
            "\n\nWHAT THIS PROJECT'S OWNER HAS ALREADY TOLD US\n"@,
            known,
            "\nTreat these as settled. Do not ask them again.\n"@,
        );
    }
}

/// A context shows all of its parts, in their order, and nothing else.
pub proof fn law_a_context_is_its_parts(c: Shown)
    ensures
        shown_text(c) == c.system + (c.knowledge + (c.contract + (c.digests + c.inputs))),
{
    assert(shown_text(c) =~= c.system + (c.knowledge + (c.contract + (c.digests + c.inputs))));
}

/// A context takes the tokens of all of its parts.
pub proof fn law_the_size_is_that_of_the_parts<T: Tokenizer + ?Sized>(c: Shown, tok: &T)
    ensures
        tokens_of(c, tok) == tok.tokens(c.inputs) + tok.tokens(c.digests) + tok.tokens(c.contract) + tok.tokens(
            c.knowledge,
        ) + tok.tokens(c.system),
{
}

/// What a role sees is its own text, what is known, the form of its document, and
/// what the run has produced: all of the files that the run has, in full where it
/// declares them and by their digests where it does not.
pub proof fn law_a_role_sees_what_the_run_has<T: Tokenizer + ?Sized>(
    role: RoleSpec,
    run: RunState,
    attempt: nat,
    model: Seq<char>,
    artifact: Artifact,
    known: Seq<char>,
    texts: Seq<Seq<char>>,
    tok: &T,
    i: int,
)
    requires
        0 <= i < run.documents@.len(),
        document::parsed(texts[i], tok) is Ok,
    ensures
        ({
            let c = context_of(role, run, attempt, model, artifact, known, texts, tok);
            let file = table::as_texts(run.documents@)[i].1;
            let d = document::parsed(texts[i], tok)->Ok_0;
            &&& c.system == role.system@
            &&& c.contract == node::contract_text(
                artifact,
                run.run_id@,
                role.name@,
                attempt,
                model,
                files_of(table::as_texts(run.documents@)),
            )
            &&& text::texts(role.primary_inputs@).contains(file) ==> text::occurs(c.inputs, d.body)
            &&& !text::texts(role.primary_inputs@).contains(file) ==> text::occurs(
                c.digests,
                text::with_char(d.digest, '\n', ' '),
            )
        }),
{
    let none = Seq::<char>::empty();
    let c = context_of(role, run, attempt, model, artifact, known, texts, tok);
    let all = table::as_texts(run.documents@);
    let files = files_of(all);
    let primary = text::texts(role.primary_inputs@);
    let d = document::parsed(texts[i], tok)->Ok_0;
    assert(files[i] == all[i].1);
    assert(files.len() == run.documents@.len());
    if primary.contains(files[i]) {
        law_a_declared_document_is_shown_whole(files, texts, primary, tok, files.len(), i);
        let bodies = bodies_of(files, texts, primary, tok, files.len());
        let whole = "\n\n--- "@ + files[i] + " (in full) ---\n"@ + d.body;
        reveal_strlit("\n\n--- ");
        let at = choose|at: int| text::stands_at(bodies, whole, at);
        assert(bodies.len() > 0);
        text::lemma_occurs_within("\n\nYOUR INPUTS"@, bodies, none);
        assert("\n\nYOUR INPUTS"@ + bodies + none =~= c.inputs);
        text::lemma_occurs_trans(c.inputs, bodies, d.body);
    } else {
        law_every_other_document_is_shown_by_its_digest(files, texts, primary, tok, files.len(), i);
        let lines = digests_of(files, texts, primary, tok, files.len());
        let digest = text::with_char(d.digest, '\n', ' ');
        let line = "\n- "@ + files[i] + ": "@ + digest;
        reveal_strlit("\n- ");
        let at = choose|at: int| text::stands_at(lines, line, at);
        assert(lines.len() > 0);
        let heading = "\n\nWHAT ELSE THIS RUN HAS PRODUCED (digests only)\n"@;
        text::lemma_occurs_within(heading, lines, none);
        assert(heading + lines + none =~= c.digests);
        text::lemma_occurs_within("\n- "@ + files[i] + ": "@, digest, none);
        assert("\n- "@ + files[i] + ": "@ + digest + none =~= line);
        text::lemma_occurs_trans(lines, line, digest);
        text::lemma_occurs_trans(c.digests, lines, digest);
    }
}

} // verus!
