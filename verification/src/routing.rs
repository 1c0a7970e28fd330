//! Where a branch goes: to the first edge, in the order of the graph, whose
//! condition holds, and to its fallback only where none does.

use vstd::prelude::*;
use crate::engine;
use crate::engine::Way;
use crate::graph;
use crate::graph::{Edge, Numbers, Op};
use crate::table;
use crate::text;

verus! {

/// What the documents say to each of the conditions: the value of its field, and
/// how that compares to the value wanted where both read as numbers.
pub type Answers = spec_fn(int) -> (Seq<char>, Option<Numbers>);

/// Whether the condition of the edge in place `k` is met: it leads from `id`, the
/// document that it is about was produced, and what that says meets it.
pub open spec fn is_met(
    edges: Seq<Edge>,
    id: Seq<char>,
    documents: Seq<(Seq<char>, Seq<char>)>,
    answers: Answers,
    k: int,
) -> bool {
    &&& 0 <= k < edges.len()
    &&& edges[k].from@ == id
    &&& edges[k].when matches Some(c) && (exists|i: int|
        0 <= i < documents.len() && (#[trigger] documents[i]).1 == c.document@) && graph::condition_holds(
        c.op,
        answers(k).0,
        c.value@,
        answers(k).1,
    )
}

/// Where a branch ends up: it is handed the answers that it asks for, one after
/// the other, at most `n` of them.
pub open spec fn ended(
    edges: Seq<Edge>,
    id: Seq<char>,
    documents: Seq<(Seq<char>, Seq<char>)>,
    answers: Answers,
    way: Way,
    n: nat,
) -> Way
    decreases n,
{
    match way {
        Way::Read { edge, .. } => if n == 0 {
            way
        } else {
            ended(
                edges,
                id,
                documents,
                answers,
                engine::routed_by(edges, id, documents, edge, answers(edge).0, answers(edge).1),
                (n - 1) as nat,
            )
        },
        _ => way,
    }
}

/// The next condition that is looked at is the first one, from `from` on, of an
/// edge that leads from the branch and whose document was produced; it is looked
/// up in that document. None is passed over, and only where there is none left is
/// the branch decided.
pub proof fn law_no_condition_is_passed_over(
    edges: Seq<Edge>,
    id: Seq<char>,
    documents: Seq<(Seq<char>, Seq<char>)>,
    from: int,
    m: int,
)
    requires
        0 <= from <= m < edges.len(),
        edges[m].from@ == id,
        edges[m].when matches Some(c) && (exists|i: int|
            0 <= i < documents.len() && (#[trigger] documents[i]).1 == c.document@),
    ensures
        engine::routed(edges, id, documents, from) matches Way::Read { edge, file } && {
            &&& from <= edge <= m
            &&& edges[edge].from@ == id
            &&& edges[edge].when matches Some(c) && file == c.document@ && exists|i: int|
                0 <= i < documents.len() && (#[trigger] documents[i]).1 == c.document@
        },
    decreases m - from,
{
    if !engine::asks(edges[from], id, documents) {
        law_no_condition_is_passed_over(edges, id, documents, from + 1, m);
    }
}

/// The same after a condition that did not hold: the next one is looked at, and
/// the fallback is not taken before it.
pub proof fn law_a_condition_that_fails_leads_to_the_next(
    edges: Seq<Edge>,
    id: Seq<char>,
    documents: Seq<(Seq<char>, Seq<char>)>,
    k: int,
    actual: Seq<char>,
    numbers: Option<Numbers>,
    m: int,
)
    requires
        0 <= k < m < edges.len(),
        edges[k].when matches Some(c) && !graph::condition_holds(c.op, actual, c.value@, numbers),
        edges[m].from@ == id,
        edges[m].when matches Some(c) && (exists|i: int|
            0 <= i < documents.len() && (#[trigger] documents[i]).1 == c.document@),
        forall|j: int|
            k < j < m && (#[trigger] edges[j]).from@ == id ==> !(edges[j].when matches Some(c) && (exists|i: int|
                0 <= i < documents.len() && (#[trigger] documents[i]).1 == c.document@)),
    ensures
        engine::routed_by(edges, id, documents, k, actual, numbers) == (Way::Read {
            edge: m,
            file: edges[m].when->0.document@,
        }),
{
    law_no_condition_is_passed_over(edges, id, documents, k + 1, m);
}

/// Nothing asks from `from` on.
proof fn lemma_no_more(edges: Seq<Edge>, id: Seq<char>, documents: Seq<(Seq<char>, Seq<char>)>, from: int)
    ensures
        engine::next_asking(edges, id, documents, from) matches Some(e) ==> {
            &&& 0 <= from <= e < edges.len()
            &&& engine::asks(edges[e], id, documents)
            &&& forall|j: int| from <= j < e ==> !engine::asks(#[trigger] edges[j], id, documents)
        },
        engine::next_asking(edges, id, documents, from) is None ==> forall|j: int|
            0 <= from <= j < edges.len() ==> !engine::asks(#[trigger] edges[j], id, documents),
    decreases edges.len() - from,
{
    if 0 <= from < edges.len() && !engine::asks(edges[from], id, documents) {
        lemma_no_more(edges, id, documents, from + 1);
    }
}

proof fn lemma_ended_at(
    edges: Seq<Edge>,
    id: Seq<char>,
    documents: Seq<(Seq<char>, Seq<char>)>,
    answers: Answers,
    from: int,
    n: nat,
    k: int,
)
    requires
        0 <= from <= k,
        is_met(edges, id, documents, answers, k),
        forall|j: int| from <= j < k ==> !is_met(edges, id, documents, answers, j),
        n >= edges.len() - from,
    ensures
        ended(edges, id, documents, answers, engine::routed(edges, id, documents, from), n) == engine::routed_by(
            edges,
            id,
            documents,
            k,
            answers(k).0,
            answers(k).1,
        ),
        ended(edges, id, documents, answers, engine::routed(edges, id, documents, from), n) is Take,
    decreases k - from,
{
    law_no_condition_is_passed_over(edges, id, documents, from, k);
    lemma_no_more(edges, id, documents, from);
    let way = engine::routed(edges, id, documents, from);
    let e = way->Read_edge;
    let next = engine::routed_by(edges, id, documents, e, answers(e).0, answers(e).1);
    assert(ended(edges, id, documents, answers, way, n) == ended(
        edges,
        id,
        documents,
        answers,
        next,
        (n - 1) as nat,
    ));
    if e < k {
        assert(!is_met(edges, id, documents, answers, e));
        assert(next == engine::routed(edges, id, documents, e + 1));
        lemma_ended_at(edges, id, documents, answers, e + 1, (n - 1) as nat, k);
    }
}

proof fn lemma_ended_nowhere(
    edges: Seq<Edge>,
    id: Seq<char>,
    documents: Seq<(Seq<char>, Seq<char>)>,
    answers: Answers,
    from: int,
    n: nat,
)
    requires
        0 <= from <= edges.len(),
        forall|j: int| !is_met(edges, id, documents, answers, j),
        n >= edges.len() - from,
    ensures
        ended(edges, id, documents, answers, engine::routed(edges, id, documents, from), n) == engine::routed(
            edges,
            id,
            documents,
            edges.len() as int,
        ),
        !(engine::routed(edges, id, documents, edges.len() as int) is Read),
    decreases edges.len() - from,
{
    lemma_no_more(edges, id, documents, from);
    let way = engine::routed(edges, id, documents, from);
    if let Way::Read { edge, .. } = way {
        assert(!is_met(edges, id, documents, answers, edge));
        let next = engine::routed_by(edges, id, documents, edge, answers(edge).0, answers(edge).1);
        assert(next == engine::routed(edges, id, documents, edge + 1));
        lemma_ended_nowhere(edges, id, documents, answers, edge + 1, (n - 1) as nat);
    }
}

proof fn lemma_fallback(edges: Seq<Edge>, id: Seq<char>, from: int, f: int)
    requires
        0 <= from <= f < edges.len(),
        edges[f].from@ == id,
        edges[f].when is None,
        forall|j: int| from <= j < f ==> !((#[trigger] edges[j]).from@ == id && edges[j].when is None),
    ensures
        engine::fallback(edges, id, from) == Some(edges[f].to@),
    decreases f - from,
{
    if from < f {
        lemma_fallback(edges, id, from + 1, f);
    }
}

proof fn lemma_no_fallback(edges: Seq<Edge>, id: Seq<char>, from: int)
    requires
        0 <= from,
        forall|j: int| 0 <= j < edges.len() ==> !((#[trigger] edges[j]).from@ == id && edges[j].when is None),
    ensures
        engine::fallback(edges, id, from) is None,
    decreases edges.len() - from,
{
    if from < edges.len() {
        lemma_no_fallback(edges, id, from + 1);
    }
}

/// Whatever the documents say, a branch goes where the first edge leads whose
/// condition is met, and the note says by what.
pub proof fn law_the_first_condition_met_is_taken(
    edges: Seq<Edge>,
    id: Seq<char>,
    documents: Seq<(Seq<char>, Seq<char>)>,
    answers: Answers,
    k: int,
)
    requires
        is_met(edges, id, documents, answers, k),
        forall|j: int| 0 <= j < k ==> !is_met(edges, id, documents, answers, j),
    ensures
        ended(edges, id, documents, answers, engine::routed(edges, id, documents, 0), edges.len()) == (Way::Take {
            to: edges[k].to@,
            note: "branch: "@ + edges[k].when->0.document@ + "."@ + edges[k].when->0.field@ + " = "@ + answers(k).0
                + " -> "@ + edges[k].to@,
        }),
{
    lemma_ended_at(edges, id, documents, answers, 0, edges.len(), k);
}

/// Where no condition is met, a branch goes where its first edge without a
/// condition leads.
pub proof fn law_the_fallback_is_taken_where_none_is_met(
    edges: Seq<Edge>,
    id: Seq<char>,
    documents: Seq<(Seq<char>, Seq<char>)>,
    answers: Answers,
    f: int,
)
    requires
        forall|j: int| !is_met(edges, id, documents, answers, j),
        0 <= f < edges.len(),
        edges[f].from@ == id,
        edges[f].when is None,
        forall|j: int| 0 <= j < f ==> !((#[trigger] edges[j]).from@ == id && edges[j].when is None),
    ensures
        ended(edges, id, documents, answers, engine::routed(edges, id, documents, 0), edges.len()) == (Way::Take {
            to: edges[f].to@,
            note: "branch: no condition held, taking the fallback -> "@ + edges[f].to@,
        }),
{
    lemma_ended_nowhere(edges, id, documents, answers, 0, edges.len());
    lemma_fallback(edges, id, 0, f);
}

/// Where no condition is met and every edge has one, a branch is stuck.
pub proof fn law_a_branch_without_a_way_is_stuck(
    edges: Seq<Edge>,
    id: Seq<char>,
    documents: Seq<(Seq<char>, Seq<char>)>,
    answers: Answers,
)
    requires
        forall|j: int| !is_met(edges, id, documents, answers, j),
        forall|j: int| 0 <= j < edges.len() ==> !((#[trigger] edges[j]).from@ == id && edges[j].when is None),
    ensures
        ended(edges, id, documents, answers, engine::routed(edges, id, documents, 0), edges.len()) is Stuck,
{
    lemma_ended_nowhere(edges, id, documents, answers, 0, edges.len());
    lemma_no_fallback(edges, id, 0);
}

/// A condition on numbers goes by how they compare, and not by how they are
/// written.
pub proof fn law_numbers_are_compared_as_numbers(actual: Seq<char>, wanted: Seq<char>, n: Numbers)
    ensures
        graph::condition_holds(Op::Eq, actual, wanted, Some(n)) == n.close,
        graph::condition_holds(Op::Ne, actual, wanted, Some(n)) == !n.close,
        graph::condition_holds(Op::Gt, actual, wanted, Some(n)) == n.greater,
        graph::condition_holds(Op::Lt, actual, wanted, Some(n)) == n.less,
{
}

/// A condition on texts asks whether they are the same but for white space around
/// them and the case of their letters; texts are not greater or less.
pub proof fn law_texts_are_compared_as_texts(actual: Seq<char>, wanted: Seq<char>)
    ensures
        graph::condition_holds(Op::Eq, actual, wanted, None) == text::same_letters(
            text::trim(actual),
            text::trim(wanted),
        ),
        graph::condition_holds(Op::Ne, actual, wanted, None) == !graph::condition_holds(
            Op::Eq,
            actual,
            wanted,
            None,
        ),
        !graph::condition_holds(Op::Gt, actual, wanted, None),
        !graph::condition_holds(Op::Lt, actual, wanted, None),
{
}

/// The value that a condition is about is the one that stands under its field.
pub proof fn law_a_field_is_looked_up(results: Seq<(Seq<char>, Seq<char>)>, field: Seq<char>, i: int)
    requires
        0 <= i < results.len(),
        results[i].0 == field,
        forall|j: int| 0 <= j < i ==> (#[trigger] results[j]).0 != field,
    ensures
        engine::field_in(results, field) == results[i].1,
{
    table::law_the_first_entry_is_found(results, field, i);
}

/// A field that a document does not have is empty.
pub proof fn law_a_field_that_is_not_there_is_empty(results: Seq<(Seq<char>, Seq<char>)>, field: Seq<char>)
    requires
        forall|j: int| 0 <= j < results.len() ==> (#[trigger] results[j]).0 != field,
    ensures
        engine::field_in(results, field).len() == 0,
{
    table::law_what_is_not_there_is_not_found(results, field);
    reveal_strlit("");
}

} // verus!
