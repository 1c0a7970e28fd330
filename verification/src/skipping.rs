//! What skipping a node comes to: nothing is touched but what it strands, and
//! nothing is left stranded.

use vstd::prelude::*;
use crate::cycles;
use crate::engine;
use crate::engine::Ways;
use crate::graph;
use crate::run;
use crate::run::NodeState;
use crate::table;

verus! {

/// Whether the only thing that happened between two states is that idle nodes
/// were skipped.
pub open spec fn is_later(a: Seq<(Seq<char>, NodeState)>, b: Seq<(Seq<char>, NodeState)>) -> bool {
    forall|n: Seq<char>|
        #![trigger run::state_of(b, n)]
        run::state_of(b, n) == run::state_of(a, n) || (run::state_of(a, n) == NodeState::Idle && run::state_of(b, n)
            == NodeState::Skipped)
}

/// Whether what happened between two states happened only to nodes that are cut
/// off now.
pub open spec fn is_due(
    w: Ways,
    a: Seq<(Seq<char>, NodeState)>,
    b: Seq<(Seq<char>, NodeState)>,
) -> bool {
    forall|n: Seq<char>|
        #![trigger run::state_of(b, n)]
        run::state_of(b, n) != run::state_of(a, n) ==> engine::is_cut_off(w, b, n)
}

/// How many of the first `n` connections lead to an idle node.
spec fn open_ends(w: Ways, states: Seq<(Seq<char>, NodeState)>, n: nat) -> nat
    decreases n,
{
    if n == 0 {
        0
    } else {
        open_ends(w, states, (n - 1) as nat) + if run::state_of(states, w.links[n - 1].1) == NodeState::Idle {
            1nat
        } else {
            0
        }
    }
}

proof fn lemma_state_put(states: Seq<(Seq<char>, NodeState)>, id: Seq<char>, state: NodeState)
    ensures
        forall|n: Seq<char>|
            #![trigger run::state_of(table::put(states, id, state), n)]
            run::state_of(table::put(states, id, state), n) == if n == id {
                state
            } else {
                run::state_of(states, n)
            },
{
    assert forall|n: Seq<char>|
        #![trigger run::state_of(table::put(states, id, state), n)]
        run::state_of(table::put(states, id, state), n) == if n == id {
            state
        } else {
            run::state_of(states, n)
        } by {
        if n == id {
            table::lemma_lookup_put_same(states, id, state);
        } else {
            table::lemma_lookup_put_other(states, id, state, n);
        }
    }
}

proof fn lemma_open_ends(w: Ways, a: Seq<(Seq<char>, NodeState)>, b: Seq<(Seq<char>, NodeState)>, n: nat)
    requires
        is_later(a, b),
        n <= w.links.len(),
    ensures
        open_ends(w, b, n) <= open_ends(w, a, n) <= n,
    decreases n,
{
    if n > 0 {
        lemma_open_ends(w, a, b, (n - 1) as nat);
        assert(run::state_of(b, w.links[n - 1].1) == run::state_of(a, w.links[n - 1].1) || run::state_of(
            b,
            w.links[n - 1].1,
        ) == NodeState::Skipped);
    }
}

proof fn lemma_fewer_open_ends(
    w: Ways,
    a: Seq<(Seq<char>, NodeState)>,
    b: Seq<(Seq<char>, NodeState)>,
    n: nat,
    i: int,
)
    requires
        is_later(a, b),
        0 <= i < n <= w.links.len(),
        run::state_of(a, w.links[i].1) == NodeState::Idle,
        run::state_of(b, w.links[i].1) != NodeState::Idle,
    ensures
        open_ends(w, b, n) < open_ends(w, a, n),
    decreases n,
{
    lemma_open_ends(w, a, b, (n - 1) as nat);
    assert(run::state_of(b, w.links[n - 1].1) == run::state_of(a, w.links[n - 1].1) || run::state_of(
        b,
        w.links[n - 1].1,
    ) == NodeState::Skipped);
    if i < n - 1 {
        lemma_fewer_open_ends(w, a, b, (n - 1) as nat, i);
    }
}

proof fn lemma_no_open_ends(w: Ways, states: Seq<(Seq<char>, NodeState)>, n: nat, i: int)
    requires
        0 <= i < n <= w.links.len(),
        open_ends(w, states, n) == 0,
    ensures
        run::state_of(states, w.links[i].1) != NodeState::Idle,
    decreases n,
{
    if i < n - 1 {
        lemma_no_open_ends(w, states, (n - 1) as nat, i);
    }
}

proof fn lemma_later_trans(
    a: Seq<(Seq<char>, NodeState)>,
    b: Seq<(Seq<char>, NodeState)>,
    c: Seq<(Seq<char>, NodeState)>,
)
    requires
        is_later(a, b),
        is_later(b, c),
    ensures
        is_later(a, c),
{
    assert forall|n: Seq<char>|
        #![trigger run::state_of(c, n)]
        run::state_of(c, n) == run::state_of(a, n) || (run::state_of(a, n) == NodeState::Idle && run::state_of(c, n)
            == NodeState::Skipped) by {
        assert(run::state_of(b, n) == run::state_of(b, n));
    }
}

/// What was cut off stays cut off.
proof fn lemma_cut_off_stays(
    w: Ways,
    a: Seq<(Seq<char>, NodeState)>,
    b: Seq<(Seq<char>, NodeState)>,
    id: Seq<char>,
)
    requires
        is_later(a, b),
        engine::is_cut_off(w, a, id),
    ensures
        engine::is_cut_off(w, b, id),
{
    let from = engine::forward_in(w, id);
    assert forall|i: int| 0 <= i < from.len() implies run::state_of(b, #[trigger] from[i])
        == NodeState::Skipped by {
        assert(run::state_of(a, from[i]) == NodeState::Skipped);
    }
}

proof fn lemma_due_trans(
    w: Ways,
    a: Seq<(Seq<char>, NodeState)>,
    b: Seq<(Seq<char>, NodeState)>,
    c: Seq<(Seq<char>, NodeState)>,
)
    requires
        is_later(b, c),
        is_due(w, a, b),
        is_due(w, b, c),
    ensures
        is_due(w, a, c),
{
    assert forall|n: Seq<char>|
        #![trigger run::state_of(c, n)]
        run::state_of(c, n) != run::state_of(a, n) implies engine::is_cut_off(w, c, n) by {
        if run::state_of(c, n) == run::state_of(b, n) {
            assert(engine::is_cut_off(w, b, n));
            lemma_cut_off_stays(w, b, c, n);
        }
    }
}

/// Where a way in comes from, a connection leads.
proof fn lemma_ways_in(w: Ways, id: Seq<char>, n: nat, i: int) -> (k: int)
    requires
        n <= w.links.len(),
        0 <= i < engine::ways_in(w, id, n).len(),
    ensures
        0 <= k < n,
        w.links[k] == (engine::ways_in(w, id, n)[i], id),
        engine::leads_on(w, w.links[k]),
    decreases n,
{
    let before = engine::ways_in(w, id, (n - 1) as nat);
    if i < before.len() {
        lemma_ways_in(w, id, (n - 1) as nat, i)
    } else {
        n - 1
    }
}

/// Whether nothing is stranded between two states that was not before, and none
/// of the names is.
pub open spec fn strands_no_more(
    w: Ways,
    a: Seq<(Seq<char>, NodeState)>,
    b: Seq<(Seq<char>, NodeState)>,
    freed: Seq<Seq<char>>,
) -> bool {
    forall|s: Seq<char>|
        #![trigger engine::is_stranded(w, b, s)]
        engine::is_stranded(w, b, s) ==> engine::is_stranded(w, a, s) && !freed.contains(s)
}

proof fn lemma_skipped(w: Ways, states: Seq<(Seq<char>, NodeState)>, id: Seq<char>, depth: nat)
    requires
        open_ends(w, table::put(states, id, NodeState::Skipped), w.links.len()) <= depth,
    ensures
        ({
            let marked = table::put(states, id, NodeState::Skipped);
            let after = engine::skipped(w, states, id, depth);
            &&& is_later(marked, after)
            &&& is_due(w, marked, after)
            &&& strands_no_more(w, marked, after, graph::targets(w.links, id))
        }),
    decreases depth, 0nat,
{
    let marked = table::put(states, id, NodeState::Skipped);
    let next = graph::targets(w.links, id);
    assert forall|s: Seq<char>| #[trigger] next.contains(s) implies exists|i: int|
        0 <= i < w.links.len() && (#[trigger] w.links[i]).1 == s by {
        graph::lemma_targets(w.links, id, s);
        let i = choose|i: int| 0 <= i < w.links.len() && w.links[i] == (id, s);
        assert(w.links[i].1 == s);
    }
    if depth == 0 {
        assert forall|s: Seq<char>|
            #![trigger engine::is_stranded(w, marked, s)]
            engine::is_stranded(w, marked, s) implies !next.contains(s) by {
            if next.contains(s) {
                let i = choose|i: int| 0 <= i < w.links.len() && (#[trigger] w.links[i]).1 == s;
                lemma_no_open_ends(w, marked, w.links.len(), i);
            }
        }
    } else {
        lemma_skipped_on(w, marked, next, (depth - 1) as nat);
    }
}

proof fn lemma_skipped_on(w: Ways, states: Seq<(Seq<char>, NodeState)>, next: Seq<Seq<char>>, depth: nat)
    requires
        open_ends(w, states, w.links.len()) <= depth + 1,
        forall|s: Seq<char>| #[trigger]
            next.contains(s) ==> exists|i: int| 0 <= i < w.links.len() && (#[trigger] w.links[i]).1 == s,
    ensures
        ({
            let after = engine::skipped_on(w, states, next, depth);
            &&& is_later(states, after)
            &&& is_due(w, states, after)
            &&& strands_no_more(w, states, after, next)
        }),
    decreases depth, next.len() + 1,
{
    if next.len() > 0 {
        let rest = next.drop_last();
        let s = next.last();
        let before = engine::skipped_on(w, states, rest, depth);
        assert forall|t: Seq<char>| #[trigger] rest.contains(t) implies exists|i: int|
            0 <= i < w.links.len() && (#[trigger] w.links[i]).1 == t by {
            let j = choose|j: int| 0 <= j < rest.len() && rest[j] == t;
            assert(next[j] == t);
            assert(next.contains(t));
        }
        lemma_skipped_on(w, states, rest, depth);
        assert forall|t: Seq<char>| next.contains(t) implies t == s || rest.contains(t) by {
            let j = choose|j: int| 0 <= j < next.len() && next[j] == t;
            if j < rest.len() {
                assert(rest[j] == t);
            }
        }
        let after = engine::skipped_on(w, states, next, depth);
        if engine::is_stranded(w, before, s) {
            let marked = table::put(before, s, NodeState::Skipped);
            lemma_state_put(before, s, NodeState::Skipped);
            assert(next[next.len() - 1] == s);
            assert(next.contains(s));
            let i = choose|i: int| 0 <= i < w.links.len() && (#[trigger] w.links[i]).1 == s;
            assert(is_later(before, marked));
            lemma_open_ends(w, states, before, w.links.len());
            lemma_fewer_open_ends(w, before, marked, w.links.len(), i);
            lemma_skipped(w, before, s, depth);
            lemma_later_trans(before, marked, after);
            lemma_later_trans(states, before, after);
            assert(is_due(w, before, marked)) by {
                assert forall|n: Seq<char>|
                    #![trigger run::state_of(marked, n)]
                    run::state_of(marked, n) != run::state_of(before, n) implies engine::is_cut_off(w, marked, n) by {
                    assert(n == s);
                    lemma_cut_off_stays(w, before, marked, s);
                }
            }
            lemma_due_trans(w, before, marked, after);
            lemma_due_trans(w, states, before, after);
            assert forall|t: Seq<char>|
                #![trigger engine::is_stranded(w, after, t)]
                engine::is_stranded(w, after, t) implies engine::is_stranded(w, states, t) && !next.contains(t) by {
                assert(engine::is_stranded(w, marked, t));
                lemma_stranded_by_one(w, before, s, t);
                assert(run::state_of(marked, s) == NodeState::Skipped);
                assert(t != s);
            }
        }
    }
}

/// A node that a skipped one strands is one that it leads to.
proof fn lemma_stranded_by_one(w: Ways, states: Seq<(Seq<char>, NodeState)>, id: Seq<char>, s: Seq<char>)
    requires
        engine::is_stranded(w, table::put(states, id, NodeState::Skipped), s),
    ensures
        engine::is_stranded(w, states, s) || graph::targets(w.links, id).contains(s),
        s != id,
{
    let marked = table::put(states, id, NodeState::Skipped);
    lemma_state_put(states, id, NodeState::Skipped);
    assert(run::state_of(marked, s) == NodeState::Idle);
    let from = engine::forward_in(w, s);
    if from.contains(id) {
        let i = choose|i: int| 0 <= i < from.len() && from[i] == id;
        let k = lemma_ways_in(w, s, w.links.len(), i);
        assert(w.links.contains((id, s)));
        graph::lemma_targets(w.links, id, s);
    } else {
        assert forall|i: int| 0 <= i < from.len() implies run::state_of(states, #[trigger] from[i])
            == NodeState::Skipped by {
            assert(from[i] != id);
            assert(run::state_of(marked, from[i]) == NodeState::Skipped);
        }
    }
}

/// Skipping a node skips, besides it, only idle nodes whose every live way in
/// comes from skipped nodes, and leaves none of those: a node that is idle and
/// cut off afterwards was so before, and is not one that the skipped node leads
/// to.
pub proof fn law_skipping_strands_nothing(w: Ways, states: Seq<(Seq<char>, NodeState)>, id: Seq<char>)
    ensures
        ({
            let after = engine::skipped(w, states, id, w.links.len());
            &&& run::state_of(after, id) == NodeState::Skipped
            &&& forall|n: Seq<char>|
                #![trigger run::state_of(after, n)]
                n != id && run::state_of(after, n) != run::state_of(states, n) ==> run::state_of(states, n)
                    == NodeState::Idle && run::state_of(after, n) == NodeState::Skipped && engine::is_cut_off(
                    w,
                    after,
                    n,
                )
            &&& strands_no_more(w, states, after, graph::targets(w.links, id))
        }),
{
    let marked = table::put(states, id, NodeState::Skipped);
    let after = engine::skipped(w, states, id, w.links.len());
    lemma_state_put(states, id, NodeState::Skipped);
    assert(is_later(marked, marked));
    lemma_open_ends(w, marked, marked, w.links.len());
    lemma_skipped(w, states, id, w.links.len());
    assert(run::state_of(marked, id) == NodeState::Skipped);
    assert(run::state_of(after, id) == NodeState::Skipped);
    assert forall|n: Seq<char>|
        #![trigger run::state_of(after, n)]
        n != id && run::state_of(after, n) != run::state_of(states, n) implies run::state_of(states, n)
        == NodeState::Idle && run::state_of(after, n) == NodeState::Skipped && engine::is_cut_off(w, after, n) by {
        assert(run::state_of(marked, n) == run::state_of(states, n));
    }
    assert forall|s: Seq<char>|
        #![trigger engine::is_stranded(w, after, s)]
        engine::is_stranded(w, after, s) implies engine::is_stranded(w, states, s) && !graph::targets(
        w.links,
        id,
    ).contains(s) by {
        assert(engine::is_stranded(w, marked, s));
        lemma_stranded_by_one(w, states, id, s);
    }
}

/// A node is taken only when all it waits for is over: while one that leads on
/// to it is not done and not skipped — failed, say — it is not ready, unless it
/// is an input.
pub proof fn law_a_node_waits_for_what_leads_to_it(
    w: Ways,
    states: Seq<(Seq<char>, NodeState)>,
    node: graph::Node,
    i: int,
)
    requires
        node.kind != graph::NodeKind::Input,
        0 <= i < engine::forward_in(w, node.id@).len(),
        !engine::is_over(states, engine::forward_in(w, node.id@)[i]),
    ensures
        !engine::is_ready(w, states, node),
{
}

/// A node that was taken is not taken again: only idle nodes are.
pub proof fn law_a_node_is_taken_once(w: Ways, states: Seq<(Seq<char>, NodeState)>, nodes: Seq<graph::Node>)
    ensures
        engine::first_ready(w, states, nodes) matches Some(id) ==> run::state_of(states, id) == NodeState::Idle
            && graph::ids(nodes).contains(id),
    decreases nodes.len(),
{
    if nodes.len() > 0 && !engine::is_ready(w, states, nodes[0]) {
        law_a_node_is_taken_once(w, states, nodes.drop_first());
        if let Some(id) = engine::first_ready(w, states, nodes) {
            let names = graph::ids(nodes.drop_first());
            let i = choose|i: int| 0 <= i < names.len() && names[i] == id;
            assert(graph::ids(nodes)[i + 1] == id);
        }
    } else if nodes.len() > 0 {
        assert(graph::ids(nodes)[0] == nodes[0].id@);
    }
}

/// A branch declines every way it does not take, and no other: a connection is
/// declined afterwards where it was before, or where it leads from the branch to
/// elsewhere than the node chosen.
pub proof fn law_a_branch_declines_what_it_does_not_take(
    w: Ways,
    states: Seq<(Seq<char>, NodeState)>,
    id: Seq<char>,
    chosen: Seq<char>,
    n: nat,
    link: (Seq<char>, Seq<char>),
)
    requires
        n <= w.links.len(),
    ensures
        engine::declining(w, states, id, chosen, n).0.links == w.links,
        engine::declining(w, states, id, chosen, n).0.back == w.back,
        engine::declining(w, states, id, chosen, n).0.declined.contains(link) == (w.declined.contains(link) || (
        link.0 == id && link.1 != chosen && w.links.take(n as int).contains(link))),
    decreases n,
{
    if n > 0 {
        law_a_branch_declines_what_it_does_not_take(w, states, id, chosen, (n - 1) as nat, link);
        let (w1, s1) = engine::declining(w, states, id, chosen, (n - 1) as nat);
        let last = w.links[n - 1];
        cycles::lemma_with_link(w1.declined, last, link);
        let head = w.links.take(n - 1);
        let whole = w.links.take(n as int);
        if whole.contains(link) && !head.contains(link) {
            let i = choose|i: int| 0 <= i < whole.len() && whole[i] == link;
            if i < n - 1 {
                assert(head[i] == link);
            }
            assert(link == last);
        }
        if head.contains(link) {
            let i = choose|i: int| 0 <= i < head.len() && head[i] == link;
            assert(whole[i] == link);
        }
        if link == last {
            assert(whole[n - 1] == link);
        }
    }
}

/// The way that a branch takes stays open.
pub proof fn law_the_way_taken_stays_open(
    w: Ways,
    states: Seq<(Seq<char>, NodeState)>,
    id: Seq<char>,
    chosen: Seq<char>,
)
    ensures
        engine::leads_on(w, (id, chosen)) == engine::leads_on(
            engine::declining(w, states, id, chosen, w.links.len()).0,
            (id, chosen),
        ),
{
    law_a_branch_declines_what_it_does_not_take(w, states, id, chosen, w.links.len(), (id, chosen));
}

/// Whether some way that leads on to a node comes from one that was not skipped.
pub open spec fn has_live_way(w: Ways, states: Seq<(Seq<char>, NodeState)>, id: Seq<char>) -> bool {
    let from = engine::forward_in(w, id);
    exists|i: int| 0 <= i < from.len() && run::state_of(states, #[trigger] from[i]) != NodeState::Skipped
}

/// A connection that leads on is a way in.
proof fn lemma_way_in(w: Ways, id: Seq<char>, n: nat, k: int) -> (i: int)
    requires
        0 <= k < n <= w.links.len(),
        w.links[k].1 == id,
        engine::leads_on(w, w.links[k]),
    ensures
        0 <= i < engine::ways_in(w, id, n).len(),
        engine::ways_in(w, id, n)[i] == w.links[k].0,
    decreases n,
{
    if k == n - 1 {
        engine::ways_in(w, id, n).len() - 1
    } else {
        lemma_way_in(w, id, (n - 1) as nat, k)
    }
}

/// A way into one node that is declined is none into another.
proof fn lemma_ways_in_elsewhere(a: Ways, b: Ways, link: (Seq<char>, Seq<char>), id: Seq<char>, n: nat)
    requires
        a.links == b.links,
        a.back == b.back,
        b.declined == cycles::with_link(a.declined, link),
        link.1 != id,
        n <= a.links.len(),
    ensures
        engine::ways_in(a, id, n) == engine::ways_in(b, id, n),
    decreases n,
{
    if n > 0 {
        lemma_ways_in_elsewhere(a, b, link, id, (n - 1) as nat);
        cycles::lemma_with_link(a.declined, link, a.links[n - 1]);
    }
}

/// What had no live way in gets none by declining and skipping.
proof fn lemma_no_live_way_stays(
    a: Ways,
    b: Ways,
    s: Seq<(Seq<char>, NodeState)>,
    t: Seq<(Seq<char>, NodeState)>,
    link: (Seq<char>, Seq<char>),
    id: Seq<char>,
)
    requires
        a.links == b.links,
        a.back == b.back,
        b.declined == cycles::with_link(a.declined, link),
        is_later(s, t),
        has_live_way(b, t, id),
    ensures
        has_live_way(a, s, id),
{
    let from = engine::forward_in(b, id);
    let i = choose|i: int| 0 <= i < from.len() && run::state_of(t, #[trigger] from[i]) != NodeState::Skipped;
    let k = lemma_ways_in(b, id, b.links.len(), i);
    cycles::lemma_with_link(a.declined, link, b.links[k]);
    let j = lemma_way_in(a, id, a.links.len(), k);
    assert(engine::forward_in(a, id)[j] == from[i]);
    assert(run::state_of(t, from[i]) == run::state_of(s, from[i]));
}

proof fn lemma_declining(
    w: Ways,
    states: Seq<(Seq<char>, NodeState)>,
    id: Seq<char>,
    chosen: Seq<char>,
    n: nat,
)
    requires
        n <= w.links.len(),
    ensures
        ({
            let (after, s) = engine::declining(w, states, id, chosen, n);
            &&& after.links == w.links
            &&& after.back == w.back
            &&& is_later(states, s)
            &&& forall|m: Seq<char>|
                #![trigger run::state_of(s, m)]
                run::state_of(s, m) != run::state_of(states, m) ==> !has_live_way(after, s, m)
            &&& forall|k: int|
                #![trigger w.links[k]]
                0 <= k < n && w.links[k].0 == id && w.links[k].1 != chosen && run::state_of(s, w.links[k].1)
                    == NodeState::Idle ==> has_live_way(after, s, w.links[k].1)
            &&& forall|m: Seq<char>|
                #![trigger engine::is_stranded(after, s, m)]
                engine::is_stranded(after, s, m) ==> engine::is_stranded(w, states, m)
        }),
    decreases n,
{
    if n > 0 {
        lemma_declining(w, states, id, chosen, (n - 1) as nat);
        let (w1, s1) = engine::declining(w, states, id, chosen, (n - 1) as nat);
        let (w2, s2) = engine::declining(w, states, id, chosen, n);
        let link = w.links[n - 1];
        if link.0 == id && link.1 != chosen {
            let u = link.1;
            let cut = run::state_of(s1, u) == NodeState::Idle && (engine::forward_in(w2, u).len() == 0
                || engine::is_cut_off(w2, s1, u));
            if cut {
                assert(s2 == engine::skipped(w2, s1, u, w.links.len()));
                law_skipping_strands_nothing(w2, s1, u);
            }
            assert(is_later(s1, s2)) by {
                assert forall|m: Seq<char>|
                    #![trigger run::state_of(s2, m)]
                    run::state_of(s2, m) == run::state_of(s1, m) || (run::state_of(s1, m) == NodeState::Idle
                        && run::state_of(s2, m) == NodeState::Skipped) by {}
            }
            lemma_later_trans(states, s1, s2);
            assert forall|m: Seq<char>|
                #![trigger run::state_of(s2, m)]
                run::state_of(s2, m) != run::state_of(states, m) implies !has_live_way(w2, s2, m) by {
                if has_live_way(w2, s2, m) {
                    lemma_no_live_way_stays(w1, w2, s1, s2, link, m);
                    assert(run::state_of(s1, m) == run::state_of(states, m));
                    let from = engine::forward_in(w2, m);
                    let i = choose|i: int|
                        0 <= i < from.len() && run::state_of(s2, #[trigger] from[i]) != NodeState::Skipped;
                    assert(run::state_of(s1, from[i]) != NodeState::Skipped);
                    assert(!engine::is_cut_off(w2, s1, m));
                    assert(!engine::is_cut_off(w2, s2, m));
                }
            }
            assert forall|m: Seq<char>|
                #![trigger engine::is_stranded(w2, s2, m)]
                engine::is_stranded(w2, s2, m) implies engine::is_stranded(w1, s1, m) && m != u by {
                if cut {
                    assert(engine::is_stranded(w2, s1, m));
                    assert(run::state_of(s2, u) == NodeState::Skipped);
                }
                assert(m != u);
                lemma_ways_in_elsewhere(w1, w2, link, m, w.links.len());
            }
            assert forall|k: int|
                #![trigger w.links[k]]
                0 <= k < n && w.links[k].0 == id && w.links[k].1 != chosen && run::state_of(s2, w.links[k].1)
                    == NodeState::Idle implies has_live_way(w2, s2, w.links[k].1) by {
                let t = w.links[k].1;
                assert(run::state_of(s1, t) == NodeState::Idle);
                if t == u {
                    assert(!cut);
                } else {
                    assert(has_live_way(w1, s1, t));
                    lemma_ways_in_elsewhere(w1, w2, link, t, w.links.len());
                }
                let from = engine::forward_in(w2, t);
                assert(from.len() > 0);
                assert(!engine::is_stranded(w2, s2, t)) by {
                    if engine::is_stranded(w2, s2, t) {
                        assert(engine::is_stranded(w1, s1, t));
                        assert(t != u);
                    }
                }
            }
        }
    }
}

/// A branch leaves none of the nodes that it does not go to waiting for what
/// cannot come: each that is still idle has a way in from a node that was not
/// skipped, whatever the order of the edges. It strands no other node either, and
/// it skips only nodes that were idle and have no such way left.
pub proof fn law_declining_strands_nothing(
    w: Ways,
    states: Seq<(Seq<char>, NodeState)>,
    id: Seq<char>,
    chosen: Seq<char>,
)
    ensures
        ({
            let (after, s) = engine::declining(w, states, id, chosen, w.links.len());
            &&& forall|t: Seq<char>|
                #![trigger w.links.contains((id, t))]
                w.links.contains((id, t)) && t != chosen && run::state_of(s, t) == NodeState::Idle ==> has_live_way(
                    after,
                    s,
                    t,
                )
            &&& forall|m: Seq<char>|
                #![trigger engine::is_stranded(after, s, m)]
                engine::is_stranded(after, s, m) ==> engine::is_stranded(w, states, m)
            &&& forall|m: Seq<char>|
                #![trigger run::state_of(s, m)]
                run::state_of(s, m) != run::state_of(states, m) ==> run::state_of(states, m) == NodeState::Idle
                    && run::state_of(s, m) == NodeState::Skipped && !has_live_way(after, s, m)
        }),
{
    lemma_declining(w, states, id, chosen, w.links.len());
    let (after, s) = engine::declining(w, states, id, chosen, w.links.len());
    assert forall|t: Seq<char>|
        #![trigger w.links.contains((id, t))]
        w.links.contains((id, t)) && t != chosen && run::state_of(s, t) == NodeState::Idle implies has_live_way(
        after,
        s,
        t,
    ) by {
        let k = choose|k: int| 0 <= k < w.links.len() && w.links[k] == (id, t);
        assert(w.links[k].1 == t);
    }
}

/// The node that a branch goes to keeps its state: one that is idle, where the way
/// there was open and the branch itself is neither idle nor skipped, and one that
/// is not idle in any case.
pub proof fn law_the_node_chosen_keeps_its_state(
    w: Ways,
    states: Seq<(Seq<char>, NodeState)>,
    id: Seq<char>,
    chosen: Seq<char>,
)
    requires
        run::state_of(states, chosen) == NodeState::Idle ==> {
            &&& w.links.contains((id, chosen))
            &&& engine::leads_on(w, (id, chosen))
            &&& run::state_of(states, id) != NodeState::Idle
            &&& run::state_of(states, id) != NodeState::Skipped
        },
    ensures
        run::state_of(engine::declining(w, states, id, chosen, w.links.len()).1, chosen) == run::state_of(
            states,
            chosen,
        ),
{
    lemma_declining(w, states, id, chosen, w.links.len());
    law_the_way_taken_stays_open(w, states, id, chosen);
    let (after, s) = engine::declining(w, states, id, chosen, w.links.len());
    if run::state_of(states, chosen) == NodeState::Idle {
        let k = choose|k: int| 0 <= k < w.links.len() && w.links[k] == (id, chosen);
        let i = lemma_way_in(after, chosen, after.links.len(), k);
        assert(run::state_of(s, id) == run::state_of(states, id));
        assert(engine::forward_in(after, chosen)[i] == id);
        assert(has_live_way(after, s, chosen));
    }
}

/// Whether the connection in place `k` leads on to a node: it ends there, closes no
/// cycle, and no branch declined it.
pub open spec fn brings_to(w: Ways, id: Seq<char>, k: int) -> bool {
    &&& 0 <= k < w.links.len()
    &&& w.links[k].1 == id
    &&& !w.back.contains(w.links[k])
    &&& !w.declined.contains(w.links[k])
}

/// Whether a node can be taken: nothing has been done about it, and it is an input,
/// or some connection leads on to it and every one that does comes from a node that
/// is done or skipped.
pub open spec fn can_be_taken(w: Ways, states: Seq<(Seq<char>, NodeState)>, node: graph::Node) -> bool {
    &&& run::state_of(states, node.id@) == NodeState::Idle
    &&& node.kind == graph::NodeKind::Input || {
        &&& exists|k: int| #[trigger] brings_to(w, node.id@, k)
        &&& forall|k: int| #[trigger]
            brings_to(w, node.id@, k) ==> run::state_of(states, w.links[k].0) == NodeState::Done || run::state_of(
                states,
                w.links[k].0,
            ) == NodeState::Skipped
    }
}

proof fn lemma_can_be_taken(w: Ways, states: Seq<(Seq<char>, NodeState)>, node: graph::Node)
    ensures
        engine::is_ready(w, states, node) == can_be_taken(w, states, node),
{
    let id = node.id@;
    let from = engine::forward_in(w, id);
    if engine::is_ready(w, states, node) && node.kind != graph::NodeKind::Input {
        let k = lemma_ways_in(w, id, w.links.len(), 0);
        assert(brings_to(w, id, k));
        assert forall|k: int| #[trigger] brings_to(w, id, k) implies run::state_of(states, w.links[k].0)
            == NodeState::Done || run::state_of(states, w.links[k].0) == NodeState::Skipped by {
            let i = lemma_way_in(w, id, w.links.len(), k);
            assert(engine::is_over(states, from[i]));
        }
    }
    if can_be_taken(w, states, node) && node.kind != graph::NodeKind::Input {
        let k = choose|k: int| #[trigger] brings_to(w, id, k);
        let i = lemma_way_in(w, id, w.links.len(), k);
        assert forall|i: int| 0 <= i < from.len() implies engine::is_over(states, #[trigger] from[i]) by {
            let k = lemma_ways_in(w, id, w.links.len(), i);
            assert(brings_to(w, id, k));
        }
    }
}

/// The node that is taken next is the first of the graph that can be.
pub proof fn law_the_first_that_can_be_is_taken(
    w: Ways,
    states: Seq<(Seq<char>, NodeState)>,
    nodes: Seq<graph::Node>,
    k: int,
)
    requires
        0 <= k < nodes.len(),
        can_be_taken(w, states, nodes[k]),
        forall|j: int| 0 <= j < k ==> !can_be_taken(w, states, #[trigger] nodes[j]),
    ensures
        engine::first_ready(w, states, nodes) == Some(nodes[k].id@),
    decreases nodes.len(),
{
    lemma_can_be_taken(w, states, nodes[0]);
    if k > 0 {
        let rest = nodes.drop_first();
        assert(!can_be_taken(w, states, nodes[0]));
        assert forall|j: int| 0 <= j < k - 1 implies !can_be_taken(w, states, #[trigger] rest[j]) by {
            assert(rest[j] == nodes[j + 1]);
        }
        assert(rest[k - 1] == nodes[k]);
        law_the_first_that_can_be_is_taken(w, states, rest, k - 1);
    }
}

/// Where no node can be taken, none is.
pub proof fn law_none_is_taken_that_cannot_be(
    w: Ways,
    states: Seq<(Seq<char>, NodeState)>,
    nodes: Seq<graph::Node>,
)
    requires
        forall|j: int| 0 <= j < nodes.len() ==> !can_be_taken(w, states, #[trigger] nodes[j]),
    ensures
        engine::first_ready(w, states, nodes) is None,
    decreases nodes.len(),
{
    if nodes.len() > 0 {
        let rest = nodes.drop_first();
        assert(!can_be_taken(w, states, nodes[0]));
        lemma_can_be_taken(w, states, nodes[0]);
        assert forall|j: int| 0 <= j < rest.len() implies !can_be_taken(w, states, #[trigger] rest[j]) by {
            assert(rest[j] == nodes[j + 1]);
        }
        law_none_is_taken_that_cannot_be(w, states, rest);
    }
}

/// What leads on to a node is what the connections say: it has a live way in exactly
/// where some connection leads on to it from a node that was not skipped.
pub proof fn law_a_live_way_is_a_connection(w: Ways, states: Seq<(Seq<char>, NodeState)>, id: Seq<char>)
    ensures
        has_live_way(w, states, id) == (exists|k: int| #[trigger]
            brings_to(w, id, k) && run::state_of(states, w.links[k].0) != NodeState::Skipped),
{
    let from = engine::forward_in(w, id);
    if has_live_way(w, states, id) {
        let i = choose|i: int| 0 <= i < from.len() && run::state_of(states, #[trigger] from[i]) != NodeState::Skipped;
        let k = lemma_ways_in(w, id, w.links.len(), i);
        assert(brings_to(w, id, k));
    }
    if exists|k: int| #[trigger]
        brings_to(w, id, k) && run::state_of(states, w.links[k].0) != NodeState::Skipped {
        let k = choose|k: int| #[trigger]
            brings_to(w, id, k) && run::state_of(states, w.links[k].0) != NodeState::Skipped;
        let i = lemma_way_in(w, id, w.links.len(), k);
        assert(from[i] == w.links[k].0);
    }
}

} // verus!
