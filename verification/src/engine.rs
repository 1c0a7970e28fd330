//! Walking the graph.
//!
//! Two rules shape this module. A transition is noted *before* it is taken, so
//! a crash re-executes a node rather than losing it — safe only because
//! documents are immutable and attempts are numbered. And ready nodes are taken
//! one at a time: the pipeline is sequential by nature, and a second large model
//! does not fit in this machine's memory anyway.

use vstd::prelude::*;
use crate::agent;
use crate::agent::command_call;
use crate::cycles;
use crate::cycles::add_link;
use crate::dispatcher::{Came, Outcome};
use crate::graph;
use crate::graph::{Edge, Graph, Node, NodeId, NodeKind, Numbers};
use crate::outputs;
use crate::outputs::{can_count, parse_test_output};
use crate::run;
use crate::run::{NodeState, RoleSpec, RunState, TestBaseline};
use crate::sandbox::ToolCall;
use crate::split;
use crate::table;
use crate::table::Table;
use crate::text;
use crate::text::same;

verus! {

/// The connections of a graph: all of them, those that close a cycle, and those
/// that a branch declined.
#[verifier::ext_equal]
pub struct Ways {
    pub links: Seq<(Seq<char>, Seq<char>)>,
    pub back: Seq<(Seq<char>, Seq<char>)>,
    pub declined: Seq<(Seq<char>, Seq<char>)>,
}

/// Whether a connection leads on.
pub open spec fn leads_on(w: Ways, link: (Seq<char>, Seq<char>)) -> bool {
    !w.back.contains(link) && !w.declined.contains(link)
}

/// Where the connections come from that lead on to `id`, among the first `n`.
pub open spec fn ways_in(w: Ways, id: Seq<char>, n: nat) -> Seq<Seq<char>>
    decreases n,
{
    if n == 0 {
        seq![]
    } else {
        let before = ways_in(w, id, (n - 1) as nat);
        let link = w.links[n - 1];
        if link.1 == id && leads_on(w, link) {
            before.push(link.0)
        } else {
            before
        }
    }
}

/// Where the connections come from that lead on to `id`.
pub open spec fn forward_in(w: Ways, id: Seq<char>) -> Seq<Seq<char>> {
    ways_in(w, id, w.links.len())
}

/// Whether a node is over, one way or the other.
pub open spec fn is_over(states: Seq<(Seq<char>, NodeState)>, id: Seq<char>) -> bool {
    run::state_of(states, id) == NodeState::Done || run::state_of(states, id) == NodeState::Skipped
}

/// Whether a node can be taken next: it is idle, and all that it waits for is
/// over. One whose every way in was declined waits for nothing and is not taken.
pub open spec fn is_ready(w: Ways, states: Seq<(Seq<char>, NodeState)>, node: Node) -> bool {
    let from = forward_in(w, node.id@);
    run::state_of(states, node.id@) == NodeState::Idle && (node.kind == NodeKind::Input || (from.len() > 0 && forall|
        i: int,
    |
        0 <= i < from.len() ==> is_over(states, #[trigger] from[i])))
}

/// The first node that can be taken next.
pub open spec fn first_ready(w: Ways, states: Seq<(Seq<char>, NodeState)>, nodes: Seq<Node>) -> Option<Seq<char>>
    decreases nodes.len(),
{
    if nodes.len() == 0 {
        None
    } else if is_ready(w, states, nodes[0]) {
        Some(nodes[0].id@)
    } else {
        first_ready(w, states, nodes.drop_first())
    }
}

/// Whether a node is left with no live way in: there are some, and all of them
/// come from nodes that were skipped.
pub open spec fn is_cut_off(w: Ways, states: Seq<(Seq<char>, NodeState)>, id: Seq<char>) -> bool {
    let from = forward_in(w, id);
    from.len() > 0 && forall|i: int|
        0 <= i < from.len() ==> run::state_of(states, #[trigger] from[i]) == NodeState::Skipped
}

/// Whether a node is stranded: idle, and with no live way in.
pub open spec fn is_stranded(w: Ways, states: Seq<(Seq<char>, NodeState)>, id: Seq<char>) -> bool {
    run::state_of(states, id) == NodeState::Idle && is_cut_off(w, states, id)
}

/// The states after a node was skipped and, transitively, all that this strands.
/// `depth` bounds how far that goes; the bound is never met where it is the
/// number of connections (see [`law_skipping_strands_nothing`]).
pub open spec fn skipped(
    w: Ways,
    states: Seq<(Seq<char>, NodeState)>,
    id: Seq<char>,
    depth: nat,
) -> Seq<(Seq<char>, NodeState)>
    decreases depth, 0nat,
{
    let marked = table::put(states, id, NodeState::Skipped);
    if depth == 0 {
        marked
    } else {
        skipped_on(w, marked, graph::targets(w.links, id), (depth - 1) as nat)
    }
}

/// The states after each of the names was skipped that is stranded when its turn
/// comes.
pub open spec fn skipped_on(
    w: Ways,
    states: Seq<(Seq<char>, NodeState)>,
    next: Seq<Seq<char>>,
    depth: nat,
) -> Seq<(Seq<char>, NodeState)>
    decreases depth, next.len() + 1,
{
    if next.len() == 0 {
        states
    } else {
        let before = skipped_on(w, states, next.drop_last(), depth);
        if is_stranded(w, before, next.last()) {
            skipped(w, before, next.last(), depth)
        } else {
            before
        }
    }
}

/// Walks a graph, with roles and models to do the work.
#[derive(Debug, Clone)]
pub struct Engine {
    pub graph: Graph,
    pub roles: Table<RoleSpec>,
    /// Slot name -> concrete model. Replacing a model is a change here, not in
    /// every role.
    pub slots: Table<String>,
    /// How this project runs its tests. Present means a baseline is taken and
    /// regressions are refused.
    pub test_command: Option<Vec<String>>,
    /// Edges that close a cycle.
    pub back_edges: Vec<(NodeId, NodeId)>,
    /// Edges a Branch declined. Readiness ignores them.
    pub declined: Vec<(NodeId, NodeId)>,
}

fn holds_pair(v: &[(NodeId, NodeId)], from: &str, to: &str) -> (r: bool)
    ensures
        r == cycles::pairs(v@).contains((from@, to@)),
{
    let ghost all = cycles::pairs(v@);
    let mut i: usize = 0;
    while i < v.len()
        invariant
            i <= v.len(),
            all == cycles::pairs(v@),
            forall|j: int| 0 <= j < i ==> all[j] != (from@, to@),
        decreases v.len() - i,
    {
        assert(all[i as int] == (v@[i as int].0@, v@[i as int].1@));
        if same(v[i].0.as_str(), from) && same(v[i].1.as_str(), to) {
            return true;
        }
        i = i + 1;
    }
    assert(all.len() == v@.len());
    false
}

impl Engine {
    /// The connections of its graph.
    pub open spec fn ways(self) -> Ways {
        Ways {
            links: self.graph.links(),
            back: cycles::pairs(self.back_edges@),
            declined: cycles::pairs(self.declined@),
        }
    }

    pub fn new(graph: Graph, roles: Table<RoleSpec>, slots: Table<String>) -> (e: Self)
        ensures
            e.graph == graph,
            e.roles == roles,
            e.slots == slots,
            e.test_command is None,
            e.ways() == (Ways {
                links: graph.links(),
                back: cycles::back_links(graph.links(), graph.ids()),
                declined: seq![],
            }),
    {
        let back_edges = graph.back_edges();
        let e = Engine { graph, roles, slots, test_command: None, back_edges, declined: Vec::new() };
        assert(e.ways().declined =~= seq![]);
        e
    }

    fn forward_predecessors(&self, id: &str) -> (v: Vec<&NodeId>)
        ensures
            graph::named(v@) == forward_in(self.ways(), id@),
    {
        let ghost w = self.ways();
        let mut v: Vec<&NodeId> = Vec::new();
        let mut i: usize = 0;
        assert(graph::named(v@) =~= ways_in(w, id@, 0));
        while i < self.graph.edges.len()
            invariant
                i <= self.graph.edges.len(),
                w == self.ways(),
                w.links.len() == self.graph.edges@.len(),
                graph::named(v@) == ways_in(w, id@, i as nat),
            decreases self.graph.edges.len() - i,
        {
            let e = &self.graph.edges[i];
            assert(w.links[i as int] == (e.from@, e.to@));
            if same(e.to.as_str(), id) && !holds_pair(
                self.back_edges.as_slice(),
                e.from.as_str(),
                e.to.as_str(),
            ) && !holds_pair(self.declined.as_slice(), e.from.as_str(), e.to.as_str()) {
                let ghost before = v@;
                v.push(&e.from);
                assert(graph::named(v@) =~= graph::named(before).push(e.from@));
            }
            i = i + 1;
        }
        v
    }

    fn can_take(&self, run: &RunState, node: &Node) -> (r: bool)
        ensures
            r == is_ready(self.ways(), run.states@, *node),
    {
        if run.state(node.id.as_str()) != NodeState::Idle {
            return false;
        }
        if node.kind == NodeKind::Input {
            return true;
        }
        let from = self.forward_predecessors(node.id.as_str());
        let ghost names = forward_in(self.ways(), node.id@);
        assert(names.len() == from@.len());
        let mut i: usize = 0;
        while i < from.len()
            invariant
                i <= from.len(),
                names == graph::named(from@),
                names == forward_in(self.ways(), node.id@),
                names.len() == from@.len(),
                node.kind != NodeKind::Input,
                forall|j: int| 0 <= j < i ==> is_over(run.states@, #[trigger] names[j]),
            decreases from.len() - i,
        {
            assert(names[i as int] == from@[i as int]@);
            let state = run.state(from[i].as_str());
            if state != NodeState::Done && state != NodeState::Skipped {
                assert(!is_over(run.states@, names[i as int]));
                return false;
            }
            i = i + 1;
        }
        from.len() > 0
    }

    /// The next node to take, where there is one.
    pub fn ready(&self, run: &RunState) -> (r: Option<&NodeId>)
        ensures
            match r {
                Some(id) => first_ready(self.ways(), run.states@, self.graph.nodes@) == Some(id@),
                None => first_ready(self.ways(), run.states@, self.graph.nodes@) is None,
            },
    {
        let ghost all = self.graph.nodes@;
        let mut i: usize = 0;
        assert(all.skip(0) =~= all);
        while i < self.graph.nodes.len()
            invariant
                i <= self.graph.nodes.len(),
                all == self.graph.nodes@,
                first_ready(self.ways(), run.states@, all.skip(i as int)) == first_ready(
                    self.ways(),
                    run.states@,
                    all,
                ),
            decreases self.graph.nodes.len() - i,
        {
            assert(all.skip(i as int)[0] == all[i as int]);
            assert(all.skip(i as int).drop_first() =~= all.skip(i + 1));
            if self.can_take(run, &self.graph.nodes[i]) {
                return Some(&self.graph.nodes[i].id);
            }
            i = i + 1;
        }
        None
    }

    fn cut_off(&self, run: &RunState, id: &str) -> (r: bool)
        ensures
            r == is_cut_off(self.ways(), run.states@, id@),
    {
        let from = self.forward_predecessors(id);
        let ghost names = forward_in(self.ways(), id@);
        assert(names.len() == from@.len());
        let mut i: usize = 0;
        while i < from.len()
            invariant
                i <= from.len(),
                names == graph::named(from@),
                names == forward_in(self.ways(), id@),
                names.len() == from@.len(),
                forall|j: int|
                    0 <= j < i ==> run::state_of(run.states@, #[trigger] names[j]) == NodeState::Skipped,
            decreases from.len() - i,
        {
            assert(names[i as int] == from@[i as int]@);
            if run.state(from[i].as_str()) != NodeState::Skipped {
                assert(run::state_of(run.states@, names[i as int]) != NodeState::Skipped);
                return false;
            }
            i = i + 1;
        }
        from.len() > 0
    }

    /// Marks a node and, transitively, anything left with no live way in.
    fn skip(&self, run: &mut RunState, id: &str, depth: u128)
        ensures
            final(run).states@ == skipped(self.ways(), old(run).states@, id@, depth as nat),
            final(run).is_but_for_states(*old(run)),
            old(run).wf() ==> final(run).wf(),
        decreases depth,
    {
        run.enter(id, NodeState::Skipped);
        if depth == 0 {
            return;
        }
        let ghost w = self.ways();
        let ghost marked = run.states@;
        let next = self.graph.successors(id);
        let ghost names = graph::named(next@);
        let mut i: usize = 0;
        assert(names.take(0) =~= seq![]);
        while i < next.len()
            invariant
                i <= next.len(),
                depth > 0,
                w == self.ways(),
                names == graph::named(next@),
                run.states@ == skipped_on(w, marked, names.take(i as int), (depth - 1) as nat),
                run.is_but_for_states(*old(run)),
                old(run).wf() ==> run.wf(),
            decreases next.len() - i,
        {
            assert(names.take(i + 1).drop_last() =~= names.take(i as int));
            assert(names.take(i + 1).last() == next@[i as int]@);
            let s: &str = next[i].as_str();
            if run.state(s) == NodeState::Idle && self.cut_off(run, s) {
                self.skip(run, s, depth - 1);
            }
            i = i + 1;
        }
        assert(names.take(i as int) =~= names);
    }

    /// Marks a node as skipped and, transitively, anything left with no live way
    /// in.
    pub fn skip_from(&self, run: &mut RunState, id: &str)
        ensures
            final(run).states@ == skipped(self.ways(), old(run).states@, id@, self.ways().links.len()),
            final(run).is_but_for_states(*old(run)),
            old(run).wf() ==> final(run).wf(),
    {
        assert(self.ways().links.len() == self.graph.edges@.len());
        self.skip(run, id, self.graph.edges.len() as u128);
    }
}

// ------------------------------------------------------------------------- branching

/// Whether a document of that name was produced.
pub open spec fn is_produced(documents: Seq<(Seq<char>, Seq<char>)>, file: Seq<char>) -> bool {
    exists|i: int| 0 <= i < documents.len() && (#[trigger] documents[i]).1 == file
}

/// Whether an edge from `id` waits for a document that was produced.
pub open spec fn asks(edge: Edge, id: Seq<char>, documents: Seq<(Seq<char>, Seq<char>)>) -> bool {
    edge.from@ == id && (edge.when matches Some(c) && is_produced(documents, c.document@))
}

/// The first edge, from place `from` on, whose condition has to be looked at.
pub open spec fn next_asking(
    edges: Seq<Edge>,
    id: Seq<char>,
    documents: Seq<(Seq<char>, Seq<char>)>,
    from: int,
) -> Option<int>
    decreases edges.len() - from,
{
    if from < 0 || from >= edges.len() {
        None
    } else if asks(edges[from], id, documents) {
        Some(from)
    } else {
        next_asking(edges, id, documents, from + 1)
    }
}

/// Where the first edge from `id` leads that has no condition, from place `from`
/// on.
pub open spec fn fallback(edges: Seq<Edge>, id: Seq<char>, from: int) -> Option<Seq<char>>
    decreases edges.len() - from,
{
    if from < 0 || from >= edges.len() {
        None
    } else if edges[from].from@ == id && edges[from].when is None {
        Some(edges[from].to@)
    } else {
        fallback(edges, id, from + 1)
    }
}

/// What a branch does next.
#[derive(Debug, Clone, PartialEq, Eq)]
pub enum Route {
    /// Read the document, and hand the field of it on.
    Read { edge: usize, file: String },
    /// Go there.
    Take { to: NodeId, note: String },
    Stuck(String),
}

/// What a branch does next, as texts.
pub enum Way {
    Read { edge: int, file: Seq<char> },
    Take { to: Seq<char>, note: Seq<char> },
    Stuck(Seq<char>),
}

impl View for Route {
    type V = Way;

    open spec fn view(&self) -> Way {
        match self {
            Route::Read { edge, file } => Way::Read { edge: *edge as int, file: file@ },
            Route::Take { to, note } => Way::Take { to: to@, note: note@ },
            Route::Stuck(why) => Way::Stuck(why@),
        }
    }
}

/// What a branch does next, where the conditions before place `from` did not
/// hold: look at the next one, or take the fallback.
pub open spec fn routed(
    edges: Seq<Edge>,
    id: Seq<char>,
    documents: Seq<(Seq<char>, Seq<char>)>,
    from: int,
) -> Way {
    match next_asking(edges, id, documents, from) {
        Some(i) => Way::Read { edge: i, file: edges[i].when->0.document@ },
        None => match fallback(edges, id, 0) {
            Some(to) => Way::Take { to, note: "branch: no condition held, taking the fallback -> "@ + to },
            None => Way::Stuck("branch `"@ + id + "` has no edge to take and no fallback"@),
        },
    }
}

/// What a branch does once the field is known that the condition of an edge is
/// about.
pub open spec fn routed_by(
    edges: Seq<Edge>,
    id: Seq<char>,
    documents: Seq<(Seq<char>, Seq<char>)>,
    edge: int,
    actual: Seq<char>,
    numbers: Option<Numbers>,
) -> Way {
    let c = edges[edge].when->0;
    if graph::condition_holds(c.op, actual, c.value@, numbers) {
        Way::Take {
            to: edges[edge].to@,
            note: "branch: "@ + c.document@ + "."@ + c.field@ + " = "@ + actual + " -> "@ + edges[edge].to@,
        }
    } else {
        routed(edges, id, documents, edge + 1)
    }
}

/// The value of the field that a condition is about. A field that is not there
/// is empty.
pub open spec fn field_in(results: Seq<(Seq<char>, Seq<char>)>, field: Seq<char>) -> Seq<char> {
    match table::lookup(results, field) {
        Some(v) => v,
        None => ""@,
    }
}

/// The ways and the states once the first `n` edges were gone through: those from
/// `id` that lead elsewhere than to `chosen` are declined, and what is left with
/// no live way in is skipped: with none at all, or with none but from nodes that
/// were skipped.
pub open spec fn declining(
    w: Ways,
    states: Seq<(Seq<char>, NodeState)>,
    id: Seq<char>,
    chosen: Seq<char>,
    n: nat,
) -> (Ways, Seq<(Seq<char>, NodeState)>)
    decreases n,
{
    if n == 0 {
        (w, states)
    } else {
        let (w1, s1) = declining(w, states, id, chosen, (n - 1) as nat);
        let link = w.links[n - 1];
        if link.0 == id && link.1 != chosen {
            let w2 = Ways { declined: cycles::with_link(w1.declined, link), ..w1 };
            if run::state_of(s1, link.1) == NodeState::Idle && (forward_in(w2, link.1).len() == 0 || is_cut_off(
                w2,
                s1,
                link.1,
            )) {
                (w2, skipped(w2, s1, link.1, w.links.len()))
            } else {
                (w2, s1)
            }
        } else {
            (w1, s1)
        }
    }
}

fn has_document(documents: &Table<String>, file: &str) -> (r: bool)
    ensures
        r == is_produced(table::as_texts(documents@), file@),
{
    let ghost all = table::as_texts(documents@);
    let mut i: usize = 0;
    while i < documents.len()
        invariant
            i <= documents@.len(),
            all == table::as_texts(documents@),
            forall|j: int| 0 <= j < i ==> (#[trigger] all[j]).1 != file@,
        decreases documents@.len() - i,
    {
        assert(all[i as int].1 == documents@[i as int].1@);
        if same(documents.value_at(i).as_str(), file) {
            return true;
        }
        i = i + 1;
    }
    assert(all.len() == documents@.len());
    false
}

impl Engine {
    fn fallback_of(&self, id: &str) -> (r: Option<&NodeId>)
        ensures
            match r {
                Some(to) => fallback(self.graph.edges@, id@, 0) == Some(to@),
                None => fallback(self.graph.edges@, id@, 0) is None,
            },
    {
        let mut i: usize = 0;
        while i < self.graph.edges.len()
            invariant
                i <= self.graph.edges.len(),
                fallback(self.graph.edges@, id@, i as int) == fallback(self.graph.edges@, id@, 0),
            decreases self.graph.edges.len() - i,
        {
            let e = &self.graph.edges[i];
            if same(e.from.as_str(), id) && e.when.is_none() {
                return Some(&e.to);
            }
            i = i + 1;
        }
        None
    }

    /// What a branch does next, where the conditions before place `from` did not
    /// hold.
    pub fn route(&self, id: &str, run: &RunState, from: usize) -> (r: Route)
        requires
            from <= self.graph.edges@.len(),
        ensures
            r@ == routed(self.graph.edges@, id@, table::as_texts(run.documents@), from as int),
            r matches Route::Read { edge, .. } ==> from <= edge < self.graph.edges@.len()
                && self.graph.edges@[edge as int].when is Some,
    {
        let ghost docs = table::as_texts(run.documents@);
        let mut i: usize = from;
        while i < self.graph.edges.len()
            invariant
                from <= i <= self.graph.edges.len(),
                docs == table::as_texts(run.documents@),
                next_asking(self.graph.edges@, id@, docs, i as int) == next_asking(
                    self.graph.edges@,
                    id@,
                    docs,
                    from as int,
                ),
            decreases self.graph.edges.len() - i,
        {
            let e = &self.graph.edges[i];
            if same(e.from.as_str(), id) {
                if let Some(c) = &e.when {
                    if has_document(&run.documents, c.document.as_str()) {
                        return Route::Read { edge: i, file: c.document.as_str().to_owned() };
                    }
                }
            }
            i = i + 1;
        }
        match self.fallback_of(id) {
            Some(to) => {
                let mut note = "branch: no condition held, taking the fallback -> ".to_owned();
                note.append(to.as_str());
                Route::Take { to: to.as_str().to_owned(), note }
            },
            None => {
                let mut why = "branch `".to_owned();
                why.append(id);
                why.append("` has no edge to take and no fallback");
                Route::Stuck(why)
            },
        }
    }

    /// The value of the field that the condition of an edge is about.
    pub fn field_for(&self, edge: usize, results: &Table<String>) -> (s: String)
        requires
            edge < self.graph.edges@.len(),
            self.graph.edges@[edge as int].when is Some,
        ensures
            s@ == field_in(table::as_texts(results@), self.graph.edges@[edge as int].when->0.field@),
    {
        match &self.graph.edges[edge].when {
            Some(c) => {
                proof {
                    table::lemma_lookup_texts(results@, c.field@);
                }
                match results.get(c.field.as_str()) {
                    Some(v) => v.as_str().to_owned(),
                    None => "".to_owned(),
                }
            },
            None => "".to_owned(),
        }
    }

    /// What a branch does once the field is known that the condition of an edge
    /// is about. `numbers` is how it compares to the value wanted, where both
    /// read as numbers.
    pub fn route_by(
        &self,
        id: &str,
        run: &RunState,
        edge: usize,
        actual: &str,
        numbers: Option<Numbers>,
    ) -> (r: Route)
        requires
            edge < self.graph.edges@.len(),
            self.graph.edges@[edge as int].when is Some,
        ensures
            r@ == routed_by(
                self.graph.edges@,
                id@,
                table::as_texts(run.documents@),
                edge as int,
                actual@,
                numbers,
            ),
            r matches Route::Read { edge: next, .. } ==> edge < next < self.graph.edges@.len()
                && self.graph.edges@[next as int].when is Some,
    {
        let e = &self.graph.edges[edge];
        if let Some(c) = &e.when {
            if c.holds(actual, numbers) {
                let mut note = "branch: ".to_owned();
                note.append(c.document.as_str());
                note.append(".");
                note.append(c.field.as_str());
                note.append(" = ");
                note.append(actual);
                note.append(" -> ");
                note.append(e.to.as_str());
                return Route::Take { to: e.to.as_str().to_owned(), note };
            }
        }
        assert(edge < self.graph.edges.len());
        self.route(id, run, edge + 1)
    }

    /// Goes from a branch to `chosen`: the other edges are declined, and what is
    /// left with no live way in is skipped.
    pub fn take(&mut self, id: &str, run: &mut RunState, chosen: &str)
        ensures
            (final(self).ways(), final(run).states@) == declining(
                old(self).ways(),
                old(run).states@,
                id@,
                chosen@,
                old(self).ways().links.len(),
            ),
            final(self).graph == old(self).graph,
            final(self).roles == old(self).roles,
            final(self).slots == old(self).slots,
            final(self).test_command == old(self).test_command,
            final(run).is_but_for_states(*old(run)),
            old(run).wf() ==> final(run).wf(),
    {
        let ghost w = self.ways();
        let ghost start = run.states@;
        let mut i: usize = 0;
        while i < self.graph.edges.len()
            invariant
                i <= self.graph.edges.len(),
                w == old(self).ways(),
                start == old(run).states@,
                self.graph == old(self).graph,
                self.roles == old(self).roles,
                self.slots == old(self).slots,
                self.test_command == old(self).test_command,
                w.links == self.graph.links(),
                w.links.len() == self.graph.edges@.len(),
                (self.ways(), run.states@) == declining(w, start, id@, chosen@, i as nat),
                run.is_but_for_states(*old(run)),
                old(run).wf() ==> run.wf(),
            decreases self.graph.edges.len() - i,
        {
            let from = self.graph.edges[i].from.as_str().to_owned();
            let to = self.graph.edges[i].to.as_str().to_owned();
            assert(w.links[i as int] == (from@, to@));
            if same(from.as_str(), id) && !same(to.as_str(), chosen) {
                let ghost before = self.ways();
                add_link(&mut self.declined, from.as_str(), to.as_str());
                assert(self.ways() =~= (Ways {
                    declined: cycles::with_link(before.declined, (from@, to@)),
                    ..before
                }));
                if run.state(to.as_str()) == NodeState::Idle {
                    let ways = self.forward_predecessors(to.as_str());
                    assert(graph::named(ways@).len() == ways@.len());
                    if ways.len() == 0 || self.cut_off(run, to.as_str()) {
                        self.skip_from(run, to.as_str());
                    }
                }
            }
            i = i + 1;
        }
    }
}

// ----------------------------------------------------------------------------- errands

/// What a node of a kind has to have done.
#[derive(Debug, Clone, Copy, PartialEq, Eq, Structural)]
pub enum Errand {
    Nothing,
    Report,
    Branch,
    Tool,
    Agent,
}

/// What a node of a kind has to have done.
pub open spec fn errand_of(kind: NodeKind) -> Errand {
    match kind {
        NodeKind::Output => Errand::Report,
        NodeKind::Branch => Errand::Branch,
        NodeKind::Tool => Errand::Tool,
        NodeKind::Agent => Errand::Agent,
        NodeKind::Foreman => Errand::Agent,
        _ => Errand::Nothing,
    }
}

/// What a node of a kind has to have done.
pub fn errand(kind: NodeKind) -> (e: Errand)
    ensures
        e == errand_of(kind),
{
    match kind {
        NodeKind::Output => Errand::Report,
        NodeKind::Branch => Errand::Branch,
        NodeKind::Tool => Errand::Tool,
        NodeKind::Agent => Errand::Agent,
        NodeKind::Foreman => Errand::Agent,
        _ => Errand::Nothing,
    }
}

/// All that a test command printed.
pub open spec fn test_output(stdout: Seq<char>, stderr: Seq<char>) -> Seq<char> {
    stdout + "\n"@ + stderr
}

/// What the tests came to, by what their command came to: nothing where it did
/// not run, or printed no summary, because a missing count is not a zero.
pub open spec fn counts_of(came: Came) -> Option<outputs::Tally> {
    match came {
        Came::Ran { stdout, stderr, .. } => {
            let c = outputs::tallied(split::lines(test_output(stdout, stderr)));
            if c.conclusive {
                Some(c)
            } else {
                None
            }
        },
        _ => None,
    }
}

/// Whether the counts in what a test command printed can be read.
pub open spec fn is_measurable(came: Came) -> bool {
    came matches Came::Ran { stdout, stderr, .. } ==> outputs::is_countable(
        split::lines(test_output(stdout, stderr)),
    )
}

fn join_output(stdout: &str, stderr: &str) -> (s: String)
    ensures
        s@ == test_output(stdout@, stderr@),
{
    let mut s = stdout.to_owned();
    s.append("\n");
    s.append(stderr);
    s
}

/// Whether the counts in what a test command printed can be read.
pub fn can_measure(outcome: &Outcome) -> (r: bool)
    ensures
        r == is_measurable(outcome@),
{
    match outcome {
        Outcome::Ran { stdout, stderr, .. } => can_count(join_output(stdout.as_str(), stderr.as_str()).as_str()),
        _ => true,
    }
}

impl Engine {
    /// The call that runs the project's tests, where it is known how.
    pub fn test_call(&self) -> (r: Option<ToolCall>)
        ensures
            match r {
                Some(c) => self.test_command matches Some(words) && words@.len() > 0 && c@ == agent::run_call(
                    text::texts(words@),
                ),
                None => self.test_command matches Some(words) ==> words@.len() == 0,
            },
    {
        match &self.test_command {
            Some(words) => {
                if words.len() == 0 {
                    return None;
                }
                Some(command_call(words.as_slice()))
            },
            None => None,
        }
    }

    /// Reads the counts of the project's tests.
    pub fn measure_tests(outcome: &Outcome) -> (r: Option<TestBaseline>)
        requires
            is_measurable(outcome@),
        ensures
            match r {
                Some(b) => counts_of(outcome@) matches Some(c) && b.total == c.total && b.failed == c.failed,
                None => counts_of(outcome@) is None,
            },
    {
        match outcome {
            Outcome::Ran { stdout, stderr, .. } => {
                let c = parse_test_output(join_output(stdout.as_str(), stderr.as_str()).as_str());
                if c.conclusive {
                    Some(TestBaseline { total: c.total, failed: c.failed })
                } else {
                    None
                }
            },
            _ => None,
        }
    }

    /// Reads the counts of the project's tests, run again, and notes them.
    pub fn measure_again(run: &mut RunState, outcome: &Outcome) -> (r: Option<TestBaseline>)
        requires
            is_measurable(outcome@),
        ensures
            match r {
                Some(b) => counts_of(outcome@) matches Some(c) && b.total == c.total && b.failed == c.failed,
                None => counts_of(outcome@) is None,
            },
            *final(run) == (RunState { measured: run::last_counts(old(run).measured, r), ..*old(run) }),
    {
        let counts = Self::measure_tests(outcome);
        run.note_tests(counts);
        counts
    }

    /// Notes what the tests came to before any agent acts, which is the only
    /// moment it means anything. Nothing is noted where it is not known how they
    /// are run.
    pub fn take_baseline(&self, run: &mut RunState, measured: Option<TestBaseline>) -> (note: Option<String>)
        ensures
            match self.test_command {
                None => note is None && *final(run) == *old(run),
                Some(_) => note matches Some(n) && n@ == run::baseline_note(measured) && *final(run) == (RunState {
                    baseline: match measured {
                        Some(b) => Some(b),
                        None => old(run).baseline,
                    },
                    ..*old(run)
                }),
            },
    {
        if self.test_command.is_none() {
            return None;
        }
        Some(run.take_baseline(measured))
    }
}

// -------------------------------------------------------------------------- laws

/// What is done at a node is decided by its kind: a role works at an agent, a
/// command runs at a tool, a way is chosen at a branch and the report is written at
/// an output; at every other node nothing is done.
pub proof fn law_a_node_is_worked_at_by_its_kind(kind: NodeKind)
    ensures
        errand_of(kind) is Agent <==> kind is Agent || kind is Foreman,
        errand_of(kind) is Tool <==> kind is Tool,
        errand_of(kind) is Branch <==> kind is Branch,
        errand_of(kind) is Report <==> kind is Output,
        errand_of(kind) is Nothing <==> kind is Input || kind is Gate || kind is Loop || kind is Merge,
{
}

/// Tests are counted in all that their command printed, first what it printed as
/// output and then as errors, whatever it exited with; and where it did not run, or
/// printed no summary, there is no count.
pub proof fn law_tests_are_counted_where_they_ran(
    exit_code: i32,
    stdout: Seq<char>,
    stderr: Seq<char>,
    other: i32,
    why: Seq<char>,
)
    ensures
        ({
            let tally = outputs::tallied(split::lines(stdout + seq!['\n']) + split::lines(stderr));
            counts_of(Came::Ran { exit_code, stdout, stderr }) == (if tally.conclusive {
                Some(tally)
            } else {
                None
            })
        }),
        counts_of(Came::Ran { exit_code, stdout, stderr }) == counts_of(
            Came::Ran { exit_code: other, stdout, stderr },
        ),
        counts_of(Came::Refused(why)) is None,
{
    reveal_strlit("\n");
    assert("\n"@ =~= seq!['\n']);
    split::law_a_break_parts_the_lines(stdout, stderr);
}

} // verus!
