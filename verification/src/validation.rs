//! What is wrong with a workflow, every part of it, before any of it runs.

use vstd::prelude::*;
use crate::cycles;
use crate::graph;
use crate::graph::{holds_name, Edge, Graph, Node, NodeId, NodeKind};
use crate::text;

verus! {

/// The failures a workflow can have, each naming its node.
#[derive(Debug, Clone, PartialEq, Eq)]
pub enum GraphError {
    DanglingInput(NodeId),
    Unreachable(NodeId),
    NoPathToOutput(NodeId),
    UnboundedLoop(NodeId),
    InvalidNode { id: NodeId, why: &'static str },
    /// Structural preconditions, distinct from the five node-level checks.
    MissingInput,
    MissingOutput,
    DuplicateId(NodeId),
    UnknownEndpoint(NodeId),
}

/// A failure, as texts.
pub enum Flaw {
    DanglingInput(Seq<char>),
    Unreachable(Seq<char>),
    NoPathToOutput(Seq<char>),
    UnboundedLoop(Seq<char>),
    InvalidNode { id: Seq<char>, why: Seq<char> },
    MissingInput,
    MissingOutput,
    DuplicateId(Seq<char>),
    UnknownEndpoint(Seq<char>),
}

impl View for GraphError {
    type V = Flaw;

    open spec fn view(&self) -> Flaw {
        match self {
            GraphError::DanglingInput(id) => Flaw::DanglingInput(id@),
            GraphError::Unreachable(id) => Flaw::Unreachable(id@),
            GraphError::NoPathToOutput(id) => Flaw::NoPathToOutput(id@),
            GraphError::UnboundedLoop(id) => Flaw::UnboundedLoop(id@),
            GraphError::InvalidNode { id, why } => Flaw::InvalidNode { id: id@, why: why@ },
            GraphError::MissingInput => Flaw::MissingInput,
            GraphError::MissingOutput => Flaw::MissingOutput,
            GraphError::DuplicateId(id) => Flaw::DuplicateId(id@),
            GraphError::UnknownEndpoint(id) => Flaw::UnknownEndpoint(id@),
        }
    }
}

/// A failure in words.
pub open spec fn flaw_text(e: Flaw) -> Seq<char> {
    match e {
        Flaw::DanglingInput(id) => "`"@ + id + "` has no incoming connection"@,
        Flaw::Unreachable(id) => "`"@ + id + "` cannot be reached from the Input"@,
        Flaw::NoPathToOutput(id) => "`"@ + id + "` has no path to the Output, so its work would be discarded"@,
        Flaw::UnboundedLoop(id) => "the cycle through `"@ + id + "` has no iteration limit"@,
        Flaw::InvalidNode { id, why } => "`"@ + id + "` is misconfigured: "@ + why,
        Flaw::MissingInput => "the graph has no Input node"@,
        Flaw::MissingOutput => "the graph has no Output node"@,
        Flaw::DuplicateId(id) => "`"@ + id + "` is defined more than once"@,
        Flaw::UnknownEndpoint(id) => "a connection names `"@ + id + "`, which does not exist"@,
    }
}

fn around(before: &str, id: &str, after: &str) -> (s: String)
    ensures
        s@ == before@ + id@ + after@,
{
    let mut s = before.to_owned();
    s.append(id);
    s.append(after);
    s
}

impl GraphError {
    /// The failure in words.
    pub fn message(&self) -> (s: String)
        ensures
            s@ == flaw_text(self@),
    {
        match self {
            GraphError::DanglingInput(id) => around("`", id.as_str(), "` has no incoming connection"),
            GraphError::Unreachable(id) => around("`", id.as_str(), "` cannot be reached from the Input"),
            GraphError::NoPathToOutput(id) => around(
                "`",
                id.as_str(),
                "` has no path to the Output, so its work would be discarded",
            ),
            GraphError::UnboundedLoop(id) => around(
                "the cycle through `",
                id.as_str(),
                "` has no iteration limit",
            ),
            GraphError::InvalidNode { id, why } => {
                let mut s = around("`", id.as_str(), "` is misconfigured: ");
                s.append(why);
                s
            },
            GraphError::MissingInput => "the graph has no Input node".to_owned(),
            GraphError::MissingOutput => "the graph has no Output node".to_owned(),
            GraphError::DuplicateId(id) => around("`", id.as_str(), "` is defined more than once"),
            GraphError::UnknownEndpoint(id) => around(
                "a connection names `",
                id.as_str(),
                "`, which does not exist",
            ),
        }
    }
}

// ---------------------------------------------------------------------- the flaws

/// One flaw where there is one, and none where not.
pub open spec fn flaw_if(there: bool, e: Flaw) -> Seq<Flaw> {
    if there {
        seq![e]
    } else {
        seq![]
    }
}

/// The names that were used before.
pub open spec fn repeated(ids: Seq<Seq<char>>) -> Seq<Flaw>
    decreases ids.len(),
{
    if ids.len() == 0 {
        seq![]
    } else {
        repeated(ids.drop_last()) + flaw_if(
            ids.drop_last().contains(ids.last()),
            Flaw::DuplicateId(ids.last()),
        )
    }
}

/// The ends of connections that name no node.
pub open spec fn unknown_ends(l: Seq<(Seq<char>, Seq<char>)>, ids: Seq<Seq<char>>) -> Seq<Flaw>
    decreases l.len(),
{
    if l.len() == 0 {
        seq![]
    } else {
        unknown_ends(l.drop_last(), ids) + flaw_if(
            !ids.contains(l.last().0),
            Flaw::UnknownEndpoint(l.last().0),
        ) + flaw_if(!ids.contains(l.last().1), Flaw::UnknownEndpoint(l.last().1))
    }
}

/// Whether an optional text is absent or empty.
pub open spec fn is_unset(v: Option<String>) -> bool {
    match v {
        Some(s) => s@.len() == 0,
        None => true,
    }
}

/// What is missing from the configuration of a node.
pub open spec fn node_flaws(n: Node) -> Seq<Flaw> {
    let id = n.id@;
    let no_output = is_unset(n.output);
    let no_command = match n.command {
        Some(c) => c@.len() == 0,
        None => true,
    };
    if n.kind is Agent || n.kind is Foreman {
        flaw_if(is_unset(n.slot), Flaw::InvalidNode { id, why: "no model slot is bound"@ }) + flaw_if(
            no_output,
            Flaw::InvalidNode { id, why: "no output document is declared"@ },
        )
    } else if n.kind is Tool {
        flaw_if(no_output, Flaw::InvalidNode { id, why: "no output document is declared"@ }) + flaw_if(
            no_command,
            Flaw::InvalidNode { id, why: "no command is set"@ },
        )
    } else {
        seq![]
    }
}

pub open spec fn configuration_flaws(nodes: Seq<Node>) -> Seq<Flaw>
    decreases nodes.len(),
{
    if nodes.len() == 0 {
        seq![]
    } else {
        configuration_flaws(nodes.drop_last()) + node_flaws(nodes.last())
    }
}

/// Whether some connection leads to the name.
pub open spec fn has_way_in(l: Seq<(Seq<char>, Seq<char>)>, id: Seq<char>) -> bool {
    exists|i: int| 0 <= i < l.len() && (#[trigger] l[i]).1 == id
}

/// Whether the name can be reached from some Input.
pub open spec fn from_input(all: Seq<Node>, l: Seq<(Seq<char>, Seq<char>)>, id: Seq<char>) -> bool {
    exists|k: int|
        0 <= k < all.len() && (#[trigger] all[k]).kind is Input && graph::reaches(l, all[k].id@, id)
}

/// Whether some Output can be reached from the name.
pub open spec fn to_output(all: Seq<Node>, l: Seq<(Seq<char>, Seq<char>)>, id: Seq<char>) -> bool {
    exists|k: int|
        0 <= k < all.len() && (#[trigger] all[k]).kind is Output && graph::reaches(l, id, all[k].id@)
}

pub open spec fn dangling(nodes: Seq<Node>, l: Seq<(Seq<char>, Seq<char>)>) -> Seq<Flaw>
    decreases nodes.len(),
{
    if nodes.len() == 0 {
        seq![]
    } else {
        let n = nodes.last();
        dangling(nodes.drop_last(), l) + flaw_if(
            !(n.kind is Input) && !has_way_in(l, n.id@),
            Flaw::DanglingInput(n.id@),
        )
    }
}

pub open spec fn unreachable_nodes(nodes: Seq<Node>, all: Seq<Node>, l: Seq<(Seq<char>, Seq<char>)>) -> Seq<Flaw>
    decreases nodes.len(),
{
    if nodes.len() == 0 {
        seq![]
    } else {
        let id = nodes.last().id@;
        unreachable_nodes(nodes.drop_last(), all, l) + flaw_if(!from_input(all, l, id), Flaw::Unreachable(id))
    }
}

pub open spec fn wasted_nodes(nodes: Seq<Node>, all: Seq<Node>, l: Seq<(Seq<char>, Seq<char>)>) -> Seq<Flaw>
    decreases nodes.len(),
{
    if nodes.len() == 0 {
        seq![]
    } else {
        let id = nodes.last().id@;
        wasted_nodes(nodes.drop_last(), all, l) + flaw_if(!to_output(all, l, id), Flaw::NoPathToOutput(id))
    }
}

/// Whether a node bounds the cycles it lies on.
pub open spec fn bounds(n: Node) -> bool {
    n.kind is Loop && match n.loop_limit {
        Some(limit) => limit > 0,
        None => false,
    }
}

/// Whether a node that bounds cycles lies between where a connection leads and
/// where it begins.
pub open spec fn is_bounded(
    all: Seq<Node>,
    l: Seq<(Seq<char>, Seq<char>)>,
    from: Seq<char>,
    to: Seq<char>,
) -> bool {
    exists|k: int|
        0 <= k < all.len() && bounds(#[trigger] all[k]) && graph::reaches(l, to, all[k].id@) && graph::reaches(
            l,
            all[k].id@,
            from,
        )
}

pub open spec fn unbounded(
    back: Seq<(Seq<char>, Seq<char>)>,
    all: Seq<Node>,
    l: Seq<(Seq<char>, Seq<char>)>,
) -> Seq<Flaw>
    decreases back.len(),
{
    if back.len() == 0 {
        seq![]
    } else {
        let (from, to) = back.last();
        unbounded(back.drop_last(), all, l) + flaw_if(!is_bounded(all, l, from, to), Flaw::UnboundedLoop(to))
    }
}

pub open spec fn has_kind(nodes: Seq<Node>, kind: NodeKind) -> bool {
    exists|k: int| 0 <= k < nodes.len() && (#[trigger] nodes[k]).kind == kind
}

/// Everything that is wrong with a workflow. Names that do not hold together, or
/// no way in or out, are reported alone: the rest would rest on them.
pub open spec fn flaws(nodes: Seq<Node>, edges: Seq<Edge>) -> Seq<Flaw> {
    let l = graph::links(edges);
    let ids = graph::ids(nodes);
    let names = repeated(ids) + unknown_ends(l, ids);
    let ends = flaw_if(!has_kind(nodes, NodeKind::Input), Flaw::MissingInput) + flaw_if(
        !has_kind(nodes, NodeKind::Output),
        Flaw::MissingOutput,
    );
    if names.len() > 0 {
        names
    } else if ends.len() > 0 {
        ends
    } else {
        configuration_flaws(nodes) + dangling(nodes, l) + unreachable_nodes(nodes, nodes, l) + wasted_nodes(
            nodes,
            nodes,
            l,
        ) + unbounded(cycles::back_links(l, ids), nodes, l)
    }
}

/// Failures, as texts.
pub open spec fn as_flaws(v: Seq<GraphError>) -> Seq<Flaw> {
    v.map_values(|e: GraphError| e@)
}

fn report(errors: &mut Vec<GraphError>, there: bool, e: GraphError)
    ensures
        as_flaws(final(errors)@) == as_flaws(old(errors)@) + flaw_if(there, e@),
{
    let ghost before = errors@;
    if there {
        errors.push(e);
        assert(as_flaws(errors@) =~= as_flaws(before) + seq![e@]);
    } else {
        assert(as_flaws(before) + seq![] =~= as_flaws(before));
    }
}

fn unset(v: &Option<String>) -> (r: bool)
    ensures
        r == is_unset(*v),
{
    match v {
        Some(s) => s.as_str().unicode_len() == 0,
        None => true,
    }
}

/// The name of a node, to be kept.
fn name_of(n: &Node) -> (id: NodeId)
    ensures
        id@ == n.id@,
{
    n.id.as_str().to_owned()
}

impl Graph {
    fn is_name(&self, upto: usize, id: &str) -> (r: bool)
        requires
            upto <= self.nodes@.len(),
        ensures
            r == self.ids().take(upto as int).contains(id@),
    {
        let ghost all = self.ids().take(upto as int);
        let mut i: usize = 0;
        while i < upto
            invariant
                i <= upto <= self.nodes@.len(),
                all == self.ids().take(upto as int),
                forall|j: int| 0 <= j < i ==> all[j] != id@,
            decreases upto - i,
        {
            assert(all[i as int] == self.nodes@[i as int].id@);
            if text::same(self.nodes[i].id.as_str(), id) {
                return true;
            }
            i = i + 1;
        }
        false
    }

    fn check_names(&self) -> (errors: Vec<GraphError>)
        ensures
            as_flaws(errors@) == repeated(self.ids()) + unknown_ends(self.links(), self.ids()),
    {
        let ghost names = self.ids();
        let ghost l = self.links();
        let mut errors: Vec<GraphError> = Vec::new();
        let mut i: usize = 0;
        assert(as_flaws(errors@) =~= repeated(names.take(0)));
        while i < self.nodes.len()
            invariant
                i <= self.nodes.len(),
                names == self.ids(),
                as_flaws(errors@) == repeated(names.take(i as int)),
            decreases self.nodes.len() - i,
        {
            assert(names.take(i + 1).drop_last() =~= names.take(i as int));
            assert(names.take(i + 1).last() == self.nodes@[i as int].id@);
            let again = self.is_name(i, self.nodes[i].id.as_str());
            report(&mut errors, again, GraphError::DuplicateId(name_of(&self.nodes[i])));
            i = i + 1;
        }
        assert(names.take(i as int) =~= names);
        let mut j: usize = 0;
        assert(as_flaws(errors@) + unknown_ends(l.take(0), names) =~= as_flaws(errors@));
        while j < self.edges.len()
            invariant
                j <= self.edges.len(),
                names == self.ids(),
                l == self.links(),
                as_flaws(errors@) == repeated(names) + unknown_ends(l.take(j as int), names),
            decreases self.edges.len() - j,
        {
            assert(l.take(j + 1).drop_last() =~= l.take(j as int));
            assert(l.take(j + 1).last() == l[j as int]);
            assert(names.take(names.len() as int) =~= names);
            let from = self.edges[j].from.as_str();
            let to = self.edges[j].to.as_str();
            let no_from = !self.is_name(self.nodes.len(), from);
            let no_to = !self.is_name(self.nodes.len(), to);
            report(&mut errors, no_from, GraphError::UnknownEndpoint(from.to_owned()));
            report(&mut errors, no_to, GraphError::UnknownEndpoint(to.to_owned()));
            assert(as_flaws(errors@) =~= repeated(names) + unknown_ends(l.take(j + 1), names));
            j = j + 1;
        }
        assert(l.take(j as int) =~= l);
        errors
    }

    fn any_of_kind(&self, kind: NodeKind) -> (r: bool)
        ensures
            r == has_kind(self.nodes@, kind),
    {
        let mut i: usize = 0;
        while i < self.nodes.len()
            invariant
                i <= self.nodes.len(),
                forall|j: int| 0 <= j < i ==> (#[trigger] self.nodes@[j]).kind != kind,
            decreases self.nodes.len() - i,
        {
            if self.nodes[i].kind == kind {
                return true;
            }
            i = i + 1;
        }
        false
    }

    fn check_configuration(&self, errors: &mut Vec<GraphError>)
        ensures
            as_flaws(final(errors)@) == as_flaws(old(errors)@) + configuration_flaws(self.nodes@),
    {
        let ghost start = as_flaws(errors@);
        let ghost nodes = self.nodes@;
        let mut i: usize = 0;
        assert(start + configuration_flaws(nodes.take(0)) =~= start);
        while i < self.nodes.len()
            invariant
                i <= self.nodes.len(),
                nodes == self.nodes@,
                as_flaws(errors@) == start + configuration_flaws(nodes.take(i as int)),
            decreases self.nodes.len() - i,
        {
            let n = &self.nodes[i];
            let ghost before = as_flaws(errors@);
            assert(nodes.take(i + 1).drop_last() =~= nodes.take(i as int));
            assert(nodes.take(i + 1).last() == *n);
            if n.kind.needs_model() {
                report(
                    errors,
                    unset(&n.slot),
                    GraphError::InvalidNode { id: name_of(n), why: "no model slot is bound" },
                );
                report(
                    errors,
                    unset(&n.output),
                    GraphError::InvalidNode { id: name_of(n), why: "no output document is declared" },
                );
            }
            if n.kind == NodeKind::Tool {
                report(
                    errors,
                    unset(&n.output),
                    GraphError::InvalidNode { id: name_of(n), why: "no output document is declared" },
                );
                let no_command = match &n.command {
                    Some(c) => c.len() == 0,
                    None => true,
                };
                report(
                    errors,
                    no_command,
                    GraphError::InvalidNode { id: name_of(n), why: "no command is set" },
                );
            }
            assert(as_flaws(errors@) =~= before + node_flaws(*n));
            assert(as_flaws(errors@) =~= start + configuration_flaws(nodes.take(i + 1)));
            i = i + 1;
        }
        assert(nodes.take(i as int) =~= nodes);
    }

    fn check_ways_in(&self, errors: &mut Vec<GraphError>)
        ensures
            as_flaws(final(errors)@) == as_flaws(old(errors)@) + dangling(self.nodes@, self.links()),
    {
        let ghost start = as_flaws(errors@);
        let ghost nodes = self.nodes@;
        let ghost l = self.links();
        let mut i: usize = 0;
        assert(start + dangling(nodes.take(0), l) =~= start);
        while i < self.nodes.len()
            invariant
                i <= self.nodes.len(),
                nodes == self.nodes@,
                l == self.links(),
                as_flaws(errors@) == start + dangling(nodes.take(i as int), l),
            decreases self.nodes.len() - i,
        {
            let n = &self.nodes[i];
            assert(nodes.take(i + 1).drop_last() =~= nodes.take(i as int));
            assert(nodes.take(i + 1).last() == *n);
            let before = self.predecessors(n.id.as_str());
            proof {
                lemma_way_in(l, n.id@);
                assert(graph::named(before@).len() == before@.len());
            }
            let none = n.kind != NodeKind::Input && before.len() == 0;
            report(errors, none, GraphError::DanglingInput(name_of(n)));
            assert(as_flaws(errors@) =~= start + dangling(nodes.take(i + 1), l));
            i = i + 1;
        }
        assert(nodes.take(i as int) =~= nodes);
    }

    /// Everything that walks from the nodes of a kind meet.
    fn reached_from(&self, kind: NodeKind, forward: bool) -> (v: Vec<NodeId>)
        ensures
            forall|b: Seq<char>| #[trigger]
                text::texts(v@).contains(b) == exists|k: int|
                    0 <= k < self.nodes@.len() && (#[trigger] self.nodes@[k]).kind == kind && graph::reaches(
                        self.ways(forward),
                        self.nodes@[k].id@,
                        b,
                    ),
    {
        let ghost l = self.ways(forward);
        let mut v: Vec<NodeId> = Vec::new();
        let mut i: usize = 0;
        assert(text::texts(v@) =~= seq![]);
        while i < self.nodes.len()
            invariant
                i <= self.nodes.len(),
                l == self.ways(forward),
                forall|b: Seq<char>| #[trigger]
                    text::texts(v@).contains(b) == exists|k: int|
                        0 <= k < i && (#[trigger] self.nodes@[k]).kind == kind && graph::reaches(
                            l,
                            self.nodes@[k].id@,
                            b,
                        ),
            decreases self.nodes.len() - i,
        {
            if self.nodes[i].kind == kind {
                let ghost before = text::texts(v@);
                let mut more = self.reachable_from(self.nodes[i].id.as_str(), forward);
                let ghost added = text::texts(more@);
                let ghost old_v = v@;
                let ghost old_more = more@;
                v.append(&mut more);
                assert(text::texts(v@) =~= before + added);
                assert forall|b: Seq<char>| #[trigger] text::texts(v@).contains(b) == exists|k: int|
                    0 <= k < i + 1 && (#[trigger] self.nodes@[k]).kind == kind && graph::reaches(
                        l,
                        self.nodes@[k].id@,
                        b,
                    ) by {
                    lemma_contains_add(before, added, b);
                    assert(added.contains(b) == graph::reaches(l, self.nodes@[i as int].id@, b));
                    if before.contains(b) {
                        let k = choose|k: int|
                            0 <= k < i && (#[trigger] self.nodes@[k]).kind == kind && graph::reaches(
                                l,
                                self.nodes@[k].id@,
                                b,
                            );
                        assert(self.nodes@[k].kind == kind);
                    }
                    if added.contains(b) {
                        assert(self.nodes@[i as int].kind == kind);
                    }
                }
            }
            i = i + 1;
        }
        v
    }

    fn check_reach(&self, errors: &mut Vec<GraphError>)
        ensures
            as_flaws(final(errors)@) == as_flaws(old(errors)@) + unreachable_nodes(
                self.nodes@,
                self.nodes@,
                self.links(),
            ) + wasted_nodes(self.nodes@, self.nodes@, self.links()),
    {
        let ghost start = as_flaws(errors@);
        let ghost nodes = self.nodes@;
        let ghost l = self.links();
        let forward = self.reached_from(NodeKind::Input, true);
        let mut i: usize = 0;
        assert(start + unreachable_nodes(nodes.take(0), nodes, l) =~= start);
        while i < self.nodes.len()
            invariant
                i <= self.nodes.len(),
                nodes == self.nodes@,
                l == self.links(),
                forall|b: Seq<char>| #[trigger] text::texts(forward@).contains(b) == from_input(nodes, l, b),
                as_flaws(errors@) == start + unreachable_nodes(nodes.take(i as int), nodes, l),
            decreases self.nodes.len() - i,
        {
            let n = &self.nodes[i];
            assert(nodes.take(i + 1).drop_last() =~= nodes.take(i as int));
            assert(nodes.take(i + 1).last() == *n);
            let lost = !holds_name(forward.as_slice(), n.id.as_str());
            report(errors, lost, GraphError::Unreachable(name_of(n)));
            assert(as_flaws(errors@) =~= start + unreachable_nodes(nodes.take(i + 1), nodes, l));
            i = i + 1;
        }
        assert(nodes.take(i as int) =~= nodes);
        let ghost middle = as_flaws(errors@);
        let backward = self.reached_from(NodeKind::Output, false);
        proof {
            assert forall|b: Seq<char>| #[trigger] text::texts(backward@).contains(b) == to_output(nodes, l, b) by {
                lemma_to_output(nodes, l, b);
            }
        }
        let mut j: usize = 0;
        assert(middle + wasted_nodes(nodes.take(0), nodes, l) =~= middle);
        while j < self.nodes.len()
            invariant
                j <= self.nodes.len(),
                nodes == self.nodes@,
                l == self.links(),
                forall|b: Seq<char>| #[trigger] text::texts(backward@).contains(b) == to_output(nodes, l, b),
                as_flaws(errors@) == middle + wasted_nodes(nodes.take(j as int), nodes, l),
            decreases self.nodes.len() - j,
        {
            let n = &self.nodes[j];
            assert(nodes.take(j + 1).drop_last() =~= nodes.take(j as int));
            assert(nodes.take(j + 1).last() == *n);
            let lost = !holds_name(backward.as_slice(), n.id.as_str());
            report(errors, lost, GraphError::NoPathToOutput(name_of(n)));
            assert(as_flaws(errors@) =~= middle + wasted_nodes(nodes.take(j + 1), nodes, l));
            j = j + 1;
        }
        assert(nodes.take(j as int) =~= nodes);
    }

    /// Whether a node that bounds cycles lies on the cycle that a connection
    /// closes: on what a walk onward from its end and a walk back from its
    /// beginning have in common.
    fn bounded_between(&self, from: &str, to: &str) -> (r: bool)
        ensures
            r == is_bounded(self.nodes@, self.links(), from@, to@),
    {
        let ghost l = self.links();
        let onward = self.reachable_from(to, true);
        let ancestors = self.reachable_from(from, false);
        assert(self.ways(true) == l);
        assert(self.ways(false) == graph::reversed(l));
        let mut i: usize = 0;
        while i < self.nodes.len()
            invariant
                i <= self.nodes.len(),
                l == self.links(),
                forall|b: Seq<char>| text::texts(onward@).contains(b) == #[trigger] graph::reaches(l, to@, b),
                forall|b: Seq<char>|
                    text::texts(ancestors@).contains(b) == #[trigger] graph::reaches(
                        graph::reversed(l),
                        from@,
                        b,
                    ),
                forall|k: int|
                    0 <= k < i ==> !(bounds(#[trigger] self.nodes@[k]) && graph::reaches(l, to@, self.nodes@[k].id@)
                        && graph::reaches(l, self.nodes@[k].id@, from@)),
            decreases self.nodes.len() - i,
        {
            let n = &self.nodes[i];
            proof {
                graph::lemma_reversed(l, from@, n.id@);
            }
            let bounding = n.kind == NodeKind::Loop && match n.loop_limit {
                Some(limit) => limit > 0,
                None => false,
            };
            if bounding && holds_name(onward.as_slice(), n.id.as_str()) && holds_name(
                ancestors.as_slice(),
                n.id.as_str(),
            ) {
                return true;
            }
            i = i + 1;
        }
        false
    }

    fn check_cycles(&self, errors: &mut Vec<GraphError>)
        ensures
            as_flaws(final(errors)@) == as_flaws(old(errors)@) + unbounded(
                cycles::back_links(self.links(), self.ids()),
                self.nodes@,
                self.links(),
            ),
    {
        let ghost start = as_flaws(errors@);
        let ghost nodes = self.nodes@;
        let ghost l = self.links();
        let back = self.back_edges();
        let ghost b = cycles::pairs(back@);
        let mut i: usize = 0;
        assert(start + unbounded(b.take(0), nodes, l) =~= start);
        while i < back.len()
            invariant
                i <= back.len(),
                nodes == self.nodes@,
                l == self.links(),
                b == cycles::pairs(back@),
                as_flaws(errors@) == start + unbounded(b.take(i as int), nodes, l),
            decreases back.len() - i,
        {
            assert(b.take(i + 1).drop_last() =~= b.take(i as int));
            assert(b.take(i + 1).last() == (back@[i as int].0@, back@[i as int].1@));
            let free = !self.bounded_between(back[i].0.as_str(), back[i].1.as_str());
            report(errors, free, GraphError::UnboundedLoop(back[i].1.as_str().to_owned()));
            assert(as_flaws(errors@) =~= start + unbounded(b.take(i + 1), nodes, l));
            i = i + 1;
        }
        assert(b.take(i as int) =~= b);
    }

    /// Every failure, not just the first, so the builder can mark them all.
    pub fn validate(&self) -> (errors: Vec<GraphError>)
        ensures
            as_flaws(errors@) == flaws(self.nodes@, self.edges@),
    {
        let mut errors = self.check_names();
        assert(as_flaws(errors@).len() == errors@.len());
        if errors.len() > 0 {
            return errors;
        }
        assert(as_flaws(errors@) =~= seq![]);
        let no_input = !self.any_of_kind(NodeKind::Input);
        let no_output = !self.any_of_kind(NodeKind::Output);
        report(&mut errors, no_input, GraphError::MissingInput);
        report(&mut errors, no_output, GraphError::MissingOutput);
        assert(as_flaws(errors@).len() == errors@.len());
        let ghost ends = flaw_if(no_input, Flaw::MissingInput) + flaw_if(no_output, Flaw::MissingOutput);
        assert(as_flaws(errors@) =~= ends);
        if errors.len() > 0 {
            return errors;
        }
        assert(as_flaws(errors@) =~= seq![]);
        self.check_configuration(&mut errors);
        self.check_ways_in(&mut errors);
        self.check_reach(&mut errors);
        self.check_cycles(&mut errors);
        assert(as_flaws(errors@) =~= flaws(self.nodes@, self.edges@));
        errors
    }

    pub fn is_valid(&self) -> (r: bool)
        ensures
            r == (flaws(self.nodes@, self.edges@).len() == 0),
    {
        let errors = self.validate();
        assert(as_flaws(errors@).len() == errors@.len());
        errors.len() == 0
    }
}

proof fn lemma_contains_add(a: Seq<Seq<char>>, b: Seq<Seq<char>>, x: Seq<char>)
    ensures
        (a + b).contains(x) == (a.contains(x) || b.contains(x)),
{
    if a.contains(x) {
        let i = choose|i: int| 0 <= i < a.len() && a[i] == x;
        assert((a + b)[i] == x);
    }
    if b.contains(x) {
        let i = choose|i: int| 0 <= i < b.len() && b[i] == x;
        assert((a + b)[i + a.len()] == x);
    }
    if (a + b).contains(x) {
        let i = choose|i: int| 0 <= i < (a + b).len() && (a + b)[i] == x;
        if i < a.len() {
            assert(a[i] == x);
        } else {
            assert(b[i - a.len()] == x);
        }
    }
}

proof fn lemma_way_in(l: Seq<(Seq<char>, Seq<char>)>, id: Seq<char>)
    ensures
        has_way_in(l, id) == (graph::targets(graph::reversed(l), id).len() > 0),
{
    let r = graph::reversed(l);
    let t = graph::targets(r, id);
    if has_way_in(l, id) {
        let i = choose|i: int| 0 <= i < l.len() && (#[trigger] l[i]).1 == id;
        assert(r[i] == (id, l[i].0));
        graph::lemma_targets(r, id, l[i].0);
    }
    if t.len() > 0 {
        graph::lemma_targets(r, id, t[0]);
        assert(t.contains(t[0]));
        let i = choose|i: int| 0 <= i < r.len() && r[i] == (id, t[0]);
        assert(l[i].1 == id);
    }
}

proof fn lemma_to_output(nodes: Seq<Node>, l: Seq<(Seq<char>, Seq<char>)>, b: Seq<char>)
    ensures
        to_output(nodes, l, b) == exists|k: int|
            0 <= k < nodes.len() && (#[trigger] nodes[k]).kind == NodeKind::Output && graph::reaches(
                graph::reversed(l),
                nodes[k].id@,
                b,
            ),
{
    assert forall|k: int| graph::reaches(graph::reversed(l), nodes[k].id@, b) == graph::reaches(
        l,
        b,
        (#[trigger] nodes[k]).id@,
    ) by {
        graph::lemma_reversed(l, nodes[k].id@, b);
    }
}

// -------------------------------------------------------------------------- laws

proof fn lemma_no_flaw(a: Seq<Flaw>, there: bool, e: Flaw)
    requires
        (a + flaw_if(there, e)).len() == 0,
    ensures
        a.len() == 0,
        !there,
{
    assert(a.len() + flaw_if(there, e).len() == (a + flaw_if(there, e)).len());
    if there {
        assert(flaw_if(there, e).len() == 1);
    }
}

proof fn lemma_repeated(ids: Seq<Seq<char>>)
    requires
        repeated(ids).len() == 0,
    ensures
        ids.no_duplicates(),
    decreases ids.len(),
{
    if ids.len() > 0 {
        let head = ids.drop_last();
        lemma_no_flaw(repeated(head), head.contains(ids.last()), Flaw::DuplicateId(ids.last()));
        lemma_repeated(head);
        assert forall|i: int, j: int| 0 <= i < ids.len() && 0 <= j < ids.len() && i != j implies ids[i] != ids[j] by {
            if i < head.len() && j < head.len() {
                assert(head[i] != head[j]);
            } else if i < head.len() {
                assert(head.contains(head[i]));
            } else {
                assert(head.contains(head[j]));
            }
        }
    }
}

proof fn lemma_unknown_ends(l: Seq<(Seq<char>, Seq<char>)>, ids: Seq<Seq<char>>)
    requires
        unknown_ends(l, ids).len() == 0,
    ensures
        forall|i: int| 0 <= i < l.len() ==> ids.contains((#[trigger] l[i]).0) && ids.contains(l[i].1),
    decreases l.len(),
{
    if l.len() > 0 {
        let head = l.drop_last();
        let a = unknown_ends(head, ids);
        let b = a + flaw_if(!ids.contains(l.last().0), Flaw::UnknownEndpoint(l.last().0));
        lemma_no_flaw(b, !ids.contains(l.last().1), Flaw::UnknownEndpoint(l.last().1));
        lemma_no_flaw(a, !ids.contains(l.last().0), Flaw::UnknownEndpoint(l.last().0));
        lemma_unknown_ends(head, ids);
        assert forall|i: int| 0 <= i < l.len() implies ids.contains((#[trigger] l[i]).0) && ids.contains(
            l[i].1,
        ) by {
            if i < head.len() {
                assert(l[i] == head[i]);
            }
        }
    }
}

proof fn lemma_configuration(nodes: Seq<Node>)
    requires
        configuration_flaws(nodes).len() == 0,
    ensures
        forall|i: int| 0 <= i < nodes.len() ==> node_flaws(#[trigger] nodes[i]).len() == 0,
    decreases nodes.len(),
{
    if nodes.len() > 0 {
        let head = nodes.drop_last();
        assert(configuration_flaws(nodes).len() == configuration_flaws(head).len() + node_flaws(nodes.last()).len());
        lemma_configuration(head);
        assert forall|i: int| 0 <= i < nodes.len() implies node_flaws(#[trigger] nodes[i]).len() == 0 by {
            if i < head.len() {
                assert(nodes[i] == head[i]);
            }
        }
    }
}

proof fn lemma_dangling(nodes: Seq<Node>, l: Seq<(Seq<char>, Seq<char>)>)
    requires
        dangling(nodes, l).len() == 0,
    ensures
        forall|i: int| 0 <= i < nodes.len() ==> (#[trigger] nodes[i]).kind is Input || has_way_in(l, nodes[i].id@),
    decreases nodes.len(),
{
    if nodes.len() > 0 {
        let head = nodes.drop_last();
        let n = nodes.last();
        lemma_no_flaw(
            dangling(head, l),
            !(n.kind is Input) && !has_way_in(l, n.id@),
            Flaw::DanglingInput(n.id@),
        );
        lemma_dangling(head, l);
        assert forall|i: int| 0 <= i < nodes.len() implies (#[trigger] nodes[i]).kind is Input || has_way_in(
            l,
            nodes[i].id@,
        ) by {
            if i < head.len() {
                assert(nodes[i] == head[i]);
            }
        }
    }
}

proof fn lemma_unreachable(nodes: Seq<Node>, all: Seq<Node>, l: Seq<(Seq<char>, Seq<char>)>)
    requires
        unreachable_nodes(nodes, all, l).len() == 0,
    ensures
        forall|i: int| 0 <= i < nodes.len() ==> #[trigger] from_input(all, l, nodes[i].id@),
    decreases nodes.len(),
{
    if nodes.len() > 0 {
        let head = nodes.drop_last();
        let id = nodes.last().id@;
        lemma_no_flaw(unreachable_nodes(head, all, l), !from_input(all, l, id), Flaw::Unreachable(id));
        lemma_unreachable(head, all, l);
        assert forall|i: int| 0 <= i < nodes.len() implies #[trigger] from_input(all, l, nodes[i].id@) by {
            if i < head.len() {
                assert(nodes[i] == head[i]);
            }
        }
    }
}

proof fn lemma_wasted(nodes: Seq<Node>, all: Seq<Node>, l: Seq<(Seq<char>, Seq<char>)>)
    requires
        wasted_nodes(nodes, all, l).len() == 0,
    ensures
        forall|i: int| 0 <= i < nodes.len() ==> #[trigger] to_output(all, l, nodes[i].id@),
    decreases nodes.len(),
{
    if nodes.len() > 0 {
        let head = nodes.drop_last();
        let id = nodes.last().id@;
        lemma_no_flaw(wasted_nodes(head, all, l), !to_output(all, l, id), Flaw::NoPathToOutput(id));
        lemma_wasted(head, all, l);
        assert forall|i: int| 0 <= i < nodes.len() implies #[trigger] to_output(all, l, nodes[i].id@) by {
            if i < head.len() {
                assert(nodes[i] == head[i]);
            }
        }
    }
}

proof fn lemma_unbounded(
    back: Seq<(Seq<char>, Seq<char>)>,
    all: Seq<Node>,
    l: Seq<(Seq<char>, Seq<char>)>,
)
    requires
        unbounded(back, all, l).len() == 0,
    ensures
        forall|i: int| 0 <= i < back.len() ==> #[trigger] is_bounded(all, l, back[i].0, back[i].1),
    decreases back.len(),
{
    if back.len() > 0 {
        let head = back.drop_last();
        let (from, to) = back.last();
        lemma_no_flaw(unbounded(head, all, l), !is_bounded(all, l, from, to), Flaw::UnboundedLoop(to));
        lemma_unbounded(head, all, l);
        assert forall|i: int| 0 <= i < back.len() implies #[trigger] is_bounded(
            all,
            l,
            back[i].0,
            back[i].1,
        ) by {
            if i < head.len() {
                assert(back[i] == head[i]);
            }
        }
    }
}

/// What the engine may rely on of the node in place `i`.
pub open spec fn node_is_promised(nodes: Seq<Node>, l: Seq<(Seq<char>, Seq<char>)>, i: int) -> bool {
    let n = nodes[i];
    // An agent has a model and a document to write, a tool a command.
    &&& (n.kind is Agent || n.kind is Foreman) ==> !is_unset(n.slot) && !is_unset(n.output)
    &&& n.kind is Tool ==> !is_unset(n.output) && n.command is Some && (n.command->0)@.len() > 0
    // Every node is led to, can be reached, and leads to an end.
    &&& n.kind is Input || has_way_in(l, n.id@)
    &&& from_input(nodes, l, n.id@)
    &&& to_output(nodes, l, n.id@)
}

/// What the engine may rely on of a workflow that has no flaw.
pub open spec fn is_promised(nodes: Seq<Node>, edges: Seq<Edge>) -> bool {
    let l = graph::links(edges);
    let ids = graph::ids(nodes);
    // Names are unique, and connections join nodes.
    &&& ids.no_duplicates()
    &&& forall|i: int| 0 <= i < l.len() ==> ids.contains((#[trigger] l[i]).0) && ids.contains(l[i].1)
    &&& has_kind(nodes, NodeKind::Input)
    &&& has_kind(nodes, NodeKind::Output)
    &&& forall|i: int| 0 <= i < nodes.len() ==> #[trigger] node_is_promised(nodes, l, i)
    // Every connection that closes a cycle is bounded.
    &&& forall|from: Seq<char>, to: Seq<char>| #[trigger]
        cycles::back_links(l, ids).contains((from, to)) ==> is_bounded(nodes, l, from, to)
}

/// A workflow without flaws is one that the engine may rely on.
pub proof fn law_acceptance_implies_the_promises(nodes: Seq<Node>, edges: Seq<Edge>)
    requires
        flaws(nodes, edges).len() == 0,
    ensures
        is_promised(nodes, edges),
{
    let l = graph::links(edges);
    let ids = graph::ids(nodes);
    let names = repeated(ids) + unknown_ends(l, ids);
    assert(names.len() == repeated(ids).len() + unknown_ends(l, ids).len());
    let no_input = flaw_if(!has_kind(nodes, NodeKind::Input), Flaw::MissingInput);
    let no_output = flaw_if(!has_kind(nodes, NodeKind::Output), Flaw::MissingOutput);
    assert((no_input + no_output).len() == no_input.len() + no_output.len());
    assert(!has_kind(nodes, NodeKind::Input) ==> no_input.len() == 1);
    assert(!has_kind(nodes, NodeKind::Output) ==> no_output.len() == 1);
    let a = configuration_flaws(nodes);
    let b = dangling(nodes, l);
    let c = unreachable_nodes(nodes, nodes, l);
    let d = wasted_nodes(nodes, nodes, l);
    let back = cycles::back_links(l, ids);
    let e = unbounded(back, nodes, l);
    assert((a + b + c + d + e).len() == a.len() + b.len() + c.len() + d.len() + e.len());
    lemma_repeated(ids);
    lemma_unknown_ends(l, ids);
    lemma_configuration(nodes);
    lemma_dangling(nodes, l);
    lemma_unreachable(nodes, nodes, l);
    lemma_wasted(nodes, nodes, l);
    lemma_unbounded(back, nodes, l);
    assert forall|i: int| 0 <= i < nodes.len() implies #[trigger] node_is_promised(nodes, l, i) by {
        let n = nodes[i];
        let id = n.id@;
        assert(from_input(nodes, l, nodes[i].id@));
        assert(to_output(nodes, l, nodes[i].id@));
        assert(n.kind is Input || has_way_in(l, n.id@));
        assert(node_flaws(n).len() == 0);
        if n.kind is Agent || n.kind is Foreman {
            lemma_no_flaw(
                flaw_if(is_unset(n.slot), Flaw::InvalidNode { id, why: "no model slot is bound"@ }),
                is_unset(n.output),
                Flaw::InvalidNode { id, why: "no output document is declared"@ },
            );
        } else if n.kind is Tool {
            let no_command = match n.command {
                Some(c) => c@.len() == 0,
                None => true,
            };
            lemma_no_flaw(
                flaw_if(is_unset(n.output), Flaw::InvalidNode { id, why: "no output document is declared"@ }),
                no_command,
                Flaw::InvalidNode { id, why: "no command is set"@ },
            );
        }
    }
    assert forall|from: Seq<char>, to: Seq<char>| #[trigger] back.contains((from, to)) implies is_bounded(
        nodes,
        l,
        from,
        to,
    ) by {
        let i = choose|i: int| 0 <= i < back.len() && back[i] == (from, to);
        assert(is_bounded(nodes, l, back[i].0, back[i].1));
    }
}

/// In a workflow without flaws every cycle runs over a connection that a Loop
/// with a limit bounds.
pub proof fn law_every_cycle_is_bounded(nodes: Seq<Node>, edges: Seq<Edge>, cycle: Seq<Seq<char>>)
    requires
        flaws(nodes, edges).len() == 0,
        graph::is_path(graph::links(edges), cycle),
        cycle.len() > 1,
        cycle[0] == cycle.last(),
    ensures
        exists|i: int|
            0 <= i < cycle.len() - 1 && #[trigger] graph::linked(
                cycles::back_links(graph::links(edges), graph::ids(nodes)),
                cycle,
                i,
            ) && is_bounded(nodes, graph::links(edges), cycle[i], cycle[i + 1]),
{
    let l = graph::links(edges);
    let ids = graph::ids(nodes);
    law_acceptance_implies_the_promises(nodes, edges);
    assert(graph::linked(l, cycle, 0));
    let k = choose|k: int| 0 <= k < l.len() && l[k] == (cycle[0], cycle[1]);
    assert(ids.contains(l[k].0));
    cycles::law_every_cycle_has_a_back_link(l, ids, cycle);
    let i = choose|i: int|
        0 <= i < cycle.len() - 1 && #[trigger] graph::linked(cycles::back_links(l, ids), cycle, i);
    assert(cycles::back_links(l, ids).contains((cycle[i], cycle[i + 1])));
}

// ------------------------------------------------------------------- what is named

proof fn lemma_either(a: Seq<Flaw>, b: Seq<Flaw>, x: Flaw)
    ensures
        (a + b).contains(x) == (a.contains(x) || b.contains(x)),
{
    if a.contains(x) {
        let i = choose|i: int| 0 <= i < a.len() && a[i] == x;
        assert((a + b)[i] == x);
    }
    if b.contains(x) {
        let i = choose|i: int| 0 <= i < b.len() && b[i] == x;
        assert((a + b)[a.len() + i] == x);
    }
    if (a + b).contains(x) {
        let i = choose|i: int| 0 <= i < (a + b).len() && (a + b)[i] == x;
        if i < a.len() {
            assert(a[i] == x);
        } else {
            assert(b[i - a.len()] == x);
        }
    }
}

proof fn lemma_flaw_if(there: bool, e: Flaw, x: Flaw)
    ensures
        flaw_if(there, e).contains(x) == (there && x == e),
{
    if there {
        assert(flaw_if(there, e)[0] == e);
    }
}

proof fn lemma_repeated_names(ids: Seq<Seq<char>>, x: Flaw)
    ensures
        repeated(ids).contains(x) == (x matches Flaw::DuplicateId(id) && exists|i: int, j: int|
            0 <= i < j < ids.len() && #[trigger] ids[i] == id && #[trigger] ids[j] == id),
    decreases ids.len(),
{
    if ids.len() > 0 {
        let head = ids.drop_last();
        let last = ids.last();
        lemma_repeated_names(head, x);
        lemma_flaw_if(head.contains(last), Flaw::DuplicateId(last), x);
        lemma_either(repeated(head), flaw_if(head.contains(last), Flaw::DuplicateId(last)), x);
        if let Flaw::DuplicateId(id) = x {
            if exists|i: int, j: int| 0 <= i < j < head.len() && #[trigger] head[i] == id && #[trigger] head[j] == id {
                let (i, j) = choose|i: int, j: int|
                    0 <= i < j < head.len() && #[trigger] head[i] == id && #[trigger] head[j] == id;
                assert(ids[i] == id && ids[j] == id);
            }
            if head.contains(last) && last == id {
                let i = choose|i: int| 0 <= i < head.len() && head[i] == last;
                assert(ids[i] == id && ids[ids.len() - 1] == id);
            }
            if exists|i: int, j: int| 0 <= i < j < ids.len() && #[trigger] ids[i] == id && #[trigger] ids[j] == id {
                let (i, j) = choose|i: int, j: int|
                    0 <= i < j < ids.len() && #[trigger] ids[i] == id && #[trigger] ids[j] == id;
                assert(head[i] == id);
                if j < head.len() {
                    assert(head[j] == id);
                } else {
                    assert(head.contains(last));
                }
            }
        }
    }
}

proof fn lemma_unknown_names(l: Seq<(Seq<char>, Seq<char>)>, ids: Seq<Seq<char>>, x: Flaw)
    ensures
        unknown_ends(l, ids).contains(x) == (x matches Flaw::UnknownEndpoint(id) && !ids.contains(id) && exists|i: int|
            0 <= i < l.len() && ((#[trigger] l[i]).0 == id || l[i].1 == id)),
    decreases l.len(),
{
    if l.len() > 0 {
        let head = l.drop_last();
        let last = l.last();
        lemma_unknown_names(head, ids, x);
        let a = flaw_if(!ids.contains(last.0), Flaw::UnknownEndpoint(last.0));
        let b = flaw_if(!ids.contains(last.1), Flaw::UnknownEndpoint(last.1));
        lemma_flaw_if(!ids.contains(last.0), Flaw::UnknownEndpoint(last.0), x);
        lemma_flaw_if(!ids.contains(last.1), Flaw::UnknownEndpoint(last.1), x);
        lemma_either(unknown_ends(head, ids), a, x);
        lemma_either(unknown_ends(head, ids) + a, b, x);
        if let Flaw::UnknownEndpoint(id) = x {
            if exists|i: int| 0 <= i < head.len() && ((#[trigger] head[i]).0 == id || head[i].1 == id) {
                let i = choose|i: int| 0 <= i < head.len() && ((#[trigger] head[i]).0 == id || head[i].1 == id);
                assert(l[i] == head[i]);
            }
            if last.0 == id || last.1 == id {
                assert(l[l.len() - 1].0 == id || l[l.len() - 1].1 == id);
            }
            if exists|i: int| 0 <= i < l.len() && ((#[trigger] l[i]).0 == id || l[i].1 == id) {
                let i = choose|i: int| 0 <= i < l.len() && ((#[trigger] l[i]).0 == id || l[i].1 == id);
                if i < head.len() {
                    assert(head[i] == l[i]);
                }
            }
        }
    }
}

/// Names come first: an id that two nodes have, and an end of a connection that no
/// node has, are named, each of them and nothing else; and where there is one,
/// nothing more is looked at.
pub proof fn law_names_are_judged_first(nodes: Seq<Node>, edges: Seq<Edge>, x: Flaw)
    ensures
        ({
            let doubled = exists|i: int, j: int|
                0 <= i < j < nodes.len() && (#[trigger] nodes[i]).id@ == (#[trigger] nodes[j]).id@;
            let astray = exists|i: int|
                0 <= i < edges.len() && (!graph::ids(nodes).contains((#[trigger] edges[i]).from@) || !graph::ids(
                    nodes,
                ).contains(edges[i].to@));
            doubled || astray ==> flaws(nodes, edges).contains(x) == ((x matches Flaw::DuplicateId(id) && exists|
                i: int,
                j: int,
            |
                0 <= i < j < nodes.len() && (#[trigger] nodes[i]).id@ == id && (#[trigger] nodes[j]).id@ == id) || (x
                matches Flaw::UnknownEndpoint(id) && !graph::ids(nodes).contains(id) && exists|i: int|
                0 <= i < edges.len() && ((#[trigger] edges[i]).from@ == id || edges[i].to@ == id)))
        }),
{
    let l = graph::links(edges);
    let ids = graph::ids(nodes);
    lemma_repeated_names(ids, x);
    lemma_unknown_names(l, ids, x);
    lemma_either(repeated(ids), unknown_ends(l, ids), x);
    if exists|i: int, j: int| 0 <= i < j < nodes.len() && (#[trigger] nodes[i]).id@ == (#[trigger] nodes[j]).id@ {
        let (i, j) = choose|i: int, j: int|
            0 <= i < j < nodes.len() && (#[trigger] nodes[i]).id@ == (#[trigger] nodes[j]).id@;
        let y = Flaw::DuplicateId(ids[i]);
        lemma_repeated_names(ids, y);
        assert(ids[i] == ids[i] && ids[j] == ids[i]);
        assert(repeated(ids).contains(y));
    }
    if exists|i: int|
        0 <= i < edges.len() && (!ids.contains((#[trigger] edges[i]).from@) || !ids.contains(edges[i].to@)) {
        let i = choose|i: int|
            0 <= i < edges.len() && (!ids.contains((#[trigger] edges[i]).from@) || !ids.contains(edges[i].to@));
        assert(l[i] == (edges[i].from@, edges[i].to@));
        let id = if !ids.contains(l[i].0) {
            l[i].0
        } else {
            l[i].1
        };
        lemma_unknown_names(l, ids, Flaw::UnknownEndpoint(id));
        assert(unknown_ends(l, ids).contains(Flaw::UnknownEndpoint(id)));
    }
    if let Flaw::DuplicateId(id) = x {
        if exists|i: int, j: int| 0 <= i < j < ids.len() && #[trigger] ids[i] == id && #[trigger] ids[j] == id {
            let (i, j) = choose|i: int, j: int|
                0 <= i < j < ids.len() && #[trigger] ids[i] == id && #[trigger] ids[j] == id;
            assert(nodes[i].id@ == id && nodes[j].id@ == id);
        }
        if exists|i: int, j: int|
            0 <= i < j < nodes.len() && (#[trigger] nodes[i]).id@ == id && (#[trigger] nodes[j]).id@ == id {
            let (i, j) = choose|i: int, j: int|
                0 <= i < j < nodes.len() && (#[trigger] nodes[i]).id@ == id && (#[trigger] nodes[j]).id@ == id;
            assert(ids[i] == id && ids[j] == id);
        }
    }
    if let Flaw::UnknownEndpoint(id) = x {
        if exists|i: int| 0 <= i < l.len() && ((#[trigger] l[i]).0 == id || l[i].1 == id) {
            let i = choose|i: int| 0 <= i < l.len() && ((#[trigger] l[i]).0 == id || l[i].1 == id);
            assert(edges[i].from@ == id || edges[i].to@ == id);
        }
        if exists|i: int| 0 <= i < edges.len() && ((#[trigger] edges[i]).from@ == id || edges[i].to@ == id) {
            let i = choose|i: int| 0 <= i < edges.len() && ((#[trigger] edges[i]).from@ == id || edges[i].to@ == id);
            assert(l[i].0 == id || l[i].1 == id);
        }
    }
}

proof fn lemma_dangling_named(nodes: Seq<Node>, l: Seq<(Seq<char>, Seq<char>)>, x: Flaw)
    ensures
        dangling(nodes, l).contains(x) == (x matches Flaw::DanglingInput(id) && exists|k: int|
            0 <= k < nodes.len() && (#[trigger] nodes[k]).id@ == id && !(nodes[k].kind is Input) && !has_way_in(l, id)),
    decreases nodes.len(),
{
    if nodes.len() > 0 {
        let head = nodes.drop_last();
        let n = nodes.last();
        let there = !(n.kind is Input) && !has_way_in(l, n.id@);
        lemma_dangling_named(head, l, x);
        lemma_flaw_if(there, Flaw::DanglingInput(n.id@), x);
        lemma_either(dangling(head, l), flaw_if(there, Flaw::DanglingInput(n.id@)), x);
        if let Flaw::DanglingInput(id) = x {
            if exists|k: int|
                0 <= k < head.len() && (#[trigger] head[k]).id@ == id && !(head[k].kind is Input) && !has_way_in(l, id) {
                let k = choose|k: int|
                    0 <= k < head.len() && (#[trigger] head[k]).id@ == id && !(head[k].kind is Input) && !has_way_in(
                        l,
                        id,
                    );
                assert(nodes[k] == head[k]);
            }
            if there && n.id@ == id {
                assert(nodes[nodes.len() - 1] == n);
            }
            if exists|k: int|
                0 <= k < nodes.len() && (#[trigger] nodes[k]).id@ == id && !(nodes[k].kind is Input) && !has_way_in(
                    l,
                    id,
                ) {
                let k = choose|k: int|
                    0 <= k < nodes.len() && (#[trigger] nodes[k]).id@ == id && !(nodes[k].kind is Input) && !has_way_in(
                        l,
                        id,
                    );
                if k < head.len() {
                    assert(head[k] == nodes[k]);
                }
            }
        }
    }
}

proof fn lemma_unreachable_named(nodes: Seq<Node>, all: Seq<Node>, l: Seq<(Seq<char>, Seq<char>)>, x: Flaw)
    ensures
        unreachable_nodes(nodes, all, l).contains(x) == (x matches Flaw::Unreachable(id) && !from_input(all, l, id)
            && exists|k: int| 0 <= k < nodes.len() && (#[trigger] nodes[k]).id@ == id),
    decreases nodes.len(),
{
    if nodes.len() > 0 {
        let head = nodes.drop_last();
        let n = nodes.last().id@;
        lemma_unreachable_named(head, all, l, x);
        lemma_flaw_if(!from_input(all, l, n), Flaw::Unreachable(n), x);
        lemma_either(unreachable_nodes(head, all, l), flaw_if(!from_input(all, l, n), Flaw::Unreachable(n)), x);
        if let Flaw::Unreachable(id) = x {
            if exists|k: int| 0 <= k < head.len() && (#[trigger] head[k]).id@ == id {
                let k = choose|k: int| 0 <= k < head.len() && (#[trigger] head[k]).id@ == id;
                assert(nodes[k] == head[k]);
            }
            if n == id {
                assert(nodes[nodes.len() - 1].id@ == id);
            }
            if exists|k: int| 0 <= k < nodes.len() && (#[trigger] nodes[k]).id@ == id {
                let k = choose|k: int| 0 <= k < nodes.len() && (#[trigger] nodes[k]).id@ == id;
                if k < head.len() {
                    assert(head[k] == nodes[k]);
                }
            }
        }
    }
}

proof fn lemma_wasted_named(nodes: Seq<Node>, all: Seq<Node>, l: Seq<(Seq<char>, Seq<char>)>, x: Flaw)
    ensures
        wasted_nodes(nodes, all, l).contains(x) == (x matches Flaw::NoPathToOutput(id) && !to_output(all, l, id)
            && exists|k: int| 0 <= k < nodes.len() && (#[trigger] nodes[k]).id@ == id),
    decreases nodes.len(),
{
    if nodes.len() > 0 {
        let head = nodes.drop_last();
        let n = nodes.last().id@;
        lemma_wasted_named(head, all, l, x);
        lemma_flaw_if(!to_output(all, l, n), Flaw::NoPathToOutput(n), x);
        lemma_either(wasted_nodes(head, all, l), flaw_if(!to_output(all, l, n), Flaw::NoPathToOutput(n)), x);
        if let Flaw::NoPathToOutput(id) = x {
            if exists|k: int| 0 <= k < head.len() && (#[trigger] head[k]).id@ == id {
                let k = choose|k: int| 0 <= k < head.len() && (#[trigger] head[k]).id@ == id;
                assert(nodes[k] == head[k]);
            }
            if n == id {
                assert(nodes[nodes.len() - 1].id@ == id);
            }
            if exists|k: int| 0 <= k < nodes.len() && (#[trigger] nodes[k]).id@ == id {
                let k = choose|k: int| 0 <= k < nodes.len() && (#[trigger] nodes[k]).id@ == id;
                if k < head.len() {
                    assert(head[k] == nodes[k]);
                }
            }
        }
    }
}

proof fn lemma_unbounded_named(
    back: Seq<(Seq<char>, Seq<char>)>,
    all: Seq<Node>,
    l: Seq<(Seq<char>, Seq<char>)>,
    x: Flaw,
)
    ensures
        unbounded(back, all, l).contains(x) == (x matches Flaw::UnboundedLoop(to) && exists|k: int|
            0 <= k < back.len() && (#[trigger] back[k]).1 == to && !is_bounded(all, l, back[k].0, to)),
    decreases back.len(),
{
    if back.len() > 0 {
        let head = back.drop_last();
        let (from, end) = back.last();
        lemma_unbounded_named(head, all, l, x);
        lemma_flaw_if(!is_bounded(all, l, from, end), Flaw::UnboundedLoop(end), x);
        lemma_either(
            unbounded(head, all, l),
            flaw_if(!is_bounded(all, l, from, end), Flaw::UnboundedLoop(end)),
            x,
        );
        if let Flaw::UnboundedLoop(to) = x {
            if exists|k: int|
                0 <= k < head.len() && (#[trigger] head[k]).1 == to && !is_bounded(all, l, head[k].0, to) {
                let k = choose|k: int|
                    0 <= k < head.len() && (#[trigger] head[k]).1 == to && !is_bounded(all, l, head[k].0, to);
                assert(back[k] == head[k]);
            }
            if end == to && !is_bounded(all, l, from, end) {
                assert(back[back.len() - 1] == (from, end));
            }
            if exists|k: int|
                0 <= k < back.len() && (#[trigger] back[k]).1 == to && !is_bounded(all, l, back[k].0, to) {
                let k = choose|k: int|
                    0 <= k < back.len() && (#[trigger] back[k]).1 == to && !is_bounded(all, l, back[k].0, to);
                if k < head.len() {
                    assert(head[k] == back[k]);
                }
            }
        }
    }
}

/// What is wrong with a node by itself: an agent needs a slot and an output, a tool
/// an output and a command.
pub open spec fn is_misconfigured(n: Node, why: Seq<char>) -> bool {
    let agent = n.kind is Agent || n.kind is Foreman;
    let silent = n.output is None || n.output->0@.len() == 0;
    ||| agent && why == "no model slot is bound"@ && (n.slot is None || n.slot->0@.len() == 0)
    ||| (agent || n.kind is Tool) && why == "no output document is declared"@ && silent
    ||| n.kind is Tool && why == "no command is set"@ && (n.command is None || n.command->0@.len() == 0)
}

proof fn lemma_configuration_named(nodes: Seq<Node>, x: Flaw)
    ensures
        configuration_flaws(nodes).contains(x) == (x matches Flaw::InvalidNode { id, why } && exists|k: int|
            0 <= k < nodes.len() && (#[trigger] nodes[k]).id@ == id && is_misconfigured(nodes[k], why)),
    decreases nodes.len(),
{
    if nodes.len() > 0 {
        let head = nodes.drop_last();
        let n = nodes.last();
        let id = n.id@;
        lemma_configuration_named(head, x);
        lemma_either(configuration_flaws(head), node_flaws(n), x);
        let slot = Flaw::InvalidNode { id, why: "no model slot is bound"@ };
        let output = Flaw::InvalidNode { id, why: "no output document is declared"@ };
        let command = Flaw::InvalidNode { id, why: "no command is set"@ };
        let no_command = match n.command {
            Some(c) => c@.len() == 0,
            None => true,
        };
        lemma_flaw_if(is_unset(n.slot), slot, x);
        lemma_flaw_if(is_unset(n.output), output, x);
        lemma_flaw_if(no_command, command, x);
        lemma_either(flaw_if(is_unset(n.slot), slot), flaw_if(is_unset(n.output), output), x);
        lemma_either(flaw_if(is_unset(n.output), output), flaw_if(no_command, command), x);
        assert(node_flaws(n).contains(x) == (x matches Flaw::InvalidNode { id: i, why } && i == id && is_misconfigured(
            n,
            why,
        )));
        if let Flaw::InvalidNode { id: i, why } = x {
            if exists|k: int|
                0 <= k < head.len() && (#[trigger] head[k]).id@ == i && is_misconfigured(head[k], why) {
                let k = choose|k: int|
                    0 <= k < head.len() && (#[trigger] head[k]).id@ == i && is_misconfigured(head[k], why);
                assert(nodes[k] == head[k]);
            }
            if id == i && is_misconfigured(n, why) {
                assert(nodes[nodes.len() - 1] == n);
            }
            if exists|k: int|
                0 <= k < nodes.len() && (#[trigger] nodes[k]).id@ == i && is_misconfigured(nodes[k], why) {
                let k = choose|k: int|
                    0 <= k < nodes.len() && (#[trigger] nodes[k]).id@ == i && is_misconfigured(nodes[k], why);
                if k < head.len() {
                    assert(head[k] == nodes[k]);
                }
            }
        }
    }
}

/// Whether the names of a graph are in order, and it has both of its ends.
pub open spec fn has_a_frame(nodes: Seq<Node>, edges: Seq<Edge>) -> bool {
    &&& forall|i: int, j: int|
        0 <= i < j < nodes.len() ==> (#[trigger] nodes[i]).id@ != (#[trigger] nodes[j]).id@
    &&& forall|i: int|
        0 <= i < edges.len() ==> graph::ids(nodes).contains((#[trigger] edges[i]).from@) && graph::ids(nodes).contains(
            edges[i].to@,
        )
    &&& exists|k: int| 0 <= k < nodes.len() && (#[trigger] nodes[k]).kind is Input
    &&& exists|k: int| 0 <= k < nodes.len() && (#[trigger] nodes[k]).kind is Output
}

proof fn lemma_frame(nodes: Seq<Node>, edges: Seq<Edge>)
    requires
        has_a_frame(nodes, edges),
    ensures
        repeated(graph::ids(nodes)).len() == 0,
        unknown_ends(graph::links(edges), graph::ids(nodes)).len() == 0,
        has_kind(nodes, NodeKind::Input),
        has_kind(nodes, NodeKind::Output),
{
    let l = graph::links(edges);
    let ids = graph::ids(nodes);
    let a = repeated(ids);
    let b = unknown_ends(l, ids);
    if a.len() > 0 {
        lemma_repeated_names(ids, a[0]);
        assert(a.contains(a[0]));
        let id = a[0]->DuplicateId_0;
        let (i, j) = choose|i: int, j: int|
            0 <= i < j < ids.len() && #[trigger] ids[i] == id && #[trigger] ids[j] == id;
        assert(nodes[i].id@ == nodes[j].id@);
    }
    if b.len() > 0 {
        lemma_unknown_names(l, ids, b[0]);
        assert(b.contains(b[0]));
        let id = b[0]->UnknownEndpoint_0;
        let i = choose|i: int| 0 <= i < l.len() && ((#[trigger] l[i]).0 == id || l[i].1 == id);
        assert(l[i] == (edges[i].from@, edges[i].to@));
        assert(ids.contains(edges[i].from@));
    }
    let k = choose|k: int| 0 <= k < nodes.len() && (#[trigger] nodes[k]).kind is Input;
    assert(nodes[k].kind == NodeKind::Input);
    let m = choose|k: int| 0 <= k < nodes.len() && (#[trigger] nodes[k]).kind is Output;
    assert(nodes[m].kind == NodeKind::Output);
}

/// Of a graph whose names and ends are in order, every flaw is named, and nothing
/// that is none: a node that no connection leads to, one that no input reaches, one
/// that reaches no output, one that lacks what its kind needs, and where a cycle
/// closes that no loop with a limit bounds.
pub proof fn law_every_flaw_is_named(nodes: Seq<Node>, edges: Seq<Edge>, x: Flaw)
    requires
        has_a_frame(nodes, edges),
    ensures
        ({
            let l = graph::links(edges);
            let back = cycles::back_links(l, graph::ids(nodes));
            flaws(nodes, edges).contains(x) == match x {
                Flaw::DanglingInput(id) => exists|k: int|
                    0 <= k < nodes.len() && (#[trigger] nodes[k]).id@ == id && !(nodes[k].kind is Input) && !(exists|
                        i: int,
                    |
                        0 <= i < edges.len() && (#[trigger] edges[i]).to@ == id),
                Flaw::Unreachable(id) => (exists|k: int| 0 <= k < nodes.len() && (#[trigger] nodes[k]).id@ == id)
                    && !(exists|k: int|
                    0 <= k < nodes.len() && (#[trigger] nodes[k]).kind is Input && graph::reaches(l, nodes[k].id@, id)),
                Flaw::NoPathToOutput(id) => (exists|k: int| 0 <= k < nodes.len() && (#[trigger] nodes[k]).id@ == id)
                    && !(exists|k: int|
                    0 <= k < nodes.len() && (#[trigger] nodes[k]).kind is Output && graph::reaches(l, id, nodes[k].id@)),
                Flaw::InvalidNode { id, why } => exists|k: int|
                    0 <= k < nodes.len() && (#[trigger] nodes[k]).id@ == id && is_misconfigured(nodes[k], why),
                Flaw::UnboundedLoop(to) => exists|k: int|
                    0 <= k < back.len() && (#[trigger] back[k]).1 == to && !(exists|n: int|
                        0 <= n < nodes.len() && (#[trigger] nodes[n]).kind is Loop && (nodes[n].loop_limit matches Some(
                            limit,
                        ) && limit > 0) && graph::reaches(l, to, nodes[n].id@) && graph::reaches(
                            l,
                            nodes[n].id@,
                            back[k].0,
                        )),
                _ => false,
            }
        }),
{
    let l = graph::links(edges);
    let ids = graph::ids(nodes);
    lemma_frame(nodes, edges);
    let a = configuration_flaws(nodes);
    let b = dangling(nodes, l);
    let c = unreachable_nodes(nodes, nodes, l);
    let d = wasted_nodes(nodes, nodes, l);
    let back = cycles::back_links(l, ids);
    let e = unbounded(back, nodes, l);
    let ends = flaw_if(false, Flaw::MissingInput) + flaw_if(false, Flaw::MissingOutput);
    assert(ends.len() == 0);
    assert((repeated(ids) + unknown_ends(l, ids)).len() == 0);
    assert(flaws(nodes, edges) == a + b + c + d + e);
    lemma_either(a, b, x);
    lemma_either(a + b, c, x);
    lemma_either(a + b + c, d, x);
    lemma_either(a + b + c + d, e, x);
    lemma_configuration_named(nodes, x);
    lemma_dangling_named(nodes, l, x);
    lemma_unreachable_named(nodes, nodes, l, x);
    lemma_wasted_named(nodes, nodes, l, x);
    lemma_unbounded_named(back, nodes, l, x);
    if let Flaw::DanglingInput(id) = x {
        if has_way_in(l, id) {
            let i = choose|i: int| 0 <= i < l.len() && (#[trigger] l[i]).1 == id;
            assert(edges[i].to@ == id);
        }
        if exists|i: int| 0 <= i < edges.len() && (#[trigger] edges[i]).to@ == id {
            let i = choose|i: int| 0 <= i < edges.len() && (#[trigger] edges[i]).to@ == id;
            assert(l[i].1 == id);
        }
    }
    if let Flaw::UnboundedLoop(to) = x {
        assert forall|k: int| 0 <= k < back.len() implies is_bounded(nodes, l, #[trigger] back[k].0, to) == (exists|
            n: int,
        |
            0 <= n < nodes.len() && (#[trigger] nodes[n]).kind is Loop && (nodes[n].loop_limit matches Some(limit)
                && limit > 0) && graph::reaches(l, to, nodes[n].id@) && graph::reaches(l, nodes[n].id@, back[k].0)) by {
            if is_bounded(nodes, l, back[k].0, to) {
                let n = choose|n: int|
                    0 <= n < nodes.len() && bounds(#[trigger] nodes[n]) && graph::reaches(l, to, nodes[n].id@)
                        && graph::reaches(l, nodes[n].id@, back[k].0);
                assert(nodes[n].kind is Loop);
            }
            if exists|n: int|
                0 <= n < nodes.len() && (#[trigger] nodes[n]).kind is Loop && (nodes[n].loop_limit matches Some(limit)
                    && limit > 0) && graph::reaches(l, to, nodes[n].id@) && graph::reaches(
                    l,
                    nodes[n].id@,
                    back[k].0,
                ) {
                let n = choose|n: int|
                    0 <= n < nodes.len() && (#[trigger] nodes[n]).kind is Loop && (nodes[n].loop_limit matches Some(limit)
                        && limit > 0) && graph::reaches(l, to, nodes[n].id@) && graph::reaches(
                        l,
                        nodes[n].id@,
                        back[k].0,
                    );
                assert(bounds(nodes[n]));
            }
        }
    }
}

/// A graph without an input or without an output is told so, where its names are in
/// order.
pub proof fn law_a_missing_end_is_named(nodes: Seq<Node>, edges: Seq<Edge>)
    requires
        repeated(graph::ids(nodes)).len() == 0,
        unknown_ends(graph::links(edges), graph::ids(nodes)).len() == 0,
    ensures
        (forall|k: int| 0 <= k < nodes.len() ==> !((#[trigger] nodes[k]).kind is Input)) <==> flaws(
            nodes,
            edges,
        ).contains(Flaw::MissingInput),
        (forall|k: int| 0 <= k < nodes.len() ==> !((#[trigger] nodes[k]).kind is Output)) <==> flaws(
            nodes,
            edges,
        ).contains(Flaw::MissingOutput),
{
    let l = graph::links(edges);
    let ids = graph::ids(nodes);
    let no_input = !has_kind(nodes, NodeKind::Input);
    let no_output = !has_kind(nodes, NodeKind::Output);
    let a = flaw_if(no_input, Flaw::MissingInput);
    let b = flaw_if(no_output, Flaw::MissingOutput);
    lemma_flaw_if(no_input, Flaw::MissingInput, Flaw::MissingInput);
    lemma_flaw_if(no_output, Flaw::MissingOutput, Flaw::MissingInput);
    lemma_flaw_if(no_input, Flaw::MissingInput, Flaw::MissingOutput);
    lemma_flaw_if(no_output, Flaw::MissingOutput, Flaw::MissingOutput);
    lemma_either(a, b, Flaw::MissingInput);
    lemma_either(a, b, Flaw::MissingOutput);
    if has_kind(nodes, NodeKind::Input) {
        let k = choose|k: int| 0 <= k < nodes.len() && (#[trigger] nodes[k]).kind == NodeKind::Input;
        assert(nodes[k].kind is Input);
    }
    if has_kind(nodes, NodeKind::Output) {
        let k = choose|k: int| 0 <= k < nodes.len() && (#[trigger] nodes[k]).kind == NodeKind::Output;
        assert(nodes[k].kind is Output);
    }
    assert(forall|k: int| 0 <= k < nodes.len() && (#[trigger] nodes[k]).kind is Input ==> nodes[k].kind == NodeKind::Input);
    assert(forall|k: int|
        0 <= k < nodes.len() && (#[trigger] nodes[k]).kind is Output ==> nodes[k].kind == NodeKind::Output);
    if !no_input && !no_output {
        let v = configuration_flaws(nodes);
        let w = dangling(nodes, l);
        let x = unreachable_nodes(nodes, nodes, l);
        let y = wasted_nodes(nodes, nodes, l);
        let back = cycles::back_links(l, ids);
        let z = unbounded(back, nodes, l);
        assert((a + b).len() == 0);
        lemma_ends_are_not_among(nodes, l, back, Flaw::MissingInput);
        lemma_ends_are_not_among(nodes, l, back, Flaw::MissingOutput);
    } else {
        if no_input {
            assert(a.len() == 1);
        } else {
            assert(b.len() == 1);
        }
        assert((a + b).len() > 0);
    }
}

proof fn lemma_ends_are_not_among(
    nodes: Seq<Node>,
    l: Seq<(Seq<char>, Seq<char>)>,
    back: Seq<(Seq<char>, Seq<char>)>,
    x: Flaw,
)
    requires
        x is MissingInput || x is MissingOutput,
    ensures
        !(configuration_flaws(nodes) + dangling(nodes, l) + unreachable_nodes(nodes, nodes, l) + wasted_nodes(
            nodes,
            nodes,
            l,
        ) + unbounded(back, nodes, l)).contains(x),
{
    let a = configuration_flaws(nodes);
    let b = dangling(nodes, l);
    let c = unreachable_nodes(nodes, nodes, l);
    let d = wasted_nodes(nodes, nodes, l);
    let e = unbounded(back, nodes, l);
    lemma_either(a, b, x);
    lemma_either(a + b, c, x);
    lemma_either(a + b + c, d, x);
    lemma_either(a + b + c + d, e, x);
    lemma_configuration_named(nodes, x);
    lemma_dangling_named(nodes, l, x);
    lemma_unreachable_named(nodes, nodes, l, x);
    lemma_wasted_named(nodes, nodes, l, x);
    lemma_unbounded_named(back, nodes, l, x);
}

} // verus!
