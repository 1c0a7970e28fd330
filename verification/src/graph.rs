//! The workflow graph: model, validation, and the topology the engine walks.
//!
//! Pure by construction — no I/O, no clock. The validator carries a promise the
//! engine relies on; the laws that state it stand in [`crate::validation`] and
//! [`crate::cycles`].

use vstd::prelude::*;
use crate::text;
use crate::text::{chars_of, equal, same, trimmed};

verus! {

pub type NodeId = String;

#[derive(Debug, Clone, Copy, PartialEq, Eq, Structural)]
pub enum NodeKind {
    Input,
    Output,
    Agent,
    Foreman,
    Tool,
    Gate,
    Branch,
    Loop,
    Merge,
}

impl NodeKind {
    /// Kinds that instantiate a role and therefore need a model and an output.
    pub fn needs_model(&self) -> (r: bool)
        ensures
            r == (self is Agent || self is Foreman),
    {
        matches!(self, NodeKind::Agent | NodeKind::Foreman)
    }
}

#[derive(Debug, Clone, PartialEq, Eq)]
pub struct Node {
    pub id: NodeId,
    pub kind: NodeKind,
    pub role: Option<String>,
    pub slot: Option<String>,
    /// Document this node writes. Required of anything that produces one.
    pub output: Option<String>,
    /// Required of a Loop node: the engine refuses an unbounded one.
    pub loop_limit: Option<u32>,
    /// Required of a Tool node: program first, then arguments.
    pub command: Option<Vec<String>>,
    pub gate: bool,
}

/// A branch reads a field of a document's `results` block. Never the prose:
/// routing that depends on wording breaks the moment a model rephrases.
#[derive(Debug, Clone, PartialEq, Eq)]
pub struct Condition {
    pub document: String,
    pub field: String,
    pub op: Op,
    pub value: String,
}

#[derive(Debug, Clone, Copy, PartialEq, Eq, Structural)]
pub enum Op {
    Eq,
    Ne,
    Gt,
    Lt,
}

/// How two numbers stand to each other: closer than the smallest step above one,
/// the first greater, the first less.
#[derive(Debug, Clone, Copy, PartialEq, Eq, Structural)]
pub struct Numbers {
    pub close: bool,
    pub greater: bool,
    pub less: bool,
}

/// Whether a condition holds of a value: by the numbers where both sides are
/// numbers, by the letters otherwise.
pub open spec fn condition_holds(
    op: Op,
    actual: Seq<char>,
    wanted: Seq<char>,
    numbers: Option<Numbers>,
) -> bool {
    match numbers {
        Some(n) => match op {
            Op::Eq => n.close,
            Op::Ne => !n.close,
            Op::Gt => n.greater,
            Op::Lt => n.less,
        },
        None => match op {
            Op::Eq => text::same_letters(text::trim(actual), text::trim(wanted)),
            Op::Ne => !text::same_letters(text::trim(actual), text::trim(wanted)),
            _ => false,
        },
    }
}

impl Condition {
    /// Numeric where both sides are numbers, textual otherwise. `numbers` is how
    /// the two compare, where both sides read as numbers.
    pub fn holds(&self, actual: &str, numbers: Option<Numbers>) -> (r: bool)
        ensures
            r == condition_holds(self.op, actual@, self.value@, numbers),
    {
        match numbers {
            Some(n) => match self.op {
                Op::Eq => n.close,
                Op::Ne => !n.close,
                Op::Gt => n.greater,
                Op::Lt => n.less,
            },
            None => {
                let x = chars_of(actual);
                let y = chars_of(self.value.as_str());
                let a = text::lowered(trimmed(x.as_slice()));
                let b = text::lowered(trimmed(y.as_slice()));
                match self.op {
                    Op::Eq => equal(a.as_slice(), b.as_slice()),
                    Op::Ne => !equal(a.as_slice(), b.as_slice()),
                    Op::Gt => false,
                    Op::Lt => false,
                }
            },
        }
    }
}

#[derive(Debug, Clone, PartialEq, Eq)]
pub struct Edge {
    pub from: NodeId,
    pub to: NodeId,
    /// Unconditional when absent. On a Branch node the first edge whose
    /// condition holds is taken; an unconditional edge is the fallback.
    pub when: Option<Condition>,
}

#[derive(Debug, Clone, PartialEq, Eq)]
pub struct Graph {
    pub nodes: Vec<Node>,
    pub edges: Vec<Edge>,
}

impl Default for Graph {
    fn default() -> (g: Self)
        ensures
            g.nodes@.len() == 0,
            g.edges@.len() == 0,
    {
        Graph { nodes: Vec::new(), edges: Vec::new() }
    }
}

// ---------------------------------------------------------------------- the model

/// The names of the nodes, in order.
pub open spec fn ids(nodes: Seq<Node>) -> Seq<Seq<char>> {
    nodes.map_values(|n: Node| n.id@)
}

/// The connections, in order.
pub open spec fn links(edges: Seq<Edge>) -> Seq<(Seq<char>, Seq<char>)> {
    edges.map_values(|e: Edge| (e.from@, e.to@))
}

/// Where the connections from `id` lead, in order.
pub open spec fn targets(l: Seq<(Seq<char>, Seq<char>)>, id: Seq<char>) -> Seq<Seq<char>>
    decreases l.len(),
{
    if l.len() == 0 {
        seq![]
    } else if l.last().0 == id {
        targets(l.drop_last(), id).push(l.last().1)
    } else {
        targets(l.drop_last(), id)
    }
}

/// The connections, each the other way round.
pub open spec fn reversed(l: Seq<(Seq<char>, Seq<char>)>) -> Seq<(Seq<char>, Seq<char>)> {
    l.map_values(|e: (Seq<char>, Seq<char>)| (e.1, e.0))
}

/// Whether the step from place `i` of the path to the next is a connection.
pub open spec fn linked(l: Seq<(Seq<char>, Seq<char>)>, p: Seq<Seq<char>>, i: int) -> bool {
    l.contains((p[i], p[i + 1]))
}

/// Whether each step along the path is a connection.
pub open spec fn is_path(l: Seq<(Seq<char>, Seq<char>)>, p: Seq<Seq<char>>) -> bool {
    p.len() > 0 && forall|i: int| 0 <= i < p.len() - 1 ==> #[trigger] linked(l, p, i)
}

/// Whether the path leads from `a` to `b`.
pub open spec fn leads(l: Seq<(Seq<char>, Seq<char>)>, p: Seq<Seq<char>>, a: Seq<char>, b: Seq<char>) -> bool {
    is_path(l, p) && p[0] == a && p.last() == b
}

/// Whether `b` can be reached from `a`, in any number of steps.
pub open spec fn reaches(l: Seq<(Seq<char>, Seq<char>)>, a: Seq<char>, b: Seq<char>) -> bool {
    exists|p: Seq<Seq<char>>| leads(l, p, a, b)
}

/// The first node of that name.
pub open spec fn first_named(nodes: Seq<Node>, id: Seq<char>) -> Option<Node>
    decreases nodes.len(),
{
    if nodes.len() == 0 {
        None
    } else if nodes[0].id@ == id {
        Some(nodes[0])
    } else {
        first_named(nodes.drop_first(), id)
    }
}

/// The names that a list of references points at.
pub open spec fn named(v: Seq<&NodeId>) -> Seq<Seq<char>> {
    v.map_values(|s: &NodeId| s@)
}

impl Graph {
    pub open spec fn ids(self) -> Seq<Seq<char>> {
        ids(self.nodes@)
    }

    pub open spec fn links(self) -> Seq<(Seq<char>, Seq<char>)> {
        links(self.edges@)
    }

    pub fn node(&self, id: &str) -> (r: Option<&Node>)
        ensures
            r is Some == first_named(self.nodes@, id@) is Some,
            r matches Some(n) ==> Some(*n) == first_named(self.nodes@, id@),
    {
        let ghost all = self.nodes@;
        let mut i: usize = 0;
        assert(all.skip(0) =~= all);
        while i < self.nodes.len()
            invariant
                i <= self.nodes.len(),
                all == self.nodes@,
                first_named(all.skip(i as int), id@) == first_named(all, id@),
            decreases self.nodes.len() - i,
        {
            assert(all.skip(i as int)[0] == all[i as int]);
            assert(all.skip(i as int).drop_first() =~= all.skip(i + 1));
            if same(self.nodes[i].id.as_str(), id) {
                return Some(&self.nodes[i]);
            }
            i = i + 1;
        }
        None
    }

    pub fn successors(&self, id: &str) -> (v: Vec<&NodeId>)
        ensures
            named(v@) == targets(self.links(), id@),
    {
        let mut v: Vec<&NodeId> = Vec::new();
        let ghost l = self.links();
        let mut i: usize = 0;
        assert(named(v@) =~= targets(l.take(0), id@));
        while i < self.edges.len()
            invariant
                i <= self.edges.len(),
                l == self.links(),
                named(v@) == targets(l.take(i as int), id@),
            decreases self.edges.len() - i,
        {
            let ghost before = v@;
            assert(l.take(i + 1).drop_last() =~= l.take(i as int));
            assert(l.take(i + 1).last() == l[i as int]);
            if same(self.edges[i].from.as_str(), id) {
                v.push(&self.edges[i].to);
                assert(named(v@) =~= named(before).push(self.edges@[i as int].to@));
            }
            i = i + 1;
        }
        assert(l.take(i as int) =~= l);
        v
    }

    pub fn predecessors(&self, id: &str) -> (v: Vec<&NodeId>)
        ensures
            named(v@) == targets(reversed(self.links()), id@),
    {
        let mut v: Vec<&NodeId> = Vec::new();
        let ghost l = reversed(self.links());
        let mut i: usize = 0;
        assert(named(v@) =~= targets(l.take(0), id@));
        while i < self.edges.len()
            invariant
                i <= self.edges.len(),
                l == reversed(self.links()),
                named(v@) == targets(l.take(i as int), id@),
            decreases self.edges.len() - i,
        {
            let ghost before = v@;
            assert(l.take(i + 1).drop_last() =~= l.take(i as int));
            assert(l.take(i + 1).last() == l[i as int]);
            if same(self.edges[i].to.as_str(), id) {
                v.push(&self.edges[i].from);
                assert(named(v@) =~= named(before).push(self.edges@[i as int].from@));
            }
            i = i + 1;
        }
        assert(l.take(i as int) =~= l);
        v
    }
}

// ------------------------------------------------------------------ lists of names

pub fn holds_name(v: &[String], id: &str) -> (r: bool)
    ensures
        r == text::texts(v@).contains(id@),
{
    let ghost all = text::texts(v@);
    let mut i: usize = 0;
    while i < v.len()
        invariant
            i <= v.len(),
            all == text::texts(v@),
            forall|j: int| 0 <= j < i ==> all[j] != id@,
        decreases v.len() - i,
    {
        if same(v[i].as_str(), id) {
            assert(all[i as int] == id@);
            return true;
        }
        i = i + 1;
    }
    assert(all.len() == v@.len());
    false
}

/// A name the connections from a place lead to is the end of one of them.
pub proof fn lemma_targets(l: Seq<(Seq<char>, Seq<char>)>, id: Seq<char>, b: Seq<char>)
    ensures
        targets(l, id).contains(b) == l.contains((id, b)),
    decreases l.len(),
{
    if l.len() > 0 {
        let head = l.drop_last();
        lemma_targets(head, id, b);
        let t = targets(head, id);
        if l.contains((id, b)) {
            let i = choose|i: int| 0 <= i < l.len() && l[i] == (id, b);
            if i < head.len() {
                assert(head[i] == l[i]);
                assert(head.contains((id, b)));
                let j = choose|j: int| 0 <= j < t.len() && t[j] == b;
                assert(targets(l, id)[j] == b);
            } else {
                assert(targets(l, id) == t.push(b));
                assert(targets(l, id)[t.len() as int] == b);
            }
        }
        if targets(l, id).contains(b) {
            let j = choose|j: int| 0 <= j < targets(l, id).len() && targets(l, id)[j] == b;
            if j < t.len() {
                assert(t[j] == b);
                assert(t.contains(b));
                let i = choose|i: int| 0 <= i < head.len() && head[i] == (id, b);
                assert(l[i] == (id, b));
            } else {
                assert(l[l.len() - 1] == (id, b));
            }
        }
    }
}

// ------------------------------------------------------------------- reachability

pub proof fn lemma_reaches_itself(l: Seq<(Seq<char>, Seq<char>)>, a: Seq<char>)
    ensures
        reaches(l, a, a),
{
    assert(leads(l, seq![a], a, a));
}

/// One connection further.
pub proof fn lemma_reaches_on(l: Seq<(Seq<char>, Seq<char>)>, a: Seq<char>, b: Seq<char>, c: Seq<char>)
    requires
        reaches(l, a, b),
        l.contains((b, c)),
    ensures
        reaches(l, a, c),
{
    let p = choose|p: Seq<Seq<char>>| leads(l, p, a, b);
    let q = p.push(c);
    assert forall|i: int| 0 <= i < q.len() - 1 implies #[trigger] linked(l, q, i) by {
        if i < p.len() - 1 {
            assert(linked(l, p, i));
            assert(q[i] == p[i] && q[i + 1] == p[i + 1]);
        } else {
            assert(q[i] == b && q[i + 1] == c);
        }
    }
    assert(leads(l, q, a, c));
}

/// What holds the start and everything one connection further holds everything
/// that can be reached.
proof fn lemma_closed(l: Seq<(Seq<char>, Seq<char>)>, s: Seq<Seq<char>>, p: Seq<Seq<char>>)
    requires
        is_path(l, p),
        s.contains(p[0]),
        forall|a: Seq<char>, b: Seq<char>| s.contains(a) && #[trigger] l.contains((a, b)) ==> s.contains(b),
    ensures
        s.contains(p.last()),
    decreases p.len(),
{
    if p.len() > 1 {
        let q = p.drop_last();
        assert forall|i: int| 0 <= i < q.len() - 1 implies #[trigger] linked(l, q, i) by {
            assert(linked(l, p, i));
            assert(q[i] == p[i] && q[i + 1] == p[i + 1]);
        }
        lemma_closed(l, s, q);
        let k = p.len() - 2;
        assert(linked(l, p, k));
    }
}

/// A list without repetitions of things from another is no longer than that one.
pub proof fn lemma_no_longer(v: Seq<Seq<char>>, from: Seq<Seq<char>>)
    requires
        v.no_duplicates(),
        forall|i: int| 0 <= i < v.len() ==> from.contains(#[trigger] v[i]),
    ensures
        v.len() <= from.len(),
{
    v.unique_seq_to_set();
    from.lemma_cardinality_of_set();
    assert(v.to_set().subset_of(from.to_set())) by {
        assert forall|a: Seq<char>| v.to_set().contains(a) implies from.to_set().contains(a) by {
            let i = choose|i: int| 0 <= i < v.len() && v[i] == a;
            assert(from.contains(v[i]));
        }
    }
    vstd::set_lib::lemma_len_subset(v.to_set(), from.to_set());
}

/// The ends of the connections.
spec fn far_ends(l: Seq<(Seq<char>, Seq<char>)>) -> Seq<Seq<char>> {
    l.map_values(|e: (Seq<char>, Seq<char>)| e.1)
}

/// What a search from `start` has found so far, those before `done` with all
/// that lies one connection further.
spec fn is_search(
    l: Seq<(Seq<char>, Seq<char>)>,
    start: Seq<char>,
    found: Seq<Seq<char>>,
    done: int,
) -> bool {
    &&& 0 <= done <= found.len()
    &&& found.len() > 0
    &&& found[0] == start
    &&& found.no_duplicates()
    &&& forall|i: int| 0 <= i < found.len() ==> reaches(l, start, #[trigger] found[i])
    &&& forall|i: int| 1 <= i < found.len() ==> far_ends(l).contains(#[trigger] found[i])
    &&& forall|i: int, b: Seq<char>|
        0 <= i < done && #[trigger] l.contains((found[i], b)) ==> found.contains(b)
}

proof fn lemma_search_bound(
    l: Seq<(Seq<char>, Seq<char>)>,
    start: Seq<char>,
    found: Seq<Seq<char>>,
    done: int,
)
    requires
        is_search(l, start, found, done),
    ensures
        found.len() <= l.len() + 1,
{
    let from = seq![start] + far_ends(l);
    assert forall|i: int| 0 <= i < found.len() implies from.contains(#[trigger] found[i]) by {
        if i == 0 {
            assert(from[0] == start);
        } else {
            let j = choose|j: int| 0 <= j < far_ends(l).len() && far_ends(l)[j] == found[i];
            assert(from[j + 1] == found[i]);
        }
    }
    lemma_no_longer(found, from);
}

proof fn lemma_search_done(l: Seq<(Seq<char>, Seq<char>)>, start: Seq<char>, found: Seq<Seq<char>>)
    requires
        is_search(l, start, found, found.len() as int),
    ensures
        forall|b: Seq<char>| found.contains(b) == reaches(l, start, b),
{
    assert forall|b: Seq<char>| found.contains(b) == reaches(l, start, b) by {
        if found.contains(b) {
            let i = choose|i: int| 0 <= i < found.len() && found[i] == b;
            assert(reaches(l, start, found[i]));
        }
        if reaches(l, start, b) {
            let p = choose|p: Seq<Seq<char>>| leads(l, p, start, b);
            assert(found.contains(p[0])) by {
                assert(found[0] == start);
            }
            assert forall|x: Seq<char>, y: Seq<char>| found.contains(x) && #[trigger] l.contains(
                (x, y),
            ) implies found.contains(y) by {
                let i = choose|i: int| 0 <= i < found.len() && found[i] == x;
                assert(l.contains((found[i], y)));
            }
            lemma_closed(l, found, p);
        }
    }
}

impl Graph {
    /// The connections in the direction of a walk.
    pub open spec fn ways(self, forward: bool) -> Seq<(Seq<char>, Seq<char>)> {
        if forward {
            self.links()
        } else {
            reversed(self.links())
        }
    }

    fn next_names(&self, id: &str, forward: bool) -> (v: Vec<&NodeId>)
        ensures
            named(v@) == targets(self.ways(forward), id@),
    {
        if forward {
            self.successors(id)
        } else {
            self.predecessors(id)
        }
    }

    /// Everything that a walk from `start` meets, `start` with it.
    pub fn reachable_from(&self, start: &str, forward: bool) -> (v: Vec<NodeId>)
        ensures
            forall|b: Seq<char>|
                text::texts(v@).contains(b) == #[trigger] reaches(self.ways(forward), start@, b),
    {
        let ghost l = self.ways(forward);
        let mut found: Vec<NodeId> = Vec::new();
        found.push(start.to_owned());
        let mut done: usize = 0;
        proof {
            lemma_reaches_itself(l, start@);
            assert(text::texts(found@) =~= seq![start@]);
        }
        while done < found.len()
            invariant
                l == self.ways(forward),
                found@.len() == text::texts(found@).len(),
                is_search(l, start@, text::texts(found@), done as int),
            decreases l.len() + 1 - done,
        {
            let ghost cur = text::texts(found@)[done as int];
            let next = self.next_names(found[done].as_str(), forward);
            assert(found@[done as int]@ == cur);
            let mut i: usize = 0;
            while i < next.len()
                invariant
                    i <= next.len(),
                    l == self.ways(forward),
                    named(next@) == targets(l, cur),
                    done < found@.len(),
                    found@.len() == text::texts(found@).len(),
                    text::texts(found@)[done as int] == cur,
                    is_search(l, start@, text::texts(found@), done as int),
                    forall|j: int| 0 <= j < i ==> text::texts(found@).contains(#[trigger] named(next@)[j]),
                decreases next.len() - i,
            {
                let ghost before = text::texts(found@);
                let ghost b = named(next@)[i as int];
                assert(next@[i as int]@ == b);
                proof {
                    lemma_targets(l, cur, b);
                    assert(targets(l, cur).contains(b));
                    lemma_reaches_on(l, start@, cur, b);
                }
                if !holds_name(found.as_slice(), next[i].as_str()) {
                    let name = next[i].as_str().to_owned();
                    proof {
                        text::lemma_texts_push(found@, name);
                    }
                    found.push(name);
                    let ghost after = text::texts(found@);
                    proof {
                        assert(after == before.push(b));
                        let k = choose|k: int| 0 <= k < l.len() && l[k] == (cur, b);
                        assert(far_ends(l)[k] == b);
                        assert forall|x: int, y: Seq<char>| 0 <= x < done && #[trigger] l.contains(
                            (after[x], y),
                        ) implies after.contains(y) by {
                            assert(after[x] == before[x]);
                            assert(before.contains(y));
                            let z = choose|z: int| 0 <= z < before.len() && before[z] == y;
                            assert(after[z] == y);
                        }
                        assert forall|j: int| 0 <= j < i implies after.contains(#[trigger] named(next@)[j]) by {
                            let z = choose|z: int| 0 <= z < before.len() && before[z] == named(next@)[j];
                            assert(after[z] == named(next@)[j]);
                        }
                        assert(after[after.len() - 1] == b);
                    }
                }
                i = i + 1;
            }
            proof {
                let f = text::texts(found@);
                assert forall|x: int, y: Seq<char>| 0 <= x < done + 1 && #[trigger] l.contains(
                    (f[x], y),
                ) implies f.contains(y) by {
                    if x == done {
                        lemma_targets(l, cur, y);
                        let j = choose|j: int| 0 <= j < targets(l, cur).len() && targets(l, cur)[j] == y;
                        assert(f.contains(named(next@)[j]));
                    }
                }
                lemma_search_bound(l, start@, f, done as int);
            }
            done = done + 1;
        }
        proof {
            lemma_search_done(l, start@, text::texts(found@));
        }
        found
    }
}

/// A path followed backwards is a path over the connections the other way round.
pub proof fn lemma_reversed(l: Seq<(Seq<char>, Seq<char>)>, a: Seq<char>, b: Seq<char>)
    ensures
        reaches(reversed(l), a, b) == reaches(l, b, a),
{
    let r = reversed(l);
    if reaches(r, a, b) {
        let p = choose|p: Seq<Seq<char>>| leads(r, p, a, b);
        lemma_path_back(l, p);
        assert(leads(l, p.reverse(), b, a));
    }
    if reaches(l, b, a) {
        let p = choose|p: Seq<Seq<char>>| leads(l, p, b, a);
        lemma_reversed_twice(l);
        lemma_path_back(r, p);
        assert(leads(r, p.reverse(), a, b));
    }
}

proof fn lemma_reversed_twice(l: Seq<(Seq<char>, Seq<char>)>)
    ensures
        reversed(reversed(l)) == l,
{
    assert(reversed(reversed(l)) =~= l);
}

proof fn lemma_path_back(l: Seq<(Seq<char>, Seq<char>)>, p: Seq<Seq<char>>)
    requires
        is_path(reversed(l), p),
    ensures
        is_path(l, p.reverse()),
        p.reverse()[0] == p.last(),
        p.reverse().last() == p[0],
{
    let q = p.reverse();
    assert forall|i: int| 0 <= i < q.len() - 1 implies #[trigger] linked(l, q, i) by {
        let j = p.len() - 2 - i;
        assert(linked(reversed(l), p, j));
        let k = choose|k: int| 0 <= k < l.len() && reversed(l)[k] == (p[j], p[j + 1]);
        assert(l[k] == (q[i], q[i + 1]));
    }
}

/// The node that is found by an id is the first one that has it, and there is none
/// only where no node has it.
pub proof fn law_the_first_node_of_an_id_is_found(nodes: Seq<Node>, id: Seq<char>)
    ensures
        first_named(nodes, id) matches Some(n) ==> exists|i: int|
            0 <= i < nodes.len() && #[trigger] nodes[i] == n && n.id@ == id && forall|j: int|
                0 <= j < i ==> (#[trigger] nodes[j]).id@ != id,
        first_named(nodes, id) is None <==> !ids(nodes).contains(id),
    decreases nodes.len(),
{
    if nodes.len() > 0 {
        let rest = nodes.drop_first();
        law_the_first_node_of_an_id_is_found(rest, id);
        assert(ids(nodes) =~= seq![nodes[0].id@] + ids(rest));
        if nodes[0].id@ == id {
            assert(ids(nodes)[0] == id);
            assert(nodes[0] == first_named(nodes, id)->0);
        } else {
            if ids(rest).contains(id) {
                let i = choose|i: int| 0 <= i < ids(rest).len() && ids(rest)[i] == id;
                assert(ids(nodes)[i + 1] == id);
            }
            if ids(nodes).contains(id) {
                let i = choose|i: int| 0 <= i < ids(nodes).len() && ids(nodes)[i] == id;
                assert(ids(rest)[i - 1] == id);
            }
            if first_named(rest, id) is Some {
                let n = first_named(rest, id)->0;
                let i = choose|i: int|
                    0 <= i < rest.len() && #[trigger] rest[i] == n && n.id@ == id && forall|j: int|
                        0 <= j < i ==> (#[trigger] rest[j]).id@ != id;
                assert forall|j: int| 0 <= j < i + 1 implies (#[trigger] nodes[j]).id@ != id by {
                    if j > 0 {
                        assert(rest[j - 1] == nodes[j]);
                    }
                }
                assert(nodes[i + 1] == n);
            }
        }
    }
}

} // verus!
