//! The connections that close a cycle, found by a depth-first search.
//!
//! The engine leaves these out when it decides whether a node is ready, or a
//! review loop would wait on its own descendant for ever.

use vstd::prelude::*;
use crate::graph;
use crate::graph::{holds_name, Graph, NodeId};
use crate::text;
use crate::text::{comes_before, same};

verus! {

// ------------------------------------------------------------------- sets of pairs

/// The order of pairs: by the first, and among equals by the second.
pub open spec fn pair_before(x: (Seq<char>, Seq<char>), y: (Seq<char>, Seq<char>)) -> bool {
    text::before(x.0, y.0) || (x.0 == y.0 && text::before(x.1, y.1))
}

/// The pairs, in order and without repetition, with one more.
pub open spec fn with_link(
    s: Seq<(Seq<char>, Seq<char>)>,
    x: (Seq<char>, Seq<char>),
) -> Seq<(Seq<char>, Seq<char>)>
    decreases s.len(),
{
    if s.len() == 0 {
        seq![x]
    } else if s[0] == x {
        s
    } else if pair_before(x, s[0]) {
        seq![x] + s
    } else {
        seq![s[0]] + with_link(s.drop_first(), x)
    }
}

/// Pairs of names, as texts.
pub open spec fn pairs(v: Seq<(NodeId, NodeId)>) -> Seq<(Seq<char>, Seq<char>)> {
    v.map_values(|e: (NodeId, NodeId)| (e.0@, e.1@))
}

pub(crate) fn add_link(v: &mut Vec<(NodeId, NodeId)>, from: &str, to: &str)
    ensures
        pairs(final(v)@) == with_link(pairs(old(v)@), (from@, to@)),
{
    let ghost start = pairs(v@);
    let ghost x = (from@, to@);
    let mut i: usize = 0;
    assert(start.skip(0) =~= start);
    assert(start.take(0) + with_link(start.skip(0), x) =~= with_link(start, x));
    while i < v.len() && !(same(v[i].0.as_str(), from) && same(v[i].1.as_str(), to)) && !(comes_before(
        from,
        v[i].0.as_str(),
    ) || (same(from, v[i].0.as_str()) && comes_before(to, v[i].1.as_str())))
        invariant
            i <= v.len(),
            v@.len() == start.len(),
            pairs(v@) == start,
            x == (from@, to@),
            start.take(i as int) + with_link(start.skip(i as int), x) == with_link(start, x),
        decreases v.len() - i,
    {
        assert(start[i as int] == (v@[i as int].0@, v@[i as int].1@));
        assert(start.skip(i as int)[0] == start[i as int]);
        assert(start.skip(i as int).drop_first() =~= start.skip(i + 1));
        assert(start.take(i as int) + (seq![start[i as int]] + with_link(start.skip(i + 1), x)) =~= start.take(
            i + 1,
        ) + with_link(start.skip(i + 1), x));
        i = i + 1;
    }
    if i < v.len() {
        assert(start[i as int] == (v@[i as int].0@, v@[i as int].1@));
        assert(start.skip(i as int)[0] == start[i as int]);
        if same(v[i].0.as_str(), from) && same(v[i].1.as_str(), to) {
            assert(start.take(i as int) + start.skip(i as int) =~= start);
            return;
        }
        assert(with_link(start.skip(i as int), x) == seq![x] + start.skip(i as int));
    } else {
        assert(start.skip(i as int) =~= seq![]);
        assert(with_link(start.skip(i as int), x) =~= seq![x] + start.skip(i as int));
    }
    v.insert(i, (from.to_owned(), to.to_owned()));
    assert(pairs(v@) =~= start.take(i as int) + (seq![x] + start.skip(i as int)));
}

/// What is in the pairs with one more.
pub proof fn lemma_with_link(
    s: Seq<(Seq<char>, Seq<char>)>,
    x: (Seq<char>, Seq<char>),
    y: (Seq<char>, Seq<char>),
)
    ensures
        with_link(s, x).contains(y) == (s.contains(y) || x == y),
    decreases s.len(),
{
    let w = with_link(s, x);
    if s.len() == 0 {
        assert(w[0] == x);
    } else if s[0] == x {
        assert(s.contains(x));
    } else if pair_before(x, s[0]) {
        assert(w[0] == x);
        if s.contains(y) {
            let i = choose|i: int| 0 <= i < s.len() && s[i] == y;
            assert(w[i + 1] == y);
        }
        if w.contains(y) && x != y {
            let i = choose|i: int| 0 <= i < w.len() && w[i] == y;
            assert(s[i - 1] == y);
        }
    } else {
        let rest = s.drop_first();
        lemma_with_link(rest, x, y);
        let t = with_link(rest, x);
        assert(w[0] == s[0]);
        if t.contains(y) {
            let i = choose|i: int| 0 <= i < t.len() && t[i] == y;
            assert(w[i + 1] == y);
        }
        if s.contains(y) && s[0] != y {
            let i = choose|i: int| 0 <= i < s.len() && s[i] == y;
            assert(rest[i - 1] == y);
        }
        if rest.contains(y) {
            let i = choose|i: int| 0 <= i < rest.len() && rest[i] == y;
            assert(s[i + 1] == y);
        }
        if w.contains(y) && s[0] != y {
            let i = choose|i: int| 0 <= i < w.len() && w[i] == y;
            assert(t[i - 1] == y);
        }
    }
}

// ---------------------------------------------------------------------- the search

/// A depth-first search: the names on the way from where it set out to where it
/// is, the names it is done with, in the order in which it was, and the
/// connections that led back onto the way.
#[verifier::ext_equal]
pub struct Search {
    pub way: Seq<Seq<char>>,
    pub done: Seq<Seq<char>>,
    pub back: Seq<(Seq<char>, Seq<char>)>,
}

/// The search after it has entered `id`, followed every connection from there,
/// and left. `depth` bounds how far it goes in; the bound is never met where it
/// is the number of connections and one more (see [`lemma_visit`]).
pub open spec fn visited(l: Seq<(Seq<char>, Seq<char>)>, id: Seq<char>, s: Search, depth: nat) -> Search
    decreases depth, 0nat,
{
    if depth == 0 {
        s
    } else {
        let inside = Search { way: s.way.push(id), ..s };
        let after = followed(l, id, graph::targets(l, id), inside, (depth - 1) as nat);
        Search { way: s.way, done: after.done.push(id), back: after.back }
    }
}

/// The search after it has followed connections from `id` to `next`, one after
/// the other. One that leads back onto the way is noted, one to where the search
/// was already is passed over.
pub open spec fn followed(
    l: Seq<(Seq<char>, Seq<char>)>,
    id: Seq<char>,
    next: Seq<Seq<char>>,
    s: Search,
    depth: nat,
) -> Search
    decreases depth, next.len(),
{
    if next.len() == 0 {
        s
    } else {
        let n = next[0];
        let after = if s.way.contains(n) {
            Search { back: with_link(s.back, (id, n)), ..s }
        } else if s.done.contains(n) {
            s
        } else {
            visited(l, n, s, depth)
        };
        followed(l, id, next.drop_first(), after, depth)
    }
}

/// The search after it has set out from each of the names that it had not met.
pub open spec fn searched(l: Seq<(Seq<char>, Seq<char>)>, ids: Seq<Seq<char>>) -> Search
    decreases ids.len(),
{
    if ids.len() == 0 {
        Search { way: seq![], done: seq![], back: seq![] }
    } else {
        let s = searched(l, ids.drop_last());
        if s.done.contains(ids.last()) {
            s
        } else {
            visited(l, ids.last(), s, l.len() + 1)
        }
    }
}

/// The connections that close a cycle, in order.
pub open spec fn back_links(l: Seq<(Seq<char>, Seq<char>)>, ids: Seq<Seq<char>>) -> Seq<(Seq<char>, Seq<char>)> {
    searched(l, ids).back
}

struct Searching {
    way: Vec<NodeId>,
    done: Vec<NodeId>,
    back: Vec<(NodeId, NodeId)>,
}

impl Searching {
    spec fn search(self) -> Search {
        Search { way: text::texts(self.way@), done: text::texts(self.done@), back: pairs(self.back@) }
    }
}

fn visit(g: &Graph, id: &str, s: &mut Searching, depth: u128)
    ensures
        final(s).search() == visited(g.links(), id@, old(s).search(), depth as nat),
    decreases depth, 0nat,
{
    if depth == 0 {
        return;
    }
    let ghost start = s.search();
    let name = id.to_owned();
    proof {
        text::lemma_texts_push(s.way@, name);
    }
    s.way.push(name);
    let next = g.successors(id);
    let ghost l = g.links();
    let ghost names = graph::named(next@);
    let ghost inside = Search { way: start.way.push(id@), ..start };
    assert(s.search() =~= inside);
    let mut i: usize = 0;
    assert(names.skip(0) =~= names);
    while i < next.len()
        invariant
            i <= next.len(),
            depth > 0,
            l == g.links(),
            names == graph::named(next@),
            followed(l, id@, names.skip(i as int), s.search(), (depth - 1) as nat) == followed(
                l,
                id@,
                names,
                inside,
                (depth - 1) as nat,
            ),
        decreases next.len() - i,
    {
        assert(names.skip(i as int)[0] == next@[i as int]@);
        assert(names.skip(i as int).drop_first() =~= names.skip(i + 1));
        let n: &str = next[i].as_str();
        if holds_name(s.way.as_slice(), n) {
            add_link(&mut s.back, id, n);
        } else if !holds_name(s.done.as_slice(), n) {
            visit(g, n, s, depth - 1);
        }
        i = i + 1;
    }
    assert(names.skip(i as int) =~= seq![]);
    proof {
        lemma_followed_way(l, id@, names, inside, (depth - 1) as nat);
    }
    let ghost way = s.way@;
    let left = s.way.pop();
    assert(text::texts(s.way@) =~= text::texts(way).drop_last());
    assert(start.way.push(id@).drop_last() =~= start.way);
    let name = id.to_owned();
    proof {
        text::lemma_texts_push(s.done@, name);
    }
    s.done.push(name);
    assert(s.search() =~= visited(l, id@, start, depth as nat));
}

/// A search comes out where it went in.
proof fn lemma_visited_way(l: Seq<(Seq<char>, Seq<char>)>, id: Seq<char>, s: Search, depth: nat)
    ensures
        visited(l, id, s, depth).way == s.way,
{
}

proof fn lemma_followed_way(
    l: Seq<(Seq<char>, Seq<char>)>,
    id: Seq<char>,
    next: Seq<Seq<char>>,
    s: Search,
    depth: nat,
)
    ensures
        followed(l, id, next, s, depth).way == s.way,
    decreases next.len(),
{
    if next.len() > 0 {
        let n = next[0];
        let after = if s.way.contains(n) {
            Search { back: with_link(s.back, (id, n)), ..s }
        } else if s.done.contains(n) {
            s
        } else {
            visited(l, n, s, depth)
        };
        lemma_visited_way(l, n, s, depth);
        lemma_followed_way(l, id, next.drop_first(), after, depth);
    }
}

impl Graph {
    /// Connections that close a cycle, in order.
    pub fn back_edges(&self) -> (back: Vec<(NodeId, NodeId)>)
        ensures
            pairs(back@) == back_links(self.links(), self.ids()),
    {
        let ghost l = self.links();
        let ghost names = self.ids();
        let mut s = Searching { way: Vec::new(), done: Vec::new(), back: Vec::new() };
        assert(s.search() =~= searched(l, names.take(0)));
        let depth: u128 = self.edges.len() as u128 + 1;
        let mut i: usize = 0;
        while i < self.nodes.len()
            invariant
                i <= self.nodes.len(),
                l == self.links(),
                names == self.ids(),
                depth == l.len() + 1,
                s.search() == searched(l, names.take(i as int)),
                s.search().way.len() == 0,
            decreases self.nodes.len() - i,
        {
            assert(names.take(i + 1).drop_last() =~= names.take(i as int));
            assert(names.take(i + 1).last() == self.nodes@[i as int].id@);
            if !holds_name(s.done.as_slice(), self.nodes[i].id.as_str()) {
                proof {
                    lemma_visited_way(l, self.nodes@[i as int].id@, s.search(), depth as nat);
                }
                visit(self, self.nodes[i].id.as_str(), &mut s, depth);
            }
            i = i + 1;
        }
        assert(names.take(i as int) =~= names);
        s.back
    }
}

// ------------------------------------------------------------------- what it finds

/// What holds of a search at every moment.
#[verifier::opaque]
pub open spec fn is_sound(l: Seq<(Seq<char>, Seq<char>)>, s: Search) -> bool {
    // The way follows connections, and never comes back to itself.
    &&& forall|i: int| 0 <= i < s.way.len() - 1 ==> #[trigger] graph::linked(l, s.way, i)
    &&& s.way.no_duplicates()
    // What the search is done with it is done with once, and for good.
    &&& s.done.no_duplicates()
    &&& forall|i: int| 0 <= i < s.way.len() ==> !s.done.contains(#[trigger] s.way[i])
    // A noted connection closes a cycle.
    &&& forall|i: int|
        0 <= i < s.back.len() ==> l.contains(#[trigger] s.back[i]) && graph::reaches(l, s.back[i].1, s.back[i].0)
    // A connection that was not noted leads to what was done with before.
    &&& forall|i: int, v: Seq<char>|
        0 <= i < s.done.len() && #[trigger] l.contains((s.done[i], v)) ==> s.back.contains((s.done[i], v))
            || done_before(s.done, i, v)
}

/// Whether the search was done with `v` before it was with the one in place `i`.
pub open spec fn done_before(done: Seq<Seq<char>>, i: int, v: Seq<char>) -> bool {
    exists|j: int| 0 <= j < i && j < done.len() && #[trigger] done[j] == v
}

/// Whether a search has come from an earlier one.
pub open spec fn extends(s: Search, t: Search) -> bool {
    &&& t.way == s.way
    &&& s.done.is_prefix_of(t.done)
    &&& forall|e: (Seq<char>, Seq<char>)| #[trigger] s.back.contains(e) ==> t.back.contains(e)
}

proof fn lemma_extends_trans(a: Search, b: Search, c: Search)
    requires
        extends(a, b),
        extends(b, c),
    ensures
        extends(a, c),
{
    assert(a.done =~= c.done.subrange(0, a.done.len() as int)) by {
        assert forall|i: int| 0 <= i < a.done.len() implies a.done[i] == c.done[i] by {
            assert(a.done[i] == b.done.subrange(0, a.done.len() as int)[i]);
            assert(b.done[i] == c.done.subrange(0, b.done.len() as int)[i]);
        }
    }
    assert forall|e: (Seq<char>, Seq<char>)| #[trigger] a.back.contains(e) implies c.back.contains(e) by {
        assert(b.back.contains(e));
    }
}

proof fn lemma_extends_done(a: Search, b: Search, x: Seq<char>)
    requires
        extends(a, b),
        a.done.contains(x),
    ensures
        b.done.contains(x),
{
    let i = choose|i: int| 0 <= i < a.done.len() && a.done[i] == x;
    assert(a.done[i] == b.done.subrange(0, a.done.len() as int)[i]);
    assert(b.done[i] == x);
}

/// A way leaves room for another step as long as it has not met everything.
proof fn lemma_way_is_bounded(l: Seq<(Seq<char>, Seq<char>)>, way: Seq<Seq<char>>)
    requires
        way.no_duplicates(),
        forall|i: int| 0 <= i < way.len() - 1 ==> #[trigger] graph::linked(l, way, i),
    ensures
        way.len() <= l.len() + 1,
{
    if way.len() > 0 {
        let ends = l.map_values(|e: (Seq<char>, Seq<char>)| e.1);
        let from = seq![way[0]] + ends;
        assert forall|i: int| 0 <= i < way.len() implies from.contains(#[trigger] way[i]) by {
            if i == 0 {
                assert(from[0] == way[0]);
            } else {
                assert(graph::linked(l, way, i - 1));
                let k = choose|k: int| 0 <= k < l.len() && l[k] == (way[i - 1], way[i]);
                assert(ends[k] == way[i]);
                assert(from[k + 1] == way[i]);
            }
        }
        graph::lemma_no_longer(way, from);
    }
}

/// From any place on the way the rest of it leads to the last.
proof fn lemma_way_leads_on(l: Seq<(Seq<char>, Seq<char>)>, way: Seq<Seq<char>>, k: int)
    requires
        forall|i: int| 0 <= i < way.len() - 1 ==> #[trigger] graph::linked(l, way, i),
        0 <= k < way.len(),
    ensures
        graph::reaches(l, way[k], way.last()),
{
    let p = way.skip(k);
    assert forall|i: int| 0 <= i < p.len() - 1 implies #[trigger] graph::linked(l, p, i) by {
        assert(graph::linked(l, way, i + k));
        assert(p[i] == way[i + k] && p[i + 1] == way[i + k + 1]);
    }
    assert(graph::leads(l, p, way[k], way.last()));
}

proof fn lemma_step_in(l: Seq<(Seq<char>, Seq<char>)>, id: Seq<char>, s: Search)
    requires
        is_sound(l, s),
        !s.way.contains(id),
        !s.done.contains(id),
        s.way.len() > 0 ==> l.contains((s.way.last(), id)),
    ensures
        is_sound(l, Search { way: s.way.push(id), ..s }),
        s.way.len() + 1 <= l.len() + 1,
{
    reveal(is_sound);
    let way = s.way.push(id);
    assert forall|i: int| 0 <= i < way.len() - 1 implies #[trigger] graph::linked(l, way, i) by {
        if i < s.way.len() - 1 {
            assert(graph::linked(l, s.way, i));
            assert(way[i] == s.way[i] && way[i + 1] == s.way[i + 1]);
        } else {
            assert(way[i] == s.way.last());
        }
    }
    assert forall|i: int, j: int| 0 <= i < way.len() && 0 <= j < way.len() && i != j implies way[i] != way[j] by {
        if i < s.way.len() && j < s.way.len() {
            assert(s.way[i] != s.way[j]);
        } else if i < s.way.len() {
            assert(s.way.contains(s.way[i]));
        } else {
            assert(s.way.contains(s.way[j]));
        }
    }
    assert forall|i: int| 0 <= i < way.len() implies !s.done.contains(#[trigger] way[i]) by {
        if i < s.way.len() {
            assert(way[i] == s.way[i]);
        }
    }
    lemma_way_is_bounded(l, way);
}

/// Leaving what was visited keeps a search sound.
proof fn lemma_leave(l: Seq<(Seq<char>, Seq<char>)>, id: Seq<char>, s: Search, after: Search)
    requires
        is_sound(l, s),
        is_sound(l, after),
        !s.way.contains(id),
        extends(Search { way: s.way.push(id), ..s }, after),
        forall|i: int|
            0 <= i < graph::targets(l, id).len() ==> settled(after, id, #[trigger] graph::targets(l, id)[i]),
    ensures
        is_sound(l, Search { way: s.way, done: after.done.push(id), back: after.back }),
        extends(s, Search { way: s.way, done: after.done.push(id), back: after.back }),
        after.done.push(id).contains(id),
{
    reveal(is_sound);
    let inside = Search { way: s.way.push(id), ..s };
    let next = graph::targets(l, id);
    let r = Search { way: s.way, done: after.done.push(id), back: after.back };
    assert forall|e: (Seq<char>, Seq<char>)| #[trigger] s.back.contains(e) implies r.back.contains(e) by {
        assert(inside.back.contains(e));
    }
    assert(after.way == inside.way);
    assert(!after.done.contains(id)) by {
        assert(after.way[after.way.len() - 1] == id);
    }
    assert(r.done[r.done.len() - 1] == id);
    assert(s.done =~= r.done.subrange(0, s.done.len() as int)) by {
        assert forall|i: int| 0 <= i < s.done.len() implies s.done[i] == r.done[i] by {
            assert(inside.done[i] == after.done.subrange(0, s.done.len() as int)[i]);
        }
    }
    assert forall|i: int, j: int| 0 <= i < r.done.len() && 0 <= j < r.done.len() && i != j implies r.done[i]
        != r.done[j] by {
        if i < after.done.len() && j < after.done.len() {
            assert(after.done[i] != after.done[j]);
        } else if i < after.done.len() {
            assert(after.done.contains(after.done[i]));
        } else {
            assert(after.done.contains(after.done[j]));
        }
    }
    assert forall|i: int| 0 <= i < r.way.len() implies !r.done.contains(#[trigger] r.way[i]) by {
        assert(after.way[i] == r.way[i]);
        assert(!after.done.contains(r.way[i]));
        assert(s.way.contains(s.way[i]));
        if r.done.contains(r.way[i]) {
            let k = choose|k: int| 0 <= k < r.done.len() && r.done[k] == r.way[i];
            if k < after.done.len() {
                assert(after.done[k] == r.way[i]);
            }
        }
    }
    assert forall|i: int, v: Seq<char>| 0 <= i < r.done.len() && #[trigger] l.contains(
        (r.done[i], v),
    ) implies r.back.contains((r.done[i], v)) || done_before(r.done, i, v) by {
        if i < after.done.len() {
            assert(r.done[i] == after.done[i]);
            assert(l.contains((after.done[i], v)));
            if !after.back.contains((after.done[i], v)) {
                let j = choose|j: int| 0 <= j < i && j < after.done.len() && #[trigger] after.done[j] == v;
                assert(r.done[j] == v);
            }
        } else {
            graph::lemma_targets(l, id, v);
            let k = choose|k: int| 0 <= k < next.len() && next[k] == v;
            assert(settled(after, id, next[k]));
            if !after.back.contains((id, v)) {
                let j = choose|j: int| 0 <= j < after.done.len() && after.done[j] == v;
                assert(r.done[j] == v);
            }
        }
    }
}

/// A visit keeps a search sound, is done with the one it visits, and has room to
/// go as far in as it needs.
pub proof fn lemma_visit(l: Seq<(Seq<char>, Seq<char>)>, id: Seq<char>, s: Search, depth: nat)
    requires
        is_sound(l, s),
        !s.way.contains(id),
        !s.done.contains(id),
        s.way.len() > 0 ==> l.contains((s.way.last(), id)),
        depth + s.way.len() == l.len() + 1,
    ensures
        depth > 0,
        is_sound(l, visited(l, id, s, depth)),
        extends(s, visited(l, id, s, depth)),
        visited(l, id, s, depth).done.contains(id),
    decreases depth, 0nat,
{
    lemma_step_in(l, id, s);
    let inside = Search { way: s.way.push(id), ..s };
    let next = graph::targets(l, id);
    assert forall|i: int| 0 <= i < next.len() implies l.contains((id, #[trigger] next[i])) by {
        graph::lemma_targets(l, id, next[i]);
        assert(next.contains(next[i]));
    }
    lemma_follow(l, id, next, inside, (depth - 1) as nat);
    let after = followed(l, id, next, inside, (depth - 1) as nat);
    lemma_leave(l, id, s, after);
}

/// Whether a connection was noted, or leads to what the search is done with.
pub open spec fn settled(s: Search, id: Seq<char>, n: Seq<char>) -> bool {
    s.back.contains((id, n)) || s.done.contains(n)
}

/// Noting a connection back onto the way keeps a search sound.
proof fn lemma_note(l: Seq<(Seq<char>, Seq<char>)>, id: Seq<char>, n: Seq<char>, s: Search)
    requires
        is_sound(l, s),
        s.way.len() > 0,
        s.way.last() == id,
        s.way.contains(n),
        l.contains((id, n)),
    ensures
        is_sound(l, Search { back: with_link(s.back, (id, n)), ..s }),
        extends(s, Search { back: with_link(s.back, (id, n)), ..s }),
        with_link(s.back, (id, n)).contains((id, n)),
{
    reveal(is_sound);
    let after = Search { back: with_link(s.back, (id, n)), ..s };
    let k = choose|k: int| 0 <= k < s.way.len() && s.way[k] == n;
    lemma_way_leads_on(l, s.way, k);
    lemma_with_link(s.back, (id, n), (id, n));
    assert forall|e: (Seq<char>, Seq<char>)| #[trigger] s.back.contains(e) implies after.back.contains(e) by {
        lemma_with_link(s.back, (id, n), e);
    }
    assert forall|i: int| 0 <= i < after.back.len() implies l.contains(#[trigger] after.back[i])
        && graph::reaches(l, after.back[i].1, after.back[i].0) by {
        let e = after.back[i];
        assert(after.back.contains(e));
        lemma_with_link(s.back, (id, n), e);
        if s.back.contains(e) {
            let j = choose|j: int| 0 <= j < s.back.len() && s.back[j] == e;
            assert(l.contains(s.back[j]));
        }
    }
    assert forall|i: int, v: Seq<char>| 0 <= i < after.done.len() && #[trigger] l.contains(
        (after.done[i], v),
    ) implies after.back.contains((after.done[i], v)) || done_before(after.done, i, v) by {
        assert(l.contains((s.done[i], v)));
        if s.back.contains((s.done[i], v)) {
            assert(after.back.contains((s.done[i], v)));
        }
    }
    assert(s.done =~= after.done.subrange(0, s.done.len() as int));
}

/// Following connections keeps a search sound and settles each of them.
pub proof fn lemma_follow(
    l: Seq<(Seq<char>, Seq<char>)>,
    id: Seq<char>,
    next: Seq<Seq<char>>,
    s: Search,
    depth: nat,
)
    requires
        is_sound(l, s),
        s.way.len() > 0,
        s.way.last() == id,
        forall|i: int| 0 <= i < next.len() ==> l.contains((id, #[trigger] next[i])),
        depth + s.way.len() == l.len() + 1,
    ensures
        is_sound(l, followed(l, id, next, s, depth)),
        extends(s, followed(l, id, next, s, depth)),
        forall|i: int| 0 <= i < next.len() ==> settled(followed(l, id, next, s, depth), id, #[trigger] next[i]),
    decreases depth, next.len(),
{
    if next.len() == 0 {
        assert(s.done =~= s.done.subrange(0, s.done.len() as int));
    } else {
        let n = next[0];
        assert(l.contains((id, next[0])));
        let after = if s.way.contains(n) {
            Search { back: with_link(s.back, (id, n)), ..s }
        } else if s.done.contains(n) {
            s
        } else {
            visited(l, n, s, depth)
        };
        if s.way.contains(n) {
            lemma_note(l, id, n, s);
        } else if s.done.contains(n) {
            assert(s.done =~= s.done.subrange(0, s.done.len() as int));
        } else {
            lemma_visit(l, n, s, depth);
        }
        assert(settled(after, id, n));
        let rest = next.drop_first();
        assert forall|i: int| 0 <= i < rest.len() implies l.contains((id, #[trigger] rest[i])) by {
            assert(rest[i] == next[i + 1]);
        }
        lemma_follow(l, id, rest, after, depth);
        let r = followed(l, id, next, s, depth);
        assert(r == followed(l, id, rest, after, depth));
        lemma_extends_trans(s, after, r);
        assert forall|i: int| 0 <= i < next.len() implies settled(r, id, #[trigger] next[i]) by {
            if i == 0 {
                if after.done.contains(n) {
                    lemma_extends_done(after, r, n);
                }
            } else {
                assert(settled(r, id, rest[i - 1]));
            }
        }
    }
}

/// The whole search is sound, and is done with every name it was given.
pub proof fn lemma_searched(l: Seq<(Seq<char>, Seq<char>)>, ids: Seq<Seq<char>>)
    ensures
        is_sound(l, searched(l, ids)),
        searched(l, ids).way.len() == 0,
        forall|i: int| 0 <= i < ids.len() ==> searched(l, ids).done.contains(#[trigger] ids[i]),
    decreases ids.len(),
{
    if ids.len() == 0 {
        reveal(is_sound);
    } else {
        let head = ids.drop_last();
        lemma_searched(l, head);
        let s = searched(l, head);
        let r = searched(l, ids);
        if !s.done.contains(ids.last()) {
            lemma_visit(l, ids.last(), s, l.len() + 1);
        }
        assert forall|i: int| 0 <= i < ids.len() implies r.done.contains(#[trigger] ids[i]) by {
            if i < head.len() {
                assert(ids[i] == head[i]);
                assert(s.done.contains(head[i]));
                if !s.done.contains(ids.last()) {
                    lemma_extends_done(s, r, ids[i]);
                }
            }
        }
    }
}

// -------------------------------------------------------------------------- laws

/// Each of the connections found closes a cycle: it is one of the graph, and
/// from where it leads its beginning can be reached.
pub proof fn law_a_back_link_closes_a_cycle(
    l: Seq<(Seq<char>, Seq<char>)>,
    ids: Seq<Seq<char>>,
    from: Seq<char>,
    to: Seq<char>,
)
    requires
        back_links(l, ids).contains((from, to)),
    ensures
        l.contains((from, to)),
        graph::reaches(l, to, from),
{
    reveal(is_sound);
    lemma_searched(l, ids);
    let b = back_links(l, ids);
    let i = choose|i: int| 0 <= i < b.len() && b[i] == (from, to);
    assert(l.contains(b[i]));
}

/// Each cycle that a walk from a node can enter runs over one of the connections
/// found, so that what is left without them has no cycle.
pub proof fn law_every_cycle_has_a_back_link(
    l: Seq<(Seq<char>, Seq<char>)>,
    ids: Seq<Seq<char>>,
    cycle: Seq<Seq<char>>,
)
    requires
        graph::is_path(l, cycle),
        cycle.len() > 1,
        cycle[0] == cycle.last(),
        ids.contains(cycle[0]),
    ensures
        exists|i: int| 0 <= i < cycle.len() - 1 && #[trigger] graph::linked(back_links(l, ids), cycle, i),
{
    reveal(is_sound);
    lemma_searched(l, ids);
    let s = searched(l, ids);
    let start = choose|i: int| 0 <= i < ids.len() && ids[i] == cycle[0];
    assert(s.done.contains(ids[start]));
    let first = choose|i: int| 0 <= i < s.done.len() && s.done[i] == cycle[0];
    if !exists|i: int| 0 <= i < cycle.len() - 1 && #[trigger] graph::linked(s.back, cycle, i) {
        let last = lemma_descent(l, s, cycle, first, cycle.len() - 1);
        assert(s.done[last] == s.done[first]);
        assert(last < first);
        assert(false);
    }
    assert(back_links(l, ids) == s.back);
}

/// Along connections that were not noted the search was done ever earlier.
proof fn lemma_descent(
    l: Seq<(Seq<char>, Seq<char>)>,
    s: Search,
    p: Seq<Seq<char>>,
    first: int,
    k: int,
) -> (at: int)
    requires
        is_sound(l, s),
        graph::is_path(l, p),
        0 <= first < s.done.len(),
        s.done[first] == p[0],
        0 <= k < p.len(),
        forall|i: int| 0 <= i < p.len() - 1 ==> !#[trigger] graph::linked(s.back, p, i),
    ensures
        0 <= at <= first - k,
        s.done[at] == p[k],
    decreases k,
{
    reveal(is_sound);
    if k == 0 {
        first
    } else {
        let i = lemma_descent(l, s, p, first, k - 1);
        let j = k - 1;
        assert(graph::linked(l, p, j));
        assert(!graph::linked(s.back, p, j));
        assert(l.contains((s.done[i], p[k])));
        choose|j: int| 0 <= j < i && j < s.done.len() && #[trigger] s.done[j] == p[k]
    }
}

} // verus!
