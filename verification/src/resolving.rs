//! What a path resolves to.
//!
//! A walk to a path follows every link it meets, so that what it comes to is a
//! place that no link stands on the way to.

use vstd::prelude::*;
use crate::paths;
use crate::paths::{Comp, FilePath};
use crate::sandbox;
use crate::sandbox::{Call, PermissionMode, ScopedConsent, Seen, Spot, Verdict, MAX_LINK_HOPS};
use crate::split;

verus! {

/// Whether no link stands at the spot or on the way to it.
pub open spec fn is_clear(spot: Spot, look: spec_fn(Seq<char>) -> Seen) -> bool {
    forall|n: int|
        0 < n <= spot.names.len() ==> look(
            sandbox::place_of(Spot { rooted: spot.rooted, names: #[trigger] spot.names.take(n) }),
        ) is Plain
}

/// Whether it is a name: neither `.` nor `..`, and in one piece.
pub open spec fn is_name(n: Seq<char>) -> bool {
    n.len() > 0 && n != "."@ && n != ".."@ && !n.contains('/')
}

/// Whether a spot is made of names alone.
pub open spec fn is_plain(spot: Spot) -> bool {
    forall|i: int| 0 <= i < spot.names.len() ==> is_name(#[trigger] spot.names[i])
}

/// Why a walk comes to nothing.
pub enum Stop {
    /// It steps above where it started.
    Above,
    /// It meets one link more than it follows.
    TooManyLinks,
    /// It meets a link that cannot be read.
    Unreadable,
}

/// Why a walk comes to nothing, where it does.
pub open spec fn stop(spot: Spot, steps: Seq<Comp>, hops: nat, look: spec_fn(Seq<char>) -> Seen) -> Option<Stop>
    decreases hops, steps.len(),
{
    if steps.len() == 0 {
        None
    } else {
        let rest = steps.drop_first();
        match steps[0] {
            Comp::Cur => stop(spot, rest, hops, look),
            Comp::Root => stop(Spot { rooted: true, names: seq![] }, rest, hops, look),
            Comp::Up => if spot.names.len() == 0 {
                Some(Stop::Above)
            } else {
                stop(Spot { names: spot.names.drop_last(), ..spot }, rest, hops, look)
            },
            Comp::Name(n) => {
                let next = Spot { names: spot.names.push(n), ..spot };
                match look(sandbox::place_of(next)) {
                    Seen::Link(target) => if hops == 0 {
                        Some(Stop::TooManyLinks)
                    } else {
                        stop(spot, paths::comps(target) + rest, (hops - 1) as nat, look)
                    },
                    Seen::Unreadable => Some(Stop::Unreadable),
                    Seen::Plain => stop(next, rest, hops, look),
                }
            },
        }
    }
}

/// How many links a walk follows.
pub open spec fn followed(spot: Spot, steps: Seq<Comp>, hops: nat, look: spec_fn(Seq<char>) -> Seen) -> nat
    decreases hops, steps.len(),
{
    if steps.len() == 0 {
        0
    } else {
        let rest = steps.drop_first();
        match steps[0] {
            Comp::Cur => followed(spot, rest, hops, look),
            Comp::Root => followed(Spot { rooted: true, names: seq![] }, rest, hops, look),
            Comp::Up => if spot.names.len() == 0 {
                0
            } else {
                followed(Spot { names: spot.names.drop_last(), ..spot }, rest, hops, look)
            },
            Comp::Name(n) => {
                let next = Spot { names: spot.names.push(n), ..spot };
                match look(sandbox::place_of(next)) {
                    Seen::Link(target) => if hops == 0 {
                        0
                    } else {
                        1 + followed(spot, paths::comps(target) + rest, (hops - 1) as nat, look)
                    },
                    Seen::Unreadable => 0,
                    Seen::Plain => followed(next, rest, hops, look),
                }
            },
        }
    }
}

/// Why a path does not resolve, where it does not.
pub open spec fn obstacle(path: Seq<char>, root: Seq<char>, look: spec_fn(Seq<char>) -> Seen) -> Option<Stop> {
    stop(
        Spot { rooted: false, names: seq![] },
        paths::comps(paths::joined(root, path)),
        MAX_LINK_HOPS as nat,
        look,
    )
}

/// How many links are followed on the way to a path.
pub open spec fn links_to(path: Seq<char>, root: Seq<char>, look: spec_fn(Seq<char>) -> Seen) -> nat {
    followed(
        Spot { rooted: false, names: seq![] },
        paths::comps(paths::joined(root, path)),
        MAX_LINK_HOPS as nat,
        look,
    )
}

// -------------------------------------------------------------------------- steps

spec fn are_names(steps: Seq<Comp>) -> bool {
    forall|i: int| 0 <= i < steps.len() ==> ((#[trigger] steps[i]) matches Comp::Name(n) ==> is_name(n))
}

proof fn lemma_pieces(s: Seq<char>)
    ensures
        forall|i: int|
            0 <= i < split::split(s, split::Cut::Any("/"@)).len() ==> !(#[trigger] split::split(
                s,
                split::Cut::Any("/"@),
            )[i]).contains('/'),
    decreases s.len(),
{
    let at = split::Cut::Any("/"@);
    let k = split::first_cut(s, at);
    split::lemma_first_cut(s, at);
    reveal_strlit("/");
    assert("/"@[0] == '/');
    assert(forall|c: char| split::cuts(at, c) <==> c == '/') by {
        assert forall|c: char| split::cuts(at, c) implies c == '/' by {
            let i = choose|i: int| 0 <= i < "/"@.len() && "/"@[i] == c;
            assert(i == 0);
        }
    }
    if k < s.len() {
        lemma_pieces(s.skip(k + 1));
        let rest = split::split(s.skip(k + 1), at);
        let all = split::split(s, at);
        assert(all == seq![s.take(k)] + rest);
        assert forall|i: int| 0 <= i < all.len() implies !(#[trigger] all[i]).contains('/') by {
            if i == 0 {
                assert forall|j: int| 0 <= j < k implies s.take(k)[j] != '/' by {
                    assert(!split::cuts(at, s[j]));
                }
            } else {
                assert(all[i] == rest[i - 1]);
            }
        }
    } else {
        assert forall|j: int| 0 <= j < s.len() implies s[j] != '/' by {
            assert(!split::cuts(at, s[j]));
        }
    }
}

proof fn lemma_comps_of(pieces: Seq<Seq<char>>)
    requires
        forall|i: int| 0 <= i < pieces.len() ==> !(#[trigger] pieces[i]).contains('/'),
    ensures
        are_names(paths::comps_of(pieces)),
    decreases pieces.len(),
{
    if pieces.len() > 0 {
        let rest = pieces.drop_first();
        assert forall|i: int| 0 <= i < rest.len() implies !(#[trigger] rest[i]).contains('/') by {
            assert(rest[i] == pieces[i + 1]);
        }
        lemma_comps_of(rest);
        let tail = paths::comps_of(rest);
        match paths::comp_of(pieces[0]) {
            Some(c) => {
                let all = seq![c] + tail;
                assert forall|i: int| 0 <= i < all.len() implies ((#[trigger] all[i]) matches Comp::Name(
                    n,
                ) ==> is_name(n)) by {
                    if i > 0 {
                        assert(all[i] == tail[i - 1]);
                    }
                }
            },
            None => {},
        }
    }
}

proof fn lemma_comps(s: Seq<char>)
    ensures
        are_names(paths::comps(s)),
{
    let pieces = split::split(s, split::Cut::Any("/"@));
    lemma_pieces(s);
    lemma_comps_of(pieces);
    let tail = paths::comps_of(pieces);
    let lead = paths::comps(s).len() - tail.len();
    assert forall|i: int| 0 <= i < paths::comps(s).len() implies ((#[trigger] paths::comps(s)[i]) matches Comp::Name(
        n,
    ) ==> is_name(n)) by {
        if i >= lead {
            assert(paths::comps(s)[i] == tail[i - lead]);
        }
    }
}

// --------------------------------------------------------------------------- walks

proof fn lemma_walk(spot: Spot, steps: Seq<Comp>, hops: nat, look: spec_fn(Seq<char>) -> Seen)
    requires
        are_names(steps),
        is_plain(spot),
        is_clear(spot, look),
    ensures
        sandbox::walked(spot, steps, hops, look) matches Some(r) ==> is_plain(r) && is_clear(r, look) && (spot.rooted
            || (steps.len() > 0 && steps[0] is Root) ==> r.rooted),
    decreases hops, steps.len(),
{
    if steps.len() > 0 {
        let rest = steps.drop_first();
        assert(are_names(rest)) by {
            assert forall|i: int| 0 <= i < rest.len() implies ((#[trigger] rest[i]) matches Comp::Name(n) ==> is_name(
                n,
            )) by {
                assert(rest[i] == steps[i + 1]);
            }
        }
        match steps[0] {
            Comp::Cur => lemma_walk(spot, rest, hops, look),
            Comp::Root => lemma_walk(Spot { rooted: true, names: seq![] }, rest, hops, look),
            Comp::Up => if spot.names.len() > 0 {
                let up = Spot { names: spot.names.drop_last(), ..spot };
                assert forall|n: int| 0 < n <= up.names.len() implies look(
                    sandbox::place_of(Spot { rooted: up.rooted, names: #[trigger] up.names.take(n) }),
                ) is Plain by {
                    assert(up.names.take(n) =~= spot.names.take(n));
                }
                lemma_walk(up, rest, hops, look);
            },
            Comp::Name(name) => {
                let next = Spot { names: spot.names.push(name), ..spot };
                assert(is_name(name));
                match look(sandbox::place_of(next)) {
                    Seen::Link(target) => if hops > 0 {
                        lemma_comps(target);
                        let more = paths::comps(target) + rest;
                        assert forall|i: int| 0 <= i < more.len() implies ((#[trigger] more[i]) matches Comp::Name(
                            n,
                        ) ==> is_name(n)) by {
                            if i < paths::comps(target).len() {
                                assert(more[i] == paths::comps(target)[i]);
                            } else {
                                assert(more[i] == rest[i - paths::comps(target).len()]);
                            }
                        }
                        lemma_walk(spot, more, (hops - 1) as nat, look);
                    },
                    Seen::Unreadable => {},
                    Seen::Plain => {
                        assert forall|n: int| 0 < n <= next.names.len() implies look(
                            sandbox::place_of(Spot { rooted: next.rooted, names: #[trigger] next.names.take(n) }),
                        ) is Plain by {
                            if n < next.names.len() {
                                assert(next.names.take(n) =~= spot.names.take(n));
                            } else {
                                assert(next.names.take(n) =~= next.names);
                            }
                        }
                        lemma_walk(next, rest, hops, look);
                    },
                }
            },
        }
    }
}

proof fn lemma_stop(spot: Spot, steps: Seq<Comp>, hops: nat, look: spec_fn(Seq<char>) -> Seen)
    ensures
        sandbox::walked(spot, steps, hops, look) is None == stop(spot, steps, hops, look) is Some,
        followed(spot, steps, hops, look) <= hops,
        stop(spot, steps, hops, look) == Some(Stop::TooManyLinks) ==> followed(spot, steps, hops, look) == hops,
    decreases hops, steps.len(),
{
    if steps.len() > 0 {
        let rest = steps.drop_first();
        match steps[0] {
            Comp::Cur => lemma_stop(spot, rest, hops, look),
            Comp::Root => lemma_stop(Spot { rooted: true, names: seq![] }, rest, hops, look),
            Comp::Up => if spot.names.len() > 0 {
                lemma_stop(Spot { names: spot.names.drop_last(), ..spot }, rest, hops, look);
            },
            Comp::Name(n) => {
                let next = Spot { names: spot.names.push(n), ..spot };
                match look(sandbox::place_of(next)) {
                    Seen::Link(target) => if hops > 0 {
                        lemma_stop(spot, paths::comps(target) + rest, (hops - 1) as nat, look);
                    },
                    Seen::Unreadable => {},
                    Seen::Plain => lemma_stop(next, rest, hops, look),
                }
            },
        }
    }
}

/// The steps that names are.
spec fn as_steps(names: Seq<Seq<char>>) -> Seq<Comp> {
    names.map_values(|n: Seq<char>| Comp::Name(n))
}

proof fn lemma_walk_on(spot: Spot, k: nat, hops: nat, look: spec_fn(Seq<char>) -> Seen)
    requires
        k <= spot.names.len(),
        is_clear(spot, look),
    ensures
        sandbox::walked(
            Spot { rooted: spot.rooted, names: spot.names.take(k as int) },
            as_steps(spot.names.skip(k as int)),
            hops,
            look,
        ) == Some(spot),
        followed(
            Spot { rooted: spot.rooted, names: spot.names.take(k as int) },
            as_steps(spot.names.skip(k as int)),
            hops,
            look,
        ) == 0,
    decreases spot.names.len() - k,
{
    let here = Spot { rooted: spot.rooted, names: spot.names.take(k as int) };
    let steps = as_steps(spot.names.skip(k as int));
    if k == spot.names.len() {
        assert(here =~= spot);
    } else {
        let n = spot.names[k as int];
        assert(steps[0] == Comp::Name(n));
        assert(here.names.push(n) =~= spot.names.take(k as int + 1));
        assert(steps.drop_first() =~= as_steps(spot.names.skip(k as int + 1)));
        lemma_walk_on(spot, k + 1, hops, look);
    }
}

proof fn lemma_split_joined(names: Seq<Seq<char>>)
    requires
        names.len() > 0,
        forall|i: int| 0 <= i < names.len() ==> is_name(#[trigger] names[i]),
    ensures
        split::split(split::join(names, "/"@), split::Cut::Any("/"@)) == names,
    decreases names.len(),
{
    let at = split::Cut::Any("/"@);
    let s = split::join(names, "/"@);
    let a = names[0];
    reveal_strlit("/");
    assert("/"@[0] == '/');
    assert(split::cuts(at, '/'));
    assert forall|j: int| 0 <= j < a.len() implies !split::cuts(at, #[trigger] a[j]) by {
        if split::cuts(at, a[j]) {
            let i = choose|i: int| 0 <= i < "/"@.len() && "/"@[i] == a[j];
            assert(a[j] == '/');
            assert(a.contains('/'));
        }
    }
    if names.len() == 1 {
        split::lemma_first_cut_is(s, at, s.len() as int);
        assert(split::split(s, at) =~= names);
    } else {
        let rest = names.drop_first();
        assert(names =~= seq![a] + rest);
        split::lemma_join_cons(a, rest, "/"@);
        assert forall|i: int| 0 <= i < rest.len() implies is_name(#[trigger] rest[i]) by {
            assert(rest[i] == names[i + 1]);
        }
        lemma_split_joined(rest);
        assert(s == a + "/"@ + split::join(rest, "/"@));
        assert(s[a.len() as int] == '/');
        assert forall|j: int| 0 <= j < a.len() implies !split::cuts(at, s[j]) by {
            assert(s[j] == a[j]);
        }
        split::lemma_first_cut_is(s, at, a.len() as int);
        assert(s.take(a.len() as int) =~= a);
        assert(s.skip(a.len() as int + 1) =~= split::join(rest, "/"@));
        assert(split::split(s, at) =~= names);
    }
}

proof fn lemma_comps_of_names(names: Seq<Seq<char>>)
    requires
        forall|i: int| 0 <= i < names.len() ==> is_name(#[trigger] names[i]),
    ensures
        paths::comps_of(names) == as_steps(names),
    decreases names.len(),
{
    if names.len() == 0 {
        assert(paths::comps_of(names) =~= as_steps(names));
    } else {
        let rest = names.drop_first();
        assert forall|i: int| 0 <= i < rest.len() implies is_name(#[trigger] rest[i]) by {
            assert(rest[i] == names[i + 1]);
        }
        lemma_comps_of_names(rest);
        assert(is_name(names[0]));
        assert(paths::comps_of(names) =~= as_steps(names));
    }
}

/// A rooted spot, written as a path and taken apart again.
proof fn lemma_comps_of_place(spot: Spot)
    requires
        spot.rooted,
        is_plain(spot),
    ensures
        paths::is_rooted(sandbox::place_of(spot)),
        paths::comps(sandbox::place_of(spot)) == seq![Comp::Root] + as_steps(spot.names),
{
    let at = split::Cut::Any("/"@);
    let s = sandbox::place_of(spot);
    let tail = split::join(spot.names, "/"@);
    reveal_strlit("/");
    assert("/"@[0] == '/');
    assert(s == "/"@ + tail);
    assert(s[0] == '/');
    assert(split::cuts(at, '/'));
    split::lemma_first_cut_is(s, at, 0);
    assert(s.take(0) =~= seq![]);
    assert(s.skip(1) =~= tail);
    let pieces = split::split(s, at);
    assert(pieces =~= seq![Seq::<char>::empty()] + split::split(tail, at));
    assert(pieces.drop_first() =~= split::split(tail, at));
    if spot.names.len() == 0 {
        assert(tail =~= seq![]);
        assert(split::split(tail, at) =~= seq![tail]);
        let one = split::split(tail, at);
        assert(one.drop_first() =~= seq![]);
        assert(paths::comp_of(one[0]) is None);
        assert(paths::comps_of(one.drop_first()) =~= seq![]);
        assert(paths::comps_of(one) =~= seq![]);
        assert(as_steps(spot.names) =~= seq![]);
    } else {
        lemma_split_joined(spot.names);
        lemma_comps_of_names(spot.names);
    }
    assert(paths::comps_of(pieces) == as_steps(spot.names));
}

proof fn lemma_joined_is_rooted(path: Seq<char>, root: Seq<char>)
    requires
        paths::is_rooted(root),
    ensures
        paths::is_rooted(paths::joined(root, path)),
        paths::comps(paths::joined(root, path)).len() > 0,
        paths::comps(paths::joined(root, path))[0] is Root,
{
}

/// Where the walk to a path ends, below a rooted root: at a rooted spot made of
/// names alone, that no link stands on the way to.
proof fn lemma_end(path: Seq<char>, root: Seq<char>, look: spec_fn(Seq<char>) -> Seen)
    ensures
        sandbox::resolved(path, root, look) matches Some(q) ==> exists|spot: Spot|
            q == #[trigger] sandbox::place_of(spot) && is_plain(spot) && is_clear(spot, look) && (paths::is_rooted(
                root,
            ) ==> spot.rooted),
{
    let start = Spot { rooted: false, names: seq![] };
    let steps = paths::comps(paths::joined(root, path));
    lemma_comps(paths::joined(root, path));
    lemma_walk(start, steps, MAX_LINK_HOPS as nat, look);
    if paths::is_rooted(root) {
        lemma_joined_is_rooted(path, root);
    }
    if let Some(spot) = sandbox::walked(start, steps, MAX_LINK_HOPS as nat, look) {
        assert(sandbox::resolved(path, root, look) == Some(sandbox::place_of(spot)));
    }
}

// ---------------------------------------------------------------------------- laws

/// What a path resolves to is no link, and there is none on the way to it. It has
/// no `.` and no `..` in it, and is absolute where the root is.
pub proof fn law_what_is_resolved_meets_no_link(path: Seq<char>, root: Seq<char>, look: spec_fn(Seq<char>) -> Seen)
    ensures
        sandbox::resolved(path, root, look) matches Some(q) ==> exists|spot: Spot|
            q == #[trigger] sandbox::place_of(spot) && is_plain(spot) && is_clear(spot, look) && (paths::is_rooted(
                root,
            ) ==> spot.rooted && paths::is_rooted(q)),
{
    lemma_end(path, root, look);
    if let Some(q) = sandbox::resolved(path, root, look) {
        let spot = choose|spot: Spot|
            q == #[trigger] sandbox::place_of(spot) && is_plain(spot) && is_clear(spot, look) && (paths::is_rooted(
                root,
            ) ==> spot.rooted);
        if paths::is_rooted(root) {
            lemma_comps_of_place(spot);
        }
    }
}

/// What a path resolves to resolves to itself, and no link is followed to it.
pub proof fn law_what_is_resolved_stays_put(path: Seq<char>, root: Seq<char>, look: spec_fn(Seq<char>) -> Seen)
    requires
        paths::is_rooted(root),
    ensures
        sandbox::resolved(path, root, look) matches Some(q) ==> sandbox::resolved(q, root, look) == Some(q)
            && links_to(q, root, look) == 0,
{
    lemma_end(path, root, look);
    if let Some(q) = sandbox::resolved(path, root, look) {
        let spot = choose|spot: Spot|
            q == #[trigger] sandbox::place_of(spot) && is_plain(spot) && is_clear(spot, look) && (paths::is_rooted(
                root,
            ) ==> spot.rooted);
        lemma_comps_of_place(spot);
        let start = Spot { rooted: false, names: seq![] };
        let steps = paths::comps(paths::joined(root, q));
        assert(steps == seq![Comp::Root] + as_steps(spot.names));
        assert(steps[0] == Comp::Root);
        assert(steps.drop_first() =~= as_steps(spot.names));
        assert(spot.names.skip(0) =~= spot.names);
        assert(spot.names.take(0) =~= seq![]);
        lemma_walk_on(spot, 0, MAX_LINK_HOPS as nat, look);
        assert(sandbox::walked(start, steps, MAX_LINK_HOPS as nat, look) == Some(spot));
    }
}

/// A path does not resolve exactly where the walk to it steps above where it
/// started, meets a link that cannot be read, or meets one more link than the
/// forty that it follows.
pub proof fn law_why_a_path_does_not_resolve(path: Seq<char>, root: Seq<char>, look: spec_fn(Seq<char>) -> Seen)
    ensures
        sandbox::resolved(path, root, look) is None == obstacle(path, root, look) is Some,
        links_to(path, root, look) <= 40,
        obstacle(path, root, look) == Some(Stop::TooManyLinks) ==> links_to(path, root, look) == 40,
{
    lemma_stop(
        Spot { rooted: false, names: seq![] },
        paths::comps(paths::joined(root, path)),
        MAX_LINK_HOPS as nat,
        look,
    );
}

/// A write cannot leave the root through a link: where one is allowed, the place
/// that it goes to lies below the root, and no link stands there or on the way.
pub proof fn law_an_allowed_write_meets_no_link(
    call: Call,
    root: Seq<char>,
    mode: PermissionMode,
    consents: Seq<ScopedConsent>,
    node_gate: bool,
    source_roots: Seq<FilePath>,
    look: spec_fn(Seq<char>) -> Seen,
)
    requires
        sandbox::write_path(call) is Some,
        sandbox::verdict(call, root, mode, consents, node_gate, source_roots, look) == Verdict::Allowed,
    ensures
        exists|spot: Spot|
            sandbox::resolved(sandbox::write_path(call)->0, root, look) == Some(#[trigger] sandbox::place_of(spot))
                && paths::under(sandbox::place_of(spot), root) && is_plain(spot) && is_clear(spot, look),
{
    sandbox::law_an_allowed_write_stays_inside(call, root, mode, consents, node_gate, source_roots, look);
    lemma_end(sandbox::write_path(call)->0, root, look);
}

} // verus!
