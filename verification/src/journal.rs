//! The action journal: every dispatched call, its verdict and its outcome.
//!
//! This is not diagnostics. It is the path list rollback restores from, and the
//! record that answers "what did the agent do to my project".

use vstd::prelude::*;
use crate::json;
use crate::paths;
use crate::paths::FilePath;
use crate::split;
use crate::split::split_lines;
use crate::text;
use crate::text::{chars_of, same, string_of, trimmed};

verus! {

#[derive(Debug, Clone, Copy, PartialEq, Eq, Structural)]
pub enum Effect {
    Read,
    Wrote,
    Deleted,
    Ran,
    Searched,
}

#[derive(Debug, Clone, PartialEq, Eq)]
pub struct Entry {
    pub at: String,
    pub node: String,
    pub attempt: u32,
    pub effect: Effect,
    pub verdict: String,
    /// Paths the call touched, or named where it was declined. Rollback reads
    /// exactly those of what was done.
    pub paths: Vec<FilePath>,
    pub command: Option<String>,
    pub exit_code: Option<i32>,
    pub note: Option<String>,
    /// True when the path existed before this run first touched it. Rollback
    /// restores those and deletes the rest.
    pub existed_before: Vec<bool>,
}

/// An entry, as texts.
#[verifier::ext_equal]
pub struct Line {
    pub at: Seq<char>,
    pub node: Seq<char>,
    pub attempt: u32,
    pub effect: Effect,
    pub verdict: Seq<char>,
    pub paths: Seq<Seq<char>>,
    pub command: Option<Seq<char>>,
    pub exit_code: Option<i32>,
    pub note: Option<Seq<char>>,
    pub existed_before: Seq<bool>,
}

/// Paths, as texts.
pub open spec fn path_texts(v: Seq<FilePath>) -> Seq<Seq<char>> {
    v.map_values(|p: FilePath| p@)
}

impl View for Entry {
    type V = Line;

    open spec fn view(&self) -> Line {
        Line {
            at: self.at@,
            node: self.node@,
            attempt: self.attempt,
            effect: self.effect,
            verdict: self.verdict@,
            paths: path_texts(self.paths@),
            command: json::said(self.command),
            exit_code: self.exit_code,
            note: json::said(self.note),
            existed_before: self.existed_before@,
        }
    }
}

/// Where a run keeps its journal.
#[derive(Debug, Clone, PartialEq, Eq)]
pub struct Journal {
    path: FilePath,
}

// ------------------------------------------------------------------ what was done

/// Whether the entry records what was not done, but declined.
pub open spec fn is_declined(e: Entry) -> bool {
    e.verdict@ == "Rejected"@ || e.verdict@ == "Forbidden"@
}

fn declined(e: &Entry) -> (r: bool)
    ensures
        r == is_declined(*e),
{
    same(e.verdict.as_str(), "Rejected") || same(e.verdict.as_str(), "Forbidden")
}

/// Whether the entry records a write that the node really made. One that names no
/// path wrote nothing: that is how a patch is recorded that did not apply.
pub open spec fn is_write_by(e: Entry, node: Seq<char>) -> bool {
    e.node@ == node && e.effect == Effect::Wrote && e.paths@.len() > 0 && !is_declined(e)
}

/// How many of the entries do.
pub open spec fn count_writes(entries: Seq<Entry>, node: Seq<char>) -> nat
    decreases entries.len(),
{
    if entries.len() == 0 {
        0
    } else {
        count_writes(entries.drop_last(), node) + if is_write_by(entries.last(), node) {
            1nat
        } else {
            0
        }
    }
}

/// Whether the entry records a change to the disk: a write or a deletion that was
/// done, not one that was declined.
pub open spec fn is_mutation(e: Entry) -> bool {
    (e.effect == Effect::Wrote || e.effect == Effect::Deleted) && !is_declined(e)
}

/// A path that was changed, and whether it was there before.
pub struct Touched {
    pub path: Seq<char>,
    pub existed: bool,
}

/// Whether the path, by its components, is among those touched.
pub open spec fn is_touched(seen: Seq<Touched>, path: Seq<char>) -> bool {
    exists|i: int| 0 <= i < seen.len() && paths::comps((#[trigger] seen[i]).path) == paths::comps(path)
}

/// Whether the path in place `i` of an entry was there before. What is not
/// recorded was not.
pub open spec fn existed(e: Entry, i: int) -> bool {
    i < e.existed_before@.len() && e.existed_before@[i]
}

/// The paths touched with one more, where it is not among them already.
pub open spec fn with_touch(seen: Seq<Touched>, path: Seq<char>, existed: bool) -> Seq<Touched> {
    if is_touched(seen, path) {
        seen
    } else {
        seen.push(Touched { path, existed })
    }
}

/// The paths touched with the first `n` of an entry.
pub open spec fn with_entry(seen: Seq<Touched>, e: Entry, n: nat) -> Seq<Touched>
    decreases n,
{
    if n == 0 {
        seen
    } else {
        with_touch(with_entry(seen, e, (n - 1) as nat), e.paths@[n - 1]@, existed(e, n - 1))
    }
}

/// The paths a run wrote or deleted, in the order in which it first did.
pub open spec fn touched(entries: Seq<Entry>) -> Seq<Touched>
    decreases entries.len(),
{
    if entries.len() == 0 {
        seq![]
    } else {
        let before = touched(entries.drop_last());
        let e = entries.last();
        if is_mutation(e) {
            with_entry(before, e, e.paths@.len())
        } else {
            before
        }
    }
}

/// What pairs of path and flag say.
pub open spec fn as_touched(v: Seq<(FilePath, bool)>) -> Seq<Touched> {
    v.map_values(|p: (FilePath, bool)| Touched { path: p.0@, existed: p.1 })
}

/// The lines of a journal that hold an entry: those that are not blank.
pub open spec fn entry_lines(lines: Seq<Seq<char>>) -> Seq<Seq<char>>
    decreases lines.len(),
{
    if lines.len() == 0 {
        seq![]
    } else if text::is_blank(lines.last()) {
        entry_lines(lines.drop_last())
    } else {
        entry_lines(lines.drop_last()).push(lines.last())
    }
}

fn touch(seen: &mut Vec<(FilePath, bool)>, path: &FilePath, existed: bool)
    ensures
        as_touched(final(seen)@) == with_touch(as_touched(old(seen)@), path@, existed),
{
    let ghost before = as_touched(seen@);
    let mut i: usize = 0;
    while i < seen.len()
        invariant
            i <= seen.len(),
            before == as_touched(seen@),
            forall|j: int| 0 <= j < i ==> paths::comps((#[trigger] before[j]).path) != paths::comps(path@),
        decreases seen.len() - i,
    {
        assert(before[i as int].path == seen@[i as int].0@);
        if seen[i].0 == *path {
            return;
        }
        i = i + 1;
    }
    let ghost old_seen = seen@;
    seen.push((path.clone(), existed));
    assert(as_touched(seen@) =~= before.push(Touched { path: path@, existed }));
}

impl Journal {
    pub closed spec fn path_text(self) -> Seq<char> {
        self.path@
    }

    /// The journal of the run in a directory.
    pub fn create(run_dir: &FilePath) -> (j: Self)
        ensures
            j.path_text() == paths::joined(run_dir@, "journal.jsonl"@),
    {
        Journal { path: run_dir.join("journal.jsonl") }
    }

    pub fn path(&self) -> (p: &FilePath)
        ensures
            p@ == self.path_text(),
    {
        &self.path
    }

    /// The lines of a journal that are to be read as entries.
    pub fn lines_of(text: &str) -> (v: Vec<String>)
        ensures
            text::texts(v@) == entry_lines(split::lines(text@)),
    {
        let chars = chars_of(text);
        let lines = split_lines(chars.as_slice());
        let ghost p = text::pieces(lines@);
        let mut v: Vec<String> = Vec::new();
        let mut i: usize = 0;
        assert(text::texts(v@) =~= entry_lines(p.take(0)));
        while i < lines.len()
            invariant
                i <= lines.len(),
                p == text::pieces(lines@),
                text::texts(v@) == entry_lines(p.take(i as int)),
            decreases lines.len() - i,
        {
            assert(p.take(i + 1).drop_last() =~= p.take(i as int));
            assert(p.take(i + 1).last() == lines@[i as int]@);
            if trimmed(lines[i]).len() > 0 {
                let s = string_of(lines[i]);
                proof {
                    text::lemma_texts_push(v@, s);
                }
                v.push(s);
            }
            i = i + 1;
        }
        assert(p.take(i as int) =~= p);
        v
    }

    /// How many writes a given node actually made. The record, not the claim.
    ///
    /// An agent that reports work it did not do is the worst failure a product
    /// like this can have: a crash is visible, a fabricated success is not.
    pub fn writes_by(entries: &[Entry], node: &str) -> (n: usize)
        ensures
            n == count_writes(entries@, node@),
    {
        let mut n: usize = 0;
        let mut i: usize = 0;
        while i < entries.len()
            invariant
                i <= entries.len(),
                n <= i,
                n == count_writes(entries@.take(i as int), node@),
            decreases entries.len() - i,
        {
            let e = &entries[i];
            assert(entries@.take(i + 1).drop_last() =~= entries@.take(i as int));
            assert(entries@.take(i + 1).last() == *e);
            if same(e.node.as_str(), node) && e.effect == Effect::Wrote && e.paths.len() > 0 && !declined(e) {
                n = n + 1;
            }
            i = i + 1;
        }
        assert(entries@.take(i as int) =~= entries@);
        n
    }

    /// Paths this run wrote or deleted, in first-touch order, each with whether
    /// it existed before the run touched it. This is the whole input to rollback
    /// scoping: a path absent here is never read, written or considered.
    pub fn mutated_paths(entries: &[Entry]) -> (v: Vec<(FilePath, bool)>)
        ensures
            as_touched(v@) == touched(entries@),
    {
        let mut seen: Vec<(FilePath, bool)> = Vec::new();
        let mut i: usize = 0;
        assert(as_touched(seen@) =~= touched(entries@.take(0)));
        while i < entries.len()
            invariant
                i <= entries.len(),
                as_touched(seen@) == touched(entries@.take(i as int)),
            decreases entries.len() - i,
        {
            let e = &entries[i];
            let ghost before = as_touched(seen@);
            assert(entries@.take(i + 1).drop_last() =~= entries@.take(i as int));
            assert(entries@.take(i + 1).last() == *e);
            if (e.effect == Effect::Wrote || e.effect == Effect::Deleted) && !declined(e) {
                let mut j: usize = 0;
                while j < e.paths.len()
                    invariant
                        j <= e.paths.len(),
                        as_touched(seen@) == with_entry(before, *e, j as nat),
                    decreases e.paths.len() - j,
                {
                    let was = j < e.existed_before.len() && e.existed_before[j];
                    touch(&mut seen, &e.paths[j], was);
                    j = j + 1;
                }
            }
            i = i + 1;
        }
        assert(entries@.take(i as int) =~= entries@);
        seen
    }
}

// -------------------------------------------------------------------------- laws

/// Whether no path is there twice.
pub open spec fn are_distinct(seen: Seq<Touched>) -> bool {
    forall|i: int, j: int|
        0 <= i < j < seen.len() ==> paths::comps((#[trigger] seen[i]).path) != paths::comps(
            (#[trigger] seen[j]).path,
        )
}

proof fn lemma_with_touch(seen: Seq<Touched>, path: Seq<char>, existed: bool)
    requires
        are_distinct(seen),
    ensures
        are_distinct(with_touch(seen, path, existed)),
        seen.is_prefix_of(with_touch(seen, path, existed)),
        is_touched(with_touch(seen, path, existed), path),
{
    let r = with_touch(seen, path, existed);
    assert(seen =~= r.subrange(0, seen.len() as int));
    if !is_touched(seen, path) {
        assert(r[seen.len() as int].path == path);
    }
}

proof fn lemma_with_entry(seen: Seq<Touched>, e: Entry, n: nat)
    requires
        are_distinct(seen),
    ensures
        are_distinct(with_entry(seen, e, n)),
        seen.is_prefix_of(with_entry(seen, e, n)),
    decreases n,
{
    if n == 0 {
        assert(seen =~= seen.subrange(0, seen.len() as int));
    } else {
        let m = (n - 1) as nat;
        lemma_with_entry(seen, e, m);
        let a = with_entry(seen, e, m);
        lemma_with_touch(a, e.paths@[n - 1]@, existed(e, n - 1));
        let b = with_entry(seen, e, n);
        assert(seen =~= b.subrange(0, seen.len() as int)) by {
            assert forall|i: int| 0 <= i < seen.len() implies seen[i] == b[i] by {
                assert(seen[i] == a.subrange(0, seen.len() as int)[i]);
                assert(a[i] == b.subrange(0, a.len() as int)[i]);
            }
        }
    }
}

/// The first touch wins: no path is there twice, and what more entries add comes
/// after what was there, which stays as it was.
pub proof fn law_first_touch_wins(before: Seq<Entry>, after: Seq<Entry>)
    ensures
        are_distinct(touched(before + after)),
        touched(before).is_prefix_of(touched(before + after)),
    decreases after.len(),
{
    lemma_touched_distinct(before);
    if after.len() == 0 {
        assert(before + after =~= before);
        assert(touched(before) =~= touched(before).subrange(0, touched(before).len() as int));
    } else {
        let head = after.drop_last();
        law_first_touch_wins(before, head);
        assert((before + after).drop_last() =~= before + head);
        assert((before + after).last() == after.last());
        let a = touched(before + head);
        let e = after.last();
        lemma_with_entry(a, e, e.paths@.len());
        let b = touched(before + after);
        let t = touched(before);
        assert(t =~= b.subrange(0, t.len() as int)) by {
            assert forall|i: int| 0 <= i < t.len() implies t[i] == b[i] by {
                assert(t[i] == a.subrange(0, t.len() as int)[i]);
                if is_mutation(e) {
                    assert(a[i] == b.subrange(0, a.len() as int)[i]);
                }
            }
        }
    }
}

proof fn lemma_touched_distinct(entries: Seq<Entry>)
    ensures
        are_distinct(touched(entries)),
    decreases entries.len(),
{
    if entries.len() > 0 {
        lemma_touched_distinct(entries.drop_last());
        let e = entries.last();
        lemma_with_entry(touched(entries.drop_last()), e, e.paths@.len());
    }
}

/// Reading, running and searching leave no trace in what rollback considers, and
/// neither does what was declined.
pub proof fn law_only_mutations_are_considered(entries: Seq<Entry>, e: Entry)
    requires
        !is_mutation(e),
    ensures
        touched(entries.push(e)) == touched(entries),
{
    assert(entries.push(e).drop_last() =~= entries);
}

/// What was touched stays so.
proof fn lemma_touch_stays(seen: Seq<Touched>, e: Entry, n: nat, path: Seq<char>)
    requires
        is_touched(seen, path),
    ensures
        is_touched(with_entry(seen, e, n), path),
    decreases n,
{
    if n > 0 {
        lemma_touch_stays(seen, e, (n - 1) as nat, path);
        let a = with_entry(seen, e, (n - 1) as nat);
        let b = with_entry(seen, e, n);
        let i = choose|i: int| 0 <= i < a.len() && paths::comps((#[trigger] a[i]).path) == paths::comps(path);
        assert(b[i] == a[i]);
    }
}

/// Each of the paths of an entry is touched with it.
proof fn lemma_entry_touches(seen: Seq<Touched>, e: Entry, n: nat, k: int)
    requires
        0 <= k < n,
    ensures
        is_touched(with_entry(seen, e, n), e.paths@[k]@),
    decreases n,
{
    let a = with_entry(seen, e, (n - 1) as nat);
    let b = with_entry(seen, e, n);
    if k < n - 1 {
        lemma_entry_touches(seen, e, (n - 1) as nat, k);
        let i = choose|i: int|
            0 <= i < a.len() && paths::comps((#[trigger] a[i]).path) == paths::comps(e.paths@[k]@);
        assert(b[i] == a[i]);
    } else if !is_touched(a, e.paths@[k]@) {
        assert(b[a.len() as int].path == e.paths@[k]@);
    }
}

/// Rollback misses nothing: every path of every entry that records a change is
/// among those that it considers.
pub proof fn law_every_mutation_is_considered(entries: Seq<Entry>, i: int, k: int)
    requires
        0 <= i < entries.len(),
        is_mutation(entries[i]),
        0 <= k < entries[i].paths@.len(),
    ensures
        is_touched(touched(entries), entries[i].paths@[k]@),
    decreases entries.len(),
{
    let head = entries.drop_last();
    let e = entries.last();
    if i < head.len() {
        law_every_mutation_is_considered(head, i, k);
        lemma_touch_stays(touched(head), e, e.paths@.len(), entries[i].paths@[k]@);
    } else {
        lemma_entry_touches(touched(head), e, e.paths@.len(), k);
    }
}

/// Whether the path in place `j` of entry `i` is one that the run changed: the
/// entry is of a write or a deletion, and neither a person nor the sandbox
/// declined it.
pub open spec fn is_change(entries: Seq<Entry>, i: int, j: int) -> bool {
    &&& 0 <= i < entries.len()
    &&& 0 <= j < entries[i].paths@.len()
    &&& entries[i].effect == Effect::Wrote || entries[i].effect == Effect::Deleted
    &&& entries[i].verdict@ != "Rejected"@
    &&& entries[i].verdict@ != "Forbidden"@
}

/// Whether that is the first place where the run changed that path, by its
/// components.
pub open spec fn is_first_change(entries: Seq<Entry>, i: int, j: int) -> bool {
    &&& is_change(entries, i, j)
    &&& forall|a: int, b: int|
        #![trigger entries[a].paths@[b]]
        is_change(entries, a, b) && (a < i || (a == i && b < j)) ==> paths::comps(entries[a].paths@[b]@)
            != paths::comps(entries[i].paths@[j]@)
}

/// What an entry adds: the path in some place of it, with the flag in that place.
proof fn lemma_added(seen: Seq<Touched>, e: Entry, n: nat, k: int) -> (j: int)
    requires
        n <= e.paths@.len(),
        0 <= k < with_entry(seen, e, n).len(),
    ensures
        seen.len() <= with_entry(seen, e, n).len(),
        k < seen.len() ==> with_entry(seen, e, n)[k] == seen[k],
        k >= seen.len() ==> {
            &&& 0 <= j < n
            &&& with_entry(seen, e, n)[k].path == e.paths@[j]@
            &&& with_entry(seen, e, n)[k].existed == (j < e.existed_before@.len() && e.existed_before@[j])
            &&& !is_touched(seen, e.paths@[j]@)
            &&& forall|b: int|
                #![trigger e.paths@[b]]
                0 <= b < j ==> paths::comps(e.paths@[b]@) != paths::comps(e.paths@[j]@)
        },
    decreases n,
{
    if n == 0 {
        0
    } else {
        let m = (n - 1) as nat;
        let a = with_entry(seen, e, m);
        if a.len() > 0 {
            let _ = lemma_added(seen, e, m, 0);
        }
        if k < a.len() {
            lemma_added(seen, e, m, k)
        } else {
            let path = e.paths@[n - 1]@;
            assert forall|b: int|
                #![trigger e.paths@[b]]
                0 <= b < n - 1 implies paths::comps(e.paths@[b]@) != paths::comps(path) by {
                lemma_entry_touches(seen, e, m, b);
                let x = choose|x: int|
                    0 <= x < a.len() && paths::comps((#[trigger] a[x]).path) == paths::comps(e.paths@[b]@);
                if paths::comps(e.paths@[b]@) == paths::comps(path) {
                    assert(is_touched(a, path));
                }
            }
            if is_touched(seen, path) {
                lemma_touch_stays(seen, e, m, path);
            }
            n - 1
        }
    }
}

/// What rollback is told of a path is what was recorded for that very path where
/// the run first changed it: each of the paths that it considers is one that some
/// entry changed, and whether it was there before is the flag in the same place of
/// that entry. A flag that was not recorded means that it was not.
pub proof fn law_the_flag_is_that_of_the_first_change(entries: Seq<Entry>, k: int) -> (at: (int, int))
    requires
        0 <= k < touched(entries).len(),
    ensures
        is_first_change(entries, at.0, at.1),
        touched(entries)[k].path == entries[at.0].paths@[at.1]@,
        touched(entries)[k].existed == (at.1 < entries[at.0].existed_before@.len()
            && entries[at.0].existed_before@[at.1]),
    decreases entries.len(),
{
    let head = entries.drop_last();
    let e = entries.last();
    let before = touched(head);
    if k < before.len() {
        let at = law_the_flag_is_that_of_the_first_change(head, k);
        if is_mutation(e) {
            let _ = lemma_added(before, e, e.paths@.len(), k);
        }
        assert(entries[at.0] == head[at.0]);
        assert forall|a: int, b: int|
            #![trigger entries[a].paths@[b]]
            is_change(entries, a, b) && (a < at.0 || (a == at.0 && b < at.1)) implies paths::comps(
            entries[a].paths@[b]@,
        ) != paths::comps(entries[at.0].paths@[at.1]@) by {
            assert(head[a] == entries[a]);
            assert(is_change(head, a, b));
            assert(paths::comps(head[a].paths@[b]@) != paths::comps(head[at.0].paths@[at.1]@));
        }
        at
    } else {
        assert(is_mutation(e));
        let j = lemma_added(before, e, e.paths@.len(), k);
        let last = entries.len() - 1;
        let path = e.paths@[j]@;
        assert forall|a: int, b: int|
            #![trigger entries[a].paths@[b]]
            is_change(entries, a, b) && (a < last || (a == last && b < j)) implies paths::comps(
            entries[a].paths@[b]@,
        ) != paths::comps(path) by {
            if a < last {
                assert(head[a] == entries[a]);
                law_every_mutation_is_considered(head, a, b);
                let x = choose|x: int|
                    0 <= x < before.len() && paths::comps((#[trigger] before[x]).path) == paths::comps(
                        entries[a].paths@[b]@,
                    );
                if paths::comps(entries[a].paths@[b]@) == paths::comps(path) {
                    assert(is_touched(before, path));
                }
            }
        }
        (last, j)
    }
}

/// Nothing that the run changed is left out: each path of an entry that changed it
/// is considered, with the flag of the place where it was first changed.
pub proof fn law_each_first_change_is_considered(entries: Seq<Entry>, i: int, j: int) -> (k: int)
    requires
        is_first_change(entries, i, j),
    ensures
        0 <= k < touched(entries).len(),
        touched(entries)[k].path == entries[i].paths@[j]@,
        touched(entries)[k].existed == (j < entries[i].existed_before@.len() && entries[i].existed_before@[j]),
{
    law_every_mutation_is_considered(entries, i, j);
    let all = touched(entries);
    let k = choose|k: int|
        0 <= k < all.len() && paths::comps((#[trigger] all[k]).path) == paths::comps(entries[i].paths@[j]@);
    let at = law_the_flag_is_that_of_the_first_change(entries, k);
    assert(paths::comps(entries[at.0].paths@[at.1]@) == paths::comps(entries[i].paths@[j]@));
    k
}

proof fn lemma_added_in_order(seen: Seq<Touched>, e: Entry, n: nat, k1: int, k2: int) -> (js: (int, int))
    requires
        n <= e.paths@.len(),
        seen.len() <= k1 < k2 < with_entry(seen, e, n).len(),
    ensures
        0 <= js.0 < js.1 < n,
        with_entry(seen, e, n)[k1].path == e.paths@[js.0]@,
        with_entry(seen, e, n)[k2].path == e.paths@[js.1]@,
    decreases n,
{
    if n == 0 {
        (0, 0)
    } else {
        let m = (n - 1) as nat;
        let a = with_entry(seen, e, m);
        if k2 < a.len() {
            lemma_added_in_order(seen, e, m, k1, k2)
        } else {
            let j = lemma_added(seen, e, m, k1);
            (j, n - 1)
        }
    }
}

/// The paths come in the order in which the run changed them.
pub proof fn law_paths_come_in_the_order_of_their_changes(entries: Seq<Entry>, k1: int, k2: int) -> (at: (
    (int, int),
    (int, int),
))
    requires
        0 <= k1 < k2 < touched(entries).len(),
    ensures
        is_change(entries, at.0.0, at.0.1),
        is_change(entries, at.1.0, at.1.1),
        at.0.0 < at.1.0 || (at.0.0 == at.1.0 && at.0.1 < at.1.1),
        touched(entries)[k1].path == entries[at.0.0].paths@[at.0.1]@,
        touched(entries)[k2].path == entries[at.1.0].paths@[at.1.1]@,
    decreases entries.len(),
{
    let head = entries.drop_last();
    let e = entries.last();
    let before = touched(head);
    let last = entries.len() - 1;
    if is_mutation(e) {
        let _ = lemma_added(before, e, e.paths@.len(), k1);
        let _ = lemma_added(before, e, e.paths@.len(), k2);
    }
    if k2 < before.len() {
        let at = law_paths_come_in_the_order_of_their_changes(head, k1, k2);
        assert(head[at.0.0] == entries[at.0.0]);
        assert(head[at.1.0] == entries[at.1.0]);
        at
    } else if k1 < before.len() {
        let first = law_the_flag_is_that_of_the_first_change(head, k1);
        assert(head[first.0] == entries[first.0]);
        let j = lemma_added(before, e, e.paths@.len(), k2);
        (first, (last, j))
    } else {
        let js = lemma_added_in_order(before, e, e.paths@.len(), k1, k2);
        ((last, js.0), (last, js.1))
    }
}

/// The count of a node's writes is the number of entries that record one: an entry
/// adds one to it exactly where it is of that node, a write, of some file, and was
/// not declined.
pub proof fn law_each_write_counts_once(entries: Seq<Entry>, e: Entry, node: Seq<char>)
    ensures
        count_writes(Seq::<Entry>::empty(), node) == 0,
        count_writes(entries.push(e), node) == count_writes(entries, node) + if e.node@ == node && e.effect
            == Effect::Wrote && e.paths@.len() > 0 && e.verdict@ != "Rejected"@ && e.verdict@ != "Forbidden"@ {
            1nat
        } else {
            0
        },
{
    assert(entries.push(e).drop_last() =~= entries);
}

} // verus!
