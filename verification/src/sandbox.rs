//! All authority in one pure function.
//!
//! The model holds no capabilities: it returns `ToolCall` values and the core
//! decides. That turns "sandboxing an agent" into classifying a value, which is
//! total, deterministic, and provable.
//!
//! Two rules carry the weight:
//!   * paths are resolved before they are compared — the classic escape is a
//!     `..` or a symlink compared as written;
//!   * the floor is expressed as an early return, so no later branch can widen
//!     it however the mode or consents are set.

use vstd::prelude::*;
use crate::floor;
use crate::floor::floor_category;
use crate::node::copy_texts;
use crate::paths;
use crate::paths::{components, Comp, FilePath, Part};
use crate::split;
use crate::split::join_strings;
use crate::table;
use crate::table::Table;
use crate::text;

pub use crate::floor::GateReason;

verus! {

/// Everything a model is able to ask for. Closed by construction: anything
/// outside this set is a parse failure, not an action.
#[derive(Debug, PartialEq, Eq)]
pub enum ToolCall {
    ReadFile { path: FilePath },
    WriteFile { path: FilePath, content: String },
    /// Replace one fragment of a file. For models that cannot hold a whole
    /// file in one argument — which is most of them below a certain size.
    ReplaceInFile { path: FilePath, find: String, replace: String },
    /// Add to the end of a file. The natural shape of "add a function".
    AppendToFile { path: FilePath, content: String },
    DeleteFile { path: FilePath },
    ApplyPatch { diff: String },
    RunCommand { program: String, args: Vec<String> },
    Search { query: String, limit: usize },
}

/// A call, as texts.
pub enum Call {
    ReadFile { path: Seq<char> },
    WriteFile { path: Seq<char>, content: Seq<char> },
    ReplaceInFile { path: Seq<char>, find: Seq<char>, replace: Seq<char> },
    AppendToFile { path: Seq<char>, content: Seq<char> },
    DeleteFile { path: Seq<char> },
    ApplyPatch { diff: Seq<char> },
    RunCommand { program: Seq<char>, args: Seq<Seq<char>> },
    Search { query: Seq<char>, limit: nat },
}

impl View for ToolCall {
    type V = Call;

    open spec fn view(&self) -> Call {
        match self {
            ToolCall::ReadFile { path } => Call::ReadFile { path: path@ },
            ToolCall::WriteFile { path, content } => Call::WriteFile { path: path@, content: content@ },
            ToolCall::ReplaceInFile { path, find, replace } => Call::ReplaceInFile {
                path: path@,
                find: find@,
                replace: replace@,
            },
            ToolCall::AppendToFile { path, content } => Call::AppendToFile { path: path@, content: content@ },
            ToolCall::DeleteFile { path } => Call::DeleteFile { path: path@ },
            ToolCall::ApplyPatch { diff } => Call::ApplyPatch { diff: diff@ },
            ToolCall::RunCommand { program, args } => Call::RunCommand {
                program: program@,
                args: text::texts(args@),
            },
            ToolCall::Search { query, limit } => Call::Search { query: query@, limit: *limit as nat },
        }
    }
}

impl Clone for ToolCall {
    fn clone(&self) -> (c: Self)
        ensures
            c@ == self@,
    {
        match self {
            ToolCall::ReadFile { path } => ToolCall::ReadFile { path: path.clone() },
            ToolCall::WriteFile { path, content } => ToolCall::WriteFile {
                path: path.clone(),
                content: content.as_str().to_owned(),
            },
            ToolCall::ReplaceInFile { path, find, replace } => ToolCall::ReplaceInFile {
                path: path.clone(),
                find: find.as_str().to_owned(),
                replace: replace.as_str().to_owned(),
            },
            ToolCall::AppendToFile { path, content } => ToolCall::AppendToFile {
                path: path.clone(),
                content: content.as_str().to_owned(),
            },
            ToolCall::DeleteFile { path } => ToolCall::DeleteFile { path: path.clone() },
            ToolCall::ApplyPatch { diff } => ToolCall::ApplyPatch { diff: diff.as_str().to_owned() },
            ToolCall::RunCommand { program, args } => ToolCall::RunCommand {
                program: program.as_str().to_owned(),
                args: copy_texts(args.as_slice()),
            },
            ToolCall::Search { query, limit } => ToolCall::Search {
                query: query.as_str().to_owned(),
                limit: *limit,
            },
        }
    }
}

/// The call that has a shell run a command line.
pub open spec fn shell_call(line: Seq<char>) -> Call {
    Call::RunCommand { program: "bash"@, args: seq!["-lc"@, line] }
}

/// Has a shell run a command line.
pub fn shell(line: String) -> (c: ToolCall)
    ensures
        c@ == shell_call(line@),
{
    let ghost text = line@;
    let mut args: Vec<String> = Vec::new();
    args.push("-lc".to_owned());
    args.push(line);
    assert(text::texts(args@) =~= seq!["-lc"@, text]);
    ToolCall::RunCommand { program: "bash".to_owned(), args }
}

#[derive(Debug, Clone, Copy, PartialEq, Eq, Structural)]
pub enum PermissionMode {
    AskForEverything,
    AskBeforeTouchingSource,
    DoNotAskInsideSandbox,
}

#[derive(Debug, Clone, Copy, PartialEq, Eq, Structural)]
pub enum ForbidReason {
    ReadOutsideRoot,
    UnresolvablePath,
}

#[derive(Debug, Clone, PartialEq, Eq, Structural)]
pub enum Verdict {
    Allowed,
    /// `consentable` is false for floor categories: scoped consent can never
    /// grant them, however narrow the path.
    Gated { reason: GateReason, consentable: bool },
    Forbidden { reason: ForbidReason },
}

impl Verdict {
    pub fn is_allowed(&self) -> (r: bool)
        ensures
            r == (self is Allowed),
    {
        matches!(self, Verdict::Allowed)
    }

    pub fn is_gated(&self) -> (r: bool)
        ensures
            r == (self is Gated),
    {
        matches!(self, Verdict::Gated { .. })
    }
}

/// A grant, bounded to one run and one path prefix.
#[derive(Debug, Clone, PartialEq, Eq)]
pub struct ScopedConsent {
    pub prefix: FilePath,
}

// ------------------------------------------------------------------ the disk

/// What stands at a place on the disk.
#[derive(Debug, Clone, PartialEq, Eq)]
pub enum Sight {
    /// A link, and what it points at.
    Link(FilePath),
    /// A link that cannot be read.
    Unreadable,
    /// Something that is no link, or nothing yet.
    Plain,
}

/// What stands at a place, as texts.
pub enum Seen {
    Link(Seq<char>),
    Unreadable,
    Plain,
}

impl View for Sight {
    type V = Seen;

    open spec fn view(&self) -> Seen {
        match self {
            Sight::Link(t) => Seen::Link(t@),
            Sight::Unreadable => Seen::Unreadable,
            Sight::Plain => Seen::Plain,
        }
    }
}

/// What has been seen of the disk, by place. A place that was not looked at is
/// taken to hold no link.
#[derive(Debug, Clone, PartialEq, Eq)]
pub struct Survey {
    pub seen: Table<Sight>,
}

impl Survey {
    /// A survey of nothing yet.
    pub fn new() -> (s: Self)
        ensures
            s.seen@ == Seq::<(Seq<char>, Sight)>::empty(),
    {
        Survey { seen: Table::new() }
    }

    /// Notes what stands at a place.
    pub fn note(&mut self, place: &FilePath, sight: Sight)
        ensures
            final(self).seen@ == table::put(old(self).seen@, place@, sight),
    {
        self.seen.insert(place.as_str().to_owned(), sight);
    }
}

/// What is known to stand at a place.
pub open spec fn sight_at(seen: Seq<(Seq<char>, Sight)>, place: Seq<char>) -> Seen {
    match table::lookup(seen, place) {
        Some(s) => s@,
        None => Seen::Plain,
    }
}

/// Where a walk stands: names below the root of the file system, or below
/// nothing.
#[verifier::ext_equal]
pub struct Spot {
    pub rooted: bool,
    pub names: Seq<Seq<char>>,
}

/// A spot as a path.
pub open spec fn place_of(spot: Spot) -> Seq<char> {
    (if spot.rooted {
        "/"@
    } else {
        ""@
    }) + split::join(spot.names, "/"@)
}

/// How many links a walk follows before it gives up, as the kernel does. That
/// turns a loop of links into a path that cannot be resolved.
pub const MAX_LINK_HOPS: usize = 40;

/// Where the steps lead from a spot, on a disk that shows `look` at each place.
///
///   * Every name is looked at, and a link is replaced by its target whether or
///     not that target exists.
///   * `..` is applied to what the walk has resolved so far, never to the path
///     as written — otherwise `link/..` cancels a link pointing elsewhere.
pub open spec fn walked(
    spot: Spot,
    steps: Seq<Comp>,
    hops: nat,
    look: spec_fn(Seq<char>) -> Seen,
) -> Option<Spot>
    decreases hops, steps.len(),
{
    if steps.len() == 0 {
        Some(spot)
    } else {
        let rest = steps.drop_first();
        match steps[0] {
            Comp::Cur => walked(spot, rest, hops, look),
            Comp::Root => walked(Spot { rooted: true, names: seq![] }, rest, hops, look),
            Comp::Up => if spot.names.len() == 0 {
                None
            } else {
                walked(Spot { names: spot.names.drop_last(), ..spot }, rest, hops, look)
            },
            Comp::Name(n) => {
                let next = Spot { names: spot.names.push(n), ..spot };
                match look(place_of(next)) {
                    Seen::Link(target) => if hops == 0 {
                        None
                    } else {
                        walked(spot, paths::comps(target) + rest, (hops - 1) as nat, look)
                    },
                    Seen::Unreadable => None,
                    Seen::Plain => walked(next, rest, hops, look),
                }
            },
        }
    }
}

/// The path that will be acted on, for a path that may not exist yet, on a disk
/// that shows `look`.
pub open spec fn resolved(
    path: Seq<char>,
    root: Seq<char>,
    look: spec_fn(Seq<char>) -> Seen,
) -> Option<Seq<char>> {
    let start = Spot { rooted: false, names: seq![] };
    match walked(start, paths::comps(paths::joined(root, path)), MAX_LINK_HOPS as nat, look) {
        Some(spot) => Some(place_of(spot)),
        None => None,
    }
}

/// What the survey shows.
pub open spec fn shown(seen: Seq<(Seq<char>, Sight)>) -> spec_fn(Seq<char>) -> Seen {
    |place: Seq<char>| sight_at(seen, place)
}

/// The first place on the walk of which nothing is known.
pub open spec fn unknown_on(
    spot: Spot,
    steps: Seq<Comp>,
    hops: nat,
    seen: Seq<(Seq<char>, Sight)>,
) -> Option<Seq<char>>
    decreases hops, steps.len(),
{
    if steps.len() == 0 {
        None
    } else {
        let rest = steps.drop_first();
        match steps[0] {
            Comp::Cur => unknown_on(spot, rest, hops, seen),
            Comp::Root => unknown_on(Spot { rooted: true, names: seq![] }, rest, hops, seen),
            Comp::Up => if spot.names.len() == 0 {
                None
            } else {
                unknown_on(Spot { names: spot.names.drop_last(), ..spot }, rest, hops, seen)
            },
            Comp::Name(n) => {
                let next = Spot { names: spot.names.push(n), ..spot };
                match table::lookup(seen, place_of(next)) {
                    None => Some(place_of(next)),
                    Some(s) => match s@ {
                        Seen::Link(target) => if hops == 0 {
                            None
                        } else {
                            unknown_on(spot, paths::comps(target) + rest, (hops - 1) as nat, seen)
                        },
                        Seen::Unreadable => None,
                        Seen::Plain => unknown_on(next, rest, hops, seen),
                    },
                }
            },
        }
    }
}

/// The first place that has to be looked at before a path can be resolved.
pub open spec fn unknown_place(
    path: Seq<char>,
    root: Seq<char>,
    seen: Seq<(Seq<char>, Sight)>,
) -> Option<Seq<char>> {
    unknown_on(
        Spot { rooted: false, names: seq![] },
        paths::comps(paths::joined(root, path)),
        MAX_LINK_HOPS as nat,
        seen,
    )
}

/// Where a walk stands and what is left of it, first step last.
struct Walk {
    rooted: bool,
    names: Vec<String>,
    pending: Vec<Part>,
    hops: usize,
}

/// The steps that are pending, in the order in which they are taken.
spec fn steps_of(pending: Seq<Part>) -> Seq<Comp> {
    paths::all_comps(pending).reverse()
}

impl Walk {
    spec fn spot(self) -> Spot {
        Spot { rooted: self.rooted, names: text::texts(self.names@) }
    }

    spec fn steps(self) -> Seq<Comp> {
        steps_of(self.pending@)
    }

    spec fn ends(self, look: spec_fn(Seq<char>) -> Seen) -> Option<Spot> {
        walked(self.spot(), self.steps(), self.hops as nat, look)
    }

    spec fn unknown(self, seen: Seq<(Seq<char>, Sight)>) -> Option<Seq<char>> {
        unknown_on(self.spot(), self.steps(), self.hops as nat, seen)
    }
}

/// Puts the steps of a path in front of the pending ones.
fn push_steps(path: &str, pending: &mut Vec<Part>)
    ensures
        steps_of(final(pending)@) == paths::comps(path@) + steps_of(old(pending)@),
{
    let mut parts = components(path);
    let ghost all = paths::all_comps(parts@);
    let ghost old_steps = steps_of(pending@);
    let ghost n = parts@.len();
    assert(all.skip(n as int) + old_steps =~= old_steps);
    while parts.len() > 0
        invariant
            parts@.len() <= n,
            all.len() == n,
            paths::all_comps(parts@) == all.take(parts@.len() as int),
            steps_of(pending@) == all.skip(parts@.len() as int) + old_steps,
        decreases parts@.len(),
    {
        let ghost before = pending@;
        let ghost k = parts@.len() - 1;
        let ghost last = parts@[k];
        assert(paths::all_comps(parts@)[k] == last@);
        let ghost shorter = parts@.drop_last();
        assert(paths::all_comps(shorter) =~= all.take(k));
        if let Some(p) = parts.pop() {
            pending.push(p);
            assert(pending@ =~= before.push(last));
            assert(steps_of(pending@) =~= seq![last@] + steps_of(before));
            assert(all.skip(k) + old_steps =~= seq![last@] + (all.skip(k + 1) + old_steps));
        }
    }
    assert(all.skip(0) =~= all);
}

/// The place a walk stands at, or would stand at one name further on.
fn place_text(rooted: bool, names: &[String]) -> (s: String)
    ensures
        s@ == place_of(Spot { rooted, names: text::texts(names@) }),
{
    let mut s = if rooted {
        "/".to_owned()
    } else {
        "".to_owned()
    };
    s.append(join_strings(names, "/").as_str());
    s
}

/// What became of one step.
enum Stepped {
    On,
    /// Nothing was known of the place the step led to.
    Unknown(String),
    Stuck,
    Arrived,
}

/// Takes one step of a walk.
fn step(w: &mut Walk, survey: &Survey) -> (r: Stepped)
    ensures
        ({
            let seen = survey.seen@;
            let smaller = final(w).hops < old(w).hops || (final(w).hops == old(w).hops && final(w).pending@.len()
                < old(w).pending@.len());
            match r {
                Stepped::On => {
                    &&& smaller
                    &&& old(w).ends(shown(seen)) == final(w).ends(shown(seen))
                    &&& old(w).unknown(seen) == final(w).unknown(seen)
                },
                Stepped::Unknown(place) => {
                    &&& smaller
                    &&& old(w).ends(shown(seen)) == final(w).ends(shown(seen))
                    &&& old(w).unknown(seen) == Some(place@)
                },
                Stepped::Stuck => old(w).ends(shown(seen)) is None && old(w).unknown(seen) is None,
                Stepped::Arrived => {
                    &&& old(w).ends(shown(seen)) == Some(final(w).spot())
                    &&& old(w).unknown(seen) is None
                },
            }
        }),
{
    let ghost before = *w;
    let ghost steps = w.steps();
    let ghost seen = survey.seen@;
    if w.pending.len() == 0 {
        return Stepped::Arrived;
    }
    let ghost last = w.pending@.last();
    let taken = w.pending.pop();
    assert(steps[0] == last@);
    assert(steps.drop_first() =~= w.steps());
    match taken {
        None => Stepped::Arrived,
        Some(Part::Cur) => Stepped::On,
        Some(Part::Root) => {
            w.rooted = true;
            w.names = Vec::new();
            assert(text::texts(w.names@) =~= seq![]);
            Stepped::On
        },
        Some(Part::Up) => {
            assert(text::texts(w.names@).len() == w.names@.len());
            if w.names.len() == 0 {
                return Stepped::Stuck;
            }
            let ghost names = w.names@;
            let up = w.names.pop();
            assert(text::texts(w.names@) =~= text::texts(names).drop_last());
            Stepped::On
        },
        Some(Part::Name(n)) => {
            let ghost names = w.names@;
            proof {
                text::lemma_texts_push(names, n);
            }
            w.names.push(n);
            let place = place_text(w.rooted, w.names.as_slice());
            let ghost next = Spot { rooted: before.rooted, names: text::texts(names).push(n@) };
            assert(w.spot() =~= next);
            assert(place@ == place_of(next));
            assert(shown(seen)(place@) == sight_at(seen, place@));
            match survey.seen.get(place.as_str()) {
                None => Stepped::Unknown(place),
                Some(Sight::Plain) => Stepped::On,
                Some(Sight::Unreadable) => Stepped::Stuck,
                Some(Sight::Link(target)) => {
                    if w.hops == 0 {
                        return Stepped::Stuck;
                    }
                    w.hops = w.hops - 1;
                    let back = w.names.pop();
                    assert(w.names@ =~= names);
                    assert(w.spot() =~= before.spot());
                    push_steps(target.as_str(), &mut w.pending);
                    Stepped::On
                },
            }
        },
    }
}

/// A walk at its beginning.
fn set_out(path: &FilePath, root: &FilePath) -> (w: Walk)
    ensures
        w.spot() == (Spot { rooted: false, names: seq![] }),
        w.steps() == paths::comps(paths::joined(root@, path@)),
        w.hops == MAX_LINK_HOPS,
{
    let whole = root.join(path.as_str());
    let mut pending: Vec<Part> = Vec::new();
    assert(steps_of(pending@) =~= seq![]);
    push_steps(whole.as_str(), &mut pending);
    let w = Walk { rooted: false, names: Vec::new(), pending, hops: MAX_LINK_HOPS };
    assert(w.spot() =~= (Spot { rooted: false, names: seq![] }));
    assert(w.steps() =~= paths::comps(paths::joined(root@, path@)));
    w
}

/// The path that will be acted on, for a path that may not exist yet.
///
/// Resolving only the deepest existing part of a path would not be enough: a
/// link whose target is missing looks absent, and the write would then follow
/// it out of the root.
pub fn resolve(path: &FilePath, root: &FilePath, survey: &Survey) -> (r: Option<FilePath>)
    ensures
        r is Some == resolved(path@, root@, shown(survey.seen@)) is Some,
        r matches Some(p) ==> Some(p@) == resolved(path@, root@, shown(survey.seen@)),
{
    let mut w = set_out(path, root);
    let ghost start = w.ends(shown(survey.seen@));
    loop
        invariant
            w.ends(shown(survey.seen@)) == start,
            start == walked(
                Spot { rooted: false, names: seq![] },
                paths::comps(paths::joined(root@, path@)),
                MAX_LINK_HOPS as nat,
                shown(survey.seen@),
            ),
        decreases w.hops, w.pending@.len(),
    {
        match step(&mut w, survey) {
            Stepped::On => {},
            Stepped::Unknown(_) => {},
            Stepped::Stuck => {
                return None;
            },
            Stepped::Arrived => {
                return Some(FilePath { text: place_text(w.rooted, w.names.as_slice()) });
            },
        }
    }
}

/// The first place that has to be looked at before a path can be resolved, or
/// nothing where the survey shows all that the walk meets.
pub fn next_to_look_at(path: &FilePath, root: &FilePath, survey: &Survey) -> (r: Option<FilePath>)
    ensures
        r is Some == unknown_place(path@, root@, survey.seen@) is Some,
        r matches Some(p) ==> Some(p@) == unknown_place(path@, root@, survey.seen@),
{
    let mut w = set_out(path, root);
    let ghost start = w.unknown(survey.seen@);
    loop
        invariant
            w.unknown(survey.seen@) == start,
            start == unknown_place(path@, root@, survey.seen@),
        decreases w.hops, w.pending@.len(),
    {
        match step(&mut w, survey) {
            Stepped::On => {},
            Stepped::Unknown(place) => {
                return Some(FilePath { text: place });
            },
            Stepped::Stuck => {
                return None;
            },
            Stepped::Arrived => {
                return None;
            },
        }
    }
}

// -------------------------------------------------------------------- authority

/// One call, and everything it is judged by.
#[derive(Debug, Clone)]
pub struct Request<'a> {
    pub call: &'a ToolCall,
    /// Canonical project root. Everything is judged against this.
    pub root: &'a FilePath,
    pub mode: PermissionMode,
    pub consents: &'a [ScopedConsent],
    /// The workflow author put an explicit gate on this node.
    pub node_gate: bool,
    /// Paths the project treats as source, relative to the root.
    pub source_roots: &'a [FilePath],
    /// The links that were seen on the way to the path of the call.
    pub survey: &'a Survey,
}

/// Whether a consent covers the path.
pub open spec fn is_consented(path: Seq<char>, consents: Seq<ScopedConsent>) -> bool {
    exists|i: int| 0 <= i < consents.len() && paths::under(path, (#[trigger] consents[i]).prefix@)
}

/// Whether the path is source. Where no source roots are named, everything is.
pub open spec fn is_source_path(path: Seq<char>, root: Seq<char>, source_roots: Seq<FilePath>) -> bool {
    source_roots.len() == 0 || exists|i: int|
        0 <= i < source_roots.len() && paths::under(path, paths::joined(root, (#[trigger] source_roots[i])@))
}

/// The verdict on writing at the path a call resolves to.
pub open spec fn write_verdict(
    target: Option<Seq<char>>,
    root: Seq<char>,
    mode: PermissionMode,
    consents: Seq<ScopedConsent>,
    node_gate: bool,
    source_roots: Seq<FilePath>,
) -> Verdict {
    match target {
        None => Verdict::Forbidden { reason: ForbidReason::UnresolvablePath },
        Some(p) => if !paths::under(p, root) {
            Verdict::Gated { reason: GateReason::WriteOutsideRoot, consentable: false }
        } else if node_gate {
            // An explicit gate is a specific instruction; a mode is a blanket
            // default. Specific beats general.
            Verdict::Gated { reason: GateReason::NodeGate, consentable: false }
        } else if is_consented(p, consents) {
            Verdict::Allowed
        } else {
            match mode {
                PermissionMode::AskForEverything => Verdict::Gated {
                    reason: GateReason::WriteInsideRoot,
                    consentable: true,
                },
                PermissionMode::AskBeforeTouchingSource => if is_source_path(p, root, source_roots) {
                    Verdict::Gated { reason: GateReason::WriteToSource, consentable: true }
                } else {
                    Verdict::Allowed
                },
                PermissionMode::DoNotAskInsideSandbox => Verdict::Allowed,
            }
        },
    }
}

/// The path a call writes to, where it is a write.
pub open spec fn write_path(call: Call) -> Option<Seq<char>> {
    match call {
        Call::WriteFile { path, .. } => Some(path),
        Call::ReplaceInFile { path, .. } => Some(path),
        Call::AppendToFile { path, .. } => Some(path),
        _ => None,
    }
}

/// The whole authority decision, for a disk that shows `look`.
pub open spec fn verdict(
    call: Call,
    root: Seq<char>,
    mode: PermissionMode,
    consents: Seq<ScopedConsent>,
    node_gate: bool,
    source_roots: Seq<FilePath>,
    look: spec_fn(Seq<char>) -> Seen,
) -> Verdict {
    match call {
        // Searching inside the root is the one thing that never asks.
        Call::Search { .. } => Verdict::Allowed,
        Call::ReadFile { path } => match resolved(path, root, look) {
            None => Verdict::Forbidden { reason: ForbidReason::UnresolvablePath },
            // Not gated: a gate implies a legitimate use, and none exists.
            Some(p) => if !paths::under(p, root) {
                Verdict::Forbidden { reason: ForbidReason::ReadOutsideRoot }
            } else {
                Verdict::Allowed
            },
        },
        Call::DeleteFile { path } => if resolved(path, root, look) is None {
            Verdict::Forbidden { reason: ForbidReason::UnresolvablePath }
        } else {
            Verdict::Gated { reason: GateReason::Delete, consentable: false }
        },
        Call::RunCommand { program, args } => match floor::floor(program, args) {
            Some(reason) => Verdict::Gated { reason, consentable: false },
            // Any other command is still gated; consent may grant it for the run.
            None => Verdict::Gated { reason: GateReason::Command, consentable: true },
        },
        // A patch is judged per target file. The patch itself always gates.
        Call::ApplyPatch { .. } => Verdict::Gated {
            reason: GateReason::WriteInsideRoot,
            consentable: true,
        },
        _ => write_verdict(
            resolved(write_path(call)->0, root, look),
            root,
            mode,
            consents,
            node_gate,
            source_roots,
        ),
    }
}

fn under_consent(path: &FilePath, consents: &[ScopedConsent]) -> (r: bool)
    ensures
        r == is_consented(path@, consents@),
{
    let mut i: usize = 0;
    while i < consents.len()
        invariant
            i <= consents.len(),
            forall|j: int| 0 <= j < i ==> !paths::under(path@, (#[trigger] consents@[j]).prefix@),
        decreases consents.len() - i,
    {
        if path.starts_with(&consents[i].prefix) {
            return true;
        }
        i = i + 1;
    }
    false
}

fn is_source(path: &FilePath, root: &FilePath, source_roots: &[FilePath]) -> (r: bool)
    ensures
        r == is_source_path(path@, root@, source_roots@),
{
    if source_roots.len() == 0 {
        return true;
    }
    let mut i: usize = 0;
    while i < source_roots.len()
        invariant
            i <= source_roots.len(),
            forall|j: int|
                0 <= j < i ==> !paths::under(path@, paths::joined(root@, (#[trigger] source_roots@[j])@)),
        decreases source_roots.len() - i,
    {
        if path.starts_with(&root.join(source_roots[i].as_str())) {
            return true;
        }
        i = i + 1;
    }
    false
}

fn classify_write(req: &Request<'_>, path: &FilePath) -> (v: Verdict)
    ensures
        v == write_verdict(
            resolved(path@, req.root@, shown(req.survey.seen@)),
            req.root@,
            req.mode,
            req.consents@,
            req.node_gate,
            req.source_roots@,
        ),
{
    let p = match resolve(path, req.root, req.survey) {
        Some(p) => p,
        None => return Verdict::Forbidden { reason: ForbidReason::UnresolvablePath },
    };
    if !p.starts_with(req.root) {
        return Verdict::Gated { reason: GateReason::WriteOutsideRoot, consentable: false };
    }
    if req.node_gate {
        return Verdict::Gated { reason: GateReason::NodeGate, consentable: false };
    }
    if under_consent(&p, req.consents) {
        return Verdict::Allowed;
    }
    match req.mode {
        PermissionMode::AskForEverything => Verdict::Gated {
            reason: GateReason::WriteInsideRoot,
            consentable: true,
        },
        PermissionMode::AskBeforeTouchingSource => if is_source(&p, req.root, req.source_roots) {
            Verdict::Gated { reason: GateReason::WriteToSource, consentable: true }
        } else {
            Verdict::Allowed
        },
        PermissionMode::DoNotAskInsideSandbox => Verdict::Allowed,
    }
}

/// The whole authority decision.
pub fn classify(req: &Request<'_>) -> (v: Verdict)
    ensures
        v == verdict(
            req.call@,
            req.root@,
            req.mode,
            req.consents@,
            req.node_gate,
            req.source_roots@,
            shown(req.survey.seen@),
        ),
{
    match req.call {
        ToolCall::Search { .. } => Verdict::Allowed,
        ToolCall::ReadFile { path } => match resolve(path, req.root, req.survey) {
            None => Verdict::Forbidden { reason: ForbidReason::UnresolvablePath },
            Some(p) => if !p.starts_with(req.root) {
                Verdict::Forbidden { reason: ForbidReason::ReadOutsideRoot }
            } else {
                Verdict::Allowed
            },
        },
        // ---- floor: nothing below may widen these ----
        ToolCall::DeleteFile { path } => if resolve(path, req.root, req.survey).is_none() {
            Verdict::Forbidden { reason: ForbidReason::UnresolvablePath }
        } else {
            Verdict::Gated { reason: GateReason::Delete, consentable: false }
        },
        ToolCall::RunCommand { program, args } => match floor_category(program.as_str(), args.as_slice()) {
            Some(reason) => Verdict::Gated { reason, consentable: false },
            None => Verdict::Gated { reason: GateReason::Command, consentable: true },
        },
        ToolCall::WriteFile { path, .. } => classify_write(req, path),
        ToolCall::ReplaceInFile { path, .. } => classify_write(req, path),
        ToolCall::AppendToFile { path, .. } => classify_write(req, path),
        ToolCall::ApplyPatch { .. } => Verdict::Gated {
            reason: GateReason::WriteInsideRoot,
            consentable: true,
        },
    }
}

// ------------------------------------------------------------------------- laws

/// Once the survey knows every place on a walk, and what it knows is what the
/// disk shows, the walk ends where it ends on the disk.
proof fn lemma_survey_is_enough(
    spot: Spot,
    steps: Seq<Comp>,
    hops: nat,
    seen: Seq<(Seq<char>, Sight)>,
    disk: spec_fn(Seq<char>) -> Seen,
)
    requires
        forall|place: Seq<char>| #[trigger]
            table::lookup(seen, place) matches Some(s) ==> s@ == disk(place),
        unknown_on(spot, steps, hops, seen) is None,
    ensures
        walked(spot, steps, hops, shown(seen)) == walked(spot, steps, hops, disk),
    decreases hops, steps.len(),
{
    if steps.len() > 0 {
        let rest = steps.drop_first();
        match steps[0] {
            Comp::Cur => lemma_survey_is_enough(spot, rest, hops, seen, disk),
            Comp::Root => lemma_survey_is_enough(Spot { rooted: true, names: seq![] }, rest, hops, seen, disk),
            Comp::Up => if spot.names.len() > 0 {
                lemma_survey_is_enough(Spot { names: spot.names.drop_last(), ..spot }, rest, hops, seen, disk)
            },
            Comp::Name(n) => {
                let next = Spot { names: spot.names.push(n), ..spot };
                let place = place_of(next);
                assert(shown(seen)(place) == sight_at(seen, place));
                match table::lookup(seen, place) {
                    None => {},
                    Some(s) => match s@ {
                        Seen::Link(target) => if hops > 0 {
                            lemma_survey_is_enough(
                                spot,
                                paths::comps(target) + rest,
                                (hops - 1) as nat,
                                seen,
                                disk,
                            )
                        },
                        Seen::Unreadable => {},
                        Seen::Plain => lemma_survey_is_enough(next, rest, hops, seen, disk),
                    },
                }
            },
        }
    }
}

/// A survey that leaves nothing to look at, and that shows what is on the disk,
/// resolves a path to where the disk takes it.
pub proof fn law_survey_is_enough(
    path: Seq<char>,
    root: Seq<char>,
    seen: Seq<(Seq<char>, Sight)>,
    disk: spec_fn(Seq<char>) -> Seen,
)
    requires
        forall|place: Seq<char>| #[trigger]
            table::lookup(seen, place) matches Some(s) ==> s@ == disk(place),
        unknown_place(path, root, seen) is None,
    ensures
        resolved(path, root, shown(seen)) == resolved(path, root, disk),
{
    lemma_survey_is_enough(
        Spot { rooted: false, names: seq![] },
        paths::comps(paths::joined(root, path)),
        MAX_LINK_HOPS as nat,
        seen,
        disk,
    );
}

/// Looking where the survey says to look is never in vain: nothing was known of
/// that place.
pub proof fn law_unknown_is_unknown(path: Seq<char>, root: Seq<char>, seen: Seq<(Seq<char>, Sight)>)
    ensures
        unknown_place(path, root, seen) matches Some(place) ==> table::lookup(seen, place) is None,
{
    lemma_unknown_is_unknown(
        Spot { rooted: false, names: seq![] },
        paths::comps(paths::joined(root, path)),
        MAX_LINK_HOPS as nat,
        seen,
    );
}

proof fn lemma_unknown_is_unknown(
    spot: Spot,
    steps: Seq<Comp>,
    hops: nat,
    seen: Seq<(Seq<char>, Sight)>,
)
    ensures
        unknown_on(spot, steps, hops, seen) matches Some(place) ==> table::lookup(seen, place) is None,
    decreases hops, steps.len(),
{
    if steps.len() > 0 {
        let rest = steps.drop_first();
        match steps[0] {
            Comp::Cur => lemma_unknown_is_unknown(spot, rest, hops, seen),
            Comp::Root => lemma_unknown_is_unknown(Spot { rooted: true, names: seq![] }, rest, hops, seen),
            Comp::Up => if spot.names.len() > 0 {
                lemma_unknown_is_unknown(Spot { names: spot.names.drop_last(), ..spot }, rest, hops, seen)
            },
            Comp::Name(n) => {
                let next = Spot { names: spot.names.push(n), ..spot };
                match table::lookup(seen, place_of(next)) {
                    None => {},
                    Some(s) => match s@ {
                        Seen::Link(target) => if hops > 0 {
                            lemma_unknown_is_unknown(spot, paths::comps(target) + rest, (hops - 1) as nat, seen)
                        },
                        Seen::Unreadable => {},
                        Seen::Plain => lemma_unknown_is_unknown(next, rest, hops, seen),
                    },
                }
            },
        }
    }
}

/// An allowed write stays inside the root: the path it resolves to is one below
/// it.
pub proof fn law_an_allowed_write_stays_inside(
    call: Call,
    root: Seq<char>,
    mode: PermissionMode,
    consents: Seq<ScopedConsent>,
    node_gate: bool,
    source_roots: Seq<FilePath>,
    look: spec_fn(Seq<char>) -> Seen,
)
    requires
        write_path(call) is Some,
        verdict(call, root, mode, consents, node_gate, source_roots, look) is Allowed,
    ensures
        resolved(write_path(call)->0, root, look) is Some,
        paths::under(resolved(write_path(call)->0, root, look)->0, root),
{
}

/// No mode, and no consent however broad, lets a write outside the root through
/// without a gate, or makes that gate one that consent opens.
pub proof fn law_a_write_outside_the_root_gates(
    call: Call,
    root: Seq<char>,
    mode: PermissionMode,
    consents: Seq<ScopedConsent>,
    node_gate: bool,
    source_roots: Seq<FilePath>,
    look: spec_fn(Seq<char>) -> Seen,
)
    requires
        write_path(call) is Some,
        resolved(write_path(call)->0, root, look) is Some,
        !paths::under(resolved(write_path(call)->0, root, look)->0, root),
    ensures
        verdict(call, root, mode, consents, node_gate, source_roots, look) == (Verdict::Gated {
            reason: GateReason::WriteOutsideRoot,
            consentable: false,
        }),
{
}

/// An explicit gate on a node outranks every mode and every consent: no write is
/// allowed under it.
pub proof fn law_a_node_gate_beats_every_mode(
    call: Call,
    root: Seq<char>,
    mode: PermissionMode,
    consents: Seq<ScopedConsent>,
    source_roots: Seq<FilePath>,
    look: spec_fn(Seq<char>) -> Seen,
)
    requires
        write_path(call) is Some,
    ensures
        !(verdict(call, root, mode, consents, true, source_roots, look) is Allowed),
        verdict(call, root, mode, consents, true, source_roots, look) matches Verdict::Gated { consentable, .. }
            ==> !consentable,
{
}

/// The floor is the same in every mode, under every consent, on a gated node and
/// on any other, and whatever the source roots: what is decided of a command, a
/// deletion, a reading or a search depends on none of these.
pub proof fn law_the_floor_knows_no_mode_and_no_consent(
    call: Call,
    root: Seq<char>,
    mode1: PermissionMode,
    consents1: Seq<ScopedConsent>,
    node_gate1: bool,
    source_roots1: Seq<FilePath>,
    mode2: PermissionMode,
    consents2: Seq<ScopedConsent>,
    node_gate2: bool,
    source_roots2: Seq<FilePath>,
    look: spec_fn(Seq<char>) -> Seen,
)
    requires
        write_path(call) is None,
    ensures
        verdict(call, root, mode1, consents1, node_gate1, source_roots1, look) == verdict(
            call,
            root,
            mode2,
            consents2,
            node_gate2,
            source_roots2,
            look,
        ),
{
}

/// Deleting never goes through unasked, and no consent ever grants it.
pub proof fn law_a_deletion_is_never_consentable(
    path: Seq<char>,
    root: Seq<char>,
    mode: PermissionMode,
    consents: Seq<ScopedConsent>,
    node_gate: bool,
    source_roots: Seq<FilePath>,
    look: spec_fn(Seq<char>) -> Seen,
)
    ensures
        ({
            let v = verdict(Call::DeleteFile { path }, root, mode, consents, node_gate, source_roots, look);
            v == (Verdict::Gated { reason: GateReason::Delete, consentable: false }) || v == (Verdict::Forbidden {
                reason: ForbidReason::UnresolvablePath,
            })
        }),
{
}

/// Every command gates. A command whose shell is given a script with a floor
/// command in it gates so that no consent opens it.
pub proof fn law_commands_always_gate(
    program: Seq<char>,
    args: Seq<Seq<char>>,
    script: Seq<char>,
    i: int,
    root: Seq<char>,
    mode: PermissionMode,
    consents: Seq<ScopedConsent>,
    node_gate: bool,
    source_roots: Seq<FilePath>,
    look: spec_fn(Seq<char>) -> Seen,
)
    ensures
        ({
            let v = verdict(
                Call::RunCommand { program, args },
                root,
                mode,
                consents,
                node_gate,
                source_roots,
                look,
            );
            &&& v is Gated
            &&& (floor::is_shell(floor::base_name(program)) && floor::payload(args) == Some(script)
                && 0 <= i < floor::segments(script).len() && floor::is_floor_segment(floor::segments(script)[i]))
                ==> !v->consentable
        }),
{
    if floor::is_shell(floor::base_name(program)) && floor::payload(args) == Some(script) && 0 <= i
        < floor::segments(script).len() && floor::is_floor_segment(floor::segments(script)[i]) {
        floor::law_no_shell_hides_a_floor_command(program, args, script, i);
    }
}

/// A write that leads to a place below the root goes through unasked exactly where
/// no gate stands on its node and either a consent covers the place, or the mode
/// asks about nothing there, or it asks about source alone and the place is none.
pub proof fn law_each_mode_asks_what_it_says(
    call: Call,
    place: Seq<char>,
    root: Seq<char>,
    mode: PermissionMode,
    consents: Seq<ScopedConsent>,
    node_gate: bool,
    source_roots: Seq<FilePath>,
    look: spec_fn(Seq<char>) -> Seen,
)
    requires
        call is WriteFile || call is ReplaceInFile || call is AppendToFile,
        resolved(
            match call {
                Call::WriteFile { path, .. } => path,
                Call::ReplaceInFile { path, .. } => path,
                Call::AppendToFile { path, .. } => path,
                _ => arbitrary(),
            },
            root,
            look,
        ) == Some(place),
        paths::under(place, root),
    ensures
        ({
            let v = verdict(call, root, mode, consents, node_gate, source_roots, look);
            let covered = exists|i: int|
                0 <= i < consents.len() && paths::under(place, (#[trigger] consents[i]).prefix@);
            let source = source_roots.len() == 0 || exists|i: int|
                0 <= i < source_roots.len() && paths::under(place, paths::joined(root, (#[trigger] source_roots[i])@));
            if node_gate {
                v == (Verdict::Gated { reason: GateReason::NodeGate, consentable: false })
            } else if covered || mode == PermissionMode::DoNotAskInsideSandbox {
                v is Allowed
            } else if mode == PermissionMode::AskForEverything {
                v == (Verdict::Gated { reason: GateReason::WriteInsideRoot, consentable: true })
            } else if source {
                v == (Verdict::Gated { reason: GateReason::WriteToSource, consentable: true })
            } else {
                v is Allowed
            }
        }),
{
}

/// A path that leads nowhere is forbidden, whatever is to be done with it.
pub proof fn law_what_leads_nowhere_is_forbidden(
    call: Call,
    path: Seq<char>,
    root: Seq<char>,
    mode: PermissionMode,
    consents: Seq<ScopedConsent>,
    node_gate: bool,
    source_roots: Seq<FilePath>,
    look: spec_fn(Seq<char>) -> Seen,
)
    requires
        match call {
            Call::ReadFile { path: p } => p == path,
            Call::WriteFile { path: p, .. } => p == path,
            Call::ReplaceInFile { path: p, .. } => p == path,
            Call::AppendToFile { path: p, .. } => p == path,
            Call::DeleteFile { path: p } => p == path,
            _ => false,
        },
        resolved(path, root, look) is None,
    ensures
        verdict(call, root, mode, consents, node_gate, source_roots, look) == (Verdict::Forbidden {
            reason: ForbidReason::UnresolvablePath,
        }),
{
}

/// What is decided of the other calls: a reading goes through exactly where it
/// leads below the root and is forbidden elsewhere, a deletion and a patch are
/// asked about, a search is not, and a command is asked about, under a consent only
/// where it is not on the floor.
pub proof fn law_what_is_decided_of_the_other_calls(
    path: Seq<char>,
    place: Seq<char>,
    diff: Seq<char>,
    query: Seq<char>,
    limit: nat,
    program: Seq<char>,
    args: Seq<Seq<char>>,
    root: Seq<char>,
    mode: PermissionMode,
    consents: Seq<ScopedConsent>,
    node_gate: bool,
    source_roots: Seq<FilePath>,
    look: spec_fn(Seq<char>) -> Seen,
)
    requires
        resolved(path, root, look) == Some(place),
    ensures
        verdict(Call::ReadFile { path }, root, mode, consents, node_gate, source_roots, look) == (if paths::under(
            place,
            root,
        ) {
            Verdict::Allowed
        } else {
            Verdict::Forbidden { reason: ForbidReason::ReadOutsideRoot }
        }),
        verdict(Call::DeleteFile { path }, root, mode, consents, node_gate, source_roots, look) == (Verdict::Gated {
            reason: GateReason::Delete,
            consentable: false,
        }),
        verdict(Call::ApplyPatch { diff }, root, mode, consents, node_gate, source_roots, look) == (Verdict::Gated {
            reason: GateReason::WriteInsideRoot,
            consentable: true,
        }),
        verdict(Call::Search { query, limit }, root, mode, consents, node_gate, source_roots, look) is Allowed,
        verdict(Call::RunCommand { program, args }, root, mode, consents, node_gate, source_roots, look) == (
        match floor::floor(program, args) {
            Some(reason) => Verdict::Gated { reason, consentable: false },
            None => Verdict::Gated { reason: GateReason::Command, consentable: true },
        }),
{
}

/// Where nothing on the way is a link, a path leads where its parts do, one after
/// the other.
pub proof fn law_a_walk_is_made_of_its_parts(
    spot: Spot,
    a: Seq<Comp>,
    b: Seq<Comp>,
    hops: nat,
    look: spec_fn(Seq<char>) -> Seen,
)
    requires
        forall|place: Seq<char>| #[trigger] look(place) == Seen::Plain,
    ensures
        walked(spot, a + b, hops, look) == match walked(spot, a, hops, look) {
            Some(s) => walked(s, b, hops, look),
            None => None,
        },
    decreases a.len(),
{
    if a.len() == 0 {
        assert(a + b =~= b);
    } else {
        assert((a + b)[0] == a[0]);
        assert((a + b).drop_first() =~= a.drop_first() + b);
        let rest = a.drop_first();
        match a[0] {
            Comp::Cur => law_a_walk_is_made_of_its_parts(spot, rest, b, hops, look),
            Comp::Root => law_a_walk_is_made_of_its_parts(
                Spot { rooted: true, names: seq![] },
                rest,
                b,
                hops,
                look,
            ),
            Comp::Up => if spot.names.len() > 0 {
                law_a_walk_is_made_of_its_parts(
                    Spot { names: spot.names.drop_last(), ..spot },
                    rest,
                    b,
                    hops,
                    look,
                )
            },
            Comp::Name(n) => {
                let next = Spot { names: spot.names.push(n), ..spot };
                assert(look(place_of(next)) == Seen::Plain);
                law_a_walk_is_made_of_its_parts(next, rest, b, hops, look)
            },
        }
    }
}

/// What one part of a path does: a name that is no link goes down, two dots go up
/// and never above the top, a slash in front begins at the top, and one dot stays.
pub proof fn law_each_part_of_a_path_does_its_part(
    spot: Spot,
    n: Seq<char>,
    hops: nat,
    look: spec_fn(Seq<char>) -> Seen,
)
    ensures
        look(place_of(Spot { names: spot.names.push(n), ..spot })) == Seen::Plain ==> walked(
            spot,
            seq![Comp::Name(n)],
            hops,
            look,
        ) == Some(Spot { names: spot.names.push(n), ..spot }),
        spot.names.len() > 0 ==> walked(spot, seq![Comp::Up], hops, look) == Some(
            Spot { names: spot.names.drop_last(), ..spot },
        ),
        spot.names.len() == 0 ==> walked(spot, seq![Comp::Up], hops, look) is None,
        walked(spot, seq![Comp::Root], hops, look) == Some(Spot { rooted: true, names: seq![] }),
        walked(spot, seq![Comp::Cur], hops, look) == Some(spot),
{
    reveal_with_fuel(walked, 3);
}

/// A link is followed from where it stands, with one hop less; none is followed
/// when no hop is left, and one that cannot be read leads nowhere.
pub proof fn law_a_link_is_followed_from_where_it_stands(
    spot: Spot,
    n: Seq<char>,
    rest: Seq<Comp>,
    hops: nat,
    look: spec_fn(Seq<char>) -> Seen,
)
    ensures
        ({
            let seen = look(place_of(Spot { names: spot.names.push(n), ..spot }));
            let there = walked(spot, seq![Comp::Name(n)] + rest, hops, look);
            &&& seen matches Seen::Link(target) ==> hops > 0 ==> there == walked(
                spot,
                paths::comps(target) + rest,
                (hops - 1) as nat,
                look,
            )
            &&& seen is Link && hops == 0 ==> there is None
            &&& seen is Unreadable ==> there is None
        }),
{
    let steps = seq![Comp::Name(n)] + rest;
    assert(steps[0] == Comp::Name(n));
    assert(steps.drop_first() =~= rest);
}

} // verus!
