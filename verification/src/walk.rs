//! Walking the graph, one node at a time.
//!
//! The state of a run is saved *before* the transition that it describes is
//! announced, so a crash re-executes a node rather than losing it — safe only
//! because documents are immutable and attempts are numbered. And ready nodes are
//! taken one at a time: the pipeline is sequential by nature.

use vstd::prelude::*;
use crate::engine;
use crate::engine::Engine;
use crate::graph::NodeId;
use crate::json;
use crate::run::{NodeState, RunState};
use crate::table;

verus! {

/// What a walk is in the middle of.
#[derive(Debug, Clone, PartialEq, Eq)]
pub enum Stage {
    /// The next node is to be chosen.
    Choosing,
    /// A node was taken, and that is being saved.
    Entering { id: NodeId },
    /// It is being announced.
    Starting { id: NodeId },
    /// The node's work is being done.
    Executing { id: NodeId },
    /// It is over, and that is being saved. `why` is why it failed.
    Leaving { id: NodeId, why: Option<String> },
    /// It is being announced.
    Left { why: Option<String> },
    /// No node is left to take, and that is being saved.
    Finishing,
    /// The walk has ended. `why` is why a node failed.
    Over { why: Option<String> },
}

/// What a walk is in the middle of, as texts.
pub enum At {
    Choosing,
    Entering { id: Seq<char> },
    Starting { id: Seq<char> },
    Executing { id: Seq<char> },
    Leaving { id: Seq<char>, why: Option<Seq<char>> },
    Left { why: Option<Seq<char>> },
    Finishing,
    Over { why: Option<Seq<char>> },
}

impl View for Stage {
    type V = At;

    open spec fn view(&self) -> At {
        match self {
            Stage::Choosing => At::Choosing,
            Stage::Entering { id } => At::Entering { id: id@ },
            Stage::Starting { id } => At::Starting { id: id@ },
            Stage::Executing { id } => At::Executing { id: id@ },
            Stage::Leaving { id, why } => At::Leaving { id: id@, why: json::said(*why) },
            Stage::Left { why } => At::Left { why: json::said(*why) },
            Stage::Finishing => At::Finishing,
            Stage::Over { why } => At::Over { why: json::said(*why) },
        }
    }
}

/// What is to be done next.
#[derive(Debug, Clone, PartialEq, Eq)]
pub enum Stride {
    /// Save the state of the run.
    Save,
    /// Announce that a node is in a state.
    Announce { id: NodeId, state: NodeState },
    /// Do the work of a node.
    Execute { id: NodeId },
    /// Nothing more. `why` is why a node failed.
    Stop { why: Option<String> },
}

/// What is to be done next, as texts.
pub enum Pace {
    Save,
    Announce { id: Seq<char>, state: NodeState },
    Execute { id: Seq<char> },
    Stop { why: Option<Seq<char>> },
}

impl View for Stride {
    type V = Pace;

    open spec fn view(&self) -> Pace {
        match self {
            Stride::Save => Pace::Save,
            Stride::Announce { id, state } => Pace::Announce { id: id@, state: *state },
            Stride::Execute { id } => Pace::Execute { id: id@ },
            Stride::Stop { why } => Pace::Stop { why: json::said(*why) },
        }
    }
}

/// What changes in the state of a run.
pub enum Change {
    Nothing,
    /// A node enters a state.
    Enter { id: Seq<char>, state: NodeState },
    /// A node fails, and the run with it.
    Fail { id: Seq<char>, why: Seq<char> },
    /// The run comes to its end.
    Finish,
}

/// Whether that, and nothing else, changed in the state of a run.
pub open spec fn is_changed(before: RunState, after: RunState, change: Change, now: Seq<char>) -> bool {
    match change {
        Change::Nothing => after == before,
        Change::Enter { id, state } => after.states@ == table::put(before.states@, id, state)
            && after.is_but_for_states(before),
        Change::Fail { id, why } => {
            &&& after.states@ == table::put(before.states@, id, NodeState::Failed)
            &&& after.failure matches Some(f) && f@ == id + ": "@ + why
            &&& after == (RunState { states: after.states, failure: after.failure, ..before })
        },
        Change::Finish => {
            &&& after.finished matches Some(f) && f@ == now
            &&& after == (RunState { finished: after.finished, ..before })
        },
    }
}

/// Where a walk goes on to, with what changes in the run and what is to be done.
/// `ready` is the node that is to be taken next.
pub open spec fn strode(at: At, ready: Option<Seq<char>>) -> (At, Change, Pace) {
    match at {
        At::Entering { id } => (
            At::Starting { id },
            Change::Nothing,
            Pace::Announce { id, state: NodeState::Running },
        ),
        At::Starting { id } => (At::Executing { id }, Change::Nothing, Pace::Execute { id }),
        At::Executing { id } => (At::Executing { id }, Change::Nothing, Pace::Execute { id }),
        At::Leaving { id, why } => (
            At::Left { why },
            Change::Nothing,
            Pace::Announce {
                id,
                state: if why is Some {
                    NodeState::Failed
                } else {
                    NodeState::Done
                },
            },
        ),
        At::Finishing => (At::Over { why: None }, Change::Nothing, Pace::Stop { why: None }),
        At::Over { why } => (At::Over { why }, Change::Nothing, Pace::Stop { why }),
        At::Left { why: Some(why) } => (
            At::Over { why: Some(why) },
            Change::Nothing,
            Pace::Stop { why: Some(why) },
        ),
        _ => match ready {
            Some(id) => (At::Entering { id }, Change::Enter { id, state: NodeState::Running }, Pace::Save),
            None => (At::Finishing, Change::Finish, Pace::Save),
        },
    }
}

/// Where a walk goes on to once the work of a node is over.
pub open spec fn settled(id: Seq<char>, came: Result<(), Seq<char>>) -> (At, Change, Pace) {
    match came {
        Ok(_) => (
            At::Leaving { id, why: None },
            Change::Enter { id, state: NodeState::Done },
            Pace::Save,
        ),
        Err(why) => (At::Leaving { id, why: Some(why) }, Change::Fail { id, why }, Pace::Save),
    }
}

/// A walk through the graph of a workflow.
#[derive(Debug, Clone, PartialEq, Eq)]
pub struct Walk {
    pub stage: Stage,
}

impl Walk {
    pub fn begin() -> (w: Self)
        ensures
            w.stage@ == At::Choosing,
    {
        Walk { stage: Stage::Choosing }
    }

    /// Goes on, the last stride done. Not while the work of a node is being done:
    /// what came of that is told to [`Walk::executed`].
    pub fn go_on(&mut self, engine: &Engine, run: &mut RunState, now: &str) -> (s: Stride)
        requires
            old(self).stage !is Executing,
        ensures
            ({
                let (at, change, pace) = strode(
                    old(self).stage@,
                    engine::first_ready(engine.ways(), old(run).states@, engine.graph.nodes@),
                );
                &&& final(self).stage@ == at
                &&& is_changed(*old(run), *final(run), change, now@)
                &&& s@ == pace
            }),
            old(run).wf() ==> final(run).wf(),
    {
        match &self.stage {
            Stage::Entering { id } => {
                let id = id.as_str().to_owned();
                let told = id.as_str().to_owned();
                self.stage = Stage::Starting { id };
                return Stride::Announce { id: told, state: NodeState::Running };
            },
            Stage::Starting { id } => {
                let id = id.as_str().to_owned();
                let told = id.as_str().to_owned();
                self.stage = Stage::Executing { id };
                return Stride::Execute { id: told };
            },
            Stage::Leaving { id, why } => {
                let told = id.as_str().to_owned();
                let (why, state) = match why {
                    Some(w) => (Some(w.as_str().to_owned()), NodeState::Failed),
                    None => (None, NodeState::Done),
                };
                self.stage = Stage::Left { why };
                return Stride::Announce { id: told, state };
            },
            Stage::Left { why: Some(w) } => {
                let why = w.as_str().to_owned();
                let told = w.as_str().to_owned();
                self.stage = Stage::Over { why: Some(why) };
                return Stride::Stop { why: Some(told) };
            },
            Stage::Finishing => {
                self.stage = Stage::Over { why: None };
                return Stride::Stop { why: None };
            },
            Stage::Over { why } => {
                let told = match why {
                    Some(w) => Some(w.as_str().to_owned()),
                    None => None,
                };
                return Stride::Stop { why: told };
            },
            _ => {},
        }
        match engine.ready(run) {
            Some(id) => {
                let id = id.as_str().to_owned();
                run.enter(id.as_str(), NodeState::Running);
                self.stage = Stage::Entering { id };
            },
            None => {
                run.finish(now);
                self.stage = Stage::Finishing;
            },
        }
        Stride::Save
    }

    /// Takes in what came of the work of the node that is being executed.
    pub fn executed(&mut self, run: &mut RunState, came: &Result<(), String>) -> (s: Stride)
        requires
            old(self).stage is Executing,
        ensures
            ({
                let outcome = match came {
                    Ok(u) => Ok(*u),
                    Err(why) => Err(why@),
                };
                let (at, change, pace) = settled(old(self).stage@->Executing_id, outcome);
                &&& final(self).stage@ == at
                &&& is_changed(*old(run), *final(run), change, seq![])
                &&& s@ == pace
            }),
            old(run).wf() ==> final(run).wf(),
    {
        if let Stage::Executing { id } = &self.stage {
            let id = id.as_str().to_owned();
            match came {
                Ok(_) => {
                    run.enter(id.as_str(), NodeState::Done);
                    self.stage = Stage::Leaving { id, why: None };
                },
                Err(why) => {
                    run.fail(id.as_str(), why.as_str());
                    self.stage = Stage::Leaving { id, why: Some(why.as_str().to_owned()) };
                },
            }
        }
        Stride::Save
    }
}

// ---------------------------------------------------------------------------- laws

/// Whether a change puts a node into a state.
pub open spec fn puts(change: Change, id: Seq<char>, state: NodeState) -> bool {
    match change {
        Change::Enter { id: i, state: s } => i == id && s == state,
        Change::Fail { id: i, .. } => i == id && state == NodeState::Failed,
        _ => false,
    }
}

/// A transition is announced only once it is saved: what a save is made of is the
/// very state that is announced next, or that the run is at its end, and nothing
/// changes between the two. After anything but a save nothing is announced.
pub proof fn law_an_announcement_follows_its_save(
    at: At,
    ready: Option<Seq<char>>,
    id: Seq<char>,
    came: Result<(), Seq<char>>,
    next: Option<Seq<char>>,
)
    ensures
        ({
            let (after, change, pace) = strode(at, ready);
            let (_, then_changes, then_does) = strode(after, next);
            if pace is Save {
                &&& then_changes is Nothing
                &&& then_does matches Pace::Announce { id: i, state } ==> puts(change, i, state)
                &&& then_does matches Pace::Stop { why } ==> change is Finish && why is None
                &&& then_does is Announce || then_does is Stop
            } else {
                &&& change is Nothing
                &&& then_does !is Announce
            }
        }),
        ({
            let (after, change, pace) = settled(id, came);
            let (_, then_changes, then_does) = strode(after, next);
            &&& pace is Save
            &&& then_changes is Nothing
            &&& then_does matches Pace::Announce { id: i, state } && i == id && puts(change, id, state)
        }),
        strode(At::Choosing, next).2 !is Announce,
{
}

/// The run stops at the first failure: it is saved, announced, and then nothing
/// more is done, whatever is ready.
pub proof fn law_a_failure_ends_the_run(
    id: Seq<char>,
    why: Seq<char>,
    first: Option<Seq<char>>,
    second: Option<Seq<char>>,
    later: Option<Seq<char>>,
)
    ensures
        ({
            let (saved, change, save) = settled(id, Err(why));
            let (announced, _, announce) = strode(saved, first);
            let (over, _, stop) = strode(announced, second);
            &&& change == (Change::Fail { id, why })
            &&& save is Save
            &&& announce == (Pace::Announce { id, state: NodeState::Failed })
            &&& stop == (Pace::Stop { why: Some(why) })
            &&& strode(over, later) == (over, Change::Nothing, stop)
        }),
{
}

/// A run comes to a good end only where no node is left to take, and a node is
/// executed only where it was the one to take.
pub proof fn law_a_run_ends_where_nothing_is_ready(at: At, ready: Option<Seq<char>>)
    ensures
        strode(at, ready).1 is Finish ==> ready is None,
        strode(at, ready).1 matches Change::Enter { id, .. } ==> ready == Some(id),
        strode(at, ready).2 matches Pace::Execute { id } ==> at == (At::Starting { id }) || at == (At::Executing {
            id,
        }),
        strode(at, ready).0 matches At::Starting { id } ==> at == (At::Entering { id }),
{
}

/// A node that is ready is entered, saved as running, announced so, and its work
/// done, in that order; once it went well it is saved and announced as done, and
/// the walk goes on with the node that is ready then.
pub proof fn law_a_ready_node_is_walked_through(
    from: At,
    id: Seq<char>,
    r1: Option<Seq<char>>,
    r2: Option<Seq<char>>,
    r3: Option<Seq<char>>,
    next: Option<Seq<char>>,
)
    requires
        from == At::Choosing || from == (At::Left { why: None }),
    ensures
        ({
            let (entering, enters, save) = strode(from, Some(id));
            let (starting, c1, announce) = strode(entering, r1);
            let (executing, c2, execute) = strode(starting, r2);
            let (leaving, leaves, save_again) = settled(id, Ok(()));
            let (left, c3, announce_done) = strode(leaving, r3);
            let (_, enters_next, save_next) = strode(left, next);
            &&& enters == (Change::Enter { id, state: NodeState::Running })
            &&& save is Save
            &&& announce == (Pace::Announce { id, state: NodeState::Running })
            &&& execute == (Pace::Execute { id })
            &&& executing == (At::Executing { id })
            &&& leaves == (Change::Enter { id, state: NodeState::Done })
            &&& save_again is Save
            &&& announce_done == (Pace::Announce { id, state: NodeState::Done })
            &&& c1 is Nothing && c2 is Nothing && c3 is Nothing
            &&& save_next is Save
            &&& next matches Some(n) ==> enters_next == (Change::Enter { id: n, state: NodeState::Running })
            &&& next is None ==> enters_next is Finish
        }),
{
}

/// Where nothing is ready the run is given its end, that is saved, and the walk
/// stops without a failure and stays so.
pub proof fn law_a_run_with_nothing_left_ends_well(
    from: At,
    later: Option<Seq<char>>,
    after: Option<Seq<char>>,
)
    requires
        from == At::Choosing || from == (At::Left { why: None }),
    ensures
        ({
            let (finishing, finishes, save) = strode(from, None);
            let (over, c, stop) = strode(finishing, later);
            &&& finishes is Finish
            &&& save is Save
            &&& c is Nothing
            &&& stop == (Pace::Stop { why: None })
            &&& strode(over, after) == (over, Change::Nothing, stop)
        }),
{
}

} // verus!
