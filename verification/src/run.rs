//! The state of a run, and what a run is told and tells.

use vstd::prelude::*;
use crate::digits;
use crate::digits::write_number;
use crate::graph::Graph;
use crate::table;
use crate::table::Table;

pub use crate::engine::Engine;
pub use crate::outputs::{
    describe, extract_diff, numbered, parse_test_output, stamp, tool_document, truncate, TestCounts,
};

verus! {

#[derive(Debug, Clone, Copy, PartialEq, Eq, Structural)]
pub enum NodeState {
    Idle,
    Queued,
    WaitingMemory,
    Running,
    Compacting,
    AwaitingDecision,
    Done,
    Failed,
    Skipped,
    Stopped,
}

/// A role, but for how freely its model may answer.
#[derive(Debug, Clone, PartialEq, Eq)]
pub struct RoleSpec {
    pub name: String,
    pub slot: String,
    pub window: u32,
    pub artifact: String,
    pub system: String,
    /// Documents read in full. Everything else in the run arrives as a digest.
    pub primary_inputs: Vec<String>,
    /// When true the role works in steps with tools instead of answering in
    /// one shot. Anything that has to touch files needs this: a model cannot
    /// write a correct change to a file it has not read.
    pub tools: bool,
    /// Procedure the role follows, by name. Loaded from the skills directory.
    pub skill: Option<String>,
    /// How many tool steps before the node gives up.
    pub max_steps: Option<u32>,
    /// How many tokens an answer may take.
    pub max_output: Option<i32>,
    /// When true, this role's document is refused unless the journal shows it
    /// actually wrote a file, and while the tests fail. A role that changes code
    /// and reports success without touching anything is the failure this exists
    /// to catch.
    pub must_write: bool,
    /// When true, this role's unknowns run the clarification ladder: two
    /// self-resolution passes, then the human is asked.
    pub clarifies: bool,
}

#[derive(Debug, Clone, Copy, PartialEq, Eq, Structural)]
pub struct TestBaseline {
    pub total: u32,
    pub failed: u32,
}

#[derive(Debug, Clone, PartialEq, Eq)]
pub struct RunState {
    pub run_id: String,
    pub workflow: String,
    pub states: Table<NodeState>,
    pub attempts: Table<u32>,
    /// Node -> the document file it produced.
    pub documents: Table<String>,
    pub checkpoint: Option<String>,
    /// Test counts taken before any agent acted. Without them a final "2 tests
    /// pass" cannot be told apart from a run that destroyed the other four.
    pub baseline: Option<TestBaseline>,
    /// Test counts as they were last taken since then.
    pub measured: Option<TestBaseline>,
    pub finished: Option<String>,
    pub failure: Option<String>,
}

/// What a run tells while it goes on.
pub enum Event<'a> {
    NodeState { id: &'a str, state: NodeState },
    Token(&'a str),
    Note(String),
}

/// The state a node is in. One that nothing is known of is idle.
pub open spec fn state_of(states: Seq<(Seq<char>, NodeState)>, id: Seq<char>) -> NodeState {
    match table::lookup(states, id) {
        Some(s) => s,
        None => NodeState::Idle,
    }
}

/// All of the names idle.
pub open spec fn all_idle(ids: Seq<Seq<char>>) -> Seq<(Seq<char>, NodeState)>
    decreases ids.len(),
{
    if ids.len() == 0 {
        seq![]
    } else {
        table::put(all_idle(ids.drop_last()), ids.last(), NodeState::Idle)
    }
}

/// The attempts that a node has taken.
pub open spec fn attempts_of(attempts: Seq<(Seq<char>, u32)>, id: Seq<char>) -> nat {
    match table::lookup(attempts, id) {
        Some(n) => n as nat,
        None => 0,
    }
}

impl RunState {
    /// Whether the tables are in order.
    pub open spec fn wf(self) -> bool {
        self.states.wf() && self.attempts.wf() && self.documents.wf()
    }

    /// Whether all but the states is the same.
    pub open spec fn is_but_for_states(self, other: RunState) -> bool {
        self == (RunState { states: self.states, ..other })
    }

    pub fn new(run_id: &str, workflow: &str, graph: &Graph) -> (r: Self)
        ensures
            r.wf(),
            r.run_id@ == run_id@,
            r.workflow@ == workflow@,
            r.states@ == all_idle(graph.ids()),
            r.attempts@.len() == 0,
            r.documents@.len() == 0,
            r.checkpoint is None,
            r.baseline is None,
            r.measured is None,
            r.finished is None,
            r.failure is None,
    {
        let ghost names = graph.ids();
        let mut states: Table<NodeState> = Table::new();
        let mut i: usize = 0;
        assert(states@ =~= all_idle(names.take(0)));
        while i < graph.nodes.len()
            invariant
                i <= graph.nodes.len(),
                names == graph.ids(),
                states.wf(),
                states@ == all_idle(names.take(i as int)),
            decreases graph.nodes.len() - i,
        {
            assert(names.take(i + 1).drop_last() =~= names.take(i as int));
            assert(names.take(i + 1).last() == graph.nodes@[i as int].id@);
            states.insert(graph.nodes[i].id.as_str().to_owned(), NodeState::Idle);
            i = i + 1;
        }
        assert(names.take(i as int) =~= names);
        RunState {
            run_id: run_id.to_owned(),
            workflow: workflow.to_owned(),
            states,
            attempts: Table::new(),
            documents: Table::new(),
            checkpoint: None,
            baseline: None,
            measured: None,
            finished: None,
            failure: None,
        }
    }

    pub fn state(&self, id: &str) -> (s: NodeState)
        ensures
            s == state_of(self.states@, id@),
    {
        match self.states.get(id) {
            Some(s) => *s,
            None => NodeState::Idle,
        }
    }

    /// Notes the state a node is in from here on.
    pub fn enter(&mut self, id: &str, state: NodeState)
        ensures
            final(self).states@ == table::put(old(self).states@, id@, state),
            final(self).is_but_for_states(*old(self)),
            old(self).wf() ==> final(self).wf(),
    {
        self.states.insert(id.to_owned(), state);
    }

    /// Notes that a node failed, which ends the run.
    pub fn fail(&mut self, id: &str, why: &str)
        ensures
            final(self).states@ == table::put(old(self).states@, id@, NodeState::Failed),
            final(self).failure matches Some(f) && f@ == id@ + ": "@ + why@,
            *final(self) == (RunState {
                states: final(self).states,
                failure: final(self).failure,
                ..*old(self)
            }),
            old(self).wf() ==> final(self).wf(),
    {
        self.states.insert(id.to_owned(), NodeState::Failed);
        let mut f = id.to_owned();
        f.append(": ");
        f.append(why);
        self.failure = Some(f);
    }

    /// Notes that the run came to its end.
    pub fn finish(&mut self, now: &str)
        ensures
            final(self).finished matches Some(f) && f@ == now@,
            *final(self) == (RunState { finished: final(self).finished, ..*old(self) }),
    {
        self.finished = Some(now.to_owned());
    }

    /// Notes which document a node produced.
    pub fn produced(&mut self, id: &str, file: &str)
        ensures
            table::as_texts(final(self).documents@) == table::put(
                table::as_texts(old(self).documents@),
                id@,
                file@,
            ),
            *final(self) == (RunState { documents: final(self).documents, ..*old(self) }),
            old(self).wf() ==> final(self).wf(),
    {
        let ghost before = self.documents@;
        let value = file.to_owned();
        proof {
            table::lemma_put_texts(before, id@, value);
        }
        self.documents.insert(id.to_owned(), value);
    }

    /// Notes how many attempts a node has taken.
    pub fn attempted(&mut self, id: &str, attempt: u32)
        ensures
            final(self).attempts@ == table::put(old(self).attempts@, id@, attempt),
            *final(self) == (RunState { attempts: final(self).attempts, ..*old(self) }),
            old(self).wf() ==> final(self).wf(),
    {
        self.attempts.insert(id.to_owned(), attempt);
    }

    /// How many attempts a node has taken.
    pub fn attempts_of(&self, id: &str) -> (n: u32)
        ensures
            n == attempts_of(self.attempts@, id@),
    {
        match self.attempts.get(id) {
            Some(n) => *n,
            None => 0,
        }
    }
}

/// What is kept of the tests once they were run again: the counts that were
/// taken, or those from before where there was nothing to count.
pub open spec fn last_counts(before: Option<TestBaseline>, counts: Option<TestBaseline>) -> Option<TestBaseline> {
    match counts {
        Some(c) => Some(c),
        None => before,
    }
}

/// What is noted of the tests before any agent acts.
pub open spec fn baseline_note(b: Option<TestBaseline>) -> Seq<char> {
    match b {
        Some(b) => "baseline: "@ + digits::decimal(b.total as nat) + " tests, "@ + digits::decimal(
            b.failed as nat,
        ) + " failing"@,
        None => "baseline: the test command produced no summary, so regressions cannot be detected"@,
    }
}

impl RunState {
    /// Notes what the tests came to before any agent acts, which is the only
    /// moment it means anything.
    pub fn take_baseline(&mut self, measured: Option<TestBaseline>) -> (note: String)
        ensures
            note@ == baseline_note(measured),
            final(self).baseline == (match measured {
                Some(b) => Some(b),
                None => old(self).baseline,
            }),
            *final(self) == (RunState { baseline: final(self).baseline, ..*old(self) }),
    {
        match measured {
            Some(b) => {
                let mut s = "baseline: ".to_owned();
                s.append(write_number(b.total as u128).as_str());
                s.append(" tests, ");
                s.append(write_number(b.failed as u128).as_str());
                s.append(" failing");
                self.baseline = Some(b);
                s
            },
            None => {
                "baseline: the test command produced no summary, so regressions cannot be detected".to_owned()
            },
        }
    }

    /// Notes what the tests came to, run again. A run of them that counted
    /// nothing leaves what was noted before.
    pub fn note_tests(&mut self, counts: Option<TestBaseline>)
        ensures
            *final(self) == (RunState { measured: last_counts(old(self).measured, counts), ..*old(self) }),
    {
        if counts.is_some() {
            self.measured = counts;
        }
    }
}

/// At its beginning a run knows every node, each of them idle, and no other.
pub proof fn law_a_run_begins_with_every_node_idle(ids: Seq<Seq<char>>, id: Seq<char>)
    ensures
        table::lookup(all_idle(ids), id) == (if ids.contains(id) {
            Some(NodeState::Idle)
        } else {
            None
        }),
    decreases ids.len(),
{
    if ids.len() > 0 {
        let rest = ids.drop_last();
        let last = ids.last();
        law_a_run_begins_with_every_node_idle(rest, id);
        if id == last {
            table::lemma_lookup_put_same(all_idle(rest), last, NodeState::Idle);
            assert(ids[ids.len() - 1] == id);
        } else {
            table::lemma_lookup_put_other(all_idle(rest), last, NodeState::Idle, id);
            if ids.contains(id) {
                let i = choose|i: int| 0 <= i < ids.len() && ids[i] == id;
                assert(rest[i] == id);
            }
            if rest.contains(id) {
                let i = choose|i: int| 0 <= i < rest.len() && rest[i] == id;
                assert(ids[i] == id);
            }
        }
    }
}

/// What is noted of the baseline has its numbers in it, and where there is none
/// nothing is made up.
pub proof fn law_the_baseline_is_noted_with_its_numbers(b: TestBaseline)
    ensures
        baseline_note(Some(b)) == "baseline: "@ + digits::decimal(b.total as nat) + " tests, "@ + digits::decimal(
            b.failed as nat,
        ) + " failing"@,
{
}

/// A later count stands in the place of an earlier one; no count leaves it.
pub proof fn law_the_last_count_stands(before: Option<TestBaseline>, c: TestBaseline, d: TestBaseline)
    ensures
        last_counts(last_counts(before, Some(c)), Some(d)) == Some(d),
        last_counts(last_counts(before, Some(c)), None) == Some(c),
        last_counts(before, None) == before,
{
}

/// Where only the states of a run change, all else that it tells stays.
pub proof fn law_a_change_of_state_is_nothing_more(a: RunState, b: RunState)
    ensures
        a.is_but_for_states(b) <==> ({
            &&& a.run_id == b.run_id && a.workflow == b.workflow
            &&& a.attempts == b.attempts && a.documents == b.documents && a.checkpoint == b.checkpoint
            &&& a.baseline == b.baseline && a.measured == b.measured
            &&& a.finished == b.finished && a.failure == b.failure
        }),
{
}

} // verus!
