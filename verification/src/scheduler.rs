//! Two slots, not a pool.
//!
//! The pipeline is sequential — each node consumes its predecessor's document —
//! so at most one pipeline model is resident, plus the chat companion when the
//! user has it open. There is no allocation problem to solve, and this module is
//! small because of it rather than in spite of it.
//!
//! Cost is measured, never derived: `weights + bytes_per_token × window`,
//! obtained by loading a model at two windows when it is bound to a slot.

use vstd::prelude::*;
use crate::kept::{keep, Kept};
use crate::memory::{MemoryProbe, MemorySnapshot};
use crate::table;
use crate::table::Table;
use crate::text;
use crate::text::{chars_of, mentions};

verus! {

#[derive(Debug, Clone, Copy, PartialEq, Eq, Structural)]
pub struct ModelCost {
    pub weights: u64,
    pub bytes_per_token: u64,
}

impl ModelCost {
    /// The bytes a model takes at a window.
    pub open spec fn bytes(self, window: u32) -> nat {
        (self.weights + self.bytes_per_token * window) as nat
    }

    pub fn at(&self, window: u32) -> (n: u64)
        requires
            self.bytes(window) <= u64::MAX,
        ensures
            n == self.bytes(window),
    {
        assert(0 <= self.bytes_per_token * window <= self.bytes(window)) by {
            assert(self.bytes_per_token * window >= 0) by (nonlinear_arith)
                requires
                    self.bytes_per_token >= 0,
                    window >= 0,
            ;
        }
        self.weights + self.bytes_per_token * (window as u64)
    }

    /// Whether the bytes can be counted.
    pub fn fits_at(&self, window: u32) -> (r: bool)
        ensures
            r == (self.bytes(window) <= u64::MAX),
    {
        assert(self.bytes_per_token * window <= u64::MAX * u32::MAX) by (nonlinear_arith)
            requires
                0 <= self.bytes_per_token <= u64::MAX,
                0 <= window <= u32::MAX,
        ;
        assert(self.bytes_per_token * window >= 0) by (nonlinear_arith)
            requires
                self.bytes_per_token >= 0,
                window >= 0,
        ;
        self.weights as u128 + self.bytes_per_token as u128 * window as u128 <= u64::MAX as u128
    }
}

/// The measured cost of a model that goes by a known size.
pub open spec fn measured(model: Seq<char>) -> Option<ModelCost> {
    if text::occurs(model, "14b"@) {
        Some(ModelCost { weights: 8568459755, bytes_per_token: 280576 })
    } else if text::occurs(model, "7b"@) {
        Some(ModelCost { weights: 4423816314, bytes_per_token: 115712 })
    } else if text::occurs(model, "embed"@) {
        Some(ModelCost { weights: 287309824, bytes_per_token: 0 })
    } else {
        None
    }
}

/// Costs measured once, by the size in the name.
pub fn measured_default(model: &str) -> (r: Option<ModelCost>)
    ensures
        r == measured(model@),
{
    let gib: u64 = 1024 * 1024 * 1024;
    let kib: u64 = 1024;
    let name = chars_of(model);
    if mentions(name.as_slice(), "14b") {
        Some(ModelCost { weights: 7_98 * gib / 100, bytes_per_token: 274 * kib })
    } else if mentions(name.as_slice(), "7b") {
        Some(ModelCost { weights: 4_12 * gib / 100, bytes_per_token: 113 * kib })
    } else if mentions(name.as_slice(), "embed") {
        Some(ModelCost { weights: 274 * 1024 * 1024, bytes_per_token: 0 })
    } else {
        None
    }
}

#[derive(Debug, Clone, PartialEq, Eq, Structural)]
pub enum Admission {
    /// Start now. `evict_chat` when the companion has to go first.
    Start { evict_chat: bool },
    /// Not now, but the machine could hold it once something is released.
    WaitForMemory { needed: u64, available: u64 },
    /// Not ever on this machine at this window — the run halts rather than swaps.
    Impossible { needed: u64, ceiling: u64 },
}

#[derive(Debug, Clone, PartialEq, Eq)]
pub struct Resident {
    pub model: String,
    pub window: u32,
    pub cost: u64,
}

/// A subtraction that stops at nothing.
pub open spec fn less(a: nat, b: nat) -> nat {
    if a > b {
        (a - b) as nat
    } else {
        0
    }
}

/// Whether a model may start, from what it needs, what the machine shows, what
/// is held back, and what the two slots hold.
///
/// Whatever the pipeline slot already holds is ours to reuse or release, so it
/// counts as available to the model replacing it. "Never here" and "not right
/// now" are different questions, and only the machine's total answers the first.
pub open spec fn admission(
    needed: u64,
    snap: MemorySnapshot,
    reserve: u64,
    mine: u64,
    chat: u64,
) -> Admission {
    let free = less(snap.available(), reserve as nat) + mine;
    let ceiling = less(snap.total(), reserve as nat);
    if needed <= free {
        Admission::Start { evict_chat: false }
    } else if needed <= free + chat {
        Admission::Start { evict_chat: true }
    } else if needed > ceiling {
        Admission::Impossible { needed, ceiling: ceiling as u64 }
    } else {
        Admission::WaitForMemory { needed, available: free as u64 }
    }
}

/// Whether the model is in a slot, at that window and cost.
pub open spec fn holds_model(slot: Option<Resident>, model: Seq<char>, window: u32, cost: nat) -> bool {
    match slot {
        Some(r) => r.model@ == model && r.window == window && r.cost == cost,
        None => false,
    }
}

/// What the model in a slot costs.
pub open spec fn cost_in(slot: Option<Resident>) -> u64 {
    match slot {
        Some(r) => r.cost,
        None => 0,
    }
}

/// What is said where the cost of a model is not known.
pub open spec fn no_cost(model: Seq<char>) -> Seq<char> {
    "no measured cost for `"@ + model + "`"@
}

/// What is said where a model whose cost is not known is to start.
pub open spec fn unknown_cost(model: Seq<char>) -> Seq<char> {
    "no measured cost for `"@ + model + "`; bind it to a slot first"@
}

/// What is said where a probe shows figures that no sum can be made of.
pub open spec fn no_sum() -> Seq<char> {
    "the memory figures of this machine do not add up"@
}

fn say_no_cost(model: &str) -> (s: String)
    ensures
        s@ == no_cost(model@),
{
    let mut s = "no measured cost for `".to_owned();
    s.append(model);
    s.append("`");
    s
}

fn say_unknown_cost(model: &str) -> (s: String)
    ensures
        s@ == unknown_cost(model@),
{
    let mut s = "no measured cost for `".to_owned();
    s.append(model);
    s.append("`; bind it to a slot first");
    s
}

fn say_no_sum() -> (s: String)
    ensures
        s@ == no_sum(),
{
    "the memory figures of this machine do not add up".to_owned()
}

pub struct Scheduler<'a> {
    probe: Kept<&'a dyn MemoryProbe>,
    /// Held back for the system and for this application. Never lent to models.
    reserve: u64,
    costs: Table<ModelCost>,
    pipeline: Option<Resident>,
    chat: Option<Resident>,
}

impl<'a> Scheduler<'a> {
    pub closed spec fn reserved(self) -> u64 {
        self.reserve
    }

    pub closed spec fn learned(self) -> Seq<(Seq<char>, ModelCost)> {
        self.costs@
    }

    pub closed spec fn pipeline_slot(self) -> Option<Resident> {
        self.pipeline
    }

    pub closed spec fn chat_slot(self) -> Option<Resident> {
        self.chat
    }

    /// The cost that is known of a model: what was learned, or what was measured.
    pub open spec fn known(self, model: Seq<char>) -> Option<ModelCost> {
        match table::lookup(self.learned(), model) {
            Some(c) => Some(c),
            None => measured(model),
        }
    }

    /// Whether the cost of a model can be counted.
    pub open spec fn countable(self, model: Seq<char>, window: u32) -> bool {
        self.known(model) matches Some(c) ==> c.bytes(window) <= u64::MAX
    }

    /// Two empty slots on the machine that `probe` looks at.
    pub fn new(probe: &'a dyn MemoryProbe, reserve: u64) -> (s: Self)
        ensures
            s.reserved() == reserve,
            s.learned() == Seq::<(Seq<char>, ModelCost)>::empty(),
            s.pipeline_slot() is None,
            s.chat_slot() is None,
            forall|shown: Result<MemorySnapshot, String>| #[trigger] s.may_show(shown) == probe.may_show(shown),
    {
        let probe = keep(probe);
        Scheduler { probe, reserve, costs: Table::new(), pipeline: None, chat: None }
    }

    pub fn learn(&mut self, model: &str, cost: ModelCost)
        ensures
            final(self).asks_as(*old(self)),
            final(self).learned() == table::put(old(self).learned(), model@, cost),
            final(self).reserved() == old(self).reserved(),
            final(self).pipeline_slot() == old(self).pipeline_slot(),
            final(self).chat_slot() == old(self).chat_slot(),
    {
        self.costs.insert(model.to_owned(), cost);
    }

    pub fn cost_of(&self, model: &str, window: u32) -> (r: Option<u64>)
        requires
            self.countable(model@, window),
        ensures
            r is Some == self.known(model@) is Some,
            r matches Some(n) ==> n == (self.known(model@)->0).bytes(window),
    {
        match self.costs.get(model) {
            Some(c) => Some(c.at(window)),
            None => match measured_default(model) {
                Some(c) => Some(c.at(window)),
                None => None,
            },
        }
    }

    /// Whether the cost of a model can be counted at a window.
    pub fn can_count(&self, model: &str, window: u32) -> (r: bool)
        ensures
            r == self.countable(model@, window),
    {
        match self.costs.get(model) {
            Some(c) => c.fits_at(window),
            None => match measured_default(model) {
                Some(c) => c.fits_at(window),
                None => true,
            },
        }
    }

    pub fn pipeline(&self) -> (r: Option<&Resident>)
        ensures
            r is Some == self.pipeline_slot() is Some,
            r matches Some(x) ==> Some(*x) == self.pipeline_slot(),
    {
        self.pipeline.as_ref()
    }

    pub fn chat(&self) -> (r: Option<&Resident>)
        ensures
            r is Some == self.chat_slot() is Some,
            r matches Some(x) ==> Some(*x) == self.chat_slot(),
    {
        self.chat.as_ref()
    }

    /// What a snapshot leaves for the pipeline's next model: what can be had,
    /// less the reserve, and what the slot holds.
    pub open spec fn free_on(self, snap: MemorySnapshot) -> nat {
        less(snap.available(), self.reserved() as nat) + cost_in(self.pipeline_slot()) as nat
    }

    /// Whether the figures can be reckoned with that it takes to decide on a model
    /// that needs so much. Only where it fits neither beside the companion nor in
    /// its place does the machine's total come in.
    pub open spec fn reckons(self, needed: nat, snap: MemorySnapshot) -> bool {
        &&& snap.spares()
        &&& self.free_on(snap) <= u64::MAX
        &&& needed <= self.free_on(snap) || {
            &&& self.free_on(snap) + cost_in(self.chat_slot()) <= u64::MAX
            &&& needed <= self.free_on(snap) + cost_in(self.chat_slot()) || snap.fits()
        }
    }

    /// The cost of the model in the pipeline slot.
    fn mine(&self) -> (n: u64)
        ensures
            n == cost_in(self.pipeline_slot()),
    {
        match &self.pipeline {
            Some(r) => r.cost,
            None => 0,
        }
    }

    /// The cost of the companion.
    fn companion(&self) -> (n: u64)
        ensures
            n == cost_in(self.chat_slot()),
    {
        match &self.chat {
            Some(r) => r.cost,
            None => 0,
        }
    }

    fn can_reckon(&self, needed: u64, snap: &MemorySnapshot) -> (r: bool)
        ensures
            r == self.reckons(needed as nat, *snap),
    {
        if !snap.can_spare() {
            return false;
        }
        let free: u128 = snap.available_bytes().saturating_sub(self.reserve) as u128 + self.mine() as u128;
        let most: u128 = free + self.companion() as u128;
        let max: u128 = u64::MAX as u128;
        free <= max && (needed as u128 <= free || (most <= max && (needed as u128 <= most || snap.adds_up())))
    }

    /// Whether a model may start, on a machine that shows `snap`.
    fn may_start_on(&self, model: &str, window: u32, snap: &MemorySnapshot) -> (r: Result<Admission, String>)
        requires
            self.countable(model@, window),
            self.known(model@) matches Some(c) ==> self.reckons(c.bytes(window), *snap),
        ensures
            match self.known(model@) {
                Some(c) => r == Ok::<Admission, String>(self.admission_of(c, window, *snap)),
                None => r is Err && r->Err_0@ == unknown_cost(model@),
            },
    {
        let needed = match self.cost_of(model, window) {
            Some(n) => n,
            None => {
                return Err(say_unknown_cost(model));
            },
        };
        let free: u64 = snap.available_bytes().saturating_sub(self.reserve) + self.mine();
        if needed <= free {
            return Ok(Admission::Start { evict_chat: false });
        }
        if needed <= free + self.companion() {
            // The companion goes first. It never blocks a pipeline.
            return Ok(Admission::Start { evict_chat: true });
        }
        let ceiling: u64 = snap.total_bytes().saturating_sub(self.reserve);
        if needed > ceiling {
            return Ok(Admission::Impossible { needed, ceiling });
        }
        Ok(Admission::WaitForMemory { needed, available: free })
    }

    /// What is decided on a model of known cost, from what a snapshot shows.
    pub open spec fn admission_of(self, cost: ModelCost, window: u32, snap: MemorySnapshot) -> Admission {
        admission(
            cost.bytes(window) as u64,
            snap,
            self.reserved(),
            cost_in(self.pipeline_slot()),
            cost_in(self.chat_slot()),
        )
    }

    /// Whether `r` is the answer on a model, given what the probe showed.
    pub open spec fn answers(
        self,
        model: Seq<char>,
        window: u32,
        shown: Result<MemorySnapshot, String>,
        r: Result<Admission, String>,
    ) -> bool {
        match (self.known(model), shown) {
            (None, _) => r is Err && r->Err_0@ == unknown_cost(model),
            (Some(_), Err(why)) => r is Err && r->Err_0@ == why@,
            (Some(c), Ok(snap)) => if self.reckons(c.bytes(window), snap) {
                r == Ok::<Admission, String>(self.admission_of(c, window, snap))
            } else {
                r is Err && r->Err_0@ == no_sum()
            },
        }
    }

    /// Whether a model may start, given what the probe showed.
    pub fn may_start_given(
        &self,
        model: &str,
        window: u32,
        shown: Result<MemorySnapshot, String>,
    ) -> (r: Result<Admission, String>)
        requires
            self.countable(model@, window),
        ensures
            self.answers(model@, window, shown, r),
    {
        let needed = match self.cost_of(model, window) {
            Some(n) => n,
            None => {
                return Err(say_unknown_cost(model));
            },
        };
        match shown {
            Ok(snap) => if self.can_reckon(needed, &snap) {
                self.may_start_on(model, window, &snap)
            } else {
                Err(say_no_sum())
            },
            Err(why) => Err(why),
        }
    }

    /// Whether this is something that the probe may show.
    pub closed spec fn may_show(self, shown: Result<MemorySnapshot, String>) -> bool {
        self.probe.inner.may_show(shown)
    }

    /// Whether a model may start now. The answer is that of
    /// [`Scheduler::may_start_given`] for what the probe shows; a model of unknown
    /// cost is refused whatever it shows.
    pub fn may_start(&self, model: &str, window: u32) -> (r: Result<Admission, String>)
        requires
            self.countable(model@, window),
        ensures
            self.known(model@) is None ==> r is Err && r->Err_0@ == unknown_cost(model@),
            self.known(model@) is Some ==> exists|shown: Result<MemorySnapshot, String>| #[trigger]
                self.may_show(shown) && self.answers(model@, window, shown, r),
    {
        if self.cost_of(model, window).is_none() {
            return Err(say_unknown_cost(model));
        }
        let shown = self.probe.inner.snapshot();
        let ghost what = shown;
        let r = self.may_start_given(model, window, shown);
        assert(self.may_show(what) && self.answers(model@, window, what, r));
        r
    }

    /// Records what admission decided. Eviction of the previous pipeline model
    /// is implicit: the slot holds one. The companion leaves even where the
    /// model cannot be placed for want of a cost.
    pub fn place(&mut self, model: &str, window: u32, evict_chat: bool) -> (r: Result<(), String>)
        requires
            old(self).countable(model@, window),
        ensures
            final(self).asks_as(*old(self)),
            final(self).reserved() == old(self).reserved(),
            final(self).learned() == old(self).learned(),
            final(self).chat_slot() == if evict_chat {
                None
            } else {
                old(self).chat_slot()
            },
            match old(self).known(model@) {
                Some(c) => r is Ok && holds_model(final(self).pipeline_slot(), model@, window, c.bytes(window)),
                None => r is Err && r->Err_0@ == no_cost(model@) && final(self).pipeline_slot() == old(self).pipeline_slot(),
            },
    {
        if evict_chat {
            self.chat = None;
        }
        match self.cost_of(model, window) {
            Some(cost) => {
                self.pipeline = Some(Resident { model: model.to_owned(), window, cost });
                Ok(())
            },
            None => Err(say_no_cost(model)),
        }
    }

    /// Whether `r` and the companion's slot after it are the answer on placing the
    /// companion, given what the probe showed.
    pub open spec fn settles(
        self,
        model: Seq<char>,
        window: u32,
        shown: Result<MemorySnapshot, String>,
        slot: Option<Resident>,
        r: Result<bool, String>,
    ) -> bool {
        match (self.known(model), shown) {
            (None, _) => r is Err && r->Err_0@ == no_cost(model) && slot == self.chat_slot(),
            (Some(_), Err(why)) => r is Err && r->Err_0@ == why@ && slot == self.chat_slot(),
            (Some(c), Ok(snap)) => if !snap.spares() {
                r is Err && r->Err_0@ == no_sum() && slot == self.chat_slot()
            } else if c.bytes(window) > less(snap.available(), self.reserved() as nat) {
                r == Ok::<bool, String>(false) && slot == self.chat_slot()
            } else {
                r == Ok::<bool, String>(true) && holds_model(slot, model, window, c.bytes(window))
            },
        }
    }

    /// Places the companion, given what the probe showed, where there is room for
    /// it once the system's share is held back.
    pub fn place_chat_given(
        &mut self,
        model: &str,
        window: u32,
        shown: Result<MemorySnapshot, String>,
    ) -> (r: Result<bool, String>)
        requires
            old(self).countable(model@, window),
        ensures
            final(self).is_but_for_chat(*old(self)),
            old(self).settles(model@, window, shown, final(self).chat_slot(), r),
    {
        let cost = match self.cost_of(model, window) {
            Some(n) => n,
            None => {
                return Err(say_no_cost(model));
            },
        };
        match shown {
            Ok(snap) => {
                if !snap.can_spare() {
                    return Err(say_no_sum());
                }
                if cost > snap.available_bytes().saturating_sub(self.reserve) {
                    return Ok(false);
                }
                self.chat = Some(Resident { model: model.to_owned(), window, cost });
                Ok(true)
            },
            Err(why) => Err(why),
        }
    }

    /// Whether all but the companion's slot is the same.
    pub open spec fn is_but_for_chat(self, other: Scheduler<'a>) -> bool {
        &&& self.reserved() == other.reserved()
        &&& self.learned() == other.learned()
        &&& self.pipeline_slot() == other.pipeline_slot()
        &&& self.asks_as(other)
    }

    /// Whether the same probe is asked.
    pub open spec fn asks_as(self, other: Scheduler<'a>) -> bool {
        forall|shown: Result<MemorySnapshot, String>| #[trigger] self.may_show(shown) == other.may_show(shown)
    }

    /// Places the companion where there is room for it now. The answer is that of
    /// [`Scheduler::place_chat_given`] for what the probe shows.
    pub fn place_chat(&mut self, model: &str, window: u32) -> (r: Result<bool, String>)
        requires
            old(self).countable(model@, window),
        ensures
            final(self).is_but_for_chat(*old(self)),
            old(self).known(model@) is None ==> r is Err && r->Err_0@ == no_cost(model@) && final(self).chat_slot()
                == old(self).chat_slot(),
            old(self).known(model@) is Some ==> exists|shown: Result<MemorySnapshot, String>| #[trigger]
                old(self).may_show(shown) && old(self).settles(model@, window, shown, final(self).chat_slot(), r),
    {
        if self.cost_of(model, window).is_none() {
            return Err(say_no_cost(model));
        }
        let shown = self.probe.inner.snapshot();
        let ghost what = shown;
        assert(self.may_show(what));
        let r = self.place_chat_given(model, window, shown);
        assert(old(self).settles(model@, window, what, self.chat_slot(), r));
        r
    }

    pub fn release_pipeline(&mut self)
        ensures
            final(self).asks_as(*old(self)),
            final(self).pipeline_slot() is None,
            final(self).chat_slot() == old(self).chat_slot(),
            final(self).reserved() == old(self).reserved(),
            final(self).learned() == old(self).learned(),
    {
        self.pipeline = None;
    }

    pub fn release_chat(&mut self)
        ensures
            final(self).asks_as(*old(self)),
            final(self).chat_slot() is None,
            final(self).pipeline_slot() == old(self).pipeline_slot(),
            final(self).reserved() == old(self).reserved(),
            final(self).learned() == old(self).learned(),
    {
        self.chat = None;
    }
}

// -------------------------------------------------------------------------- laws

/// A model asking for the slot it occupies always fits, so that no separate
/// "already resident" case is needed.
pub proof fn law_a_resident_model_fits(cost: u64, snap: MemorySnapshot, reserve: u64, chat: u64)
    ensures
        admission(cost, snap, reserve, cost, chat) == (Admission::Start { evict_chat: false }),
{
}

/// The reserve is never lent: a model that starts leaves it free, counting what
/// its slot held and, where the companion leaves, what that held.
pub proof fn law_the_reserve_is_never_lent(
    needed: u64,
    snap: MemorySnapshot,
    reserve: u64,
    mine: u64,
    chat: u64,
)
    requires
        snap.available() >= reserve,
    ensures
        admission(needed, snap, reserve, mine, chat) matches Admission::Start { evict_chat } ==> needed + reserve
            <= snap.available() + mine + if evict_chat {
            chat
        } else {
            0u64
        },
{
}

/// The companion is asked to leave only where the model would not fit beside it.
pub proof fn law_the_companion_leaves_only_when_it_must(
    needed: u64,
    snap: MemorySnapshot,
    reserve: u64,
    mine: u64,
    chat: u64,
)
    ensures
        admission(needed, snap, reserve, mine, chat) == (Admission::Start { evict_chat: true }) ==> needed > less(
            snap.available(),
            reserve as nat,
        ) + mine,
{
}

/// A model waits exactly where it does not fit now but the machine could hold
/// it, and is turned away exactly where the machine never could.
pub proof fn law_waiting_is_not_refusing(
    needed: u64,
    snap: MemorySnapshot,
    reserve: u64,
    mine: u64,
    chat: u64,
)
    requires
        needed > less(snap.available(), reserve as nat) + mine + chat,
    ensures
        admission(needed, snap, reserve, mine, chat) is Impossible == (needed > less(
            snap.total(),
            reserve as nat,
        )),
        admission(needed, snap, reserve, mine, chat) is WaitForMemory == (needed <= less(
            snap.total(),
            reserve as nat,
        )),
{
}

/// Whatever fits, starts, and nothing else does. A model fits beside the companion
/// exactly where what it needs, with the reserve on top, is covered by what can be
/// had and what its own slot holds, or by that slot alone; it fits in the
/// companion's place exactly where what that holds has to be added. What starts
/// neither way is told what it needs.
pub proof fn law_whatever_fits_starts(needed: u64, snap: MemorySnapshot, reserve: u64, mine: u64, chat: u64)
    ensures
        ({
            let beside = needed + reserve <= snap.available() + mine || needed <= mine;
            let instead = needed + reserve <= snap.available() + mine + chat || needed <= mine + chat;
            let a = admission(needed, snap, reserve, mine, chat);
            &&& beside <==> a == (Admission::Start { evict_chat: false })
            &&& !beside && instead <==> a == (Admission::Start { evict_chat: true })
            &&& a matches Admission::WaitForMemory { needed: n, .. } ==> n == needed
            &&& a matches Admission::Impossible { needed: n, .. } ==> n == needed
        }),
{
}

/// A model that has to wait is told what there is now, and one that is turned away
/// the most there could ever be, both without the reserve.
pub proof fn law_the_figures_are_those_of_the_machine(
    needed: u64,
    snap: MemorySnapshot,
    reserve: u64,
    mine: u64,
    chat: u64,
)
    requires
        snap.available() + mine <= u64::MAX,
        snap.total() <= u64::MAX,
    ensures
        admission(needed, snap, reserve, mine, chat) matches Admission::WaitForMemory { available, .. } ==> (
        if snap.available() >= reserve {
            available + reserve == snap.available() + mine
        } else {
            available == mine
        }),
        admission(needed, snap, reserve, mine, chat) matches Admission::Impossible { ceiling, .. } ==> (
        if snap.total() >= reserve {
            ceiling + reserve == snap.total()
        } else {
            ceiling == 0
        }),
{
}

/// What a scheduler answers rests on the model's cost at that window, on the
/// machine, and on what stands in its own slots: where the model fits beside the
/// companion, it may start, and what the pipeline slot holds counts as room.
pub proof fn law_a_scheduler_starts_what_fits<'a>(
    s: Scheduler<'a>,
    model: Seq<char>,
    window: u32,
    cost: ModelCost,
    snap: MemorySnapshot,
    r: Result<Admission, String>,
)
    requires
        s.known(model) == Some(cost),
        s.countable(model, window),
        s.reckons(cost.bytes(window), snap),
        s.answers(model, window, Ok(snap), r),
    ensures
        ({
            let needed = cost.weights + cost.bytes_per_token * window;
            let mine = match s.pipeline_slot() {
                Some(m) => m.cost as int,
                None => 0,
            };
            let chat = match s.chat_slot() {
                Some(m) => m.cost as int,
                None => 0,
            };
            let beside = needed + s.reserved() <= snap.available() + mine || needed <= mine;
            let instead = needed + s.reserved() <= snap.available() + mine + chat || needed <= mine + chat;
            &&& r is Ok
            &&& beside <==> r->Ok_0 == (Admission::Start { evict_chat: false })
            &&& !beside && instead <==> r->Ok_0 == (Admission::Start { evict_chat: true })
            &&& !instead ==> (r->Ok_0 is Impossible <==> needed + s.reserved() > snap.total() && needed > 0)
            &&& !instead ==> (r->Ok_0 is WaitForMemory <==> !(needed + s.reserved() > snap.total() && needed > 0))
        }),
{
}

/// The companion is placed exactly where what can be had covers it and the
/// reserve, and it stands in its slot then, at that window and cost.
pub proof fn law_the_companion_is_placed_where_there_is_room<'a>(
    s: Scheduler<'a>,
    model: Seq<char>,
    window: u32,
    cost: ModelCost,
    snap: MemorySnapshot,
    slot: Option<Resident>,
    r: Result<bool, String>,
)
    requires
        s.known(model) == Some(cost),
        snap.spares(),
        s.settles(model, window, Ok(snap), slot, r),
    ensures
        ({
            let needed = cost.weights + cost.bytes_per_token * window;
            &&& r == Ok::<bool, String>(needed + s.reserved() <= snap.available() || needed == 0)
            &&& r == Ok::<bool, String>(false) ==> slot == s.chat_slot()
            &&& r == Ok::<bool, String>(true) ==> (slot matches Some(m) && m.model@ == model && m.window == window
                && m.cost == needed)
        }),
{
}

/// What was learned of a model is what it costs from then on, and no other model's
/// cost is changed by it.
pub proof fn law_what_is_learned_is_what_it_costs(
    costs: Seq<(Seq<char>, ModelCost)>,
    model: Seq<char>,
    cost: ModelCost,
    other: Seq<char>,
)
    ensures
        table::lookup(table::put(costs, model, cost), model) == Some(cost),
        other != model ==> table::lookup(table::put(costs, model, cost), other) == table::lookup(costs, other),
{
    table::lemma_lookup_put_same(costs, model, cost);
    if other != model {
        table::lemma_lookup_put_other(costs, model, cost, other);
    }
}

/// The cost of a model can be counted unless it is known and takes more than the
/// machine can count to.
pub proof fn law_what_is_not_known_is_not_too_much(s: Scheduler, model: Seq<char>, window: u32)
    ensures
        s.known(model) is None ==> s.countable(model, window),
        s.known(model) matches Some(c) ==> (s.countable(model, window) <==> !(c.bytes(window) > u64::MAX)),
{
}

/// A model costs what its size was measured to cost, by the larger size where its
/// name holds two; what has no known size has no known cost.
pub proof fn law_a_known_size_has_its_cost(model: Seq<char>)
    ensures
        ({
            let gib: int = 1073741824;
            let large = text::occurs(model, "14b"@);
            let small = text::occurs(model, "7b"@);
            let embeds = text::occurs(model, "embed"@);
            &&& measured(model) is None <==> !large && !small && !embeds
            &&& large ==> measured(model)->0.weights == 798 * gib / 100 && measured(model)->0.bytes_per_token == 274
                * 1024
            &&& !large && small ==> measured(model)->0.weights == 412 * gib / 100 && measured(model)->0.bytes_per_token
                == 113 * 1024
            &&& !large && !small && embeds ==> measured(model)->0.weights == 274 * 1024 * 1024 && measured(
                model,
            )->0.bytes_per_token == 0
        }),
{
}

/// A model takes its weights, and for every token of its window as much again as a
/// token takes.
pub proof fn law_every_token_of_the_window_costs(c: ModelCost, window: u32)
    requires
        window < u32::MAX,
    ensures
        c.bytes(0) == c.weights,
        c.bytes((window + 1) as u32) == c.bytes(window) + c.bytes_per_token,
{
    assert(c.bytes_per_token * (window + 1) == c.bytes_per_token * window + c.bytes_per_token) by (nonlinear_arith);
    assert(c.bytes_per_token * 0 == 0) by (nonlinear_arith);
}

} // verus!
