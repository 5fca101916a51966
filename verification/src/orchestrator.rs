//! The run over all targets, with a bound on how many probes are under way
//! at once.
//!
//! Every target is an item of work. An item waits (`Pending`), is under way
//! while it holds one of the slots (`Running`), and ends as `Recorded`, where
//! its findings were written, or as `Dropped`, where there was nothing to
//! write or something failed. Nothing is tried twice, and one item's failure
//! ends that item alone. The `Orchestrator` keeps the books: it grants a
//! slot only while fewer items than the limit hold one. Whoever drives the
//! run starts the probe of each item it is granted, in any number at once,
//! and reports each item when it is done, in whatever order they end.

use crate::probe::{ProbeError, ProbeOutcome};
use crate::sink::{encode_records, records_for, rows_bytes, rows_of, SinkError};
use crate::text::{first_index_of, lemma_first_index_is, texts};
use vstd::prelude::*;

verus! {

/// The number of probes that are under way at once where no other limit is
/// asked for.
pub const MAX_CONCURRENT_TASKS: usize = 10;

/// Where an item of work stands.
#[derive(Clone, Copy, Debug, PartialEq, Eq, Structural)]
pub enum ItemState {
    /// Not started yet.
    Pending,
    /// Under way, holding a slot.
    Running,
    /// Done; its findings were written.
    Recorded,
    /// Done; nothing was written.
    Dropped,
}

/// How the work on an item ended.
#[derive(Clone, Copy, Debug, PartialEq, Eq, Structural)]
pub enum Completion {
    /// The probe reported something, and it was written.
    Recorded,
    /// The probe reported nothing.
    Empty,
    /// The probe failed.
    ProbeFailed,
    /// The probe reported something, which could not be written. The finding
    /// is lost and the run goes on.
    WriteFailed,
}

/// What is to be done with the outcome of a probe.
#[derive(Debug)]
pub enum Step {
    /// Append these bytes to the results file.
    Append(Vec<u8>),
    /// Nothing was found: write nothing.
    Skip,
    /// The probe failed: report why, and write nothing.
    Report(ProbeError),
    /// The findings could not be turned into rows: report why, and write
    /// nothing.
    Refuse(SinkError),
}

/// A run, as contracts speak of it.
pub struct Run {
    pub states: Seq<ItemState>,
    pub limit: nat,
}

/// The books of a run.
pub struct Orchestrator {
    states: Vec<ItemState>,
    limit: usize,
    running: usize,
    started: usize,
}

/// Whether the work on an item is over.
pub open spec fn is_terminal(state: ItemState) -> bool {
    state == ItemState::Recorded || state == ItemState::Dropped
}

/// How many of the items are under way.
pub open spec fn count_running(states: Seq<ItemState>) -> nat
    decreases states.len(),
{
    if states.len() == 0 {
        0
    } else {
        count_running(states.drop_last()) + if states.last() == ItemState::Running {
            1nat
        } else {
            0nat
        }
    }
}

/// Whether the items were started in their order: none waits before one that
/// was started.
pub open spec fn started_in_order(states: Seq<ItemState>) -> bool {
    forall|i: int, j: int|
        0 <= i < j < states.len() && states[i] == ItemState::Pending ==> states[j]
            == ItemState::Pending
}

/// Whether a slot is free and an item waits for it.
pub open spec fn can_start(run: Run) -> bool {
    count_running(run.states) < run.limit && run.states.contains(ItemState::Pending)
}

/// Whether the run is over: the work on every item is.
pub open spec fn all_done(states: Seq<ItemState>) -> bool {
    forall|i: int| 0 <= i < states.len() ==> is_terminal(#[trigger] states[i])
}

impl Completion {
    /// The state in which an item is left.
    pub open spec fn final_state(self) -> ItemState {
        match self {
            Completion::Recorded => ItemState::Recorded,
            _ => ItemState::Dropped,
        }
    }

    /// The state in which an item is left.
    pub fn state(&self) -> (r: ItemState)
        ensures
            r == self.final_state(),
            is_terminal(r),
    {
        match self {
            Completion::Recorded => ItemState::Recorded,
            _ => ItemState::Dropped,
        }
    }
}

/// Changing one item changes the count of those under way by that item alone.
pub proof fn lemma_count_update(states: Seq<ItemState>, i: int, state: ItemState)
    requires
        0 <= i < states.len(),
    ensures
        count_running(states.update(i, state)) + (if states[i] == ItemState::Running {
            1nat
        } else {
            0nat
        }) == count_running(states) + (if state == ItemState::Running {
            1nat
        } else {
            0nat
        }),
    decreases states.len(),
{
    let changed = states.update(i, state);
    if i == states.len() - 1 {
        assert(changed.drop_last() == states.drop_last());
    } else {
        assert(changed.drop_last() == states.drop_last().update(i, state));
        lemma_count_update(states.drop_last(), i, state);
    }
}

/// No more items are under way than there are items, and none is where all
/// wait or are done.
pub proof fn lemma_count_bounds(states: Seq<ItemState>)
    ensures
        count_running(states) <= states.len(),
        (forall|i: int| 0 <= i < states.len() ==> states[i] != ItemState::Running)
            ==> count_running(states) == 0,
        count_running(states) == 0 ==> forall|i: int|
            0 <= i < states.len() ==> states[i] != ItemState::Running,
    decreases states.len(),
{
    if states.len() > 0 {
        lemma_count_bounds(states.drop_last());
        if count_running(states) == 0 {
            assert forall|i: int| 0 <= i < states.len() implies states[i]
                != ItemState::Running by {
                if i < states.len() - 1 {
                    assert(states.drop_last()[i] == states[i]);
                }
            }
        }
        if forall|i: int| 0 <= i < states.len() ==> states[i] != ItemState::Running {
            assert forall|i: int| 0 <= i < states.len() - 1 implies states.drop_last()[i]
                != ItemState::Running by {
                assert(states.drop_last()[i] == states[i]);
            }
        }
    }
}

impl View for Orchestrator {
    type V = Run;

    closed spec fn view(&self) -> Run {
        Run { states: self.states@, limit: self.limit as nat }
    }
}

impl Orchestrator {
    /// Whether the books are in order.
    pub closed spec fn wf(&self) -> bool {
        &&& self.running == count_running(self.states@)
        &&& self.running <= self.limit
        &&& self.started <= self.states.len()
        &&& forall|i: int| 0 <= i < self.started ==> self.states@[i] != ItemState::Pending
        &&& forall|i: int|
            self.started <= i < self.states.len() ==> self.states@[i] == ItemState::Pending
    }

    /// At every moment of a run, no more items are under way than the limit
    /// allows, whatever the number of items, and the items were started in
    /// their order.
    pub proof fn lemma_never_over_limit(&self)
        requires
            self.wf(),
        ensures
            count_running(self@.states) <= self@.limit,
            started_in_order(self@.states),
    {
    }

    /// A run with a slot to give never stands still: while it is not over,
    /// an item is under way or one can be started.
    pub proof fn lemma_never_stuck(&self)
        requires
            self.wf(),
            self@.limit > 0,
            !all_done(self@.states),
        ensures
            count_running(self@.states) > 0 || can_start(self@),
    {
        let states = self@.states;
        lemma_count_bounds(states);
        if count_running(states) == 0 {
            let i = choose|i: int| 0 <= i < states.len() && !is_terminal(#[trigger] states[i]);
            assert(states[i] == ItemState::Pending);
        }
    }

    /// The books of a run over `count` items, none of them started, with
    /// slots for `limit` at once.
    pub fn new(count: usize, limit: usize) -> (r: Orchestrator)
        ensures
            r.wf(),
            r@.limit == limit,
            r@.states == Seq::new(count as nat, |i: int| ItemState::Pending),
    {
        let mut states: Vec<ItemState> = Vec::new();
        let mut i: usize = 0;
        while i < count
            invariant
                i <= count,
                states@ == Seq::new(i as nat, |j: int| ItemState::Pending),
            decreases count - i,
        {
            states.push(ItemState::Pending);
            i += 1;
        }
        proof {
            lemma_count_bounds(states@);
        }
        Orchestrator { states, limit, running: 0, started: 0 }
    }

    /// Grants a slot to the next item that waits, if a slot is free and an
    /// item waits: that item, the first of those that wait, is then under
    /// way. Otherwise nothing changes.
    pub fn start_next(&mut self) -> (r: Option<usize>)
        requires
            old(self).wf(),
        ensures
            final(self).wf(),
            final(self)@.limit == old(self)@.limit,
            match r {
                Some(i) => {
                    &&& can_start(old(self)@)
                    &&& i == first_index_of(old(self)@.states, ItemState::Pending)
                    &&& i < old(self)@.states.len()
                    &&& final(self)@.states == old(self)@.states.update(
                        i as int,
                        ItemState::Running,
                    )
                },
                None => !can_start(old(self)@) && final(self)@ == old(self)@,
            },
    {
        let i = self.started;
        if self.running < self.limit && i < self.states.len() {
            proof {
                lemma_first_index_is(self.states@, ItemState::Pending, i as int);
                lemma_count_update(self.states@, i as int, ItemState::Running);
                assert(self.states@[i as int] == ItemState::Pending);
            }
            self.states.set(i, ItemState::Running);
            self.running = self.running + 1;
            self.started = i + 1;
            Some(i)
        } else {
            None
        }
    }

    /// Takes the report that the work on item `index` is over, and frees its
    /// slot. Items may end in any order. A report on an item that is not
    /// under way is turned down, and nothing changes.
    pub fn complete(&mut self, index: usize, completion: Completion) -> (r: bool)
        requires
            old(self).wf(),
        ensures
            final(self).wf(),
            final(self)@.limit == old(self)@.limit,
            r == (index < old(self)@.states.len() && old(self)@.states[index as int]
                == ItemState::Running),
            r ==> final(self)@.states == old(self)@.states.update(
                index as int,
                completion.final_state(),
            ),
            !r ==> final(self)@ == old(self)@,
    {
        if index < self.states.len() && self.states[index] == ItemState::Running {
            let state = completion.state();
            proof {
                lemma_count_update(self.states@, index as int, state);
            }
            self.states.set(index, state);
            self.running = self.running - 1;
            true
        } else {
            false
        }
    }

    /// Whether the run is over: every item was started and none is under way.
    pub fn is_complete(&self) -> (r: bool)
        requires
            self.wf(),
        ensures
            r == all_done(self@.states),
    {
        proof {
            lemma_count_bounds(self.states@);
            if self.started < self.states.len() {
                assert(!is_terminal(self.states@[self.started as int]));
            } else if self.running > 0 {
                let i = choose|i: int|
                    0 <= i < self.states.len() && self.states@[i] == ItemState::Running;
                assert(!is_terminal(self.states@[i]));
            }
        }
        self.started == self.states.len() && self.running == 0
    }

    /// How many items are under way.
    pub fn running(&self) -> (r: usize)
        requires
            self.wf(),
        ensures
            r == count_running(self@.states),
            r <= self@.limit,
    {
        self.running
    }

    /// How many items may be under way at once.
    pub fn limit(&self) -> (r: usize)
        ensures
            r == self@.limit,
    {
        self.limit
    }

    /// How many items the run has.
    pub fn len(&self) -> (r: usize)
        ensures
            r == self@.states.len(),
    {
        self.states.len()
    }

    /// Where item `index` stands, if there is such an item.
    pub fn state(&self, index: usize) -> (r: Option<ItemState>)
        ensures
            r == if index < self@.states.len() {
                Some(self@.states[index as int])
            } else {
                None
            },
    {
        if index < self.states.len() {
            Some(self.states[index])
        } else {
            None
        }
    }
}

/// What is to be done with the outcome of the probe of `target`. Findings
/// become rows to append, one for each, with the target in the first column;
/// an outcome without findings is passed over, and never gives a row; a
/// failure is to be reported.
pub fn plan(target: &str, outcome: &ProbeOutcome) -> (step: Step)
    ensures
        match *outcome {
            Ok(found) => if found.len() == 0 {
                step is Skip
            } else {
                step matches Step::Append(bytes) && bytes@ == rows_bytes(
                    rows_of(target@, texts(found@)),
                )
            },
            Err(e) => step == Step::Report(e),
        },
{
    match outcome {
        Ok(found) => {
            if found.len() == 0 {
                Step::Skip
            } else {
                let records = records_for(target, found);
                match encode_records(&records) {
                    Ok(bytes) => Step::Append(bytes),
                    Err(e) => Step::Refuse(e),
                }
            }
        },
        Err(e) => Step::Report(*e),
    }
}

} // verus!
