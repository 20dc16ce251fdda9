//! The worker that shares its work: after a decision it offers the other
//! branch of that decision to its peers, and when it has backtracked to the
//! decision it looks whether the offer is still there. When it runs out of
//! work it steals an offer from a peer.

use crate::decision_path::{path_assignment, path_distinct, path_in_range, DecisionPath};
use crate::deque::{deque_len, deque_pop, deque_push, deque_steal, path_into_inner};
use crate::dpll::DPLLSolver;
use crate::lit::Lit;
use crate::clause::{clause_falsified, clause_in_range, lit_false};
use crate::models::{covered, formula_in_range, stirred};
use crate::opt_bool::OptBool;
use crate::partial_assignment::AssignmentView;
use crate::problem::Problem;
use crate::signals::{count, is_set};
use crate::utils::{find_coprime_to, Backoff, BackoffStep, BackoffView, VecExt};
use crate::worker::{NewWork, WorkerStrategy};
use crossbeam_deque::Stealer;
use crossbeam_deque::Worker;
use std::sync::atomic::AtomicBool;
use std::sync::atomic::AtomicUsize;
use std::sync::Arc;
use vstd::prelude::*;

verus! {

/// The number of offers that a worker keeps in its deque at most.
pub const QUEUE_LIMIT: usize = 10;

/// A branch is offered only if at least about this many variables are left
/// undecided in it: smaller branches are not worth a steal.
pub const MIN_SUBPROBLEM_SIZE: usize = 113;

/// The largest number of peers of a worker.
pub const MAX_PEERS: usize = 0xFFFF;

/// The deepest level at which a formula of `num_vars` variables offers
/// branches.
pub open spec fn offer_depth(num_vars: nat) -> nat {
    let by_size = if num_vars >= MIN_SUBPROBLEM_SIZE {
        (num_vars - MIN_SUBPROBLEM_SIZE) as nat
    } else {
        0
    };
    if by_size >= num_vars / 8 {
        by_size
    } else {
        num_vars / 8
    }
}

/// The victim that is tried after `victim`.
pub open spec fn next_victim(victim: nat, stride: nat, num_peers: nat) -> nat {
    (victim + stride) % num_peers
}

/// The victim that is tried behind `tries` others, from `start` on.
pub open spec fn victim_after(start: nat, stride: nat, num_peers: nat, tries: nat) -> nat
    decreases tries,
{
    if tries == 0 {
        start
    } else {
        next_victim(victim_after(start, stride, num_peers, (tries - 1) as nat), stride, num_peers)
    }
}

/// The value of the last decision, or unassigned where there is none.
pub open spec fn last_decision_of(a: AssignmentView) -> OptBool {
    if a.marks.len() == 0 {
        OptBool::Unassigned
    } else {
        a.state[a.decision_var(a.marks.len() - 1) as int]
    }
}

/// Whether the other branch of the last decision is offered: the decision
/// is on its first branch, its level is not beyond the depth for offers,
/// and the deque has room.
pub open spec fn offers(a: AssignmentView, max_offer_depth: nat, queue_len: nat) -> bool {
    last_decision_of(a) == OptBool::True && a.marks.len() <= max_offer_depth && queue_len
        < QUEUE_LIMIT
}

/// The path that is offered: the decisions, the last one switched to its
/// second branch.
pub open spec fn offered_path(decisions: Seq<Lit>) -> Seq<Lit> {
    decisions.drop_last().push(decisions.last().spec_negated())
}

/// Whether the other branch of the last decision may be on offer: the
/// decision is on its first branch, and its level is neither beyond the
/// depth for offers nor beyond the deepest level offered.
pub open spec fn may_be_on_offer(
    a: AssignmentView,
    max_offer_depth: nat,
    deepest_offered_level: nat,
) -> bool {
    last_decision_of(a) == OptBool::True && a.marks.len() <= max_offer_depth && a.marks.len()
        <= deepest_offered_level
}

/// An offer can be searched as soundly as the branch that it was split
/// from. Take a search just after a decision, in which every clause that
/// is falsified holds the literal that the decision has made false. Then
/// every clause that the decisions of the offered path falsify holds the
/// literal that the switch of the last decision makes false: a solver that
/// takes up the offer overlooks no falsified clause.
pub proof fn lemma_offer_vetted(formula: Seq<Seq<Lit>>, a: AssignmentView)
    requires
        a.wf(),
        formula_in_range(formula, a.state.len()),
        a.marks.len() > 0,
        last_decision_of(a) == OptBool::True,
        covered(
            formula,
            a.state,
            seq![a.decisions().last().spec_inverted()],
            Set::empty(),
            false,
        ),
    ensures
        path_in_range(offered_path(a.decisions()), a.state.len()),
        path_distinct(offered_path(a.decisions())),
        covered(
            formula,
            path_assignment(offered_path(a.decisions()), a.state.len()),
            seq![offered_path(a.decisions()).last().spec_inverted()],
            Set::empty(),
            false,
        ),
{
    let n = a.state.len();
    let decisions = a.decisions();
    let last = decisions.len() - 1;
    let offer = offered_path(decisions);
    let var = decisions[last].spec_var();
    a.lemma_decisions_path();
    assert(var < n);
    assert(a.state[var as int] == OptBool::True);
    assert(decisions[last].spec_is_pos());
    let seed = offer.last().spec_inverted();
    let chased = decisions.last().spec_inverted();
    assert(offer.len() == decisions.len());
    assert(offer[last] == decisions[last].spec_negated());
    assert(offer[last].spec_var() == var && !offer[last].spec_is_pos());
    assert(seed.spec_var() == var && seed.spec_is_pos());
    assert(chased.spec_var() == var && !chased.spec_is_pos());
    assert forall|i: int| 0 <= i < offer.len() implies (#[trigger] offer[i]).spec_var()
        == decisions[i].spec_var() by {
        if i < last {
            assert(offer[i] == decisions[i]);
        }
    }
    assert(path_in_range(offer, n));
    assert(path_distinct(offer)) by {
        assert forall|i: int, j: int| 0 <= i < j < offer.len() implies (
        #[trigger] offer[i]).spec_var() != (#[trigger] offer[j]).spec_var() by {
            assert(decisions[i].spec_var() != decisions[j].spec_var());
        }
    }
    crate::decision_path::lemma_path_assignment(offer, n);
    let stolen = path_assignment(offer, n);
    assert forall|c: int|
        0 <= c < formula.len() && stirred(
            stolen,
            #[trigger] formula[c],
            false,
        ) implies Set::<int>::empty().contains(c) || exists|k: int|
        0 <= k < seq![seed].len() && formula[c].contains(#[trigger] seq![seed][k]) by {
        let clause = formula[c];
        assert(clause_in_range(clause, n));
        assert(clause_falsified(stolen, clause));
        if !clause.contains(seed) {
            assert forall|i: int| 0 <= i < clause.len() implies lit_false(
                a.state,
                #[trigger] clause[i],
            ) by {
                let lit = clause[i];
                let v = lit.spec_var() as int;
                assert(lit_false(stolen, lit));
                assert(stolen[v] != OptBool::Unassigned);
                let j = choose|j: int| 0 <= j < offer.len() && (#[trigger] offer[j]).spec_var() == v;
                assert(stolen[offer[j].spec_var() as int] == OptBool::of(offer[j].spec_is_pos()));
                if j == last {
                    assert(lit.spec_is_pos());
                    assert(lit.0 == seed.0);
                    assert(clause.contains(seed));
                } else {
                    assert(offer[j] == decisions[j]);
                    assert(a.state[decisions[j].spec_var() as int] == OptBool::of(
                        decisions[j].spec_is_pos(),
                    ));
                }
            }
            assert(stirred(a.state, clause, false));
            let k = choose|k: int|
                0 <= k < seq![chased].len() && clause.contains(#[trigger] seq![chased][k]);
            assert(clause.contains(chased));
            let at = choose|at: int| 0 <= at < clause.len() && clause[at] == chased;
            assert(lit_false(stolen, clause[at]));
            assert(stolen[offer[last].spec_var() as int] == OptBool::of(
                offer[last].spec_is_pos(),
            ));
            assert(false);
        }
        assert(seq![seed][0] == seed);
    }
}

/// Something that a stealing worker has done, for the record.
#[derive(Debug, Clone, Copy, PartialEq, Eq, Structural)]
pub enum StealEvent {
    /// It stole an offer from the peer of this id.
    StoleFrom(usize),
    /// It went round its peers and got nothing.
    FailedToSteal,
    /// It found its offer stolen and stopped backtracking.
    WorkWasStolen,
    /// It made a new path, since the pool had none.
    AllocatedPath,
    /// Its deque held this many offers when it thought of offering.
    QueueLength(u64),
    /// It made no offer, since the level was beyond the depth for offers.
    PathExceedsOfferThreshold,
    /// It put an offer into its deque.
    PushIntoQueue,
    /// It took its own offer back from its deque.
    PopFromQueue,
    /// It made no offer, since its deque was full.
    QueueFull,
}

/// What thinking of an offer puts on record: nothing on the second branch
/// of a decision; else the length of the deque, and then why no offer was
/// made, or that one was pushed, on a new path where the pool had none.
pub open spec fn offer_events(
    a: AssignmentView,
    max_offer_depth: nat,
    queue_len: usize,
    pool_empty: bool,
) -> Seq<StealEvent> {
    if last_decision_of(a) != OptBool::True {
        Seq::empty()
    } else if a.marks.len() > max_offer_depth {
        seq![StealEvent::QueueLength(queue_len as u64), StealEvent::PathExceedsOfferThreshold]
    } else if queue_len >= QUEUE_LIMIT {
        seq![StealEvent::QueueLength(queue_len as u64), StealEvent::QueueFull]
    } else if pool_empty {
        seq![
            StealEvent::QueueLength(queue_len as u64),
            StealEvent::AllocatedPath,
            StealEvent::PushIntoQueue,
        ]
    } else {
        seq![StealEvent::QueueLength(queue_len as u64), StealEvent::PushIntoQueue]
    }
}

/// A worker that offers branches to its peers and steals from them.
pub struct StealingWorker {
    _id: usize,
    /// The offers of this worker.
    local_queue: Worker<Arc<DecisionPath>>,
    /// The deques of the peers, each with the id of its owner.
    peer_queues: Vec<(Stealer<Arc<DecisionPath>>, usize)>,
    /// The deepest level at which branches are offered.
    max_offer_depth: usize,
    /// The number of offers kept at most.
    queue_capacity: usize,
    /// The deepest level at which a branch was offered.
    deepest_offered_level: usize,
    /// Paths to be used again.
    path_pool: Vec<DecisionPath>,
    /// The pace of the tries to steal.
    steal_backoff: Backoff,
    /// The peer from which the last steal succeeded.
    last_victim_idx: usize,
    /// The step from one victim to the next.
    steal_stride: usize,
    /// Whether what the worker does is put on record.
    recording: bool,
    /// What was put on record and not yet taken.
    record: Vec<StealEvent>,
}

impl StealingWorker {
    /// The number of peers.
    pub closed spec fn num_peers(&self) -> nat {
        self.peer_queues@.len()
    }

    /// The deepest level at which branches are offered.
    pub closed spec fn max_offer_depth(&self) -> nat {
        self.max_offer_depth as nat
    }

    /// The deepest level at which a branch was offered.
    pub closed spec fn deepest_offered_level(&self) -> nat {
        self.deepest_offered_level as nat
    }

    /// The peer at which the next round of steals starts.
    pub closed spec fn last_victim(&self) -> nat {
        self.last_victim_idx as nat
    }

    /// The step from one victim to the next.
    pub closed spec fn stride(&self) -> nat {
        self.steal_stride as nat
    }

    /// The pace of the tries to steal.
    pub closed spec fn pace(&self) -> BackoffView {
        self.steal_backoff@
    }

    /// Whether what the worker does is put on record.
    pub closed spec fn is_recording(&self) -> bool {
        self.recording
    }

    /// What was put on record and not yet taken, oldest first.
    pub closed spec fn recorded(&self) -> Seq<StealEvent> {
        self.record@
    }

    /// The id of the peer at place `victim`.
    pub closed spec fn peer_id(&self, victim: int) -> usize {
        self.peer_queues@[victim].1
    }

    /// The record of this worker is that of `before` with `events` added,
    /// if `before` was recording, and the same if not.
    pub open spec fn records(&self, before: &Self, events: Seq<StealEvent>) -> bool {
        &&& self.is_recording() == before.is_recording()
        &&& forall|victim: int| self.peer_id(victim) == before.peer_id(victim)
        &&& self.recorded() == if before.is_recording() && events.len() > 0 {
            before.recorded() + events
        } else {
            before.recorded()
        }
    }

    /// The paths that are kept to be written into again, each as the
    /// literals that it still holds; the last one is handed out first.
    pub closed spec fn pooled(&self) -> Seq<Seq<Lit>> {
        Seq::new(self.path_pool@.len(), |i: int| self.path_pool@[i]@)
    }

    /// Whether the worker offers the other branch of the last decision of
    /// `a` when its deque holds `queue_len` offers.
    pub open spec fn offers_at(&self, a: AssignmentView, queue_len: nat) -> bool {
        offers(a, self.max_offer_depth(), queue_len)
    }

    /// There are peers, and the victim and the stride fit them.
    pub closed spec fn well_formed(&self) -> bool {
        &&& 0 < self.peer_queues@.len() <= MAX_PEERS
        &&& self.last_victim_idx < self.peer_queues@.len()
        &&& 1 <= self.steal_stride <= 281
        &&& self.queue_capacity == QUEUE_LIMIT
    }

    /// A worker with its own deque and the thieves' ends of the deques of
    /// its peers. There must be a peer.
    pub fn new(
        id: usize,
        local_queue: Worker<Arc<DecisionPath>>,
        peer_queues: Vec<(Stealer<Arc<DecisionPath>>, usize)>,
    ) -> (worker: StealingWorker)
        requires
            0 < peer_queues@.len() <= MAX_PEERS,
        ensures
            worker.well_formed(),
            worker.num_peers() == peer_queues@.len(),
            worker.last_victim() == (id as int) % (peer_queues@.len() as int),
            worker.stride() == crate::utils::spec_stride(id, peer_queues@.len() as usize),
            worker.max_offer_depth() == 0,
            worker.deepest_offered_level() == 0,
            worker.pooled() == Seq::<Seq<Lit>>::empty(),
            !worker.is_recording(),
            worker.recorded() == Seq::<StealEvent>::empty(),
            forall|victim: int|
                0 <= victim < peer_queues@.len() ==> worker.peer_id(victim)
                    == peer_queues@[victim].1,
    {
        let steal_stride = find_coprime_to(id, peer_queues.len());
        let last_victim_idx = id % peer_queues.len();
        StealingWorker {
            _id: id,
            local_queue,
            peer_queues,
            max_offer_depth: 0,
            queue_capacity: QUEUE_LIMIT,
            deepest_offered_level: 0,
            path_pool: Vec::with_capacity(QUEUE_LIMIT),
            steal_backoff: Backoff::new(8, 16, 1_000, 12_000_000, 1200),
            last_victim_idx,
            steal_stride,
            recording: false,
            record: Vec::new(),
        }
    }

    /// Turns the record on or off.
    pub fn set_recording(&mut self, on: bool)
        requires
            old(self).well_formed(),
        ensures
            final(self).well_formed(),
            final(self).is_recording() == on,
            final(self).recorded() == old(self).recorded(),
            forall|victim: int| final(self).peer_id(victim) == old(self).peer_id(victim),
            final(self).num_peers() == old(self).num_peers(),
            final(self).stride() == old(self).stride(),
            final(self).last_victim() == old(self).last_victim(),
            final(self).max_offer_depth() == old(self).max_offer_depth(),
            final(self).deepest_offered_level() == old(self).deepest_offered_level(),
            final(self).pace() == old(self).pace(),
            final(self).pooled() == old(self).pooled(),
    {
        self.recording = on;
    }

    /// Hands over what is on record, oldest first, and starts the record
    /// anew.
    pub fn take_record(&mut self) -> (taken: Vec<StealEvent>)
        requires
            old(self).well_formed(),
        ensures
            final(self).well_formed(),
            taken@ == old(self).recorded(),
            final(self).recorded() == Seq::<StealEvent>::empty(),
            final(self).is_recording() == old(self).is_recording(),
            forall|victim: int| final(self).peer_id(victim) == old(self).peer_id(victim),
            final(self).num_peers() == old(self).num_peers(),
            final(self).stride() == old(self).stride(),
            final(self).last_victim() == old(self).last_victim(),
            final(self).max_offer_depth() == old(self).max_offer_depth(),
            final(self).deepest_offered_level() == old(self).deepest_offered_level(),
            final(self).pace() == old(self).pace(),
            final(self).pooled() == old(self).pooled(),
    {
        let mut taken: Vec<StealEvent> = Vec::new();
        std::mem::swap(&mut taken, &mut self.record);
        taken
    }

    /// Puts an event on record, if the worker is recording.
    fn note(&mut self, event: StealEvent)
        requires
            old(self).well_formed(),
        ensures
            final(self).well_formed(),
            final(self).records(old(self), seq![event]),
            final(self).num_peers() == old(self).num_peers(),
            final(self).stride() == old(self).stride(),
            final(self).last_victim() == old(self).last_victim(),
            final(self).max_offer_depth() == old(self).max_offer_depth(),
            final(self).deepest_offered_level() == old(self).deepest_offered_level(),
            final(self).pace() == old(self).pace(),
            final(self).pooled() == old(self).pooled(),
    {
        if self.recording {
            self.record.push(event);
            proof {
                assert(self.record@ =~= old(self).record@ + seq![event]);
            }
        }
    }

    /// What the worker makes of one try at the peer `victim`: it keeps what
    /// it got, and a peer that has yielded an offer becomes the victim at
    /// which the next round starts.
    pub fn note_try(&mut self, victim: usize, found: Option<Arc<DecisionPath>>) -> (loot: Option<
        Arc<DecisionPath>,
    >)
        requires
            old(self).well_formed(),
            victim < old(self).num_peers(),
        ensures
            final(self).well_formed(),
            final(self).num_peers() == old(self).num_peers(),
            final(self).stride() == old(self).stride(),
            final(self).max_offer_depth() == old(self).max_offer_depth(),
            final(self).deepest_offered_level() == old(self).deepest_offered_level(),
            final(self).pace() == old(self).pace(),
            final(self).pooled() == old(self).pooled(),
            loot == found,
            final(self).last_victim() == if found is Some {
                victim as nat
            } else {
                old(self).last_victim()
            },
            final(self).records(
                old(self),
                if found is Some {
                    seq![StealEvent::StoleFrom(old(self).peer_id(victim as int))]
                } else {
                    Seq::empty()
                },
            ),
    {
        if found.is_some() {
            self.last_victim_idx = victim;
            let peer = self.peer_queues[victim].1;
            self.note(StealEvent::StoleFrom(peer));
        }
        found
    }

    /// Goes round the peers once, from the last victim on in steps of the
    /// stride, and steals the first offer that it can get. A peer that
    /// yields one becomes the last victim.
    pub fn try_steal_from_peers(&mut self) -> (stolen: Option<Arc<DecisionPath>>)
        requires
            old(self).well_formed(),
        ensures
            final(self).well_formed(),
            final(self).num_peers() == old(self).num_peers(),
            final(self).stride() == old(self).stride(),
            final(self).max_offer_depth() == old(self).max_offer_depth(),
            final(self).deepest_offered_level() == old(self).deepest_offered_level(),
            final(self).pace() == old(self).pace(),
            final(self).pooled() == old(self).pooled(),
            final(self).records(
                old(self),
                if stolen is Some {
                    seq![StealEvent::StoleFrom(old(self).peer_id(final(self).last_victim() as int))]
                } else {
                    seq![StealEvent::FailedToSteal]
                },
            ),
            stolen is None ==> final(self).last_victim() == old(self).last_victim(),
            stolen is Some ==> exists|tries: nat|
                tries < old(self).num_peers() && final(self).last_victim() == #[trigger] victim_after(
                    old(self).last_victim(),
                    old(self).stride(),
                    old(self).num_peers(),
                    tries,
                ),
    {
        let num_peers = self.peer_queues.len();
        let mut victim_idx = self.last_victim_idx;
        let mut tries: usize = 0;
        while tries < num_peers
            invariant
                self.well_formed(),
                self.num_peers() == old(self).num_peers(),
                self.stride() == old(self).stride(),
                self.last_victim() == old(self).last_victim(),
                self.max_offer_depth() == old(self).max_offer_depth(),
                self.deepest_offered_level() == old(self).deepest_offered_level(),
                self.pace() == old(self).pace(),
                self.pooled() == old(self).pooled(),
                self.is_recording() == old(self).is_recording(),
                self.recorded() == old(self).recorded(),
                forall|victim: int| self.peer_id(victim) == old(self).peer_id(victim),
                num_peers == self.peer_queues@.len(),
                victim_idx < num_peers,
                tries <= num_peers,
                victim_idx == victim_after(
                    old(self).last_victim(),
                    old(self).stride(),
                    old(self).num_peers(),
                    tries as nat,
                ),
            decreases num_peers - tries,
        {
            let found = deque_steal(&self.peer_queues[victim_idx].0);
            match self.note_try(victim_idx, found) {
                Some(path) => {
                    return Some(path);
                },
                None => {},
            }
            victim_idx = (victim_idx + self.steal_stride) % num_peers;
            tries = tries + 1;
        }
        self.note(StealEvent::FailedToSteal);
        None
    }

    /// The offer that is due after a decision, if one is: the decisions so
    /// far with the last one switched to its second branch. It is due if the
    /// last decision is on its first branch, its level is not beyond the
    /// depth for offers, and the deque, which holds `current_q_len` offers,
    /// has room.
    ///
    /// Where the solver is vetted and has just made the decision, a solver
    /// that takes up the offer is vetted too.
    pub fn offer(&mut self, solver: &DPLLSolver, current_q_len: usize) -> (offer: Option<
        DecisionPath,
    >)
        requires
            old(self).well_formed(),
            solver.wf(),
        ensures
            final(self).well_formed(),
            final(self).num_peers() == old(self).num_peers(),
            final(self).stride() == old(self).stride(),
            final(self).last_victim() == old(self).last_victim(),
            final(self).max_offer_depth() == old(self).max_offer_depth(),
            final(self).deepest_offered_level() == old(self).deepest_offered_level(),
            final(self).pace() == old(self).pace(),
            final(self).pooled() == if offer is Some && old(self).pooled().len() > 0 {
                old(self).pooled().drop_last()
            } else {
                old(self).pooled()
            },
            final(self).records(
                old(self),
                offer_events(
                    solver@,
                    old(self).max_offer_depth(),
                    current_q_len,
                    old(self).pooled().len() == 0,
                ),
            ),
            offer is Some <==> offers(solver@, old(self).max_offer_depth(), current_q_len as nat),
            offer matches Some(path) ==> path@ == offered_path(solver@.decisions()),
            offer matches Some(path) ==> (solver.is_vetted() && solver.search_ok(
                seq![solver@.decisions().last().spec_inverted()],
                Set::empty(),
            ) ==> covered(
                solver.formula(),
                path_assignment(path@, solver.num_vars()),
                seq![path@.last().spec_inverted()],
                Set::empty(),
                false,
            )),
    {
        match solver.assignment().last_decision() {
            OptBool::True => {},
            _ => {
                return None;
            },
        }
        let level = solver.assignment().decision_level();
        let ghost start = self.recorded();
        let ghost seen = StealEvent::QueueLength(current_q_len as u64);
        self.note(StealEvent::QueueLength(current_q_len as u64));
        if level > self.max_offer_depth {
            self.note(StealEvent::PathExceedsOfferThreshold);
            proof {
                assert(start + seq![seen] + seq![StealEvent::PathExceedsOfferThreshold] =~= start
                    + seq![seen, StealEvent::PathExceedsOfferThreshold]);
            }
            return None;
        }
        if current_q_len >= self.queue_capacity {
            self.note(StealEvent::QueueFull);
            proof {
                assert(start + seq![seen] + seq![StealEvent::QueueFull] =~= start + seq![
                    seen,
                    StealEvent::QueueFull,
                ]);
            }
            return None;
        }
        let mut path = self.get_or_create_decision_path();
        self.note(StealEvent::PushIntoQueue);
        proof {
            assert(start + seq![seen] + seq![StealEvent::PushIntoQueue] =~= start + seq![
                seen,
                StealEvent::PushIntoQueue,
            ]);
            assert(start + seq![seen] + seq![StealEvent::AllocatedPath] + seq![
                StealEvent::PushIntoQueue,
            ] =~= start + seq![seen, StealEvent::AllocatedPath, StealEvent::PushIntoQueue]);
        }
        path.0.clear();
        solver.assignment().extract_decisions(&mut path.0);
        let length = path.0.len();
        let last_lit = path.0[length - 1];
        path.0.set(length - 1, last_lit.negated());
        proof {
            assert(path@ =~= offered_path(solver@.decisions()));
            let chased = solver@.decisions().last().spec_inverted();
            if solver.is_vetted() && solver.search_ok(seq![chased], Set::empty()) {
                solver.lemma_wf();
                let formula = solver.formula();
                assert forall|c: int|
                    0 <= c < formula.len() && stirred(
                        solver@.state,
                        #[trigger] formula[c],
                        false,
                    ) implies Set::<int>::empty().contains(c) || exists|k: int|
                    0 <= k < seq![chased].len() && formula[c].contains(
                        #[trigger] seq![chased][k],
                    ) by {
                    assert(stirred(solver@.state, formula[c], solver.is_saturated()));
                }
                lemma_offer_vetted(formula, solver@);
            }
        }
        Some(path)
    }

    /// Whether the other branch of the last decision may be on offer.
    pub fn offered_here(&self, solver: &DPLLSolver) -> (on_offer: bool)
        requires
            self.well_formed(),
            solver.wf(),
        ensures
            on_offer == may_be_on_offer(
                solver@,
                self.max_offer_depth(),
                self.deepest_offered_level(),
            ),
    {
        match solver.assignment().last_decision() {
            OptBool::True => {},
            _ => {
                return false;
            },
        }
        let current_level = solver.assignment().decision_level();
        !(current_level > self.max_offer_depth || current_level > self.deepest_offered_level)
    }

    /// A path to write an offer into: the last one of the pool, which
    /// leaves the pool, or a new and empty one where the pool is empty.
    fn get_or_create_decision_path(&mut self) -> (path: DecisionPath)
        requires
            old(self).well_formed(),
        ensures
            final(self).well_formed(),
            final(self).num_peers() == old(self).num_peers(),
            final(self).stride() == old(self).stride(),
            final(self).last_victim() == old(self).last_victim(),
            final(self).max_offer_depth() == old(self).max_offer_depth(),
            final(self).deepest_offered_level() == old(self).deepest_offered_level(),
            final(self).pace() == old(self).pace(),
            final(self).records(
                old(self),
                if old(self).pooled().len() > 0 {
                    Seq::empty()
                } else {
                    seq![StealEvent::AllocatedPath]
                },
            ),
            path@ == if old(self).pooled().len() > 0 {
                old(self).pooled().last()
            } else {
                Seq::<Lit>::empty()
            },
            final(self).pooled() == if old(self).pooled().len() > 0 {
                old(self).pooled().drop_last()
            } else {
                old(self).pooled()
            },
    {
        let ghost before = self.pooled();
        match self.path_pool.pop() {
            Some(path) => {
                proof {
                    assert(path@ == before.last());
                    assert(self.pooled() =~= before.drop_last());
                }
                path
            },
            None => {
                proof {
                    assert(self.pooled() =~= before);
                }
                self.note(StealEvent::AllocatedPath);
                let room = if self.max_offer_depth < usize::MAX {
                    self.max_offer_depth + 1
                } else {
                    self.max_offer_depth
                };
                DecisionPath(Vec::with_capacity(room))
            },
        }
    }

    /// Keeps the path of an offer that has come back, to be used again, if
    /// no one else holds it and the pool has room: the path then joins the
    /// pool as its last one. A full pool stays as it is.
    fn recycle(&mut self, offer: Arc<DecisionPath>)
        requires
            old(self).well_formed(),
        ensures
            final(self).well_formed(),
            final(self).num_peers() == old(self).num_peers(),
            final(self).stride() == old(self).stride(),
            final(self).last_victim() == old(self).last_victim(),
            final(self).max_offer_depth() == old(self).max_offer_depth(),
            final(self).deepest_offered_level() == old(self).deepest_offered_level(),
            final(self).pace() == old(self).pace(),
            final(self).records(old(self), Seq::empty()),
            final(self).pooled() == old(self).pooled() || final(self).pooled() == old(self).pooled().push((*offer)@),
            old(self).pooled().len() >= QUEUE_LIMIT ==> final(self).pooled() == old(self).pooled(),
    {
        if self.path_pool.len() < self.queue_capacity {
            let inner = path_into_inner(offer);
            self.keep(inner);
        }
    }

    /// Puts a path that has come back whole into the pool, as its last
    /// one.
    fn keep(&mut self, inner: Option<DecisionPath>)
        requires
            old(self).well_formed(),
        ensures
            final(self).well_formed(),
            final(self).num_peers() == old(self).num_peers(),
            final(self).stride() == old(self).stride(),
            final(self).last_victim() == old(self).last_victim(),
            final(self).max_offer_depth() == old(self).max_offer_depth(),
            final(self).deepest_offered_level() == old(self).deepest_offered_level(),
            final(self).pace() == old(self).pace(),
            final(self).records(old(self), Seq::empty()),
            final(self).pooled() == match inner {
                Some(path) => old(self).pooled().push(path@),
                None => old(self).pooled(),
            },
    {
        let ghost before = self.pooled();
        match inner {
            Some(path) => {
                self.path_pool.push(path);
                proof {
                    assert(self.pooled() =~= before.push(path@));
                }
            },
            None => {},
        }
    }

    /// Builds a solver for a stolen branch. Returns it with the literal
    /// that the last decision of the branch has made false. A path that
    /// cannot start a search gives nothing: an empty one, or one that is
    /// not valid for the formula. The path goes back into the pool.
    ///
    /// The solver is vetted if every clause that the decisions of the
    /// branch falsify holds that literal, as is the case for the offer of
    /// a vetted solver.
    pub fn adopt<'p>(&mut self, problem: &'p Problem, stolen: Arc<DecisionPath>) -> (adopted:
        Option<(Lit, DPLLSolver<'p>)>)
        requires
            old(self).well_formed(),
            problem.wf(),
        ensures
            final(self).well_formed(),
            final(self).num_peers() == old(self).num_peers(),
            final(self).stride() == old(self).stride(),
            final(self).last_victim() == old(self).last_victim(),
            final(self).max_offer_depth() == old(self).max_offer_depth(),
            final(self).deepest_offered_level() == old(self).deepest_offered_level(),
            final(self).pace() == old(self).pace(),
            final(self).records(old(self), Seq::empty()),
            final(self).pooled() == old(self).pooled() || final(self).pooled() == old(self).pooled().push(stolen@),
            adopted is Some <==> stolen@.len() > 0 && path_in_range(
                stolen@,
                problem.spec_num_vars(),
            ) && path_distinct(stolen@),
            adopted matches Some((falsified, solver)) ==> {
                &&& solver.wf()
                &&& solver.formula() == problem.spec_clauses()
                &&& solver.num_vars() == problem.spec_num_vars()
                &&& solver.lit_in_range(falsified)
                &&& solver.search_ok(seq![falsified], Set::empty())
                &&& falsified == stolen@.last().spec_inverted()
                &&& solver@.state == path_assignment(stolen@, problem.spec_num_vars())
                &&& solver@.initial_level == stolen@.len()
                &&& solver@.decisions() == stolen@
                &&& solver@.trail.len() == stolen@.len()
                &&& solver.handed_out() == Seq::<Seq<Lit>>::empty()
                &&& solver.is_vetted() == covered(
                    problem.spec_clauses(),
                    path_assignment(stolen@, problem.spec_num_vars()),
                    seq![falsified],
                    Set::empty(),
                    false,
                )
            },
    {
        let length = stolen.0.len();
        if length == 0 || !stolen.is_valid_for(problem.num_vars()) {
            self.recycle(stolen);
            return None;
        }
        let (falsified_lit, solver) = DPLLSolver::with_switched_decision(problem, &stolen);
        self.recycle(stolen);
        Some((falsified_lit, solver))
    }

    /// What an idle worker does when a round of steals has brought
    /// nothing: it gives up, which is the answer nothing, if a solution was
    /// found or no worker is busy any more; else it waits, at the pace of
    /// its backoff, before it looks again.
    pub fn idle_step(&mut self, solution_found: bool, num_active: usize) -> (step: Option<
        BackoffStep,
    >)
        requires
            old(self).well_formed(),
        ensures
            final(self).well_formed(),
            final(self).num_peers() == old(self).num_peers(),
            final(self).stride() == old(self).stride(),
            final(self).last_victim() == old(self).last_victim(),
            final(self).max_offer_depth() == old(self).max_offer_depth(),
            final(self).deepest_offered_level() == old(self).deepest_offered_level(),
            final(self).pooled() == old(self).pooled(),
            final(self).records(old(self), Seq::empty()),
            step == if solution_found || num_active == 0 {
                None
            } else {
                Some(old(self).pace().step())
            },
            final(self).pace() == if solution_found || num_active == 0 {
                old(self).pace()
            } else {
                old(self).pace().waited()
            },
    {
        if solution_found || num_active == 0 {
            return None;
        }
        Some(self.steal_backoff.wait())
    }

    /// The level of the offer that a path stands for: the level of its
    /// last decision.
    pub open spec fn level_of(path: Seq<Lit>) -> nat {
        if path.len() > 0 {
            (path.len() - 1) as nat
        } else {
            0
        }
    }

    /// What the worker makes of a look into its own deque at a level whose
    /// other branch may be on offer. Where the newest offer is still there,
    /// the worker has taken it back: it searches the branch itself, and the
    /// deepest level on offer is now that of the offer before. Where the
    /// deque is empty, a thief has the branch, and the worker stops.
    pub fn take_back(&mut self, taken: Option<Arc<DecisionPath>>) -> (stop: bool)
        requires
            old(self).well_formed(),
        ensures
            final(self).well_formed(),
            final(self).num_peers() == old(self).num_peers(),
            final(self).stride() == old(self).stride(),
            final(self).last_victim() == old(self).last_victim(),
            final(self).max_offer_depth() == old(self).max_offer_depth(),
            final(self).pace() == old(self).pace(),
            final(self).pooled() == old(self).pooled() || (taken matches Some(path)
                && final(self).pooled() == old(self).pooled().push(path@)),
            stop == (taken is None),
            final(self).deepest_offered_level() == match taken {
                Some(path) => Self::level_of(path@),
                None => old(self).deepest_offered_level(),
            },
            final(self).records(
                old(self),
                if taken is Some {
                    seq![StealEvent::PopFromQueue]
                } else {
                    seq![StealEvent::WorkWasStolen]
                },
            ),
    {
        match taken {
            Some(path) => {
                self.note(StealEvent::PopFromQueue);
                let length = path.0.len();
                self.deepest_offered_level = if length > 0 {
                    length - 1
                } else {
                    0
                };
                self.recycle(path);
                false
            },
            None => {
                self.note(StealEvent::WorkWasStolen);
                true
            },
        }
    }
}

impl WorkerStrategy for StealingWorker {
    open spec fn wf(&self) -> bool {
        self.well_formed()
    }

    /// All that is on record is handed over, and the record starts anew.
    /// Nothing else changes.
    open spec fn handed_over(&self, taken: Seq<StealEvent>, next: &Self) -> bool {
        &&& taken == self.recorded()
        &&& next.recorded() == Seq::<StealEvent>::empty()
        &&& next.is_recording() == self.is_recording()
        &&& next.max_offer_depth() == self.max_offer_depth()
        &&& next.deepest_offered_level() == self.deepest_offered_level()
        &&& next.num_peers() == self.num_peers()
        &&& next.stride() == self.stride()
        &&& next.last_victim() == self.last_victim()
        &&& next.pace() == self.pace()
        &&& next.pooled() == self.pooled()
    }

    /// Hands over what is on record.
    fn hand_over_record(&mut self) -> (taken: Vec<StealEvent>) {
        self.take_record()
    }

    /// The depth for offers is set for the problem, and the pool is filled
    /// up with empty paths. Peers, stride, victim and what was in the pool
    /// stay.
    open spec fn told_problem(&self, problem: &Problem, next: &Self) -> bool {
        &&& next.max_offer_depth() == offer_depth(problem.spec_num_vars())
        &&& next.num_peers() == self.num_peers()
        &&& next.stride() == self.stride()
        &&& next.last_victim() == self.last_victim()
        &&& next.pace() == self.pace()
        &&& next.records(self, Seq::empty())
        &&& next.deepest_offered_level() == self.deepest_offered_level()
        &&& next.pooled().len() >= self.pooled().len()
        &&& next.pooled().len() >= QUEUE_LIMIT
        &&& forall|i: int|
            0 <= i < next.pooled().len() ==> #[trigger] next.pooled()[i] == if i
                < self.pooled().len() {
                self.pooled()[i]
            } else {
                Seq::<Lit>::empty()
            }
    }

    /// The level at which the branch starts becomes the deepest level
    /// offered, and paths of offers that were left may join the pool.
    /// Depth, peers, stride and victim stay.
    open spec fn told_subproblem(&self, solver: &DPLLSolver, next: &Self) -> bool {
        &&& next.deepest_offered_level() == solver@.marks.len()
        &&& next.max_offer_depth() == self.max_offer_depth()
        &&& next.num_peers() == self.num_peers()
        &&& next.stride() == self.stride()
        &&& next.last_victim() == self.last_victim()
        &&& next.pace() == self.pace()
        &&& next.records(self, Seq::empty())
        &&& next.pooled().len() >= self.pooled().len()
        &&& next.pooled().take(self.pooled().len() as int) == self.pooled()
    }

    /// For some number of offers in the deque: if the offer is due at that
    /// number, the level of the decision becomes the deepest level offered
    /// and the pool gives up its last path; if not, nothing changes. What
    /// was thought of the offer goes on record.
    open spec fn told_decision(&self, solver: &DPLLSolver, next: &Self) -> bool {
        &&& next.max_offer_depth() == self.max_offer_depth()
        &&& next.num_peers() == self.num_peers()
        &&& next.stride() == self.stride()
        &&& next.last_victim() == self.last_victim()
        &&& next.pace() == self.pace()
        &&& exists|queue_len: usize|
            {
                let due = #[trigger] self.offers_at(solver@, queue_len as nat);
                &&& next.deepest_offered_level() == if due {
                    solver@.marks.len() as nat
                } else {
                    self.deepest_offered_level()
                }
                &&& next.pooled() == if due && self.pooled().len() > 0 {
                    self.pooled().drop_last()
                } else {
                    self.pooled()
                }
                &&& next.records(
                    self,
                    offer_events(
                        solver@,
                        self.max_offer_depth(),
                        queue_len,
                        self.pooled().len() == 0,
                    ),
                )
            }
    }

    /// A branch found starts from the decisions of a stolen path, with the
    /// literal that the last of them has made false; the backoff starts
    /// over, and the peer that gave the path is the next to be tried.
    /// Giving up leaves the backoff as it is, and a wait is the next step
    /// of the backoff.
    open spec fn looked_for_work(&self, problem: &Problem, work: &NewWork, next: &Self) -> bool {
        &&& next.max_offer_depth() == self.max_offer_depth()
        &&& next.num_peers() == self.num_peers()
        &&& next.stride() == self.stride()
        &&& next.deepest_offered_level() == self.deepest_offered_level()
        &&& *work matches NewWork::Found(falsified, solver) ==> {
            &&& next.records(
                self,
                seq![StealEvent::StoleFrom(self.peer_id(next.last_victim() as int))],
            )
            &&& next.pace() == self.pace().restarted()
            &&& solver@.initial_level > 0
            &&& solver@.marks.len() == solver@.initial_level
            &&& solver@.trail.len() == solver@.initial_level
            &&& falsified == solver@.decisions().last().spec_inverted()
            &&& path_in_range(solver@.decisions(), problem.spec_num_vars())
            &&& path_distinct(solver@.decisions())
            &&& solver@.state == path_assignment(solver@.decisions(), problem.spec_num_vars())
            &&& solver.handed_out() == Seq::<Seq<Lit>>::empty()
            &&& exists|tries: nat|
                tries < self.num_peers() && next.last_victim() == #[trigger] victim_after(
                    self.last_victim(),
                    self.stride(),
                    self.num_peers(),
                    tries,
                )
        }
        &&& !(*work is Found) ==> next.records(self, seq![StealEvent::FailedToSteal])
            || next.records(
            self,
            seq![StealEvent::StoleFrom(self.peer_id(next.last_victim() as int))],
        )
        &&& *work is GiveUp ==> next.pace() == self.pace()
        &&& *work matches NewWork::Retry(step) ==> step == self.pace().step() && next.pace()
            == self.pace().waited()
    }

    /// The worker stops only at a level whose other branch may be on
    /// offer, and then nothing changes. An offer taken back sets the
    /// deepest level offered to the level before its own, and its path
    /// may join the pool.
    open spec fn asked_to_halt(&self, solver: &DPLLSolver, stop: bool, next: &Self) -> bool {
        let open_offer = may_be_on_offer(
            solver@,
            self.max_offer_depth(),
            self.deepest_offered_level(),
        );
        &&& next.max_offer_depth() == self.max_offer_depth()
        &&& next.num_peers() == self.num_peers()
        &&& next.stride() == self.stride()
        &&& next.last_victim() == self.last_victim()
        &&& next.pace() == self.pace()
        &&& stop ==> open_offer
        &&& next.records(
            self,
            if !open_offer {
                Seq::empty()
            } else if stop {
                seq![StealEvent::WorkWasStolen]
            } else {
                seq![StealEvent::PopFromQueue]
            },
        )
        &&& stop || !open_offer ==> next.deepest_offered_level() == self.deepest_offered_level()
            && next.pooled() == self.pooled()
        &&& !stop && open_offer ==> exists|taken: Seq<Lit>|
            next.deepest_offered_level() == #[trigger] Self::level_of(taken) && (next.pooled()
                == self.pooled() || next.pooled() == self.pooled().push(taken))
    }

    /// Sets the depth down to which branches are offered, and makes the
    /// pooled paths wide enough for the new problem.
    fn on_new_problem(&mut self, problem: &Problem) {
        let ghost before = self.pooled();
        let num_vars = problem.num_vars();
        let by_size = if num_vars >= MIN_SUBPROBLEM_SIZE {
            num_vars - MIN_SUBPROBLEM_SIZE
        } else {
            0
        };
        let by_share = num_vars / 8;
        self.max_offer_depth = if by_size >= by_share {
            by_size
        } else {
            by_share
        };
        let pooled = self.path_pool.len();
        let mut i: usize = 0;
        while i < pooled
            invariant
                self.well_formed(),
                pooled == self.path_pool@.len(),
                i <= pooled,
                self.max_offer_depth == offer_depth(problem.spec_num_vars()),
                self.peer_queues == old(self).peer_queues,
                self.steal_stride == old(self).steal_stride,
                self.last_victim_idx == old(self).last_victim_idx,
                self.pace() == old(self).pace(),
                self.deepest_offered_level() == old(self).deepest_offered_level(),
                self.records(old(self), Seq::empty()),
                before == old(self).pooled(),
                self.pooled() == before,
            decreases pooled - i,
        {
            self.path_pool[i].0.ensure_capacity(num_vars);
            proof {
                assert(self.pooled() =~= before);
            }
            i = i + 1;
        }
        while self.path_pool.len() < self.queue_capacity
            invariant
                self.well_formed(),
                self.max_offer_depth == offer_depth(problem.spec_num_vars()),
                self.peer_queues == old(self).peer_queues,
                self.steal_stride == old(self).steal_stride,
                self.last_victim_idx == old(self).last_victim_idx,
                self.pace() == old(self).pace(),
                self.deepest_offered_level() == old(self).deepest_offered_level(),
                self.records(old(self), Seq::empty()),
                before == old(self).pooled(),
                self.pooled().len() >= before.len(),
                forall|i: int|
                    0 <= i < self.pooled().len() ==> #[trigger] self.pooled()[i] == if i
                        < before.len() {
                        before[i]
                    } else {
                        Seq::<Lit>::empty()
                    },
            decreases self.queue_capacity - self.path_pool@.len(),
        {
            let decisions: Vec<Lit> = Vec::with_capacity(num_vars);
            let ghost earlier = self.pooled();
            self.path_pool.push(DecisionPath(decisions));
            proof {
                assert(self.pooled() =~= earlier.push(Seq::<Lit>::empty()));
            }
        }
    }

    /// Notes the level at which the branch starts, and takes back the
    /// offers that are left from the branch before.
    fn on_new_subproblem(&mut self, solver: &DPLLSolver) {
        let ghost before = self.pooled();
        self.deepest_offered_level = solver.assignment().decision_level();
        proof {
            assert(before.take(before.len() as int) =~= before);
        }
        let waiting = deque_len(&self.local_queue);
        let mut taken: usize = 0;
        while taken < waiting
            invariant
                self.well_formed(),
                taken <= waiting,
                self.deepest_offered_level() == solver@.marks.len(),
                self.max_offer_depth() == old(self).max_offer_depth(),
                self.num_peers() == old(self).num_peers(),
                self.stride() == old(self).stride(),
                self.last_victim() == old(self).last_victim(),
                self.pace() == old(self).pace(),
                self.records(old(self), Seq::empty()),
                before == old(self).pooled(),
                self.pooled().len() >= before.len(),
                self.pooled().take(before.len() as int) == before,
            decreases waiting - taken,
        {
            match deque_pop(&self.local_queue) {
                Some(path) => {
                    let ghost earlier = self.pooled();
                    self.recycle(path);
                    proof {
                        assert(self.pooled().take(before.len() as int) =~= earlier.take(
                            before.len() as int,
                        ));
                    }
                },
                None => {
                    return ;
                },
            }
            taken = taken + 1;
        }
    }

    /// Offers the other branch of the decision just made, if an offer is
    /// due: the path of the offer goes into the deque.
    ///
    /// Whether the offer is due depends on the number of offers that the
    /// deque holds at that moment. Where it is due, the level of the
    /// decision becomes the deepest level offered, and the path for the
    /// offer is taken from the pool if the pool has one.
    fn after_decision(&mut self, solver: &DPLLSolver) {
        let current_q_len = deque_len(&self.local_queue);
        match self.offer(solver, current_q_len) {
            Some(path) => {
                deque_push(&self.local_queue, Arc::new(path));
                self.deepest_offered_level = solver.assignment().decision_level();
            },
            None => {},
        }
        proof {
            assert(old(self).offers_at(solver@, current_q_len as nat) == offers(
                solver@,
                old(self).max_offer_depth(),
                current_q_len as nat,
            ));
        }
    }

    /// One try to steal a branch: a round of the peers, and if that yields
    /// nothing, the finding that the search is over, or a wait.
    fn find_new_work<'p>(
        &mut self,
        problem: &'p Problem,
        solution_found_flag: &AtomicBool,
        num_active_workers: &AtomicUsize,
    ) -> (work: NewWork<'p>) {
        match self.try_steal_from_peers() {
            Some(stolen_path) => {
                match self.adopt(problem, stolen_path) {
                    Some((falsified_lit, solver)) => {
                        self.steal_backoff.reset();
                        return NewWork::Found(falsified_lit, solver);
                    },
                    None => {},
                }
            },
            None => {},
        }
        let solution_found = is_set(solution_found_flag);
        let num_active = count(num_active_workers);
        match self.idle_step(solution_found, num_active) {
            Some(step) => NewWork::Retry(step),
            None => NewWork::GiveUp,
        }
    }

    /// Whether the branch that backtracking would enter next belongs to a
    /// thief. At a level whose other branch may be on offer, the worker
    /// takes the newest offer back from its deque. If there is none, the
    /// offer was stolen, and the worker stops. An offer taken back sets the
    /// deepest level offered to the level before its own, and its path goes
    /// to the pool if that has room. At any other level nothing changes.
    fn should_stop_backtracking_early(&mut self, solver: &DPLLSolver) -> (stop: bool) {
        if !self.offered_here(solver) {
            return false;
        }
        let taken = deque_pop(&self.local_queue);
        let ghost back = taken;
        let stop = self.take_back(taken);
        proof {
            if back is Some {
                assert(self.deepest_offered_level() == Self::level_of(back->0@));
            }
        }
        stop
    }
}

} // verus!
