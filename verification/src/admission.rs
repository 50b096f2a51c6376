//! Admission control: a counting permit pool with a fixed capacity, and
//! round-robin assignment of admitted connections to worker lanes. The
//! surrounding program performs each decided action (dispatch or shed)
//! and reports each completed connection back.

use vstd::prelude::*;
use vstd::arithmetic::div_mod::lemma_fundamental_div_mod;
use vstd::arithmetic::div_mod::lemma_fundamental_div_mod_converse;

verus! {

/// What the acceptor loop observes: a connection arriving, or a
/// previously admitted connection finishing (its permit returning).
pub enum AdmissionEvent {
    Arrive,
    Complete,
}

/// The acceptor's shared state: the permit budget and the rotation
/// pointer for lane assignment.
pub struct Admission {
    pub capacity: usize,
    pub lane_count: usize,
    pub outstanding: usize,
    pub next_lane: usize,
}

impl Admission {
    /// Outstanding permits never exceed capacity; the rotation pointer
    /// stays within the lanes.
    pub open spec fn wf(self) -> bool {
        &&& self.lane_count >= 1
        &&& self.next_lane < self.lane_count
        &&& self.outstanding <= self.capacity
    }

    pub fn new(capacity: usize, lane_count: usize) -> (r: Admission)
        requires
            lane_count >= 1,
        ensures
            r.wf(),
            r.capacity == capacity,
            r.lane_count == lane_count,
            r.outstanding == 0,
            r.next_lane == 0,
    {
        Admission { capacity, lane_count, outstanding: 0, next_lane: 0 }
    }

    /// Decide one arriving connection: lease a permit and name the lane
    /// to dispatch to, or refuse when the pool is exhausted. The rotation
    /// pointer advances either way, one step per arrival.
    pub fn try_admit(&mut self) -> (r: Option<usize>)
        requires
            old(self).wf(),
        ensures
            final(self).wf(),
            *final(self) == spec_step(*old(self), AdmissionEvent::Arrive),
            match r {
                Some(lane) => old(self).outstanding < old(self).capacity && lane == old(
                    self,
                ).next_lane && final(self).outstanding == old(self).outstanding + 1,
                None => old(self).outstanding == old(self).capacity && final(self).outstanding
                    == old(self).outstanding,
            },
            final(self).next_lane == ((old(self).next_lane + 1) as int % old(
                self,
            ).lane_count as int) as usize,
            final(self).capacity == old(self).capacity,
            final(self).lane_count == old(self).lane_count,
    {
        let lane = self.next_lane;
        self.next_lane = (self.next_lane + 1) % self.lane_count;
        if self.outstanding < self.capacity {
            self.outstanding = self.outstanding + 1;
            Some(lane)
        } else {
            None
        }
    }

    /// Return the permit of one completed connection, successful or not.
    pub fn release(&mut self)
        requires
            old(self).wf(),
            old(self).outstanding >= 1,
        ensures
            final(self).wf(),
            *final(self) == spec_step(*old(self), AdmissionEvent::Complete),
            final(self).outstanding == old(self).outstanding - 1,
            final(self).next_lane == old(self).next_lane,
            final(self).capacity == old(self).capacity,
            final(self).lane_count == old(self).lane_count,
    {
        self.outstanding = self.outstanding - 1;
    }
}

/// One step of the admission state machine.
pub open spec fn spec_step(a: Admission, e: AdmissionEvent) -> Admission {
    match e {
        AdmissionEvent::Arrive => {
            let advanced = if a.lane_count >= 1 {
                ((a.next_lane + 1) as int % a.lane_count as int) as usize
            } else {
                0
            };
            if a.outstanding < a.capacity {
                Admission {
                    outstanding: (a.outstanding + 1) as usize,
                    next_lane: advanced,
                    ..a
                }
            } else {
                Admission { next_lane: advanced, ..a }
            }
        },
        AdmissionEvent::Complete => {
            if a.outstanding >= 1 {
                Admission { outstanding: (a.outstanding - 1) as usize, ..a }
            } else {
                a
            }
        },
    }
}

/// The state after a sequence of events.
pub open spec fn run_events(a: Admission, events: Seq<AdmissionEvent>) -> Admission
    decreases events.len(),
{
    if events.len() == 0 {
        a
    } else {
        spec_step(run_events(a, events.drop_last()), events.last())
    }
}

/// How many arrivals in `events` were granted a permit.
pub open spec fn admitted_count(a: Admission, events: Seq<AdmissionEvent>) -> nat
    decreases events.len(),
{
    if events.len() == 0 {
        0
    } else {
        admitted_count(a, events.drop_last()) + (if events.last() is Arrive && run_events(
            a,
            events.drop_last(),
        ).outstanding < run_events(a, events.drop_last()).capacity {
            1nat
        } else {
            0nat
        })
    }
}

/// How many completions `events` holds.
pub open spec fn completed_count(events: Seq<AdmissionEvent>) -> nat
    decreases events.len(),
{
    if events.len() == 0 {
        0
    } else {
        completed_count(events.drop_last()) + (if events.last() is Complete {
            1nat
        } else {
            0nat
        })
    }
}

/// Permit accounting: starting idle, as long as completions are reported
/// only for granted admissions, the leased permits are exactly the
/// admissions not yet completed, never exceed the capacity, and return
/// to zero once every admitted connection has completed.
pub proof fn lemma_permit_accounting(a: Admission, events: Seq<AdmissionEvent>)
    requires
        a.wf(),
        a.outstanding == 0,
        forall|m: int|
            0 <= m <= events.len() ==> completed_count(#[trigger] events.take(m)) <= admitted_count(
                a,
                events.take(m),
            ),
    ensures
        run_events(a, events).wf(),
        run_events(a, events).capacity == a.capacity,
        run_events(a, events).lane_count == a.lane_count,
        run_events(a, events).outstanding == admitted_count(a, events) - completed_count(events),
        run_events(a, events).outstanding <= a.capacity,
        admitted_count(a, events) == completed_count(events) ==> run_events(
            a,
            events,
        ).outstanding == 0,
    decreases events.len(),
{
    if events.len() > 0 {
        let prefix = events.drop_last();
        assert forall|m: int|
            0 <= m <= prefix.len() implies completed_count(#[trigger] prefix.take(m))
            <= admitted_count(a, prefix.take(m)) by {
            assert(prefix.take(m) =~= events.take(m));
        }
        lemma_permit_accounting(a, prefix);
        assert(events.take(events.len() as int) =~= events);
        assert(prefix =~= events.take(events.len() - 1));
    }
}

/// How many of the first `k` rotation steps starting at lane `s` land on
/// `lane`, with `n` lanes.
pub open spec fn rr_count(s: nat, k: nat, n: nat, lane: nat) -> nat
    decreases k,
{
    if k == 0 {
        0
    } else {
        rr_count(s, (k - 1) as nat, n, lane) + (if (s + k - 1) % (n as int) == lane {
            1nat
        } else {
            0nat
        })
    }
}

/// Rotation hits `lane` at step `k` exactly when `k` is congruent to the
/// lane's offset from the starting lane.
proof fn lemma_rr_hit(s: nat, k: nat, n: nat, lane: nat)
    requires
        n >= 1,
        s < n,
        lane < n,
    ensures
        ((s + k) as int % (n as int) == lane) <==> ((lane + n - s) % (n as int) == k as int % (n as int)),
{
    let ni = n as int;
    lemma_fundamental_div_mod(k as int, ni);
    let q = k as int / ni;
    let r = k as int % ni;
    if s + r < n {
        lemma_fundamental_div_mod_converse((s + k) as int, ni, q, (s + r) as int);
    } else {
        assert((q + 1) * ni == q * ni + ni) by (nonlinear_arith);
        lemma_fundamental_div_mod_converse((s + k) as int, ni, q + 1, s + r - n);
    }
    if lane >= s {
        lemma_fundamental_div_mod_converse((lane + n - s) as int, ni, 1, (lane - s) as int);
    } else {
        lemma_fundamental_div_mod_converse((lane + n - s) as int, ni, 0, (lane + n - s) as int);
    }
}

/// The exact share of `k` rotation steps a lane receives.
proof fn lemma_rr_count_formula(s: nat, k: nat, n: nat, lane: nat)
    requires
        n >= 1,
        s < n,
        lane < n,
    ensures
        rr_count(s, k, n, lane) == k as int / n as int + (if (lane + n - s) % (n as int) < k as int
            % n as int {
            1int
        } else {
            0int
        }),
    decreases k,
{
    let ni = n as int;
    if k == 0 {
        assert(0int / ni == 0 && 0int % ni == 0) by (nonlinear_arith)
            requires
                ni >= 1,
        ;
    } else {
        let m = (k - 1) as nat;
        lemma_rr_count_formula(s, m, n, lane);
        lemma_rr_hit(s, m, n, lane);
        lemma_fundamental_div_mod(m as int, ni);
        let q = m as int / ni;
        let r = m as int % ni;
        if r + 1 < n {
            lemma_fundamental_div_mod_converse(k as int, ni, q, r + 1);
        } else {
            assert((q + 1) * ni == q * ni + ni) by (nonlinear_arith);
            lemma_fundamental_div_mod_converse(k as int, ni, q + 1, 0);
        }
        lemma_fundamental_div_mod((lane + n - s) as int, ni);
    }
}

/// Round-robin fairness: over any `k` consecutive admissions across `n`
/// lanes, every lane is assigned either the floor or the ceiling of
/// `k / n` connections.
pub proof fn lemma_round_robin_fairness(s: nat, k: nat, n: nat, lane: nat)
    requires
        n >= 1,
        s < n,
        lane < n,
    ensures
        rr_count(s, k, n, lane) == k as int / n as int || rr_count(s, k, n, lane) == (k + n - 1)
            as int / n as int,
        k as int % n as int == 0 ==> rr_count(s, k, n, lane) == k as int / n as int,
    decreases k,
{
    let ni = n as int;
    lemma_rr_count_formula(s, k, n, lane);
    lemma_fundamental_div_mod(k as int, ni);
    let q = k as int / ni;
    let r = k as int % ni;
    if r == 0 {
        lemma_fundamental_div_mod_converse((k + n - 1) as int, ni, q, ni - 1);
    } else {
        assert((q + 1) * ni == q * ni + ni) by (nonlinear_arith);
        lemma_fundamental_div_mod_converse((k + n - 1) as int, ni, q + 1, r - 1);
    }
    lemma_fundamental_div_mod((lane + n - s) as int, ni);
}

} // verus!
