//! Counting the pulses of a number of trigger cycles.

use vstd::prelude::*;
use crate::pulse::module::BeamType;
use crate::pulse::network::{Graph, GraphState, Pulse, RunError};

verus! {

/// How many pulses of a log have the given level.
pub open spec fn count_beam(log: Seq<Pulse>, beam: BeamType) -> nat {
    log.filter(|p: Pulse| p.beam == beam).len()
}

/// How many pulses of the given level the first `cycles` trigger cycles
/// deliver, the memory of the modules carrying over from each cycle to the
/// next.
pub open spec fn total(g: GraphState, beam: BeamType, cycles: nat, limit: nat) -> nat
    decreases cycles,
{
    if cycles == 0 {
        0
    } else {
        total(g, beam, (cycles - 1) as nat, limit) + count_beam(
            g.after((cycles - 1) as nat, limit).pulses(limit),
            beam,
        )
    }
}

/// Every pulse is Low or High, so the two counts make up the log.
pub proof fn lemma_counts_sum(log: Seq<Pulse>)
    ensures
        count_beam(log, BeamType::Low) + count_beam(log, BeamType::High) == log.len(),
    decreases log.len(),
{
    let low = |p: Pulse| p.beam == BeamType::Low;
    let high = |p: Pulse| p.beam == BeamType::High;
    if log.len() == 0 {
        assert(log.filter(low).len() == 0);
        assert(log.filter(high).len() == 0);
    } else {
        let front = log.drop_last();
        lemma_counts_sum(front);
        assert(log =~= front.push(log.last()));
        front.lemma_filter_push(log.last(), low);
        front.lemma_filter_push(log.last(), high);
    }
}

/// Cycles that settle within `limit` deliveries deliver at most `limit`
/// pulses each.
pub proof fn lemma_total_bound(g: GraphState, beam: BeamType, cycles: nat, limit: nat)
    requires
        g.settles_for(cycles, limit),
    ensures
        total(g, beam, cycles, limit) <= cycles * limit,
    decreases cycles,
{
    if cycles > 0 {
        let c = (cycles - 1) as nat;
        assert(g.settles_for(c, limit));
        lemma_total_bound(g, beam, c, limit);
        let h = g.after(c, limit);
        assert(h.settles(limit));
        h.cycle().lemma_sent_grows(limit);
        let log = h.pulses(limit);
        lemma_counts_sum(log);
        assert(log.len() <= limit);
        assert(c * limit + limit == cycles * limit) by (nonlinear_arith)
            requires
                c + 1 == cycles,
        ;
    }
}

/// Counts the Low and the High pulses of a log.
pub fn tally(log: &Vec<Pulse>) -> (counts: (usize, usize))
    ensures
        counts.0 == count_beam(log@, BeamType::Low),
        counts.1 == count_beam(log@, BeamType::High),
{
    let mut low: usize = 0;
    let mut high: usize = 0;
    let mut i: usize = 0;
    while i < log.len()
        invariant
            i <= log@.len(),
            low == count_beam(log@.take(i as int), BeamType::Low),
            high == count_beam(log@.take(i as int), BeamType::High),
        decreases log@.len() - i,
    {
        proof {
            let front = log@.take(i as int);
            assert(log@.take(i + 1) =~= front.push(log@[i as int]));
            front.lemma_filter_push(log@[i as int], |p: Pulse| p.beam == BeamType::Low);
            front.lemma_filter_push(log@[i as int], |p: Pulse| p.beam == BeamType::High);
            lemma_counts_sum(log@.take(i + 1));
        }
        if log[i].beam == BeamType::Low {
            low += 1;
        } else {
            high += 1;
        }
        i += 1;
    }
    assert(log@.take(log@.len() as int) =~= log@);
    (low, high)
}

impl Graph {
    /// Runs `cycles` trigger cycles, each of at most `limit` deliveries, on
    /// this one network, whose modules keep their memory from cycle to cycle,
    /// and returns how many Low and how many High pulses were delivered in all.
    ///
    /// Stops with `Unsettled` at the first cycle that has pulses in flight
    /// after `limit` deliveries.
    pub fn count_pulses(&mut self, cycles: usize, limit: usize) -> (totals: Result<
        (u128, u128),
        RunError,
    >)
        requires
            old(self).wf(),
        ensures
            final(self).wf(),
            match totals {
                Ok((low, high)) => {
                    &&& old(self)@.settles_for(cycles as nat, limit as nat)
                    &&& low == total(old(self)@, BeamType::Low, cycles as nat, limit as nat)
                    &&& high == total(old(self)@, BeamType::High, cycles as nat, limit as nat)
                    &&& final(self)@ == old(self)@.after(cycles as nat, limit as nat)
                },
                Err(e) => {
                    &&& e == RunError::Unsettled
                    &&& exists|k: nat|
                        {
                            &&& k < cycles
                            &&& old(self)@.settles_for(k, limit as nat)
                            &&& !(#[trigger] old(self)@.after(k, limit as nat)).settles(
                                limit as nat,
                            )
                            &&& final(self)@ == old(self)@.after(k + 1, limit as nat)
                        }
                },
            },
    {
        let ghost g = self@;
        let mut low: u128 = 0;
        let mut high: u128 = 0;
        let mut done: usize = 0;
        while done < cycles
            invariant
                self.wf(),
                g == old(self)@,
                done <= cycles,
                g.settles_for(done as nat, limit as nat),
                self@ == g.after(done as nat, limit as nat),
                low == total(g, BeamType::Low, done as nat, limit as nat),
                high == total(g, BeamType::High, done as nat, limit as nat),
            decreases cycles - done,
        {
            proof {
                lemma_total_bound(g, BeamType::Low, done as nat, limit as nat);
                lemma_total_bound(g, BeamType::High, done as nat, limit as nat);
                assert(done * limit + limit <= u128::MAX) by (nonlinear_arith)
                    requires
                        done <= usize::MAX,
                        limit <= usize::MAX,
                        usize::MAX <= u64::MAX,
                ;
            }
            match self.run_cycle(limit) {
                Ok(log) => {
                    let (l, h) = tally(&log);
                    proof {
                        lemma_counts_sum(log@);
                    }
                    low = low + l as u128;
                    high = high + h as u128;
                },
                Err(e) => {
                    assert(self@ == g.after((done + 1) as nat, limit as nat));
                    return Err(e);
                },
            }
            done += 1;
            assert(g.settles_for(done as nat, limit as nat)) by {
                assert forall|i: nat| i < done implies (#[trigger] g.after(
                    i,
                    limit as nat,
                )).settles(limit as nat) by {
                    if i < done - 1 {
                    }
                }
            }
        }
        Ok((low, high))
    }
}

} // verus!
