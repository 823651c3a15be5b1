//! Extrapolating the trigger cycle at which a sink is reached, from the
//! cycles at which each of its gates first sends High.
//!
//! The prediction rests on an assumption about the network that nothing here
//! checks: that each gate is a counter of its own, which sends High to the
//! sink every so many cycles and first at the end of its first period. Then
//! the gates send High together for the first time at the least common
//! multiple of those cycles. On other networks the number returned is that
//! multiple all the same, and it need not be the cycle at which the sink is
//! reached.

use vstd::prelude::*;
use crate::arith::{common_multiple, is_lcm, lcm_of_list};
use crate::pulse::module::BeamType;
use crate::pulse::network::{Graph, GraphState, Pulse, RunError};

verus! {

/// In trigger cycle number `cycle`, counted from 1, a High pulse from `gate`
/// is delivered to `sink`.
pub open spec fn fires(g: GraphState, gate: usize, sink: usize, cycle: nat, limit: nat) -> bool {
    cycle >= 1 && g.after((cycle - 1) as nat, limit).pulses(limit).contains(
        Pulse { from: gate, to: sink, beam: BeamType::High },
    )
}

/// `gate` has sent High to `sink` in one of the first `cycles` cycles.
pub open spec fn fired_by(g: GraphState, gate: usize, sink: usize, cycles: nat, limit: nat) -> bool {
    exists|c: nat| 1 <= c <= cycles && fires(g, gate, sink, c, limit)
}

/// `cycle` is the first cycle in which `gate` sends High to `sink`.
pub open spec fn first_high(g: GraphState, gate: usize, sink: usize, cycle: nat, limit: nat) -> bool {
    fires(g, gate, sink, cycle, limit) && !fired_by(g, gate, sink, (cycle - 1) as nat, limit)
}

/// Every gate has sent High to `sink` in one of the first `cycles` cycles.
pub open spec fn all_fired(
    g: GraphState,
    gates: Seq<usize>,
    sink: usize,
    cycles: nat,
    limit: nat,
) -> bool {
    forall|k: int| 0 <= k < gates.len() ==> fired_by(g, #[trigger] gates[k], sink, cycles, limit)
}

/// The last of the cycles: the greatest of them, and 0 where there is none.
pub open spec fn last_of(firsts: Seq<u64>) -> nat
    decreases firsts.len(),
{
    if firsts.len() == 0 {
        0
    } else if firsts.last() > last_of(firsts.drop_last()) {
        firsts.last() as nat
    } else {
        last_of(firsts.drop_last())
    }
}

/// `firsts` holds, for each gate in turn, the cycle in which it first sends
/// High to `sink`, none of them later than `max_cycles`, and every cycle up
/// to the last of them settles.
pub open spec fn first_highs_are(
    g: GraphState,
    sink: usize,
    gates: Seq<usize>,
    max_cycles: nat,
    limit: nat,
    firsts: Seq<u64>,
) -> bool {
    &&& firsts.len() == gates.len()
    &&& forall|k: int|
        0 <= k < gates.len() ==> first_high(g, gates[k], sink, (#[trigger] firsts[k]) as nat, limit)
            && firsts[k] <= max_cycles
    &&& g.settles_for(last_of(firsts), limit)
}

/// What a prediction for `sink` and its `gates` may answer on network `g`.
///
/// - A cycle: each gate first sends High in some cycle up to `max_cycles`,
///   every cycle until the last of them settles, and the answer is the least
///   common multiple of those first cycles.
/// - `Overflow`: the same, but that multiple does not fit in 64 bits.
/// - `Unsettled`: a cycle is unsettled after `limit` deliveries, and before
///   it not every gate has sent High.
/// - `NoPeriod`: `max_cycles` cycles settle and some gate sends no High in
///   them.
///
/// No network meets two of these with different answers: see
/// `lemma_one_prediction`.
pub open spec fn prediction(
    g: GraphState,
    sink: usize,
    gates: Seq<usize>,
    max_cycles: nat,
    limit: nat,
    at: Result<u64, RunError>,
) -> bool {
    match at {
        Ok(cycle) => exists|firsts: Seq<u64>|
            {
                &&& #[trigger] first_highs_are(g, sink, gates, max_cycles, limit, firsts)
                &&& is_lcm(firsts, cycle as nat)
            },
        Err(RunError::Overflow) => exists|firsts: Seq<u64>|
            {
                &&& #[trigger] first_highs_are(g, sink, gates, max_cycles, limit, firsts)
                &&& forall|m: nat| is_lcm(firsts, m) ==> m > u64::MAX
            },
        Err(RunError::Unsettled) => exists|c: nat|
            {
                &&& c < max_cycles
                &&& g.settles_for(c, limit)
                &&& !(#[trigger] g.after(c, limit)).settles(limit)
                &&& !all_fired(g, gates, sink, c, limit)
            },
        Err(RunError::NoPeriod) => {
            &&& g.settles_for(max_cycles, limit)
            &&& !all_fired(g, gates, sink, max_cycles, limit)
        },
        Err(RunError::NoSink) => false,
    }
}

/// The network that a prediction with the answer `at` leaves behind: the
/// network `g` after the cycles that the search has run. These are the
/// cycles up to the last in which a gate first sends High; or the cycles up
/// to and with the one that is unsettled; or `max_cycles` cycles.
pub open spec fn searched(
    g: GraphState,
    sink: usize,
    gates: Seq<usize>,
    max_cycles: nat,
    limit: nat,
    at: Result<u64, RunError>,
    end: GraphState,
) -> bool {
    match at {
        Err(RunError::Unsettled) => exists|c: nat|
            {
                &&& c < max_cycles
                &&& g.settles_for(c, limit)
                &&& !(#[trigger] g.after(c, limit)).settles(limit)
                &&& !all_fired(g, gates, sink, c, limit)
                &&& end == g.after(c + 1, limit)
            },
        Err(RunError::NoPeriod) => end == g.after(max_cycles, limit),
        Err(RunError::NoSink) => end == g,
        _ => exists|firsts: Seq<u64>|
            {
                &&& #[trigger] first_highs_are(g, sink, gates, max_cycles, limit, firsts)
                &&& end == g.after(last_of(firsts), limit)
            },
    }
}

/// The last of the cycles is none of them or one of them, and none is
/// later.
pub proof fn lemma_last_of(firsts: Seq<u64>)
    ensures
        forall|k: int| 0 <= k < firsts.len() ==> #[trigger] firsts[k] <= last_of(firsts),
        firsts.len() == 0 ==> last_of(firsts) == 0,
        firsts.len() > 0 ==> exists|k: int|
            0 <= k < firsts.len() && #[trigger] firsts[k] == last_of(firsts),
    decreases firsts.len(),
{
    if firsts.len() > 0 {
        let front = firsts.drop_last();
        lemma_last_of(front);
        assert forall|k: int| 0 <= k < firsts.len() implies #[trigger] firsts[k] <= last_of(
            firsts,
        ) by {
            if k < front.len() {
                assert(front[k] == firsts[k]);
            }
        }
        if firsts.last() > last_of(front) || front.len() == 0 {
            assert(firsts[firsts.len() - 1] == last_of(firsts));
        } else {
            let k = choose|k: int| 0 <= k < front.len() && #[trigger] front[k] == last_of(front);
            assert(firsts[k] == last_of(firsts));
        }
    }
}

/// A gate sends its first High in one cycle only.
pub proof fn lemma_one_first_high(
    g: GraphState,
    gate: usize,
    sink: usize,
    a: nat,
    b: nat,
    limit: nat,
)
    requires
        first_high(g, gate, sink, a, limit),
        first_high(g, gate, sink, b, limit),
    ensures
        a == b,
{
    if a < b {
        assert(1 <= a <= b - 1 && fires(g, gate, sink, a, limit));
    }
    if b < a {
        assert(1 <= b <= a - 1 && fires(g, gate, sink, b, limit));
    }
}

/// Where every gate has its first High, all gates have sent High by the
/// last of those cycles, and by every later one.
pub proof fn lemma_all_fired(
    g: GraphState,
    sink: usize,
    gates: Seq<usize>,
    max_cycles: nat,
    limit: nat,
    firsts: Seq<u64>,
    cycles: nat,
)
    requires
        first_highs_are(g, sink, gates, max_cycles, limit, firsts),
        last_of(firsts) <= cycles,
    ensures
        all_fired(g, gates, sink, cycles, limit),
        last_of(firsts) <= max_cycles,
{
    lemma_last_of(firsts);
    assert forall|k: int| 0 <= k < gates.len() implies fired_by(
        g,
        #[trigger] gates[k],
        sink,
        cycles,
        limit,
    ) by {
        let c = firsts[k] as nat;
        assert(first_high(g, gates[k], sink, c, limit));
        assert(1 <= c <= cycles && fires(g, gates[k], sink, c, limit));
    }
    if firsts.len() > 0 {
        let k = choose|k: int| 0 <= k < firsts.len() && #[trigger] firsts[k] == last_of(firsts);
    }
}

/// The gates have one list of first cycles.
pub proof fn lemma_same_firsts(
    g: GraphState,
    sink: usize,
    gates: Seq<usize>,
    max_cycles: nat,
    limit: nat,
    x: Seq<u64>,
    y: Seq<u64>,
)
    requires
        first_highs_are(g, sink, gates, max_cycles, limit, x),
        first_highs_are(g, sink, gates, max_cycles, limit, y),
    ensures
        x == y,
{
    assert(x =~= y) by {
        assert forall|k: int| 0 <= k < x.len() implies x[k] == y[k] by {
            lemma_one_first_high(g, gates[k], sink, x[k] as nat, y[k] as nat, limit);
        }
    }
}

/// The first cycle that is unsettled is one cycle.
pub proof fn lemma_one_unsettled(g: GraphState, a: nat, b: nat, limit: nat)
    requires
        g.settles_for(a, limit),
        !g.after(a, limit).settles(limit),
        g.settles_for(b, limit),
        !g.after(b, limit).settles(limit),
    ensures
        a == b,
{
    if a < b {
        assert(g.after(a, limit).settles(limit));
    }
    if b < a {
        assert(g.after(b, limit).settles(limit));
    }
}

/// A prediction leaves one network behind: two searches on equal networks
/// with one answer end in equal networks.
pub proof fn lemma_one_end(
    g: GraphState,
    sink: usize,
    gates: Seq<usize>,
    max_cycles: nat,
    limit: nat,
    at: Result<u64, RunError>,
    a: GraphState,
    b: GraphState,
)
    requires
        searched(g, sink, gates, max_cycles, limit, at, a),
        searched(g, sink, gates, max_cycles, limit, at, b),
    ensures
        a == b,
{
    match at {
        Err(RunError::Unsettled) => {
            let c = choose|c: nat|
                {
                    &&& c < max_cycles
                    &&& g.settles_for(c, limit)
                    &&& !(#[trigger] g.after(c, limit)).settles(limit)
                    &&& !all_fired(g, gates, sink, c, limit)
                    &&& a == g.after(c + 1, limit)
                };
            let d = choose|d: nat|
                {
                    &&& d < max_cycles
                    &&& g.settles_for(d, limit)
                    &&& !(#[trigger] g.after(d, limit)).settles(limit)
                    &&& !all_fired(g, gates, sink, d, limit)
                    &&& b == g.after(d + 1, limit)
                };
            lemma_one_unsettled(g, c, d, limit);
        },
        Err(RunError::NoPeriod) => {},
        Err(RunError::NoSink) => {},
        _ => {
            let x = choose|x: Seq<u64>|
                #[trigger] first_highs_are(g, sink, gates, max_cycles, limit, x) && a == g.after(
                    last_of(x),
                    limit,
                );
            let y = choose|y: Seq<u64>|
                #[trigger] first_highs_are(g, sink, gates, max_cycles, limit, y) && b == g.after(
                    last_of(y),
                    limit,
                );
            lemma_same_firsts(g, sink, gates, max_cycles, limit, x, y);
        },
    }
}

/// The prediction is one: a network, a sink and its gates have one answer
/// within given bounds.
pub proof fn lemma_one_prediction(
    g: GraphState,
    sink: usize,
    gates: Seq<usize>,
    max_cycles: nat,
    limit: nat,
    a: Result<u64, RunError>,
    b: Result<u64, RunError>,
)
    requires
        prediction(g, sink, gates, max_cycles, limit, a),
        prediction(g, sink, gates, max_cycles, limit, b),
    ensures
        a == b,
{
    if found(a) {
        lemma_other(g, sink, gates, max_cycles, limit, a, b);
    }
    if found(b) {
        lemma_other(g, sink, gates, max_cycles, limit, b, a);
    }
    if found(a) && found(b) {
        let x = lemma_witness(g, sink, gates, max_cycles, limit, a);
        let y = lemma_witness(g, sink, gates, max_cycles, limit, b);
        lemma_same_firsts(g, sink, gates, max_cycles, limit, x, y);
        match (a, b) {
            (Ok(p), Ok(q)) => {
                assert(is_lcm(x, p as nat) && is_lcm(x, q as nat));
                if !x.contains(0) {
                    assert(p <= q && q <= p);
                }
            },
            (Ok(p), _) => {
                assert(is_lcm(x, p as nat));
            },
            (_, Ok(q)) => {
                assert(is_lcm(x, q as nat));
            },
            _ => {},
        }
    } else if a != b {
        let (u, n) = if a == Err::<u64, RunError>(RunError::Unsettled) {
            (a, b)
        } else {
            (b, a)
        };
        let c = choose|c: nat|
            c < max_cycles && g.settles_for(c, limit) && !(#[trigger] g.after(c, limit)).settles(
                limit,
            ) && !all_fired(g, gates, sink, c, limit);
        assert(g.after(c, limit).settles(limit));
    }
}

/// Where each gate first sends High in the cycle that `firsts` gives for
/// it, and the cycles up to the last of them settle, the prediction is the
/// least common multiple of those cycles and nothing else.
pub proof fn lemma_prediction_is_lcm(
    g: GraphState,
    sink: usize,
    gates: Seq<usize>,
    max_cycles: nat,
    limit: nat,
    firsts: Seq<u64>,
    multiple: u64,
    at: Result<u64, RunError>,
)
    requires
        first_highs_are(g, sink, gates, max_cycles, limit, firsts),
        is_lcm(firsts, multiple as nat),
        prediction(g, sink, gates, max_cycles, limit, at),
    ensures
        at == Ok::<u64, RunError>(multiple),
{
    let expected = Ok::<u64, RunError>(multiple);
    assert(prediction(g, sink, gates, max_cycles, limit, expected));
    lemma_one_prediction(g, sink, gates, max_cycles, limit, at, expected);
}

/// The last of the cycles with one more is the later of the two.
pub proof fn lemma_last_of_push(front: Seq<u64>, cycle: u64)
    ensures
        last_of(front.push(cycle)) == if cycle > last_of(front) {
            cycle as nat
        } else {
            last_of(front)
        },
{
    assert(front.push(cycle).drop_last() =~= front);
    assert(front.push(cycle).last() == cycle);
}

/// A sink with three gates that first send High in the cycles 4, 6 and 10,
/// each of the first ten cycles settling, is predicted to be reached in
/// cycle 60.
pub proof fn lemma_four_six_ten(
    g: GraphState,
    sink: usize,
    gates: Seq<usize>,
    max_cycles: nat,
    limit: nat,
    at: Result<u64, RunError>,
)
    requires
        gates.len() == 3,
        first_high(g, gates[0], sink, 4, limit),
        first_high(g, gates[1], sink, 6, limit),
        first_high(g, gates[2], sink, 10, limit),
        g.settles_for(10, limit),
        max_cycles >= 10,
        prediction(g, sink, gates, max_cycles, limit, at),
    ensures
        at == Ok::<u64, RunError>(60),
{
    let none = Seq::<u64>::empty();
    let firsts = none.push(4).push(6).push(10);
    lemma_last_of_push(none, 4);
    lemma_last_of_push(none.push(4), 6);
    lemma_last_of_push(none.push(4).push(6), 10);
    assert(firsts[0] == 4 && firsts[1] == 6 && firsts[2] == 10);
    assert(first_highs_are(g, sink, gates, max_cycles, limit, firsts));
    assert(is_lcm(firsts, 60)) by {
        assert(!firsts.contains(0));
        assert(60nat % 4 == 0 && 60nat % 6 == 0 && 60nat % 10 == 0);
        assert(common_multiple(firsts, 60));
        assert forall|m: nat| common_multiple(firsts, m) implies 60 <= m by {
            assert(m % (firsts[0] as nat) == 0 && m % (firsts[1] as nat) == 0 && m % (
            firsts[2] as nat) == 0);
            assert(m % 4 == 0 && m % 6 == 0 && m % 10 == 0);
        }
    }
    lemma_prediction_is_lcm(g, sink, gates, max_cycles, limit, firsts, 60, at);
}

/// Whether the answer says that every gate has its first High.
pub open spec fn found(at: Result<u64, RunError>) -> bool {
    at is Ok || at == Err::<u64, RunError>(RunError::Overflow)
}

/// The first cycles that such an answer rests on.
proof fn lemma_witness(
    g: GraphState,
    sink: usize,
    gates: Seq<usize>,
    max_cycles: nat,
    limit: nat,
    at: Result<u64, RunError>,
) -> (firsts: Seq<u64>)
    requires
        prediction(g, sink, gates, max_cycles, limit, at),
        found(at),
    ensures
        first_highs_are(g, sink, gates, max_cycles, limit, firsts),
        at matches Ok(cycle) ==> is_lcm(firsts, cycle as nat),
        at is Err ==> forall|m: nat| is_lcm(firsts, m) ==> m > u64::MAX,
{
    match at {
        Ok(cycle) => choose|firsts: Seq<u64>|
            #[trigger] first_highs_are(g, sink, gates, max_cycles, limit, firsts) && is_lcm(
                firsts,
                cycle as nat,
            ),
        _ => choose|firsts: Seq<u64>|
            #[trigger] first_highs_are(g, sink, gates, max_cycles, limit, firsts) && forall|m: nat|
                is_lcm(firsts, m) ==> m > u64::MAX,
    }
}

/// Beside an answer that rests on first cycles there is no answer that
/// does not.
proof fn lemma_other(
    g: GraphState,
    sink: usize,
    gates: Seq<usize>,
    max_cycles: nat,
    limit: nat,
    a: Result<u64, RunError>,
    b: Result<u64, RunError>,
)
    requires
        prediction(g, sink, gates, max_cycles, limit, a),
        prediction(g, sink, gates, max_cycles, limit, b),
        found(a),
    ensures
        found(b),
{
    let x = lemma_witness(g, sink, gates, max_cycles, limit, a);
    let n = last_of(x);
    lemma_all_fired(g, sink, gates, max_cycles, limit, x, n);
    if found(b) {
    } else if b == Err::<u64, RunError>(RunError::NoPeriod) {
        lemma_all_fired(g, sink, gates, max_cycles, limit, x, max_cycles);
    } else {
        let c = choose|c: nat|
            c < max_cycles && g.settles_for(c, limit) && !(#[trigger] g.after(c, limit)).settles(
                limit,
            ) && !all_fired(g, gates, sink, c, limit);
        if c < n {
            assert(g.after(c, limit).settles(limit));
        } else {
            lemma_all_fired(g, sink, gates, max_cycles, limit, x, c);
        }
    }
}

/// A gate has fired by the end of a cycle if it had fired before or fires in
/// it.
pub proof fn lemma_fired_by_step(g: GraphState, gate: usize, sink: usize, cycles: nat, limit: nat)
    requires
        cycles >= 1,
    ensures
        fired_by(g, gate, sink, cycles, limit) <==> fired_by(
            g,
            gate,
            sink,
            (cycles - 1) as nat,
            limit,
        ) || fires(g, gate, sink, cycles, limit),
{
    if fired_by(g, gate, sink, cycles, limit) {
        let c = choose|c: nat| 1 <= c <= cycles && fires(g, gate, sink, c, limit);
        if c < cycles {
            assert(1 <= c <= cycles - 1 && fires(g, gate, sink, c, limit));
        }
    }
    if fired_by(g, gate, sink, (cycles - 1) as nat, limit) {
        let c = choose|c: nat| 1 <= c <= cycles - 1 && fires(g, gate, sink, c, limit);
        assert(1 <= c <= cycles && fires(g, gate, sink, c, limit));
    }
    if fires(g, gate, sink, cycles, limit) {
        assert(1 <= cycles <= cycles && fires(g, gate, sink, cycles, limit));
    }
}

/// Whether the log holds the pulse.
pub fn delivered(log: &Vec<Pulse>, pulse: Pulse) -> (b: bool)
    ensures
        b == log@.contains(pulse),
{
    let mut i: usize = 0;
    while i < log.len()
        invariant
            i <= log@.len(),
            forall|j: int| 0 <= j < i ==> log@[j] != pulse,
        decreases log@.len() - i,
    {
        let p = log[i];
        if p.from == pulse.from && p.to == pulse.to && p.beam == pulse.beam {
            return true;
        }
        i += 1;
    }
    false
}

impl Graph {
    /// Runs trigger cycles until each of `gates` has sent a High pulse to
    /// `sink`, and returns for each gate the number of the cycle, counted from
    /// 1, in which it first did. With no gates no cycle runs.
    ///
    /// Gives up with `Unsettled` at a cycle that has pulses in flight after
    /// `limit` deliveries, and with `NoPeriod` when `max_cycles` cycles have
    /// run and some gate has still sent no High pulse.
    pub fn first_highs(
        &mut self,
        sink: usize,
        gates: &Vec<usize>,
        max_cycles: u64,
        limit: usize,
    ) -> (found: Result<Vec<u64>, RunError>)
        requires
            old(self).wf(),
        ensures
            final(self).wf(),
            match found {
                Ok(cycles) => {
                    &&& cycles@.len() == gates@.len()
                    &&& forall|k: int|
                        0 <= k < gates@.len() ==> first_high(
                            old(self)@,
                            gates@[k],
                            sink,
                            (#[trigger] cycles@[k]) as nat,
                            limit as nat,
                        )
                    &&& exists|n: nat|
                        {
                            &&& n <= max_cycles
                            &&& old(self)@.settles_for(n, limit as nat)
                            &&& #[trigger] old(self)@.after(n, limit as nat) == final(self)@
                            &&& forall|k: int| 0 <= k < cycles@.len() ==> cycles@[k] <= n
                            &&& n == 0 || cycles@.contains(n as u64)
                        }
                },
                Err(RunError::Unsettled) => exists|c: nat|
                    {
                        &&& c < max_cycles
                        &&& old(self)@.settles_for(c, limit as nat)
                        &&& !(#[trigger] old(self)@.after(c, limit as nat)).settles(limit as nat)
                        &&& !all_fired(old(self)@, gates@, sink, c, limit as nat)
                        &&& final(self)@ == old(self)@.after(c + 1, limit as nat)
                    },
                Err(RunError::NoPeriod) => {
                    &&& old(self)@.settles_for(max_cycles as nat, limit as nat)
                    &&& !all_fired(old(self)@, gates@, sink, max_cycles as nat, limit as nat)
                    &&& final(self)@ == old(self)@.after(max_cycles as nat, limit as nat)
                },
                Err(_) => false,
            },
    {
        let ghost g = self@;
        let mut cycles: Vec<u64> = Vec::new();
        let mut k: usize = 0;
        while k < gates.len()
            invariant
                k <= gates@.len(),
                cycles@.len() == k,
                forall|j: int| 0 <= j < k ==> cycles@[j] == 0,
            decreases gates@.len() - k,
        {
            cycles.push(0);
            k += 1;
        }
        let mut pending = gates.len() > 0;
        let mut cycle: u64 = 0;
        assert(pending ==> cycles@[0] == 0);
        while pending
            invariant
                self.wf(),
                g == old(self)@,
                cycle <= max_cycles,
                self@ == g.after(cycle as nat, limit as nat),
                g.settles_for(cycle as nat, limit as nat),
                cycles@.len() == gates@.len(),
                forall|j: int|
                    0 <= j < gates@.len() ==> if (#[trigger] cycles@[j]) == 0 {
                        !fired_by(g, gates@[j], sink, cycle as nat, limit as nat)
                    } else {
                        cycles@[j] <= cycle && first_high(
                            g,
                            gates@[j],
                            sink,
                            cycles@[j] as nat,
                            limit as nat,
                        )
                    },
                pending <==> exists|j: int| 0 <= j < gates@.len() && cycles@[j] == 0,
                cycle == 0 || pending || cycles@.contains(cycle),
            decreases max_cycles - cycle,
        {
            let ghost unfired = choose|j: int| 0 <= j < gates@.len() && cycles@[j] == 0;
            if cycle >= max_cycles {
                assert(!fired_by(g, gates@[unfired], sink, cycle as nat, limit as nat));
                return Err(RunError::NoPeriod);
            }
            let log = match self.run_cycle(limit) {
                Ok(log) => log,
                Err(e) => {
                    assert(!fired_by(g, gates@[unfired], sink, cycle as nat, limit as nat));
                    assert(self@ == g.after((cycle + 1) as nat, limit as nat));
                    return Err(e);
                },
            };
            cycle += 1;
            assert(g.settles_for(cycle as nat, limit as nat)) by {
                assert forall|i: nat| i < cycle implies (#[trigger] g.after(
                    i,
                    limit as nat,
                )).settles(limit as nat) by {
                    if i < cycle - 1 {
                    }
                }
            }
            pending = false;
            let mut k: usize = 0;
            while k < gates.len()
                invariant
                    k <= gates@.len(),
                    cycle >= 1,
                    cycles@.len() == gates@.len(),
                    log@ == g.after((cycle - 1) as nat, limit as nat).pulses(limit as nat),
                    forall|j: int|
                        0 <= j < k ==> if (#[trigger] cycles@[j]) == 0 {
                            !fired_by(g, gates@[j], sink, cycle as nat, limit as nat)
                        } else {
                            cycles@[j] <= cycle && first_high(
                                g,
                                gates@[j],
                                sink,
                                cycles@[j] as nat,
                                limit as nat,
                            )
                        },
                    forall|j: int|
                        k <= j < gates@.len() ==> if (#[trigger] cycles@[j]) == 0 {
                            !fired_by(g, gates@[j], sink, (cycle - 1) as nat, limit as nat)
                        } else {
                            cycles@[j] <= cycle - 1 && first_high(
                                g,
                                gates@[j],
                                sink,
                                cycles@[j] as nat,
                                limit as nat,
                            )
                        },
                    pending <==> exists|j: int| 0 <= j < k && cycles@[j] == 0,
                    unfired < k ==> pending || cycles@[unfired] == cycle,
                    0 <= unfired < gates@.len(),
                    unfired >= k ==> cycles@[unfired] == 0,
                decreases gates@.len() - k,
            {
                let ghost before = cycles@;
                let ghost was_pending = pending;
                if cycles[k] == 0 {
                    proof {
                        lemma_fired_by_step(g, gates@[k as int], sink, cycle as nat, limit as nat);
                    }
                    if delivered(&log, Pulse { from: gates[k], to: sink, beam: BeamType::High }) {
                        cycles.set(k, cycle);
                    } else {
                        pending = true;
                    }
                }
                proof {
                    if was_pending {
                        let j = choose|j: int| 0 <= j < k && before[j] == 0;
                        assert(cycles@[j] == 0);
                    }
                    if cycles@[k as int] == 0 {
                        assert(0 <= k < k + 1 && cycles@[k as int] == 0);
                    }
                    if !pending {
                        assert forall|j: int| 0 <= j < k + 1 implies cycles@[j] != 0 by {
                            if j < k {
                                assert(before[j] == cycles@[j]);
                            }
                        }
                    }
                }
                k += 1;
            }
            proof {
                if !pending {
                    assert(cycles@[unfired] == cycle);
                }
            }
        }
        Ok(cycles)
    }

    /// Predicts the trigger cycle at which `sink` is reached: the least common
    /// multiple of the cycles in which each of `gates` first sends it a High
    /// pulse, which is 1 where there are no gates.
    ///
    /// Fails as `first_highs` does, and with `Overflow` where the multiple
    /// does not fit in 64 bits. The network is left as the cycles that ran
    /// have left it.
    pub fn predict(&mut self, sink: usize, gates: &Vec<usize>, max_cycles: u64, limit: usize) -> (at:
        Result<u64, RunError>)
        requires
            old(self).wf(),
        ensures
            final(self).wf(),
            prediction(old(self)@, sink, gates@, max_cycles as nat, limit as nat, at),
            searched(old(self)@, sink, gates@, max_cycles as nat, limit as nat, at, final(self)@),
    {
        let ghost g = self@;
        let firsts = match self.first_highs(sink, gates, max_cycles, limit) {
            Ok(firsts) => firsts,
            Err(e) => {
                return Err(e);
            },
        };
        proof {
            let n = choose|n: nat|
                {
                    &&& n <= max_cycles
                    &&& g.settles_for(n, limit as nat)
                    &&& #[trigger] g.after(n, limit as nat) == self@
                    &&& forall|k: int| 0 <= k < firsts@.len() ==> firsts@[k] <= n
                    &&& n == 0 || firsts@.contains(n as u64)
                };
            lemma_last_of(firsts@);
            if firsts@.len() > 0 {
                let k = choose|k: int|
                    0 <= k < firsts@.len() && #[trigger] firsts@[k] == last_of(firsts@);
                assert(last_of(firsts@) <= n);
                if n > 0 {
                    let j = choose|j: int| 0 <= j < firsts@.len() && firsts@[j] == n as u64;
                    assert(firsts@[j] <= last_of(firsts@));
                } else {
                    assert(firsts@[k] <= n);
                }
            } else {
                assert(!firsts@.contains(n as u64));
            }
            assert(last_of(firsts@) == n);
            assert(first_highs_are(g, sink, gates@, max_cycles as nat, limit as nat, firsts@));
        }
        match lcm_of_list(&firsts) {
            Some(cycle) => Ok(cycle),
            None => Err(RunError::Overflow),
        }
    }
}

} // verus!
