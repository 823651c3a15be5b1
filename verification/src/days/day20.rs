//! Pulse propagation: the product of the Low and High pulses of a thousand
//! trigger cycles, and the cycle at which the network's output is reached.

use vstd::prelude::*;
use vstd::string::StringExecFns;
use crate::pulse::builder::{create_modules, declarations, network};
use crate::pulse::count::{lemma_total_bound, total};
use crate::pulse::detector::{
    all_fired, first_high, first_highs_are, last_of, lemma_four_six_ten, lemma_one_end,
    lemma_one_prediction, lemma_one_unsettled, prediction, searched,
};
use crate::pulse::laws::{lemma_inputs_are_fixed, same_inputs};
use crate::pulse::module::{BeamType, ModuleType};
use crate::pulse::network::{Graph, GraphState, RunError};
use crate::pulse::parse::{parse, DeclarationText, Fault, ParseError};
use crate::text::texts;

verus! {

/// The number of trigger cycles whose pulses are counted.
pub const TRIGGER_CYCLES: usize = 1000;

/// The number of deliveries after which a trigger cycle is given up.
pub const PULSE_LIMIT: usize = 1000000;

/// The number of trigger cycles after which the search for the first High
/// pulses of the gates is given up.
pub const CYCLE_LIMIT: u64 = 1000000;

/// The name of the network's output.
pub open spec fn output_name() -> Seq<char> {
    "rx"@
}

/// The sink of a network: the one module that sends to the output, if it is a
/// conjunction.
pub open spec fn sink_of(g: GraphState) -> Option<usize> {
    if g.names.contains(output_name()) {
        let from = g.feeders(g.names.index_of(output_name()) as usize);
        if from.len() == 1 && from[0] < g.modules.len() && g.modules[from[0] as int].kind
            == ModuleType::Conjunction {
            Some(from[0])
        } else {
            None
        }
    } else {
        None
    }
}

/// What the first part may answer on network `g`: the product of the numbers
/// of Low and of High pulses that a thousand trigger cycles deliver, or
/// `Unsettled` where one of them is not settled after `PULSE_LIMIT`
/// deliveries.
pub open spec fn counted(g: GraphState, product: Result<u64, RunError>) -> bool {
    match product {
        Ok(p) => {
            &&& g.settles_for(TRIGGER_CYCLES as nat, PULSE_LIMIT as nat)
            &&& p == total(g, BeamType::Low, TRIGGER_CYCLES as nat, PULSE_LIMIT as nat) * total(
                g,
                BeamType::High,
                TRIGGER_CYCLES as nat,
                PULSE_LIMIT as nat,
            )
        },
        Err(e) => e == RunError::Unsettled && !g.settles_for(
            TRIGGER_CYCLES as nat,
            PULSE_LIMIT as nat,
        ),
    }
}

/// What the second part may answer on network `g`: `NoSink` where the network
/// has no sink, else a prediction for the sink and the modules that feed it.
pub open spec fn extrapolated(g: GraphState, at: Result<u64, RunError>) -> bool {
    match sink_of(g) {
        None => at == Err::<u64, RunError>(RunError::NoSink),
        Some(sink) => prediction(
            g,
            sink,
            g.feeders(sink),
            CYCLE_LIMIT as nat,
            PULSE_LIMIT as nat,
            at,
        ),
    }
}

/// The network that the first part leaves behind: `g` after the thousand
/// cycles, or after the cycles up to and with the first that is unsettled.
pub open spec fn counted_end(g: GraphState, product: Result<u64, RunError>, end: GraphState) -> bool {
    match product {
        Ok(_) => end == g.after(TRIGGER_CYCLES as nat, PULSE_LIMIT as nat),
        Err(_) => exists|k: nat|
            {
                &&& k < TRIGGER_CYCLES
                &&& g.settles_for(k, PULSE_LIMIT as nat)
                &&& !(#[trigger] g.after(k, PULSE_LIMIT as nat)).settles(PULSE_LIMIT as nat)
                &&& end == g.after(k + 1, PULSE_LIMIT as nat)
            },
    }
}

/// The network that the second part leaves behind: `g` itself where it has
/// no sink, else `g` after the cycles that the search for the prediction has
/// run.
pub open spec fn extrapolated_end(g: GraphState, at: Result<u64, RunError>, end: GraphState) -> bool {
    match sink_of(g) {
        None => end == g,
        Some(sink) => searched(
            g,
            sink,
            g.feeders(sink),
            CYCLE_LIMIT as nat,
            PULSE_LIMIT as nat,
            at,
            end,
        ),
    }
}

/// The cycles of a part change what flip-flops store and which levels
/// conjunctions remember, and nothing else: names, root, kinds, targets and
/// the inputs that each memory has an entry for are as they were.
pub open spec fn rewired(g: GraphState, end: GraphState) -> bool {
    end.names == g.names && end.root == g.root && same_inputs(g, end.modules)
}

/// Runs a thousand trigger cycles on the network and multiplies the number of
/// Low pulses by the number of High pulses delivered. The network is left as
/// the cycles that ran have left it.
pub fn solve_pt1(modules: &mut Graph) -> (product: Result<u64, RunError>)
    requires
        old(modules).wf(),
    ensures
        final(modules).wf(),
        counted(old(modules)@, product),
        counted_end(old(modules)@, product, final(modules)@),
        rewired(old(modules)@, final(modules)@),
{
    let ghost g = modules@;
    match modules.count_pulses(TRIGGER_CYCLES, PULSE_LIMIT) {
        Ok((low, high)) => {
            proof {
                lemma_total_bound(g, BeamType::Low, TRIGGER_CYCLES as nat, PULSE_LIMIT as nat);
                lemma_total_bound(g, BeamType::High, TRIGGER_CYCLES as nat, PULSE_LIMIT as nat);
                assert(low * high <= 1000000000 * 1000000000) by (nonlinear_arith)
                    requires
                        low <= 1000000000,
                        high <= 1000000000,
                ;
                lemma_inputs_are_fixed(g, TRIGGER_CYCLES as nat, PULSE_LIMIT as nat);
            }
            Ok((low * high) as u64)
        },
        Err(e) => {
            proof {
                let k = choose|k: nat|
                    {
                        &&& k < TRIGGER_CYCLES
                        &&& g.settles_for(k, PULSE_LIMIT as nat)
                        &&& !(#[trigger] g.after(k, PULSE_LIMIT as nat)).settles(PULSE_LIMIT as nat)
                        &&& modules@ == g.after(k + 1, PULSE_LIMIT as nat)
                    };
                lemma_inputs_are_fixed(g, k + 1, PULSE_LIMIT as nat);
                assert(!g.settles_for(TRIGGER_CYCLES as nat, PULSE_LIMIT as nat));
            }
            Err(e)
        },
    }
}

/// The search of a prediction leaves the wiring as it was.
pub proof fn lemma_searched_rewired(
    g: GraphState,
    sink: usize,
    gates: Seq<usize>,
    max_cycles: nat,
    limit: nat,
    at: Result<u64, RunError>,
    end: GraphState,
)
    requires
        searched(g, sink, gates, max_cycles, limit, at, end),
    ensures
        rewired(g, end),
{
    match at {
        Err(RunError::Unsettled) => {
            let c = choose|c: nat|
                {
                    &&& c < max_cycles
                    &&& g.settles_for(c, limit)
                    &&& !(#[trigger] g.after(c, limit)).settles(limit)
                    &&& !all_fired(g, gates, sink, c, limit)
                    &&& end == g.after(c + 1, limit)
                };
            lemma_inputs_are_fixed(g, c + 1, limit);
        },
        Err(RunError::NoPeriod) => {
            lemma_inputs_are_fixed(g, max_cycles, limit);
        },
        Err(RunError::NoSink) => {
            lemma_inputs_are_fixed(g, 0, limit);
        },
        _ => {
            let firsts = choose|firsts: Seq<u64>|
                #[trigger] first_highs_are(g, sink, gates, max_cycles, limit, firsts) && end
                    == g.after(last_of(firsts), limit);
            lemma_inputs_are_fixed(g, last_of(firsts), limit);
        },
    }
}

/// Predicts the trigger cycle at which the network's output is reached. The
/// network is left as the cycles that ran have left it.
pub fn solve_pt2(modules: &mut Graph) -> (at: Result<u64, RunError>)
    requires
        old(modules).wf(),
    ensures
        final(modules).wf(),
        extrapolated(old(modules)@, at),
        extrapolated_end(old(modules)@, at, final(modules)@),
        rewired(old(modules)@, final(modules)@),
{
    let ghost g = modules@;
    proof {
        modules.lemma_wf_view();
        lemma_inputs_are_fixed(g, 0, PULSE_LIMIT as nat);
    }
    let output = String::from_str("rx");
    let target = match modules.index_of(&output) {
        Some(target) => target,
        None => {
            return Err(RunError::NoSink);
        },
    };
    assert(modules@.names.index_of(output_name()) == target) by {
        assert(modules@.names.contains(output_name()));
        let i = modules@.names.index_of(output_name());
        assert(modules@.names[i] == output_name());
    }
    let from = modules.feeders(target);
    if from.len() != 1 {
        return Err(RunError::NoSink);
    }
    let sink = from[0];
    let declared = modules.modules();
    if sink >= declared.len() {
        return Err(RunError::NoSink);
    }
    assert(declared@[sink as int]@ == modules@.modules[sink as int]);
    if declared[sink].module_type() != ModuleType::Conjunction {
        return Err(RunError::NoSink);
    }
    let gates = modules.feeders(sink);
    let at = modules.predict(sink, &gates, CYCLE_LIMIT, PULSE_LIMIT);
    proof {
        lemma_searched_rewired(
            g,
            sink,
            gates@,
            CYCLE_LIMIT as nat,
            PULSE_LIMIT as nat,
            at,
            modules@,
        );
    }
    at
}

/// Where each of the thousand trigger cycles settles, the first part
/// answers the product of the two totals: the number of Low pulses and the
/// number of High pulses that the cycles deliver, each cycle oldest pulse
/// first and on the modules as the cycle before left them.
pub proof fn lemma_product_of_totals(g: GraphState, product: Result<u64, RunError>)
    requires
        g.settles_for(TRIGGER_CYCLES as nat, PULSE_LIMIT as nat),
        counted(g, product),
    ensures
        product == Ok::<u64, RunError>(
            (total(g, BeamType::Low, TRIGGER_CYCLES as nat, PULSE_LIMIT as nat) * total(
                g,
                BeamType::High,
                TRIGGER_CYCLES as nat,
                PULSE_LIMIT as nat,
            )) as u64,
        ),
        total(g, BeamType::Low, TRIGGER_CYCLES as nat, PULSE_LIMIT as nat) * total(
            g,
            BeamType::High,
            TRIGGER_CYCLES as nat,
            PULSE_LIMIT as nat,
        ) <= u64::MAX,
{
    let low = total(g, BeamType::Low, TRIGGER_CYCLES as nat, PULSE_LIMIT as nat);
    let high = total(g, BeamType::High, TRIGGER_CYCLES as nat, PULSE_LIMIT as nat);
    lemma_total_bound(g, BeamType::Low, TRIGGER_CYCLES as nat, PULSE_LIMIT as nat);
    lemma_total_bound(g, BeamType::High, TRIGGER_CYCLES as nat, PULSE_LIMIT as nat);
    assert(low * high <= 1000000000 * 1000000000) by (nonlinear_arith)
        requires
            low <= 1000000000,
            high <= 1000000000,
    ;
}

/// A network whose sink has three gates that first send it High in the
/// cycles 4, 6 and 10, each of the first ten cycles settling, has the
/// second answer 60.
pub proof fn lemma_sixty(g: GraphState, at: Result<u64, RunError>)
    requires
        sink_of(g) matches Some(sink) && g.feeders(sink).len() == 3 && first_high(
            g,
            g.feeders(sink)[0],
            sink,
            4,
            PULSE_LIMIT as nat,
        ) && first_high(g, g.feeders(sink)[1], sink, 6, PULSE_LIMIT as nat) && first_high(
            g,
            g.feeders(sink)[2],
            sink,
            10,
            PULSE_LIMIT as nat,
        ),
        g.settles_for(10, PULSE_LIMIT as nat),
        extrapolated(g, at),
    ensures
        at == Ok::<u64, RunError>(60),
{
    let sink = sink_of(g)->Some_0;
    lemma_four_six_ten(g, sink, g.feeders(sink), CYCLE_LIMIT as nat, PULSE_LIMIT as nat, at);
}

/// Both parts are determined by the network: two runs of a part on equal
/// networks give the same answer and leave equal networks.
pub proof fn lemma_parts_are_determined(
    g: GraphState,
    product: Result<u64, RunError>,
    other_product: Result<u64, RunError>,
    at: Result<u64, RunError>,
    other_at: Result<u64, RunError>,
    end: GraphState,
    other_end: GraphState,
)
    ensures
        counted(g, product) && counted(g, other_product) ==> product == other_product,
        counted_end(g, product, end) && counted_end(g, product, other_end) ==> end == other_end,
        extrapolated(g, at) && extrapolated(g, other_at) ==> at == other_at,
        extrapolated_end(g, at, end) && extrapolated_end(g, at, other_end) ==> end == other_end,
{
    let limit = PULSE_LIMIT as nat;
    if counted_end(g, product, end) && counted_end(g, product, other_end) && product is Err {
        let a = choose|k: nat|
            {
                &&& k < TRIGGER_CYCLES
                &&& g.settles_for(k, limit)
                &&& !(#[trigger] g.after(k, limit)).settles(limit)
                &&& end == g.after(k + 1, limit)
            };
        let b = choose|k: nat|
            {
                &&& k < TRIGGER_CYCLES
                &&& g.settles_for(k, limit)
                &&& !(#[trigger] g.after(k, limit)).settles(limit)
                &&& other_end == g.after(k + 1, limit)
            };
        lemma_one_unsettled(g, a, b, limit);
    }
    match sink_of(g) {
        Some(sink) => {
            if extrapolated(g, at) && extrapolated(g, other_at) {
                lemma_one_prediction(g, sink, g.feeders(sink), CYCLE_LIMIT as nat, limit, at, other_at);
            }
            if extrapolated_end(g, at, end) && extrapolated_end(g, at, other_end) {
                lemma_one_end(g, sink, g.feeders(sink), CYCLE_LIMIT as nat, limit, at, end, other_end);
            }
        },
        None => {},
    }
}

/// Builds the network that the lines declare and answers both parts, each on
/// a copy of its own, so that neither sees what the other's cycles did to the
/// modules.
///
/// Fails at the first line that declares no module.
pub fn solve(lines: &Vec<String>) -> (answers: Result<
    (Result<u64, RunError>, Result<u64, RunError>),
    ParseError,
>)
    ensures
        match answers {
            Ok((product, at)) => {
                &&& forall|k: int| 0 <= k < lines@.len() ==> parse(#[trigger] lines@[k]@) is Ok
                &&& counted(network(declarations(texts(lines@))), product)
                &&& extrapolated(network(declarations(texts(lines@))), at)
            },
            Err(e) => {
                &&& e.line < lines@.len()
                &&& forall|k: int| 0 <= k < e.line ==> parse(#[trigger] lines@[k]@) is Ok
                &&& parse(lines@[e.line as int]@) == Err::<DeclarationText, Fault>(e.fault)
            },
        },
{
    let modules = match create_modules(lines) {
        Ok(modules) => modules,
        Err(e) => {
            return Err(e);
        },
    };
    let mut first = modules.clone();
    let mut second = modules.clone();
    let product = solve_pt1(&mut first);
    let at = solve_pt2(&mut second);
    Ok((product, at))
}

} // verus!
