//! What holds of every module and every network.

use vstd::prelude::*;
use crate::pulse::builder::{network, wiring};
use crate::pulse::count::{count_beam, total};
use crate::pulse::module::{accept_output, accept_state, all_high, BeamType, ModuleState, ModuleType};
use crate::pulse::network::{emissions, lemma_accept_keeps, GraphState, Pulse, Run};
use crate::pulse::parse::DeclarationText;

verus! {

/// A conjunction answers every pulse, and it answers Low exactly if every
/// entry of its memory is High once the pulse is heard. Its inputs stay as
/// they are: a pulse from an input changes the level remembered for that
/// input and no other, and a pulse from any other source changes nothing.
pub proof fn lemma_conjunction(m: ModuleState, incoming: BeamType, from: usize)
    requires
        m.kind == ModuleType::Conjunction,
    ensures
        accept_output(m, incoming, from) is Some,
        accept_output(m, incoming, from) == Some(BeamType::Low) <==> all_high(
            accept_state(m, incoming, from).memory,
        ),
        accept_state(m, incoming, from).memory.dom() == m.memory.dom(),
        accept_state(m, incoming, from) == (ModuleState {
            memory: accept_state(m, incoming, from).memory,
            ..m
        }),
        m.memory.dom().contains(from) ==> accept_state(m, incoming, from).memory[from] == incoming,
        forall|k: usize|
            m.memory.dom().contains(k) && k != from ==> accept_state(m, incoming, from).memory[k]
                == m.memory[k],
        !m.memory.dom().contains(from) ==> accept_state(m, incoming, from) == m,
        m.memory.dom().contains(from) ==> (accept_output(m, incoming, from) == Some(BeamType::Low)
            <==> incoming == BeamType::High && forall|k: usize|
            m.memory.dom().contains(k) && k != from ==> #[trigger] m.memory[k] == BeamType::High),
{
    let after = accept_state(m, incoming, from).memory;
    assert(after.dom() =~= m.memory.dom());
    if m.memory.dom().contains(from) {
        assert(after == m.memory.insert(from, incoming));
        if all_high(after) {
            assert(after[from] == BeamType::High);
            assert forall|k: usize|
                m.memory.dom().contains(k) && k != from implies #[trigger] m.memory[k]
                == BeamType::High by {
                assert(after.dom().contains(k));
                assert(after[k] == BeamType::High);
            }
        }
        if incoming == BeamType::High && forall|k: usize|
            m.memory.dom().contains(k) && k != from ==> #[trigger] m.memory[k] == BeamType::High {
            assert forall|k: usize| after.dom().contains(k) implies #[trigger] after[k]
                == BeamType::High by {
                if k != from {
                    assert(m.memory[k] == BeamType::High);
                }
            }
        }
    } else {
        assert(after == m.memory);
    }
}

/// The module after it has received the pulses one after the other.
pub open spec fn received(m: ModuleState, pulses: Seq<Pulse>) -> ModuleState
    decreases pulses.len(),
{
    if pulses.len() == 0 {
        m
    } else {
        accept_state(received(m, pulses.drop_last()), pulses.last().beam, pulses.last().from)
    }
}

/// How many of the pulses changed the stored bit of the module.
pub open spec fn toggles(m: ModuleState, pulses: Seq<Pulse>) -> nat
    decreases pulses.len(),
{
    if pulses.len() == 0 {
        0
    } else if received(m, pulses).on != received(m, pulses.drop_last()).on {
        toggles(m, pulses.drop_last()) + 1
    } else {
        toggles(m, pulses.drop_last())
    }
}

/// A flip-flop toggles once for each Low pulse and never for a High one,
/// whatever the order in which they come: so it has changed exactly if the
/// number of Low pulses is odd, and one that was off is then on.
pub proof fn lemma_flip_flop(m: ModuleState, pulses: Seq<Pulse>)
    requires
        m.kind == ModuleType::FlipFlop,
    ensures
        toggles(m, pulses) == count_beam(pulses, BeamType::Low),
        received(m, pulses).on == (m.on != (count_beam(pulses, BeamType::Low) % 2 == 1)),
        received(m, pulses) == (ModuleState { on: received(m, pulses).on, ..m }),
    decreases pulses.len(),
{
    let low = |p: Pulse| p.beam == BeamType::Low;
    if pulses.len() == 0 {
        assert(pulses.filter(low).len() == 0);
    } else {
        let front = pulses.drop_last();
        lemma_flip_flop(m, front);
        assert(pulses =~= front.push(pulses.last()));
        front.lemma_filter_push(pulses.last(), low);
    }
}

/// What the delivery of the oldest pulse in flight sends: the answer of its
/// destination to each of that module's targets, in their order; nothing
/// where the destination is no module or stays silent.
pub open spec fn answer(r: Run) -> Seq<Pulse> {
    let p = r.sent[r.delivered as int];
    if p.to < r.modules.len() {
        match accept_output(r.modules[p.to as int], p.beam, p.from) {
            Some(beam) => emissions(p.to, r.modules[p.to as int].targets, beam),
            None => Seq::empty(),
        }
    } else {
        Seq::empty()
    }
}

/// Pulses are delivered oldest first: one delivery takes the pulse at the
/// front of the queue and puts what it makes its destination send at the
/// back, behind every pulse that was in flight before. Only the destination
/// changes, by the rule of its kind, with the memory as the earlier
/// deliveries have left it.
pub proof fn lemma_oldest_first(r: Run)
    requires
        r.delivered < r.sent.len(),
    ensures
        r.step().queue() == r.queue().skip(1) + answer(r),
        r.step().sent == r.sent + answer(r),
        r.step().delivered == r.delivered + 1,
        r.queue()[0] == r.sent[r.delivered as int],
        r.queue()[0].to < r.modules.len() ==> r.step().modules == r.modules.update(
            r.queue()[0].to as int,
            accept_state(r.modules[r.queue()[0].to as int], r.queue()[0].beam, r.queue()[0].from),
        ),
        r.queue()[0].to >= r.modules.len() ==> r.step().modules == r.modules,
{
    assert(r.step().sent =~= r.sent + answer(r));
    assert(r.step().queue() =~= r.queue().skip(1) + answer(r));
}

/// The run of a trigger cycle depends on the modules, the root and the number
/// of names alone; in particular not on what the names are.
pub open spec fn same_wiring(a: GraphState, b: GraphState) -> bool {
    a.modules == b.modules && a.root == b.root && a.names.len() == b.names.len()
}

/// Two runs of one network for the same number of trigger cycles deliver the
/// same pulses in the same order, give the same totals and leave the modules
/// in the same state.
pub proof fn lemma_runs_agree(a: GraphState, b: GraphState, cycles: nat, limit: nat)
    requires
        same_wiring(a, b),
    ensures
        same_wiring(a.after(cycles, limit), b.after(cycles, limit)),
        a.after(cycles, limit).pulses(limit) == b.after(cycles, limit).pulses(limit),
        a.settles_for(cycles, limit) == b.settles_for(cycles, limit),
        total(a, BeamType::Low, cycles, limit) == total(b, BeamType::Low, cycles, limit),
        total(a, BeamType::High, cycles, limit) == total(b, BeamType::High, cycles, limit),
    decreases cycles,
{
    if cycles > 0 {
        lemma_runs_agree(a, b, (cycles - 1) as nat, limit);
        let x = a.after((cycles - 1) as nat, limit);
        let y = b.after((cycles - 1) as nat, limit);
        assert(x.cycle() == y.cycle());
    }
    assert(a.after(cycles, limit).cycle() == b.after(cycles, limit).cycle());
    assert forall|i: nat| i < cycles implies (#[trigger] a.after(i, limit)).settles(limit)
        == b.after(i, limit).settles(limit) by {
        lemma_runs_agree(a, b, i, limit);
        assert(a.after(i, limit).cycle() == b.after(i, limit).cycle());
    }
    if a.settles_for(cycles, limit) {
        assert forall|i: nat| i < cycles implies (#[trigger] b.after(i, limit)).settles(limit) by {
            assert(a.after(i, limit).settles(limit));
        }
    }
    if b.settles_for(cycles, limit) {
        assert forall|i: nat| i < cycles implies (#[trigger] a.after(i, limit)).settles(limit) by {
            assert(b.after(i, limit).settles(limit));
        }
    }
}

/// The modules of `after` are those of `g` but for what flip-flops store and
/// what conjunctions remember: kinds, targets and the inputs that each
/// memory has an entry for are the same.
pub open spec fn same_inputs(g: GraphState, after: Seq<ModuleState>) -> bool {
    &&& after.len() == g.modules.len()
    &&& forall|i: int|
        0 <= i < after.len() ==> {
            &&& (#[trigger] after[i]).kind == g.modules[i].kind
            &&& after[i].targets == g.modules[i].targets
            &&& after[i].memory.dom() == g.modules[i].memory.dom()
        }
}

/// Every pulse of the run travels along a connection of the network.
pub open spec fn along_connections(g: GraphState, r: Run) -> bool {
    forall|k: int| 0 <= k < r.sent.len() ==> g.feeds((#[trigger] r.sent[k]).from, r.sent[k].to)
}

/// One delivery keeps the kinds, the targets and the inputs of the network
/// and sends only along its connections.
proof fn lemma_step_keeps_inputs(g: GraphState, r: Run)
    requires
        same_inputs(g, r.modules),
        along_connections(g, r),
    ensures
        same_inputs(g, r.step().modules),
        along_connections(g, r.step()),
{
    if !r.settled() {
        let p = r.sent[r.delivered as int];
        if p.to < r.modules.len() {
            let m = r.modules[p.to as int];
            lemma_accept_keeps(GraphState { modules: r.modules, ..g }, p.to, p.beam, p.from);
            match accept_output(m, p.beam, p.from) {
                Some(beam) => {
                    let sent = r.step().sent;
                    let more = emissions(p.to, m.targets, beam);
                    assert forall|k: int| 0 <= k < sent.len() implies g.feeds(
                        (#[trigger] sent[k]).from,
                        sent[k].to,
                    ) by {
                        if k < r.sent.len() {
                            assert(sent[k] == r.sent[k]);
                        } else {
                            let j = k - r.sent.len();
                            assert(sent[k] == more[j]);
                            assert(m.targets[j] == more[j].to);
                            assert(g.modules[p.to as int].targets.contains(more[j].to));
                            assert(g.sends(p.to, more[j].to));
                        }
                    }
                },
                None => {},
            }
        }
    }
}

proof fn lemma_steps_keep_inputs(g: GraphState, r: Run, n: nat)
    requires
        same_inputs(g, r.modules),
        along_connections(g, r),
    ensures
        same_inputs(g, r.steps(n).modules),
        along_connections(g, r.steps(n)),
    decreases n,
{
    if n > 0 {
        lemma_steps_keep_inputs(g, r, (n - 1) as nat);
        lemma_step_keeps_inputs(g, r.steps((n - 1) as nat));
    }
}

/// The inputs of a conjunction are fixed when the network is built: however
/// many trigger cycles run, no memory gains or loses an entry, no module
/// changes its kind or its targets, names and root stay, and every pulse
/// travels along a connection. Only the remembered levels and the bits of
/// the flip-flops change. So a network in which every conjunction remembers
/// exactly the modules that send to it stays such a network.
pub proof fn lemma_inputs_are_fixed(g: GraphState, cycles: nat, limit: nat)
    ensures
        same_inputs(g, g.after(cycles, limit).modules),
        along_connections(g, g.after(cycles, limit).cycle().steps(limit)),
        g.after(cycles, limit).names == g.names,
        g.after(cycles, limit).root == g.root,
        g.inputs_fixed() ==> g.after(cycles, limit).inputs_fixed(),
    decreases cycles,
{
    if cycles > 0 {
        lemma_inputs_are_fixed(g, (cycles - 1) as nat, limit);
        let before = g.after((cycles - 1) as nat, limit);
        lemma_steps_keep_inputs(g, before.cycle(), limit);
    }
    let h = g.after(cycles, limit);
    if g.inputs_fixed() {
        assert forall|to: int, from: usize|
            0 <= to < h.modules.len() && h.modules[to].kind == ModuleType::Conjunction implies (
        #[trigger] h.modules[to].memory.dom().contains(from) <==> h.sends(from, to as usize)) by {
            assert(g.modules[to].memory.dom().contains(from) <==> g.sends(from, to as usize));
            if from < g.modules.len() {
                assert(h.modules[from as int].targets == g.modules[from as int].targets);
            }
        }
    }
    let r = h.cycle();
    assert(along_connections(g, r)) by {
        assert(g.feeds(r.sent[0].from, r.sent[0].to));
    }
    lemma_steps_keep_inputs(g, r, limit);
}

/// A network as it is built: every flip-flop is off, and every conjunction
/// remembers Low for each declared module that has it among its targets and
/// has no other entry.
pub proof fn lemma_network_starts_low(decls: Seq<DeclarationText>)
    ensures
        network(decls).inputs_fixed(),
        network(decls).names == wiring(decls).names,
        network(decls).root == wiring(decls).root,
        network(decls).modules.len() == wiring(decls).modules.len(),
        forall|i: int|
            0 <= i < network(decls).modules.len() ==> {
                let m = #[trigger] network(decls).modules[i];
                &&& !m.on
                &&& m.kind == wiring(decls).modules[i].kind
                &&& m.targets == wiring(decls).modules[i].targets
                &&& m.kind == ModuleType::Conjunction ==> forall|from: usize|
                    m.memory.dom().contains(from) <==> network(decls).sends(from, i as usize)
                &&& m.kind == ModuleType::Conjunction ==> forall|from: usize|
                    m.memory.dom().contains(from) ==> m.memory[from] == BeamType::Low
                &&& m.kind != ModuleType::Conjunction ==> m.memory == Map::<
                    usize,
                    BeamType,
                >::empty()
            },
{
    let w = wiring(decls);
    let g = network(decls);
    assert forall|from: usize, to: usize| g.sends(from, to) == w.sends(from, to) by {}
}

/// The memory of a conjunction, as it is built, has as many entries as
/// there are distinct modules that send to the conjunction.
pub proof fn lemma_memory_size(decls: Seq<DeclarationText>, to: usize)
    requires
        network(decls).modules.len() <= usize::MAX,
        to < network(decls).modules.len(),
        network(decls).modules[to as int].kind == ModuleType::Conjunction,
    ensures
        network(decls).modules[to as int].memory.dom().finite(),
        network(decls).modules[to as int].memory.dom().len() == network(decls).feeders(to).len(),
        network(decls).modules[to as int].memory.dom() == network(decls).feeders(to).to_set(),
{
    let w = wiring(decls);
    let g = network(decls);
    lemma_network_starts_low(decls);
    lemma_feeders(g, to);
    assert(g.modules[to as int].memory.dom() =~= g.feeders(to).to_set());
    g.feeders(to).unique_seq_to_set();
}

/// The inputs of a module, listed: each declared module that sends to it,
/// once.
pub proof fn lemma_feeders(g: GraphState, to: usize)
    requires
        g.modules.len() <= usize::MAX,
    ensures
        g.feeders(to).no_duplicates(),
        forall|from: usize| g.feeders(to).contains(from) <==> g.sends(from, to),
{
    let all = Seq::new(g.modules.len(), |j: int| j as usize);
    let keep = |j: usize| g.modules[j as int].targets.contains(to);
    lemma_filtered(all, keep, all.len() as int);
    assert(all.take(all.len() as int) =~= all);
    assert forall|from: usize| g.feeders(to).contains(from) <==> g.sends(from, to) by {
        if g.sends(from, to) {
            assert(all[from as int] == from);
            assert(all.contains(from));
        }
        if g.feeders(to).contains(from) {
            let j = choose|j: int| 0 <= j < all.len() && all[j] == from;
        }
    }
}

/// What a filter keeps of the first `upto` of the numbers from 0 on: each
/// number that it accepts, once, and in rising order.
proof fn lemma_filtered(all: Seq<usize>, keep: spec_fn(usize) -> bool, upto: int)
    requires
        0 <= upto <= all.len(),
        forall|j: int| 0 <= j < all.len() ==> all[j] == j,
    ensures
        all.take(upto).filter(keep).no_duplicates(),
        forall|x: usize| #[trigger]
            all.take(upto).filter(keep).contains(x) <==> all.take(upto).contains(x) && keep(x),
        forall|k: int|
            0 <= k < all.take(upto).filter(keep).len() ==> #[trigger] all.take(upto).filter(
                keep,
            )[k] < upto,
    decreases upto,
{
    let front = all.take(upto);
    if upto == 0 {
        assert(front =~= Seq::empty());
        assert(front.filter(keep) =~= Seq::empty());
    } else {
        let before = all.take(upto - 1);
        lemma_filtered(all, keep, upto - 1);
        let last = all[upto - 1];
        assert(front =~= before.push(last));
        before.lemma_filter_push(last, keep);
        let kept = before.filter(keep);
        let now = front.filter(keep);
        assert forall|x: usize| #[trigger] now.contains(x) <==> front.contains(x) && keep(x) by {
            assert(kept.contains(x) <==> before.contains(x) && keep(x));
            if now.contains(x) {
                let k = choose|k: int| 0 <= k < now.len() && now[k] == x;
                if k < kept.len() {
                    assert(kept[k] == x);
                    assert(kept.contains(x));
                    let j = choose|j: int| 0 <= j < before.len() && before[j] == x;
                    assert(front[j] == x);
                } else {
                    assert(front[upto - 1] == x);
                }
            }
            if front.contains(x) && keep(x) {
                let j = choose|j: int| 0 <= j < front.len() && front[j] == x;
                if j < upto - 1 {
                    assert(before[j] == x);
                    assert(before.contains(x));
                    assert(kept.contains(x));
                    let k = choose|k: int| 0 <= k < kept.len() && kept[k] == x;
                    assert(now[k] == x);
                } else {
                    assert(now[now.len() - 1] == x);
                }
            }
        }
        assert forall|k: int| 0 <= k < now.len() implies #[trigger] now[k] < upto by {
            if k < kept.len() {
                assert(now[k] == kept[k]);
                assert(kept[k] < upto - 1);
            }
        }
        assert forall|a: int, b: int| 0 <= a < now.len() && 0 <= b < now.len() && a != b implies now[a]
            != now[b] by {
            if a < kept.len() && b < kept.len() {
                assert(now[a] == kept[a] && now[b] == kept[b]);
            } else if a < kept.len() {
                assert(now[a] == kept[a]);
                assert(kept[a] < upto - 1);
            } else if b < kept.len() {
                assert(now[b] == kept[b]);
                assert(kept[b] < upto - 1);
            }
        }
    }
}

} // verus!
