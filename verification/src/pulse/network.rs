//! A network of modules and the scheduler that settles one trigger cycle.
//!
//! Pulses are delivered strictly in the order in which they were sent. The
//! model keeps every pulse of a cycle in one sequence, `sent`, and counts how
//! many of them have been delivered: the pulses still in flight are the rest
//! of the sequence, and what a delivery emits goes to its end.

use std::collections::VecDeque;
use vstd::prelude::*;
use crate::pulse::module::{
    accept_output, accept_state, BeamType, Module, ModuleState, ModuleType,
};
use crate::text::texts;

verus! {

/// A pulse on its way from one module to another.
#[derive(Clone, Copy, Debug, PartialEq, Eq, Structural)]
pub struct Pulse {
    pub from: usize,
    pub to: usize,
    pub beam: BeamType,
}

/// Why a simulation gave no answer.
#[derive(Clone, Copy, Debug, PartialEq, Eq, Structural)]
pub enum RunError {
    /// A trigger cycle had pulses in flight after the allowed number of
    /// deliveries.
    Unsettled,
    /// A total does not fit in 64 bits.
    Overflow,
    /// Some gate had sent no High pulse within the allowed number of cycles.
    NoPeriod,
    /// The network has no sink: its output is no name of the network, or it is
    /// not fed by exactly one module, a conjunction.
    NoSink,
}

/// The mathematical value of a [`Graph`].
///
/// Index `i` below `modules.len()` is a declared module; an index from there
/// up to `names.len()` is a name that occurs only as a target, an implicit
/// sink. `names.len()` itself stands for the origin of the trigger.
pub struct GraphState {
    pub names: Seq<Seq<char>>,
    pub modules: Seq<ModuleState>,
    pub root: usize,
}

impl GraphState {
    /// The index that stands for the origin of the trigger pulse.
    pub open spec fn trigger(self) -> usize {
        self.names.len() as usize
    }

    /// `from` is a declared module with `to` among its targets: an input of
    /// `to`.
    pub open spec fn sends(self, from: usize, to: usize) -> bool {
        from < self.modules.len() && self.modules[from as int].targets.contains(to)
    }

    /// A pulse can travel from `from` to `to`: `from` is an input of `to`, or
    /// it is the trigger, which is no module and addresses the root.
    pub open spec fn feeds(self, from: usize, to: usize) -> bool {
        self.sends(from, to) || (from == self.trigger() && to == self.root)
    }

    /// The inputs of every conjunction are fixed: its memory has an entry for
    /// each declared module that has the conjunction among its targets, and
    /// no other entry.
    pub open spec fn inputs_fixed(self) -> bool {
        forall|to: int, from: usize|
            0 <= to < self.modules.len() && self.modules[to].kind == ModuleType::Conjunction ==> (
            #[trigger] self.modules[to].memory.dom().contains(from) <==> self.sends(
                from,
                to as usize,
            ))
    }

    /// The run that one trigger starts: a single Low pulse from the trigger to
    /// the root, not yet delivered.
    pub open spec fn cycle(self) -> Run {
        Run {
            modules: self.modules,
            sent: seq![Pulse { from: self.trigger(), to: self.root, beam: BeamType::Low }],
            delivered: 0,
        }
    }

    /// The declared modules that send to `to`, in the order of their indices.
    pub open spec fn feeders(self, to: usize) -> Seq<usize> {
        Seq::new(self.modules.len(), |j: int| j as usize).filter(
            |j: usize| self.modules[j as int].targets.contains(to),
        )
    }

    /// A trigger cycle started now has no pulse in flight after at most
    /// `limit` deliveries.
    pub open spec fn settles(self, limit: nat) -> bool {
        self.cycle().steps(limit).settled()
    }

    /// The pulses of a trigger cycle started now, in the order of delivery, as
    /// far as `limit` deliveries send them.
    pub open spec fn pulses(self, limit: nat) -> Seq<Pulse> {
        self.cycle().steps(limit).sent
    }

    /// The network after a trigger cycle of at most `limit` deliveries. The
    /// memory of the modules carries over; nothing else changes.
    pub open spec fn pressed(self, limit: nat) -> GraphState {
        GraphState { modules: self.cycle().steps(limit).modules, ..self }
    }

    /// The network after `cycles` trigger cycles, one after the other.
    pub open spec fn after(self, cycles: nat, limit: nat) -> GraphState
        decreases cycles,
    {
        if cycles == 0 {
            self
        } else {
            self.after((cycles - 1) as nat, limit).pressed(limit)
        }
    }

    /// Each of the first `cycles` trigger cycles settles within `limit`
    /// deliveries.
    pub open spec fn settles_for(self, cycles: nat, limit: nat) -> bool {
        forall|i: nat| i < cycles ==> (#[trigger] self.after(i, limit)).settles(limit)
    }
}

/// The pulses that module `from` sends when it emits `beam`: one to each
/// target, in the order of the target list.
pub open spec fn emissions(from: usize, targets: Seq<usize>, beam: BeamType) -> Seq<Pulse> {
    Seq::new(targets.len(), |i: int| Pulse { from, to: targets[i], beam })
}

/// A trigger cycle in progress.
pub struct Run {
    /// The modules as the deliveries so far have left them.
    pub modules: Seq<ModuleState>,
    /// Every pulse sent in this cycle, in the order of sending.
    pub sent: Seq<Pulse>,
    /// How many of them have been delivered.
    pub delivered: nat,
}

impl Run {
    /// No pulse is in flight.
    pub open spec fn settled(self) -> bool {
        self.delivered >= self.sent.len()
    }

    /// The pulses in flight, oldest first.
    pub open spec fn queue(self) -> Seq<Pulse> {
        self.sent.skip(self.delivered as int)
    }

    /// Delivers the oldest pulse in flight. Its destination, if it is a
    /// declared module, accepts it, and what that module emits joins the
    /// queue at the back. A pulse to any other index is absorbed. A settled
    /// run stays as it is.
    pub open spec fn step(self) -> Run {
        if self.settled() {
            self
        } else {
            let p = self.sent[self.delivered as int];
            if p.to < self.modules.len() {
                let m = self.modules[p.to as int];
                Run {
                    modules: self.modules.update(p.to as int, accept_state(m, p.beam, p.from)),
                    sent: match accept_output(m, p.beam, p.from) {
                        Some(beam) => self.sent + emissions(p.to, m.targets, beam),
                        None => self.sent,
                    },
                    delivered: self.delivered + 1,
                }
            } else {
                Run { delivered: self.delivered + 1, ..self }
            }
        }
    }

    /// The run after `n` more deliveries, or settled before that.
    pub open spec fn steps(self, n: nat) -> Run
        decreases n,
    {
        if n == 0 {
            self
        } else {
            self.steps((n - 1) as nat).step()
        }
    }

    /// A run that has settled after `k` deliveries is the same after any
    /// larger number.
    pub proof fn lemma_settled_stays(self, k: nat, n: nat)
        requires
            self.steps(k).settled(),
            k <= n,
        ensures
            self.steps(n) == self.steps(k),
        decreases n,
    {
        if n > k {
            self.lemma_settled_stays(k, (n - 1) as nat);
        }
    }

    /// Deliveries never take back a pulse that was sent: the order of sending
    /// is the order of delivery.
    pub proof fn lemma_sent_grows(self, n: nat)
        requires
            self.delivered <= self.sent.len(),
        ensures
            self.steps(n).delivered <= self.steps(n).sent.len(),
            self.delivered <= self.steps(n).delivered <= self.delivered + n,
            self.sent.len() <= self.steps(n).sent.len(),
            self.steps(n).sent.take(self.sent.len() as int) == self.sent,
            self.steps(n).modules.len() == self.modules.len(),
        decreases n,
    {
        if n == 0 {
            assert(self.sent.take(self.sent.len() as int) =~= self.sent);
        } else {
            self.lemma_sent_grows((n - 1) as nat);
            let r = self.steps((n - 1) as nat);
            assert(r.step().sent.take(self.sent.len() as int) =~= r.sent.take(
                self.sent.len() as int,
            ));
        }
    }
}

/// A module that accepts a pulse keeps its kind, its targets and the inputs
/// that its memory has an entry for; so a network whose inputs are fixed
/// stays one.
pub proof fn lemma_accept_keeps(g: GraphState, to: usize, beam: BeamType, from: usize)
    requires
        to < g.modules.len(),
    ensures
        accept_state(g.modules[to as int], beam, from).kind == g.modules[to as int].kind,
        accept_state(g.modules[to as int], beam, from).targets == g.modules[to as int].targets,
        accept_state(g.modules[to as int], beam, from).memory.dom()
            == g.modules[to as int].memory.dom(),
        g.inputs_fixed() ==> (GraphState {
            modules: g.modules.update(to as int, accept_state(g.modules[to as int], beam, from)),
            ..g
        }).inputs_fixed(),
{
    let m = g.modules[to as int];
    let after = accept_state(m, beam, from);
    assert(after.memory.dom() =~= m.memory.dom());
    let h = GraphState { modules: g.modules.update(to as int, after), ..g };
    if g.inputs_fixed() {
        assert forall|i: int, k: usize|
            0 <= i < h.modules.len() && h.modules[i].kind == ModuleType::Conjunction implies (
        #[trigger] h.modules[i].memory.dom().contains(k) <==> h.sends(k, i as usize)) by {
            assert(g.modules[i].memory.dom().contains(k) <==> g.sends(k, i as usize));
            if k < g.modules.len() {
                assert(h.modules[k as int].targets == g.modules[k as int].targets);
            }
        }
    }
}

/// A network: the names it knows, the declared modules, and the module that
/// the trigger addresses.
#[derive(Debug)]
pub struct Graph {
    names: Vec<String>,
    modules: Vec<Module>,
    root: usize,
}

impl Clone for Graph {
    /// An independent copy of the network in its present state: cycles run on
    /// one of the two leave the other untouched.
    fn clone(&self) -> (copy: Graph)
        ensures
            copy@ == self@,
            copy.wf() == self.wf(),
    {
        let copy = Graph {
            names: self.names.clone(),
            modules: self.modules.clone(),
            root: self.root,
        };
        assert(copy.names@ =~= self.names@);
        assert(copy@.names =~= self@.names);
        assert(copy@.modules =~= self@.modules);
        copy
    }
}

impl Graph {
    pub closed spec fn view(&self) -> GraphState {
        GraphState {
            names: texts(self.names@),
            modules: self.modules@.map_values(|m: Module| m@),
            root: self.root,
        }
    }

    /// Names are distinct, every declared module has a name, the root is a
    /// name of the network, and the inputs of every conjunction are fixed.
    pub closed spec fn wf(&self) -> bool {
        &&& forall|i: int| 0 <= i < self.modules@.len() ==> (#[trigger] self.modules@[i]).wf()
        &&& self.modules@.len() <= self.names@.len()
        &&& self.root < self.names@.len()
        &&& self@.names.no_duplicates()
        &&& self@.inputs_fixed()
    }

    /// A network of the given names and modules, with module `i` under the
    /// name `names[i]` and the trigger addressed to `root`. Every conjunction
    /// must have been told of the modules that send to it, and of no other
    /// source.
    pub fn new(names: Vec<String>, modules: Vec<Module>, root: usize) -> (g: Graph)
        requires
            forall|i: int| 0 <= i < modules@.len() ==> (#[trigger] modules@[i]).wf(),
            modules@.len() <= names@.len(),
            root < names@.len(),
            texts(names@).no_duplicates(),
            (GraphState {
                names: texts(names@),
                modules: modules@.map_values(|m: Module| m@),
                root,
            }).inputs_fixed(),
        ensures
            g.wf(),
            g@ == (GraphState {
                names: texts(names@),
                modules: modules@.map_values(|m: Module| m@),
                root,
            }),
    {
        Graph { names, modules, root }
    }

    /// The names of the network: first those of the declared modules, then
    /// those that are only targets.
    pub fn names(&self) -> (names: &Vec<String>)
        ensures
            texts(names@) == self@.names,
    {
        &self.names
    }

    /// The declared modules in their present state.
    pub fn modules(&self) -> (modules: &Vec<Module>)
        ensures
            modules@.map_values(|m: Module| m@) == self@.modules,
            self.wf() ==> forall|i: int| 0 <= i < modules@.len() ==> (#[trigger] modules@[i]).wf(),
    {
        &self.modules
    }

    /// The index that the trigger addresses.
    pub fn root(&self) -> (root: usize)
        ensures
            root == self@.root,
    {
        self.root
    }

    /// The index of a name, if the network knows it.
    pub fn index_of(&self, name: &String) -> (at: Option<usize>)
        requires
            self.wf(),
        ensures
            match at {
                Some(i) => i < self@.names.len() && self@.names[i as int] == name@,
                None => !self@.names.contains(name@),
            },
    {
        let mut i: usize = 0;
        while i < self.names.len()
            invariant
                i <= self.names@.len(),
                forall|j: int| 0 <= j < i ==> self@.names[j] != name@,
            decreases self.names@.len() - i,
        {
            if self.names[i] == *name {
                return Some(i);
            }
            i += 1;
        }
        None
    }

    /// The declared modules that send to `to`, in the order of their indices.
    pub fn feeders(&self, to: usize) -> (from: Vec<usize>)
        requires
            self.wf(),
        ensures
            from@ == self@.feeders(to),
    {
        let ghost all = Seq::new(self@.modules.len(), |j: int| j as usize);
        let ghost sends = |j: usize| self@.modules[j as int].targets.contains(to);
        let mut from: Vec<usize> = Vec::new();
        let mut j: usize = 0;
        assert(all.take(0) =~= Seq::empty());
        while j < self.modules.len()
            invariant
                self.wf(),
                j <= self.modules@.len(),
                all == Seq::new(self@.modules.len(), |j: int| j as usize),
                sends == |j: usize| self@.modules[j as int].targets.contains(to),
                from@ == all.take(j as int).filter(sends),
            decreases self.modules@.len() - j,
        {
            let targets = self.modules[j].targets();
            let mut found = false;
            let mut k: usize = 0;
            while k < targets.len()
                invariant
                    k <= targets@.len(),
                    found <==> targets@.take(k as int).contains(to),
                decreases targets@.len() - k,
            {
                proof {
                    let shorter = targets@.take(k as int);
                    let longer = targets@.take(k + 1);
                    assert(longer =~= shorter.push(targets@[k as int]));
                    assert(longer[k as int] == targets@[k as int]);
                    if shorter.contains(to) {
                        let p = choose|p: int| 0 <= p < shorter.len() && shorter[p] == to;
                        assert(longer[p] == to);
                    }
                    if longer.contains(to) && targets@[k as int] != to {
                        let p = choose|p: int| 0 <= p < longer.len() && longer[p] == to;
                        assert(shorter[p] == to);
                    }
                }
                if targets[k] == to {
                    found = true;
                }
                k += 1;
            }
            proof {
                assert(targets@.take(k as int) =~= targets@);
                assert(all.take(j + 1) =~= all.take(j as int).push(j));
                all.take(j as int).lemma_filter_push(j, sends);
                assert(sends(j) == found);
            }
            if found {
                from.push(j);
            }
            j += 1;
        }
        assert(all.take(j as int) =~= all);
        from
    }

    /// What `wf` says of the view.
    pub proof fn lemma_wf_view(&self)
        requires
            self.wf(),
        ensures
            self@.modules.len() <= self@.names.len(),
            self@.root < self@.names.len(),
            self@.names.no_duplicates(),
            self@.names.len() <= usize::MAX,
            self@.inputs_fixed(),
    {
        assert(self.names.len() == self.names@.len());
    }

    /// Runs one trigger cycle: sends a Low pulse from the trigger to the root
    /// and delivers pulses, oldest first, until none is in flight or `limit`
    /// of them have been delivered. The pulses in flight wait in a queue:
    /// what a module sends joins it at the back.
    ///
    /// Returns every pulse of the cycle in the order of delivery, or
    /// `Unsettled` if pulses were still in flight after `limit` deliveries.
    /// Either way the modules are left as those deliveries left them.
    pub fn run_cycle(&mut self, limit: usize) -> (log: Result<Vec<Pulse>, RunError>)
        requires
            old(self).wf(),
        ensures
            final(self).wf(),
            final(self)@ == old(self)@.pressed(limit as nat),
            match log {
                Ok(pulses) => {
                    &&& old(self)@.settles(limit as nat)
                    &&& pulses@ == old(self)@.pulses(limit as nat)
                    &&& pulses@.len() <= limit
                },
                Err(e) => !old(self)@.settles(limit as nat) && e == RunError::Unsettled,
            },
    {
        let ghost start = self@.cycle();
        let seed = Pulse { from: self.names.len(), to: self.root, beam: BeamType::Low };
        let mut sent: Vec<Pulse> = Vec::new();
        let mut queue: VecDeque<Pulse> = VecDeque::new();
        sent.push(seed);
        queue.push_back(seed);
        assert(sent@ =~= start.sent);
        assert(queue@ =~= sent@.skip(0));
        let mut done: usize = 0;
        while queue.len() > 0
            invariant
                self.wf(),
                self@.names == old(self)@.names,
                self@.root == old(self)@.root,
                done <= limit,
                done <= sent@.len(),
                queue@ == sent@.skip(done as int),
                start == old(self)@.cycle(),
                start.steps(done as nat) == (Run {
                    modules: self@.modules,
                    sent: sent@,
                    delivered: done as nat,
                }),
            decreases limit - done,
        {
            if done >= limit {
                return Err(RunError::Unsettled);
            }
            let ghost before = start.steps(done as nat);
            let ghost waiting = queue@;
            let p = queue.pop_front().unwrap();
            assert(p == sent@[done as int]) by {
                assert(waiting[0] == sent@[done as int]);
            }
            assert(queue@ =~= sent@.skip(done + 1));
            if p.to < self.modules.len() {
                let ghost m = self@.modules[p.to as int];
                let out = self.modules[p.to].accept_beam(p.beam, p.from);
                assert(self@.modules =~= before.modules.update(
                    p.to as int,
                    accept_state(m, p.beam, p.from),
                ));
                assert(self@.names == old(self)@.names);
                proof {
                    lemma_accept_keeps(
                        GraphState { modules: before.modules, ..old(self)@ },
                        p.to,
                        p.beam,
                        p.from,
                    );
                }
                match out {
                    Some(beam) => {
                        let ghost base = sent@;
                        let ghost all = emissions(p.to, m.targets, beam);
                        let count = self.modules[p.to].targets().len();
                        let mut j: usize = 0;
                        while j < count
                            invariant
                                self.wf(),
                                p.to < self.modules@.len(),
                                self.modules@[p.to as int]@.targets == m.targets,
                                count == m.targets.len(),
                                j <= count,
                                done < base.len(),
                                all == emissions(p.to, m.targets, beam),
                                sent@ == base + all.take(j as int),
                                queue@ == sent@.skip(done + 1),
                            decreases count - j,
                        {
                            let to = self.modules[p.to].targets()[j];
                            let next = Pulse { from: p.to, to, beam };
                            sent.push(next);
                            queue.push_back(next);
                            assert(all.take(j + 1) =~= all.take(j as int).push(all[j as int]));
                            assert(queue@ =~= sent@.skip(done + 1));
                            j += 1;
                        }
                        assert(all.take(count as int) =~= all);
                    },
                    None => {},
                }
            }
            done += 1;
            assert(start.steps(done as nat) == before.step());
        }
        assert(done >= sent@.len()) by {
            assert(sent@.skip(done as int).len() == 0);
        }
        proof {
            start.lemma_settled_stays(done as nat, limit as nat);
        }
        assert(sent@.len() <= limit);
        Ok(sent)
    }
}

} // verus!
