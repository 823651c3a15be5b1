//! The three kinds of module and the rule by which each answers a pulse.

use vstd::prelude::*;

verus! {

/// The level of a pulse.
#[derive(Clone, Copy, Debug, PartialEq, Eq, Structural)]
pub enum BeamType {
    High,
    Low,
}

/// The kind of a module; it selects the rule of [`accept`].
#[derive(Clone, Copy, Debug, PartialEq, Eq, Structural)]
pub enum ModuleType {
    FlipFlop,
    Conjunction,
    Broadcaster,
}

/// The mathematical value of a [`Module`].
///
/// Modules are named by their index in the network. `on` is the stored bit of
/// a flip-flop, `memory` the last level a conjunction received from each of
/// its inputs; a module of another kind never changes them.
pub struct ModuleState {
    pub kind: ModuleType,
    pub on: bool,
    pub targets: Seq<usize>,
    pub memory: Map<usize, BeamType>,
}

/// Every remembered level is High. Holds of an empty memory.
pub open spec fn all_high(memory: Map<usize, BeamType>) -> bool {
    forall|k: usize| memory.dom().contains(k) ==> #[trigger] memory[k] == BeamType::High
}

/// The level a conjunction emits for a given memory: Low exactly if every
/// remembered level is High.
pub open spec fn conjunction_output(memory: Map<usize, BeamType>) -> BeamType {
    if all_high(memory) {
        BeamType::Low
    } else {
        BeamType::High
    }
}

/// The memory of a conjunction after it has heard `incoming` from `from`:
/// the level remembered for `from` is `incoming`, where `from` is one of
/// the inputs. The inputs are fixed when the network is built, so a level
/// from any other source changes nothing.
pub open spec fn heard(memory: Map<usize, BeamType>, incoming: BeamType, from: usize) -> Map<
    usize,
    BeamType,
> {
    if memory.dom().contains(from) {
        memory.insert(from, incoming)
    } else {
        memory
    }
}

/// The state of a module after it has received `incoming` from `from`.
pub open spec fn accept_state(m: ModuleState, incoming: BeamType, from: usize) -> ModuleState {
    match m.kind {
        ModuleType::Broadcaster => m,
        ModuleType::FlipFlop => if incoming == BeamType::Low {
            ModuleState { on: !m.on, ..m }
        } else {
            m
        },
        ModuleType::Conjunction => ModuleState { memory: heard(m.memory, incoming, from), ..m },
    }
}

/// The level that a module sends to each of its targets when it receives
/// `incoming` from `from`, or `None` where it stays silent.
///
/// A broadcaster repeats the level. A flip-flop ignores High; on Low it
/// toggles and reports its new bit, High for on. A conjunction first
/// remembers the level, then answers by [`conjunction_output`].
pub open spec fn accept_output(m: ModuleState, incoming: BeamType, from: usize) -> Option<
    BeamType,
> {
    match m.kind {
        ModuleType::Broadcaster => Some(incoming),
        ModuleType::FlipFlop => if incoming == BeamType::Low {
            if m.on {
                Some(BeamType::Low)
            } else {
                Some(BeamType::High)
            }
        } else {
            None
        },
        ModuleType::Conjunction => Some(conjunction_output(heard(m.memory, incoming, from))),
    }
}

/// One module of a network: its kind, the modules it sends to, and the memory
/// that its kind calls for.
#[derive(Debug)]
pub struct Module {
    module_type: ModuleType,
    on: bool,
    targets: Vec<usize>,
    sources: Vec<usize>,
    levels: Vec<BeamType>,
}

impl Clone for Module {
    /// An independent copy: what one of the two receives leaves the other as
    /// it was.
    fn clone(&self) -> (copy: Module)
        ensures
            copy@ == self@,
            copy.wf() == self.wf(),
    {
        let copy = Module {
            module_type: self.module_type,
            on: self.on,
            targets: self.targets.clone(),
            sources: self.sources.clone(),
            levels: self.levels.clone(),
        };
        assert(copy.targets@ =~= self.targets@);
        assert(copy.sources@ =~= self.sources@);
        assert(copy.levels@ =~= self.levels@);
        assert(copy.memory() =~= self.memory());
        copy
    }
}

impl Module {
    /// The inputs of a conjunction are kept without repetition, each with one
    /// remembered level.
    pub closed spec fn wf(&self) -> bool {
        &&& self.sources@.len() == self.levels@.len()
        &&& self.sources@.no_duplicates()
    }

    /// The remembered level of each input.
    pub closed spec fn memory(&self) -> Map<usize, BeamType> {
        Map::new(
            |k: usize| self.sources@.contains(k),
            |k: usize| self.levels@[self.sources@.index_of(k)],
        )
    }

    pub closed spec fn view(&self) -> ModuleState {
        ModuleState {
            kind: self.module_type,
            on: self.on,
            targets: self.targets@,
            memory: self.memory(),
        }
    }

    proof fn lemma_memory_at(&self, i: int)
        requires
            self.wf(),
            0 <= i < self.sources@.len(),
        ensures
            self.memory().dom().contains(self.sources@[i]),
            self.memory()[self.sources@[i]] == self.levels@[i],
    {
        let k = self.sources@[i];
        assert(self.sources@.contains(k));
        let j = self.sources@.index_of(k);
        assert(self.sources@[j] == k);
    }

    /// A module of the given kind with the given targets: a flip-flop that is
    /// off, a conjunction that has no inputs yet.
    pub fn new(module_type: ModuleType, targets: Vec<usize>) -> (m: Module)
        ensures
            m.wf(),
            m@ == (ModuleState {
                kind: module_type,
                on: false,
                targets: targets@,
                memory: Map::empty(),
            }),
    {
        let m = Module {
            module_type,
            on: false,
            targets,
            sources: Vec::new(),
            levels: Vec::new(),
        };
        assert(m.memory() =~= Map::empty());
        m
    }

    pub fn module_type(&self) -> (kind: ModuleType)
        ensures
            kind == self@.kind,
    {
        self.module_type
    }

    pub fn is_on(&self) -> (on: bool)
        ensures
            on == self@.on,
    {
        self.on
    }

    pub fn targets(&self) -> (targets: &Vec<usize>)
        ensures
            targets@ == self@.targets,
    {
        &self.targets
    }

    /// The position of `source` among the inputs.
    fn position(&self, source: usize) -> (at: Option<usize>)
        requires
            self.wf(),
        ensures
            match at {
                Some(i) => i < self.sources@.len() && self.sources@[i as int] == source,
                None => !self.sources@.contains(source),
            },
    {
        let mut i: usize = 0;
        while i < self.sources.len()
            invariant
                i <= self.sources@.len(),
                forall|j: int| 0 <= j < i ==> self.sources@[j] != source,
            decreases self.sources@.len() - i,
        {
            if self.sources[i] == source {
                return Some(i);
            }
            i += 1;
        }
        None
    }

    /// The level last received from `source`, if `source` is an input.
    pub fn remembered(&self, source: usize) -> (level: Option<BeamType>)
        requires
            self.wf(),
        ensures
            level == (if self@.memory.dom().contains(source) {
                Some(self@.memory[source])
            } else {
                None
            }),
    {
        match self.position(source) {
            Some(i) => {
                proof {
                    self.lemma_memory_at(i as int);
                }
                Some(self.levels[i])
            },
            None => None,
        }
    }

    /// Sets the remembered level of `source` where it is an input, and does
    /// nothing where it is none.
    fn hear(&mut self, source: usize, level: BeamType)
        requires
            old(self).wf(),
        ensures
            final(self).wf(),
            final(self).memory() == heard(old(self).memory(), level, source),
            final(self).module_type == old(self).module_type,
            final(self).on == old(self).on,
            final(self).targets == old(self).targets,
    {
        match self.position(source) {
            Some(i) => {
                self.levels.set(i, level);
                proof {
                    assert(old(self).sources@.contains(source));
                    assert forall|k: usize| self.sources@.contains(k) implies self.memory()[k]
                        == old(self).memory().insert(source, level)[k] by {
                        let j = self.sources@.index_of(k);
                        assert(self.sources@[j] == k);
                    }
                    assert(self.memory() =~= old(self).memory().insert(source, level));
                }
            },
            None => {},
        }
    }

    /// Sets the remembered level of `source`, which becomes an input if it was
    /// none.
    fn remember(&mut self, source: usize, level: BeamType)
        requires
            old(self).wf(),
        ensures
            final(self).wf(),
            final(self).memory() == old(self).memory().insert(source, level),
            final(self).module_type == old(self).module_type,
            final(self).on == old(self).on,
            final(self).targets == old(self).targets,
    {
        match self.position(source) {
            Some(i) => {
                self.levels.set(i, level);
                proof {
                    assert forall|k: usize| self.sources@.contains(k) implies self.memory()[k]
                        == old(self).memory().insert(source, level)[k] by {
                        let j = self.sources@.index_of(k);
                        assert(self.sources@[j] == k);
                    }
                    assert(self.memory() =~= old(self).memory().insert(source, level));
                }
            },
            None => {
                self.sources.push(source);
                self.levels.push(level);
                proof {
                    let n = old(self).sources@.len() as int;
                    assert(self.sources@[n] == source);
                    assert forall|k: usize| self.sources@.contains(k) implies self.memory()[k]
                        == old(self).memory().insert(source, level)[k] by {
                        let j = self.sources@.index_of(k);
                        assert(self.sources@[j] == k);
                        if k != source {
                            assert(j < n);
                            assert(old(self).sources@[j] == k);
                            let j0 = old(self).sources@.index_of(k);
                            assert(old(self).sources@[j0] == k);
                            assert(self.sources@[j0] == k);
                        }
                    }
                    assert forall|k: usize|
                        self.sources@.contains(k) <==> (k == source || old(self).sources@.contains(
                            k,
                        )) by {
                        if old(self).sources@.contains(k) {
                            let j0 = old(self).sources@.index_of(k);
                            assert(self.sources@[j0] == k);
                        }
                        if self.sources@.contains(k) {
                            let j = self.sources@.index_of(k);
                            if j < n {
                                assert(old(self).sources@[j] == k);
                            }
                        }
                    }
                    assert(self.memory() =~= old(self).memory().insert(source, level));
                }
            },
        }
    }

    /// Makes `source` an input whose last level counts as Low. On a module that
    /// already has this input, its remembered level becomes Low again. This is
    /// for building a network: no pulse adds an input.
    pub fn handle_source(&mut self, source: usize)
        requires
            old(self).wf(),
        ensures
            final(self).wf(),
            final(self)@ == (ModuleState {
                memory: old(self)@.memory.insert(source, BeamType::Low),
                ..old(self)@
            }),
    {
        self.remember(source, BeamType::Low);
    }

    /// Whether every remembered level is High.
    fn inputs_all_high(&self) -> (b: bool)
        requires
            self.wf(),
        ensures
            b == all_high(self.memory()),
    {
        let mut i: usize = 0;
        while i < self.levels.len()
            invariant
                self.wf(),
                i <= self.levels@.len(),
                forall|j: int| 0 <= j < i ==> self.levels@[j] == BeamType::High,
            decreases self.levels@.len() - i,
        {
            if self.levels[i] == BeamType::Low {
                proof {
                    self.lemma_memory_at(i as int);
                }
                return false;
            }
            i += 1;
        }
        proof {
            assert forall|k: usize| self.memory().dom().contains(k) implies self.memory()[k]
                == BeamType::High by {
                let j = self.sources@.index_of(k);
                assert(self.sources@[j] == k);
            }
        }
        true
    }

    /// Receives one pulse and says what the module sends to each of its
    /// targets in answer, if anything. Only this module's own memory changes,
    /// and of a conjunction's memory only a level: its inputs stay as they
    /// are.
    pub fn accept_beam(&mut self, incoming: BeamType, from: usize) -> (out: Option<BeamType>)
        requires
            old(self).wf(),
        ensures
            final(self).wf(),
            final(self)@ == accept_state(old(self)@, incoming, from),
            out == accept_output(old(self)@, incoming, from),
    {
        match self.module_type {
            ModuleType::Broadcaster => Some(incoming),
            ModuleType::FlipFlop => {
                if incoming == BeamType::Low {
                    self.on = !self.on;
                    if self.on {
                        Some(BeamType::High)
                    } else {
                        Some(BeamType::Low)
                    }
                } else {
                    None
                }
            },
            ModuleType::Conjunction => {
                self.hear(from, incoming);
                if self.inputs_all_high() {
                    Some(BeamType::Low)
                } else {
                    Some(BeamType::High)
                }
            },
        }
    }
}

} // verus!
