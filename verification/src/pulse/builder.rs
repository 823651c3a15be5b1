//! Building a network from its declarations.
//!
//! Names become indices: first the declared modules in the order of their
//! first declaration, then the names that occur only as targets, in the order
//! in which the target lists mention them, last the root's name if nothing
//! mentioned it. Where a name is declared twice the later declaration stands.

use vstd::prelude::*;
use vstd::string::StringExecFns;
use crate::pulse::module::{BeamType, Module, ModuleState, ModuleType};
use crate::pulse::network::{Graph, GraphState};
use crate::pulse::parse::{parse, parse_line, Declaration, DeclarationText, Fault, ParseError};
use crate::text::texts;

verus! {

/// The first position of `name` in `names`, or `names.len()` where it does
/// not occur.
pub open spec fn position(names: Seq<Seq<char>>, name: Seq<char>) -> int {
    if names.contains(name) {
        choose|i: int| first_at(names, name, i)
    } else {
        names.len() as int
    }
}

/// `name` stands at `i` in `names` and nowhere before.
pub open spec fn first_at(names: Seq<Seq<char>>, name: Seq<char>, i: int) -> bool {
    &&& 0 <= i < names.len()
    &&& names[i] == name
    &&& forall|j: int| 0 <= j < i ==> names[j] != name
}

/// `names` with `name` added at the end unless it is there already.
pub open spec fn intern(names: Seq<Seq<char>>, name: Seq<char>) -> Seq<Seq<char>> {
    if names.contains(name) {
        names
    } else {
        names.push(name)
    }
}

pub proof fn lemma_position(names: Seq<Seq<char>>, name: Seq<char>)
    ensures
        0 <= position(names, name) <= names.len(),
        names.contains(name) <==> position(names, name) < names.len(),
        names.contains(name) ==> first_at(names, name, position(names, name)),
        position(intern(names, name), name) == position(names, name),
        intern(names, name)[position(names, name)] == name,
        names.no_duplicates() ==> intern(names, name).no_duplicates(),
{
    if names.contains(name) {
        let k = choose|k: int| 0 <= k < names.len() && names[k] == name;
        lemma_least(names, name, k);
    } else {
        let more = names.push(name);
        assert(more[names.len() as int] == name);
        assert(first_at(more, name, names.len() as int));
        lemma_first_unique(more, name, names.len() as int);
    }
}

proof fn lemma_least(names: Seq<Seq<char>>, name: Seq<char>, k: int)
    requires
        0 <= k < names.len(),
        names[k] == name,
    ensures
        exists|i: int| first_at(names, name, i),
    decreases k,
{
    if exists|j: int| 0 <= j < k && names[j] == name {
        let j = choose|j: int| 0 <= j < k && names[j] == name;
        lemma_least(names, name, j);
    } else {
        assert(first_at(names, name, k));
    }
}

/// The position of a name is the one place where it first stands.
pub proof fn lemma_first_unique(names: Seq<Seq<char>>, name: Seq<char>, i: int)
    requires
        first_at(names, name, i),
    ensures
        position(names, name) == i,
{
    assert(names.contains(name));
    let p = choose|p: int| first_at(names, name, p);
    assert(first_at(names, name, p));
    if p < i {
    } else if i < p {
    }
}

/// The names of a list of declarations.
pub open spec fn names_of(decls: Seq<DeclarationText>) -> Seq<Seq<char>> {
    decls.map_values(|d: DeclarationText| d.name)
}

/// One declaration for each declared name, in the order in which the names
/// first occur: of several declarations of one name the last.
pub open spec fn declared(decls: Seq<DeclarationText>) -> Seq<DeclarationText>
    decreases decls.len(),
{
    if decls.len() == 0 {
        Seq::empty()
    } else {
        let before = declared(decls.drop_last());
        let d = decls.last();
        let at = position(names_of(before), d.name);
        if at < before.len() {
            before.update(at, d)
        } else {
            before.push(d)
        }
    }
}

/// No name is declared twice in `declared`.
pub proof fn lemma_declared_distinct(decls: Seq<DeclarationText>)
    ensures
        names_of(declared(decls)).no_duplicates(),
        declared(decls).len() <= decls.len(),
    decreases decls.len(),
{
    if decls.len() > 0 {
        lemma_declared_distinct(decls.drop_last());
        let before = declared(decls.drop_last());
        let d = decls.last();
        lemma_position(names_of(before), d.name);
        let at = position(names_of(before), d.name);
        if at < before.len() {
            assert(names_of(before.update(at, d)) =~= names_of(before));
        } else {
            assert(names_of(before.push(d)) =~= names_of(before).push(d.name));
        }
    }
}

/// The names and the indices after the given targets have been looked up in
/// turn, each new name joining the names at the end.
pub open spec fn resolve(names: Seq<Seq<char>>, targets: Seq<Seq<char>>) -> (Seq<Seq<char>>, Seq<
    usize,
>)
    decreases targets.len(),
{
    if targets.len() == 0 {
        (names, Seq::empty())
    } else {
        let (known, indices) = resolve(names, targets.drop_last());
        let t = targets.last();
        (intern(known, t), indices.push(position(known, t) as usize))
    }
}

/// The names and the target indices of the first `count` declarations, after
/// their target lists have been resolved one after the other.
pub open spec fn resolve_all(decls: Seq<DeclarationText>, count: nat) -> (Seq<Seq<char>>, Seq<
    Seq<usize>,
>)
    decreases count,
{
    if count == 0 {
        (names_of(decls), Seq::empty())
    } else {
        let (known, lists) = resolve_all(decls, (count - 1) as nat);
        let (names, indices) = resolve(known, decls[count - 1].targets);
        (names, lists.push(indices))
    }
}

/// The name that the trigger addresses.
pub open spec fn root_name() -> Seq<char> {
    "broadcaster"@
}

/// The network that the declarations wire up, every memory still empty.
pub open spec fn wiring(decls: Seq<DeclarationText>) -> GraphState {
    let unique = declared(decls);
    let (names, lists) = resolve_all(unique, unique.len());
    GraphState {
        names: intern(names, root_name()),
        modules: Seq::new(
            unique.len(),
            |i: int|
                ModuleState {
                    kind: unique[i].kind,
                    on: false,
                    targets: lists[i],
                    memory: Map::empty(),
                },
        ),
        root: position(names, root_name()) as usize,
    }
}

/// The memory of a conjunction before the first pulse: Low for each declared
/// module that has it among its targets, and no other entry.
pub open spec fn inputs(g: GraphState, to: usize) -> Map<usize, BeamType> {
    Map::new(|from: usize| g.sends(from, to), |from: usize| BeamType::Low)
}

/// The network with every conjunction's memory filled in.
pub open spec fn with_inputs(g: GraphState) -> GraphState {
    GraphState {
        modules: Seq::new(
            g.modules.len(),
            |i: int|
                if g.modules[i].kind == ModuleType::Conjunction {
                    ModuleState { memory: inputs(g, i as usize), ..g.modules[i] }
                } else {
                    g.modules[i]
                },
        ),
        ..g
    }
}

/// The network that a list of declarations describes, before the first
/// trigger: flip-flops off, every input of a conjunction remembered as Low.
pub open spec fn network(decls: Seq<DeclarationText>) -> GraphState {
    with_inputs(wiring(decls))
}

/// The declarations that the lines spell, where every line spells one.
pub open spec fn declarations(lines: Seq<Seq<char>>) -> Seq<DeclarationText> {
    lines.map_values(|line: Seq<char>| parse(line)->Ok_0)
}

/// The index of `name` among `names`, or their number where it is not
/// among them.
pub fn lookup(names: &Vec<String>, name: &String) -> (at: usize)
    ensures
        at == position(texts(names@), name@),
{
    let ghost known = texts(names@);
    let mut i: usize = 0;
    while i < names.len()
        invariant
            i <= names@.len(),
            known == texts(names@),
            forall|j: int| 0 <= j < i ==> known[j] != name@,
        decreases names@.len() - i,
    {
        if names[i] == *name {
            proof {
                assert(known[i as int] == name@);
                lemma_first_unique(known, name@, i as int);
            }
            return i;
        }
        i += 1;
    }
    proof {
        lemma_position(known, name@);
    }
    i
}

/// The values of a list of declarations.
pub open spec fn views(decls: Seq<Declaration>) -> Seq<DeclarationText> {
    decls.map_values(|d: Declaration| d@)
}

/// Reads the lines and keeps one declaration for each declared name.
///
/// Fails at the first line that declares no module.
pub fn declare(lines: &Vec<String>) -> (unique: Result<Vec<Declaration>, ParseError>)
    ensures
        match unique {
            Ok(u) => {
                &&& forall|k: int| 0 <= k < lines@.len() ==> parse(#[trigger] lines@[k]@) is Ok
                &&& views(u@) == declared(declarations(texts(lines@)))
            },
            Err(e) => {
                &&& e.line < lines@.len()
                &&& forall|k: int| 0 <= k < e.line ==> parse(#[trigger] lines@[k]@) is Ok
                &&& parse(lines@[e.line as int]@) == Err::<DeclarationText, Fault>(e.fault)
            },
        },
{
    let ghost all = declarations(texts(lines@));
    let mut unique: Vec<Declaration> = Vec::new();
    let mut known: Vec<String> = Vec::new();
    let mut k: usize = 0;
    assert(views(unique@) =~= declared(all.take(0)));
    assert(texts(known@) =~= names_of(views(unique@)));
    while k < lines.len()
        invariant
            k <= lines@.len(),
            all == declarations(texts(lines@)),
            forall|i: int| 0 <= i < k ==> parse(#[trigger] lines@[i]@) is Ok,
            views(unique@) == declared(all.take(k as int)),
            texts(known@) == names_of(views(unique@)),
        decreases lines@.len() - k,
    {
        let d = match parse_line(lines[k].as_str()) {
            Ok(d) => d,
            Err(fault) => {
                return Err(ParseError { line: k, fault });
            },
        };
        proof {
            assert(all.take(k + 1).drop_last() =~= all.take(k as int));
            assert(all.take(k + 1).last() == d@);
            lemma_position(texts(known@), d.name@);
        }
        let ghost before = views(unique@);
        let at = lookup(&known, &d.name);
        if at < unique.len() {
            unique.set(at, d);
            assert(views(unique@) =~= before.update(at as int, d@));
            assert(names_of(views(unique@)) =~= names_of(before));
        } else {
            let ghost names = texts(known@);
            let name = d.name.clone();
            known.push(name);
            assert(texts(known@) =~= names.push(d.name@));
            unique.push(d);
            assert(views(unique@) =~= before.push(d@));
            assert(names_of(before.push(d@)) =~= names_of(before).push(d@.name));
        }
        k += 1;
    }
    assert(all.take(k as int) =~= all);
    Ok(unique)
}

/// Looks up each target in turn, adding the names that are new, and returns
/// the indices of the targets.
pub fn resolve_targets(names: &mut Vec<String>, targets: &Vec<String>) -> (indices: Vec<usize>)
    ensures
        (texts(final(names)@), indices@) == resolve(texts(old(names)@), texts(targets@)),
{
    let ghost start = texts(names@);
    let ghost goal = texts(targets@);
    let mut indices: Vec<usize> = Vec::new();
    let mut k: usize = 0;
    assert(goal.take(0) =~= Seq::empty());
    assert(indices@ =~= resolve(start, goal.take(0)).1);
    while k < targets.len()
        invariant
            k <= targets@.len(),
            goal == texts(targets@),
            (texts(names@), indices@) == resolve(start, goal.take(k as int)),
        decreases targets@.len() - k,
    {
        proof {
            assert(goal.take(k + 1).drop_last() =~= goal.take(k as int));
            assert(goal.take(k + 1).last() == targets@[k as int]@);
            lemma_position(texts(names@), targets@[k as int]@);
        }
        let ghost known = texts(names@);
        let at = lookup(names, &targets[k]);
        if at == names.len() {
            names.push(targets[k].clone());
            assert(texts(names@) =~= known.push(targets@[k as int]@));
        }
        indices.push(at);
        k += 1;
    }
    assert(goal.take(k as int) =~= goal);
    indices
}

/// What looking up a list of targets does to the names: those known stay
/// where they are and stay distinct, and each index names its target.
pub proof fn lemma_resolve(names: Seq<Seq<char>>, targets: Seq<Seq<char>>)
    ensures
        resolve(names, targets).1.len() == targets.len(),
        names.len() <= resolve(names, targets).0.len() <= names.len() + targets.len(),
        resolve(names, targets).0.take(names.len() as int) == names,
        names.no_duplicates() ==> resolve(names, targets).0.no_duplicates(),
        forall|k: int|
            0 <= k < targets.len() && resolve(names, targets).0.len() <= usize::MAX ==> {
                &&& (#[trigger] resolve(names, targets).1[k]) < resolve(names, targets).0.len()
                &&& resolve(names, targets).0[resolve(names, targets).1[k] as int] == targets[k]
            },
    decreases targets.len(),
{
    if targets.len() == 0 {
        assert(names.take(names.len() as int) =~= names);
    } else {
        let front = targets.drop_last();
        lemma_resolve(names, front);
        let (known, indices) = resolve(names, front);
        let t = targets.last();
        lemma_position(known, t);
        let (after, all) = resolve(names, targets);
        assert(after.take(names.len() as int) =~= known.take(names.len() as int));
        assert forall|k: int| 0 <= k < targets.len() && after.len() <= usize::MAX implies {
            &&& (#[trigger] all[k]) < after.len()
            &&& after[all[k] as int] == targets[k]
        } by {
            if k < front.len() {
                assert(all[k] == indices[k]);
                assert(front[k] == targets[k]);
            }
        }
    }
}

/// What resolving the target lists of the first `count` declarations does to
/// the names.
pub proof fn lemma_resolve_all(decls: Seq<DeclarationText>, count: nat)
    requires
        count <= decls.len(),
    ensures
        resolve_all(decls, count).1.len() == count,
        decls.len() <= resolve_all(decls, count).0.len(),
        resolve_all(decls, count).0.take(decls.len() as int) == names_of(decls),
        names_of(decls).no_duplicates() ==> resolve_all(decls, count).0.no_duplicates(),
    decreases count,
{
    if count == 0 {
        assert(names_of(decls).take(decls.len() as int) =~= names_of(decls));
    } else {
        lemma_resolve_all(decls, (count - 1) as nat);
        let (known, lists) = resolve_all(decls, (count - 1) as nat);
        lemma_resolve(known, decls[count - 1].targets);
        let after = resolve(known, decls[count - 1].targets).0;
        assert(after.take(decls.len() as int) =~= after.take(known.len() as int).take(
            decls.len() as int,
        ));
    }
}

/// What module `to` has been told once the target lists of the modules
/// below `sources`, and the first `targets` entries of the list of module
/// `sources`, have been gone through: Low from each module that sends to it.
pub open spec fn told(modules: Seq<ModuleState>, to: usize, sources: int, targets: int) -> Map<
    usize,
    BeamType,
> {
    Map::new(
        |from: usize|
            from < modules.len() && (if from < sources {
                modules[from as int].targets.contains(to)
            } else {
                from == sources && modules[from as int].targets.take(targets).contains(to)
            }),
        |from: usize| BeamType::Low,
    )
}

/// The module as `connect` leaves it when it has got as far as `told` says.
pub open spec fn connected(
    modules: Seq<ModuleState>,
    to: usize,
    sources: int,
    targets: int,
) -> ModuleState {
    if modules[to as int].kind == ModuleType::Conjunction {
        ModuleState { memory: told(modules, to, sources, targets), ..modules[to as int] }
    } else {
        modules[to as int]
    }
}

/// The memory of a conjunction once `connect` is through: Low for each
/// module that sends to it.
pub open spec fn told_all(modules: Seq<ModuleState>, to: usize) -> Map<usize, BeamType> {
    Map::new(
        |from: usize| from < modules.len() && modules[from as int].targets.contains(to),
        |from: usize| BeamType::Low,
    )
}

/// Before anything is gone through, nothing has been told.
proof fn lemma_told_nothing(modules: Seq<ModuleState>, to: usize)
    ensures
        told(modules, to, 0, 0) == Map::<usize, BeamType>::empty(),
{
    assert(told(modules, to, 0, 0) =~= Map::empty()) by {
        if modules.len() > 0 {
            assert(modules[0].targets.take(0) =~= Seq::empty());
        }
    }
}

/// One target more of module `j` tells that target of `j`, and no other
/// module of anything.
proof fn lemma_told_next(modules: Seq<ModuleState>, to: usize, j: int, k: int)
    requires
        0 <= j < modules.len(),
        j <= usize::MAX,
        0 <= k < modules[j].targets.len(),
    ensures
        told(modules, to, j, k + 1) == if modules[j].targets[k] == to {
            told(modules, to, j, k).insert(j as usize, BeamType::Low)
        } else {
            told(modules, to, j, k)
        },
{
    let list = modules[j].targets;
    let shorter = list.take(k);
    let longer = list.take(k + 1);
    assert(longer =~= shorter.push(list[k]));
    assert(longer[k] == list[k]);
    assert(longer.contains(to) <==> shorter.contains(to) || list[k] == to) by {
        if shorter.contains(to) {
            let p = choose|p: int| 0 <= p < shorter.len() && shorter[p] == to;
            assert(longer[p] == to);
        }
        if longer.contains(to) && list[k] != to {
            let p = choose|p: int| 0 <= p < longer.len() && longer[p] == to;
            assert(shorter[p] == to);
        }
    }
    if list[k] == to {
        assert(told(modules, to, j, k + 1) =~= told(modules, to, j, k).insert(
            j as usize,
            BeamType::Low,
        ));
    } else {
        assert(told(modules, to, j, k + 1) =~= told(modules, to, j, k));
    }
}

/// When the targets of module `j` are gone through, the next module's turn
/// begins with what has been told.
proof fn lemma_told_row(modules: Seq<ModuleState>, to: usize, j: int)
    requires
        0 <= j < modules.len(),
    ensures
        told(modules, to, j + 1, 0) == told(modules, to, j, modules[j].targets.len() as int),
{
    let list = modules[j].targets;
    assert(list.take(list.len() as int) =~= list);
    if j + 1 < modules.len() {
        assert(modules[j + 1].targets.take(0) =~= Seq::empty());
    }
    assert(told(modules, to, j + 1, 0) =~= told(modules, to, j, list.len() as int));
}

/// When every module is gone through, each module has been told of all
/// that send to it.
proof fn lemma_told_all(modules: Seq<ModuleState>, to: usize)
    ensures
        told(modules, to, modules.len() as int, 0) == told_all(modules, to),
{
    assert(told(modules, to, modules.len() as int, 0) =~= told_all(modules, to));
}

/// Tells every conjunction of each module that sends to it.
pub fn connect(modules: &mut Vec<Module>)
    requires
        forall|i: int| 0 <= i < old(modules)@.len() ==> (#[trigger] old(modules)@[i]).wf(),
        forall|i: int|
            0 <= i < old(modules)@.len() ==> (#[trigger] old(modules)@[i])@.memory
                == Map::<usize, BeamType>::empty(),
    ensures
        final(modules)@.len() == old(modules)@.len(),
        forall|i: int| 0 <= i < final(modules)@.len() ==> (#[trigger] final(modules)@[i]).wf(),
        forall|i: int|
            0 <= i < final(modules)@.len() ==> (#[trigger] final(modules)@[i])@ == {
                let m = old(modules)@[i]@;
                if m.kind == ModuleType::Conjunction {
                    ModuleState {
                        memory: told_all(old(modules)@.map_values(|m: Module| m@), i as usize),
                        ..m
                    }
                } else {
                    m
                }
            },
{
    let ghost start = modules@.map_values(|m: Module| m@);
    let n = modules.len();
    let mut j: usize = 0;
    assert forall|i: int| 0 <= i < n implies (#[trigger] modules@[i])@ == connected(
        start,
        i as usize,
        0,
        0,
    ) by {
        lemma_told_nothing(start, i as usize);
    }
    while j < n
        invariant
            j <= n,
            n == modules@.len(),
            start.len() == n,
            start == old(modules)@.map_values(|m: Module| m@),
            forall|i: int| 0 <= i < n ==> (#[trigger] modules@[i]).wf(),
            forall|i: int|
                0 <= i < n ==> (#[trigger] modules@[i])@ == connected(
                    start,
                    i as usize,
                    j as int,
                    0,
                ),
        decreases n - j,
    {
        let count = modules[j].targets().len();
        let mut k: usize = 0;
        while k < count
            invariant
                j < n,
                k <= count,
                count == start[j as int].targets.len(),
                n == modules@.len(),
                start.len() == n,
                forall|i: int| 0 <= i < n ==> (#[trigger] modules@[i]).wf(),
                forall|i: int|
                    0 <= i < n ==> (#[trigger] modules@[i])@ == connected(
                        start,
                        i as usize,
                        j as int,
                        k as int,
                    ),
            decreases count - k,
        {
            let to = modules[j].targets()[k];
            let ghost before = modules@;
            if to < n {
                if modules[to].module_type() == ModuleType::Conjunction {
                    modules[to].handle_source(j);
                }
            }
            assert forall|i: int| 0 <= i < n implies (#[trigger] modules@[i])@ == connected(
                start,
                i as usize,
                j as int,
                k + 1,
            ) by {
                lemma_told_next(start, i as usize, j as int, k as int);
                if i != to {
                    assert(modules@[i] == before[i]);
                }
            }
            k += 1;
        }
        assert forall|i: int| 0 <= i < n implies (#[trigger] modules@[i])@ == connected(
            start,
            i as usize,
            j + 1,
            0,
        ) by {
            lemma_told_row(start, i as usize, j as int);
        }
        j += 1;
    }
    assert forall|i: int| 0 <= i < n implies (#[trigger] modules@[i])@ == {
        let m = old(modules)@[i]@;
        if m.kind == ModuleType::Conjunction {
            ModuleState { memory: told_all(start, i as usize), ..m }
        } else {
            m
        }
    } by {
        lemma_told_all(start, i as usize);
        assert(start[i] == old(modules)@[i]@);
    }
}

/// What `wiring` gives is a network in good order: distinct names, a name
/// for every module, and a root among the names.
pub proof fn lemma_wiring(decls: Seq<DeclarationText>)
    ensures
        wiring(decls).names.no_duplicates(),
        wiring(decls).modules.len() <= wiring(decls).names.len(),
        wiring(decls).names.len() <= usize::MAX ==> wiring(decls).root < wiring(decls).names.len()
            && wiring(decls).names[wiring(decls).root as int] == root_name(),
{
    let unique = declared(decls);
    lemma_declared_distinct(decls);
    lemma_resolve_all(unique, unique.len());
    let names = resolve_all(unique, unique.len()).0;
    lemma_position(names, root_name());
}

/// Each index in the resolved target lists names the target that was
/// written.
pub proof fn lemma_resolved_targets(decls: Seq<DeclarationText>, count: nat)
    requires
        count <= decls.len(),
        resolve_all(decls, count).0.len() <= usize::MAX,
    ensures
        forall|j: int|
            0 <= j < count ==> (#[trigger] resolve_all(decls, count).1[j]).len()
                == decls[j].targets.len(),
        forall|j: int, k: int|
            0 <= j < count && 0 <= k < decls[j].targets.len() ==> {
                &&& (#[trigger] resolve_all(decls, count).1[j][k]) < resolve_all(decls, count).0.len()
                &&& resolve_all(decls, count).0[resolve_all(decls, count).1[j][k] as int]
                    == decls[j].targets[k]
            },
    decreases count,
{
    if count > 0 {
        let (known, before) = resolve_all(decls, (count - 1) as nat);
        let written = decls[count - 1].targets;
        let (names, indices) = resolve(known, written);
        let lists = resolve_all(decls, count).1;
        lemma_resolve(known, written);
        lemma_resolve_all(decls, (count - 1) as nat);
        lemma_resolved_targets(decls, (count - 1) as nat);
        assert(lists == before.push(indices));
        assert forall|j: int| 0 <= j < count implies (#[trigger] lists[j]).len()
            == decls[j].targets.len() by {
            if j < count - 1 {
                assert(lists[j] == before[j]);
            }
        }
        assert forall|j: int, k: int| 0 <= j < count && 0 <= k < decls[j].targets.len() implies {
            &&& (#[trigger] lists[j][k]) < names.len()
            &&& names[lists[j][k] as int] == decls[j].targets[k]
        } by {
            if j < count - 1 {
                assert(lists[j] == before[j]);
                let at = before[j][k];
                assert(at < known.len() && known[at as int] == decls[j].targets[k]);
                assert(names.take(known.len() as int)[at as int] == names[at as int]);
            } else {
                assert(lists[j] == indices);
                assert(indices[k] < names.len() && names[indices[k] as int] == written[k]);
            }
        }
    }
}

/// Declarations of distinct names are all kept, in their order.
pub proof fn lemma_declared_all(decls: Seq<DeclarationText>)
    requires
        names_of(decls).no_duplicates(),
    ensures
        declared(decls) == decls,
    decreases decls.len(),
{
    if decls.len() > 0 {
        let front = decls.drop_last();
        let d = decls.last();
        assert(names_of(front) =~= names_of(decls).drop_last());
        assert(names_of(front).no_duplicates()) by {
            assert forall|i: int, j: int|
                0 <= i < front.len() && 0 <= j < front.len() && i != j implies names_of(front)[i]
                != names_of(front)[j] by {
                assert(names_of(decls)[i] == names_of(front)[i]);
                assert(names_of(decls)[j] == names_of(front)[j]);
            }
        }
        lemma_declared_all(front);
        lemma_position(names_of(front), d.name);
        if names_of(front).contains(d.name) {
            let i = choose|i: int| 0 <= i < front.len() && names_of(front)[i] == d.name;
            assert(names_of(decls)[i] == d.name);
            assert(names_of(decls)[decls.len() - 1] == d.name);
        }
        assert(front.push(d) =~= decls);
    }
}

/// What the network of a list of declarations is, declaration by
/// declaration. Module `i` is the one that the `i`th declared name was last
/// declared as: it stands under that name and has that kind, and its targets
/// are, in the order in which they were written, the indices of the names
/// that were written. Where no name is declared twice these are the
/// declarations as they were given.
pub proof fn lemma_network_means(decls: Seq<DeclarationText>)
    requires
        network(decls).names.len() <= usize::MAX,
    ensures
        network(decls).modules.len() == declared(decls).len(),
        network(decls).modules.len() <= network(decls).names.len(),
        network(decls).root < network(decls).names.len(),
        network(decls).names[network(decls).root as int] == root_name(),
        network(decls).names.no_duplicates(),
        names_of(decls).no_duplicates() ==> declared(decls) == decls,
        forall|i: int|
            0 <= i < declared(decls).len() ==> {
                &&& network(decls).names[i] == (#[trigger] declared(decls)[i]).name
                &&& network(decls).modules[i].kind == declared(decls)[i].kind
                &&& network(decls).modules[i].targets.len() == declared(decls)[i].targets.len()
            },
        forall|i: int, k: int|
            0 <= i < declared(decls).len() && 0 <= k < declared(decls)[i].targets.len() ==> {
                &&& (#[trigger] network(decls).modules[i].targets[k]) < network(decls).names.len()
                &&& network(decls).names[network(decls).modules[i].targets[k] as int]
                    == declared(decls)[i].targets[k]
            },
{
    let unique = declared(decls);
    let (names, lists) = resolve_all(unique, unique.len());
    let g = network(decls);
    lemma_wiring(decls);
    lemma_declared_distinct(decls);
    lemma_resolve_all(unique, unique.len());
    lemma_position(names, root_name());
    assert(names.len() <= g.names.len());
    lemma_resolved_targets(unique, unique.len());
    if names_of(decls).no_duplicates() {
        lemma_declared_all(decls);
    }
    assert forall|i: int| 0 <= i < unique.len() implies {
        &&& g.names[i] == (#[trigger] unique[i]).name
        &&& g.modules[i].kind == unique[i].kind
        &&& g.modules[i].targets.len() == unique[i].targets.len()
    } by {
        assert(names.take(unique.len() as int)[i] == names[i]);
        assert(names_of(unique)[i] == unique[i].name);
        assert(g.names[i] == names[i]);
        assert(g.modules[i].targets == lists[i]);
    }
    assert forall|i: int, k: int|
        0 <= i < unique.len() && 0 <= k < unique[i].targets.len() implies {
        &&& (#[trigger] g.modules[i].targets[k]) < g.names.len()
        &&& g.names[g.modules[i].targets[k] as int] == unique[i].targets[k]
    } by {
        assert(g.modules[i].targets == lists[i]);
        let at = lists[i][k];
        assert(at < names.len() && names[at as int] == unique[i].targets[k]);
        assert(g.names[at as int] == names[at as int]);
    }
}

/// Builds the network that the lines declare, one module to a line.
///
/// Fails at the first line that declares no module; no part of a network is
/// returned then.
pub fn create_modules(lines: &Vec<String>) -> (graph: Result<Graph, ParseError>)
    ensures
        match graph {
            Ok(g) => {
                &&& forall|k: int| 0 <= k < lines@.len() ==> parse(#[trigger] lines@[k]@) is Ok
                &&& g.wf()
                &&& g@ == network(declarations(texts(lines@)))
            },
            Err(e) => {
                &&& e.line < lines@.len()
                &&& forall|k: int| 0 <= k < e.line ==> parse(#[trigger] lines@[k]@) is Ok
                &&& parse(lines@[e.line as int]@) == Err::<DeclarationText, Fault>(e.fault)
            },
        },
{
    let unique = match declare(lines) {
        Ok(unique) => unique,
        Err(e) => {
            return Err(e);
        },
    };
    let ghost decls = declarations(texts(lines@));
    let ghost u = views(unique@);
    let mut names: Vec<String> = Vec::new();
    let mut i: usize = 0;
    while i < unique.len()
        invariant
            i <= unique@.len(),
            u == views(unique@),
            texts(names@) == names_of(u).take(i as int),
        decreases unique@.len() - i,
    {
        let ghost known = texts(names@);
        let name = unique[i].name.clone();
        names.push(name);
        assert(texts(names@) =~= known.push(u[i as int].name));
        assert(names_of(u).take(i + 1) =~= names_of(u).take(i as int).push(u[i as int].name));
        i += 1;
    }
    assert(names_of(u).take(i as int) =~= names_of(u));
    let mut modules: Vec<Module> = Vec::new();
    let mut i: usize = 0;
    let ghost mut lists: Seq<Seq<usize>> = Seq::empty();
    while i < unique.len()
        invariant
            i <= unique@.len(),
            u == views(unique@),
            (texts(names@), lists) == resolve_all(u, i as nat),
            lists.len() == i,
            modules@.len() == i,
            forall|j: int| 0 <= j < i ==> (#[trigger] modules@[j]).wf(),
            forall|j: int|
                0 <= j < i ==> (#[trigger] modules@[j])@ == (ModuleState {
                    kind: u[j].kind,
                    on: false,
                    targets: lists[j],
                    memory: Map::empty(),
                }),
        decreases unique@.len() - i,
    {
        let indices = resolve_targets(&mut names, &unique[i].targets);
        let module = Module::new(unique[i].module_type, indices);
        modules.push(module);
        proof {
            assert(u[i as int] == unique@[i as int]@);
            lists = lists.push(indices@);
        }
        i += 1;
    }
    let root_text = String::from_str("broadcaster");
    let ghost resolved = texts(names@);
    let root = lookup(&names, &root_text);
    if root == names.len() {
        names.push(root_text);
        assert(texts(names@) =~= resolved.push(root_name()));
    }
    proof {
        lemma_position(resolved, root_name());
        lemma_wiring(decls);
        assert(texts(names@) == wiring(decls).names);
        assert(names@.len() == names.len());
    }
    let ghost wired = modules@.map_values(|m: Module| m@);
    assert(wired =~= wiring(decls).modules);
    connect(&mut modules);
    let g = Graph::new(names, modules, root);
    proof {
        let w = wiring(decls);
        assert(g@.modules =~= with_inputs(w).modules) by {
            assert forall|i: int| 0 <= i < w.modules.len() implies g@.modules[i] == with_inputs(
                w,
            ).modules[i] by {
                if w.modules[i].kind == ModuleType::Conjunction {
                    assert(g@.modules[i].memory =~= inputs(w, i as usize));
                }
            }
        }
    }
    Ok(g)
}

} // verus!
