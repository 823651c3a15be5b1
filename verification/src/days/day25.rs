//! A machine of wired components: the smallest number of wires whose cutting
//! parts the components in two, and the sizes of the two parts.

use rustworkx_core::connectivity::stoer_wagner_min_cut;
use rustworkx_core::petgraph::graph::UnGraph;
use vstd::prelude::*;
use crate::pulse::builder::{intern, lemma_position, lookup, position};
use crate::text::{split, split_within, texts, to_chars, word_bounds, words};

verus! {

/// How many of the first `upto` wires join a component of the part with one
/// outside it.
pub open spec fn crossing(edges: Seq<(usize, usize)>, part: Set<usize>, upto: int) -> int
    decreases upto,
{
    if upto <= 0 || upto > edges.len() {
        0
    } else if part.contains(edges[upto - 1].0) != part.contains(edges[upto - 1].1) {
        crossing(edges, part, upto - 1) + 1
    } else {
        crossing(edges, part, upto - 1)
    }
}

/// The set holds some, but not all, of the components 0 to `n - 1`, and
/// nothing else.
pub open spec fn proper_part(n: usize, part: Set<usize>) -> bool {
    &&& forall|c: usize| part.contains(c) ==> c < n
    &&& exists|c: usize| part.contains(c)
    &&& exists|c: usize| c < n && !part.contains(c)
}

/// `part` lists, each once, the components of one side of a smallest cut of
/// the machine, and `cut` is the number of wires that the cut severs.
pub open spec fn smallest_cut(n: usize, edges: Seq<(usize, usize)>, cut: usize, part: Seq<usize>) -> bool {
    &&& part.no_duplicates()
    &&& proper_part(n, part.to_set())
    &&& cut == crossing(edges, part.to_set(), edges.len() as int)
    &&& forall|other: Set<usize>|
        proper_part(n, other) ==> cut <= #[trigger] crossing(edges, other, edges.len() as int)
}

/// `stoer_wagner_min_cut` of the crate `rustworkx_core`, on the undirected
/// graph of the crate `petgraph` with `n` nodes and the given edges, each
/// edge at cost 1. The contract states what the crate documents: for a graph
/// of fewer than two nodes there is no cut; for any other, the value of a
/// minimum cut and the nodes of one part of the partition that defines it.
/// Which minimum cut it is, where there are several, is left open. The graph
/// must stay below the number of nodes and of edges that `petgraph` can
/// index with 32 bits.
#[verifier::external_body]
fn min_cut(n: usize, edges: &Vec<(usize, usize)>) -> (found: Option<(usize, Vec<usize>)>)
    requires
        n < u32::MAX,
        edges@.len() < u32::MAX,
        forall|i: int| 0 <= i < edges@.len() ==> (#[trigger] edges@[i]).0 < n && edges@[i].1 < n,
    ensures
        match found {
            Some((cut, part)) => n >= 2 && smallest_cut(n, edges@, cut, part@),
            None => n < 2,
        },
{
    let mut graph = UnGraph::<(), ()>::new_undirected();
    let nodes: Vec<_> = (0..n).map(|_| graph.add_node(())).collect();
    for &(a, b) in edges {
        graph.add_edge(nodes[a], nodes[b], ());
    }
    let found: Result<Option<(usize, Vec<_>)>, ()> = stoer_wagner_min_cut(&graph, |_| Ok(1));
    found.ok().flatten().map(|(cut, part)| (cut, part.iter().map(|x| x.index()).collect()))
}

/// A wire joins `a` and `b`, in either direction.
pub open spec fn linked(edges: Seq<(usize, usize)>, a: usize, b: usize) -> bool {
    exists|i: int| 0 <= i < edges.len() && (#[trigger] edges[i] == (a, b) || edges[i] == (b, a))
}

/// A machine under construction: the names of its components, and its
/// wires, each by the indices of the two components it joins.
pub struct Machine {
    pub names: Seq<Seq<char>>,
    pub edges: Seq<(usize, usize)>,
}

/// The machine with a wire from `from` to each of the first `upto` targets:
/// a component that was not known gets the next index, and a wire between two
/// components that are joined already is left out.
pub open spec fn wired(m: Machine, from: usize, targets: Seq<Seq<char>>, upto: int) -> Machine
    decreases upto,
{
    if upto <= 0 || upto > targets.len() {
        m
    } else {
        let before = wired(m, from, targets, upto - 1);
        let to = position(before.names, targets[upto - 1]) as usize;
        Machine {
            names: intern(before.names, targets[upto - 1]),
            edges: if linked(before.edges, from, to) {
                before.edges
            } else {
                before.edges.push((from, to))
            },
        }
    }
}

/// The machine with what a line says: behind the name of a component and
/// `: `, the names of the components it is wired to, as words, up to a second
/// `: `. A line without `: ` says nothing that can be read.
pub open spec fn with_line(m: Machine, line: Seq<char>) -> Option<Machine> {
    let parts = split(line, seq![':', ' ']);
    if parts.len() < 2 {
        None
    } else {
        let from = position(m.names, parts[0]) as usize;
        let named = Machine { names: intern(m.names, parts[0]), edges: m.edges };
        Some(wired(named, from, words(parts[1]), words(parts[1]).len() as int))
    }
}

/// The machine that the first `upto` lines describe.
pub open spec fn machine_of(lines: Seq<Seq<char>>, upto: int) -> Option<Machine>
    decreases upto,
{
    if upto <= 0 || upto > lines.len() {
        Some(Machine { names: Seq::empty(), edges: Seq::empty() })
    } else {
        match machine_of(lines, upto - 1) {
            Some(m) => with_line(m, lines[upto - 1]),
            None => None,
        }
    }
}

/// Lines of which a part describes no machine describe none.
pub proof fn lemma_no_machine(lines: Seq<Seq<char>>, k: int, n: int)
    requires
        0 <= k <= n <= lines.len(),
        machine_of(lines, k) is None,
    ensures
        machine_of(lines, n) is None,
    decreases n - k,
{
    if k < n {
        lemma_no_machine(lines, k, n - 1);
    }
}

/// Whether a wire joins `a` and `b`.
pub fn has_edge(edges: &Vec<(usize, usize)>, a: usize, b: usize) -> (found: bool)
    ensures
        found == linked(edges@, a, b),
{
    let mut i: usize = 0;
    while i < edges.len()
        invariant
            i <= edges@.len(),
            forall|j: int| 0 <= j < i ==> !(#[trigger] edges@[j] == (a, b) || edges@[j] == (b, a)),
        decreases edges@.len() - i,
    {
        let e = edges[i];
        if (e.0 == a && e.1 == b) || (e.0 == b && e.1 == a) {
            assert(edges@[i as int] == (a, b) || edges@[i as int] == (b, a));
            return true;
        }
        i += 1;
    }
    false
}

/// The index of a component, which is new where its name was not known.
pub fn component(names: &mut Vec<String>, name: String) -> (at: usize)
    ensures
        at == position(texts(old(names)@), name@),
        texts(final(names)@) == intern(texts(old(names)@), name@),
        at < final(names)@.len(),
        old(names)@.len() <= final(names)@.len() <= old(names)@.len() + 1,
{
    proof {
        lemma_position(texts(names@), name@);
    }
    let ghost known = texts(names@);
    let at = lookup(names, &name);
    if at == names.len() {
        names.push(name);
        assert(texts(names@) =~= known.push(name@));
    }
    at
}

/// Every wire joins two components of the machine.
pub open spec fn in_range(names: Seq<Seq<char>>, edges: Seq<(usize, usize)>) -> bool {
    forall|i: int|
        0 <= i < edges.len() ==> (#[trigger] edges[i]).0 < names.len() && edges[i].1 < names.len()
}

/// Reads the machine: the names of the components and the wires.
pub fn read_machine(lines: &Vec<String>) -> (machine: Option<(Vec<String>, Vec<(usize, usize)>)>)
    ensures
        match machine {
            Some((names, edges)) => {
                &&& machine_of(texts(lines@), lines@.len() as int) == Some(
                    Machine { names: texts(names@), edges: edges@ },
                )
                &&& in_range(texts(names@), edges@)
            },
            None => machine_of(texts(lines@), lines@.len() as int) is None,
        },
{
    let ghost text = texts(lines@);
    let mut names: Vec<String> = Vec::new();
    let mut edges: Vec<(usize, usize)> = Vec::new();
    let sep: Vec<char> = vec![':', ' '];
    assert(sep@ =~= seq![':', ' ']);
    let mut k: usize = 0;
    assert(texts(names@) =~= Seq::empty());
    while k < lines.len()
        invariant
            k <= lines@.len(),
            text == texts(lines@),
            sep@ == seq![':', ' '],
            machine_of(text, k as int) == Some(Machine { names: texts(names@), edges: edges@ }),
            in_range(texts(names@), edges@),
        decreases lines@.len() - k,
    {
        let line = lines[k].as_str();
        let chars = to_chars(line);
        assert(text[k as int] == line@);
        assert(chars@.subrange(0, chars@.len() as int) =~= line@);
        let parts = split_within(&chars, 0, chars.len(), &sep);
        if parts.len() < 2 {
            proof {
                lemma_no_machine(text, k + 1, lines@.len() as int);
            }
            return None;
        }
        let ghost start = Machine { names: texts(names@), edges: edges@ };
        let name = vstd::string::StrSliceExecFns::substring_char(line, parts[0].0, parts[0].1);
        let from = component(&mut names, name.to_owned());
        let (a, b) = parts[1];
        let list = crate::text::slice(&chars, a, b);
        let targets = word_bounds(&list);
        let ghost named = Machine { names: texts(names@), edges: edges@ };
        let ghost all = words(list@);
        let mut i: usize = 0;
        while i < targets.len()
            invariant
                i <= targets@.len(),
                a <= b <= chars@.len(),
                chars@ == line@,
                list@ == chars@.subrange(a as int, b as int),
                all == words(list@),
                targets@.len() == all.len(),
                forall|j: int|
                    0 <= j < targets@.len() ==> {
                        &&& (#[trigger] targets@[j]).0 < targets@[j].1 <= list@.len()
                        &&& list@.subrange(targets@[j].0 as int, targets@[j].1 as int) == all[j]
                    },
                from < names@.len(),
                wired(named, from, all, i as int) == (Machine {
                    names: texts(names@),
                    edges: edges@,
                }),
                in_range(texts(names@), edges@),
            decreases targets@.len() - i,
        {
            let (x, y) = targets[i];
            assert(chars@.subrange(a + x, a + y) =~= list@.subrange(x as int, y as int));
            let word = vstd::string::StrSliceExecFns::substring_char(line, a + x, a + y);
            let to = component(&mut names, word.to_owned());
            if !has_edge(&edges, from, to) {
                edges.push((from, to));
            }
            i += 1;
        }
        k += 1;
    }
    Some((names, edges))
}

/// Cuts the machine in two where the fewest wires join the parts, and
/// multiplies the numbers of components of the two parts. The second answer
/// is 0.
///
/// There is no answer where a line cannot be read, where the machine has
/// fewer than two components, or where it has `u32::MAX` components or wires
/// or more.
pub fn solve(lines: &Vec<String>) -> (answers: Option<(u64, u64)>)
    ensures
        match answers {
            Some((product, other)) => {
                &&& other == 0
                &&& machine_of(texts(lines@), lines@.len() as int) matches Some(m)
                &&& exists|cut: usize, part: Seq<usize>|
                    {
                        &&& #[trigger] smallest_cut(m.names.len() as usize, m.edges, cut, part)
                        &&& product == part.len() * (m.names.len() - part.len())
                    }
            },
            None => machine_of(texts(lines@), lines@.len() as int) matches Some(m) ==> m.names.len()
                < 2 || m.names.len() >= u32::MAX || m.edges.len() >= u32::MAX,
        },
{
    let (names, edges) = match read_machine(lines) {
        Some(machine) => machine,
        None => {
            return None;
        },
    };
    let n = names.len();
    if n >= 0xffff_ffff || edges.len() >= 0xffff_ffff {
        return None;
    }
    let (cut, part) = match min_cut(n, &edges) {
        Some(found) => found,
        None => {
            return None;
        },
    };
    proof {
        lemma_part_size(n, part@);
        assert(part@.len() * (n - part@.len()) <= 0xffff_ffff * 0xffff_ffff) by (nonlinear_arith)
            requires
                0 <= part@.len() <= n,
                n <= 0xffff_ffff,
        ;
    }
    let product = part.len() as u64 * (n - part.len()) as u64;
    proof {
        let m = Machine { names: texts(names@), edges: edges@ };
        assert(machine_of(texts(lines@), lines@.len() as int) == Some(m));
        assert(m.names.len() == n);
        assert(smallest_cut(m.names.len() as usize, m.edges, cut, part@));
        assert(product == part@.len() * (m.names.len() - part@.len()));
    }
    Some((product, 0))
}

/// A list of different components below `n` has at most `n` entries.
pub proof fn lemma_part_size(n: usize, part: Seq<usize>)
    requires
        part.no_duplicates(),
        forall|c: usize| part.to_set().contains(c) ==> c < n,
    ensures
        part.len() <= n,
{
    part.unique_seq_to_set();
    let below = Set::new(|c: usize| c < n);
    let ints = Set::new(|i: int| 0 <= i < n);
    assert(part.to_set().subset_of(below));
    lemma_below_size(n);
    vstd::set_lib::lemma_len_subset(part.to_set(), below);
}

proof fn lemma_below_size(n: usize)
    ensures
        Set::new(|c: usize| c < n).finite(),
        Set::new(|c: usize| c < n).len() == n,
    decreases n,
{
    let s = Set::new(|c: usize| c < n);
    if n == 0 {
        assert(s =~= Set::empty());
    } else {
        lemma_below_size((n - 1) as usize);
        let t = Set::new(|c: usize| c < (n - 1) as usize);
        assert(s =~= t.insert((n - 1) as usize));
    }
}

} // verus!
