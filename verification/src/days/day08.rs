//! A map of forks: following left and right instructions from node to node,
//! and the number of steps after which several walkers stand on an end node
//! all at once.

use vstd::prelude::*;
use vstd::string::StrSliceExecFns;
use crate::arith::{is_lcm, lcm_of_list};
use crate::text::{texts, to_chars};

verus! {

/// One fork of the map: its name and the names of the nodes to its left and
/// to its right.
#[derive(Debug)]
pub struct Fork {
    pub name: String,
    pub left: String,
    pub right: String,
}

/// The mathematical value of a [`Fork`].
pub struct ForkText {
    pub name: Seq<char>,
    pub left: Seq<char>,
    pub right: Seq<char>,
}

impl Fork {
    pub open spec fn view(&self) -> ForkText {
        ForkText { name: self.name@, left: self.left@, right: self.right@ }
    }
}

/// The values of a list of forks.
pub open spec fn fork_texts(forks: Seq<Fork>) -> Seq<ForkText> {
    forks.map_values(|f: Fork| f@)
}

/// The fork that a line spells: its name in the first three characters, the
/// left node in the characters 7 to 9 and the right node in the characters 12
/// to 14. A line of fewer than 15 characters spells none.
pub open spec fn fork_of(line: Seq<char>) -> Option<ForkText> {
    if line.len() < 15 {
        None
    } else {
        Some(
            ForkText {
                name: line.subrange(0, 3),
                left: line.subrange(7, 10),
                right: line.subrange(12, 15),
            },
        )
    }
}

/// The forks of the lines from the third on; a line that spells none is
/// passed over.
pub open spec fn forks_of(lines: Seq<Seq<char>>, upto: int) -> Seq<ForkText>
    decreases upto,
{
    if upto <= 2 || upto > lines.len() {
        Seq::empty()
    } else {
        match fork_of(lines[upto - 1]) {
            Some(f) => forks_of(lines, upto - 1).push(f),
            None => forks_of(lines, upto - 1),
        }
    }
}

/// The last fork of the given name.
pub open spec fn find_fork(forks: Seq<ForkText>, name: Seq<char>) -> Option<int>
    decreases forks.len(),
{
    if forks.len() == 0 {
        None
    } else if forks.last().name == name {
        Some(forks.len() - 1)
    } else {
        find_fork(forks.drop_last(), name)
    }
}

/// Where a walker stands who starts at `start` and has taken `steps` steps:
/// at each fork the instruction whose turn it is says left with `L` and right
/// with anything else, the instructions starting over when they run out. A
/// walker who comes to a name that is no fork, or who has no instructions,
/// stays where he is.
pub open spec fn walk(forks: Seq<ForkText>, instructions: Seq<char>, start: Seq<char>, steps: nat) -> Seq<
    char,
>
    decreases steps,
{
    if steps == 0 {
        start
    } else {
        let at = walk(forks, instructions, start, (steps - 1) as nat);
        match find_fork(forks, at) {
            None => at,
            Some(i) => if instructions.len() == 0 {
                at
            } else if instructions[(steps - 1) % (instructions.len() as int)] == 'L' {
                forks[i].left
            } else {
                forks[i].right
            },
        }
    }
}

/// Which nodes count as the end of a walk: the node of one name, or every
/// node whose name ends in one character.
#[derive(Debug)]
pub enum Goal {
    Named(String),
    EndsIn(char),
}

/// The mathematical value of a [`Goal`].
pub enum GoalText {
    Named(Seq<char>),
    EndsIn(char),
}

impl GoalText {
    /// The node of this name meets the goal.
    pub open spec fn met(self, name: Seq<char>) -> bool {
        match self {
            GoalText::Named(wanted) => name == wanted,
            GoalText::EndsIn(c) => name.len() > 0 && name.last() == c,
        }
    }
}

impl Goal {
    pub open spec fn view(&self) -> GoalText {
        match self {
            Goal::Named(wanted) => GoalText::Named(wanted@),
            Goal::EndsIn(c) => GoalText::EndsIn(*c),
        }
    }

    /// Whether the node of this name meets the goal.
    pub fn is_met(&self, name: &String) -> (b: bool)
        ensures
            b == self@.met(name@),
    {
        match self {
            Goal::Named(wanted) => *name == *wanted,
            Goal::EndsIn(c) => {
                let chars = to_chars(name.as_str());
                chars.len() > 0 && chars[chars.len() - 1] == *c
            },
        }
    }
}

/// The walker from `start` first stands on a node that meets the goal after
/// `steps` steps.
pub open spec fn arrives(
    forks: Seq<ForkText>,
    instructions: Seq<char>,
    start: Seq<char>,
    goal: GoalText,
    steps: nat,
) -> bool {
    &&& goal.met(walk(forks, instructions, start, steps))
    &&& forall|k: nat| k < steps ==> !goal.met(#[trigger] walk(forks, instructions, start, k))
}

/// The last fork of the given name.
pub fn get_fork(forks: &Vec<Fork>, name: &String) -> (at: Option<usize>)
    ensures
        match at {
            Some(i) => find_fork(fork_texts(forks@), name@) == Some(i as int) && i < forks@.len(),
            None => find_fork(fork_texts(forks@), name@) is None,
        },
{
    let ghost all = fork_texts(forks@);
    let mut k = forks.len();
    assert(all.take(k as int) =~= all);
    while k > 0
        invariant
            k <= forks@.len(),
            all == fork_texts(forks@),
            find_fork(all, name@) == find_fork(all.take(k as int), name@),
        decreases k,
    {
        assert(all.take(k as int).drop_last() =~= all.take(k - 1));
        assert(all.take(k as int).last() == forks@[k - 1]@);
        if forks[k - 1].name == *name {
            return Some(k - 1);
        }
        k -= 1;
    }
    None
}

/// The number of steps after which the walker from `start_loc` first stands
/// on a node that meets the goal, or `None` where he does not within `limit`
/// steps.
pub fn num_steps(
    forks: &Vec<Fork>,
    instructions: &Vec<char>,
    start_loc: &String,
    goal: &Goal,
    limit: u64,
) -> (steps: Option<u64>)
    ensures
        match steps {
            Some(n) => n <= limit && arrives(
                fork_texts(forks@),
                instructions@,
                start_loc@,
                goal@,
                n as nat,
            ),
            None => forall|k: nat|
                k <= limit ==> !goal@.met(
                    #[trigger] walk(fork_texts(forks@), instructions@, start_loc@, k),
                ),
        },
{
    let ghost all = fork_texts(forks@);
    let mut loc = start_loc.clone();
    let mut steps: u64 = 0;
    let mut turn: usize = 0;
    loop
        invariant
            steps <= limit,
            all == fork_texts(forks@),
            loc@ == walk(all, instructions@, start_loc@, steps as nat),
            instructions@.len() > 0 ==> turn == (steps as int) % (instructions@.len() as int),
            forall|k: nat|
                k < steps ==> !goal@.met(#[trigger] walk(all, instructions@, start_loc@, k)),
        decreases limit - steps,
    {
        if goal.is_met(&loc) {
            return Some(steps);
        }
        if steps >= limit {
            assert forall|k: nat| k <= limit implies !goal@.met(
                #[trigger] walk(all, instructions@, start_loc@, k),
            ) by {
                if k == steps {
                }
            }
            return None;
        }
        match get_fork(forks, &loc) {
            Some(i) => {
                if instructions.len() > 0 {
                    assert(all[i as int] == forks@[i as int]@);
                    if instructions[turn] == 'L' {
                        loc = forks[i].left.clone();
                    } else {
                        loc = forks[i].right.clone();
                    }
                }
            },
            None => {},
        }
        proof {
            if instructions@.len() > 0 {
                let n = instructions@.len() as int;
                if turn + 1 == n {
                    assert((steps + 1) % n == 0) by (nonlinear_arith)
                        requires
                            turn == (steps as int) % n,
                            turn + 1 == n,
                            n > 0,
                            steps >= 0,
                    ;
                } else {
                    assert((steps + 1) % n == turn + 1) by (nonlinear_arith)
                        requires
                            turn == (steps as int) % n,
                            turn + 1 < n,
                            n > 0,
                            steps >= 0,
                    ;
                }
            }
        }
        steps += 1;
        if instructions.len() > 0 {
            turn = if turn + 1 == instructions.len() {
                0
            } else {
                turn + 1
            };
        }
    }
}

/// The names of those of the first `upto` forks that meet the goal.
pub open spec fn starts(forks: Seq<ForkText>, from: GoalText, upto: int) -> Seq<Seq<char>>
    decreases upto,
{
    if upto <= 0 || upto > forks.len() {
        Seq::empty()
    } else if from.met(forks[upto - 1].name) {
        starts(forks, from, upto - 1).push(forks[upto - 1].name)
    } else {
        starts(forks, from, upto - 1)
    }
}

/// `steps` holds, for each walker in turn, the number of steps after which he
/// first stands on a node that meets the goal, none of them more than
/// `limit`.
pub open spec fn all_arrive(
    forks: Seq<ForkText>,
    instructions: Seq<char>,
    walkers: Seq<Seq<char>>,
    to: GoalText,
    limit: nat,
    steps: Seq<u64>,
) -> bool {
    &&& steps.len() == walkers.len()
    &&& forall|k: int|
        0 <= k < walkers.len() ==> (#[trigger] steps[k]) <= limit && arrives(
            forks,
            instructions,
            walkers[k],
            to,
            steps[k] as nat,
        )
}

/// Some walker stands on no node that meets the goal within `limit` steps.
pub open spec fn one_strays(
    forks: Seq<ForkText>,
    instructions: Seq<char>,
    walkers: Seq<Seq<char>>,
    to: GoalText,
    limit: nat,
) -> bool {
    exists|w: int|
        0 <= w < walkers.len() && #[trigger] strays(forks, instructions, walkers[w], to, limit)
}

/// The walker from `start` stands on no node that meets the goal within
/// `limit` steps.
pub open spec fn strays(
    forks: Seq<ForkText>,
    instructions: Seq<char>,
    start: Seq<char>,
    to: GoalText,
    limit: nat,
) -> bool {
    forall|k: nat| k <= limit ==> !to.met(#[trigger] walk(forks, instructions, start, k))
}

/// What a calculation may answer: the least number of steps after which
/// every walker stands on a node that meets the goal, provided each walker
/// comes by such a node only every so many steps, as often as he needs to
/// reach it first; that is the least common multiple of the steps of the
/// walkers. There is no answer where a walker strays or that multiple does
/// not fit in 64 bits.
pub open spec fn calculated(
    forks: Seq<ForkText>,
    instructions: Seq<char>,
    from: GoalText,
    to: GoalText,
    limit: nat,
    answer: Option<u64>,
) -> bool {
    let walkers = starts(forks, from, forks.len() as int);
    match answer {
        Some(l) => exists|steps: Seq<u64>|
            #[trigger] all_arrive(forks, instructions, walkers, to, limit, steps) && is_lcm(
                steps,
                l as nat,
            ),
        None => one_strays(forks, instructions, walkers, to, limit) || exists|steps: Seq<u64>|
            #[trigger] all_arrive(forks, instructions, walkers, to, limit, steps) && forall|
                m: nat,
            |
                is_lcm(steps, m) ==> m > u64::MAX,
    }
}

/// Sends a walker off from every fork that meets `from`, and returns the
/// least common multiple of the numbers of steps after which each first
/// stands on a node that meets `to`.
pub fn calculate(forks: &Vec<Fork>, instructions: &Vec<char>, from: &Goal, to: &Goal, limit: u64) -> (answer:
    Option<u64>)
    ensures
        calculated(fork_texts(forks@), instructions@, from@, to@, limit as nat, answer),
{
    let ghost all = fork_texts(forks@);
    let mut steps_max: Vec<u64> = Vec::new();
    let mut k: usize = 0;
    while k < forks.len()
        invariant
            k <= forks@.len(),
            all == fork_texts(forks@),
            all_arrive(
                all,
                instructions@,
                starts(all, from@, k as int),
                to@,
                limit as nat,
                steps_max@,
            ),
        decreases forks@.len() - k,
    {
        assert(all[k as int] == forks@[k as int]@);
        if from.is_met(&forks[k].name) {
            let ghost walkers = starts(all, from@, k as int);
            let ghost before = steps_max@;
            match num_steps(forks, instructions, &forks[k].name, to, limit) {
                Some(n) => {
                    steps_max.push(n);
                    proof {
                        let more = walkers.push(forks@[k as int].name@);
                        assert forall|i: int| 0 <= i < more.len() implies (
                        #[trigger] steps_max@[i]) <= limit && arrives(
                            all,
                            instructions@,
                            more[i],
                            to@,
                            steps_max@[i] as nat,
                        ) by {
                            if i < walkers.len() {
                                assert(steps_max@[i] == before[i]);
                            }
                        }
                    }
                },
                None => {
                    proof {
                        let w = starts(all, from@, k + 1);
                        lemma_starts_grow(all, from@, k + 1, forks@.len() as int);
                        let full = starts(all, from@, all.len() as int);
                        let at = w.len() - 1;
                        assert(w[at] == forks@[k as int].name@);
                        assert(full.take(w.len() as int)[at] == w[at]);
                        assert(full[at] == forks@[k as int].name@);
                        assert(strays(all, instructions@, full[at], to@, limit as nat));
                    }
                    return None;
                },
            }
        }
        k += 1;
    }
    lcm_of_list(&steps_max)
}

/// The walkers of more forks begin with the walkers of fewer.
pub proof fn lemma_starts_grow(forks: Seq<ForkText>, from: GoalText, k: int, n: int)
    requires
        0 <= k <= n <= forks.len(),
    ensures
        starts(forks, from, k).len() <= starts(forks, from, n).len(),
        starts(forks, from, n).take(starts(forks, from, k).len() as int) == starts(forks, from, k),
    decreases n - k,
{
    if k < n {
        lemma_starts_grow(forks, from, k, n - 1);
        let a = starts(forks, from, k);
        let b = starts(forks, from, n - 1);
        let c = starts(forks, from, n);
        assert(c.take(a.len() as int) =~= b.take(a.len() as int));
    } else {
        let a = starts(forks, from, k);
        assert(a.take(a.len() as int) =~= a);
    }
}

/// Reads the forks from the third line on.
pub fn read_forks(lines: &Vec<String>) -> (forks: Vec<Fork>)
    ensures
        fork_texts(forks@) == forks_of(texts(lines@), lines@.len() as int),
{
    let ghost text = texts(lines@);
    let mut forks: Vec<Fork> = Vec::new();
    if lines.len() <= 2 {
        assert(fork_texts(forks@) =~= Seq::empty());
        return forks;
    }
    let mut k: usize = 2;
    assert(fork_texts(forks@) =~= Seq::empty());
    while k < lines.len()
        invariant
            2 <= k <= lines@.len(),
            text == texts(lines@),
            fork_texts(forks@) == forks_of(text, k as int),
        decreases lines@.len() - k,
    {
        let line = lines[k].as_str();
        assert(text[k as int] == line@);
        if line.unicode_len() >= 15 {
            let ghost before = fork_texts(forks@);
            let fork = Fork {
                name: line.substring_char(0, 3).to_owned(),
                left: line.substring_char(7, 10).to_owned(),
                right: line.substring_char(12, 15).to_owned(),
            };
            let ghost f = fork@;
            forks.push(fork);
            assert(fork_texts(forks@) =~= before.push(f));
        }
        k += 1;
    }
    forks
}

/// The number of steps from `AAA` to `ZZZ`, and the number of steps after
/// which the walkers from every node that ends in `A` stand on nodes that end
/// in `Z` all at once, under the proviso of [`calculated`]. The first line
/// holds the instructions, the lines from the third on the forks. Walkers are
/// given up after `limit` steps. There is no answer without a line.
pub fn solve(lines: &Vec<String>, limit: u64) -> (answers: Option<(Option<u64>, Option<u64>)>)
    ensures
        match answers {
            Some((one, many)) => {
                &&& lines@.len() > 0
                &&& calculated(
                    forks_of(texts(lines@), lines@.len() as int),
                    lines@[0]@,
                    GoalText::Named("AAA"@),
                    GoalText::Named("ZZZ"@),
                    limit as nat,
                    one,
                )
                &&& calculated(
                    forks_of(texts(lines@), lines@.len() as int),
                    lines@[0]@,
                    GoalText::EndsIn('A'),
                    GoalText::EndsIn('Z'),
                    limit as nat,
                    many,
                )
            },
            None => lines@.len() == 0,
        },
{
    if lines.len() == 0 {
        return None;
    }
    let forks = read_forks(lines);
    let instructions = to_chars(lines[0].as_str());
    let aaa = Goal::Named("AAA".to_owned());
    let zzz = Goal::Named("ZZZ".to_owned());
    let sol1 = calculate(&forks, &instructions, &aaa, &zzz, limit);
    let sol2 = calculate(&forks, &instructions, &Goal::EndsIn('A'), &Goal::EndsIn('Z'), limit);
    Some((sol1, sol2))
}

} // verus!
