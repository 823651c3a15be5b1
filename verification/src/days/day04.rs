//! Scratch cards: how many numbers of a card win, what the cards are worth,
//! and how many cards one ends up with when every win earns copies of the
//! cards that follow.

use std::collections::HashMap;
use vstd::arithmetic::power2::{lemma_pow2_strictly_increases, lemma_pow2_unfold, pow2};
use vstd::prelude::*;
use vstd::std_specs::hash::group_hash_axioms;
use crate::text::{
    after_last,
    find,
    find_after_last,
    find_from,
    lemma_find,
    slice,
    to_chars,
    word_bounds,
    words,
};

verus! {

/// How many different words of `a` occur in `b`.
pub open spec fn common(a: Seq<Seq<char>>, b: Seq<Seq<char>>) -> nat
    decreases a.len(),
{
    if a.len() == 0 {
        0
    } else if !a.drop_last().contains(a.last()) && b.contains(a.last()) {
        common(a.drop_last(), b) + 1
    } else {
        common(a.drop_last(), b)
    }
}

/// The number of wins of a card: behind its last colon, the numbers it has
/// before the first bar and the numbers drawn behind it, up to a second bar
/// if there is one; a win is a number that both have, counted once. A line
/// without a bar behind its last colon is no card.
pub open spec fn wins_of(line: Seq<char>) -> Option<nat> {
    let from = after_last(line, ':', line.len() as int);
    let rest = line.skip(from);
    match find(rest, seq!['|'], 0) {
        None => None,
        Some(bar) => {
            let to = match find(rest, seq!['|'], bar + 1) {
                Some(next) => next,
                None => rest.len() as int,
            };
            Some(common(words(rest.subrange(0, bar)), words(rest.subrange(bar + 1, to))))
        },
    }
}

/// Whether `word` is among the first `upto` of the words of `s` that `bounds`
/// marks.
fn among(s: &Vec<char>, bounds: &Vec<(usize, usize)>, upto: usize, t: &Vec<char>, word: (
    usize,
    usize,
)) -> (b: bool)
    requires
        upto <= bounds@.len(),
        word.0 <= word.1 <= t@.len(),
        forall|k: int|
            0 <= k < bounds@.len() ==> (#[trigger] bounds@[k]).0 <= bounds@[k].1 <= s@.len(),
    ensures
        b == exists|k: int|
            0 <= k < upto && s@.subrange((#[trigger] bounds@[k]).0 as int, bounds@[k].1 as int)
                == t@.subrange(word.0 as int, word.1 as int),
{
    let ghost w = t@.subrange(word.0 as int, word.1 as int);
    let mut k: usize = 0;
    while k < upto
        invariant
            k <= upto <= bounds@.len(),
            word.0 <= word.1 <= t@.len(),
            w == t@.subrange(word.0 as int, word.1 as int),
            forall|i: int|
                0 <= i < bounds@.len() ==> (#[trigger] bounds@[i]).0 <= bounds@[i].1 <= s@.len(),
            forall|i: int|
                0 <= i < k ==> s@.subrange((#[trigger] bounds@[i]).0 as int, bounds@[i].1 as int)
                    != w,
        decreases upto - k,
    {
        let (a, b) = bounds[k];
        let ghost other = s@.subrange(a as int, b as int);
        let mut same = b - a == word.1 - word.0;
        if same {
            let mut i: usize = 0;
            while i < b - a
                invariant
                    i <= b - a,
                    a <= b <= s@.len(),
                    word.0 <= word.1 <= t@.len(),
                    b - a == word.1 - word.0,
                    other == s@.subrange(a as int, b as int),
                    w == t@.subrange(word.0 as int, word.1 as int),
                    same <==> forall|j: int| 0 <= j < i ==> #[trigger] other[j] == w[j],
                decreases b - a - i,
            {
                assert(other[i as int] == s@[a + i] && w[i as int] == t@[word.0 + i]);
                if s[a + i] != t[word.0 + i] {
                    same = false;
                }
                i += 1;
            }
            proof {
                if same {
                    assert(other =~= w);
                }
            }
        } else {
            assert(other.len() != w.len());
        }
        if same {
            return true;
        }
        k += 1;
    }
    false
}

/// Counts the different words of the first part of `s` that occur in the
/// second.
fn count_common(s: &Vec<char>, have: &Vec<(usize, usize)>, drawn: &Vec<(usize, usize)>, a: Ghost<
    Seq<Seq<char>>,
>, b: Ghost<Seq<Seq<char>>>) -> (count: usize)
    requires
        have@.len() == a@.len(),
        drawn@.len() == b@.len(),
        forall|k: int|
            0 <= k < have@.len() ==> (#[trigger] have@[k]).0 <= have@[k].1 <= s@.len() && s@.subrange(
                have@[k].0 as int,
                have@[k].1 as int,
            ) == a@[k],
        forall|k: int|
            0 <= k < drawn@.len() ==> (#[trigger] drawn@[k]).0 <= drawn@[k].1 <= s@.len()
                && s@.subrange(drawn@[k].0 as int, drawn@[k].1 as int) == b@[k],
    ensures
        count == common(a@, b@),
{
    let mut count: usize = 0;
    let mut k: usize = 0;
    assert(a@.take(0) =~= Seq::empty());
    while k < have.len()
        invariant
            k <= have@.len(),
            have@.len() == a@.len(),
            drawn@.len() == b@.len(),
            forall|k: int|
                0 <= k < have@.len() ==> (#[trigger] have@[k]).0 <= have@[k].1 <= s@.len()
                    && s@.subrange(have@[k].0 as int, have@[k].1 as int) == a@[k],
            forall|k: int|
                0 <= k < drawn@.len() ==> (#[trigger] drawn@[k]).0 <= drawn@[k].1 <= s@.len()
                    && s@.subrange(drawn@[k].0 as int, drawn@[k].1 as int) == b@[k],
            count == common(a@.take(k as int), b@),
            count <= k,
        decreases have@.len() - k,
    {
        let word = have[k];
        let ghost w = a@[k as int];
        let seen = among(s, have, k, s, word);
        let won = among(s, drawn, drawn.len(), s, word);
        proof {
            let front = a@.take(k as int);
            assert(a@.take(k + 1).drop_last() =~= front);
            assert(a@.take(k + 1).last() == w);
            if seen {
                let i = choose|i: int|
                    0 <= i < k && s@.subrange((#[trigger] have@[i]).0 as int, have@[i].1 as int)
                        == w;
                assert(front[i] == w);
            }
            if front.contains(w) {
                let i = choose|i: int| 0 <= i < front.len() && front[i] == w;
                assert(s@.subrange(have@[i].0 as int, have@[i].1 as int) == w);
            }
            if won {
                let i = choose|i: int|
                    0 <= i < drawn@.len() && s@.subrange(
                        (#[trigger] drawn@[i]).0 as int,
                        drawn@[i].1 as int,
                    ) == w;
                assert(b@[i] == w);
            }
            if b@.contains(w) {
                let i = choose|i: int| 0 <= i < b@.len() && b@[i] == w;
                assert(s@.subrange(drawn@[i].0 as int, drawn@[i].1 as int) == w);
            }
        }
        if !seen && won {
            count += 1;
        }
        k += 1;
    }
    assert(a@.take(k as int) =~= a@);
    count
}

/// The number of wins of a card, and `None` for a line that is no card.
pub fn count_wins(line: &str) -> (wins: Option<usize>)
    ensures
        match wins {
            Some(n) => wins_of(line@) == Some(n as nat),
            None => wins_of(line@) is None,
        },
{
    let chars = to_chars(line);
    let from = find_after_last(&chars, ':');
    let rest = slice(&chars, from, chars.len());
    assert(rest@ =~= chars@.skip(from as int));
    let bar_pat: Vec<char> = vec!['|'];
    assert(bar_pat@ =~= seq!['|']);
    let bar = match find_from(&rest, &bar_pat, 0) {
        Some(bar) => bar,
        None => {
            return None;
        },
    };
    proof {
        lemma_find(rest@, seq!['|'], 0);
        lemma_find(rest@, seq!['|'], bar + 1);
        assert(rest@.len() == rest.len());
    }
    let to = match find_from(&rest, &bar_pat, bar + 1) {
        Some(next) => next,
        None => rest.len(),
    };
    let ticket = slice(&rest, 0, bar);
    let draw = slice(&rest, bar + 1, to);
    let have = word_bounds(&ticket);
    let drawn = word_bounds(&draw);
    let mut all: Vec<char> = ticket.clone();
    let mut i: usize = 0;
    assert(all@ =~= ticket@);
    while i < draw.len()
        invariant
            i <= draw@.len(),
            all@ == ticket@ + draw@.take(i as int),
        decreases draw@.len() - i,
    {
        all.push(draw[i]);
        assert(draw@.take(i + 1) =~= draw@.take(i as int).push(draw@[i as int]));
        i += 1;
    }
    assert(draw@.take(i as int) =~= draw@);
    let mut shifted: Vec<(usize, usize)> = Vec::new();
    let mut k: usize = 0;
    while k < drawn.len()
        invariant
            k <= drawn@.len(),
            all@ == ticket@ + draw@,
            shifted@.len() == k,
            forall|j: int|
                0 <= j < drawn@.len() ==> (#[trigger] drawn@[j]).0 < drawn@[j].1 <= draw@.len()
                    && draw@.subrange(drawn@[j].0 as int, drawn@[j].1 as int) == words(draw@)[j],
            drawn@.len() == words(draw@).len(),
            forall|j: int|
                0 <= j < k ==> (#[trigger] shifted@[j]).0 <= shifted@[j].1 <= all@.len()
                    && all@.subrange(shifted@[j].0 as int, shifted@[j].1 as int) == words(
                    draw@,
                )[j],
        decreases drawn@.len() - k,
    {
        let (a, b) = drawn[k];
        assert(all@.len() == all.len());
        shifted.push((ticket.len() + a, ticket.len() + b));
        assert(all@.subrange(ticket@.len() + a, ticket@.len() + b) =~= draw@.subrange(
            a as int,
            b as int,
        ));
        k += 1;
    }
    proof {
        assert forall|j: int| 0 <= j < have@.len() implies (#[trigger] have@[j]).0 <= have@[j].1
            <= all@.len() && all@.subrange(have@[j].0 as int, have@[j].1 as int) == words(
            ticket@,
        )[j] by {
            assert(all@.subrange(have@[j].0 as int, have@[j].1 as int) =~= ticket@.subrange(
                have@[j].0 as int,
                have@[j].1 as int,
            ));
        }
    }
    Some(count_common(&all, &have, &shifted, Ghost(words(ticket@)), Ghost(words(draw@))))
}

/// What a card with `wins` wins is worth: nothing without a win, one point
/// for the first win and twice as much with each win more.
pub open spec fn worth(wins: nat) -> nat {
    if wins == 0 {
        0
    } else {
        pow2((wins - 1) as nat)
    }
}

/// What the first `k` cards are worth together.
pub open spec fn points(wins: Seq<usize>, k: nat) -> nat
    decreases k,
{
    if k == 0 {
        0
    } else {
        points(wins, (k - 1) as nat) + worth(wins[k - 1] as nat)
    }
}

/// What a card with the given number of wins is worth, or `None` where that
/// does not fit in 128 bits.
pub fn card_worth(wins: usize) -> (value: Option<u128>)
    ensures
        match value {
            Some(v) => v == worth(wins as nat),
            None => worth(wins as nat) > u128::MAX,
        },
{
    if wins == 0 {
        return Some(0);
    }
    let mut value: u128 = 1;
    let mut i: usize = 1;
    proof {
        vstd::arithmetic::power2::lemma2_to64();
    }
    while i < wins
        invariant
            1 <= i <= wins,
            value == pow2((i - 1) as nat),
        decreases wins - i,
    {
        proof {
            lemma_pow2_unfold(i as nat);
        }
        match value.checked_mul(2) {
            Some(v) => {
                value = v;
            },
            None => {
                proof {
                    if i < wins - 1 {
                        lemma_pow2_strictly_increases(i as nat, (wins - 1) as nat);
                    }
                }
                return None;
            },
        }
        i += 1;
    }
    Some(value)
}

/// The sum of what the cards are worth, or `None` where it does not fit in
/// 128 bits.
pub fn solve_part1(intersections: &Vec<usize>) -> (sum: Option<u128>)
    ensures
        match sum {
            Some(s) => s == points(intersections@, intersections@.len()),
            None => points(intersections@, intersections@.len()) > u128::MAX,
        },
{
    let mut sum: u128 = 0;
    let mut k: usize = 0;
    while k < intersections.len()
        invariant
            k <= intersections@.len(),
            sum == points(intersections@, k as nat),
        decreases intersections@.len() - k,
    {
        proof {
            lemma_points_grow(intersections@, (k + 1) as nat, intersections@.len());
        }
        let value = match card_worth(intersections[k]) {
            Some(v) => v,
            None => {
                return None;
            },
        };
        sum = match sum.checked_add(value) {
            Some(s) => s,
            None => {
                return None;
            },
        };
        k += 1;
    }
    Some(sum)
}

/// More cards are worth no less.
pub proof fn lemma_points_grow(wins: Seq<usize>, k: nat, n: nat)
    requires
        k <= n,
    ensures
        points(wins, k) <= points(wins, n),
    decreases n,
{
    if k < n {
        lemma_points_grow(wins, k, (n - 1) as nat);
    }
}

/// The number of copies that card `i` has got from the cards before card
/// `k`: each card before `i` gives one copy for each copy of itself, itself
/// included, to as many of the cards behind it as it has wins.
pub open spec fn inherited(wins: Seq<usize>, i: int, k: int) -> nat
    decreases i, k,
{
    if k <= 0 || k > i || k > wins.len() {
        0
    } else if i <= k - 1 + wins[k - 1] {
        inherited(wins, i, k - 1) + 1 + inherited(wins, k - 1, k - 1)
    } else {
        inherited(wins, i, k - 1)
    }
}

/// The number of copies of card `i` in the end, itself included.
pub open spec fn copies(wins: Seq<usize>, i: int) -> nat {
    1 + inherited(wins, i, i)
}

/// The number of cards among the first `k`, copies included.
pub open spec fn cards(wins: Seq<usize>, k: nat) -> nat
    decreases k,
{
    if k == 0 {
        0
    } else {
        cards(wins, (k - 1) as nat) + copies(wins, k - 1)
    }
}

/// The count that the table holds for a card, which is 0 for a card that it
/// does not hold.
pub open spec fn held(table: Map<usize, u128>, game: usize) -> nat {
    if table.contains_key(game) {
        table[game] as nat
    } else {
        0
    }
}

/// Adds `mult` to the count of a card and returns the new count. Where that
/// does not fit in 128 bits, the table stays as it is and there is no count.
pub fn add_card(scratch_cards: &mut HashMap<usize, u128>, game: usize, mult: u128) -> (count:
    Option<u128>)
    ensures
        match count {
            Some(c) => c == held(old(scratch_cards)@, game) + mult && final(scratch_cards)@ == old(
                scratch_cards,
            )@.insert(game, c),
            None => held(old(scratch_cards)@, game) + mult > u128::MAX && final(scratch_cards)@
                == old(scratch_cards)@,
        },
{
    broadcast use group_hash_axioms;

    let before: u128 = match scratch_cards.get(&game) {
        Some(value) => *value,
        None => 0,
    };
    match before.checked_add(mult) {
        Some(value) => {
            scratch_cards.insert(game, value);
            Some(value)
        },
        None => None,
    }
}

pub proof fn lemma_inherited_grows(wins: Seq<usize>, i: int, k: int, m: int)
    requires
        0 <= k <= m <= i,
        m <= wins.len(),
    ensures
        inherited(wins, i, k) <= inherited(wins, i, m),
    decreases m,
{
    if k < m {
        lemma_inherited_grows(wins, i, k, m - 1);
    }
}

pub proof fn lemma_cards_grow(wins: Seq<usize>, k: nat, n: nat)
    requires
        k <= n,
    ensures
        cards(wins, k) <= cards(wins, n),
    decreases n,
{
    if k < n {
        lemma_cards_grow(wins, k, (n - 1) as nat);
    }
}

/// The number of cards in the end, copies included, or `None` where it does
/// not fit in 128 bits.
pub fn solve_part2(intersections: &Vec<usize>) -> (count: Option<u128>)
    ensures
        match count {
            Some(c) => c == cards(intersections@, intersections@.len()),
            None => cards(intersections@, intersections@.len()) > u128::MAX,
        },
{
    let ghost w = intersections@;
    let n = intersections.len();
    let mut scratch_cards: HashMap<usize, u128> = HashMap::new();
    let mut count_cards: u128 = 0;
    let mut idx: usize = 0;
    while idx < n
        invariant
            idx <= n,
            n == w.len(),
            w == intersections@,
            count_cards == cards(w, idx as nat),
            forall|i: usize|
                i < n ==> held(scratch_cards@, i) == if i < idx {
                    copies(w, i as int)
                } else {
                    inherited(w, i as int, idx as int)
                },
        decreases n - idx,
    {
        proof {
            lemma_cards_grow(w, (idx + 1) as nat, n as nat);
        }
        let ghost table = scratch_cards@;
        assert(held(table, idx) == inherited(w, idx as int, idx as int));
        let num_cards = match add_card(&mut scratch_cards, idx, 1) {
            Some(c) => c,
            None => {
                return None;
            },
        };
        assert forall|j: usize| j < n implies held(scratch_cards@, j) == if j <= idx {
            copies(w, j as int)
        } else {
            inherited(w, j as int, idx as int)
        } by {
            if j != idx {
                assert(held(scratch_cards@, j) == held(table, j));
            }
        }
        let wins = intersections[idx];
        let last = if wins >= n - 1 - idx {
            n - 1
        } else {
            idx + wins
        };
        let mut i: usize = idx + 1;
        while i <= last
            invariant
                idx < i <= last + 1,
                last < n,
                n == w.len(),
                w == intersections@,
                last == if w[idx as int] >= n - 1 - idx {
                    n - 1
                } else {
                    idx + w[idx as int]
                },
                num_cards == copies(w, idx as int),
                cards(w, (idx + 1) as nat) <= cards(w, n as nat),
                forall|j: usize|
                    j < n ==> held(scratch_cards@, j) == if j <= idx {
                        copies(w, j as int)
                    } else if j < i {
                        inherited(w, j as int, idx + 1)
                    } else {
                        inherited(w, j as int, idx as int)
                    },
            decreases last + 1 - i,
        {
            let ghost table = scratch_cards@;
            proof {
                lemma_inherited_grows(w, i as int, idx + 1, i as int);
                lemma_cards_grow(w, (i + 1) as nat, n as nat);
                assert(held(table, i) == inherited(w, i as int, idx as int));
                assert(inherited(w, i as int, idx + 1) == inherited(w, i as int, idx as int)
                    + copies(w, idx as int));
                assert(cards(w, (i + 1) as nat) == cards(w, i as nat) + copies(w, i as int));
            }
            match add_card(&mut scratch_cards, i, num_cards) {
                Some(_) => {},
                None => {
                    return None;
                },
            }
            assert forall|j: usize| j < n implies held(scratch_cards@, j) == if j <= idx {
                copies(w, j as int)
            } else if j < i + 1 {
                inherited(w, j as int, idx + 1)
            } else {
                inherited(w, j as int, idx as int)
            } by {
                if j != i {
                    assert(held(scratch_cards@, j) == held(table, j));
                }
            }
            i += 1;
        }
        assert forall|j: usize| j < n implies held(scratch_cards@, j) == if j < idx + 1 {
            copies(w, j as int)
        } else {
            inherited(w, j as int, idx + 1)
        } by {
            if j > last {
                assert(held(scratch_cards@, j) == inherited(w, j as int, idx as int));
            }
        }
        count_cards = match count_cards.checked_add(num_cards) {
            Some(c) => c,
            None => {
                return None;
            },
        };
        idx += 1;
    }
    Some(count_cards)
}

/// The numbers of wins of the cards, and `None` where a line is no card.
pub fn intersections(lines: &Vec<String>) -> (wins: Option<Vec<usize>>)
    ensures
        match wins {
            Some(w) => w@.len() == lines@.len() && forall|i: int|
                0 <= i < lines@.len() ==> wins_of(lines@[i]@) == Some((#[trigger] w@[i]) as nat),
            None => exists|i: int| 0 <= i < lines@.len() && (#[trigger] wins_of(lines@[i]@)) is None,
        },
{
    let mut wins: Vec<usize> = Vec::new();
    let mut k: usize = 0;
    while k < lines.len()
        invariant
            k <= lines@.len(),
            wins@.len() == k,
            forall|i: int| 0 <= i < k ==> wins_of(lines@[i]@) == Some((#[trigger] wins@[i]) as nat),
        decreases lines@.len() - k,
    {
        match count_wins(lines[k].as_str()) {
            Some(n) => {
                wins.push(n);
            },
            None => {
                return None;
            },
        }
        k += 1;
    }
    Some(wins)
}

/// What the cards are worth together, and how many cards there are in the
/// end; each is `None` where it does not fit in 128 bits. There is no answer
/// where a line is no card.
pub fn solve(lines: &Vec<String>) -> (answers: Option<(Option<u128>, Option<u128>)>)
    ensures
        match answers {
            Some((worth, count)) => exists|w: Seq<usize>|
                {
                    &&& w.len() == lines@.len()
                    &&& forall|i: int|
                        0 <= i < lines@.len() ==> wins_of(lines@[i]@) == Some((#[trigger] w[i]) as nat)
                    &&& match worth {
                        Some(s) => s == points(w, w.len()),
                        None => points(w, w.len()) > u128::MAX,
                    }
                    &&& match count {
                        Some(c) => c == cards(w, w.len()),
                        None => cards(w, w.len()) > u128::MAX,
                    }
                },
            None => exists|i: int| 0 <= i < lines@.len() && (#[trigger] wins_of(lines@[i]@)) is None,
        },
{
    let wins = match intersections(lines) {
        Some(wins) => wins,
        None => {
            return None;
        },
    };
    let sol1 = solve_part1(&wins);
    let sol2 = solve_part2(&wins);
    Some((sol1, sol2))
}

} // verus!
