//! Games of cubes drawn from a bag: which games are possible with a given
//! stock, and the smallest stock that makes each game possible.

use regex::Regex;
use vstd::prelude::*;
use crate::text::{number_i64, parse_i64, split, split_within, texts, to_chars};

verus! {

/// The cubes of one draw, by colour.
#[derive(Clone, Copy, Debug, PartialEq, Eq, Structural)]
pub struct Bag {
    pub red: u32,
    pub green: u32,
    pub blue: u32,
}

/// A game: its number and its draws.
#[derive(Debug)]
pub struct Game {
    pub id: usize,
    pub bags: Vec<Bag>,
}

/// The matches of a pattern in a text, one after the other from left to
/// right, as the crate `regex` finds them: for each match the text of each
/// group of the pattern, by the number of the group, group 0 being the whole
/// match, and nothing for a group that took no part in the match. `None`
/// where the crate does not accept the pattern.
pub uninterp spec fn captures_of(pattern: Seq<char>, text: Seq<char>) -> Option<
    Seq<Seq<Option<Seq<char>>>>,
>;

/// The text of a group.
pub open spec fn group_text(group: Option<String>) -> Option<Seq<char>> {
    match group {
        Some(s) => Some(s@),
        None => None,
    }
}

/// The texts of the groups of a list of matches.
pub open spec fn list_texts(list: Seq<Vec<Option<String>>>) -> Seq<Seq<Option<Seq<char>>>> {
    list.map_values(
        |groups: Vec<Option<String>>| groups@.map_values(|g: Option<String>| group_text(g)),
    )
}

/// The texts of the groups of a list of matches, if there is a list.
pub open spec fn match_texts(found: Option<Vec<Vec<Option<String>>>>) -> Option<
    Seq<Seq<Option<Seq<char>>>>,
> {
    match found {
        Some(list) => Some(list_texts(list@)),
        None => None,
    }
}

/// `Regex::new` and `Regex::captures_iter` of the crate `regex`, with the
/// groups of each match taken out by `Captures::iter`: all matches of the
/// pattern in the text. The contract gives the result its name and claims
/// nothing else of it.
#[verifier::external_body]
fn captures(pattern: &str, text: &str) -> (found: Option<Vec<Vec<Option<String>>>>)
    ensures
        match_texts(found) == captures_of(pattern@, text@),
{
    let re = Regex::new(pattern).ok()?;
    Some(
        re.captures_iter(text).map(
            |c| c.iter().map(|g| g.map(|m| m.as_str().to_owned())).collect(),
        ).collect(),
    )
}

/// The pattern of a number of cubes: digits, then white space or none, then
/// the colour. The groups 1, 2 and 3 are the digits before red, green and
/// blue.
pub open spec fn cubes_pattern() -> Seq<char> {
    "(?P<Red>\\d+)\\s*red|(?P<Green>\\d+)\\s*green|(?P<Blue>\\d+)\\s*blue"@
}

/// The count that the text of a group spells: its number, and 0 where it
/// spells none or one that does not fit in 32 bits without sign.
pub open spec fn count_of(text: Seq<char>) -> u32 {
    match number_i64(text) {
        Some(v) => if 0 <= v <= u32::MAX {
            v as u32
        } else {
            0
        },
        None => 0,
    }
}

/// The bag after one match: each colour whose group took part in the match
/// gets the count of that group.
pub open spec fn refill(bag: Bag, groups: Seq<Option<Seq<char>>>) -> Bag {
    let red = if groups.len() > 1 && groups[1] is Some {
        count_of(groups[1]->Some_0)
    } else {
        bag.red
    };
    let green = if groups.len() > 2 && groups[2] is Some {
        count_of(groups[2]->Some_0)
    } else {
        bag.green
    };
    let blue = if groups.len() > 3 && groups[3] is Some {
        count_of(groups[3]->Some_0)
    } else {
        bag.blue
    };
    Bag { red, green, blue }
}

/// The bag after the matches, one after the other, starting from an empty
/// bag: of several counts of one colour the last stands.
pub open spec fn bag_of(found: Seq<Seq<Option<Seq<char>>>>) -> Bag
    decreases found.len(),
{
    if found.len() == 0 {
        Bag { red: 0, green: 0, blue: 0 }
    } else {
        refill(bag_of(found.drop_last()), found.last())
    }
}

/// The bags of the draws, where the pattern is accepted.
pub open spec fn bags_of(draws: Seq<Seq<char>>) -> Option<Seq<Bag>>
    decreases draws.len(),
{
    if draws.len() == 0 {
        Some(Seq::empty())
    } else {
        match (bags_of(draws.drop_last()), captures_of(cubes_pattern(), draws.last())) {
            (Some(before), Some(found)) => Some(before.push(bag_of(found))),
            _ => None,
        }
    }
}

/// The draws of a game: behind the first colon of the line, up to a second
/// colon if there is one, the texts between the semicolons. A line without a
/// colon is no game.
pub open spec fn draws_of(line: Seq<char>) -> Option<Seq<Seq<char>>> {
    let parts = split(line, seq![':']);
    if parts.len() < 2 {
        None
    } else {
        Some(split(parts[1], seq![';']))
    }
}

/// The bags of the game that a line spells.
pub open spec fn game_of(line: Seq<char>) -> Option<Seq<Bag>> {
    match draws_of(line) {
        Some(draws) => bags_of(draws),
        None => None,
    }
}

/// Reads a count.
pub fn read_count(group: &String) -> (count: u32)
    ensures
        count == count_of(group@),
{
    let chars = to_chars(group.as_str());
    assert(chars@.subrange(0, chars@.len() as int) =~= group@);
    match parse_i64(&chars, 0, chars.len()) {
        Some(v) => if 0 <= v && v <= 0xffff_ffff {
            v as u32
        } else {
            0
        },
        None => 0,
    }
}

/// Reads the cubes of one draw from the matches of the pattern.
pub fn read_bag(found: &Vec<Vec<Option<String>>>) -> (bag: Bag)
    ensures
        bag == bag_of(list_texts(found@)),
{
    let ghost all = list_texts(found@);
    let mut bag = Bag { red: 0, green: 0, blue: 0 };
    let mut k: usize = 0;
    assert(all.take(0) =~= Seq::empty());
    while k < found.len()
        invariant
            k <= found@.len(),
            all == list_texts(found@),
            all.len() == found@.len(),
            bag == bag_of(all.take(k as int)),
        decreases found@.len() - k,
    {
        let cap = &found[k];
        proof {
            assert(all.take(k + 1).drop_last() =~= all.take(k as int));
            assert(all.take(k + 1).last() == all[k as int]);
            assert(all[k as int] == cap@.map_values(|g: Option<String>| group_text(g)));
        }
        if cap.len() > 1 {
            match &cap[1] {
                Some(red) => {
                    bag.red = read_count(red);
                },
                None => {},
            }
        }
        if cap.len() > 2 {
            match &cap[2] {
                Some(green) => {
                    bag.green = read_count(green);
                },
                None => {},
            }
        }
        if cap.len() > 3 {
            match &cap[3] {
                Some(blue) => {
                    bag.blue = read_count(blue);
                },
                None => {},
            }
        }
        k += 1;
    }
    assert(all.take(k as int) =~= all);
    bag
}

/// Lines of which a part spells no games spell none.
pub open spec fn readable(lines: Seq<Seq<char>>) -> bool {
    forall|i: int| 0 <= i < lines.len() ==> (#[trigger] game_of(lines[i])) is Some
}

/// Reads the games, one to a line; the number of a game is the number of its
/// line, counted from one. `None` where a line has no colon.
pub fn extract_games(lines: &Vec<String>) -> (games: Option<Vec<Game>>)
    requires
        lines@.len() < usize::MAX,
    ensures
        match games {
            Some(g) => {
                &&& g@.len() == lines@.len()
                &&& forall|i: int|
                    0 <= i < g@.len() ==> (#[trigger] g@[i]).id == i + 1 && game_of(lines@[i]@)
                        == Some(g@[i].bags@)
            },
            None => !readable(texts(lines@)),
        },
{
    let mut games: Vec<Game> = Vec::new();
    let colon: Vec<char> = vec![':'];
    let semicolon: Vec<char> = vec![';'];
    assert(colon@ =~= seq![':']);
    assert(semicolon@ =~= seq![';']);
    let mut i: usize = 0;
    while i < lines.len()
        invariant
            i <= lines@.len() < usize::MAX,
            colon@ == seq![':'],
            semicolon@ == seq![';'],
            games@.len() == i,
            forall|k: int|
                0 <= k < i ==> (#[trigger] games@[k]).id == k + 1 && game_of(lines@[k]@) == Some(
                    games@[k].bags@,
                ),
        decreases lines@.len() - i,
    {
        let line = lines[i].as_str();
        let chars = to_chars(line);
        assert(texts(lines@)[i as int] == line@);
        assert(chars@.subrange(0, chars@.len() as int) =~= line@);
        let parts = split_within(&chars, 0, chars.len(), &colon);
        if parts.len() < 2 {
            assert(game_of(texts(lines@)[i as int]) is None);
            return None;
        }
        let (a, b) = parts[1];
        let draws = split_within(&chars, a, b, &semicolon);
        let ghost texts_of_draws = split(chars@.subrange(a as int, b as int), seq![';']);
        let mut bags: Vec<Bag> = Vec::new();
        let mut k: usize = 0;
        assert(texts_of_draws.take(0) =~= Seq::empty());
        while k < draws.len()
            invariant
                k <= draws@.len(),
                i < lines@.len(),
                chars@ == line@,
                line@ == lines@[i as int]@,
                a <= b <= chars@.len(),
                draws_of(line@) == Some(texts_of_draws),
                draws@.len() == texts_of_draws.len(),
                forall|j: int|
                    0 <= j < draws@.len() ==> {
                        &&& a <= (#[trigger] draws@[j]).0 <= draws@[j].1 <= b
                        &&& chars@.subrange(draws@[j].0 as int, draws@[j].1 as int)
                            == texts_of_draws[j]
                    },
                bags_of(texts_of_draws.take(k as int)) == Some(bags@),
            decreases draws@.len() - k,
        {
            let (from, to) = draws[k];
            proof {
                assert(texts_of_draws.take(k + 1).drop_last() =~= texts_of_draws.take(k as int));
                assert(texts_of_draws.take(k + 1).last() == texts_of_draws[k as int]);
            }
            let bag_line = vstd::string::StrSliceExecFns::substring_char(line, from, to);
            let found = captures(
                "(?P<Red>\\d+)\\s*red|(?P<Green>\\d+)\\s*green|(?P<Blue>\\d+)\\s*blue",
                bag_line,
            );
            match found {
                Some(list) => {
                    bags.push(read_bag(&list));
                },
                None => {
                    proof {
                        lemma_no_bags(texts_of_draws, k + 1);
                        assert(game_of(texts(lines@)[i as int]) is None);
                    }
                    return None;
                },
            }
            k += 1;
        }
        assert(texts_of_draws.take(k as int) =~= texts_of_draws);
        games.push(Game { id: i + 1, bags });
        i += 1;
    }
    Some(games)
}

/// Draws of which a part has no bags have none.
pub proof fn lemma_no_bags(draws: Seq<Seq<char>>, k: int)
    requires
        0 <= k <= draws.len(),
        bags_of(draws.take(k)) is None,
    ensures
        bags_of(draws) is None,
    decreases draws.len() - k,
{
    if k < draws.len() {
        assert(draws.take(k + 1).drop_last() =~= draws.take(k));
        lemma_no_bags(draws, k + 1);
    } else {
        assert(draws.take(k) =~= draws);
    }
}

/// Every draw of the game takes no more than 12 red, 13 green and 14 blue
/// cubes.
pub open spec fn possible(bags: Seq<Bag>) -> bool {
    forall|i: int|
        0 <= i < bags.len() ==> (#[trigger] bags[i]).red <= 12 && bags[i].green <= 13
            && bags[i].blue <= 14
}

/// The sum of the numbers of those of the first `upto` games that are
/// possible.
pub open spec fn possible_sum(games: Seq<Seq<Bag>>, upto: int) -> int
    decreases upto,
{
    if upto <= 0 || upto > games.len() {
        0
    } else if possible(games[upto - 1]) {
        possible_sum(games, upto - 1) + upto
    } else {
        possible_sum(games, upto - 1)
    }
}

/// The largest of the first `upto` counts of a colour, 0 for none. The
/// colour is 0 for red, 1 for green, 2 for blue.
pub open spec fn most(bags: Seq<Bag>, colour: int, upto: int) -> int
    decreases upto,
{
    if upto <= 0 || upto > bags.len() {
        0
    } else {
        let before = most(bags, colour, upto - 1);
        let here = if colour == 0 {
            bags[upto - 1].red
        } else if colour == 1 {
            bags[upto - 1].green
        } else {
            bags[upto - 1].blue
        };
        if here > before {
            here as int
        } else {
            before
        }
    }
}

/// The power of a game: the product of the largest counts of the three
/// colours.
pub open spec fn game_power(bags: Seq<Bag>) -> int {
    most(bags, 0, bags.len() as int) * most(bags, 2, bags.len() as int) * most(
        bags,
        1,
        bags.len() as int,
    )
}

/// The sum of the powers of the first `upto` games.
pub open spec fn power_sum(games: Seq<Seq<Bag>>, upto: int) -> int
    decreases upto,
{
    if upto <= 0 || upto > games.len() {
        0
    } else {
        power_sum(games, upto - 1) + game_power(games[upto - 1])
    }
}

/// The bags of each game of a list.
pub open spec fn all_bags(games: Seq<Game>) -> Seq<Seq<Bag>> {
    games.map_values(|g: Game| g.bags@)
}

/// Whether every draw of the game takes no more than 12 red, 13 green and 14
/// blue cubes.
pub fn is_possible(game: &Game) -> (b: bool)
    ensures
        b == possible(game.bags@),
{
    let mut k: usize = 0;
    while k < game.bags.len()
        invariant
            k <= game.bags@.len(),
            forall|i: int|
                0 <= i < k ==> (#[trigger] game.bags@[i]).red <= 12 && game.bags@[i].green <= 13
                    && game.bags@[i].blue <= 14,
        decreases game.bags@.len() - k,
    {
        let bag = game.bags[k];
        if !(bag.red <= 12 && bag.green <= 13 && bag.blue <= 14) {
            return false;
        }
        k += 1;
    }
    true
}

/// The power of the game.
pub fn power_of(game: &Game) -> (p: u128)
    ensures
        p == game_power(game.bags@),
        p <= 0xffff_ffff * 0xffff_ffff * 0xffff_ffff,
{
    let mut r: u32 = 0;
    let mut b: u32 = 0;
    let mut g: u32 = 0;
    let mut k: usize = 0;
    while k < game.bags.len()
        invariant
            k <= game.bags@.len(),
            r == most(game.bags@, 0, k as int),
            g == most(game.bags@, 1, k as int),
            b == most(game.bags@, 2, k as int),
        decreases game.bags@.len() - k,
    {
        let bag = game.bags[k];
        if bag.red > r {
            r = bag.red;
        }
        if bag.blue > b {
            b = bag.blue;
        }
        if bag.green > g {
            g = bag.green;
        }
        k += 1;
    }
    assert(0 <= r * b <= 0xffff_ffff * 0xffff_ffff) by (nonlinear_arith)
        requires
            0 <= r <= 0xffff_ffff,
            0 <= b <= 0xffff_ffff,
    ;
    assert(0 <= (r * b) * g <= 0xffff_ffff * 0xffff_ffff * 0xffff_ffff) by (nonlinear_arith)
        requires
            0 <= r * b <= 0xffff_ffff * 0xffff_ffff,
            0 <= g <= 0xffff_ffff,
    ;
    r as u128 * b as u128 * g as u128
}

/// The sum of the numbers of the games that are possible. `None` where a
/// line has no colon.
pub fn solve_part1(lines: &Vec<String>) -> (sum: Option<u128>)
    requires
        lines@.len() < usize::MAX,
    ensures
        match sum {
            Some(s) => exists|games: Seq<Seq<Bag>>|
                {
                    &&& games.len() == lines@.len()
                    &&& forall|i: int|
                        0 <= i < games.len() ==> game_of(lines@[i]@) == Some(#[trigger] games[i])
                    &&& s == possible_sum(games, games.len() as int)
                },
            None => !readable(texts(lines@)),
        },
{
    let games = match extract_games(lines) {
        Some(games) => games,
        None => {
            return None;
        },
    };
    let ghost bags = all_bags(games@);
    let mut sum: u128 = 0;
    let mut k: usize = 0;
    while k < games.len()
        invariant
            k <= games@.len(),
            bags == all_bags(games@),
            games@.len() == lines@.len(),
            forall|i: int|
                0 <= i < games@.len() ==> (#[trigger] games@[i]).id == i + 1 && game_of(
                    lines@[i]@,
                ) == Some(games@[i].bags@),
            sum == possible_sum(bags, k as int),
            sum <= k * 0xffff_ffff_ffff_ffff,
        decreases games@.len() - k,
    {
        assert(bags[k as int] == games@[k as int].bags@);
        assert((k + 1) * 0xffff_ffff_ffff_ffff == k * 0xffff_ffff_ffff_ffff
            + 0xffff_ffff_ffff_ffff) by (nonlinear_arith);
        assert(k * 0xffff_ffff_ffff_ffff + 0xffff_ffff_ffff_ffff <= u128::MAX)
            by (nonlinear_arith)
            requires
                k < 0x1_0000_0000_0000_0000,
        ;
        if is_possible(&games[k]) {
            sum = sum + games[k].id as u128;
        }
        k += 1;
    }
    assert forall|i: int| 0 <= i < bags.len() implies game_of(lines@[i]@) == Some(
        #[trigger] bags[i],
    ) by {
        assert(bags[i] == games@[i].bags@);
    }
    Some(sum)
}

/// The sum of the powers of the games. `None` where a line has no colon.
pub fn solve_part2(lines: &Vec<String>) -> (sum: Option<u128>)
    requires
        lines@.len() <= 0x7fff_ffff,
    ensures
        match sum {
            Some(s) => exists|games: Seq<Seq<Bag>>|
                {
                    &&& games.len() == lines@.len()
                    &&& forall|i: int|
                        0 <= i < games.len() ==> game_of(lines@[i]@) == Some(#[trigger] games[i])
                    &&& s == power_sum(games, games.len() as int)
                },
            None => !readable(texts(lines@)),
        },
{
    let games = match extract_games(lines) {
        Some(games) => games,
        None => {
            return None;
        },
    };
    let ghost bags = all_bags(games@);
    let mut sum: u128 = 0;
    let mut k: usize = 0;
    while k < games.len()
        invariant
            k <= games@.len() <= 0x7fff_ffff,
            bags == all_bags(games@),
            games@.len() == lines@.len(),
            forall|i: int|
                0 <= i < games@.len() ==> game_of(lines@[i]@) == Some(
                    (#[trigger] games@[i]).bags@,
                ),
            sum == power_sum(bags, k as int),
            sum <= k * (0xffff_ffff * 0xffff_ffff * 0xffff_ffff),
        decreases games@.len() - k,
    {
        assert(bags[k as int] == games@[k as int].bags@);
        assert((k + 1) * (0xffff_ffff * 0xffff_ffff * 0xffff_ffff) == k * (0xffff_ffff
            * 0xffff_ffff * 0xffff_ffff) + 0xffff_ffff * 0xffff_ffff * 0xffff_ffff)
            by (nonlinear_arith);
        assert(k * (0xffff_ffff * 0xffff_ffff * 0xffff_ffff) + 0xffff_ffff * 0xffff_ffff
            * 0xffff_ffff <= u128::MAX) by (nonlinear_arith)
            requires
                k < 0x7fff_ffff,
        ;
        sum = sum + power_of(&games[k]);
        k += 1;
    }
    assert forall|i: int| 0 <= i < bags.len() implies game_of(lines@[i]@) == Some(
        #[trigger] bags[i],
    ) by {
        assert(bags[i] == games@[i].bags@);
    }
    Some(sum)
}

/// Both sums. There is no answer where a line has no colon.
pub fn solve(lines: &Vec<String>) -> (answers: Option<(u128, u128)>)
    requires
        lines@.len() <= 0x7fff_ffff,
    ensures
        match answers {
            Some((numbers, powers)) => exists|games: Seq<Seq<Bag>>|
                {
                    &&& games.len() == lines@.len()
                    &&& forall|i: int|
                        0 <= i < games.len() ==> game_of(lines@[i]@) == Some(#[trigger] games[i])
                    &&& numbers == possible_sum(games, games.len() as int)
                    &&& powers == power_sum(games, games.len() as int)
                },
            None => !readable(texts(lines@)),
        },
{
    let sol1 = solve_part1(lines);
    let sol2 = solve_part2(lines);
    match (sol1, sol2) {
        (Some(numbers), Some(powers)) => {
            proof {
                let g1 = choose|games: Seq<Seq<Bag>>|
                    {
                        &&& games.len() == lines@.len()
                        &&& forall|i: int|
                            0 <= i < games.len() ==> game_of(lines@[i]@) == Some(
                                #[trigger] games[i],
                            )
                        &&& numbers == possible_sum(games, games.len() as int)
                    };
                let g2 = choose|games: Seq<Seq<Bag>>|
                    {
                        &&& games.len() == lines@.len()
                        &&& forall|i: int|
                            0 <= i < games.len() ==> game_of(lines@[i]@) == Some(
                                #[trigger] games[i],
                            )
                        &&& powers == power_sum(games, games.len() as int)
                    };
                assert(g1 =~= g2) by {
                    assert forall|i: int| 0 <= i < g1.len() implies g1[i] == g2[i] by {
                        assert(game_of(lines@[i]@) == Some(g1[i]));
                        assert(game_of(lines@[i]@) == Some(g2[i]));
                    }
                }
            }
            Some((numbers, powers))
        },
        _ => None,
    }
}

} // verus!
