//! Workflows that sort parts: rules that compare one rating of a part with a
//! threshold, and the count of the ratings that the workflows accept.

use vstd::prelude::*;
use vstd::string::{StrSliceExecFns, StringExecFns};
use crate::text::{number_i64, parse_i64, split, split_within, texts, to_chars};

verus! {

/// A part with its four ratings.
#[derive(Clone, Copy, Debug, PartialEq, Eq, Structural)]
pub struct Part {
    pub x: i64,
    pub m: i64,
    pub a: i64,
    pub s: i64,
}

/// What a rule leads to.
#[derive(Debug, PartialEq, Eq)]
pub enum RuleResult {
    Accept,
    Reject,
    Next(String),
}

/// The mathematical value of a [`RuleResult`].
pub enum Outcome {
    Accept,
    Reject,
    Next(Seq<char>),
}

impl RuleResult {
    pub open spec fn view(&self) -> Outcome {
        match self {
            RuleResult::Accept => Outcome::Accept,
            RuleResult::Reject => Outcome::Reject,
            RuleResult::Next(name) => Outcome::Next(name@),
        }
    }

    /// A copy of the result.
    pub fn copy(&self) -> (same: RuleResult)
        ensures
            same@ == self@,
    {
        match self {
            RuleResult::Accept => RuleResult::Accept,
            RuleResult::Reject => RuleResult::Reject,
            RuleResult::Next(name) => RuleResult::Next(name.clone()),
        }
    }
}

/// A rule: a result, and the test that a part must pass to get it: the rating
/// named by the first character, compared as the second says with the
/// number. A rule without a test holds for every part.
#[derive(Debug)]
pub struct Rule {
    pub rule_result: RuleResult,
    pub pred: Option<(char, char, i64)>,
}

/// The four ranges of ratings, one for each rating, that a search has
/// narrowed down to: for each the least and the greatest rating.
#[derive(Clone, Copy, Debug, PartialEq, Eq, Structural)]
pub struct Constraint {
    pub min_x: i64,
    pub max_x: i64,
    pub min_m: i64,
    pub max_m: i64,
    pub min_a: i64,
    pub max_a: i64,
    pub min_s: i64,
    pub max_s: i64,
}

/// The rating of a part that a character names, if it names one.
pub open spec fn rating(part: Part, name: char) -> Option<i64> {
    if name == 'x' {
        Some(part.x)
    } else if name == 'm' {
        Some(part.m)
    } else if name == 'a' {
        Some(part.a)
    } else if name == 's' {
        Some(part.s)
    } else {
        None
    }
}

/// The part passes the test: its rating is above the number where the
/// comparison is `>`, below it where it is `<`. No part passes another
/// comparison.
pub open spec fn passes(pred: Option<(char, char, i64)>, part: Part) -> bool {
    match pred {
        None => true,
        Some((name, comparison, threshold)) => match rating(part, name) {
            Some(value) => if comparison == '>' {
                value > threshold
            } else if comparison == '<' {
                value < threshold
            } else {
                false
            },
            None => false,
        },
    }
}

/// The larger of two numbers.
pub open spec fn larger(a: int, b: int) -> int {
    if a >= b {
        a
    } else {
        b
    }
}

/// The smaller of two numbers.
pub open spec fn smaller(a: int, b: int) -> int {
    if a <= b {
        a
    } else {
        b
    }
}

/// The range `(min, max)` cut down to the ratings that pass the comparison
/// with the threshold. What is not `>` counts as `<`.
pub open spec fn passing(comparison: char, threshold: int, range: (int, int)) -> (int, int) {
    if comparison == '>' {
        (larger(threshold + 1, range.0), range.1)
    } else {
        (range.0, smaller(threshold - 1, range.1))
    }
}

/// The range cut down to the ratings that fail the comparison.
pub open spec fn failing(comparison: char, threshold: int, range: (int, int)) -> (int, int) {
    if comparison == '>' {
        (range.0, smaller(threshold, range.1))
    } else {
        (larger(threshold, range.0), range.1)
    }
}

impl Constraint {
    /// The range of the rating that the character names.
    pub open spec fn range(self, name: char) -> (int, int) {
        if name == 'x' {
            (self.min_x as int, self.max_x as int)
        } else if name == 'm' {
            (self.min_m as int, self.max_m as int)
        } else if name == 'a' {
            (self.min_a as int, self.max_a as int)
        } else {
            (self.min_s as int, self.max_s as int)
        }
    }

    /// The constraint with the range of one rating replaced. Another
    /// character than the four names replaces nothing.
    pub open spec fn with_range(self, name: char, range: (int, int)) -> Constraint {
        if name == 'x' {
            Constraint { min_x: range.0 as i64, max_x: range.1 as i64, ..self }
        } else if name == 'm' {
            Constraint { min_m: range.0 as i64, max_m: range.1 as i64, ..self }
        } else if name == 'a' {
            Constraint { min_a: range.0 as i64, max_a: range.1 as i64, ..self }
        } else if name == 's' {
            Constraint { min_s: range.0 as i64, max_s: range.1 as i64, ..self }
        } else {
            self
        }
    }

    /// Every range of the constraint holds more than one rating.
    pub open spec fn valid(self) -> bool {
        self.min_x < self.max_x && self.min_m < self.max_m && self.min_a < self.max_a && self.min_s
            < self.max_s
    }

    /// No range reaches below 1 or beyond 4000.
    pub open spec fn bounded(self) -> bool {
        &&& 1 <= self.min_x && self.max_x <= 4000
        &&& 1 <= self.min_m && self.max_m <= 4000
        &&& 1 <= self.min_a && self.max_a <= 4000
        &&& 1 <= self.min_s && self.max_s <= 4000
    }

    /// The number of parts whose ratings lie in the ranges.
    pub open spec fn parts(self) -> int {
        (1 + self.max_x - self.min_x) * (1 + self.max_m - self.min_m) * (1 + self.max_a
            - self.min_a) * (1 + self.max_s - self.min_s)
    }

    /// The constraint that every part meets: each rating from 1 to 4000.
    pub fn new() -> (all: Constraint)
        ensures
            all == (Constraint {
                min_x: 1,
                max_x: 4000,
                min_m: 1,
                max_m: 4000,
                min_a: 1,
                max_a: 4000,
                min_s: 1,
                max_s: 4000,
            }),
            all.bounded(),
            all.valid(),
    {
        Constraint {
            min_x: 1,
            max_x: 4000,
            min_m: 1,
            max_m: 4000,
            min_a: 1,
            max_a: 4000,
            min_s: 1,
            max_s: 4000,
        }
    }

    /// Whether every range holds more than one rating.
    pub fn is_valid(&self) -> (b: bool)
        ensures
            b == self.valid(),
    {
        self.min_x < self.max_x && self.min_m < self.max_m && self.min_a < self.max_a && self.min_s
            < self.max_s
    }

    /// The number of parts whose ratings lie in the ranges.
    pub fn permutations(&self) -> (count: i64)
        requires
            self.bounded(),
            self.valid(),
        ensures
            count == self.parts(),
            0 < count <= 4000 * 4000 * 4000 * 4000,
    {
        let x = 1 + self.max_x - self.min_x;
        let m = 1 + self.max_m - self.min_m;
        let a = 1 + self.max_a - self.min_a;
        let s = 1 + self.max_s - self.min_s;
        assert(0 < x * m <= 4000 * 4000) by (nonlinear_arith)
            requires
                0 < x <= 4000,
                0 < m <= 4000,
        ;
        assert(0 < x * m * a <= 4000 * 4000 * 4000) by (nonlinear_arith)
            requires
                0 < x * m <= 4000 * 4000,
                0 < a <= 4000,
        ;
        assert(0 < x * m * a * s <= 4000 * 4000 * 4000 * 4000) by (nonlinear_arith)
            requires
                0 < x * m * a <= 4000 * 4000 * 4000,
                0 < s <= 4000,
        ;
        x * m * a * s
    }
}

/// Cuts one range in two by a test: `pass_min` and `pass_max` down to the
/// ratings that pass it, `fail_min` and `fail_max` down to those that fail.
pub fn apply_constraint(
    pred: (char, char, i64),
    pass_min: &mut i64,
    pass_max: &mut i64,
    fail_min: &mut i64,
    fail_max: &mut i64,
)
    requires
        i64::MIN < pred.2 < i64::MAX,
    ensures
        (*final(pass_min) as int, *final(pass_max) as int) == passing(
            pred.1,
            pred.2 as int,
            (*old(pass_min) as int, *old(pass_max) as int),
        ),
        (*final(fail_min) as int, *final(fail_max) as int) == failing(
            pred.1,
            pred.2 as int,
            (*old(fail_min) as int, *old(fail_max) as int),
        ),
{
    if pred.1 == '>' {
        if pred.2 + 1 > *pass_min {
            *pass_min = pred.2 + 1;
        }
        if pred.2 < *fail_max {
            *fail_max = pred.2;
        }
    } else {
        if pred.2 - 1 < *pass_max {
            *pass_max = pred.2 - 1;
        }
        if pred.2 > *fail_min {
            *fail_min = pred.2;
        }
    }
}

impl Rule {
    /// The threshold of the test, if there is one, is not at the end of the
    /// 64 bits.
    pub open spec fn wf(&self) -> bool {
        match self.pred {
            Some((_, _, threshold)) => i64::MIN < threshold < i64::MAX,
            None => true,
        }
    }

    /// The constraint cut down to the parts that pass the test of the rule.
    pub open spec fn kept(&self, c: Constraint) -> Constraint {
        match self.pred {
            Some((name, comparison, threshold)) => c.with_range(
                name,
                passing(comparison, threshold as int, c.range(name)),
            ),
            None => c,
        }
    }

    /// The constraint cut down to the parts that fail the test of the rule.
    /// A rule without a test leaves it as it is.
    pub open spec fn left(&self, c: Constraint) -> Constraint {
        match self.pred {
            Some((name, comparison, threshold)) => c.with_range(
                name,
                failing(comparison, threshold as int, c.range(name)),
            ),
            None => c,
        }
    }

    /// The result of the rule, if the part passes its test.
    pub fn solve_pt1(&self, part: &Part) -> (result: Option<&RuleResult>)
        ensures
            result == (if passes(self.pred, *part) {
                Some(&self.rule_result)
            } else {
                None
            }),
    {
        match self.pred {
            Some((name, comparison, threshold)) => {
                let prop = if name == 'x' {
                    part.x
                } else if name == 'm' {
                    part.m
                } else if name == 'a' {
                    part.a
                } else if name == 's' {
                    part.s
                } else {
                    return None;
                };
                let pass = if comparison == '>' {
                    prop > threshold
                } else if comparison == '<' {
                    prop < threshold
                } else {
                    false
                };
                if pass {
                    Some(&self.rule_result)
                } else {
                    None
                }
            },
            None => Some(&self.rule_result),
        }
    }

    /// Cuts the constraint in two: the parts that pass the test of the rule
    /// and the parts that fail it.
    pub fn solve_pt2(&self, constraint: Constraint) -> (halves: (Constraint, Constraint))
        requires
            self.wf(),
        ensures
            halves.0 == self.kept(constraint),
            halves.1 == self.left(constraint),
    {
        let mut pass = constraint;
        let mut fail = constraint;
        match self.pred {
            Some(pred) => {
                if pred.0 == 'x' {
                    apply_constraint(
                        pred,
                        &mut pass.min_x,
                        &mut pass.max_x,
                        &mut fail.min_x,
                        &mut fail.max_x,
                    );
                } else if pred.0 == 'm' {
                    apply_constraint(
                        pred,
                        &mut pass.min_m,
                        &mut pass.max_m,
                        &mut fail.min_m,
                        &mut fail.max_m,
                    );
                } else if pred.0 == 'a' {
                    apply_constraint(
                        pred,
                        &mut pass.min_a,
                        &mut pass.max_a,
                        &mut fail.min_a,
                        &mut fail.max_a,
                    );
                } else if pred.0 == 's' {
                    apply_constraint(
                        pred,
                        &mut pass.min_s,
                        &mut pass.max_s,
                        &mut fail.min_s,
                        &mut fail.max_s,
                    );
                }
            },
            None => {},
        }
        (pass, fail)
    }
}

/// A workflow: a name and the rules that are tried in turn.
#[derive(Debug)]
pub struct WorkFlow {
    pub name: String,
    pub rules: Vec<Rule>,
}

/// The first of the rules whose test the part passes.
pub open spec fn first_passing(rules: Seq<Rule>, part: Part) -> Option<int>
    decreases rules.len(),
{
    if rules.len() == 0 {
        None
    } else if passes(rules[0].pred, part) {
        Some(0)
    } else {
        match first_passing(rules.skip(1), part) {
            Some(i) => Some(i + 1),
            None => None,
        }
    }
}

/// What the rules make of a constraint: for each rule in turn its result
/// with the parts that fail every rule before it and pass its own test.
pub open spec fn branches(rules: Seq<Rule>, c: Constraint) -> Seq<(Outcome, Constraint)>
    decreases rules.len(),
{
    if rules.len() == 0 {
        Seq::empty()
    } else {
        seq![(rules[0].rule_result@, rules[0].kept(c))] + branches(rules.skip(1), rules[0].left(c))
    }
}

/// The values of a list of results with their constraints.
pub open spec fn outcomes(list: Seq<(RuleResult, Constraint)>) -> Seq<(Outcome, Constraint)> {
    list.map_values(|e: (RuleResult, Constraint)| (e.0@, e.1))
}

impl WorkFlow {
    pub open spec fn wf(&self) -> bool {
        forall|i: int| 0 <= i < self.rules@.len() ==> (#[trigger] self.rules@[i]).wf()
    }

    /// The result of the first rule whose test the part passes, if there is
    /// one.
    pub fn solve_pt1(&self, part: &Part) -> (result: Option<&RuleResult>)
        ensures
            match first_passing(self.rules@, *part) {
                Some(i) => 0 <= i < self.rules@.len() && result == Some(
                    &self.rules@[i].rule_result,
                ),
                None => result is None,
            },
    {
        let mut k: usize = 0;
        assert(self.rules@.skip(0) =~= self.rules@);
        while k < self.rules.len()
            invariant
                k <= self.rules@.len(),
                first_passing(self.rules@, *part) == match first_passing(
                    self.rules@.skip(k as int),
                    *part,
                ) {
                    Some(i) => Some(i + k),
                    None => None,
                },
            decreases self.rules@.len() - k,
        {
            assert(self.rules@.skip(k as int)[0] == self.rules@[k as int]);
            assert(self.rules@.skip(k as int).skip(1) =~= self.rules@.skip(k + 1));
            let result = self.rules[k].solve_pt1(part);
            if result.is_some() {
                return result;
            }
            k += 1;
        }
        None
    }

    /// Cuts the constraint up among the rules.
    pub fn solve_pt2(&self, constraint: Constraint) -> (res: Vec<(RuleResult, Constraint)>)
        requires
            self.wf(),
        ensures
            outcomes(res@) == branches(self.rules@, constraint),
    {
        let mut res: Vec<(RuleResult, Constraint)> = Vec::new();
        let mut constr = constraint;
        let mut k: usize = 0;
        assert(self.rules@.skip(0) =~= self.rules@);
        assert(outcomes(res@) =~= Seq::empty());
        while k < self.rules.len()
            invariant
                k <= self.rules@.len(),
                self.wf(),
                outcomes(res@) + branches(self.rules@.skip(k as int), constr) == branches(
                    self.rules@,
                    constraint,
                ),
            decreases self.rules@.len() - k,
        {
            let ghost before = outcomes(res@);
            let ghost rest = self.rules@.skip(k as int);
            assert(rest[0] == self.rules@[k as int]);
            assert(rest.skip(1) =~= self.rules@.skip(k + 1));
            let rule = &self.rules[k];
            let results = rule.solve_pt2(constr);
            res.push((rule.rule_result.copy(), results.0));
            proof {
                let entry = (rule.rule_result@, rule.kept(constr));
                assert(outcomes(res@) =~= before.push(entry));
                assert(before + (seq![entry] + branches(rest.skip(1), rule.left(constr)))
                    =~= before.push(entry) + branches(rest.skip(1), rule.left(constr)));
            }
            constr = results.1;
            k += 1;
        }
        assert(outcomes(res@) + branches(self.rules@.skip(k as int), constr) =~= outcomes(res@));
        res
    }
}

/// The last workflow of the given name.
pub open spec fn find_flow(flows: Seq<WorkFlow>, name: Seq<char>) -> Option<int>
    decreases flows.len(),
{
    if flows.len() == 0 {
        None
    } else if flows.last().name@ == name {
        Some(flows.len() - 1)
    } else {
        find_flow(flows.drop_last(), name)
    }
}

/// How the sorting of a part ends.
#[derive(Clone, Copy, Debug, PartialEq, Eq, Structural)]
pub enum Verdict {
    Accepted,
    Rejected,
    /// A workflow was called for that does not exist, or none of the rules of
    /// a workflow let the part pass.
    Lost,
    /// The part was still on its way after the allowed number of workflows.
    Endless,
}

/// How the sorting of a part ends that starts at the workflow `name` and may
/// pass through `fuel` workflows.
pub open spec fn sorted(flows: Seq<WorkFlow>, part: Part, name: Seq<char>, fuel: nat) -> Verdict
    decreases fuel,
{
    if fuel == 0 {
        Verdict::Endless
    } else {
        match find_flow(flows, name) {
            None => Verdict::Lost,
            Some(i) => match first_passing(flows[i].rules@, part) {
                None => Verdict::Lost,
                Some(r) => match flows[i].rules@[r].rule_result@ {
                    Outcome::Accept => Verdict::Accepted,
                    Outcome::Reject => Verdict::Rejected,
                    Outcome::Next(next) => sorted(flows, part, next, (fuel - 1) as nat),
                },
            },
        }
    }
}

/// A search for the parts that are accepted: the constraints that are still
/// to be looked at, each with the result that it has come to, and the number
/// of parts found so far.
pub struct Search {
    pub open: Seq<(Outcome, Constraint)>,
    pub count: int,
}

impl Search {
    /// Looks at the constraint that was added last. One that is not valid is
    /// dropped. One that is accepted adds its parts to the count, one that is
    /// rejected adds nothing, and one that goes on to a workflow is cut up
    /// among the rules of that workflow; it is dropped where there is no such
    /// workflow.
    pub open spec fn step(self, flows: Seq<WorkFlow>) -> Search {
        if self.open.len() == 0 {
            self
        } else {
            let (outcome, c) = self.open.last();
            let rest = self.open.drop_last();
            if !c.valid() {
                Search { open: rest, count: self.count }
            } else {
                match outcome {
                    Outcome::Accept => Search { open: rest, count: self.count + c.parts() },
                    Outcome::Reject => Search { open: rest, count: self.count },
                    Outcome::Next(name) => match find_flow(flows, name) {
                        Some(i) => Search {
                            open: rest + branches(flows[i].rules@, c),
                            count: self.count,
                        },
                        None => Search { open: rest, count: self.count },
                    },
                }
            }
        }
    }

    /// The search after `n` steps.
    pub open spec fn steps(self, flows: Seq<WorkFlow>, n: nat) -> Search
        decreases n,
    {
        if n == 0 {
            self
        } else {
            self.steps(flows, (n - 1) as nat).step(flows)
        }
    }

    /// A search with nothing left to look at stays as it is.
    pub proof fn lemma_done_stays(self, flows: Seq<WorkFlow>, k: nat, n: nat)
        requires
            self.steps(flows, k).open.len() == 0,
            k <= n,
        ensures
            self.steps(flows, n) == self.steps(flows, k),
        decreases n,
    {
        if n > k {
            self.lemma_done_stays(flows, k, (n - 1) as nat);
        }
    }
}

/// The search that starts at the workflow `in` with every part.
pub open spec fn search_start() -> Search {
    Search {
        open: seq![
            (
                Outcome::Next("in"@),
                Constraint {
                    min_x: 1,
                    max_x: 4000,
                    min_m: 1,
                    max_m: 4000,
                    min_a: 1,
                    max_a: 4000,
                    min_s: 1,
                    max_s: 4000,
                },
            ),
        ],
        count: 0,
    }
}

/// Cutting a constraint in two keeps both halves within 1 to 4000.
pub proof fn lemma_cut_bounded(rule: Rule, c: Constraint)
    requires
        rule.wf(),
        c.bounded(),
    ensures
        rule.kept(c).bounded(),
        rule.left(c).bounded(),
{
}

/// Cutting a constraint up keeps it within 1 to 4000.
pub proof fn lemma_branches_bounded(rules: Seq<Rule>, c: Constraint)
    requires
        c.bounded(),
        forall|i: int| 0 <= i < rules.len() ==> (#[trigger] rules[i]).wf(),
    ensures
        forall|i: int|
            0 <= i < branches(rules, c).len() ==> (#[trigger] branches(rules, c)[i]).1.bounded(),
    decreases rules.len(),
{
    if rules.len() > 0 {
        lemma_cut_bounded(rules[0], c);
        assert forall|i: int| 0 <= i < rules.skip(1).len() implies (#[trigger] rules.skip(
            1,
        )[i]).wf() by {
            assert(rules.skip(1)[i] == rules[i + 1]);
        }
        lemma_branches_bounded(rules.skip(1), rules[0].left(c));
        let rest = branches(rules.skip(1), rules[0].left(c));
        let all = branches(rules, c);
        assert forall|i: int| 0 <= i < all.len() implies (#[trigger] all[i]).1.bounded() by {
            if i > 0 {
                assert(all[i] == rest[i - 1]);
            }
        }
    } else {
        assert(branches(rules, c).len() == 0);
    }
}

/// The workflows by their names.
#[derive(Debug)]
pub struct WorkFlowRunner {
    pub workflows: Vec<WorkFlow>,
}

impl WorkFlowRunner {
    pub open spec fn wf(&self) -> bool {
        forall|i: int| 0 <= i < self.workflows@.len() ==> (#[trigger] self.workflows@[i]).wf()
    }

    pub fn new(workflows: Vec<WorkFlow>) -> (runner: WorkFlowRunner)
        ensures
            runner.workflows == workflows,
    {
        WorkFlowRunner { workflows }
    }

    /// The workflow of the given name: the last one, where several have it.
    pub fn get(&self, name: &String) -> (at: Option<usize>)
        ensures
            match at {
                Some(i) => find_flow(self.workflows@, name@) == Some(i as int) && i
                    < self.workflows@.len(),
                None => find_flow(self.workflows@, name@) is None,
            },
    {
        let mut k = self.workflows.len();
        assert(self.workflows@.take(k as int) =~= self.workflows@);
        while k > 0
            invariant
                k <= self.workflows@.len(),
                find_flow(self.workflows@, name@) == find_flow(
                    self.workflows@.take(k as int),
                    name@,
                ),
            decreases k,
        {
            assert(self.workflows@.take(k as int).drop_last() =~= self.workflows@.take(k - 1));
            if self.workflows[k - 1].name == *name {
                return Some(k - 1);
            }
            k -= 1;
        }
        None
    }

    /// Sorts the part, starting at the workflow `in`. A part that has passed
    /// through one workflow more than there are goes round for ever.
    pub fn sort(&self, part: &Part) -> (verdict: Verdict)
        ensures
            verdict == sorted(self.workflows@, *part, "in"@, self.workflows@.len() + 1),
    {
        let mut name = String::from_str("in");
        let mut left = self.workflows.len();
        loop
            invariant
                sorted(self.workflows@, *part, "in"@, self.workflows@.len() + 1) == sorted(
                    self.workflows@,
                    *part,
                    name@,
                    (left + 1) as nat,
                ),
            decreases left,
        {
            let ghost here = name@;
            let at = match self.get(&name) {
                Some(at) => at,
                None => {
                    return Verdict::Lost;
                },
            };
            match self.workflows[at].solve_pt1(part) {
                None => {
                    return Verdict::Lost;
                },
                Some(result) => match result {
                    RuleResult::Accept => {
                        return Verdict::Accepted;
                    },
                    RuleResult::Reject => {
                        return Verdict::Rejected;
                    },
                    RuleResult::Next(next) => {
                        name = next.clone();
                    },
                },
            }
            assert(sorted(self.workflows@, *part, here, (left + 1) as nat) == sorted(
                self.workflows@,
                *part,
                name@,
                left as nat,
            ));
            if left == 0 {
                return Verdict::Endless;
            }
            left -= 1;
        }
    }

    /// The sum of the ratings of the part, if the workflows accept it.
    pub fn solve_pt1(&self, part: &Part) -> (sum: Option<i128>)
        ensures
            sum == (if sorted(self.workflows@, *part, "in"@, self.workflows@.len() + 1)
                == Verdict::Accepted {
                Some((part.x + part.m + part.a + part.s) as i128)
            } else {
                None
            }),
    {
        match self.sort(part) {
            Verdict::Accepted => Some(
                part.x as i128 + part.m as i128 + part.a as i128 + part.s as i128,
            ),
            _ => None,
        }
    }

    /// Counts the parts that the workflows accept, by cutting the ranges of
    /// the ratings up along the rules. Gives up with `None` where the search
    /// has not come to an end in `limit` steps.
    pub fn solve_pt2(&self, limit: usize) -> (count: Option<i128>)
        requires
            self.wf(),
        ensures
            match count {
                Some(n) => {
                    &&& search_start().steps(self.workflows@, limit as nat).open.len() == 0
                    &&& n == search_start().steps(self.workflows@, limit as nat).count
                },
                None => search_start().steps(self.workflows@, limit as nat).open.len() > 0,
            },
    {
        let ghost flows = self.workflows@;
        let ghost start = search_start();
        let mut search: Vec<(RuleResult, Constraint)> = Vec::new();
        search.push((RuleResult::Next(String::from_str("in")), Constraint::new()));
        assert(outcomes(search@) =~= start.open);
        let mut count: i128 = 0;
        let mut done: usize = 0;
        while search.len() > 0
            invariant
                self.wf(),
                flows == self.workflows@,
                start == search_start(),
                done <= limit,
                start.steps(flows, done as nat) == (Search {
                    open: outcomes(search@),
                    count: count as int,
                }),
                forall|i: int| 0 <= i < search@.len() ==> (#[trigger] search@[i]).1.bounded(),
                0 <= count <= done * (4000 * 4000 * 4000 * 4000),
            decreases limit - done,
        {
            if done >= limit {
                return None;
            }
            let ghost before = start.steps(flows, done as nat);
            let ghost open = search@;
            let current = search.pop().unwrap();
            assert(outcomes(search@) =~= outcomes(open).drop_last());
            assert(outcomes(open).last() == (current.0@, current.1));
            proof {
                assert(done * (4000 * 4000 * 4000 * 4000) + 4000 * 4000 * 4000 * 4000 <= (limit
                    as int) * (4000 * 4000 * 4000 * 4000)) by (nonlinear_arith)
                    requires
                        done < limit,
                ;
                assert((limit as int) * (4000 * 4000 * 4000 * 4000) <= i128::MAX)
                    by (nonlinear_arith)
                    requires
                        limit <= u64::MAX,
                ;
                assert((done + 1) * (4000 * 4000 * 4000 * 4000) == done * (4000 * 4000 * 4000
                    * 4000) + 4000 * 4000 * 4000 * 4000) by (nonlinear_arith);
            }
            if current.1.is_valid() {
                match current.0 {
                    RuleResult::Accept => {
                        count = count + current.1.permutations() as i128;
                    },
                    RuleResult::Reject => {},
                    RuleResult::Next(next) => {
                        match self.get(&next) {
                            Some(at) => {
                                let next_states = self.workflows[at].solve_pt2(current.1);
                                proof {
                                    assert(self.workflows@[at as int].wf());
                                    lemma_branches_bounded(
                                        self.workflows@[at as int].rules@,
                                        current.1,
                                    );
                                }
                                let ghost rest = search@;
                                let mut k: usize = 0;
                                while k < next_states.len()
                                    invariant
                                        k <= next_states@.len(),
                                        outcomes(search@) == outcomes(rest) + outcomes(
                                            next_states@,
                                        ).take(k as int),
                                        forall|i: int|
                                            0 <= i < search@.len() ==> (
                                            #[trigger] search@[i]).1.bounded(),
                                        forall|i: int|
                                            0 <= i < next_states@.len() ==> (#[trigger] outcomes(
                                                next_states@,
                                            )[i]).1.bounded(),
                                    decreases next_states@.len() - k,
                                {
                                    let ghost so_far = outcomes(search@);
                                    let ns = &next_states[k];
                                    assert(outcomes(next_states@)[k as int] == (ns.0@, ns.1));
                                    search.push((ns.0.copy(), ns.1));
                                    assert(outcomes(search@) =~= so_far.push((ns.0@, ns.1)));
                                    assert(outcomes(next_states@).take(k + 1) =~= outcomes(
                                        next_states@,
                                    ).take(k as int).push((ns.0@, ns.1)));
                                    k += 1;
                                }
                                assert(outcomes(next_states@).take(k as int) =~= outcomes(
                                    next_states@,
                                ));
                            },
                            None => {},
                        }
                    },
                }
            }
            done += 1;
            assert(start.steps(flows, done as nat) == before.step(flows));
        }
        proof {
            start.lemma_done_stays(flows, done as nat, limit as nat);
        }
        Some(count)
    }
}

/// The mathematical value of a [`Rule`].
pub struct RuleText {
    pub outcome: Outcome,
    pub pred: Option<(char, char, i64)>,
}

impl Rule {
    pub open spec fn view(&self) -> RuleText {
        RuleText { outcome: self.rule_result@, pred: self.pred }
    }
}

/// The values of a list of rules.
pub open spec fn rule_texts(rules: Seq<Rule>) -> Seq<RuleText> {
    rules.map_values(|r: Rule| r@)
}

/// The result that a word stands for: `A` for accept, `R` for reject, any
/// other word for the workflow of that name.
pub open spec fn outcome_of(word: Seq<char>) -> Outcome {
    if word == seq!['R'] {
        Outcome::Reject
    } else if word == seq!['A'] {
        Outcome::Accept
    } else {
        Outcome::Next(word)
    }
}

/// The rule that a text spells. With exactly one colon, the text before it is
/// the test: the name of a rating, a comparison, and a threshold, which is 0
/// where what follows the comparison spells no number; the text behind it is
/// the result. A test of less than two characters spells no rule. A text
/// with no colon, or with several, spells a rule without a test, whose
/// result is the text up to the first colon.
pub open spec fn rule_of(text: Seq<char>) -> Option<RuleText> {
    let q = split(text, seq![':']);
    if q.len() == 2 {
        if q[0].len() < 2 {
            None
        } else {
            let threshold = match number_i64(q[0].skip(2)) {
                Some(v) => v,
                None => 0,
            };
            Some(RuleText { outcome: outcome_of(q[1]), pred: Some((q[0][0], q[0][1], threshold)) })
        }
    } else {
        Some(RuleText { outcome: outcome_of(q[0]), pred: None })
    }
}

/// The rules that the texts spell, where each spells one.
pub open spec fn rules_of(list: Seq<Seq<char>>) -> Option<Seq<RuleText>>
    decreases list.len(),
{
    if list.len() == 0 {
        Some(Seq::empty())
    } else {
        match (rules_of(list.drop_last()), rule_of(list.last())) {
            (Some(before), Some(rule)) => Some(before.push(rule)),
            _ => None,
        }
    }
}

/// The name and the rules of the workflow that a text spells: the name up to
/// the first `{`, then the rules, separated by commas, up to the last
/// character before the next `{` or the end, which is dropped. A text
/// without `{` spells no workflow.
pub open spec fn workflow_of(text: Seq<char>) -> Option<(Seq<char>, Seq<RuleText>)> {
    let parts = split(text, seq!['{']);
    if parts.len() < 2 {
        None
    } else {
        let body = if parts[1].len() > 0 {
            parts[1].drop_last()
        } else {
            parts[1]
        };
        match rules_of(split(body, seq![','])) {
            Some(rules) => Some((parts[0], rules)),
            None => None,
        }
    }
}

/// The part with the rating that a section `name=number` gives. A section
/// without `=`, with no number behind it or with another name than the four
/// gives nothing.
pub open spec fn assign(part: Part, section: Seq<char>) -> Option<Part> {
    let kv = split(section, seq!['=']);
    if kv.len() < 2 {
        None
    } else {
        match number_i64(kv[1]) {
            None => None,
            Some(v) => if kv[0] == seq!['x'] {
                Some(Part { x: v, ..part })
            } else if kv[0] == seq!['m'] {
                Some(Part { m: v, ..part })
            } else if kv[0] == seq!['a'] {
                Some(Part { a: v, ..part })
            } else if kv[0] == seq!['s'] {
                Some(Part { s: v, ..part })
            } else {
                None
            },
        }
    }
}

/// The part after the sections have given their ratings one after the other.
pub open spec fn assign_all(sections: Seq<Seq<char>>, part: Part) -> Option<Part>
    decreases sections.len(),
{
    if sections.len() == 0 {
        Some(part)
    } else {
        match assign_all(sections.drop_last(), part) {
            None => None,
            Some(p) => assign(p, sections.last()),
        }
    }
}

/// The part that a text spells: between its first and its last character,
/// sections separated by commas. A rating that no section gives is 0.
pub open spec fn part_of(text: Seq<char>) -> Option<Part> {
    if text.len() < 2 {
        None
    } else {
        assign_all(
            split(text.subrange(1, text.len() - 1), seq![',']),
            Part { x: 0, m: 0, a: 0, s: 0 },
        )
    }
}

/// The result that the characters of `line` from `from` up to `to` stand for.
fn read_result(line: &str, chars: &Vec<char>, from: usize, to: usize) -> (result: RuleResult)
    requires
        chars@ == line@,
        from <= to <= chars@.len(),
    ensures
        result@ == outcome_of(chars@.subrange(from as int, to as int)),
{
    let ghost word = chars@.subrange(from as int, to as int);
    if to - from == 1 {
        assert(word[0] == chars@[from as int]);
        if chars[from] == 'R' {
            assert(word =~= seq!['R']);
            return RuleResult::Reject;
        }
        if chars[from] == 'A' {
            assert(word =~= seq!['A']);
            return RuleResult::Accept;
        }
        assert(word != seq!['R'] && word != seq!['A']) by {
            assert(seq!['R'][0] == 'R' && seq!['A'][0] == 'A');
        }
    } else {
        assert(seq!['R'].len() == 1 && seq!['A'].len() == 1);
    }
    RuleResult::Next(line.substring_char(from, to).to_owned())
}

/// Reads the characters of `line` from `from` up to `to` as a rule.
fn read_rule(line: &str, chars: &Vec<char>, from: usize, to: usize) -> (rule: Option<Rule>)
    requires
        chars@ == line@,
        from <= to <= chars@.len(),
    ensures
        match rule {
            Some(r) => rule_of(chars@.subrange(from as int, to as int)) == Some(r@),
            None => rule_of(chars@.subrange(from as int, to as int)) is None,
        },
{
    let colon: Vec<char> = vec![':'];
    assert(colon@ =~= seq![':']);
    let q = split_within(chars, from, to, &colon);
    if q.len() == 2 {
        let (a, b) = q[0];
        if b - a < 2 {
            return None;
        }
        let ghost cond = chars@.subrange(a as int, b as int);
        assert(cond[0] == chars@[a as int] && cond[1] == chars@[a + 1]);
        assert(cond.skip(2) =~= chars@.subrange(a + 2, b as int));
        let threshold = match parse_i64(chars, a + 2, b) {
            Some(v) => v,
            None => 0,
        };
        let rule_result = read_result(line, chars, q[1].0, q[1].1);
        Some(Rule { rule_result, pred: Some((chars[a], chars[a + 1], threshold)) })
    } else {
        let rule_result = read_result(line, chars, q[0].0, q[0].1);
        Some(Rule { rule_result, pred: None })
    }
}

impl Rule {
    /// Reads a rule.
    pub fn parse(r: &str) -> (rule: Option<Rule>)
        ensures
            match rule {
                Some(rule) => rule_of(r@) == Some(rule@),
                None => rule_of(r@) is None,
            },
    {
        let chars = to_chars(r);
        assert(chars@.subrange(0, chars@.len() as int) =~= r@);
        read_rule(r, &chars, 0, chars.len())
    }

    /// Whether the threshold of the test is away from the ends of the 64
    /// bits.
    pub fn is_wf(&self) -> (b: bool)
        ensures
            b == self.wf(),
    {
        match self.pred {
            Some((_, _, threshold)) => i64::MIN < threshold && threshold < i64::MAX,
            None => true,
        }
    }
}

impl WorkFlow {
    /// Reads a workflow.
    pub fn parse(r: &str) -> (flow: Option<WorkFlow>)
        ensures
            match flow {
                Some(f) => workflow_of(r@) == Some((f.name@, rule_texts(f.rules@))),
                None => workflow_of(r@) is None,
            },
    {
        let chars = to_chars(r);
        let brace: Vec<char> = vec!['{'];
        let comma: Vec<char> = vec![','];
        assert(brace@ =~= seq!['{']);
        assert(comma@ =~= seq![',']);
        assert(chars@.subrange(0, chars@.len() as int) =~= r@);
        let parts = split_within(&chars, 0, chars.len(), &brace);
        if parts.len() < 2 {
            return None;
        }
        let name = r.substring_char(parts[0].0, parts[0].1).to_owned();
        let (a, b) = parts[1];
        let end = if b > a {
            b - 1
        } else {
            b
        };
        let ghost body = chars@.subrange(a as int, end as int);
        assert(b > a ==> body =~= chars@.subrange(a as int, b as int).drop_last());
        let list = split_within(&chars, a, end, &comma);
        let ghost whole = split(r@, seq!['{']);
        assert(body == if whole[1].len() > 0 {
            whole[1].drop_last()
        } else {
            whole[1]
        });
        let ghost texts = split(body, seq![',']);
        let mut rules: Vec<Rule> = Vec::new();
        let mut k: usize = 0;
        assert(texts.take(0) =~= Seq::empty());
        assert(rule_texts(rules@) =~= Seq::empty());
        while k < list.len()
            invariant
                k <= list@.len(),
                chars@ == r@,
                whole == split(r@, seq!['{']),
                whole.len() >= 2,
                name@ == whole[0],
                body == if whole[1].len() > 0 {
                    whole[1].drop_last()
                } else {
                    whole[1]
                },
                texts == split(body, seq![',']),
                list@.len() == texts.len(),
                forall|i: int|
                    0 <= i < list@.len() ==> {
                        &&& a <= (#[trigger] list@[i]).0 <= list@[i].1 <= end
                        &&& chars@.subrange(list@[i].0 as int, list@[i].1 as int) == texts[i]
                    },
                end <= chars@.len(),
                rules_of(texts.take(k as int)) == Some(rule_texts(rules@)),
            decreases list@.len() - k,
        {
            proof {
                assert(texts.take(k + 1).drop_last() =~= texts.take(k as int));
                assert(texts.take(k + 1).last() == texts[k as int]);
            }
            let ghost before = rule_texts(rules@);
            match read_rule(r, &chars, list[k].0, list[k].1) {
                Some(rule) => {
                    let ghost text = rule@;
                    rules.push(rule);
                    assert(rule_texts(rules@) =~= before.push(text));
                },
                None => {
                    proof {
                        lemma_no_rules(texts, k + 1);
                    }
                    return None;
                },
            }
            k += 1;
        }
        assert(texts.take(k as int) =~= texts);
        Some(WorkFlow { name, rules })
    }

    /// Whether every rule of the workflow has a threshold away from the ends
    /// of the 64 bits.
    pub fn is_wf(&self) -> (b: bool)
        ensures
            b == self.wf(),
    {
        let mut k: usize = 0;
        while k < self.rules.len()
            invariant
                k <= self.rules@.len(),
                forall|i: int| 0 <= i < k ==> (#[trigger] self.rules@[i]).wf(),
            decreases self.rules@.len() - k,
        {
            if !self.rules[k].is_wf() {
                return false;
            }
            k += 1;
        }
        true
    }
}

/// Texts of which a part spells no rules spell none.
pub proof fn lemma_no_rules(list: Seq<Seq<char>>, k: int)
    requires
        0 <= k <= list.len(),
        rules_of(list.take(k)) is None,
    ensures
        rules_of(list) is None,
    decreases list.len() - k,
{
    if k < list.len() {
        assert(list.take(k + 1).drop_last() =~= list.take(k));
        lemma_no_rules(list, k + 1);
    } else {
        assert(list.take(k) =~= list);
    }
}

/// Sections of which a part gives nothing give nothing.
pub proof fn lemma_no_part(sections: Seq<Seq<char>>, part: Part, k: int)
    requires
        0 <= k <= sections.len(),
        assign_all(sections.take(k), part) is None,
    ensures
        assign_all(sections, part) is None,
    decreases sections.len() - k,
{
    if k < sections.len() {
        assert(sections.take(k + 1).drop_last() =~= sections.take(k));
        lemma_no_part(sections, part, k + 1);
    } else {
        assert(sections.take(k) =~= sections);
    }
}

impl Part {
    /// Reads a part.
    pub fn parse(input: &str) -> (part: Option<Part>)
        ensures
            part == part_of(input@),
    {
        let chars = to_chars(input);
        if chars.len() < 2 {
            return None;
        }
        let comma: Vec<char> = vec![','];
        let equals: Vec<char> = vec!['='];
        assert(comma@ =~= seq![',']);
        assert(equals@ =~= seq!['=']);
        let list = split_within(&chars, 1, chars.len() - 1, &comma);
        let ghost sections = split(chars@.subrange(1, chars@.len() - 1), seq![',']);
        let ghost empty = Part { x: 0, m: 0, a: 0, s: 0 };
        let mut pt = Part { x: 0, m: 0, a: 0, s: 0 };
        let mut k: usize = 0;
        assert(sections.take(0) =~= Seq::empty());
        while k < list.len()
            invariant
                k <= list@.len(),
                chars@ == input@,
                chars@.len() >= 2,
                sections == split(chars@.subrange(1, chars@.len() - 1), seq![',']),
                equals@ == seq!['='],
                empty == (Part { x: 0, m: 0, a: 0, s: 0 }),
                list@.len() == sections.len(),
                forall|i: int|
                    0 <= i < list@.len() ==> {
                        &&& 1 <= (#[trigger] list@[i]).0 <= list@[i].1 <= chars@.len() - 1
                        &&& chars@.subrange(list@[i].0 as int, list@[i].1 as int) == sections[i]
                    },
                assign_all(sections.take(k as int), empty) == Some(pt),
            decreases list@.len() - k,
        {
            proof {
                assert(sections.take(k + 1).drop_last() =~= sections.take(k as int));
                assert(sections.take(k + 1).last() == sections[k as int]);
            }
            let (a, b) = list[k];
            let kv = split_within(&chars, a, b, &equals);
            let mut given: Option<Part> = None;
            if kv.len() >= 2 {
                match parse_i64(&chars, kv[1].0, kv[1].1) {
                    Some(v) => {
                        let (ka, kb) = kv[0];
                        let ghost key = chars@.subrange(ka as int, kb as int);
                        if kb - ka == 1 {
                            let name = chars[ka];
                            assert(key =~= seq![name]);
                            assert(seq!['x'][0] == 'x' && seq!['m'][0] == 'm' && seq!['a'][0]
                                == 'a' && seq!['s'][0] == 's');
                            if name == 'x' {
                                given = Some(Part { x: v, ..pt });
                            } else if name == 'm' {
                                given = Some(Part { m: v, ..pt });
                            } else if name == 'a' {
                                given = Some(Part { a: v, ..pt });
                            } else if name == 's' {
                                given = Some(Part { s: v, ..pt });
                            }
                        } else {
                            assert(seq!['x'].len() == 1 && seq!['m'].len() == 1 && seq!['a'].len()
                                == 1 && seq!['s'].len() == 1);
                        }
                    },
                    None => {},
                }
            }
            assert(given == assign(pt, sections[k as int]));
            match given {
                Some(next) => {
                    pt = next;
                },
                None => {
                    proof {
                        lemma_no_part(sections, empty, k + 1);
                    }
                    return None;
                },
            }
            k += 1;
        }
        assert(sections.take(k as int) =~= sections);
        Some(pt)
    }
}

/// The first empty line at or after `from`, or the number of lines where
/// there is none.
pub open spec fn first_empty(lines: Seq<Seq<char>>, from: int) -> int
    decreases lines.len() - from,
{
    if from < 0 || from >= lines.len() {
        lines.len() as int
    } else if lines[from].len() == 0 {
        from
    } else {
        first_empty(lines, from + 1)
    }
}

/// The sum of the ratings of those of the parts that the workflows accept.
pub open spec fn accepted_sum(flows: Seq<WorkFlow>, parts: Seq<Part>) -> int
    decreases parts.len(),
{
    if parts.len() == 0 {
        0
    } else {
        let p = parts.last();
        accepted_sum(flows, parts.drop_last()) + if sorted(flows, p, "in"@, flows.len() + 1)
            == Verdict::Accepted {
            p.x + p.m + p.a + p.s
        } else {
            0
        }
    }
}

/// The lines spell the workflows and the parts: the workflows on the lines
/// before the first empty line, one to a line, and the parts on the lines
/// from there to the next empty line or the end.
pub open spec fn spell(lines: Seq<Seq<char>>, flows: Seq<WorkFlow>, parts: Seq<Part>) -> bool {
    let gap = first_empty(lines, 0);
    let end = first_empty(lines, gap + 1);
    &&& gap < lines.len()
    &&& flows.len() == gap
    &&& forall|i: int|
        0 <= i < gap ==> workflow_of(lines[i]) == Some(
            ((#[trigger] flows[i]).name@, rule_texts(flows[i].rules@)),
        )
    &&& parts.len() == end - gap - 1
    &&& forall|j: int| 0 <= j < parts.len() ==> part_of(lines[gap + 1 + j]) == Some(#[trigger] parts[j])
}

/// The lines spell workflows and parts.
pub open spec fn readable(lines: Seq<Seq<char>>) -> bool {
    let gap = first_empty(lines, 0);
    let end = first_empty(lines, gap + 1);
    &&& gap < lines.len()
    &&& forall|i: int| 0 <= i < gap ==> (#[trigger] workflow_of(lines[i])) is Some
    &&& forall|j: int| gap < j < end ==> (#[trigger] part_of(lines[j])) is Some
}

/// The threshold of the rule, if it has one, is away from the ends of the 64
/// bits.
pub open spec fn tame_rule(rule: RuleText) -> bool {
    match rule.pred {
        Some((_, _, threshold)) => i64::MIN < threshold < i64::MAX,
        None => true,
    }
}

/// The text spells no workflow with a threshold at the end of the 64 bits.
pub open spec fn tame(text: Seq<char>) -> bool {
    match workflow_of(text) {
        Some((_, rules)) => forall|k: int| 0 <= k < rules.len() ==> tame_rule(#[trigger] rules[k]),
        None => true,
    }
}

/// The first empty line at or after `from`.
pub fn find_empty(lines: &Vec<String>, from: usize) -> (at: usize)
    ensures
        at == first_empty(texts(lines@), from as int),
        from <= lines@.len() ==> from <= at <= lines@.len(),
        forall|i: int| from <= i < at ==> (#[trigger] lines@[i])@.len() > 0,
{
    let mut i = from;
    if from >= lines.len() {
        return lines.len();
    }
    while i < lines.len()
        invariant
            from <= i <= lines@.len(),
            first_empty(texts(lines@), from as int) == first_empty(texts(lines@), i as int),
            forall|k: int| from <= k < i ==> (#[trigger] lines@[k])@.len() > 0,
        decreases lines@.len() - i,
    {
        assert(texts(lines@)[i as int] == lines@[i as int]@);
        if lines[i].as_str().unicode_len() == 0 {
            return i;
        }
        i += 1;
    }
    i
}

/// Reads the workflows and the parts, adds up the ratings of the parts that
/// the workflows accept, and counts the parts that they would accept.
///
/// The second answer is `None` where the count has not come to an end after
/// `limit` steps. There is no answer at all where the lines spell no
/// workflows and parts, or a rule has a threshold at the end of the 64 bits.
pub fn solve(lines: &Vec<String>, limit: usize) -> (answers: Option<(i128, Option<i128>)>)
    requires
        lines@.len() <= 0x0fff_ffff_ffff_ffff,
    ensures
        match answers {
            Some((sum, count)) => exists|flows: Seq<WorkFlow>, parts: Seq<Part>|
                {
                    &&& #[trigger] spell(texts(lines@), flows, parts)
                    &&& forall|i: int| 0 <= i < flows.len() ==> (#[trigger] flows[i]).wf()
                    &&& sum == accepted_sum(flows, parts)
                    &&& match count {
                        Some(n) => {
                            &&& search_start().steps(flows, limit as nat).open.len() == 0
                            &&& n == search_start().steps(flows, limit as nat).count
                        },
                        None => search_start().steps(flows, limit as nat).open.len() > 0,
                    }
                },
            None => !readable(texts(lines@)) || exists|i: int|
                0 <= i < lines@.len() && !#[trigger] tame(lines@[i]@),
        },
{
    let ghost text = texts(lines@);
    let gap = find_empty(lines, 0);
    if gap >= lines.len() {
        return None;
    }
    let end = find_empty(lines, gap + 1);
    let mut workflows: Vec<WorkFlow> = Vec::new();
    let mut i: usize = 0;
    while i < gap
        invariant
            i <= gap < lines@.len(),
            text == texts(lines@),
            gap == first_empty(text, 0),
            workflows@.len() == i,
            forall|k: int|
                0 <= k < i ==> workflow_of(text[k]) == Some(
                    ((#[trigger] workflows@[k]).name@, rule_texts(workflows@[k].rules@)),
                ),
            forall|k: int| 0 <= k < i ==> (#[trigger] workflows@[k]).wf(),
        decreases gap - i,
    {
        assert(text[i as int] == lines@[i as int]@);
        match WorkFlow::parse(lines[i].as_str()) {
            Some(flow) => {
                if !flow.is_wf() {
                    proof {
                        let w = workflow_of(lines@[i as int]@)->Some_0;
                        let k = choose|k: int|
                            0 <= k < flow.rules@.len() && !(#[trigger] flow.rules@[k]).wf();
                        assert(w.1[k] == flow.rules@[k]@);
                        assert(!tame_rule(w.1[k]));
                        assert(!tame(lines@[i as int]@));
                    }
                    return None;
                }
                workflows.push(flow);
            },
            None => {
                assert(workflow_of(text[i as int]) is None);
                return None;
            },
        }
        i += 1;
    }
    let runner = WorkFlowRunner::new(workflows);
    let mut parts: Vec<Part> = Vec::new();
    let mut sum: i128 = 0;
    let mut j: usize = gap + 1;
    while j < end
        invariant
            gap + 1 <= j,
            gap < lines@.len(),
            j <= end || end <= gap + 1,
            end <= lines@.len() <= 0x0fff_ffff_ffff_ffff,
            text == texts(lines@),
            gap == first_empty(text, 0),
            end == first_empty(text, gap + 1),
            parts@.len() == if j <= end {
                j - gap - 1
            } else {
                0
            },
            forall|k: int| 0 <= k < parts@.len() ==> part_of(text[gap + 1 + k]) == Some(#[trigger] parts@[k]),
            sum == accepted_sum(runner.workflows@, parts@),
            -0x2_0000_0000_0000_0000 * parts@.len() <= sum <= 0x2_0000_0000_0000_0000
                * parts@.len(),
        decreases end - j,
    {
        assert(text[j as int] == lines@[j as int]@);
        match Part::parse(lines[j].as_str()) {
            Some(part) => {
                let ghost before = parts@;
                parts.push(part);
                assert(parts@.drop_last() =~= before);
                match runner.solve_pt1(&part) {
                    Some(ratings) => {
                        sum = sum + ratings;
                    },
                    None => {},
                }
            },
            None => {
                assert(part_of(text[j as int]) is None);
                return None;
            },
        }
        j += 1;
    }
    let count = runner.solve_pt2(limit);
    assert(spell(text, runner.workflows@, parts@));
    Some((sum, count))
}

} // verus!
