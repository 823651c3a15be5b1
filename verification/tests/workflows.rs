use aoc2023::days::day19::{
    apply_constraint, solve, Constraint, Part, Rule, RuleResult, Verdict, WorkFlow,
    WorkFlowRunner,
};

fn sample() -> Vec<String> {
    [
        "px{a<2006:qkq,m>2090:A,rfg}",
        "pv{a>1716:R,A}",
        "lnx{m>1548:A,A}",
        "rfg{s<537:gd,x>2440:R,A}",
        "qs{s>3448:A,lnx}",
        "qkq{x<1416:A,crn}",
        "crn{x>2662:A,R}",
        "in{s<1351:px,qqz}",
        "qqz{s>2770:qs,m<1801:hdj,R}",
        "gd{a>3333:R,R}",
        "hdj{m>838:A,pv}",
        "",
        "{x=787,m=2655,a=1222,s=2876}",
        "{x=1679,m=44,a=2067,s=496}",
        "{x=2036,m=264,a=79,s=2244}",
        "{x=2461,m=1339,a=466,s=291}",
        "{x=2127,m=1623,a=2188,s=1013}",
    ]
    .iter()
    .map(|s| s.to_string())
    .collect()
}

fn runner() -> WorkFlowRunner {
    let flows = sample()[..11].iter().map(|l| WorkFlow::parse(l).unwrap()).collect();
    WorkFlowRunner::new(flows)
}

fn next(name: &str) -> RuleResult {
    RuleResult::Next(name.to_string())
}

#[test]
fn a_part_is_read_from_its_ratings() {
    assert_eq!(
        Part::parse("{x=787,m=2655,a=1222,s=2876}"),
        Some(Part { x: 787, m: 2655, a: 1222, s: 2876 })
    );
    assert_eq!(Part::parse("{s=4,x=-1}"), Some(Part { x: -1, m: 0, a: 0, s: 4 }));
    assert_eq!(Part::parse("{x=1,x=2}"), Some(Part { x: 2, m: 0, a: 0, s: 0 }));
    assert_eq!(Part::parse("(a=5)"), Some(Part { x: 0, m: 0, a: 5, s: 0 }));
    assert_eq!(Part::parse("{x=1=2}"), Some(Part { x: 1, m: 0, a: 0, s: 0 }));
}

#[test]
fn what_spells_no_part_is_not_read() {
    assert_eq!(Part::parse(""), None);
    assert_eq!(Part::parse("{"), None);
    assert_eq!(Part::parse("{}"), None);
    assert_eq!(Part::parse("{x}"), None);
    assert_eq!(Part::parse("{x=}"), None);
    assert_eq!(Part::parse("{y=1}"), None);
    assert_eq!(Part::parse("{xx=1}"), None);
    assert_eq!(Part::parse("{x=1,}"), None);
    assert_eq!(Part::parse("{x=one}"), None);
}

#[test]
fn a_rule_is_read_with_or_without_test() {
    let r = Rule::parse("a<2006:qkq").unwrap();
    assert_eq!(r.rule_result, next("qkq"));
    assert_eq!(r.pred, Some(('a', '<', 2006)));
    let r = Rule::parse("m>2090:A").unwrap();
    assert_eq!(r.rule_result, RuleResult::Accept);
    assert_eq!(r.pred, Some(('m', '>', 2090)));
    let r = Rule::parse("s>1:R").unwrap();
    assert_eq!(r.rule_result, RuleResult::Reject);
    let r = Rule::parse("rfg").unwrap();
    assert_eq!(r.rule_result, next("rfg"));
    assert_eq!(r.pred, None);
    let r = Rule::parse("A").unwrap();
    assert_eq!(r.rule_result, RuleResult::Accept);
    assert_eq!(r.pred, None);
    let r = Rule::parse("").unwrap();
    assert_eq!(r.rule_result, next(""));
}

#[test]
fn odd_rules_are_read_as_the_text_says() {
    let r = Rule::parse("a<x:R").unwrap();
    assert_eq!(r.pred, Some(('a', '<', 0)));
    let r = Rule::parse("a<:R").unwrap();
    assert_eq!(r.pred, Some(('a', '<', 0)));
    assert!(Rule::parse("a:R").is_none());
    assert!(Rule::parse(":R").is_none());
    let r = Rule::parse("a<1:b:c").unwrap();
    assert_eq!(r.rule_result, next("a<1"));
    assert_eq!(r.pred, None);
    assert!(Rule::parse("a<5:R").unwrap().is_wf());
    assert!(!Rule::parse("a<9223372036854775807:R").unwrap().is_wf());
    assert!(!Rule::parse("a>-9223372036854775808:R").unwrap().is_wf());
}

#[test]
fn a_workflow_is_read_with_its_rules() {
    let w = WorkFlow::parse("px{a<2006:qkq,m>2090:A,rfg}").unwrap();
    assert_eq!(w.name, "px");
    assert_eq!(w.rules.len(), 3);
    assert_eq!(w.rules[0].pred, Some(('a', '<', 2006)));
    assert_eq!(w.rules[0].rule_result, next("qkq"));
    assert_eq!(w.rules[1].pred, Some(('m', '>', 2090)));
    assert_eq!(w.rules[1].rule_result, RuleResult::Accept);
    assert_eq!(w.rules[2].pred, None);
    assert_eq!(w.rules[2].rule_result, next("rfg"));
    assert!(w.is_wf());
    assert!(WorkFlow::parse("px").is_none());
    assert!(WorkFlow::parse("px{a:R}").is_none());
    let w = WorkFlow::parse("px{").unwrap();
    assert_eq!(w.rules.len(), 1);
    assert_eq!(w.rules[0].rule_result, next(""));
    let w = WorkFlow::parse("px{A}{R}").unwrap();
    assert_eq!(w.rules.len(), 1);
    assert_eq!(w.rules[0].rule_result, RuleResult::Accept);
}

#[test]
fn a_rule_lets_pass_what_meets_its_test() {
    let part = Part { x: 787, m: 2655, a: 1222, s: 2876 };
    let rule = Rule::parse("a<2006:qkq").unwrap();
    assert_eq!(rule.solve_pt1(&part), Some(&next("qkq")));
    let rule = Rule::parse("a<1222:qkq").unwrap();
    assert_eq!(rule.solve_pt1(&part), None);
    let rule = Rule::parse("m>2654:A").unwrap();
    assert_eq!(rule.solve_pt1(&part), Some(&RuleResult::Accept));
    let rule = Rule::parse("s>2876:A").unwrap();
    assert_eq!(rule.solve_pt1(&part), None);
    let rule = Rule::parse("x=787:A").unwrap();
    assert_eq!(rule.solve_pt1(&part), None);
    let rule = Rule::parse("q<9999:A").unwrap();
    assert_eq!(rule.solve_pt1(&part), None);
    let rule = Rule::parse("R").unwrap();
    assert_eq!(rule.solve_pt1(&part), Some(&RuleResult::Reject));
}

#[test]
fn a_workflow_gives_the_result_of_the_first_rule_that_holds() {
    let w = WorkFlow::parse("px{a<2006:qkq,m>2090:A,rfg}").unwrap();
    assert_eq!(w.solve_pt1(&Part { x: 0, m: 0, a: 5, s: 0 }), Some(&next("qkq")));
    assert_eq!(w.solve_pt1(&Part { x: 0, m: 3000, a: 5000, s: 0 }), Some(&RuleResult::Accept));
    assert_eq!(w.solve_pt1(&Part { x: 0, m: 0, a: 5000, s: 0 }), Some(&next("rfg")));
    let w = WorkFlow::parse("px{a<2006:qkq}").unwrap();
    assert_eq!(w.solve_pt1(&Part { x: 0, m: 0, a: 5000, s: 0 }), None);
}

#[test]
fn parts_are_sorted_through_the_workflows() {
    let r = runner();
    let parts: Vec<Part> = sample()[12..].iter().map(|l| Part::parse(l).unwrap()).collect();
    let verdicts: Vec<Verdict> = parts.iter().map(|p| r.sort(p)).collect();
    assert_eq!(
        verdicts,
        vec![
            Verdict::Accepted,
            Verdict::Rejected,
            Verdict::Accepted,
            Verdict::Rejected,
            Verdict::Accepted
        ]
    );
    let sums: Vec<Option<i128>> = parts.iter().map(|p| r.solve_pt1(p)).collect();
    assert_eq!(sums, vec![Some(7540), None, Some(4623), None, Some(6951)]);
}

#[test]
fn a_part_can_get_lost_or_go_round_for_ever() {
    let part = Part { x: 1, m: 1, a: 1, s: 1 };
    let lost = WorkFlowRunner::new(vec![WorkFlow::parse("in{x>0:nowhere,R}").unwrap()]);
    assert_eq!(lost.sort(&part), Verdict::Lost);
    assert_eq!(lost.solve_pt1(&part), None);
    let stuck = WorkFlowRunner::new(vec![WorkFlow::parse("in{x>5:A}").unwrap()]);
    assert_eq!(stuck.sort(&part), Verdict::Lost);
    let none = WorkFlowRunner::new(vec![]);
    assert_eq!(none.sort(&part), Verdict::Lost);
    let far = WorkFlowRunner::new(vec![
        WorkFlow::parse("in{b}").unwrap(),
        WorkFlow::parse("b{c}").unwrap(),
        WorkFlow::parse("c{A}").unwrap(),
    ]);
    assert_eq!(far.sort(&part), Verdict::Accepted);
    let round = WorkFlowRunner::new(vec![
        WorkFlow::parse("in{x>0:b,R}").unwrap(),
        WorkFlow::parse("b{in}").unwrap(),
    ]);
    assert_eq!(round.sort(&part), Verdict::Endless);
    assert_eq!(round.solve_pt1(&part), None);
    assert_eq!(round.solve_pt2(1000), None);
}

#[test]
fn the_last_workflow_of_a_name_counts() {
    let r = WorkFlowRunner::new(vec![
        WorkFlow::parse("in{R}").unwrap(),
        WorkFlow::parse("in{A}").unwrap(),
    ]);
    assert_eq!(r.get(&"in".to_string()), Some(1));
    assert_eq!(r.get(&"out".to_string()), None);
    assert_eq!(r.sort(&Part { x: 1, m: 1, a: 1, s: 1 }), Verdict::Accepted);
}

#[test]
fn a_test_cuts_a_range_in_two() {
    let (mut pass_min, mut pass_max, mut fail_min, mut fail_max) = (1, 4000, 1, 4000);
    apply_constraint(('a', '>', 1716), &mut pass_min, &mut pass_max, &mut fail_min, &mut fail_max);
    assert_eq!((pass_min, pass_max, fail_min, fail_max), (1717, 4000, 1, 1716));
    let (mut pass_min, mut pass_max, mut fail_min, mut fail_max) = (1, 4000, 1, 4000);
    apply_constraint(('a', '<', 2006), &mut pass_min, &mut pass_max, &mut fail_min, &mut fail_max);
    assert_eq!((pass_min, pass_max, fail_min, fail_max), (1, 2005, 2006, 4000));
    let (mut pass_min, mut pass_max, mut fail_min, mut fail_max) = (100, 200, 100, 200);
    apply_constraint(('a', '>', 50), &mut pass_min, &mut pass_max, &mut fail_min, &mut fail_max);
    assert_eq!((pass_min, pass_max, fail_min, fail_max), (100, 200, 100, 50));
    let (mut pass_min, mut pass_max, mut fail_min, mut fail_max) = (100, 200, 100, 200);
    apply_constraint(('a', '=', 150), &mut pass_min, &mut pass_max, &mut fail_min, &mut fail_max);
    assert_eq!((pass_min, pass_max, fail_min, fail_max), (100, 149, 150, 200));
}

#[test]
fn a_rule_cuts_the_range_of_its_rating() {
    let all = Constraint::new();
    let (pass, fail) = Rule::parse("m>2090:A").unwrap().solve_pt2(all);
    assert_eq!(pass, Constraint { min_m: 2091, ..all });
    assert_eq!(fail, Constraint { max_m: 2090, ..all });
    let (pass, fail) = Rule::parse("s<537:gd").unwrap().solve_pt2(all);
    assert_eq!(pass, Constraint { max_s: 536, ..all });
    assert_eq!(fail, Constraint { min_s: 537, ..all });
    let (pass, fail) = Rule::parse("x<10:gd").unwrap().solve_pt2(all);
    assert_eq!(pass, Constraint { max_x: 9, ..all });
    assert_eq!(fail, Constraint { min_x: 10, ..all });
    let (pass, fail) = Rule::parse("a>10:gd").unwrap().solve_pt2(all);
    assert_eq!(pass, Constraint { min_a: 11, ..all });
    assert_eq!(fail, Constraint { max_a: 10, ..all });
    let (pass, fail) = Rule::parse("q>10:gd").unwrap().solve_pt2(all);
    assert_eq!((pass, fail), (all, all));
    let (pass, fail) = Rule::parse("gd").unwrap().solve_pt2(all);
    assert_eq!((pass, fail), (all, all));
}

#[test]
fn a_workflow_cuts_a_constraint_up_among_its_rules() {
    let all = Constraint::new();
    let w = WorkFlow::parse("px{a<2006:qkq,m>2090:A,rfg}").unwrap();
    let cut = w.solve_pt2(all);
    assert_eq!(cut.len(), 3);
    assert_eq!(cut[0], (next("qkq"), Constraint { max_a: 2005, ..all }));
    assert_eq!(cut[1], (RuleResult::Accept, Constraint { min_a: 2006, min_m: 2091, ..all }));
    assert_eq!(cut[2], (next("rfg"), Constraint { min_a: 2006, max_m: 2090, ..all }));
}

#[test]
fn constraints_count_their_parts() {
    let all = Constraint::new();
    assert!(all.is_valid());
    assert_eq!(all.permutations(), 4000i64 * 4000 * 4000 * 4000);
    let c = Constraint { min_x: 11, max_x: 20, min_m: 1, max_m: 2, ..all };
    assert!(c.is_valid());
    assert_eq!(c.permutations(), 10 * 2 * 4000 * 4000);
    assert!(!Constraint { min_x: 20, max_x: 20, ..all }.is_valid());
    assert!(!Constraint { min_s: 21, max_s: 20, ..all }.is_valid());
    assert!(!Constraint { min_a: 21, max_a: 20, ..all }.is_valid());
    assert!(!Constraint { min_m: 21, max_m: 20, ..all }.is_valid());
}

#[test]
fn the_accepted_parts_are_counted() {
    assert_eq!(runner().solve_pt2(10000), Some(167409079868000));
    assert_eq!(runner().solve_pt2(3), None);
    let accept_all = WorkFlowRunner::new(vec![WorkFlow::parse("in{A}").unwrap()]);
    assert_eq!(accept_all.solve_pt2(10), Some(4000i128 * 4000 * 4000 * 4000));
    let reject_all = WorkFlowRunner::new(vec![WorkFlow::parse("in{R}").unwrap()]);
    assert_eq!(reject_all.solve_pt2(10), Some(0));
    let nothing = WorkFlowRunner::new(vec![]);
    assert_eq!(nothing.solve_pt2(10), Some(0));
    assert_eq!(nothing.solve_pt2(0), None);
}

#[test]
fn both_answers_for_the_sample() {
    assert_eq!(solve(&sample(), 10000), Some((19114, Some(167409079868000))));
    assert_eq!(solve(&sample(), 3), Some((19114, None)));
}

#[test]
fn lines_that_spell_nothing_give_no_answer() {
    assert_eq!(solve(&vec![], 100), None);
    assert_eq!(solve(&sample()[..11].to_vec(), 100), None);
    let mut bad = sample();
    bad[3] = "rfg".to_string();
    assert_eq!(solve(&bad, 100), None);
    let mut bad = sample();
    bad[13] = "{x=1,y=2}".to_string();
    assert_eq!(solve(&bad, 100), None);
    let mut bad = sample();
    bad[0] = "px{a<9223372036854775807:qkq,m>2090:A,rfg}".to_string();
    assert_eq!(solve(&bad, 100), None);
}

#[test]
fn parts_end_at_a_second_empty_line() {
    let mut lines = sample();
    lines.push(String::new());
    lines.push("not a part".to_string());
    assert_eq!(solve(&lines, 10000), Some((19114, Some(167409079868000))));
    let only = vec!["in{A}".to_string(), String::new()];
    assert_eq!(solve(&only, 10), Some((0, Some(4000i128 * 4000 * 4000 * 4000))));
}
