use aoc2023::days::day20::{solve, solve_pt1, solve_pt2};
use aoc2023::pulse::builder::create_modules;
use aoc2023::pulse::count::tally;
use aoc2023::pulse::module::{BeamType, Module, ModuleType};
use aoc2023::pulse::network::{Graph, Pulse, RunError};
use aoc2023::pulse::parse::{parse_line, Fault, ParseError};

fn lines(text: &[&str]) -> Vec<String> {
    text.iter().map(|s| s.to_string()).collect()
}

fn first_example() -> Vec<String> {
    lines(&["broadcaster -> a, b, c", "%a -> b", "%b -> c", "%c -> inv", "&inv -> a"])
}

fn second_example() -> Vec<String> {
    lines(&["broadcaster -> a", "%a -> inv, con", "&inv -> b", "%b -> con", "&con -> output"])
}

fn counters() -> Vec<String> {
    lines(&[
        "broadcaster -> a0, b0, c0",
        "%a0 -> a1",
        "%a1 -> a2",
        "%a2 -> ca",
        "&ca -> ga",
        "&ga -> sink",
        "%b0 -> b1",
        "%b1 -> b2, cb",
        "%b2 -> cb",
        "&cb -> gb",
        "&gb -> sink",
        "%c0 -> c1",
        "%c1 -> c2, cc",
        "%c2 -> c3",
        "%c3 -> cc",
        "&cc -> gc",
        "&gc -> sink",
        "&sink -> rx",
    ])
}

fn skewed() -> Vec<String> {
    lines(&["broadcaster -> a, b", "%a -> c", "%c -> con", "%b -> con", "&con -> out"])
}

#[test]
fn parses_a_flip_flop_with_two_targets() {
    let d = parse_line("%a -> inv, con").unwrap();
    assert_eq!(d.module_type, ModuleType::FlipFlop);
    assert_eq!(d.name, "a");
    assert_eq!(d.targets, vec!["inv".to_string(), "con".to_string()]);
}

#[test]
fn parses_a_conjunction_and_a_broadcaster() {
    let d = parse_line("&con -> output").unwrap();
    assert_eq!(d.module_type, ModuleType::Conjunction);
    assert_eq!(d.name, "con");
    assert_eq!(d.targets, vec!["output".to_string()]);
    let d = parse_line("broadcaster -> a, b, c").unwrap();
    assert_eq!(d.module_type, ModuleType::Broadcaster);
    assert_eq!(d.name, "broadcaster");
    assert_eq!(d.targets, vec!["a".to_string(), "b".to_string(), "c".to_string()]);
}

#[test]
fn targets_end_at_a_second_separator() {
    let d = parse_line("%a -> b, c -> d").unwrap();
    assert_eq!(d.name, "a");
    assert_eq!(d.targets, vec!["b".to_string(), "c".to_string()]);
}

#[test]
fn an_empty_name_between_commas_is_a_target() {
    let d = parse_line("%a -> b, , c").unwrap();
    assert_eq!(d.targets, vec!["b".to_string(), "".to_string(), "c".to_string()]);
}

#[test]
fn rejects_a_line_without_separator() {
    assert_eq!(parse_line("broadcaster a, b").unwrap_err(), Fault::MissingSeparator);
    assert_eq!(parse_line("%a ->").unwrap_err(), Fault::MissingSeparator);
    assert_eq!(parse_line("").unwrap_err(), Fault::MissingSeparator);
}

#[test]
fn rejects_a_line_without_name() {
    assert_eq!(parse_line(" -> a").unwrap_err(), Fault::MissingName);
}

#[test]
fn rejects_an_empty_target_list() {
    assert_eq!(parse_line("%c -> ").unwrap_err(), Fault::EmptyTargets);
}

#[test]
fn a_bad_line_is_reported_by_its_index() {
    let text = lines(&["broadcaster -> a, b, c", "%a -> b", "%b -> c", "%c -> "]);
    assert_eq!(
        create_modules(&text).unwrap_err(),
        ParseError { line: 3, fault: Fault::EmptyTargets }
    );
    let text = lines(&["broadcaster -> a", "a b"]);
    assert_eq!(
        create_modules(&text).unwrap_err(),
        ParseError { line: 1, fault: Fault::MissingSeparator }
    );
    assert!(solve(&text).is_err());
}

#[test]
fn names_are_numbered_modules_first_then_sinks() {
    let g = create_modules(&second_example()).unwrap();
    let names: Vec<&str> = g.names().iter().map(|s| s.as_str()).collect();
    assert_eq!(names, vec!["broadcaster", "a", "inv", "b", "con", "output"]);
    assert_eq!(g.modules().len(), 5);
    assert_eq!(g.root(), 0);
    assert_eq!(g.modules()[1].targets(), &vec![2, 4]);
    assert_eq!(g.modules()[4].module_type(), ModuleType::Conjunction);
    assert_eq!(g.index_of(&"con".to_string()), Some(4));
    assert_eq!(g.index_of(&"nowhere".to_string()), None);
    assert_eq!(g.feeders(4), vec![1, 3]);
}

#[test]
fn a_conjunction_starts_with_every_input_low() {
    let g = create_modules(&second_example()).unwrap();
    let con = &g.modules()[4];
    assert_eq!(con.remembered(1), Some(BeamType::Low));
    assert_eq!(con.remembered(3), Some(BeamType::Low));
    assert_eq!(con.remembered(2), None);
    assert_eq!(con.remembered(0), None);
    let inv = &g.modules()[2];
    assert_eq!(inv.remembered(1), Some(BeamType::Low));
    assert_eq!(inv.remembered(3), None);
    assert!(!g.modules()[1].is_on());
}

#[test]
fn a_later_declaration_of_a_name_replaces_the_earlier() {
    let g = create_modules(&lines(&["broadcaster -> a", "%a -> x", "&a -> y, z"])).unwrap();
    let names: Vec<&str> = g.names().iter().map(|s| s.as_str()).collect();
    assert_eq!(names, vec!["broadcaster", "a", "y", "z"]);
    assert_eq!(g.modules()[1].module_type(), ModuleType::Conjunction);
    assert_eq!(g.modules()[1].targets(), &vec![2, 3]);
}

#[test]
fn a_network_without_broadcaster_absorbs_the_trigger() {
    let mut g = create_modules(&lines(&["%a -> b"])).unwrap();
    let names: Vec<&str> = g.names().iter().map(|s| s.as_str()).collect();
    assert_eq!(names, vec!["a", "b", "broadcaster"]);
    let log = g.run_cycle(100).unwrap();
    assert_eq!(log, vec![Pulse { from: 3, to: 2, beam: BeamType::Low }]);
    assert_eq!(g.count_pulses(10, 100), Ok((10, 0)));
}

#[test]
fn broadcaster_repeats_either_level() {
    let mut m = Module::new(ModuleType::Broadcaster, vec![1, 2]);
    assert_eq!(m.accept_beam(BeamType::Low, 9), Some(BeamType::Low));
    assert_eq!(m.accept_beam(BeamType::High, 9), Some(BeamType::High));
    assert_eq!(m.targets(), &vec![1, 2]);
}

#[test]
fn flip_flop_ignores_high_and_toggles_on_low() {
    let mut m = Module::new(ModuleType::FlipFlop, vec![1]);
    assert!(!m.is_on());
    assert_eq!(m.accept_beam(BeamType::High, 0), None);
    assert!(!m.is_on());
    assert_eq!(m.accept_beam(BeamType::Low, 0), Some(BeamType::High));
    assert!(m.is_on());
    assert_eq!(m.accept_beam(BeamType::High, 0), None);
    assert!(m.is_on());
    assert_eq!(m.accept_beam(BeamType::Low, 0), Some(BeamType::Low));
    assert!(!m.is_on());
}

#[test]
fn flip_flop_is_on_after_an_odd_number_of_lows() {
    for highs_between in 0..3usize {
        for lows in 0..8usize {
            let mut m = Module::new(ModuleType::FlipFlop, vec![1]);
            let mut toggles = 0;
            for _ in 0..lows {
                for _ in 0..highs_between {
                    let was = m.is_on();
                    assert_eq!(m.accept_beam(BeamType::High, 0), None);
                    assert_eq!(m.is_on(), was);
                }
                let was = m.is_on();
                m.accept_beam(BeamType::Low, 0);
                if m.is_on() != was {
                    toggles += 1;
                }
            }
            assert_eq!(toggles, lows);
            assert_eq!(m.is_on(), lows % 2 == 1);
        }
    }
}

#[test]
fn conjunction_sends_low_exactly_when_all_inputs_are_high() {
    for k in 1..=3usize {
        for assignment in 0..(1usize << k) {
            let mut m = Module::new(ModuleType::Conjunction, vec![7]);
            for input in 0..k {
                m.handle_source(input);
            }
            let mut last = None;
            for input in 0..k {
                let level =
                    if assignment >> input & 1 == 1 { BeamType::High } else { BeamType::Low };
                last = m.accept_beam(level, input);
                assert!(last.is_some());
            }
            let all_high = assignment == (1 << k) - 1;
            assert_eq!(last, Some(if all_high { BeamType::Low } else { BeamType::High }));
            for input in 0..k {
                let level =
                    if assignment >> input & 1 == 1 { BeamType::High } else { BeamType::Low };
                assert_eq!(m.remembered(input), Some(level));
            }
            assert_eq!(m.remembered(k), None);
        }
    }
}

#[test]
fn a_conjunction_without_inputs_always_sends_low() {
    let mut m = Module::new(ModuleType::Conjunction, vec![1]);
    assert_eq!(m.accept_beam(BeamType::High, 5), Some(BeamType::Low));
    assert_eq!(m.accept_beam(BeamType::Low, 5), Some(BeamType::Low));
    assert_eq!(m.remembered(5), None);
}

#[test]
fn a_pulse_from_a_source_that_is_no_input_adds_no_input() {
    let mut m = Module::new(ModuleType::Conjunction, vec![1]);
    m.handle_source(0);
    m.handle_source(3);
    assert_eq!(m.accept_beam(BeamType::High, 5), Some(BeamType::High));
    assert_eq!(m.remembered(5), None);
    assert_eq!(m.accept_beam(BeamType::High, 0), Some(BeamType::High));
    assert_eq!(m.accept_beam(BeamType::High, 3), Some(BeamType::Low));
    // a Low from elsewhere is not remembered, so all inputs are still High
    assert_eq!(m.accept_beam(BeamType::Low, 5), Some(BeamType::Low));
    assert_eq!(m.remembered(0), Some(BeamType::High));
    assert_eq!(m.remembered(3), Some(BeamType::High));
    assert_eq!(m.remembered(5), None);
    assert_eq!(m.accept_beam(BeamType::Low, 3), Some(BeamType::High));
    assert_eq!(m.remembered(3), Some(BeamType::Low));
    for other in [1usize, 2, 4, 5, 6] {
        assert_eq!(m.remembered(other), None);
    }
}

#[test]
fn first_example_one_cycle() {
    let mut g = create_modules(&first_example()).unwrap();
    let log = g.run_cycle(1000).unwrap();
    assert_eq!(log.len(), 12);
    assert_eq!(tally(&log), (8, 4));
    let l = BeamType::Low;
    let h = BeamType::High;
    let expected = vec![
        Pulse { from: 5, to: 0, beam: l },
        Pulse { from: 0, to: 1, beam: l },
        Pulse { from: 0, to: 2, beam: l },
        Pulse { from: 0, to: 3, beam: l },
        Pulse { from: 1, to: 2, beam: h },
        Pulse { from: 2, to: 3, beam: h },
        Pulse { from: 3, to: 4, beam: h },
        Pulse { from: 4, to: 1, beam: l },
        Pulse { from: 1, to: 2, beam: l },
        Pulse { from: 2, to: 3, beam: l },
        Pulse { from: 3, to: 4, beam: l },
        Pulse { from: 4, to: 1, beam: h },
    ];
    assert_eq!(log, expected);
}

#[test]
fn first_example_thousand_cycles() {
    let mut g = create_modules(&first_example()).unwrap();
    assert_eq!(g.clone().count_pulses(1000, 1000), Ok((8000, 4000)));
    assert_eq!(solve_pt1(&mut g), Ok(32000000));
}

#[test]
fn second_example_thousand_cycles() {
    let mut g = create_modules(&second_example()).unwrap();
    assert_eq!(g.clone().count_pulses(1000, 1000), Ok((4250, 2750)));
    assert_eq!(solve_pt1(&mut g), Ok(11687500));
}

#[test]
fn second_example_repeats_after_four_cycles() {
    let mut g = create_modules(&second_example()).unwrap();
    let mut counts = Vec::new();
    for _ in 0..8 {
        counts.push(tally(&g.run_cycle(1000).unwrap()));
    }
    assert_eq!(counts[0], (4, 4));
    assert_eq!(counts[1], (4, 2));
    assert_eq!(counts[2], (5, 3));
    assert_eq!(counts[3], (4, 2));
    assert_eq!(&counts[0..4], &counts[4..8]);
}

#[test]
fn memory_carries_over_from_cycle_to_cycle() {
    let mut g = create_modules(&second_example()).unwrap();
    g.run_cycle(1000).unwrap();
    assert!(g.modules()[1].is_on());
    assert!(g.modules()[3].is_on());
    assert_eq!(g.modules()[4].remembered(1), Some(BeamType::High));
    assert_eq!(g.modules()[4].remembered(3), Some(BeamType::High));
}

#[test]
fn two_runs_of_one_network_agree() {
    for text in [first_example(), second_example(), counters(), skewed()] {
        let g = create_modules(&text).unwrap();
        let mut one = g.clone();
        let mut two = g.clone();
        for cycles in [0usize, 1, 2, 17, 100] {
            assert_eq!(one.clone().count_pulses(cycles, 10000), two.clone().count_pulses(cycles, 10000));
        }
        assert_eq!(one.count_pulses(250, 10000), two.count_pulses(250, 10000));
        assert_eq!(one.run_cycle(10000), two.run_cycle(10000));
    }
}

#[test]
fn a_copy_is_untouched_by_cycles_on_the_network_it_was_made_of() {
    let mut g = create_modules(&second_example()).unwrap();
    let fresh = g.clone();
    g.run_cycle(1000).unwrap();
    assert!(g.modules()[1].is_on());
    assert!(!fresh.modules()[1].is_on());
    assert_eq!(fresh.modules()[4].remembered(1), Some(BeamType::Low));
}

fn depth_first(
    modules: &mut Vec<Module>,
    pulse: Pulse,
    low: &mut u64,
    high: &mut u64,
) {
    if pulse.beam == BeamType::Low {
        *low += 1;
    } else {
        *high += 1;
    }
    if pulse.to < modules.len() {
        if let Some(beam) = modules[pulse.to].accept_beam(pulse.beam, pulse.from) {
            let targets = modules[pulse.to].targets().clone();
            for to in targets {
                depth_first(modules, Pulse { from: pulse.to, to, beam }, low, high);
            }
        }
    }
}

#[test]
fn delivery_in_order_of_arrival_differs_from_depth_first() {
    let g = create_modules(&skewed()).unwrap();
    let mut breadth = g.clone();
    assert_eq!(breadth.count_pulses(2, 1000), Ok((8, 6)));

    let mut modules = g.modules().clone();
    let (mut low, mut high) = (0u64, 0u64);
    for _ in 0..2 {
        let seed = Pulse { from: g.names().len(), to: g.root(), beam: BeamType::Low };
        depth_first(&mut modules, seed, &mut low, &mut high);
    }
    assert_eq!((low, high), (9, 5));
}

#[test]
fn pulses_are_delivered_oldest_first() {
    let mut g = create_modules(&skewed()).unwrap();
    g.run_cycle(1000).unwrap();
    let log = g.run_cycle(1000).unwrap();
    let names = g.names();
    let told: Vec<String> = log
        .iter()
        .map(|p| {
            let from = if p.from < names.len() { names[p.from].as_str() } else { "button" };
            let level = if p.beam == BeamType::Low { "low" } else { "high" };
            format!("{} -{}-> {}", from, level, names[p.to])
        })
        .collect();
    assert_eq!(
        told,
        vec![
            "button -low-> broadcaster",
            "broadcaster -low-> a",
            "broadcaster -low-> b",
            "a -low-> c",
            "b -low-> con",
            "c -high-> con",
            "con -high-> out",
            "con -high-> out",
        ]
    );
}

#[test]
fn a_cycle_that_never_settles_is_given_up() {
    let mut g = create_modules(&lines(&["broadcaster -> a", "&a -> a"])).unwrap();
    assert_eq!(g.clone().run_cycle(1000), Err(RunError::Unsettled));
    assert_eq!(g.clone().count_pulses(3, 1000), Err(RunError::Unsettled));
    assert_eq!(solve_pt1(&mut g), Err(RunError::Unsettled));
}

#[test]
fn a_cycle_settles_exactly_at_the_limit() {
    let g = create_modules(&first_example()).unwrap();
    assert_eq!(g.clone().run_cycle(11), Err(RunError::Unsettled));
    assert!(g.clone().run_cycle(12).is_ok());
    assert_eq!(g.clone().run_cycle(0), Err(RunError::Unsettled));
}

#[test]
fn gates_first_send_high_at_four_six_and_ten() {
    let mut g = create_modules(&counters()).unwrap();
    let sink = g.index_of(&"sink".to_string()).unwrap();
    let gates = g.feeders(sink);
    let named: Vec<&str> = gates.iter().map(|&i| g.names()[i].as_str()).collect();
    assert_eq!(named, vec!["ga", "gb", "gc"]);
    assert_eq!(g.clone().first_highs(sink, &gates, 100, 1000), Ok(vec![4, 6, 10]));
    assert_eq!(g.clone().predict(sink, &gates, 100, 1000), Ok(60));
    assert_eq!(solve_pt2(&mut g), Ok(60));
}

#[test]
fn the_search_for_periods_is_capped() {
    let g = create_modules(&counters()).unwrap();
    let sink = g.index_of(&"sink".to_string()).unwrap();
    let gates = g.feeders(sink);
    assert_eq!(g.clone().first_highs(sink, &gates, 9, 1000), Err(RunError::NoPeriod));
    assert_eq!(g.clone().first_highs(sink, &gates, 10, 1000), Ok(vec![4, 6, 10]));
    assert_eq!(g.clone().predict(sink, &gates, 9, 1000), Err(RunError::NoPeriod));
    assert_eq!(g.clone().predict(sink, &gates, 100, 5), Err(RunError::Unsettled));
}

#[test]
fn without_gates_the_prediction_is_one() {
    let mut g = create_modules(&first_example()).unwrap();
    assert_eq!(g.first_highs(4, &vec![], 10, 1000), Ok(vec![]));
    assert_eq!(g.predict(4, &vec![], 10, 1000), Ok(1));
    assert!(!g.modules()[1].is_on());
}

#[test]
fn a_network_without_output_has_no_sink() {
    let mut g = create_modules(&first_example()).unwrap();
    assert_eq!(solve_pt2(&mut g), Err(RunError::NoSink));
    let mut g = create_modules(&lines(&["broadcaster -> a, b", "%a -> rx", "%b -> rx"])).unwrap();
    assert_eq!(solve_pt2(&mut g), Err(RunError::NoSink));
    let mut g = create_modules(&lines(&["broadcaster -> a", "%a -> rx"])).unwrap();
    assert_eq!(solve_pt2(&mut g), Err(RunError::NoSink));
}

#[test]
fn both_parts_run_on_copies_of_their_own() {
    assert_eq!(solve(&first_example()), Ok((Ok(32000000), Err(RunError::NoSink))));
    assert_eq!(solve(&second_example()), Ok((Ok(11687500), Err(RunError::NoSink))));
    let (product, at) = solve(&counters()).unwrap();
    assert_eq!(at, Ok(60));
    let mut g = create_modules(&counters()).unwrap();
    assert_eq!(product, solve_pt1(&mut g));
}

#[test]
fn a_network_can_be_put_together_by_index() {
    let flip = Module::new(ModuleType::FlipFlop, vec![2]);
    let broadcaster = Module::new(ModuleType::Broadcaster, vec![1]);
    let names = lines(&["broadcaster", "a", "out"]);
    let mut g = Graph::new(names, vec![broadcaster, flip], 0);
    assert_eq!(g.count_pulses(2, 100), Ok((5, 1)));
    // a conjunction is told of the modules that send to it
    let mut con = Module::new(ModuleType::Conjunction, vec![2]);
    con.handle_source(0);
    let broadcaster = Module::new(ModuleType::Broadcaster, vec![1]);
    let names = lines(&["broadcaster", "a", "out"]);
    let mut g = Graph::new(names, vec![broadcaster, con], 0);
    assert_eq!(g.count_pulses(2, 100), Ok((4, 2)));
    assert_eq!(g.modules()[1].remembered(0), Some(BeamType::Low));
}

#[test]
fn a_conjunction_at_the_root_never_hears_of_the_trigger() {
    let mut g = create_modules(&lines(&["&broadcaster -> a"])).unwrap();
    let names: Vec<&str> = g.names().iter().map(|s| s.as_str()).collect();
    assert_eq!(names, vec!["broadcaster", "a"]);
    assert_eq!(g.root(), 0);
    assert_eq!(g.feeders(0), Vec::<usize>::new());
    for from in 0..4 {
        assert_eq!(g.modules()[0].remembered(from), None);
    }
    // the trigger is no module and so no input: with no input to be Low
    // the conjunction answers Low
    let log = g.run_cycle(100).unwrap();
    assert_eq!(
        log,
        vec![
            Pulse { from: 2, to: 0, beam: BeamType::Low },
            Pulse { from: 0, to: 1, beam: BeamType::Low },
        ]
    );
    for from in 0..4 {
        assert_eq!(g.modules()[0].remembered(from), None);
    }
    assert_eq!(g.count_pulses(10, 100), Ok((20, 0)));
}

#[test]
fn the_inputs_of_a_conjunction_at_the_root_stay_as_they_are_built() {
    let built =
        create_modules(&lines(&["&broadcaster -> x", "%x -> broadcaster, y", "&y -> out"])).unwrap();
    let mut g = built.clone();
    assert!(solve_pt1(&mut g).is_ok());
    for (after, before) in g.modules().iter().zip(built.modules()) {
        for from in 0..=g.names().len() {
            assert_eq!(after.remembered(from).is_some(), before.remembered(from).is_some());
        }
    }
    assert_eq!(g.modules()[0].remembered(1).is_some(), true);
    assert_eq!(g.modules()[0].remembered(4), None);
}

#[test]
fn a_conjunction_remembers_its_declared_senders_only() {
    let g = create_modules(&lines(&["&broadcaster -> x", "%x -> broadcaster, y", "&y -> broadcaster"]))
        .unwrap();
    assert_eq!(g.feeders(0), vec![1, 2]);
    let root = &g.modules()[0];
    assert_eq!(root.remembered(1), Some(BeamType::Low));
    assert_eq!(root.remembered(2), Some(BeamType::Low));
    assert_eq!(root.remembered(0), None);
    assert_eq!(root.remembered(3), None);
    let y = &g.modules()[2];
    assert_eq!(y.remembered(1), Some(BeamType::Low));
    assert_eq!(y.remembered(0), None);
    assert_eq!(y.remembered(3), None);
}

fn state(g: &Graph) -> Vec<(bool, Vec<Option<BeamType>>)> {
    let n = g.names().len();
    g.modules()
        .iter()
        .map(|m| (m.is_on(), (0..=n).map(|from| m.remembered(from)).collect()))
        .collect()
}

#[test]
fn the_first_part_leaves_the_network_after_a_thousand_cycles() {
    let built = create_modules(&second_example()).unwrap();
    let mut one = built.clone();
    let mut other = built.clone();
    let mut counted = built.clone();
    assert_eq!(solve_pt1(&mut one), solve_pt1(&mut other));
    assert_eq!(state(&one), state(&other));
    counted.count_pulses(1000, 1000000).unwrap();
    assert_eq!(state(&one), state(&counted));
    assert_eq!(one.names(), built.names());
    assert_eq!(one.root(), built.root());
    for (after, before) in one.modules().iter().zip(built.modules()) {
        assert_eq!(after.module_type(), before.module_type());
        assert_eq!(after.targets(), before.targets());
    }
}

#[test]
fn the_second_part_leaves_the_network_after_its_last_cycle() {
    let built = create_modules(&counters()).unwrap();
    let mut one = built.clone();
    let mut run = built.clone();
    let at = solve_pt2(&mut one).unwrap();
    assert_eq!(at, 60);
    // the last gate first sends High in cycle ten
    run.count_pulses(10, 1000000).unwrap();
    assert_eq!(state(&one), state(&run));
    assert_eq!(one.names(), built.names());
    for (after, before) in one.modules().iter().zip(built.modules()) {
        assert_eq!(after.module_type(), before.module_type());
        assert_eq!(after.targets(), before.targets());
    }
    let mut none = create_modules(&first_example()).unwrap();
    let before = state(&none);
    assert_eq!(solve_pt2(&mut none), Err(RunError::NoSink));
    assert_eq!(state(&none), before);
}
