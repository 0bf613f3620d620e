use regex_synth::matcher::{judge, match_all, match_none, Acceptance};
use regex_synth::search::{
    consult, settle, settle_ruling, synth, weigh, Event, Options, Outcome, Ruling, Search,
    SynthError,
};
use regex_synth::state::State;

fn strings(items: &[&str]) -> Vec<String> {
    items.iter().map(|x| x.to_string()).collect()
}

fn options(max_cost_bound: usize, dead: bool, redundant: bool, all: bool) -> Options {
    Options {
        max_cost_bound,
        enable_dead_state_pruning: dead,
        enable_redundancy_pruning: redundant,
        expand_all_holes_per_step: all,
    }
}

#[test]
fn strings_that_start_with_zero() {
    let ps = strings(&["01", "01101", "0001"]);
    let ns = strings(&["10", "1", "11010"]);
    match synth(&ps, &ns, options(12, false, false, false)) {
        Ok(Outcome::Solved(s)) => {
            assert_eq!(s.regexp, "^(0(1)*)*$");
            assert_eq!(s.cost, 5);
            assert!(s.is_leaf());
            assert!(match_all(&s.regexp, &ps));
            assert!(match_none(&s.regexp, &ns));
        }
        other => panic!("no pattern found: {:?}", other),
    }
}

#[test]
fn strings_that_start_with_zero_all_holes() {
    let ps = strings(&["01", "01101", "0001"]);
    let ns = strings(&["10", "1", "11010"]);
    match synth(&ps, &ns, options(12, false, false, true)) {
        Ok(Outcome::Solved(s)) => {
            assert_eq!(s.regexp, "^(0(1)*)*$");
            assert_eq!(s.cost, 5);
        }
        other => panic!("no pattern found: {:?}", other),
    }
}

#[test]
fn strings_that_end_with_zero_one() {
    let ps = strings(&["101", "001101101", "0110001"]);
    let ns = strings(&["100101011", "110000", "00111010"]);
    match synth(&ps, &ns, options(12, false, false, false)) {
        Ok(Outcome::Solved(s)) => {
            assert_eq!(s.regexp, "^((1)*0)*1$");
            assert_eq!(s.cost, 7);
            assert!(match_all(&s.regexp, &ps));
            assert!(match_none(&s.regexp, &ns));
        }
        other => panic!("no pattern found: {:?}", other),
    }
}

#[test]
fn bound_of_one_is_exhausted() {
    let ps = strings(&["0101010101"]);
    let ns = strings(&["1"]);
    assert_eq!(synth(&ps, &ns, options(1, false, false, false)), Ok(Outcome::Exhausted));
    assert_eq!(synth(&ps, &ns, options(1, true, true, true)), Ok(Outcome::Exhausted));
}

#[test]
fn bound_too_small_for_the_answer_is_exhausted() {
    let ps = strings(&["01", "01101", "0001"]);
    let ns = strings(&["10", "1", "11010"]);
    assert_eq!(synth(&ps, &ns, options(5, false, false, false)), Ok(Outcome::Exhausted));
    assert!(matches!(
        synth(&ps, &ns, options(6, false, false, false)),
        Ok(Outcome::Solved(_))
    ));
}

#[test]
fn zero_bound_is_refused() {
    let ps = strings(&["0"]);
    let ns = strings(&["1"]);
    assert_eq!(
        synth(&ps, &ns, options(0, false, false, false)),
        Err(SynthError::NonPositiveBound)
    );
    assert_eq!(
        synth(&ps, &ps, options(0, false, false, false)),
        Err(SynthError::NonPositiveBound)
    );
}

#[test]
fn overlapping_examples_are_refused() {
    let ps = strings(&["0", "01"]);
    let ns = strings(&["1", "01"]);
    assert_eq!(
        synth(&ps, &ns, options(4, false, false, false)),
        Err(SynthError::OverlappingExamples)
    );
    assert!(matches!(
        Search::start(&ps, &ns, options(4, false, false, false)),
        Err(SynthError::OverlappingExamples)
    ));
}

#[test]
fn two_runs_return_the_same() {
    let ps = strings(&["01", "01101", "0001"]);
    let ns = strings(&["10", "1", "11010"]);
    let first = synth(&ps, &ns, options(8, false, false, true));
    let second = synth(&ps, &ns, options(8, false, false, true));
    assert_eq!(first, second);
    assert!(matches!(first, Ok(Outcome::Solved(_))));
}

#[test]
fn returned_pattern_is_sound() {
    let ps = strings(&["1", "11", "111"]);
    let ns = strings(&["", "0", "10"]);
    match synth(&ps, &ns, options(8, false, false, true)) {
        Ok(Outcome::Solved(s)) => {
            assert_eq!(judge(&s.regexp, &ps, &ns), Acceptance::Accepted);
            assert_eq!(s.regexp, "^1(1)*$");
            assert_eq!(s.cost, 4);
            assert_eq!(s.parentheses, vec![(2, 4)]);
        }
        other => panic!("no pattern found: {:?}", other),
    }
}

#[test]
fn single_literal_is_found_at_cost_one() {
    let ps = strings(&["0"]);
    let ns = strings(&["1", ""]);
    assert_eq!(
        synth(&ps, &ns, options(3, false, false, false)),
        Ok(Outcome::Solved(State::new(1, "^0$".to_string(), vec![])))
    );
}

#[test]
fn steps_take_states_in_cost_order_and_queue_no_text_twice() {
    let ps = strings(&["101", "0110001"]);
    let ns = strings(&["110000"]);
    let mut search = Search::start(&ps, &ns, options(5, false, false, true)).unwrap();
    let mut last_cost = 0;
    let mut taken: Vec<String> = Vec::new();
    loop {
        let event = search.step(&ps, &ns).unwrap();
        let state = match event {
            Event::Exhausted => break,
            Event::Solved(s) => s,
            Event::Rejected(s) => s,
            Event::Dead(s) => s,
            Event::Redundant(s) => s,
            Event::Expanded(s) => s,
        };
        assert!(state.cost >= last_cost);
        assert!(state.cost < 5);
        last_cost = state.cost;
        assert!(!taken.contains(&state.regexp));
        taken.push(state.regexp);
    }
    assert_eq!(last_cost, 4);
    assert_eq!(taken.len(), search.seen_count());
    assert_eq!(taken[0], r"^\x00$");
}

#[test]
fn first_step_extends_the_seed() {
    let ps = strings(&["0"]);
    let ns = strings(&["1"]);
    let mut search = Search::start(&ps, &ns, options(2, true, true, true)).unwrap();
    assert_eq!(search.seen_count(), 1);
    assert_eq!(
        search.step(&ps, &ns),
        Ok(Event::Expanded(State::new(0, r"^\x00$".to_string(), vec![])))
    );
    assert_eq!(search.seen_count(), 6);
    assert_eq!(
        search.step(&ps, &ns),
        Ok(Event::Solved(State::new(1, "^0$".to_string(), vec![])))
    );
    assert_eq!(search.options().max_cost_bound, 2);
}

#[test]
fn pruning_discards_states() {
    let ps = strings(&["0"]);
    let ns = strings(&[""]);
    let mut search = Search::start(&ps, &ns, options(3, true, false, false)).unwrap();
    assert_eq!(
        search.step(&ps, &ns),
        Ok(Event::Dead(State::new(0, r"^\x00$".to_string(), vec![])))
    );
    assert_eq!(search.step(&ps, &ns), Ok(Event::Exhausted));
    assert_eq!(search.step(&ps, &ns), Ok(Event::Exhausted));
    assert_eq!(synth(&ps, &ns, options(3, true, false, false)), Ok(Outcome::Exhausted));
    assert_eq!(
        synth(&ps, &ns, options(3, false, false, false)),
        Ok(Outcome::Solved(State::new(1, "^0$".to_string(), vec![])))
    );
}

#[test]
fn pruning_keeps_the_answer_for_strings_that_start_with_zero() {
    let ps = strings(&["01", "01101", "0001"]);
    let ns = strings(&["10", "1", "11010"]);
    let expected = Ok(Outcome::Solved(State::new(
        5,
        "^(0(1)*)*$".to_string(),
        vec![(1, 7), (3, 5)],
    )));
    assert_eq!(synth(&ps, &ns, options(12, true, false, false)), expected);
    assert_eq!(synth(&ps, &ns, options(12, false, true, false)), expected);
    assert_eq!(synth(&ps, &ns, options(12, true, true, false)), expected);
}

#[test]
fn pruned_search_takes_fewer_states() {
    let ps = strings(&["01", "01101", "0001"]);
    let ns = strings(&["10", "1", "11010"]);
    let mut counts = Vec::new();
    for prune in [false, true] {
        let mut search = Search::start(&ps, &ns, options(12, prune, prune, false)).unwrap();
        let mut taken = 0;
        loop {
            match search.step(&ps, &ns).unwrap() {
                Event::Solved(_) | Event::Exhausted => break,
                _ => taken += 1,
            }
        }
        counts.push(taken);
    }
    assert!(counts[1] < counts[0]);
}

#[test]
fn answers_of_the_oracle_are_weighed() {
    assert_eq!(weigh(None, None), Ruling::Invalid);
    assert_eq!(weigh(None, Some(true)), Ruling::Invalid);
    assert_eq!(weigh(Some(true), None), Ruling::Dead);
    assert_eq!(weigh(Some(true), Some(true)), Ruling::Dead);
    assert_eq!(weigh(Some(false), None), Ruling::Invalid);
    assert_eq!(weigh(Some(false), Some(true)), Ruling::Redundant);
    assert_eq!(weigh(Some(false), Some(false)), Ruling::Open);
}

#[test]
fn oracle_makes_the_tests_that_are_switched_on() {
    let ps = strings(&["01", "01101", "0001"]);
    let ns = strings(&["10", "1", "11010"]);
    let dead = r"^1\x00$".to_string();
    assert_eq!(consult(&dead, &ps, &ns, options(3, false, false, false)), Ruling::Open);
    assert_eq!(consult(&dead, &ps, &ns, options(3, true, false, false)), Ruling::Dead);
    assert_eq!(consult(&dead, &ps, &ns, options(3, false, true, false)), Ruling::Redundant);
    assert_eq!(consult(&dead, &ps, &ns, options(3, true, true, false)), Ruling::Dead);
    let fine = r"^0\x00$".to_string();
    assert_eq!(consult(&fine, &ps, &ns, options(3, true, true, false)), Ruling::Open);
    let broken = r"^(0\x00$".to_string();
    assert_eq!(consult(&broken, &ps, &ns, options(3, false, false, false)), Ruling::Open);
    assert_eq!(consult(&broken, &ps, &ns, options(3, true, false, false)), Ruling::Invalid);
    assert_eq!(consult(&broken, &ps, &ns, options(3, false, true, false)), Ruling::Invalid);
}

#[test]
fn verdicts_and_rulings_are_settled() {
    let state = || State::new(2, "^01$".to_string(), vec![]);
    assert_eq!(settle(state(), Acceptance::Accepted), Ok(Event::Solved(state())));
    assert_eq!(settle(state(), Acceptance::Rejected), Ok(Event::Rejected(state())));
    assert_eq!(settle(state(), Acceptance::Invalid), Err(SynthError::PatternRejected));
    assert_eq!(settle_ruling(state(), Ruling::Dead), Ok(Event::Dead(state())));
    assert_eq!(settle_ruling(state(), Ruling::Redundant), Ok(Event::Redundant(state())));
    assert_eq!(settle_ruling(state(), Ruling::Open), Ok(Event::Expanded(state())));
    assert_eq!(settle_ruling(state(), Ruling::Invalid), Err(SynthError::PatternRejected));
}

#[test]
fn nothing_left_in_the_worklist_is_cheaper_than_the_state_taken() {
    let ps = strings(&["01", "0001"]);
    let ns = strings(&["1"]);
    let mut search = Search::start(&ps, &ns, options(4, false, true, true)).unwrap();
    let mut costs = Vec::new();
    loop {
        match search.step(&ps, &ns).unwrap() {
            Event::Exhausted => break,
            Event::Solved(s) => {
                costs.push(s.cost);
                break;
            }
            Event::Rejected(s) | Event::Dead(s) | Event::Redundant(s) | Event::Expanded(s) => {
                costs.push(s.cost)
            }
        }
    }
    let mut sorted = costs.clone();
    sorted.sort();
    assert_eq!(costs, sorted);
    assert!(costs.len() > 3);
}

#[test]
fn returned_pattern_has_its_anchors_and_costs_what_was_applied() {
    let ps = strings(&["01", "01101", "0001"]);
    let ns = strings(&["10", "1", "11010"]);
    match synth(&ps, &ns, options(12, false, false, true)) {
        Ok(Outcome::Solved(s)) => {
            assert!(s.regexp.starts_with('^'));
            assert!(s.regexp.ends_with('$'));
            assert!(!s.regexp.contains(r"\x00"));
            let literals = s.regexp.matches(|c| c == '0' || c == '1').count();
            let stars = s.regexp.matches('*').count();
            assert_eq!(literals, 2);
            assert_eq!(stars, 2);
            assert_eq!(s.cost, literals + stars + 1);
        }
        other => panic!("no pattern found: {:?}", other),
    }
}
