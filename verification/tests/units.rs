use regex_synth::prune::is_redundant;
use regex_synth::search::{synth, Options, Outcome};
use regex_synth::spans::{is_inside_or, update_parentheses};
use regex_synth::state::State;

fn plain(max_cost_bound: usize) -> Options {
    Options {
        max_cost_bound,
        enable_dead_state_pruning: false,
        enable_redundancy_pruning: false,
        expand_all_holes_per_step: false,
    }
}

#[test]
fn start_with_0() {
    let ps: Vec<String> = vec!["01".to_string(), "01101".to_string(), "0001".to_string()];
    let ns: Vec<String> = vec!["10".to_string(), "1".to_string(), "11010".to_string()];
    let outcome = synth(&ps, &ns, plain(12));
    assert_eq!(
        outcome,
        Ok(Outcome::Solved(State::new(
            5,
            "^(0(1)*)*$".to_string(),
            Vec::from([(1, 7), (3, 5)])
        )))
    );
}

#[test]
fn update_test() {
    let s = State::new(
        0,
        "^(abc)\x00(def)$".to_string(),
        vec![(1, 5), (10, 14)],
    );
    let mut ext_parentheses = s.parentheses.clone();
    update_parentheses(&mut ext_parentheses, 7, 3, true);
    assert_eq!(ext_parentheses, vec![(1, 5), (7, 11)]);
}

#[test]
fn is_inside_or_works() {
    let s: State = State::new(
        4,
        r"^(((\x00|\x00|\x00))*)*$".to_string(),
        [(1, 21), (2, 19), (3, 18)].to_vec(),
    );
    assert!(is_inside_or(&s, 14) == true);
}

#[test]
fn is_really_redundant() {
    let s: State = State::new(0, r"^(0\x00)*$".to_string(), vec![]);
    assert_eq!(
        is_redundant(
            &s.regexp,
            &vec!["01", "01101", "0001"]
                .iter()
                .map(|&x| x.to_string())
                .collect(),
        ),
        false
    );
}
