use regex_synth::extend::expand;
use regex_synth::matcher::{
    all_match, judge, match_all, match_none, none_match, pattern_compiles, try_match_all,
    try_match_none, Acceptance,
};
use regex_synth::prune::{
    complete, is_dead, is_redundant, narrow, split, try_is_dead, try_is_redundant, unroll, widen,
};
use regex_synth::search::overlap;
use regex_synth::state::State;

fn strings(items: &[&str]) -> Vec<String> {
    items.iter().map(|x| x.to_string()).collect()
}

#[test]
fn matching_goes_by_the_pattern() {
    let set = strings(&["01", "0001", "011"]);
    assert!(match_all("^0(0|1)*$", &set));
    assert!(!match_all("^0(0)*1$", &set));
    assert!(match_none("^1(0|1)*$", &set));
    assert!(!match_none("^011$", &set));
    assert!(match_all("^1$", &vec![]));
    assert!(match_none("^1$", &vec![]));
    assert!(match_all("1", &strings(&["010"])));
    assert!(!match_all("^1$", &strings(&["010"])));
    assert!(!match_all("^01$", &strings(&["^01$"])));
}

#[test]
fn compiled_expression_against_a_set() {
    let re = regex::Regex::new("^0(1)*$").unwrap();
    assert!(all_match(&re, &strings(&["0", "01", "011"])));
    assert!(!all_match(&re, &strings(&["0", "10"])));
    assert!(all_match(&re, &vec![]));
    assert!(none_match(&re, &strings(&["1", "00", ""])));
    assert!(!none_match(&re, &strings(&["1", "0"])));
    assert!(none_match(&re, &vec![]));
}

#[test]
fn patterns_that_do_not_compile() {
    assert!(pattern_compiles("^(0|1)*$"));
    assert!(!pattern_compiles("^(0|1*$"));
    assert!(!pattern_compiles("*"));
    assert_eq!(try_match_all("^(0$", &strings(&["0"])), None);
    assert_eq!(try_match_none("^(0$", &vec![]), None);
    assert_eq!(try_match_all("^0$", &strings(&["0"])), Some(true));
    assert_eq!(try_match_all("^0$", &strings(&["0", "1"])), Some(false));
    assert_eq!(try_match_none("^0$", &strings(&["1", "00"])), Some(true));
    assert_eq!(try_match_none("^0$", &strings(&["1", "0"])), Some(false));
}

#[test]
fn verdict_on_a_complete_pattern() {
    let ps = strings(&["01", "001"]);
    let ns = strings(&["10", "1"]);
    assert_eq!(judge("^0(0)*1$", &ps, &ns), Acceptance::Accepted);
    assert_eq!(judge("^(0|1)*$", &ps, &ns), Acceptance::Rejected);
    assert_eq!(judge("^01$", &ps, &ns), Acceptance::Rejected);
    assert_eq!(judge("^0)$", &ps, &ns), Acceptance::Invalid);
}

#[test]
fn open_positions_are_filled() {
    assert_eq!(narrow(r"^(0\x00)*\x00$"), "^(0.{0})*.{0}$");
    assert_eq!(widen(r"^(0\x00)*\x00$"), "^(0.*)*.*$");
    assert_eq!(narrow("^01$"), "^01$");
    assert_eq!(widen(""), "");
}

#[test]
fn dead_states() {
    let ps = strings(&["01", "01101", "0001"]);
    let ns = strings(&["10", "1", "11010"]);
    assert!(is_dead(&r"^1\x00$".to_string(), &ps, &ns));
    assert!(!is_dead(&r"^0\x00$".to_string(), &ps, &ns));
    assert!(!is_dead(&r"^\x00$".to_string(), &ps, &ns));
    assert!(is_dead(&r"^\x00$".to_string(), &ps, &strings(&[""])));
    assert!(!is_dead(&r"^\x00$".to_string(), &ps, &vec![]));
    assert_eq!(try_is_dead(&r"^1\x00$".to_string(), &ps, &ns), Some(true));
    assert_eq!(try_is_dead(&r"^(1\x00$".to_string(), &ps, &ns), None);
}

#[test]
fn dead_state_test_goes_by_the_empty_completion() {
    let ps = strings(&["101", "001101101", "0110001"]);
    let ns = strings(&["100101011", "110000", "00111010"]);
    let open = r"^((1)*0)*\x00$".to_string();
    assert_eq!(narrow(&open), "^((1)*0)*.{0}$");
    assert!(is_dead(&open, &ps, &ns));
    assert!(!is_dead(&r"^((1)*0)*1\x00$".to_string(), &ps, &ns));
}

#[test]
fn no_descendant_of_a_dead_state_is_accepted() {
    let ps = strings(&["01", "01101", "0001"]);
    let ns = strings(&["10", "1", "11010"]);
    let dead = State::new(2, r"^1\x00$".to_string(), vec![]);
    assert!(is_dead(&dead.regexp, &ps, &ns));
    let mut level = vec![dead];
    let mut leaves = 0;
    for _ in 0..4 {
        let mut next = Vec::new();
        for state in &level {
            for child in expand(state, true) {
                if child.is_leaf() {
                    leaves += 1;
                    assert_eq!(judge(&child.regexp, &ps, &ns), Acceptance::Rejected);
                } else {
                    next.push(child);
                }
            }
        }
        level = next;
    }
    assert!(leaves >= 10);
}

#[test]
fn repeated_groups_are_unrolled() {
    assert_eq!(unroll(&"^(0)*$".to_string()), "^(0)(0)(0)*$");
    assert_eq!(unroll(&"^(0)(1)*$".to_string()), "^(0)(1)(1)(1)*$");
    assert_eq!(unroll(&"^(0)1$".to_string()), "^(0)1$");
    assert_eq!(unroll(&"".to_string()), "");
    assert_eq!(
        unroll(&r"^(0\x00)*$".to_string()),
        r"^(0\x00)(0\x00)(0\x00)*$"
    );
    assert_eq!(unroll(&"^(1)(1)*$".to_string()), "^(1)(1)(1)(1)(1)(1)*$");
    assert_eq!(unroll(&"^(0)*(0)*$".to_string()), "^(0)(0)(0)*(0)(0)(0)*$");
}

#[test]
fn nested_repeated_groups_are_unrolled_inner_first() {
    assert_eq!(unroll(&"^((1)*0)*1$".to_string()), "^((1)(1)(1)*0)*1$");
}

#[test]
fn branches_are_split() {
    assert_eq!(split(&"^(0|1)$".to_string()), strings(&["^0$", "^1$"]));
    assert_eq!(
        split(&"^(0|1|)(1|00)$".to_string()),
        strings(&["^0(1|00)$", "^1(1|00)$", "^(1|00)$", "^(0|1|)1$", "^(0|1|)00$"])
    );
    assert_eq!(
        split(&r"^(0|1|\x00)$".to_string()),
        strings(&["^0$", "^1$", r"^\x00$"])
    );
    assert_eq!(split(&"^((0|1))$".to_string()), strings(&["^(0)$", "^(1)$"]));
    assert_eq!(split(&"(|)".to_string()), strings(&["", ""]));
}

#[test]
fn pattern_without_plain_alternation_is_its_own_projection() {
    assert_eq!(split(&"^(0|1)*$".to_string()), strings(&["^(0|1)*$"]));
    assert_eq!(split(&"^01$".to_string()), strings(&["^01$"]));
    assert_eq!(split(&r"^(0\x00)*$".to_string()), strings(&[r"^(0\x00)*$"]));
    assert_eq!(split(&"".to_string()), strings(&[""]));
    assert_eq!(split(&"^((0|1)0)$".to_string()), strings(&["^(00)$", "^(10)$"]));
}

#[test]
fn completions_of_a_pattern() {
    assert_eq!(
        complete(&r"^(0|\x00)*$".to_string()),
        strings(&[
            "^0(0|.*)(0|.*)*$",
            "^.*(0|.*)(0|.*)*$",
            "^(0|.*)0(0|.*)*$",
            "^(0|.*).*(0|.*)*$"
        ])
    );
    assert_eq!(complete(&r"^(0\x00)*$".to_string()), strings(&["^(0.*)*$"]));
    assert_eq!(complete(&r"^1\x00$".to_string()), strings(&["^1.*$"]));
    assert_eq!(complete(&r"^(0|\x00)$".to_string()), strings(&["^0$", "^.*$"]));
}

#[test]
fn redundant_states() {
    let ps = strings(&["01", "01101", "0001"]);
    assert!(is_redundant(&r"^(1|\x00)$".to_string(), &ps));
    assert!(!is_redundant(&r"^(\x00|\x00)$".to_string(), &ps));
    assert!(!is_redundant(&r"^(0\x00|\x00)$".to_string(), &ps));
    assert!(!is_redundant(&r"^(0|\x00)*$".to_string(), &ps));
    assert!(is_redundant(&r"^(0|\x00)*$".to_string(), &strings(&["0", "1"])));
    assert!(!is_redundant(&r"^\x00$".to_string(), &ps));
    assert!(!is_redundant(&r"^(1|\x00)$".to_string(), &vec![]));
    assert!(is_redundant(&r"^1\x00$".to_string(), &strings(&["01"])));
    assert!(!is_redundant(&r"^\x00$".to_string(), &strings(&["01", "1"])));
    assert!(!is_redundant(&r"^1\x00$".to_string(), &vec![]));
    assert!(is_redundant(&r"^1\x00$".to_string(), &ps));
    assert!(!is_redundant(&r"^0\x00$".to_string(), &ps));
    assert!(!is_redundant(&r"^(0\x00)*$".to_string(), &ps));
    assert!(is_redundant(&r"^(1\x00)*$".to_string(), &ps));
    assert_eq!(try_is_redundant(&r"^(1|\x00)$".to_string(), &ps), Some(true));
    assert_eq!(try_is_redundant(&r"^(0\x00)*$".to_string(), &ps), Some(false));
    assert_eq!(try_is_redundant(&r"^(0|1)(0$".to_string(), &ps), None);
}

#[test]
fn overlap_of_the_example_sets() {
    assert!(overlap(&strings(&["0", "1"]), &strings(&["00", "1"])));
    assert!(!overlap(&strings(&["0", "1"]), &strings(&["00", "11"])));
    assert!(!overlap(&vec![], &strings(&["0"])));
    assert!(!overlap(&strings(&["0"]), &vec![]));
}
