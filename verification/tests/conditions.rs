use regex_synth::examples::{listed, offer_example, Condition};
use regex_synth::state::{decimal, State};

fn strings(items: &[&str]) -> Vec<String> {
    items.iter().map(|x| x.to_string()).collect()
}

#[test]
fn conditions_by_name() {
    assert_eq!(Condition::named("start_with_0"), Some(Condition::StartWith0));
    assert_eq!(Condition::named("end_with_01"), Some(Condition::EndWith01));
    assert_eq!(
        Condition::named("containing_0101"),
        Some(Condition::Containing0101)
    );
    assert_eq!(Condition::named("begin_1_end_0"), Some(Condition::Begin1End0));
    assert_eq!(Condition::named("start_with_1"), None);
    assert_eq!(Condition::named("start_with_0 "), None);
    assert_eq!(Condition::named(""), None);
}

#[test]
fn conditions_on_strings() {
    assert!(Condition::StartWith0.check("01"));
    assert!(Condition::StartWith0.check("0"));
    assert!(!Condition::StartWith0.check("10"));
    assert!(!Condition::StartWith0.check(""));
    assert!(Condition::EndWith01.check("1101"));
    assert!(Condition::EndWith01.check("01"));
    assert!(!Condition::EndWith01.check("1"));
    assert!(!Condition::EndWith01.check("010"));
    assert!(Condition::Containing0101.check("1101011"));
    assert!(Condition::Containing0101.check("0101"));
    assert!(!Condition::Containing0101.check("010"));
    assert!(!Condition::Containing0101.check("0100100"));
    assert!(Condition::Begin1End0.check("10"));
    assert!(Condition::Begin1End0.check("1110"));
    assert!(!Condition::Begin1End0.check("1"));
    assert!(!Condition::Begin1End0.check("0"));
    assert!(!Condition::Begin1End0.check("01"));
    assert!(!Condition::Begin1End0.check(""));
}

#[test]
fn negative_examples_are_taken_once() {
    let mut examples: Vec<String> = Vec::new();
    assert!(offer_example(Condition::StartWith0, &mut examples, "10".to_string()));
    assert!(!offer_example(Condition::StartWith0, &mut examples, "10".to_string()));
    assert!(!offer_example(Condition::StartWith0, &mut examples, "01".to_string()));
    assert!(offer_example(Condition::StartWith0, &mut examples, "1".to_string()));
    assert_eq!(examples, strings(&["10", "1"]));
    assert!(listed(&examples, &"1".to_string()));
    assert!(!listed(&examples, &"0".to_string()));
    let mut others: Vec<String> = Vec::new();
    assert!(offer_example(Condition::Begin1End0, &mut others, "11".to_string()));
    assert!(offer_example(Condition::Begin1End0, &mut others, "00".to_string()));
    assert!(!offer_example(Condition::Begin1End0, &mut others, "10".to_string()));
    assert_eq!(others, strings(&["11", "00"]));
}

#[test]
fn states_in_words() {
    assert_eq!(
        State::new(5, "^(0(1)*)*$".to_string(), vec![(1, 7), (3, 5)]).describe(),
        "cost: 5, regexp: ^(0(1)*)*$"
    );
    assert_eq!(
        State::new(120, "".to_string(), vec![]).describe(),
        "cost: 120, regexp: "
    );
    assert_eq!(decimal(0), "0");
    assert_eq!(decimal(9), "9");
    assert_eq!(decimal(10), "10");
    assert_eq!(decimal(4096), "4096");
    assert_eq!(decimal(usize::MAX), usize::MAX.to_string());
}
