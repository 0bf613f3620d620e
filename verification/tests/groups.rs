use regex_synth::extend::{apply_rule, expand, extend, find_holes};
use regex_synth::queue::Queue;
use regex_synth::rules::{rule, splice_text, Rule};
use regex_synth::spans::{branch_at, find_parentheses, is_inside_or, update_parentheses};
use regex_synth::state::{copy_spans, State};
use regex_synth::text::{find_hole, is_hole_at, occurs, replace, slice, splice, to_chars};
use regex_synth::visited::Visited;

fn chars(s: &str) -> Vec<char> {
    s.chars().collect()
}

#[test]
fn groups_are_found_in_closing_order() {
    assert_eq!(
        find_parentheses(&"^((1)*0)*1$".to_string(), false),
        vec![(2, 4), (1, 7)]
    );
    assert_eq!(find_parentheses(&"".to_string(), false), vec![]);
    assert_eq!(find_parentheses(&"01".to_string(), true), vec![]);
    assert_eq!(find_parentheses(&"()".to_string(), false), vec![(0, 1)]);
    assert_eq!(
        find_parentheses(&"(a)(b)".to_string(), false),
        vec![(0, 2), (3, 5)]
    );
}

#[test]
fn unmatched_parentheses_are_skipped() {
    assert_eq!(
        find_parentheses(&"(a))(b)".to_string(), false),
        vec![(0, 2), (4, 6)]
    );
    assert_eq!(find_parentheses(&"((a)".to_string(), false), vec![(1, 3)]);
    assert_eq!(find_parentheses(&")(".to_string(), false), vec![]);
}

#[test]
fn offsets_count_characters() {
    assert_eq!(
        find_parentheses(&"\u{e9}(\u{e9})".to_string(), false),
        vec![(1, 3)]
    );
}

#[test]
fn only_plain_alternations() {
    let p = r"^(0|1)((0|1))*(\x00|1)*(01)$".to_string();
    assert_eq!(
        find_parentheses(&p, false),
        vec![(1, 5), (7, 11), (6, 12), (14, 21), (23, 26)]
    );
    assert_eq!(find_parentheses(&p, true), vec![(1, 5), (7, 11)]);
}

#[test]
fn alternation_at_the_end_of_the_text() {
    assert_eq!(find_parentheses(&"(0|1)".to_string(), true), vec![(0, 4)]);
    assert_eq!(find_parentheses(&"(0|1)*".to_string(), true), vec![]);
}

#[test]
fn offsets_behind_the_edit_move() {
    let mut spans = vec![(1, 5), (10, 14)];
    update_parentheses(&mut spans, 7, 3, false);
    assert_eq!(spans, vec![(1, 5), (13, 17)]);
    let mut spans = vec![(1, 20), (7, 9)];
    update_parentheses(&mut spans, 7, 4, false);
    assert_eq!(spans, vec![(1, 24), (7, 13)]);
    let mut spans: Vec<(usize, usize)> = vec![];
    update_parentheses(&mut spans, 0, 7, false);
    assert_eq!(spans, vec![]);
    assert_eq!(copy_spans(&vec![(3, 4), (1, 9)]), vec![(3, 4), (1, 9)]);
}

#[test]
fn inside_alternation_by_neighbours() {
    let s = State::new(0, r"^(\x00|\x00)$".to_string(), vec![(1, 10)]);
    assert!(is_inside_or(&s, 2));
    assert!(is_inside_or(&s, 7));
    assert!(!is_inside_or(&s, 1));
    assert!(!is_inside_or(&s, 0));
    assert!(!is_inside_or(&s, 100));
    let s = State::new(0, r"^(\x00)*$".to_string(), vec![(1, 6)]);
    assert!(!is_inside_or(&s, 2));
    let s = State::new(0, r"^(0\x00|1)$".to_string(), vec![(1, 9)]);
    assert!(!is_inside_or(&s, 3));
    let s = State::new(0, r"\x00".to_string(), vec![]);
    assert!(!is_inside_or(&s, 0));
    assert!(branch_at(&chars(r"(0|\x00|1)"), 3));
}

#[test]
fn holes_are_found() {
    assert_eq!(find_holes(&chars(r"^\x00\x00(\x00)$")), vec![1, 5, 10]);
    assert_eq!(find_holes(&chars(r"^01$")), Vec::<usize>::new());
    assert_eq!(find_holes(&chars(r"\x0\x00")), vec![3]);
    assert_eq!(find_hole(&chars(r"^\x00\x00$"), 2), Some(5));
    assert_eq!(find_hole(&chars(r"^\x00\x00$"), 6), None);
    assert!(is_hole_at(&chars(r"^\x00$"), 1));
    assert!(!is_hole_at(&chars(r"^\x00$"), 2));
    assert!(!is_hole_at(&chars(r"^\x0"), 1));
    assert!(!State::new(0, r"^\x00$".to_string(), vec![]).is_leaf());
    assert!(State::new(0, r"^\x01$".to_string(), vec![]).is_leaf());
    assert!(State::new(0, "".to_string(), vec![]).is_leaf());
}

#[test]
fn text_edits() {
    assert_eq!(to_chars("a(b"), vec!['a', '(', 'b']);
    assert_eq!(splice(r"^\x00$", 1, "(ab)"), "^(ab)$");
    assert_eq!(splice(r"\x00", 0, ""), "");
    assert_eq!(slice("abcdef", 2, 4), "cd");
    assert_eq!(replace("aXbXXc", "X", "yz"), "ayzbyzyzc");
    assert_eq!(replace("aaa", "aa", "b"), "ba");
    assert_eq!(replace("abc", "", "x"), "abc");
    assert_eq!(replace("ab", "abc", "x"), "ab");
    assert_eq!(replace("abab", "ab", "abab"), "abababab");
    assert!(occurs(&chars("hello"), &chars("llo"), 2));
    assert!(!occurs(&chars("hello"), &chars("llo"), 3));
    assert!(occurs(&chars("hello"), &chars(""), 5));
}

#[test]
fn rule_table_in_order() {
    assert_eq!(rule(0), Rule::Zero);
    assert_eq!(rule(1), Rule::One);
    assert_eq!(rule(2), Rule::Sequence);
    assert_eq!(rule(3), Rule::Star);
    assert_eq!(rule(4), Rule::Branch);
    let table: Vec<(&str, usize, usize, bool)> = (0..5)
        .map(|k| {
            let r = rule(k);
            (r.replacement(), r.cost(), r.shift(), r.backward())
        })
        .collect();
    assert_eq!(
        table,
        vec![
            ("0", 1, 3, true),
            ("1", 1, 3, true),
            (r"\x00\x00", 1, 4, false),
            (r"(\x00)*", 1, 3, false),
            (r"(\x00|\x00)", 1, 7, false),
        ]
    );
    assert_eq!(splice_text(), r"\x00|\x00");
}

#[test]
fn shift_is_the_change_in_length() {
    for k in 0..5 {
        let r = rule(k);
        let len = r.replacement().chars().count();
        if r.backward() {
            assert_eq!(len + r.shift(), 4);
        } else {
            assert_eq!(len, 4 + r.shift());
        }
    }
}

#[test]
fn children_of_the_seed() {
    let seed = State::new(0, r"^\x00$".to_string(), vec![]);
    let children = expand(&seed, true);
    assert_eq!(
        children,
        vec![
            State::new(1, "^0$".to_string(), vec![]),
            State::new(1, "^1$".to_string(), vec![]),
            State::new(1, r"^\x00\x00$".to_string(), vec![]),
            State::new(1, r"^(\x00)*$".to_string(), vec![(1, 6)]),
            State::new(1, r"^(\x00|\x00)$".to_string(), vec![(1, 11)]),
        ]
    );
    assert!(children[0].is_leaf());
    assert!(!children[2].is_leaf());
    assert_eq!(expand(&seed, false), children);
}

#[test]
fn children_cost_more_than_the_parent() {
    let parent = State::new(7, r"^(\x00\x00)*\x00$".to_string(), vec![(1, 10)]);
    let children = expand(&parent, true);
    assert_eq!(children.len(), 15);
    for child in &children {
        assert_eq!(child.cost, 8);
        assert!(child.cost >= parent.cost);
    }
    assert_eq!(expand(&parent, false), children[..5].to_vec());
    assert_eq!(expand(&State::new(0, "^01$".to_string(), vec![]), true), vec![]);
}

#[test]
fn groups_follow_the_edits() {
    let parent = State::new(2, r"^(\x00\x00)*(\x00)*$".to_string(), vec![(1, 10), (12, 17)]);
    let children = expand(&parent, true);
    for child in &children {
        let mut kept = child.parentheses.clone();
        let mut found = find_parentheses(&child.regexp, false);
        kept.sort();
        found.sort();
        assert_eq!(kept, found);
    }
    assert_eq!(
        children[0],
        State::new(3, r"^(0\x00)*(\x00)*$".to_string(), vec![(1, 7), (9, 14)])
    );
    assert_eq!(
        children[3],
        State::new(
            3,
            r"^((\x00)*\x00)*(\x00)*$".to_string(),
            vec![(1, 13), (15, 20), (2, 7)]
        )
    );
    assert_eq!(
        children[14],
        State::new(
            3,
            r"^(\x00\x00)*((\x00|\x00))*$".to_string(),
            vec![(1, 10), (12, 24), (13, 23)]
        )
    );
}

#[test]
fn groups_stay_exact_over_many_edits() {
    let mut level = vec![State::new(0, r"^\x00$".to_string(), vec![])];
    for _ in 0..4 {
        let mut next = Vec::new();
        for state in &level {
            for child in expand(state, true) {
                let mut kept = child.parentheses.clone();
                let mut found = find_parentheses(&child.regexp, false);
                kept.sort();
                found.sort();
                assert_eq!(kept, found);
                for (start, end) in &child.parentheses {
                    assert!(start < end && *end < child.regexp.len());
                    assert_eq!(&child.regexp[*start..*start + 1], "(");
                    assert_eq!(&child.regexp[*end..*end + 1], ")");
                }
                next.push(child);
            }
        }
        level = next;
    }
    assert_eq!(level.len(), 2625);
}

#[test]
fn branch_is_added_in_place() {
    let parent = State::new(1, r"^(\x00|\x00)$".to_string(), vec![(1, 11)]);
    assert_eq!(
        apply_rule(&parent, 2, Rule::Branch),
        State::new(2, r"^(\x00|\x00|\x00)$".to_string(), vec![(1, 16)])
    );
    assert_eq!(
        apply_rule(&parent, 7, Rule::Branch),
        State::new(2, r"^(\x00|\x00|\x00)$".to_string(), vec![(1, 16)])
    );
    assert_eq!(
        apply_rule(&parent, 7, Rule::Star),
        State::new(2, r"^(\x00|(\x00)*)$".to_string(), vec![(1, 14), (7, 12)])
    );
    let nested = State::new(1, r"^(0\x00|1)$".to_string(), vec![(1, 9)]);
    assert_eq!(
        apply_rule(&nested, 3, Rule::Branch),
        State::new(2, r"^(0(\x00|\x00)|1)$".to_string(), vec![(1, 16), (3, 13)])
    );
}

#[test]
fn extend_queues_what_is_new() {
    let mut pq = Queue::new(3);
    let mut table = Visited::new();
    let seed = State::new(0, r"^\x00$".to_string(), vec![]);
    extend(&mut pq, &seed, &mut table, true);
    assert_eq!(table.len(), 5);
    assert!(table.contains("^0$"));
    assert!(!table.contains(r"^\x00$"));
    assert_eq!(pq.pop_remove(), Some(State::new(1, "^0$".to_string(), vec![])));
    assert_eq!(pq.pop_remove(), Some(State::new(1, "^1$".to_string(), vec![])));
    let two = pq.pop_remove().unwrap();
    assert_eq!(two.regexp, r"^\x00\x00$");
    extend(&mut pq, &two, &mut table, true);
    assert_eq!(table.len(), 5 + 9);
    extend(&mut pq, &two, &mut table, true);
    assert_eq!(table.len(), 5 + 9);
    let mut left = 0;
    while let Some(s) = pq.pop_remove() {
        assert!(s.cost == 1 || s.cost == 2);
        left += 1;
    }
    assert_eq!(left, 2 + 9);
}

#[test]
fn extend_drops_what_the_queue_has_no_bucket_for() {
    let mut pq = Queue::new(1);
    let mut table = Visited::new();
    let seed = State::new(0, r"^\x00$".to_string(), vec![]);
    extend(&mut pq, &seed, &mut table, true);
    assert_eq!(table.len(), 0);
    assert!(pq.is_empty());
}
