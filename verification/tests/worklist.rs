use regex_synth::queue::Queue;
use regex_synth::state::State;
use regex_synth::visited::Visited;

fn state(cost: usize, text: &str) -> State {
    State::new(cost, text.to_string(), vec![])
}

#[test]
fn new_queue_is_empty() {
    let mut q = Queue::new(4);
    assert!(q.is_empty());
    assert_eq!(q.capacity(), 4);
    assert_eq!(q.current_cost(), 0);
    assert_eq!(q.pop(), None);
    assert_eq!(q.pop_remove(), None);
    let mut none = Queue::new(0);
    assert!(none.is_empty());
    assert_eq!(none.pop(), None);
    assert_eq!(none.pop_remove(), None);
}

#[test]
fn cheapest_first_and_first_in_first_out() {
    let mut q = Queue::new(5);
    q.push(state(3, "c1"));
    q.push(state(1, "a1"));
    q.push(state(3, "c2"));
    q.push(state(1, "a2"));
    q.push(state(4, "d1"));
    assert!(!q.is_empty());
    let mut order = Vec::new();
    let mut costs = Vec::new();
    while let Some(s) = q.pop_remove() {
        costs.push(s.cost);
        order.push(s.regexp);
    }
    assert_eq!(order, vec!["a1", "a2", "c1", "c2", "d1"]);
    assert_eq!(costs, vec![1, 1, 3, 3, 4]);
    assert!(q.is_empty());
}

#[test]
fn pop_keeps_the_states() {
    let mut q = Queue::new(3);
    q.push(state(0, "x"));
    q.push(state(2, "z"));
    q.push(state(0, "y"));
    assert_eq!(q.pop(), Some(state(0, "x")));
    assert_eq!(q.pop(), Some(state(0, "y")));
    assert_eq!(q.current_cost(), 0);
    assert_eq!(q.pop(), Some(state(2, "z")));
    assert_eq!(q.current_cost(), 2);
    assert_eq!(q.pop(), None);
    assert_eq!(q.pop(), None);
    assert!(!q.is_empty());
}

#[test]
fn pushes_between_pops() {
    let mut q = Queue::new(4);
    q.push(state(1, "a"));
    assert_eq!(q.pop_remove(), Some(state(1, "a")));
    assert_eq!(q.pop_remove(), None);
    q.push(state(1, "b"));
    q.push(state(2, "c"));
    assert_eq!(q.pop_remove(), Some(state(1, "b")));
    q.push(state(1, "d"));
    assert_eq!(q.pop_remove(), Some(state(1, "d")));
    assert_eq!(q.pop_remove(), Some(state(2, "c")));
    assert!(q.is_empty());
}

#[test]
fn costs_never_go_down() {
    let mut q = Queue::new(6);
    for (k, c) in [2usize, 0, 5, 3, 0, 2, 4].iter().enumerate() {
        q.push(state(*c, &format!("s{}", k)));
    }
    let mut last = 0;
    let mut seen = 0;
    while let Some(s) = q.pop() {
        assert!(s.cost >= last);
        last = s.cost;
        seen += 1;
        if seen == 3 {
            q.push(state(3, "late"));
            q.push(state(1, "behind"));
        }
    }
    assert_eq!(seen, 8);
    assert_eq!(last, 5);
}

#[test]
fn a_state_pushed_behind_the_place_stays_in_its_bucket() {
    let mut q = Queue::new(3);
    q.push(state(2, "far"));
    assert_eq!(q.pop_remove(), Some(state(2, "far")));
    q.push(state(0, "near"));
    assert_eq!(q.pop_remove(), None);
    assert!(!q.is_empty());
}

#[test]
fn visited_set() {
    let mut v = Visited::new();
    assert_eq!(v.len(), 0);
    assert!(!v.contains("^0$"));
    assert!(v.insert("^0$".to_string()));
    assert!(!v.insert("^0$".to_string()));
    assert!(v.insert("^1$".to_string()));
    assert!(v.contains("^0$"));
    assert!(v.contains("^1$"));
    assert!(!v.contains("^$"));
    assert_eq!(v.len(), 2);
}

#[test]
fn state_keeps_what_it_was_given() {
    let s = State::new(3, r"^(\x00)*$".to_string(), vec![(1, 6)]);
    assert_eq!(s.cost, 3);
    assert_eq!(s.regexp, r"^(\x00)*$");
    assert_eq!(s.parentheses, vec![(1, 6)]);
    assert!(!s.is_leaf());
    let t = s.clone();
    assert_eq!(s, t);
}

#[test]
fn state_handed_out_is_the_cheapest_left() {
    let mut q = Queue::new(6);
    for (k, c) in [4usize, 2, 5, 2, 3].iter().enumerate() {
        q.push(state(*c, &format!("s{}", k)));
    }
    let mut left = vec![4usize, 2, 5, 2, 3];
    while let Some(s) = q.pop_remove() {
        let at = left.iter().position(|c| *c == s.cost).unwrap();
        left.remove(at);
        assert!(left.iter().all(|c| s.cost <= *c));
    }
    assert!(left.is_empty());
}

#[test]
fn pop_remove_after_pop_takes_the_first_of_the_bucket() {
    let mut q = Queue::new(2);
    q.push(state(0, "s1"));
    q.push(state(0, "s2"));
    assert_eq!(q.pop(), Some(state(0, "s1")));
    assert_eq!(q.pop_remove(), Some(state(0, "s1")));
    assert_eq!(q.pop(), Some(state(0, "s2")));
    assert_eq!(q.pop(), None);
    assert_eq!(q.pop_remove(), Some(state(0, "s2")));
    assert_eq!(q.pop_remove(), None);
    assert!(q.is_empty());
}

#[test]
fn pop_remove_takes_kept_states_before_a_dearer_one() {
    let mut q = Queue::new(3);
    q.push(state(0, "a"));
    q.push(state(0, "b"));
    q.push(state(1, "c"));
    assert_eq!(q.pop(), Some(state(0, "a")));
    assert_eq!(q.pop(), Some(state(0, "b")));
    assert_eq!(q.current_cost(), 0);
    assert_eq!(q.pop_remove(), Some(state(0, "a")));
    assert_eq!(q.pop_remove(), Some(state(0, "b")));
    assert_eq!(q.pop_remove(), Some(state(1, "c")));
    assert_eq!(q.current_cost(), 1);
    assert_eq!(q.pop_remove(), None);
    assert_eq!(q.pop(), None);
    assert!(q.is_empty());
}

#[test]
fn pop_remove_leaves_the_rest_in_order() {
    let mut q = Queue::new(3);
    q.push(state(2, "x"));
    q.push(state(1, "s1"));
    q.push(state(1, "s2"));
    q.push(state(1, "s3"));
    assert_eq!(q.pop_remove(), Some(state(1, "s1")));
    assert_eq!(q.pop(), Some(state(1, "s2")));
    assert_eq!(q.pop(), Some(state(1, "s3")));
    assert_eq!(q.pop(), Some(state(2, "x")));
    assert_eq!(q.pop(), None);
}
