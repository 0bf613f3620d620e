//! A state of the search: a partial pattern, what it cost to build, and where
//! its groups stand.
use vstd::prelude::*;
use vstd::string::*;
use crate::text::{has_hole, to_chars, find_hole};

verus! {

/// What a [`State`] holds, as plain values.
pub struct StateView {
    pub cost: nat,
    pub regexp: Seq<char>,
    pub is_leaf: bool,
    pub parentheses: Seq<(usize, usize)>,
}

/// A partial pattern with its accumulated cost and the offsets of the opening
/// and closing parenthesis of each of its groups.
#[derive(Debug, PartialEq)]
pub struct State {
    pub cost: usize,
    pub regexp: String,
    pub(crate) is_leaf: bool,
    pub parentheses: Vec<(usize, usize)>,
}

impl View for State {
    type V = StateView;

    open(crate) spec fn view(&self) -> StateView {
        StateView {
            cost: self.cost as nat,
            regexp: self.regexp@,
            is_leaf: self.is_leaf,
            parentheses: self.parentheses@,
        }
    }
}

impl StateView {
    /// The leaf flag says what the text says: a leaf has no open position.
    pub open spec fn wf(self) -> bool {
        self.is_leaf == !has_hole(self.regexp)
    }
}

impl State {
    /// A state of the given cost, text and group offsets. It is a leaf exactly
    /// when the text has no open position.
    pub fn new(cost: usize, regexp: String, parentheses: Vec<(usize, usize)>) -> (s: State)
        ensures
            s@.cost == cost,
            s@.regexp == regexp@,
            s@.parentheses == parentheses@,
            s@.is_leaf == !has_hole(regexp@),
    {
        let chars: Vec<char> = to_chars(regexp.as_str());
        State::with_chars(cost, regexp, &chars, parentheses)
    }

    /// [`State::new`] where the characters of the text are at hand.
    pub(crate) fn with_chars(
        cost: usize,
        regexp: String,
        chars: &Vec<char>,
        parentheses: Vec<(usize, usize)>,
    ) -> (s: State)
        requires
            chars@ == regexp@,
        ensures
            s@.cost == cost,
            s@.regexp == regexp@,
            s@.parentheses == parentheses@,
            s@.is_leaf == !has_hole(regexp@),
    {
        let is_leaf: bool = find_hole(chars, 0).is_none();
        State { cost, regexp, is_leaf, parentheses }
    }

    /// The state in words: `cost: `, the cost in decimal, `, regexp: ` and the
    /// text.
    pub fn describe(&self) -> (r: String)
        ensures
            r@ == "cost: "@ + digits(self@.cost) + ", regexp: "@ + self@.regexp,
    {
        let mut out: String = String::from_str("cost: ");
        let number: String = decimal(self.cost);
        out.append(number.as_str());
        out.append(", regexp: ");
        out.append(self.regexp.as_str());
        out
    }

    /// Whether the pattern is complete.
    pub fn is_leaf(&self) -> (b: bool)
        ensures
            b == self@.is_leaf,
    {
        self.is_leaf
    }
}

impl Clone for State {
    fn clone(&self) -> (r: Self)
        ensures
            r@ == self@,
    {
        State {
            cost: self.cost,
            regexp: self.regexp.clone(),
            is_leaf: self.is_leaf,
            parentheses: copy_spans(&self.parentheses),
        }
    }
}

/// The character for a number below ten.
pub open spec fn digit(d: nat) -> char {
    seq!['0', '1', '2', '3', '4', '5', '6', '7', '8', '9'][d as int]
}

/// A number in decimal.
pub open spec fn digits(n: nat) -> Seq<char>
    decreases n,
{
    if n < 10 {
        seq![digit(n)]
    } else {
        digits(n / 10).push(digit(n % 10))
    }
}

/// The character for a number below ten, as a string.
fn digit_text(d: usize) -> (r: &'static str)
    requires
        d < 10,
    ensures
        r@ == seq![digit(d as nat)],
{
    proof {
        reveal_strlit("0");
        reveal_strlit("1");
        reveal_strlit("2");
        reveal_strlit("3");
        reveal_strlit("4");
        reveal_strlit("5");
        reveal_strlit("6");
        reveal_strlit("7");
        reveal_strlit("8");
        reveal_strlit("9");
    }
    let r: &'static str = if d == 0 {
        "0"
    } else if d == 1 {
        "1"
    } else if d == 2 {
        "2"
    } else if d == 3 {
        "3"
    } else if d == 4 {
        "4"
    } else if d == 5 {
        "5"
    } else if d == 6 {
        "6"
    } else if d == 7 {
        "7"
    } else if d == 8 {
        "8"
    } else {
        "9"
    };
    assert(r@ =~= seq![digit(d as nat)]);
    r
}

/// A number in decimal.
pub fn decimal(n: usize) -> (r: String)
    ensures
        r@ == digits(n as nat),
    decreases n,
{
    if n < 10 {
        String::from_str(digit_text(n))
    } else {
        let mut r: String = decimal(n / 10);
        r.append(digit_text(n % 10));
        assert(r@ =~= digits(n as nat));
        r
    }
}

/// The views of a list of states.
pub open spec fn views(states: Seq<State>) -> Seq<StateView> {
    Seq::new(states.len(), |i: int| states[i]@)
}

/// A copy of a list of group offsets.
pub fn copy_spans(spans: &Vec<(usize, usize)>) -> (r: Vec<(usize, usize)>)
    ensures
        r@ == spans@,
{
    let mut r: Vec<(usize, usize)> = Vec::new();
    let mut i: usize = 0;
    while i < spans.len()
        invariant
            i <= spans.len(),
            r@ == spans@.take(i as int),
        decreases spans.len() - i,
    {
        r.push(spans[i]);
        i += 1;
    }
    r
}

} // verus!
