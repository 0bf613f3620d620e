//! The rule table: what an open position can be replaced by, at what cost, and
//! how far the text behind it moves.
use vstd::prelude::*;
use vstd::string::*;
use crate::text::hole;

verus! {

/// One way to replace an open position.
#[derive(Clone, Copy, Debug, PartialEq, Eq, Structural)]
pub enum Rule {
    /// The symbol `0`.
    Zero,
    /// The symbol `1`.
    One,
    /// Two open positions, one after the other.
    Sequence,
    /// A group around one open position, repeated any number of times.
    Star,
    /// A group of two open positions, of which either may match.
    Branch,
}

/// Number of rules in the table.
pub const RULE_COUNT: usize = 5;

/// The rules in the order in which they are tried.
pub open spec fn rule_table() -> Seq<Rule> {
    seq![Rule::Zero, Rule::One, Rule::Sequence, Rule::Star, Rule::Branch]
}

/// The text `\x00|\x00` that adds a branch to an alternation in place.
pub open spec fn branch_splice() -> Seq<char> {
    hole() + seq!['|'] + hole()
}

/// How far the text behind an open position moves when a branch is added in
/// place.
pub const SPLICE_SHIFT: usize = 5;

impl Rule {
    /// The text that takes the place of the open position.
    pub open spec fn replacement_text(self) -> Seq<char> {
        match self {
            Rule::Zero => seq!['0'],
            Rule::One => seq!['1'],
            Rule::Sequence => hole() + hole(),
            Rule::Star => seq!['('] + hole() + seq![')', '*'],
            Rule::Branch => seq!['('] + hole() + seq!['|'] + hole() + seq![')'],
        }
    }

    /// What applying the rule adds to the cost.
    pub open spec fn cost_delta(self) -> nat {
        1
    }

    /// By how many characters the text behind the open position moves.
    pub open spec fn shift_amount(self) -> nat {
        match self {
            Rule::Zero => 3,
            Rule::One => 3,
            Rule::Sequence => 4,
            Rule::Star => 3,
            Rule::Branch => 7,
        }
    }

    /// Whether the text behind the open position moves towards the start.
    pub open spec fn shifts_backward(self) -> bool {
        self == Rule::Zero || self == Rule::One
    }

    /// Offset, within the replacement, of the parenthesis that closes the
    /// group that the rule opens.
    pub open spec fn group_close(self) -> Option<int> {
        match self {
            Rule::Star => Some(5),
            Rule::Branch => Some(10),
            _ => None,
        }
    }

    /// The text that takes the place of the open position.
    pub fn replacement(self) -> (r: &'static str)
        ensures
            r@ == self.replacement_text(),
    {
        match self {
            Rule::Zero => {
                proof {
                    reveal_strlit("0");
                }
                let r: &'static str = "0";
                assert(r@ =~= self.replacement_text());
                r
            },
            Rule::One => {
                proof {
                    reveal_strlit("1");
                }
                let r: &'static str = "1";
                assert(r@ =~= self.replacement_text());
                r
            },
            Rule::Sequence => {
                proof {
                    reveal_strlit("\\x00\\x00");
                }
                let r: &'static str = "\\x00\\x00";
                assert(r@ =~= self.replacement_text());
                r
            },
            Rule::Star => {
                proof {
                    reveal_strlit("(\\x00)*");
                }
                let r: &'static str = "(\\x00)*";
                assert(r@ =~= self.replacement_text());
                r
            },
            Rule::Branch => {
                proof {
                    reveal_strlit("(\\x00|\\x00)");
                }
                let r: &'static str = "(\\x00|\\x00)";
                assert(r@ =~= self.replacement_text());
                r
            },
        }
    }

    /// What applying the rule adds to the cost.
    pub fn cost(self) -> (c: usize)
        ensures
            c == self.cost_delta(),
    {
        1
    }

    /// By how many characters the text behind the open position moves.
    pub fn shift(self) -> (d: usize)
        ensures
            d == self.shift_amount(),
    {
        match self {
            Rule::Zero => 3,
            Rule::One => 3,
            Rule::Sequence => 4,
            Rule::Star => 3,
            Rule::Branch => 7,
        }
    }

    /// Whether the text behind the open position moves towards the start.
    pub fn backward(self) -> (b: bool)
        ensures
            b == self.shifts_backward(),
    {
        match self {
            Rule::Zero => true,
            Rule::One => true,
            _ => false,
        }
    }
}

/// The rule at place `k` of the table.
pub fn rule(k: usize) -> (r: Rule)
    requires
        k < RULE_COUNT,
    ensures
        r == rule_table()[k as int],
{
    if k == 0 {
        Rule::Zero
    } else if k == 1 {
        Rule::One
    } else if k == 2 {
        Rule::Sequence
    } else if k == 3 {
        Rule::Star
    } else {
        Rule::Branch
    }
}

/// The text that adds a branch to an alternation in place.
pub fn splice_text() -> (r: &'static str)
    ensures
        r@ == branch_splice(),
{
    proof {
        reveal_strlit("\\x00|\\x00");
    }
    let r: &'static str = "\\x00|\\x00";
    assert(r@ =~= branch_splice());
    r
}

/// The amount by which a rule moves the text is the length of its replacement
/// against the four characters of the open position.
pub proof fn lemma_shift_is_length_change(r: Rule)
    ensures
        r.shifts_backward() ==> r.replacement_text().len() + r.shift_amount() == 4,
        !r.shifts_backward() ==> r.replacement_text().len() == 4 + r.shift_amount(),
        branch_splice().len() == 4 + SPLICE_SHIFT,
{
}

} // verus!
