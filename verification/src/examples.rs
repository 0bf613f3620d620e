//! Named conditions on strings over `0` and `1`, and the rule by which a
//! string is taken as a negative example of one: it fails the condition and
//! is not among the examples yet.
use vstd::prelude::*;
use vstd::string::*;
use crate::text::{occurs, occurs_at, texts, to_chars};

verus! {

/// A condition on strings.
#[derive(Clone, Copy, Debug, PartialEq, Eq, Structural)]
pub enum Condition {
    /// The string starts with `0`.
    StartWith0,
    /// The string ends with `01`.
    EndWith01,
    /// Somewhere in the string stands `0101`.
    Containing0101,
    /// The string starts with `1` and ends with `0`.
    Begin1End0,
}

/// `part` stands at the start of `s`.
pub open spec fn starts_with(s: Seq<char>, part: Seq<char>) -> bool {
    occurs_at(s, part, 0)
}

/// `part` stands at the end of `s`.
pub open spec fn ends_with(s: Seq<char>, part: Seq<char>) -> bool {
    occurs_at(s, part, s.len() - part.len())
}

/// `part` stands somewhere in `s`.
pub open spec fn contains_text(s: Seq<char>, part: Seq<char>) -> bool {
    exists|i: int| occurs_at(s, part, i)
}

impl Condition {
    /// The name of the condition.
    pub open spec fn name(self) -> Seq<char> {
        match self {
            Condition::StartWith0 => "start_with_0"@,
            Condition::EndWith01 => "end_with_01"@,
            Condition::Containing0101 => "containing_0101"@,
            Condition::Begin1End0 => "begin_1_end_0"@,
        }
    }

    /// The string meets the condition.
    pub open spec fn holds_of(self, s: Seq<char>) -> bool {
        match self {
            Condition::StartWith0 => starts_with(s, seq!['0']),
            Condition::EndWith01 => ends_with(s, seq!['0', '1']),
            Condition::Containing0101 => contains_text(s, seq!['0', '1', '0', '1']),
            Condition::Begin1End0 => starts_with(s, seq!['1']) && ends_with(s, seq!['0']),
        }
    }

    /// The condition of the given name, if there is one.
    pub fn named(name: &str) -> (r: Option<Condition>)
        ensures
            match r {
                Some(c) => name@ == c.name(),
                None => forall|c: Condition| name@ != c.name(),
            },
    {
        proof {
            reveal_strlit("start_with_0");
            reveal_strlit("end_with_01");
            reveal_strlit("containing_0101");
            reveal_strlit("begin_1_end_0");
        }
        let chars: Vec<char> = to_chars(name);
        if same_text(&chars, "start_with_0") {
            Some(Condition::StartWith0)
        } else if same_text(&chars, "end_with_01") {
            Some(Condition::EndWith01)
        } else if same_text(&chars, "containing_0101") {
            Some(Condition::Containing0101)
        } else if same_text(&chars, "begin_1_end_0") {
            Some(Condition::Begin1End0)
        } else {
            None
        }
    }

    /// Whether the string meets the condition.
    pub fn check(self, s: &str) -> (b: bool)
        ensures
            b == self.holds_of(s@),
    {
        let chars: Vec<char> = to_chars(s);
        let n: usize = chars.len();
        match self {
            Condition::StartWith0 => {
                let zero: Vec<char> = vec!['0'];
                assert(zero@ =~= seq!['0']);
                occurs(&chars, &zero, 0)
            },
            Condition::EndWith01 => {
                let tail: Vec<char> = vec!['0', '1'];
                assert(tail@ =~= seq!['0', '1']);
                n >= 2 && occurs(&chars, &tail, n - 2)
            },
            Condition::Containing0101 => {
                let part: Vec<char> = vec!['0', '1', '0', '1'];
                assert(part@ =~= seq!['0', '1', '0', '1']);
                let mut i: usize = 0;
                while i < n
                    invariant
                        n == chars@.len(),
                        chars@ == s@,
                        part@ == seq!['0', '1', '0', '1'],
                        self == Condition::Containing0101,
                        i <= n,
                        forall|j: int| 0 <= j < i ==> !occurs_at(chars@, part@, j),
                    decreases n - i,
                {
                    if occurs(&chars, &part, i) {
                        return true;
                    }
                    i += 1;
                }
                false
            },
            Condition::Begin1End0 => {
                let one: Vec<char> = vec!['1'];
                let zero: Vec<char> = vec!['0'];
                assert(one@ =~= seq!['1']);
                assert(zero@ =~= seq!['0']);
                n >= 1 && occurs(&chars, &one, 0) && occurs(&chars, &zero, n - 1)
            },
        }
    }
}

/// Whether `chars` are the characters of `text`.
fn same_text(chars: &Vec<char>, text: &str) -> (b: bool)
    ensures
        b == (chars@ == text@),
{
    let other: Vec<char> = to_chars(text);
    if chars.len() != other.len() {
        return false;
    }
    let same: bool = occurs(chars, &other, 0);
    assert(chars@.subrange(0, chars@.len() as int) =~= chars@);
    same
}

/// Whether `candidate` is among `examples`.
pub fn listed(examples: &Vec<String>, candidate: &String) -> (b: bool)
    ensures
        b == texts(examples@).contains(candidate@),
{
    let mut k: usize = 0;
    while k < examples.len()
        invariant
            k <= examples@.len(),
            forall|j: int| 0 <= j < k ==> texts(examples@)[j] != candidate@,
        decreases examples@.len() - k,
    {
        if examples[k] == *candidate {
            assert(texts(examples@)[k as int] == candidate@);
            return true;
        }
        k += 1;
    }
    false
}

/// Takes `candidate` as a negative example of `condition`: it is added to
/// `examples` when it fails the condition and is not among them yet.
pub fn offer_example(condition: Condition, examples: &mut Vec<String>, candidate: String) -> (taken: bool)
    ensures
        taken == (!condition.holds_of(candidate@) && !texts(old(examples)@).contains(candidate@)),
        taken ==> final(examples)@ == old(examples)@.push(candidate),
        !taken ==> final(examples)@ == old(examples)@,
{
    if !condition.check(candidate.as_str()) && !listed(examples, &candidate) {
        examples.push(candidate);
        true
    } else {
        false
    }
}

} // verus!
