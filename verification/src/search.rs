//! The search: what one step does to the worklist, and the loop that runs
//! steps until a pattern is accepted or the worklist is used up.
use vstd::prelude::*;
use vstd::string::*;
use crate::edit::lemma_exact_is_anchored;
use crate::nesting::{
    derived, has_anchors, lemma_derived_sound, lemma_seed_derived, seed, seed_text,
};
use crate::text::has_hole;
use crate::extend::{
    children_of, extend, lemma_children_cost, lemma_offer_all_once, lemma_offer_all_queue,
    listed_once, offer_all, offering, patterns, sound_queue, sound_state,
};
use crate::matcher::{acceptance, accepts_all, accepts_none, compiles, judge, Acceptance};
use crate::prune::{completions_compile, narrowest, redundant, try_is_dead, try_is_redundant};
use crate::queue::{
    lemma_cheapest_first, lemma_front, lemma_nothing_cheaper, lemma_place_moves_on, Queue,
    QueueView,
};
use crate::state::{State, StateView};
use crate::visited::Visited;

verus! {

/// How a search is to be run.
#[derive(Clone, Copy, Debug, PartialEq, Eq, Structural)]
pub struct Options {
    /// Number of cost buckets: only states of a cost below it are explored.
    pub max_cost_bound: usize,
    /// Whether dead states are discarded.
    pub enable_dead_state_pruning: bool,
    /// Whether redundant states are discarded.
    pub enable_redundancy_pruning: bool,
    /// Whether a step extends a state at all its open positions, or at the
    /// first only.
    pub expand_all_holes_per_step: bool,
}

/// Why a search could not be run, or could not go on.
#[derive(Clone, Copy, Debug, PartialEq, Eq, Structural)]
pub enum SynthError {
    /// The cost bound is zero.
    NonPositiveBound,
    /// Some string is both a positive and a negative example.
    OverlappingExamples,
    /// A pattern that the search built was refused by the matching engine.
    PatternRejected,
}

/// How a search ended.
#[derive(Debug, PartialEq)]
pub enum Outcome {
    /// This complete pattern matches every positive and no negative example.
    Solved(State),
    /// The worklist was used up before a pattern was accepted.
    Exhausted,
}

/// An [`Outcome`] as plain values.
pub enum OutcomeView {
    Solved(StateView),
    Exhausted,
}

impl View for Outcome {
    type V = OutcomeView;

    open spec fn view(&self) -> OutcomeView {
        match self {
            Outcome::Solved(s) => OutcomeView::Solved(s@),
            Outcome::Exhausted => OutcomeView::Exhausted,
        }
    }
}

/// What one step of a search did.
#[derive(Debug, PartialEq)]
pub enum Event {
    /// The state taken is complete and was accepted. A search for one pattern
    /// ends here; further steps go on to look for others.
    Solved(State),
    /// The state taken is complete and was not accepted.
    Rejected(State),
    /// The state taken was discarded as dead.
    Dead(State),
    /// The state taken was discarded as redundant.
    Redundant(State),
    /// The state taken was extended.
    Expanded(State),
    /// There was no state to take: nothing is left to explore.
    Exhausted,
}

/// An [`Event`] as plain values.
pub enum EventView {
    Solved(StateView),
    Rejected(StateView),
    Dead(StateView),
    Redundant(StateView),
    Expanded(StateView),
    Exhausted,
}

impl View for Event {
    type V = EventView;

    open spec fn view(&self) -> EventView {
        match self {
            Event::Solved(s) => EventView::Solved(s@),
            Event::Rejected(s) => EventView::Rejected(s@),
            Event::Dead(s) => EventView::Dead(s@),
            Event::Redundant(s) => EventView::Redundant(s@),
            Event::Expanded(s) => EventView::Expanded(s@),
            Event::Exhausted => EventView::Exhausted,
        }
    }
}

/// The result of a step as plain values.
pub open spec fn step_view(r: Result<Event, SynthError>) -> Result<EventView, SynthError> {
    match r {
        Ok(e) => Ok(e@),
        Err(e) => Err(e),
    }
}

/// The result of a search as plain values.
pub open spec fn outcome_view(r: Result<Outcome, SynthError>) -> Result<OutcomeView, SynthError> {
    match r {
        Ok(o) => Ok(o@),
        Err(e) => Err(e),
    }
}

/// What the pruning oracle says of a state that is not complete.
#[derive(Clone, Copy, Debug, PartialEq, Eq, Structural)]
pub enum Ruling {
    /// A pattern that the oracle built does not compile.
    Invalid,
    /// The state is dead.
    Dead,
    /// The state is redundant.
    Redundant,
    /// The state is to be extended.
    Open,
}

/// The pruning oracle: the dead-state test first, then the redundancy test,
/// each only where the options switch it on.
pub open spec fn ruling(p: Seq<char>, positive: Seq<String>, negative: Seq<String>, options: Options) -> Ruling {
    if options.enable_dead_state_pruning && !compiles(narrowest(p)) {
        Ruling::Invalid
    } else if options.enable_dead_state_pruning && !accepts_none(narrowest(p), negative) {
        Ruling::Dead
    } else if options.enable_redundancy_pruning && !completions_compile(p) {
        Ruling::Invalid
    } else if options.enable_redundancy_pruning && redundant(p, positive) {
        Ruling::Redundant
    } else {
        Ruling::Open
    }
}

/// What follows from the answers of the two tests of the oracle, where an
/// answer that is missing stands for a pattern that did not compile and a
/// test that was not made counts as answered with no: the dead-state test
/// decides first.
pub open spec fn weighed(dead: Option<bool>, redundant: Option<bool>) -> Ruling {
    match dead {
        None => Ruling::Invalid,
        Some(true) => Ruling::Dead,
        Some(false) => match redundant {
            None => Ruling::Invalid,
            Some(true) => Ruling::Redundant,
            Some(false) => Ruling::Open,
        },
    }
}

/// What follows from the answers of the two tests of the oracle.
pub fn weigh(dead: Option<bool>, redundant: Option<bool>) -> (r: Ruling)
    ensures
        r == weighed(dead, redundant),
{
    match dead {
        None => Ruling::Invalid,
        Some(true) => Ruling::Dead,
        Some(false) => match redundant {
            None => Ruling::Invalid,
            Some(true) => Ruling::Redundant,
            Some(false) => Ruling::Open,
        },
    }
}

/// Puts a pattern before the pruning oracle: makes the tests that the options
/// switch on, the redundancy test only where the dead-state test let the
/// pattern pass, and weighs their answers.
pub fn consult(
    regexp: &String,
    positive_set: &Vec<String>,
    negative_set: &Vec<String>,
    options: Options,
) -> (r: Ruling)
    ensures
        r == ruling(regexp@, positive_set@, negative_set@, options),
{
    let dead: Option<bool> = if options.enable_dead_state_pruning {
        try_is_dead(regexp, positive_set, negative_set)
    } else {
        Some(false)
    };
    let redundant: Option<bool> = match dead {
        Some(false) => {
            if options.enable_redundancy_pruning {
                try_is_redundant(regexp, positive_set)
            } else {
                Some(false)
            }
        },
        _ => Some(false),
    };
    weigh(dead, redundant)
}

/// What a step reports of a complete state, given the verdict on its
/// pattern.
pub fn settle(state: State, a: Acceptance) -> (r: Result<Event, SynthError>)
    ensures
        step_view(r) == match a {
            Acceptance::Invalid => Err::<EventView, SynthError>(SynthError::PatternRejected),
            Acceptance::Accepted => Ok(EventView::Solved(state@)),
            Acceptance::Rejected => Ok(EventView::Rejected(state@)),
        },
{
    match a {
        Acceptance::Invalid => Err(SynthError::PatternRejected),
        Acceptance::Accepted => Ok(Event::Solved(state)),
        Acceptance::Rejected => Ok(Event::Rejected(state)),
    }
}

/// What a step reports of a state that is not complete, given what the
/// pruning oracle said of it.
pub fn settle_ruling(state: State, said: Ruling) -> (r: Result<Event, SynthError>)
    ensures
        step_view(r) == match said {
            Ruling::Invalid => Err::<EventView, SynthError>(SynthError::PatternRejected),
            Ruling::Dead => Ok(EventView::Dead(state@)),
            Ruling::Redundant => Ok(EventView::Redundant(state@)),
            Ruling::Open => Ok(EventView::Expanded(state@)),
        },
{
    match said {
        Ruling::Invalid => Err(SynthError::PatternRejected),
        Ruling::Dead => Ok(Event::Dead(state)),
        Ruling::Redundant => Ok(Event::Redundant(state)),
        Ruling::Open => Ok(Event::Expanded(state)),
    }
}

/// A search in progress, as plain values.
pub struct SearchView {
    /// The worklist.
    pub queue: QueueView,
    /// The texts of the states that were queued at some time.
    pub seen: Set<Seq<char>>,
    /// The same texts in the order in which their states were queued.
    pub queued: Seq<Seq<char>>,
    /// How the search is run.
    pub options: Options,
}

impl SearchView {
    /// The worklist is well formed and has one bucket for each cost below the
    /// bound, no state lies in a bucket cheaper than the current one, every
    /// state in it is sound, and no text was queued twice.
    pub open spec fn wf(self) -> bool {
        &&& self.queue.wf()
        &&& self.queue.cheaper_empty()
        &&& self.queue.buckets.len() == self.options.max_cost_bound
        &&& sound_queue(self.queue)
        &&& listed_once(self.seen, self.queued)
    }

    /// What one step makes of the search, and what the step reports. The
    /// first state of the cheapest bucket that holds any is taken from the
    /// worklist. A complete one is
    /// tested against the examples. Another one is put before the pruning
    /// oracle and, unless discarded, extended: the states made of it are
    /// offered to the worklist.
    pub open spec fn step(self, positive: Seq<String>, negative: Seq<String>) -> (
        SearchView,
        Result<EventView, SynthError>,
    ) {
        match self.queue.front_state() {
            None => (self, Ok(EventView::Exhausted)),
            Some(cur) => {
                let taken = SearchView { queue: self.queue.after_pop_remove(), ..self };
                if cur.is_leaf {
                    match acceptance(cur.regexp, positive, negative) {
                        Acceptance::Invalid => (taken, Err(SynthError::PatternRejected)),
                        Acceptance::Accepted => (taken, Ok(EventView::Solved(cur))),
                        Acceptance::Rejected => (taken, Ok(EventView::Rejected(cur))),
                    }
                } else {
                    match ruling(cur.regexp, positive, negative, self.options) {
                        Ruling::Invalid => (taken, Err(SynthError::PatternRejected)),
                        Ruling::Dead => (taken, Ok(EventView::Dead(cur))),
                        Ruling::Redundant => (taken, Ok(EventView::Redundant(cur))),
                        Ruling::Open => {
                            let o = offer_all(
                                offering(taken.queue, self.seen),
                                children_of(cur, self.options.expand_all_holes_per_step),
                            );
                            (
                                SearchView {
                                    queue: o.queue,
                                    seen: o.seen,
                                    queued: self.queued + patterns(o.taken),
                                    options: self.options,
                                },
                                Ok(EventView::Expanded(cur)),
                            )
                        },
                    }
                }
            },
        }
    }

    /// Number of states that the current bucket holds.
    pub open spec fn left_in_bucket(self) -> nat {
        if self.queue.cost < self.queue.buckets.len() {
            self.queue.buckets[self.queue.cost as int].len()
        } else {
            0
        }
    }

    /// The result of running steps until one ends the search.
    pub open spec fn run(self, positive: Seq<String>, negative: Seq<String>) -> Result<OutcomeView, SynthError>
        decreases self.queue.buckets.len() - self.queue.cost, self.left_in_bucket(),
        when self.queue.wf()
    {
        let next = self.step(positive, negative);
        match next.1 {
            Err(e) => Err(e),
            Ok(EventView::Solved(s)) => Ok(OutcomeView::Solved(s)),
            Ok(EventView::Exhausted) => Ok(OutcomeView::Exhausted),
            Ok(_) => {
                proof {
                    lemma_step_progress(self, positive, negative);
                }
                next.0.run(positive, negative)
            },
        }
    }
}

/// The step ended the search.
pub open spec fn is_final(r: Result<EventView, SynthError>) -> bool {
    r is Err || r == Ok::<EventView, SynthError>(EventView::Exhausted) || (r is Ok
        && r->Ok_0 is Solved)
}

/// A step leaves the worklist well formed and never moves it back to a
/// cheaper bucket. A step that does not end the search brings it nearer to
/// its end: the worklist moved on to a dearer bucket, or it holds one state
/// fewer in the current one.
pub proof fn lemma_step_progress(s: SearchView, positive: Seq<String>, negative: Seq<String>)
    requires
        s.queue.wf(),
    ensures
        s.step(positive, negative).0.queue.wf(),
        s.step(positive, negative).0.queue.buckets.len() == s.queue.buckets.len(),
        s.step(positive, negative).0.options == s.options,
        s.queue.cost <= s.step(positive, negative).0.queue.cost,
        !is_final(s.step(positive, negative).1) ==> {
            let t = s.step(positive, negative).0;
            ||| s.queue.cost < t.queue.cost
            ||| (s.queue.cost == t.queue.cost && s.left_in_bucket() > t.left_in_bucket())
        },
{
    lemma_front(s.queue);
    lemma_place_moves_on(s.queue);
    match s.queue.front_state() {
        None => {},
        Some(cur) => {
            let q1 = s.queue.after_pop_remove();
            if !cur.is_leaf && ruling(cur.regexp, positive, negative, s.options) is Open {
                let cs = children_of(cur, s.options.expand_all_holes_per_step);
                lemma_children_cost(cur, s.options.expand_all_holes_per_step);
                lemma_offer_all_queue(offering(q1, s.seen), cs, cur.cost + 1);
            }
        },
    }
}

/// The state that a step took from the worklist.
pub open spec fn taken_by(r: Result<EventView, SynthError>) -> Option<StateView> {
    match r {
        Ok(EventView::Solved(s)) => Some(s),
        Ok(EventView::Rejected(s)) => Some(s),
        Ok(EventView::Dead(s)) => Some(s),
        Ok(EventView::Redundant(s)) => Some(s),
        Ok(EventView::Expanded(s)) => Some(s),
        _ => None,
    }
}

/// States are taken in the order of their costs: the state that a step takes
/// costs no more than the state that the next step takes.
pub proof fn lemma_steps_in_cost_order(s: SearchView, positive: Seq<String>, negative: Seq<String>)
    requires
        s.queue.wf(),
    ensures
        ({
            let first = s.step(positive, negative);
            let second = first.0.step(positive, negative);
            taken_by(first.1) is Some && taken_by(second.1) is Some ==>
                taken_by(first.1)->0.cost <= taken_by(
                second.1,
            )->0.cost
        }),
{
    let first = s.step(positive, negative);
    lemma_step_progress(s, positive, negative);
    lemma_step_progress(first.0, positive, negative);
    lemma_front(s.queue);
    lemma_front(first.0.queue);
    if s.queue.front_state() is Some {
        let cur = s.queue.front_state()->0;
        if !cur.is_leaf && ruling(cur.regexp, positive, negative, s.options) is Open {
            lemma_children_cost(cur, s.options.expand_all_holes_per_step);
            lemma_offer_all_queue(
                offering(s.queue.after_pop_remove(), s.seen),
                children_of(cur, s.options.expand_all_holes_per_step),
                cur.cost + 1,
            );
        }
    }
}

/// The cheapest first: where no state lies in a bucket cheaper than the
/// current one, a step leaves it so, and the state that the step takes costs
/// no more than any state that the step leaves in the worklist.
pub proof fn lemma_step_takes_cheapest(s: SearchView, positive: Seq<String>, negative: Seq<String>)
    requires
        s.queue.wf(),
        s.queue.cheaper_empty(),
    ensures
        s.step(positive, negative).0.queue.cheaper_empty(),
        taken_by(s.step(positive, negative).1) is Some ==> s.step(positive, negative).0.queue.none_below(
            taken_by(s.step(positive, negative).1)->0.cost,
        ),
{
    lemma_front(s.queue);
    lemma_step_progress(s, positive, negative);
    lemma_cheapest_first(s.queue);
    if s.queue.front_state() is Some {
        let cur = s.queue.front_state()->0;
        let q1 = s.queue.after_pop_remove();
        let t = s.step(positive, negative).0;
        if !cur.is_leaf && ruling(cur.regexp, positive, negative, s.options) is Open {
            lemma_children_cost(cur, s.options.expand_all_holes_per_step);
            lemma_offer_all_queue(
                offering(q1, s.seen),
                children_of(cur, s.options.expand_all_holes_per_step),
                cur.cost + 1,
            );
            assert forall|c: int| 0 <= c < t.queue.cost && c < t.queue.buckets.len() implies (
            #[trigger] t.queue.buckets[c]).len() == 0 by {
                assert(t.queue.buckets[c] == q1.buckets[c]);
            }
        }
        lemma_nothing_cheaper(t.queue);
    }
}

/// No text is queued twice: a step keeps the list of the texts queued so far
/// free of repetitions, and keeps it the list of the texts seen.
pub proof fn lemma_step_queues_once(s: SearchView, positive: Seq<String>, negative: Seq<String>)
    requires
        listed_once(s.seen, s.queued),
    ensures
        listed_once(s.step(positive, negative).0.seen, s.step(positive, negative).0.queued),
{
    match s.queue.front_state() {
        None => {},
        Some(cur) => {
            if !cur.is_leaf && ruling(cur.regexp, positive, negative, s.options) is Open {
                let q1 = s.queue.after_pop_remove();
                let cs = children_of(cur, s.options.expand_all_holes_per_step);
                assert(s.queued + patterns(Seq::<StateView>::empty()) =~= s.queued);
                lemma_offer_all_once(offering(q1, s.seen), cs, s.queued);
            }
        },
    }
}

/// Some string is in both lists.
pub open spec fn overlapping(positive: Seq<String>, negative: Seq<String>) -> bool {
    exists|i: int, j: int|
        0 <= i < positive.len() && 0 <= j < negative.len()
            && (#[trigger] positive[i])@ == (#[trigger] negative[j])@
}

/// Whether some string is in both lists.
pub fn overlap(positive_set: &Vec<String>, negative_set: &Vec<String>) -> (b: bool)
    ensures
        b == overlapping(positive_set@, negative_set@),
{
    let mut i: usize = 0;
    while i < positive_set.len()
        invariant
            i <= positive_set@.len(),
            forall|a: int, j: int|
                0 <= a < i && 0 <= j < negative_set@.len() ==>
                    (#[trigger] positive_set@[a])@ != (#[trigger] negative_set@[j])@,
        decreases positive_set@.len() - i,
    {
        let mut j: usize = 0;
        while j < negative_set.len()
            invariant
                i < positive_set@.len(),
                j <= negative_set@.len(),
                forall|b: int| 0 <= b < j ==>
                    positive_set@[i as int]@ != (#[trigger] negative_set@[b])@,
            decreases negative_set@.len() - j,
        {
            if positive_set[i] == negative_set[j] {
                return true;
            }
            j += 1;
        }
        i += 1;
    }
    false
}

/// A search before its first step: the seed alone in the worklist.
pub open spec fn initial(options: Options) -> SearchView {
    SearchView {
        queue: QueueView {
            buckets: Seq::new(options.max_cost_bound as nat, |c: int| Seq::<StateView>::empty()).update(
                0,
                seq![seed()],
            ),
            cost: 0,
            index: 0,
        },
        seen: Set::<Seq<char>>::empty().insert(seed_text()),
        queued: seq![seed_text()],
        options,
    }
}

/// What a search for the given examples under the given options returns.
pub open spec fn synthesis(positive: Seq<String>, negative: Seq<String>, options: Options) -> Result<
    OutcomeView,
    SynthError,
> {
    if options.max_cost_bound == 0 {
        Err(SynthError::NonPositiveBound)
    } else if overlapping(positive, negative) {
        Err(SynthError::OverlappingExamples)
    } else {
        initial(options).run(positive, negative)
    }
}

/// A search in progress: the worklist and the texts seen.
pub struct Search {
    pq: Queue,
    table: Visited,
    options: Options,
    queued: Ghost<Seq<Seq<char>>>,
}

impl View for Search {
    type V = SearchView;

    closed spec fn view(&self) -> SearchView {
        SearchView { queue: self.pq@, seen: self.table@, queued: self.queued@, options: self.options }
    }
}

/// The seed state.
fn seed_state() -> (s: State)
    ensures
        s@ == seed(),
        sound_state(s@),
{
    proof {
        reveal_strlit("^\\x00$");
    }
    let text: &'static str = "^\\x00$";
    assert(text@ =~= seed_text());
    let s: State = State::new(0, String::from_str(text), Vec::new());
    proof {
        lemma_seed_derived();
        lemma_derived_sound(seed());
    }
    s
}

impl Search {
    /// A search for patterns of a cost below `options.max_cost_bound`, with
    /// the seed in its worklist. The options and the examples are checked
    /// first: the bound must not be zero, and no string may be an example of
    /// both kinds.
    pub fn start(positive_set: &Vec<String>, negative_set: &Vec<String>, options: Options) -> (r: Result<
        Search,
        SynthError,
    >)
        ensures
            match r {
                Ok(s) => options.max_cost_bound > 0
                    && !overlapping(positive_set@, negative_set@) && s@
                    == initial(options) && s@.wf(),
                Err(SynthError::NonPositiveBound) => options.max_cost_bound == 0,
                Err(SynthError::OverlappingExamples) => options.max_cost_bound > 0 && overlapping(
                    positive_set@,
                    negative_set@,
                ),
                Err(SynthError::PatternRejected) => false,
            },
    {
        if options.max_cost_bound == 0 {
            return Err(SynthError::NonPositiveBound);
        }
        if overlap(positive_set, negative_set) {
            return Err(SynthError::OverlappingExamples);
        }
        let mut pq: Queue = Queue::new(options.max_cost_bound);
        let mut table: Visited = Visited::new();
        let init_state: State = seed_state();
        table.insert(init_state.regexp.clone());
        pq.push(init_state);
        let ghost first: Seq<Seq<char>> = Seq::empty().push(seed_text());
        let s = Search { pq, table, options, queued: Ghost(first) };
        proof {
            assert(s@.queue.buckets =~~= initial(options).queue.buckets);
            assert(s@.seen =~= initial(options).seen);
            assert forall|x: Seq<char>| s@.seen.contains(x) <==> s@.queued.contains(x) by {
                if x == seed_text() {
                    assert(s@.queued[0] == x);
                }
            }
        }
        Ok(s)
    }

    /// The options that the search runs under.
    pub fn options(&self) -> (o: Options)
        ensures
            o == self@.options,
    {
        self.options
    }

    /// Number of texts that were queued so far.
    pub fn seen_count(&self) -> (n: usize)
        ensures
            n == self@.seen.len(),
    {
        self.table.len()
    }

    /// One step of the search: takes the cheapest state from the worklist,
    /// tests it if it is complete, and otherwise extends it unless the
    /// pruning oracle discards it. No state that the step leaves in the
    /// worklist costs less than the state taken.
    pub fn step(&mut self, positive_set: &Vec<String>, negative_set: &Vec<String>) -> (r: Result<
        Event,
        SynthError,
    >)
        requires
            old(self)@.wf(),
        ensures
            final(self)@.wf(),
            final(self)@ == old(self)@.step(positive_set@, negative_set@).0,
            step_view(r) == old(self)@.step(positive_set@, negative_set@).1,
            taken_by(step_view(r)) is Some ==> final(self)@.queue.none_below(
                taken_by(step_view(r))->0.cost,
            ),
            match r {
                Ok(Event::Solved(s)) => sound_state(s@) && s@.is_leaf && !has_hole(s@.regexp)
                    && has_anchors(s@.regexp) && derived(s@)
                    && s@.cost < old(self)@.options.max_cost_bound
                    && accepts_all(s@.regexp, positive_set@)
                        && accepts_none(s@.regexp, negative_set@),
                _ => true,
            },
    {
        let ghost before = self@;
        proof {
            lemma_front(before.queue);
            lemma_step_progress(before, positive_set@, negative_set@);
            lemma_step_takes_cheapest(before, positive_set@, negative_set@);
            lemma_step_queues_once(before, positive_set@, negative_set@);
        }
        let curr_state: State = match self.pq.pop_remove() {
            Some(s) => s,
            None => {
                return Ok(Event::Exhausted);
            },
        };
        proof {
            let c = before.queue.front_bucket()->0 as int;
            let q1 = self.pq@;
            assert(sound_state(before.queue.buckets[c][0]));
            assert forall|b: int, j: int| 0 <= b < q1.buckets.len()
                && 0 <= j < q1.buckets[b].len() implies
                    sound_state(#[trigger] q1.buckets[b][j]) by {
                if b == c {
                    assert(q1.buckets[b][j] == before.queue.buckets[b][j + 1]);
                } else {
                    assert(q1.buckets[b][j] == before.queue.buckets[b][j]);
                }
            }
        }
        if curr_state.is_leaf() {
            let verdict: Acceptance = judge(curr_state.regexp.as_str(), positive_set, negative_set);
            settle(curr_state, verdict)
        } else {
            let said: Ruling = consult(&curr_state.regexp, positive_set, negative_set, self.options);
            match said {
                Ruling::Open => {
                    proof {
                        lemma_exact_is_anchored(curr_state@.regexp, curr_state@.parentheses);
                    }
                    extend(
                        &mut self.pq,
                        &curr_state,
                        &mut self.table,
                        self.options.expand_all_holes_per_step,
                    );
                    proof {
                        let o = offer_all(
                            offering(before.queue.after_pop_remove(), before.seen),
                            children_of(curr_state@, before.options.expand_all_holes_per_step),
                        );
                        let ghost grown = before.queued + patterns(o.taken);
                        self.queued = Ghost(grown);
                    }
                },
                _ => {},
            }
            settle_ruling(curr_state, said)
        }
    }
}

/// Searches for a pattern that matches every string of `positive_set` and no
/// string of `negative_set`: runs steps from the seed until one accepts a
/// pattern or finds the worklist used up.
/// A pattern that is returned has no open position, starts with `^` and ends
/// with `$`, and costs one for each rule that was applied to make it of the
/// seed.
pub fn synth(positive_set: &Vec<String>, negative_set: &Vec<String>, options: Options) -> (r: Result<
    Outcome,
    SynthError,
>)
    ensures
        outcome_view(r) == synthesis(positive_set@, negative_set@, options),
        r == Err::<Outcome, SynthError>(SynthError::NonPositiveBound) <==> options.max_cost_bound == 0,
        r == Err::<Outcome, SynthError>(SynthError::OverlappingExamples) <==> options.max_cost_bound > 0
            && overlapping(positive_set@, negative_set@),
        match r {
            Ok(Outcome::Solved(s)) => sound_state(s@) && s@.is_leaf && !has_hole(s@.regexp)
                && has_anchors(s@.regexp) && derived(s@)
                && s@.cost < options.max_cost_bound
                && accepts_all(s@.regexp, positive_set@) && accepts_none(s@.regexp, negative_set@),
            _ => true,
        },
{
    let mut search: Search = match Search::start(positive_set, negative_set, options) {
        Ok(s) => s,
        Err(e) => {
            return Err(e);
        },
    };
    loop
        invariant
            options.max_cost_bound > 0,
            !overlapping(positive_set@, negative_set@),
            search@.wf(),
            search@.options == options,
            search@.run(positive_set@, negative_set@)
                == synthesis(positive_set@, negative_set@, options),
        decreases search@.queue.buckets.len() - search@.queue.cost, search@.left_in_bucket(),
    {
        let ghost before = search@;
        proof {
            lemma_step_progress(before, positive_set@, negative_set@);
        }
        match search.step(positive_set, negative_set) {
            Err(e) => {
                return Err(e);
            },
            Ok(Event::Solved(s)) => {
                return Ok(Outcome::Solved(s));
            },
            Ok(Event::Exhausted) => {
                return Ok(Outcome::Exhausted);
            },
            Ok(_) => {},
        }
    }
}

/// Two searches for the same examples under the same options return the
/// same: the same error, or the same pattern with the same cost and groups.
pub proof fn lemma_synth_deterministic(
    first: Result<Outcome, SynthError>,
    second: Result<Outcome, SynthError>,
    positive: Seq<String>,
    negative: Seq<String>,
    options: Options,
)
    requires
        outcome_view(first) == synthesis(positive, negative, options),
        outcome_view(second) == synthesis(positive, negative, options),
    ensures
        outcome_view(first) == outcome_view(second),
{
}

} // verus!
