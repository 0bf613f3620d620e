//! The extension engine: the states that the rule table makes of one state,
//! and which of them enter the worklist.
use vstd::prelude::*;
use vstd::string::*;
use crate::edit::{
    child_of, edit_for, lemma_anchored_after_edit, lemma_edit_ok, lemma_exact_after_edit,
    lemma_movable, spans_after, spans_anchored,
};
use crate::nesting::{
    derived, has_anchors, lemma_anchors_after_edit, lemma_child_derived, lemma_nested_after_edit,
    well_nested,
};
use crate::queue::{Queue, QueueView};
use crate::rules::{rule, rule_table, splice_text, Rule, RULE_COUNT, SPLICE_SHIFT};
use crate::spans::{branch_at, spans_exact, update_parentheses};
use crate::state::{copy_spans, views, State, StateView};
use crate::text::{find_hole, hole_at, splice, spliced, to_chars};
use crate::visited::Visited;

verus! {

/// The offsets at or after `from` at which `p` is open, ascending.
pub open spec fn holes_from(p: Seq<char>, from: int) -> Seq<int>
    decreases p.len() - from,
{
    if from < 0 || from >= p.len() {
        Seq::empty()
    } else if hole_at(p, from) {
        seq![from] + holes_from(p, from + 1)
    } else {
        holes_from(p, from + 1)
    }
}

/// The offsets at which `p` is extended: all its open positions, or the first
/// of them only.
pub open spec fn extension_points(p: Seq<char>, all_holes: bool) -> Seq<int> {
    let holes = holes_from(p, 0);
    if all_holes || holes.len() == 0 {
        holes
    } else {
        seq![holes[0]]
    }
}

/// The states made of `parent`: for each extension point in turn, one state
/// for each rule in the order of the table.
pub open spec fn children_of(parent: StateView, all_holes: bool) -> Seq<StateView> {
    let points = extension_points(parent.regexp, all_holes);
    Seq::new(
        points.len() * RULE_COUNT as nat,
        |n: int| child_of(parent, points[n / RULE_COUNT as int], rule_table()[n % RULE_COUNT as int]),
    )
}

/// The open positions listed from `from` on are those at or after `from`,
/// ascending.
pub proof fn lemma_holes_from(p: Seq<char>, from: int)
    requires
        0 <= from,
    ensures
        forall|k: int| 0 <= k < holes_from(p, from).len() ==>
            from <= (#[trigger] holes_from(p, from)[k]) && hole_at(p, holes_from(p, from)[k]),
        forall|i: int| from <= i && hole_at(p, i) ==> holes_from(p, from).contains(i),
        forall|k: int, l: int| 0 <= k < l < holes_from(p, from).len() ==>
            holes_from(p, from)[k] < holes_from(p, from)[l],
    decreases p.len() - from,
{
    if from < p.len() {
        lemma_holes_from(p, from + 1);
        let rest = holes_from(p, from + 1);
        let hs = holes_from(p, from);
        if hole_at(p, from) {
            assert(hs[0] == from);
            assert forall|k: int| 1 <= k < hs.len() implies hs[k] == rest[k - 1] by {}
            assert forall|i: int| from <= i && hole_at(p, i) implies hs.contains(i) by {
                if i > from {
                    assert(rest.contains(i));
                    let k = choose|k: int| 0 <= k < rest.len() && rest[k] == i;
                    assert(hs[k + 1] == i);
                }
            }
        } else {
            assert forall|i: int| from <= i && hole_at(p, i) implies hs.contains(i) by {
                assert(rest.contains(i));
            }
        }
    }
}

/// The first open position at or after `from` heads the list from `from`;
/// the list from behind it is the rest.
proof fn lemma_holes_step(p: Seq<char>, from: int, i: int)
    requires
        0 <= from <= i,
        hole_at(p, i),
        forall|j: int| from <= j < i ==> !hole_at(p, j),
    ensures
        holes_from(p, from) == seq![i] + holes_from(p, i + 1),
    decreases i - from,
{
    if from < i {
        lemma_holes_step(p, from + 1, i);
    }
}

/// With no open position at or after `from`, the list from `from` is empty.
proof fn lemma_holes_none(p: Seq<char>, from: int)
    requires
        0 <= from,
        forall|j: int| from <= j ==> !hole_at(p, j),
    ensures
        holes_from(p, from) == Seq::<int>::empty(),
    decreases p.len() - from,
{
    if from < p.len() {
        lemma_holes_none(p, from + 1);
    }
}

/// The offsets of the open positions of a text, ascending.
pub fn find_holes(chars: &Vec<char>) -> (r: Vec<usize>)
    ensures
        r@.len() == holes_from(chars@, 0).len(),
        forall|k: int| 0 <= k < r@.len() ==> r@[k] == holes_from(chars@, 0)[k],
{
    let ghost p = chars@;
    let n: usize = chars.len();
    let mut r: Vec<usize> = Vec::new();
    let mut from: usize = 0;
    loop
        invariant
            p == chars@,
            n == chars@.len(),
            from <= chars@.len(),
            holes_from(p, 0) == Seq::new(r@.len(), |k: int| r@[k] as int) + holes_from(p, from as int),
        decreases chars@.len() - from,
    {
        match find_hole(chars, from) {
            Some(i) => {
                proof {
                    lemma_holes_step(p, from as int, i as int);
                    let before = Seq::new(r@.len(), |k: int| r@[k] as int);
                    let after = Seq::new(r@.len() + 1, |k: int| r@.push(i)[k] as int);
                    assert(after =~= before + seq![i as int]);
                    assert(holes_from(p, 0) =~= after + holes_from(p, i + 1));
                }
                r.push(i);
                from = i + 1;
            },
            None => {
                proof {
                    lemma_holes_none(p, from as int);
                    let listed = Seq::new(r@.len(), |k: int| r@[k] as int);
                    assert(holes_from(p, 0) =~= listed);
                }
                return r;
            },
        }
    }
}

/// The state that `rule` makes of `state` at the open position `at`.
pub fn apply_rule(state: &State, at: usize, rule: Rule) -> (child: State)
    requires
        hole_at(state@.regexp, at as int),
        spans_anchored(state@.regexp, state@.parentheses),
        state@.cost < usize::MAX,
    ensures
        child@ == child_of(state@, at as int, rule),
        child@.wf(),
        spans_anchored(child@.regexp, child@.parentheses),
        spans_exact(state@.regexp, state@.parentheses) ==>
            spans_exact(child@.regexp, child@.parentheses),
        well_nested(state@.regexp) ==> well_nested(child@.regexp),
        has_anchors(state@.regexp) ==> has_anchors(child@.regexp),
        derived(state@) ==> derived(child@),
        sound_state(state@) ==> sound_state(child@),
{
    let chars: Vec<char> = to_chars(state.regexp.as_str());
    apply_at(state, &chars, at, rule)
}

/// [`apply_rule`] where the characters of the parent's text are at hand.
fn apply_at(state: &State, chars: &Vec<char>, at: usize, rule: Rule) -> (child: State)
    requires
        chars@ == state@.regexp,
        hole_at(state@.regexp, at as int),
        spans_anchored(state@.regexp, state@.parentheses),
        state@.cost < usize::MAX,
    ensures
        child@ == child_of(state@, at as int, rule),
        child@.wf(),
        spans_anchored(child@.regexp, child@.parentheses),
        spans_exact(state@.regexp, state@.parentheses) ==>
            spans_exact(child@.regexp, child@.parentheses),
        well_nested(state@.regexp) ==> well_nested(child@.regexp),
        has_anchors(state@.regexp) ==> has_anchors(child@.regexp),
        derived(state@) ==> derived(child@),
        sound_state(state@) ==> sound_state(child@),
{
    let ghost p = state@.regexp;
    let ghost e = edit_for(p, at as int, rule);
    let ghost old_spans = state@.parentheses;
    let in_place: bool = match rule {
        Rule::Branch => branch_at(chars, at),
        _ => false,
    };
    let text: &str = if in_place {
        splice_text()
    } else {
        rule.replacement()
    };
    let shift: usize = if in_place {
        SPLICE_SHIFT
    } else {
        rule.shift()
    };
    let backward: bool = if in_place {
        false
    } else {
        rule.backward()
    };
    assert(text@ == e.text && shift == e.shift && backward == e.backward);
    let regexp: String = splice(state.regexp.as_str(), at, text);
    let new_chars: Vec<char> = to_chars(regexp.as_str());
    let new_len: usize = new_chars.len();
    proof {
        lemma_edit_ok(p, at as int, rule);
        assert(new_len == spliced(p, at as int, e.text).len());
        lemma_movable(p, old_spans, at as int, e);
    }
    let mut spans: Vec<(usize, usize)> = copy_spans(&state.parentheses);
    update_parentheses(&mut spans, at, shift, backward);
    if !in_place {
        match rule {
            Rule::Star => {
                spans.push((at, at + 5));
            },
            Rule::Branch => {
                spans.push((at, at + 10));
            },
            _ => {},
        }
    }
    proof {
        assert(spans@ =~= spans_after(old_spans, at as int, e));
        lemma_anchored_after_edit(p, old_spans, at as int, e);
        if spans_exact(p, old_spans) {
            lemma_exact_after_edit(p, old_spans, at as int, e);
        }
        if well_nested(p) {
            lemma_nested_after_edit(p, at as int, rule);
        }
        if has_anchors(p) {
            lemma_anchors_after_edit(p, at as int, e.text);
        }
        if derived(state@) {
            lemma_child_derived(state@, at as int, rule);
        }
    }
    State::with_chars(state.cost + rule.cost(), regexp, &new_chars, spans)
}

/// The offsets in `v`, as integers.
pub open spec fn as_ints(v: Seq<usize>) -> Seq<int> {
    Seq::new(v.len(), |k: int| v[k] as int)
}

/// The offsets at which a text is extended.
fn points_of(chars: &Vec<char>, all_holes: bool) -> (r: Vec<usize>)
    ensures
        as_ints(r@) == extension_points(chars@, all_holes),
        forall|k: int| 0 <= k < r@.len() ==> hole_at(chars@, (#[trigger] r@[k]) as int),
{
    let ghost p = chars@;
    proof {
        lemma_holes_from(p, 0);
    }
    if all_holes {
        let r: Vec<usize> = find_holes(chars);
        assert(as_ints(r@) =~= holes_from(p, 0));
        assert forall|k: int| 0 <= k < r@.len() implies hole_at(p, (#[trigger] r@[k]) as int) by {
            assert(r@[k] == holes_from(p, 0)[k]);
        }
        r
    } else {
        let mut r: Vec<usize> = Vec::new();
        match find_hole(chars, 0) {
            Some(i) => {
                proof {
                    lemma_holes_step(p, 0, i as int);
                }
                r.push(i);
                assert(as_ints(r@) =~= seq![holes_from(p, 0)[0]]);
            },
            None => {
                proof {
                    lemma_holes_none(p, 0);
                }
                assert(as_ints(r@) =~= holes_from(p, 0));
            },
        }
        r
    }
}

/// The extension engine: every state that the rule table makes of `state`.
/// For each open position in turn (or for the first only), one state for each
/// rule in the order of the table: the text with the open position replaced,
/// the cost raised by the rule's, and the tracked groups moved, with the
/// group that the rule opens added behind them.
pub fn expand(state: &State, all_holes: bool) -> (r: Vec<State>)
    requires
        spans_anchored(state@.regexp, state@.parentheses),
        state@.cost < usize::MAX,
    ensures
        views(r@) == children_of(state@, all_holes),
        forall|n: int|
            0 <= n < r@.len() ==> {
                &&& (#[trigger] r@[n])@.wf()
                &&& r@[n]@.cost == state@.cost + 1
                &&& spans_anchored(r@[n]@.regexp, r@[n]@.parentheses)
                &&& spans_exact(state@.regexp, state@.parentheses) ==> spans_exact(
                    r@[n]@.regexp,
                    r@[n]@.parentheses,
                )
                &&& well_nested(state@.regexp) ==> well_nested(r@[n]@.regexp)
                &&& sound_state(state@) ==> sound_state(r@[n]@)
            },
{
    let chars: Vec<char> = to_chars(state.regexp.as_str());
    let points: Vec<usize> = points_of(&chars, all_holes);
    let ghost parent = state@;
    let ghost pts = extension_points(parent.regexp, all_holes);
    let mut out: Vec<State> = Vec::new();
    let mut i: usize = 0;
    while i < points.len()
        invariant
            parent == state@,
            chars@ == parent.regexp,
            pts == extension_points(parent.regexp, all_holes),
            as_ints(points@) == pts,
            forall|k: int| 0 <= k < points@.len() ==>
                hole_at(chars@, (#[trigger] points@[k]) as int),
            spans_anchored(parent.regexp, parent.parentheses),
            parent.cost < usize::MAX,
            i <= points@.len(),
            out@.len() == i * RULE_COUNT,
            forall|n: int|
                0 <= n < out@.len() ==> {
                    &&& (#[trigger] out@[n])@ == child_of(
                        parent,
                        pts[n / RULE_COUNT as int],
                        rule_table()[n % RULE_COUNT as int],
                    )
                    &&& out@[n]@.wf()
                    &&& spans_anchored(out@[n]@.regexp, out@[n]@.parentheses)
                    &&& spans_exact(parent.regexp, parent.parentheses) ==> spans_exact(
                        out@[n]@.regexp,
                        out@[n]@.parentheses,
                    )
                    &&& well_nested(parent.regexp) ==> well_nested(out@[n]@.regexp)
                    &&& sound_state(parent) ==> sound_state(out@[n]@)
                },
        decreases points@.len() - i,
    {
        let at: usize = points[i];
        assert(pts[i as int] == as_ints(points@)[i as int]);
        let mut k: usize = 0;
        while k < RULE_COUNT
            invariant
                parent == state@,
                chars@ == parent.regexp,
                hole_at(parent.regexp, at as int),
                spans_anchored(parent.regexp, parent.parentheses),
                parent.cost < usize::MAX,
                i < points@.len(),
                pts[i as int] == at,
                k <= RULE_COUNT,
                out@.len() == i * RULE_COUNT + k,
                forall|n: int|
                    0 <= n < out@.len() ==> {
                        &&& (#[trigger] out@[n])@ == child_of(
                            parent,
                            pts[n / RULE_COUNT as int],
                            rule_table()[n % RULE_COUNT as int],
                        )
                        &&& out@[n]@.wf()
                        &&& spans_anchored(out@[n]@.regexp, out@[n]@.parentheses)
                        &&& spans_exact(parent.regexp, parent.parentheses) ==> spans_exact(
                            out@[n]@.regexp,
                            out@[n]@.parentheses,
                        )
                        &&& well_nested(parent.regexp) ==> well_nested(out@[n]@.regexp)
                        &&& sound_state(parent) ==> sound_state(out@[n]@)
                    },
            decreases RULE_COUNT - k,
        {
            let child: State = apply_at(state, &chars, at, rule(k));
            let ghost m = out@.len() as int;
            assert(m / RULE_COUNT as int == i && m % RULE_COUNT as int == k);
            out.push(child);
            k += 1;
        }
        i += 1;
    }
    proof {
        assert(pts.len() == points@.len());
        assert(views(out@) =~= children_of(parent, all_holes));
    }
    out
}

/// A queue, the texts seen so far, and the states that were queued.
pub struct Offered {
    /// The worklist.
    pub queue: QueueView,
    /// The texts that were queued at some time.
    pub seen: Set<Seq<char>>,
    /// The states queued by the offers made, in order.
    pub taken: Seq<StateView>,
}

/// One state is offered: it is queued, and its text noted, unless its text was
/// seen before or the queue has no bucket for its cost.
pub open spec fn offer(o: Offered, c: StateView) -> Offered {
    if o.seen.contains(c.regexp) || c.cost >= o.queue.buckets.len() {
        o
    } else {
        Offered { queue: o.queue.after_push(c), seen: o.seen.insert(c.regexp), taken: o.taken.push(c) }
    }
}

/// The states of `cs` are offered one after the other.
pub open spec fn offer_all(o: Offered, cs: Seq<StateView>) -> Offered
    decreases cs.len(),
{
    if cs.len() == 0 {
        o
    } else {
        offer(offer_all(o, cs.drop_last()), cs.last())
    }
}

/// Where offering starts: nothing taken yet.
pub open spec fn offering(queue: QueueView, seen: Set<Seq<char>>) -> Offered {
    Offered { queue, seen, taken: Seq::empty() }
}

/// Offers one state to the worklist: it is queued, and its text noted in
/// `table`, unless its text is in `table` already or the queue has no bucket
/// for its cost. Says whether it was queued.
pub fn offer_state(pq: &mut Queue, table: &mut Visited, child: State) -> (taken: bool)
    requires
        old(pq)@.wf(),
    ensures
        final(pq)@.wf(),
        final(pq)@ == offer(offering(old(pq)@, old(table)@), child@).queue,
        final(table)@ == offer(offering(old(pq)@, old(table)@), child@).seen,
        taken == (offer(offering(old(pq)@, old(table)@), child@).taken.len() == 1),
{
    if table.contains(child.regexp.as_str()) || child.cost >= pq.capacity() {
        false
    } else {
        table.insert(child.regexp.clone());
        pq.push(child);
        true
    }
}

/// The states that extending `parent` puts into `queue`, in order.
pub open spec fn queued_by(
    queue: QueueView,
    seen: Set<Seq<char>>,
    parent: StateView,
    all_holes: bool,
) -> Seq<StateView> {
    offer_all(offering(queue, seen), children_of(parent, all_holes)).taken
}

/// Every state of `after` stands at the same place in `before` or is one of
/// `added`.
pub open spec fn grown_by(before: QueueView, after: QueueView, added: Seq<StateView>) -> bool {
    &&& after.buckets.len() == before.buckets.len()
    &&& forall|c: int, k: int|
        0 <= c < after.buckets.len() && 0 <= k < after.buckets[c].len() ==> (k < before.buckets[c].len()
            && (#[trigger] after.buckets[c][k]) == before.buckets[c][k]) || added.contains(
            after.buckets[c][k],
        )
}

/// What offers put into a queue are the states taken, and each state taken is
/// one of those offered or was taken before.
pub proof fn lemma_offer_all_grows(o: Offered, cs: Seq<StateView>)
    ensures
        grown_by(o.queue, offer_all(o, cs).queue, offer_all(o, cs).taken),
        forall|n: int|
            0 <= n < offer_all(o, cs).taken.len() ==> o.taken.contains(
                #[trigger] offer_all(o, cs).taken[n],
            ) || cs.contains(offer_all(o, cs).taken[n]),
    decreases cs.len(),
{
    if cs.len() > 0 {
        let before = offer_all(o, cs.drop_last());
        let c = cs.last();
        let after = offer(before, c);
        lemma_offer_all_grows(o, cs.drop_last());
        assert forall|n: int| 0 <= n < after.taken.len() implies o.taken.contains(#[trigger] after.taken[n])
            || cs.contains(after.taken[n]) by {
            if n < before.taken.len() {
                assert(after.taken[n] == before.taken[n]);
                if cs.drop_last().contains(before.taken[n]) {
                    let j = choose|j: int| 0 <= j < cs.drop_last().len() && cs.drop_last()[j] == before.taken[n];
                    assert(cs[j] == before.taken[n]);
                }
            } else {
                assert(cs[cs.len() - 1] == c);
            }
        }
        assert forall|b: int, k: int| 0 <= b < after.queue.buckets.len()
            && 0 <= k < after.queue.buckets[b].len() implies (k < o.queue.buckets[b].len()
            && (#[trigger] after.queue.buckets[b][k]) == o.queue.buckets[b][k]) || after.taken.contains(
            after.queue.buckets[b][k],
        ) by {
            if after.queue != before.queue && b == c.cost && k == before.queue.buckets[b].len() {
                assert(after.taken[before.taken.len() as int] == c);
            } else {
                assert(after.queue.buckets[b][k] == before.queue.buckets[b][k]);
                if before.taken.contains(before.queue.buckets[b][k]) {
                    let j = choose|j: int| 0 <= j < before.taken.len() && before.taken[j]
                        == before.queue.buckets[b][k];
                    assert(after.taken[j] == before.taken[j]);
                }
            }
        }
    } else {
        assert forall|n: int| 0 <= n < o.taken.len() implies o.taken.contains(#[trigger] o.taken[n]) by {}
    }
}

/// Extends `state` and queues what is new: each state that [`expand`] makes of
/// it, in order, enters the queue and has its text noted in `table`, unless
/// its text is in `table` already or the queue has no bucket for its cost.
/// Where the tracked groups of `state` are the groups of its text, so are
/// those of every state that is queued.
pub fn extend(pq: &mut Queue, state: &State, table: &mut Visited, all_holes: bool)
    requires
        old(pq)@.wf(),
        spans_anchored(state@.regexp, state@.parentheses),
        state@.cost < usize::MAX,
    ensures
        final(pq)@.wf(),
        final(pq)@ == offer_all(offering(old(pq)@, old(table)@), children_of(state@, all_holes)).queue,
        final(table)@ == offer_all(offering(old(pq)@, old(table)@), children_of(state@, all_holes)).seen,
        grown_by(old(pq)@, final(pq)@, queued_by(old(pq)@, old(table)@, state@, all_holes)),
        forall|n: int|
            0 <= n < queued_by(old(pq)@, old(table)@, state@, all_holes).len() ==> {
                let c = #[trigger] queued_by(old(pq)@, old(table)@, state@, all_holes)[n];
                &&& c.cost == state@.cost + 1
                &&& spans_anchored(c.regexp, c.parentheses)
                &&& spans_exact(state@.regexp, state@.parentheses) ==> spans_exact(c.regexp, c.parentheses)
            },
        sound_queue(old(pq)@) && sound_state(state@) ==> sound_queue(final(pq)@),
{
    let children: Vec<State> = expand(state, all_holes);
    let ghost kids = children@;
    let ghost cs = children_of(state@, all_holes);
    proof {
        lemma_offer_all_grows(offering(pq@, table@), cs);
        let added = queued_by(pq@, table@, state@, all_holes);
        assert forall|n: int| 0 <= n < added.len() implies {
            let c = #[trigger] added[n];
            &&& c.cost == state@.cost + 1
            &&& spans_anchored(c.regexp, c.parentheses)
            &&& spans_exact(state@.regexp, state@.parentheses) ==> spans_exact(c.regexp, c.parentheses)
        } by {
            assert(cs.contains(added[n]));
            let j = choose|j: int| 0 <= j < cs.len() && cs[j] == added[n];
            assert(cs[j] == kids[j]@);
        }
    }
    let ghost start = offering(pq@, table@);
    let ghost mut taken: Seq<StateView> = Seq::empty();
    proof {
        broadcast use vstd::std_specs::vec::axiom_spec_into_iter;

    }
    for child in it: children
        invariant
            it.seq() == children@,
            views(children@) == cs,
            start == offering(old(pq)@, old(table)@),
            pq@.wf(),
            offer_all(start, cs.take(it.index())) == (Offered { queue: pq@, seen: table@, taken }),
            forall|n: int|
                0 <= n < children@.len() ==> (#[trigger] children@[n])@.wf() && (spans_exact(
                    state@.regexp,
                    state@.parentheses,
                ) ==> spans_exact(children@[n]@.regexp, children@[n]@.parentheses)) && (well_nested(
                    state@.regexp,
                ) ==> well_nested(children@[n]@.regexp)) && (sound_state(state@) ==> sound_state(
                    children@[n]@,
                )),
            sound_queue(old(pq)@) && sound_state(state@) ==> sound_queue(pq@),
    {
        let ghost k = it.index();
        let ghost before = Offered { queue: pq@, seen: table@, taken };
        proof {
            assert(cs.take(k + 1).drop_last() =~= cs.take(k));
            assert(cs.take(k + 1).last() == child@);
        }
        offer_state(pq, table, child);
        proof {
            let o = offer(before, child@);
            taken = o.taken;
            if sound_queue(old(pq)@) && sound_state(state@) {
                assert(sound_state(child@));
                lemma_offer_sound(before, child@);
            }
        }
    }
    proof {
        assert(cs.take(cs.len() as int) =~= cs);
    }
}

/// The texts of a list of states.
pub open spec fn patterns(states: Seq<StateView>) -> Seq<Seq<char>> {
    Seq::new(states.len(), |k: int| states[k].regexp)
}

/// `history` lists the members of `seen`, each once.
pub open spec fn listed_once(seen: Set<Seq<char>>, history: Seq<Seq<char>>) -> bool {
    &&& history.no_duplicates()
    &&& forall|x: Seq<char>| seen.contains(x) <==> history.contains(x)
}

/// What holds of every state of a search. The state is made of the seed by
/// as many edits as it costs. Its text starts with `^` and ends with `$` and
/// is well nested, its tracked groups are the groups of its text, and its
/// leaf flag says what its text says.
pub open spec fn sound_state(s: StateView) -> bool {
    &&& s.wf()
    &&& derived(s)
    &&& has_anchors(s.regexp)
    &&& well_nested(s.regexp)
    &&& spans_exact(s.regexp, s.parentheses)
}

/// Every state in the queue is sound.
pub open spec fn sound_queue(q: QueueView) -> bool {
    forall|c: int, k: int|
        0 <= c < q.buckets.len() && 0 <= k < q.buckets[c].len() ==>
            sound_state(#[trigger] q.buckets[c][k])
}

/// Offering a sound state to a queue of sound states leaves every state in
/// the queue sound.
pub proof fn lemma_offer_sound(o: Offered, c: StateView)
    requires
        sound_queue(o.queue),
        sound_state(c),
    ensures
        sound_queue(offer(o, c).queue),
{
    let q0 = o.queue;
    let q1 = offer(o, c).queue;
    assert forall|b: int, j: int| 0 <= b < q1.buckets.len()
        && 0 <= j < q1.buckets[b].len() implies sound_state(#[trigger] q1.buckets[b][j]) by {
        if q1 != q0 {
            if b == c.cost && j == q0.buckets[b].len() {
            } else {
                assert(q1.buckets[b][j] == q0.buckets[b][j]);
            }
        }
    }
}

/// Offering states of one cost to a well-formed worklist leaves it well
/// formed. Its place stays, and so does every bucket of another cost.
pub proof fn lemma_offer_all_queue(o: Offered, cs: Seq<StateView>, cost: nat)
    requires
        o.queue.wf(),
        forall|n: int| 0 <= n < cs.len() ==> (#[trigger] cs[n]).cost == cost,
    ensures
        offer_all(o, cs).queue.wf(),
        offer_all(o, cs).queue.cost == o.queue.cost,
        offer_all(o, cs).queue.index == o.queue.index,
        offer_all(o, cs).queue.buckets.len() == o.queue.buckets.len(),
        forall|b: int|
            0 <= b < o.queue.buckets.len() && b != cost ==>
                offer_all(o, cs).queue.buckets[b] == o.queue.buckets[b],
    decreases cs.len(),
{
    if cs.len() > 0 {
        let before = offer_all(o, cs.drop_last());
        let c = cs.last();
        assert forall|n: int| 0 <= n < cs.drop_last().len() implies
            (#[trigger] cs.drop_last()[n]).cost == cost by {
            assert(cs.drop_last()[n] == cs[n]);
        }
        lemma_offer_all_queue(o, cs.drop_last(), cost);
        let q0 = before.queue;
        let q1 = offer(before, c).queue;
        if q1 != q0 {
            assert forall|b: int, j: int| 0 <= b < q1.buckets.len()
                && 0 <= j < q1.buckets[b].len() implies (#[trigger] q1.buckets[b][j]).cost
                == b by {
                if b == c.cost && j == q0.buckets[b].len() {
                } else {
                    assert(q1.buckets[b][j] == q0.buckets[b][j]);
                }
            }
        }
    }
}

/// No text is queued twice: where `history` lists, each once, the texts seen
/// before the offers, it does so again after them with the texts of the
/// states taken added.
pub proof fn lemma_offer_all_once(o: Offered, cs: Seq<StateView>, history: Seq<Seq<char>>)
    requires
        listed_once(o.seen, history + patterns(o.taken)),
    ensures
        listed_once(offer_all(o, cs).seen, history + patterns(offer_all(o, cs).taken)),
    decreases cs.len(),
{
    if cs.len() > 0 {
        let before = offer_all(o, cs.drop_last());
        let c = cs.last();
        lemma_offer_all_once(o, cs.drop_last(), history);
        let after = offer(before, c);
        if !(before.seen.contains(c.regexp) || c.cost >= before.queue.buckets.len()) {
            let h0 = history + patterns(before.taken);
            let h1 = history + patterns(after.taken);
            assert(h1 =~= h0.push(c.regexp));
            assert(!h0.contains(c.regexp));
            assert forall|x: Seq<char>| after.seen.contains(x) <==> h1.contains(x) by {
                if h1.contains(x) {
                    let j = choose|j: int| 0 <= j < h1.len() && h1[j] == x;
                    if j < h0.len() {
                        assert(h0[j] == x);
                        assert(h0.contains(x));
                    }
                }
                if after.seen.contains(x) {
                    if x == c.regexp {
                        assert(h1[h0.len() as int] == x);
                    } else {
                        assert(h0.contains(x));
                        let j = choose|j: int| 0 <= j < h0.len() && h0[j] == x;
                        assert(h1[j] == x);
                    }
                }
            }
            assert forall|i: int, j: int| 0 <= i < h1.len() && 0 <= j < h1.len() && i != j implies
                h1[i] != h1[j] by {
                if i < h0.len() && j < h0.len() {
                    assert(h0[i] != h0[j]);
                } else if i < h0.len() {
                    assert(h0.contains(h0[i]));
                } else {
                    assert(h0.contains(h0[j]));
                }
            }
        }
    }
}

/// The states made of a state cost one more than it.
pub proof fn lemma_children_cost(parent: StateView, all_holes: bool)
    ensures
        forall|n: int|
            0 <= n < children_of(parent, all_holes).len() ==>
                (#[trigger] children_of(parent, all_holes)[n]).cost
                == parent.cost + 1,
{
}

} // verus!
