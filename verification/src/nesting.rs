//! Patterns whose parentheses are balanced and whose every `|` stands inside a
//! group. The seed is such a pattern and every edit keeps it one, so that an
//! open position that is a branch of an alternation always lies inside a
//! tracked group.
use vstd::prelude::*;
use crate::edit::{
    child_of, closed_text, edit_for, lemma_depth_before, lemma_depth_behind, lemma_depth_flat,
    lemma_depth_within, lemma_edit_ok, lemma_exact_after_edit,
};
use crate::state::StateView;
use crate::rules::Rule;
use crate::spans::{depth, inside_alternation, is_group, lists, paren_step, spans_exact};
use crate::text::{has_hole, hole_at, spliced};

verus! {

/// Every `|` of `p` stands inside a group.
pub open spec fn bars_enclosed(p: Seq<char>) -> bool {
    forall|k: int| 0 <= k < p.len() && #[trigger] p[k] == '|' ==> depth(p, k) >= 1
}

/// The parentheses of `p` are balanced and every `|` stands inside a group.
pub open spec fn well_nested(p: Seq<char>) -> bool {
    closed_text(p) && bars_enclosed(p)
}

/// Some tracked group encloses the offset `i`.
pub open spec fn enclosed(spans: Seq<(usize, usize)>, i: int) -> bool {
    exists|k: int| 0 <= k < spans.len() && (#[trigger] spans[k]).0 < i < spans[k].1
}

/// In a balanced text, an open position that is a branch of an alternation
/// stands at a depth of one or more.
pub proof fn lemma_branch_depth(p: Seq<char>, i: int)
    requires
        well_nested(p),
        inside_alternation(p, i),
    ensures
        depth(p, i) >= 1,
{
    assert(depth(p, i) == depth(p, i - 1) + paren_step(p[i - 1]));
    assert(depth(p, i - 1) >= 0);
}

/// An edit of a well-nested pattern at an open position gives a well-nested
/// pattern.
pub proof fn lemma_nested_after_edit(p: Seq<char>, i: int, rule: Rule)
    requires
        hole_at(p, i),
        well_nested(p),
    ensures
        well_nested(spliced(p, i, edit_for(p, i, rule).text)),
{
    let e = edit_for(p, i, rule);
    let r = e.text;
    let q = spliced(p, i, r);
    let m = r.len() as int;
    lemma_edit_ok(p, i, rule);
    assert forall|k: int| 0 <= k <= q.len() implies #[trigger] depth(q, k) >= 0 by {
        if k <= i {
            lemma_depth_before(p, i, r, k);
        } else if k < i + m {
            lemma_depth_within(p, i, r, k - i);
            assert(depth(p, i) >= 0);
            assert(depth(r, k - i) >= 0);
        } else {
            lemma_depth_behind(p, i, r, k - m + 4);
            assert(depth(p, k - m + 4) >= 0);
        }
    }
    lemma_depth_behind(p, i, r, p.len() as int);
    assert forall|k: int| 0 <= k < q.len() && #[trigger] q[k] == '|' implies depth(q, k) >= 1 by {
        if k < i {
            lemma_depth_before(p, i, r, k);
            assert(p[k] == '|');
        } else if k < i + m {
            lemma_depth_within(p, i, r, k - i);
            assert(r[k - i] == '|');
            assert(depth(p, i) >= 0);
            if rule == Rule::Branch && inside_alternation(p, i) {
                lemma_branch_depth(p, i);
                assert(depth(r, k - i) >= 0);
            } else {
                match rule {
                    Rule::Branch => {
                        assert(k - i == 5);
                        assert(depth(r, 1) == depth(r, 0) + paren_step(r[0]));
                        lemma_depth_flat(r, 1, 4);
                    },
                    _ => {},
                }
            }
        } else {
            lemma_depth_behind(p, i, r, k - m + 4);
            assert(p[k - m + 4] == '|');
        }
    }
}

/// In a text whose depth is never negative, each depth below that at `i`
/// belongs to a parenthesis that was opened before `i` and is still open
/// there.
pub proof fn lemma_open_level(p: Seq<char>, i: int, d: int) -> (s: int)
    requires
        0 <= i <= p.len(),
        0 <= d < depth(p, i),
    ensures
        0 <= s < i,
        p[s] == '(',
        depth(p, s) == d,
        forall|k: int| s < k <= i ==> #[trigger] depth(p, k) > d,
    decreases i,
{
    if p[i - 1] == '(' && depth(p, i - 1) == d {
        i - 1
    } else {
        lemma_open_level(p, i - 1, d)
    }
}

/// In a balanced text, a parenthesis that is open at `i` is closed at or
/// behind `i`.
pub proof fn lemma_closed_later(p: Seq<char>, s: int, i: int) -> (e: int)
    requires
        closed_text(p),
        0 <= s < i <= p.len(),
        p[s] == '(',
        0 <= depth(p, s),
        forall|k: int| s < k <= i ==> #[trigger] depth(p, k) > depth(p, s),
    ensures
        i <= e,
        is_group(p, s, e),
    decreases p.len() - i,
{
    assert(depth(p, p.len() as int) == 0);
    assert(i < p.len());
    assert(depth(p, i + 1) == depth(p, i) + paren_step(p[i]));
    if depth(p, i + 1) > depth(p, s) {
        lemma_closed_later(p, s, i + 1)
    } else {
        i
    }
}

/// In a well-nested pattern whose tracked groups are exact, an open position
/// that is a branch of an alternation lies inside a tracked group.
pub proof fn lemma_branch_enclosed(p: Seq<char>, spans: Seq<(usize, usize)>, i: int)
    requires
        well_nested(p),
        spans_exact(p, spans),
        inside_alternation(p, i),
    ensures
        enclosed(spans, i),
{
    lemma_branch_depth(p, i);
    let s = lemma_open_level(p, i, depth(p, i) - 1);
    let e = lemma_closed_later(p, s, i);
    assert(lists(spans, s, e));
    let k = choose|k: int| 0 <= k < spans.len() && spans[k].0 == s && spans[k].1 == e;
    assert(spans[k].0 < i < spans[k].1);
}

/// The state after the edits `steps`, each an offset and a rule, were made to
/// `s` one after the other.
pub open spec fn edited(s: StateView, steps: Seq<(int, Rule)>) -> StateView
    decreases steps.len(),
{
    if steps.len() == 0 {
        s
    } else {
        child_of(edited(s, steps.drop_last()), steps.last().0, steps.last().1)
    }
}

/// Each of the edits `steps` is made at an open position of the text that it
/// finds, and gives a text that offsets of type `usize` can address.
pub open spec fn edits_apply(s: StateView, steps: Seq<(int, Rule)>) -> bool
    decreases steps.len(),
{
    steps.len() == 0 || {
        &&& edits_apply(s, steps.drop_last())
        &&& hole_at(edited(s, steps.drop_last()).regexp, steps.last().0)
        &&& edited(s, steps).regexp.len() <= usize::MAX
    }
}

/// After any sequence of edits the tracked groups are the groups of the
/// text, if they were before, and the text is well nested, if it was before.
/// No edit lowers the cost.
pub proof fn lemma_exact_after_edits(s: StateView, steps: Seq<(int, Rule)>)
    requires
        edits_apply(s, steps),
    ensures
        spans_exact(s.regexp, s.parentheses) ==> spans_exact(
            edited(s, steps).regexp,
            edited(s, steps).parentheses,
        ),
        well_nested(s.regexp) ==> well_nested(edited(s, steps).regexp),
        s.cost <= edited(s, steps).cost,
    decreases steps.len(),
{
    if steps.len() > 0 {
        let before = edited(s, steps.drop_last());
        let i = steps.last().0;
        let rule = steps.last().1;
        lemma_exact_after_edits(s, steps.drop_last());
        lemma_edit_ok(before.regexp, i, rule);
        if spans_exact(s.regexp, s.parentheses) {
            lemma_exact_after_edit(before.regexp, before.parentheses, i, edit_for(before.regexp, i, rule));
        }
        if well_nested(s.regexp) {
            lemma_nested_after_edit(before.regexp, i, rule);
        }
    }
}

/// The text starts with `^` and ends with `$`.
pub open spec fn has_anchors(p: Seq<char>) -> bool {
    p.len() >= 2 && p[0] == '^' && p[p.len() - 1] == '$'
}

/// An edit at an open position leaves the two anchors of a text where they
/// are.
pub proof fn lemma_anchors_after_edit(p: Seq<char>, i: int, r: Seq<char>)
    requires
        has_anchors(p),
        hole_at(p, i),
    ensures
        has_anchors(spliced(p, i, r)),
        1 <= i,
        i + 4 < p.len(),
{
    let q = spliced(p, i, r);
    assert(q[0] == p[0]);
    assert(q[q.len() - 1] == p[p.len() - 1]);
}

/// The text `^\x00$` from which every search starts: one open position
/// between the two anchors.
pub open spec fn seed_text() -> Seq<char> {
    seq!['^', '\\', 'x', '0', '0', '$']
}

/// The state from which every search starts.
pub open spec fn seed() -> StateView {
    StateView { cost: 0, regexp: seed_text(), is_leaf: false, parentheses: Seq::empty() }
}

/// The edits `steps` make `s` of the seed, and `s` costs one for each of
/// them.
pub open spec fn derives(steps: Seq<(int, Rule)>, s: StateView) -> bool {
    &&& edits_apply(seed(), steps)
    &&& edited(seed(), steps) == s
    &&& s.cost == steps.len()
}

/// The state is made of the seed by as many edits as it costs.
pub open spec fn derived(s: StateView) -> bool {
    exists|steps: Seq<(int, Rule)>| derives(steps, s)
}

/// The cost of a state counts the edits made to it.
pub proof fn lemma_cost_counts_edits(s: StateView, steps: Seq<(int, Rule)>)
    ensures
        edited(s, steps).cost == s.cost + steps.len(),
    decreases steps.len(),
{
    if steps.len() > 0 {
        lemma_cost_counts_edits(s, steps.drop_last());
    }
}

/// The seed is made of itself by no edit.
pub proof fn lemma_seed_derived()
    ensures
        derived(seed()),
        has_anchors(seed_text()),
        hole_at(seed_text(), 1),
{
    assert(derives(Seq::<(int, Rule)>::empty(), seed()));
}

/// What a rule makes of a derived state at an open position is derived, if
/// offsets of type `usize` can address its text.
pub proof fn lemma_child_derived(parent: StateView, i: int, rule: Rule)
    requires
        derived(parent),
        hole_at(parent.regexp, i),
        child_of(parent, i, rule).regexp.len() <= usize::MAX,
    ensures
        derived(child_of(parent, i, rule)),
{
    let steps = choose|steps: Seq<(int, Rule)>| derives(steps, parent);
    let more = steps.push((i, rule));
    assert(more.drop_last() =~= steps);
    assert(more.last() == (i, rule));
    assert(edited(seed(), more) == child_of(parent, i, rule));
    assert(derives(more, child_of(parent, i, rule)));
}

/// After any sequence of edits a text that has its two anchors has them
/// still.
pub proof fn lemma_anchors_after_edits(s: StateView, steps: Seq<(int, Rule)>)
    requires
        edits_apply(s, steps),
        has_anchors(s.regexp),
    ensures
        has_anchors(edited(s, steps).regexp),
    decreases steps.len(),
{
    if steps.len() > 0 {
        let before = edited(s, steps.drop_last());
        lemma_anchors_after_edits(s, steps.drop_last());
        lemma_anchors_after_edit(
            before.regexp,
            steps.last().0,
            edit_for(before.regexp, steps.last().0, steps.last().1).text,
        );
    }
}

/// The leaf flag of an edited state says what its text says.
pub proof fn lemma_leaf_after_edits(s: StateView, steps: Seq<(int, Rule)>)
    requires
        s.wf(),
    ensures
        edited(s, steps).wf(),
    decreases steps.len(),
{
    if steps.len() > 0 {
        lemma_leaf_after_edits(s, steps.drop_last());
    }
}

/// A derived state has its two anchors, is well nested, tracks exactly the
/// groups of its text, and has a leaf flag that says what its text says.
pub proof fn lemma_derived_sound(s: StateView)
    requires
        derived(s),
    ensures
        s.wf(),
        has_anchors(s.regexp),
        well_nested(s.regexp),
        spans_exact(s.regexp, s.parentheses),
{
    let steps = choose|steps: Seq<(int, Rule)>| derives(steps, s);
    lemma_seed_derived();
    crate::edit::lemma_flat_text(seed_text());
    lemma_exact_after_edits(seed(), steps);
    lemma_anchors_after_edits(seed(), steps);
    assert(has_hole(seed_text()));
    lemma_leaf_after_edits(seed(), steps);
}

} // verus!
