//! One edit of a pattern: an open position replaced by the text of a rule.
//! What the edit does to the text, to the cost and to the tracked groups, and
//! the proof that tracked groups stay exact.
use vstd::prelude::*;
use crate::rules::{branch_splice, Rule, SPLICE_SHIFT};
use crate::spans::{
    depth, inside_alternation, is_group, lists, moved, paren_step, spans_exact, spans_movable,
};
use crate::state::StateView;
use crate::text::{has_hole, hole_at, spliced};

verus! {

/// What replaces an open position, and what that does to offsets.
pub struct Edit {
    /// The text that takes the place of the four characters.
    pub text: Seq<char>,
    /// By how many characters the text behind moves.
    pub shift: nat,
    /// Whether it moves towards the start.
    pub backward: bool,
    /// Offset within `text` of the parenthesis closing the group that `text`
    /// opens with, if it opens one.
    pub group_close: Option<int>,
}

/// The edit by which `rule` replaces the open position at `i` of `p`. A branch
/// rule at a position that is itself a whole branch of an alternation adds a
/// branch to that alternation; every other rule puts in its replacement.
pub open spec fn edit_for(p: Seq<char>, i: int, rule: Rule) -> Edit {
    if rule == Rule::Branch && inside_alternation(p, i) {
        Edit { text: branch_splice(), shift: SPLICE_SHIFT as nat, backward: false, group_close: None }
    } else {
        Edit {
            text: rule.replacement_text(),
            shift: rule.shift_amount(),
            backward: rule.shifts_backward(),
            group_close: rule.group_close(),
        }
    }
}

/// The tracked groups after the edit `e` at `i`: every offset behind `i`
/// moved, and after them the group that the edit opens, if any.
pub open spec fn spans_after(spans: Seq<(usize, usize)>, i: int, e: Edit) -> Seq<(usize, usize)> {
    let kept = Seq::new(
        spans.len(),
        |k: int|
            (
                moved(spans[k].0 as int, i, e.shift as int, e.backward) as usize,
                moved(spans[k].1 as int, i, e.shift as int, e.backward) as usize,
            ),
    );
    match e.group_close {
        Some(c) => kept.push((i as usize, (i + c) as usize)),
        None => kept,
    }
}

/// The state that `rule` makes of `parent` at the open position `i`.
pub open spec fn child_of(parent: StateView, i: int, rule: Rule) -> StateView {
    let e = edit_for(parent.regexp, i, rule);
    let text = spliced(parent.regexp, i, e.text);
    StateView {
        cost: parent.cost + rule.cost_delta(),
        regexp: text,
        is_leaf: !has_hole(text),
        parentheses: spans_after(parent.parentheses, i, e),
    }
}

/// Every tracked pair points at an opening and a closing parenthesis of `p`.
pub open spec fn spans_anchored(p: Seq<char>, spans: Seq<(usize, usize)>) -> bool {
    forall|k: int|
        0 <= k < spans.len() ==> {
            &&& (#[trigger] spans[k]).0 < spans[k].1 < p.len()
            &&& p[spans[k].0 as int] == '('
            &&& p[spans[k].1 as int] == ')'
        }
}

/// The parentheses of `t` are balanced.
pub open spec fn closed_text(t: Seq<char>) -> bool {
    &&& depth(t, t.len() as int) == 0
    &&& forall|k: int| 0 <= k <= t.len() ==> #[trigger] depth(t, k) >= 0
}

/// The edit is consistent: its shift is the change in length, its text is
/// balanced, and the one group of its text, if any, is the one it names.
pub open spec fn edit_ok(e: Edit) -> bool {
    &&& e.text.len() == moved(4, 0, e.shift as int, e.backward)
    &&& closed_text(e.text)
    &&& forall|a: int, b: int| #[trigger]
        is_group(e.text, a, b) <==> (a == 0 && e.group_close == Some(b))
}

/// Two texts that agree on a stretch gain the same depth over it.
pub proof fn lemma_depth_window(a: Seq<char>, sa: int, b: Seq<char>, sb: int, n: int)
    requires
        0 <= sa,
        0 <= sb,
        0 <= n,
        forall|j: int| sa <= j < sa + n ==> #[trigger] a[j] == b[j - sa + sb],
    ensures
        depth(a, sa + n) - depth(a, sa) == depth(b, sb + n) - depth(b, sb),
    decreases n,
{
    if n > 0 {
        lemma_depth_window(a, sa, b, sb, n - 1);
        assert(a[sa + n - 1] == b[sa + n - 1 - sa + sb]);
    }
}

/// A stretch without parentheses keeps the depth.
pub proof fn lemma_depth_flat(a: Seq<char>, from: int, n: int)
    requires
        0 <= from,
        0 <= n,
        forall|j: int| from <= j < from + n ==> a[j] != '(' && a[j] != ')',
    ensures
        depth(a, from + n) == depth(a, from),
    decreases n,
{
    if n > 0 {
        lemma_depth_flat(a, from, n - 1);
    }
}

/// Before the edit the depth is that of the old text.
pub proof fn lemma_depth_before(p: Seq<char>, i: int, r: Seq<char>, k: int)
    requires
        hole_at(p, i),
        0 <= k <= i,
    ensures
        depth(spliced(p, i, r), k) == depth(p, k),
{
    let q = spliced(p, i, r);
    assert forall|j: int| 0 <= j < 0 + k implies #[trigger] q[j] == p[j - 0 + 0] by {}
    lemma_depth_window(q, 0, p, 0, k);
}

/// Within the new text the depth is that at the edit plus that of the new
/// text.
pub proof fn lemma_depth_within(p: Seq<char>, i: int, r: Seq<char>, k: int)
    requires
        hole_at(p, i),
        0 <= k <= r.len(),
    ensures
        depth(spliced(p, i, r), i + k) == depth(p, i) + depth(r, k),
{
    let q = spliced(p, i, r);
    lemma_depth_before(p, i, r, i);
    assert forall|j: int| i <= j < i + k implies #[trigger] q[j] == r[j - i + 0] by {}
    lemma_depth_window(q, i, r, 0, k);
}

/// Across an open position the depth does not change.
pub proof fn lemma_depth_hole(p: Seq<char>, i: int, k: int)
    requires
        hole_at(p, i),
        i <= k <= i + 4,
    ensures
        depth(p, k) == depth(p, i),
{
    lemma_depth_flat(p, i, k - i);
}

/// Behind the edit the depth is that of the old text at the place that moved
/// there, plus what the new text adds.
pub proof fn lemma_depth_behind(p: Seq<char>, i: int, r: Seq<char>, k: int)
    requires
        hole_at(p, i),
        i + 4 <= k <= p.len(),
    ensures
        depth(spliced(p, i, r), k + r.len() - 4) == depth(p, k) + depth(r, r.len() as int),
{
    let q = spliced(p, i, r);
    let m = r.len() as int;
    lemma_depth_within(p, i, r, m);
    lemma_depth_hole(p, i, i + 4);
    assert forall|j: int| i + m <= j < (i + m) + (k - (i + 4)) implies
        #[trigger] q[j] == p[j - (i + m) + (i + 4)] by {}
    lemma_depth_window(q, i + m, p, i + 4, k - (i + 4));
}

/// Where an offset of the old text stands in the new text.
pub open spec fn carried(b: int, i: int, r: Seq<char>) -> int {
    if b > i {
        b + r.len() - 4
    } else {
        b
    }
}

/// A group of the old text is a group of the new text, at the offsets that
/// its parentheses moved to.
pub proof fn lemma_group_carried(p: Seq<char>, i: int, r: Seq<char>, s: int, e: int)
    requires
        hole_at(p, i),
        closed_text(r),
        is_group(p, s, e),
    ensures
        is_group(spliced(p, i, r), carried(s, i, r), carried(e, i, r)),
{
    let q = spliced(p, i, r);
    let m = r.len() as int;
    let d = m - 4;
    let s2 = carried(s, i, r);
    let e2 = carried(e, i, r);
    assert(s < i || s >= i + 4);
    assert(e < i || e >= i + 4);
    assert(q[s2] == '(' && q[e2] == ')');
    if s < i {
        lemma_depth_before(p, i, r, s);
    } else {
        lemma_depth_behind(p, i, r, s);
    }
    if e < i {
        lemma_depth_before(p, i, r, e + 1);
    } else {
        lemma_depth_behind(p, i, r, e + 1);
    }
    assert forall|k: int| s2 < k <= e2 implies #[trigger] depth(q, k) > depth(q, s2) by {
        if k <= i {
            lemma_depth_before(p, i, r, k);
            assert(depth(p, k) > depth(p, s));
        } else if k < i + m {
            lemma_depth_within(p, i, r, k - i);
            assert(depth(r, k - i) >= 0);
            assert(s < i);
            assert(depth(p, i) > depth(p, s));
        } else {
            lemma_depth_behind(p, i, r, k - d);
            if s < i {
                assert(depth(p, k - d) > depth(p, s));
            } else {
                assert(depth(p, k - d) > depth(p, s));
            }
        }
    }
}

/// A group of the new text is a group of the text put in, or a group of the
/// old text carried over.
pub proof fn lemma_group_origin(p: Seq<char>, i: int, r: Seq<char>, s2: int, e2: int)
    requires
        hole_at(p, i),
        closed_text(r),
        is_group(spliced(p, i, r), s2, e2),
    ensures
        (i <= s2 && e2 < i + r.len() && is_group(r, s2 - i, e2 - i)) || (exists|s: int, e: int|
            #[trigger] is_group(p, s, e) && s2 == carried(s, i, r) && e2 == carried(e, i, r)),
{
    let q = spliced(p, i, r);
    let m = r.len() as int;
    let d = m - 4;
    if s2 >= i && s2 < i + m {
        lemma_depth_within(p, i, r, s2 - i);
        if e2 >= i + m {
            lemma_depth_within(p, i, r, m);
            assert(depth(q, i + m) > depth(q, s2));
            assert(false);
        }
        lemma_depth_within(p, i, r, e2 + 1 - i);
        assert(q[s2] == r[s2 - i] && q[e2] == r[e2 - i]);
        assert forall|k: int| s2 - i < k <= e2 - i implies
            #[trigger] depth(r, k) > depth(r, s2 - i) by {
            lemma_depth_within(p, i, r, k);
            assert(depth(q, i + k) > depth(q, s2));
        }
        assert(is_group(r, s2 - i, e2 - i));
    } else {
        let s = if s2 < i { s2 } else { s2 - d };
        if s2 < i {
            lemma_depth_before(p, i, r, s2);
        } else {
            lemma_depth_behind(p, i, r, s);
        }
        if e2 >= i && e2 < i + m {
            lemma_depth_within(p, i, r, e2 + 1 - i);
            lemma_depth_before(p, i, r, i);
            assert(depth(r, e2 + 1 - i) >= 0);
            assert(depth(q, i) > depth(q, s2));
            assert(false);
        }
        let e = if e2 < i { e2 } else { e2 - d };
        if e2 < i {
            lemma_depth_before(p, i, r, e2 + 1);
        } else {
            lemma_depth_behind(p, i, r, e + 1);
        }
        assert(p[s] == q[s2] && p[e] == q[e2]);
        assert forall|k: int| s < k <= e implies #[trigger] depth(p, k) > depth(p, s) by {
            if k <= i {
                lemma_depth_before(p, i, r, k);
                assert(depth(q, k) > depth(q, s2));
            } else if k < i + 4 {
                lemma_depth_hole(p, i, k);
                lemma_depth_before(p, i, r, i);
                assert(depth(q, i) > depth(q, s2));
            } else {
                lemma_depth_behind(p, i, r, k);
                assert(depth(q, k + d) > depth(q, s2));
            }
        }
        assert(is_group(p, s, e));
        assert(s2 == carried(s, i, r) && e2 == carried(e, i, r));
    }
}

/// A group of the text put in is a group of the new text.
pub proof fn lemma_group_put_in(p: Seq<char>, i: int, r: Seq<char>, a: int, b: int)
    requires
        hole_at(p, i),
        is_group(r, a, b),
    ensures
        is_group(spliced(p, i, r), i + a, i + b),
{
    let q = spliced(p, i, r);
    lemma_depth_within(p, i, r, a);
    lemma_depth_within(p, i, r, b + 1);
    assert(q[i + a] == r[a] && q[i + b] == r[b]);
    assert forall|k: int| i + a < k <= i + b implies #[trigger] depth(q, k) > depth(q, i + a) by {
        lemma_depth_within(p, i, r, k - i);
        assert(depth(r, k - i) > depth(r, a));
    }
}

/// A text without parentheses is balanced and has no group.
pub proof fn lemma_flat_text(t: Seq<char>)
    requires
        forall|j: int| 0 <= j < t.len() ==> t[j] != '(' && t[j] != ')',
    ensures
        closed_text(t),
        forall|a: int, b: int| !is_group(t, a, b),
{
    assert forall|k: int| 0 <= k <= t.len() implies #[trigger] depth(t, k) == 0 by {
        lemma_depth_flat(t, 0, k);
    }
}

/// A text that opens a parenthesis with its first character, closes it at
/// `m` and holds no other parenthesis is balanced, and that pair is its one
/// group.
pub proof fn lemma_wrapped_text(t: Seq<char>, m: int)
    requires
        0 < m < t.len(),
        t[0] == '(',
        t[m] == ')',
        forall|j: int| 0 < j < t.len() && j != m ==> t[j] != '(' && t[j] != ')',
    ensures
        closed_text(t),
        forall|a: int, b: int| #[trigger] is_group(t, a, b) <==> (a == 0 && b == m),
{
    assert(depth(t, 1) == depth(t, 0) + paren_step(t[0]));
    assert forall|k: int| 1 <= k <= m implies #[trigger] depth(t, k) == 1 by {
        lemma_depth_flat(t, 1, k - 1);
    }
    assert(depth(t, m + 1) == depth(t, m) + paren_step(t[m]));
    assert forall|k: int| m < k <= t.len() implies #[trigger] depth(t, k) == 0 by {
        lemma_depth_flat(t, m + 1, k - (m + 1));
    }
    assert forall|k: int| 0 <= k <= t.len() implies #[trigger] depth(t, k) >= 0 by {
        if k >= 1 && k <= m {
            assert(depth(t, k) == 1);
        } else if k > m {
            assert(depth(t, k) == 0);
        }
    }
    assert(is_group(t, 0, m));
}

/// Every edit that the rule table gives rise to is consistent.
pub proof fn lemma_edit_ok(p: Seq<char>, i: int, rule: Rule)
    ensures
        edit_ok(edit_for(p, i, rule)),
{
    let e = edit_for(p, i, rule);
    let t = e.text;
    if rule == Rule::Branch && inside_alternation(p, i) {
        assert(t =~= seq!['\\', 'x', '0', '0', '|', '\\', 'x', '0', '0']);
        lemma_flat_text(t);
    } else {
        match rule {
            Rule::Zero => {
                lemma_flat_text(t);
            },
            Rule::One => {
                lemma_flat_text(t);
            },
            Rule::Sequence => {
                assert(t =~= seq!['\\', 'x', '0', '0', '\\', 'x', '0', '0']);
                lemma_flat_text(t);
            },
            Rule::Star => {
                assert(t =~= seq!['(', '\\', 'x', '0', '0', ')', '*']);
                lemma_wrapped_text(t, 5);
            },
            Rule::Branch => {
                assert(t =~= seq!['(', '\\', 'x', '0', '0', '|', '\\', 'x', '0', '0', ')']);
                lemma_wrapped_text(t, 10);
            },
        }
    }
}

/// Tracked groups that were exact before a consistent edit are exact after
/// it.
pub proof fn lemma_exact_after_edit(p: Seq<char>, spans: Seq<(usize, usize)>, i: int, e: Edit)
    requires
        hole_at(p, i),
        edit_ok(e),
        spans_exact(p, spans),
        spliced(p, i, e.text).len() <= usize::MAX,
    ensures
        spans_exact(spliced(p, i, e.text), spans_after(spans, i, e)),
{
    let r = e.text;
    let q = spliced(p, i, r);
    let after = spans_after(spans, i, e);
    let n = spans.len() as int;
    assert forall|b: int| 0 <= b implies
        moved(b, i, e.shift as int, e.backward) == carried(b, i, r) by {}
    assert forall|k: int| 0 <= k < n implies
        after[k].0 == carried(spans[k].0 as int, i, r) && after[k].1
        == carried(spans[k].1 as int, i, r)
            && is_group(q, (#[trigger] after[k]).0 as int, after[k].1 as int) by {
        assert(is_group(p, spans[k].0 as int, spans[k].1 as int));
        lemma_group_carried(p, i, r, spans[k].0 as int, spans[k].1 as int);
    }
    if e.group_close is Some {
        let c = e.group_close->0;
        assert(is_group(r, 0, c));
        lemma_group_put_in(p, i, r, 0, c);
        assert(after[n] == (i as usize, (i + c) as usize));
    }
    assert forall|k: int| 0 <= k < after.len() implies
        is_group(q, (#[trigger] after[k]).0 as int, after[k].1 as int) by {
        if k < n {
            assert(is_group(q, after[k].0 as int, after[k].1 as int));
        }
    }
    assert forall|s2: int, e2: int| #[trigger] is_group(q, s2, e2) implies lists(after, s2, e2) by {
        lemma_group_origin(p, i, r, s2, e2);
        if i <= s2 && e2 < i + r.len() && is_group(r, s2 - i, e2 - i) {
            assert(after[n].0 == s2 && after[n].1 == e2);
        } else {
            let (s, e1) = choose|s: int, e1: int| #[trigger] is_group(p, s, e1)
                && s2 == carried(s, i, r) && e2 == carried(e1, i, r);
            assert(lists(spans, s, e1));
            let k = choose|k: int| 0 <= k < spans.len() && spans[k].0 == s && spans[k].1 == e1;
            assert(after[k].0 == s2 && after[k].1 == e2);
        }
    }
    assert forall|k: int, l: int| 0 <= k < after.len() && 0 <= l < after.len() && k != l implies
        after[k] != after[l] by {
        if k < n && l < n {
            assert(spans[k] != spans[l]);
            assert(is_group(p, spans[k].0 as int, spans[k].1 as int));
            assert(is_group(p, spans[l].0 as int, spans[l].1 as int));
            if spans[k].0 != spans[l].0 {
                assert(after[k].0 != after[l].0);
            } else {
                assert(after[k].1 != after[l].1);
            }
        } else if k < n {
            assert(is_group(p, spans[k].0 as int, spans[k].1 as int));
            assert(after[k].0 != i);
        } else {
            assert(is_group(p, spans[l].0 as int, spans[l].1 as int));
            assert(after[l].0 != i);
        }
    }
}

/// Tracked pairs that pointed at parentheses before a consistent edit point
/// at parentheses after it.
pub proof fn lemma_anchored_after_edit(p: Seq<char>, spans: Seq<(usize, usize)>, i: int, e: Edit)
    requires
        hole_at(p, i),
        edit_ok(e),
        spans_anchored(p, spans),
        spliced(p, i, e.text).len() <= usize::MAX,
    ensures
        spans_anchored(spliced(p, i, e.text), spans_after(spans, i, e)),
{
    let r = e.text;
    let q = spliced(p, i, r);
    let after = spans_after(spans, i, e);
    let n = spans.len() as int;
    assert forall|k: int| 0 <= k < after.len() implies
        (#[trigger] after[k]).0 < after[k].1 < q.len() && q[after[k].0 as int] == '('
        && q[after[k].1 as int] == ')' by {
        if k < n {
            let a = spans[k].0 as int;
            let b = spans[k].1 as int;
            assert(a < b < p.len() && p[a] == '(' && p[b] == ')');
            assert(a < i || a >= i + 4);
            assert(b < i || b >= i + 4);
        } else {
            let c = e.group_close->0;
            assert(is_group(r, 0, c));
            assert(after[k] == (i as usize, (i + c) as usize));
            assert(q[i + 0] == r[0] && q[i + c] == r[c]);
        }
    }
}

/// Tracked pairs that point at parentheses can be moved by a consistent edit
/// at an open position: what they move to are offsets of the new text.
pub proof fn lemma_movable(p: Seq<char>, spans: Seq<(usize, usize)>, i: int, e: Edit)
    requires
        hole_at(p, i),
        edit_ok(e),
        spans_anchored(p, spans),
        spliced(p, i, e.text).len() <= usize::MAX,
    ensures
        spans_movable(spans, i, e.shift as int, e.backward),
{
    assert forall|k: int| 0 <= k < spans.len() implies
        0 <= moved((#[trigger] spans[k]).0 as int, i, e.shift as int, e.backward)
        <= usize::MAX && 0 <= moved(spans[k].1 as int, i, e.shift as int, e.backward) <= usize::MAX by {
        let a = spans[k].0 as int;
        let b = spans[k].1 as int;
        assert(a < b < p.len() && p[a] == '(' && p[b] == ')');
        assert(a < i || a >= i + 4);
        assert(b < i || b >= i + 4);
    }
}

/// Exact tracked groups point at parentheses.
pub proof fn lemma_exact_is_anchored(p: Seq<char>, spans: Seq<(usize, usize)>)
    requires
        spans_exact(p, spans),
    ensures
        spans_anchored(p, spans),
{
    assert forall|k: int| 0 <= k < spans.len() implies
        (#[trigger] spans[k]).0 < spans[k].1 < p.len() && p[spans[k].0 as int]
        == '(' && p[spans[k].1 as int] == ')' by {
        assert(is_group(p, spans[k].0 as int, spans[k].1 as int));
    }
}

} // verus!
