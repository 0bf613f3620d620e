//! Groups of a pattern: which pairs of parentheses belong together, how to
//! find them by a scan, and how their offsets move when text is edited.
use vstd::prelude::*;
use vstd::string::*;
use crate::text::{hole_at, is_hole_at, to_chars};
use crate::nesting::{enclosed, lemma_branch_enclosed, well_nested};
use crate::state::State;

verus! {

/// What a character adds to the nesting depth.
pub open spec fn paren_step(c: char) -> int {
    if c == '(' {
        1
    } else if c == ')' {
        -1
    } else {
        0
    }
}

/// Opening minus closing parentheses among the first `n` characters of `p`.
pub open spec fn depth(p: Seq<char>, n: int) -> int
    decreases n,
{
    if n <= 0 {
        0
    } else {
        depth(p, n - 1) + paren_step(p[n - 1])
    }
}

/// The parenthesis opened at `s` is the one closed at `e`: the depth after `e`
/// is back to what it was before `s`, for the first time since `s`.
pub open spec fn is_group(p: Seq<char>, s: int, e: int) -> bool {
    &&& 0 <= s < e < p.len()
    &&& p[s] == '('
    &&& p[e] == ')'
    &&& depth(p, e + 1) == depth(p, s)
    &&& forall|k: int| s < k <= e ==> #[trigger] depth(p, k) > depth(p, s)
}

/// The group from `s` to `e` is a plain alternation: a `|` stands in it, no
/// parenthesis stands inside it, and no `*` follows it.
pub open spec fn is_alternation(p: Seq<char>, s: int, e: int) -> bool {
    &&& exists|k: int| s < k < e && #[trigger] p[k] == '|'
    &&& forall|k: int| s < k < e ==> #[trigger] p[k] != '(' && p[k] != ')'
    &&& !(e + 1 < p.len() && p[e + 1] == '*')
}

/// The pair `(s, e)` is among those that a scan of `p` reports.
pub open spec fn is_reported(p: Seq<char>, s: int, e: int, or_only: bool) -> bool {
    is_group(p, s, e) && (or_only ==> is_alternation(p, s, e))
}

/// `spans` lists the groups of `p`, each once and nothing else.
pub open spec fn spans_exact(p: Seq<char>, spans: Seq<(usize, usize)>) -> bool {
    &&& forall|i: int| 0 <= i < spans.len() ==>
        is_group(p, (#[trigger] spans[i]).0 as int, spans[i].1 as int)
    &&& forall|s: int, e: int| #[trigger] is_group(p, s, e) ==> lists(spans, s, e)
    &&& spans.no_duplicates()
}

/// The groups of `p` that close within its first `n` characters, in the order
/// of their closing parentheses.
pub open spec fn groups_upto(p: Seq<char>, n: int) -> Seq<(int, int)>
    decreases n,
{
    if n <= 0 {
        Seq::empty()
    } else {
        let e = n - 1;
        let before = groups_upto(p, e);
        if exists|s: int| is_group(p, s, e) {
            before.push((choose|s: int| is_group(p, s, e), e))
        } else {
            before
        }
    }
}

/// The groups of `p`, in the order of their closing parentheses.
pub open spec fn group_list(p: Seq<char>) -> Seq<(int, int)> {
    groups_upto(p, p.len() as int)
}

/// Those of the groups `gs` of `p` that are plain alternations, in the same
/// order.
pub open spec fn alternations_in(p: Seq<char>, gs: Seq<(int, int)>) -> Seq<(int, int)>
    decreases gs.len(),
{
    if gs.len() == 0 {
        gs
    } else {
        let before = alternations_in(p, gs.drop_last());
        if is_alternation(p, gs.last().0, gs.last().1) {
            before.push(gs.last())
        } else {
            before
        }
    }
}

/// What a scan of `p` reports, in order.
pub open spec fn reported_list(p: Seq<char>, or_only: bool) -> Seq<(int, int)> {
    if or_only {
        alternations_in(p, group_list(p))
    } else {
        group_list(p)
    }
}

/// Pairs of offsets as pairs of integers.
pub open spec fn offsets(spans: Seq<(usize, usize)>) -> Seq<(int, int)> {
    Seq::new(spans.len(), |k: int| (spans[k].0 as int, spans[k].1 as int))
}

/// The pair `(s, e)` stands in `spans`.
pub open spec fn lists(spans: Seq<(usize, usize)>, s: int, e: int) -> bool {
    exists|i: int| 0 <= i < spans.len() && (#[trigger] spans[i]).0 == s && spans[i].1 == e
}

/// The parenthesis at `s` is opened and not yet closed within the first `n`
/// characters.
pub open spec fn open_at(p: Seq<char>, s: int, n: int) -> bool {
    &&& 0 <= s < n
    &&& p[s] == '('
    &&& forall|k: int| s < k <= n ==> #[trigger] depth(p, k) > depth(p, s)
}

/// A closing parenthesis belongs to one opening parenthesis at most.
pub proof fn lemma_group_start_unique(p: Seq<char>, s1: int, s2: int, e: int)
    requires
        is_group(p, s1, e),
        is_group(p, s2, e),
    ensures
        s1 == s2,
{
    if s1 < s2 {
        assert(depth(p, s2) > depth(p, s1));
    } else if s2 < s1 {
        assert(depth(p, s1) > depth(p, s2));
    }
}

/// Every pair of the list of groups is a group.
pub proof fn lemma_group_list_groups(p: Seq<char>, n: int)
    ensures
        forall|k: int| 0 <= k < groups_upto(p, n).len() ==>
            is_group(p, (#[trigger] groups_upto(p, n)[k]).0, groups_upto(p, n)[k].1),
    decreases n,
{
    if n > 0 {
        lemma_group_list_groups(p, n - 1);
        let e = n - 1;
        let before = groups_upto(p, e);
        if exists|s: int| is_group(p, s, e) {
            let s = choose|s: int| is_group(p, s, e);
            assert forall|k: int| 0 <= k < groups_upto(p, n).len() implies
                is_group(p, (#[trigger] groups_upto(p, n)[k]).0, groups_upto(p, n)[k].1) by {
                if k < before.len() {
                    assert(groups_upto(p, n)[k] == before[k]);
                } else {
                    assert(groups_upto(p, n)[k] == (s, e));
                }
            }
        }
    }
}

/// Two exact lists of the groups of one pattern hold the same pairs, whatever
/// their order.
pub proof fn lemma_exact_spans_agree(p: Seq<char>, a: Seq<(usize, usize)>, b: Seq<(usize, usize)>)
    requires
        spans_exact(p, a),
        spans_exact(p, b),
    ensures
        a.to_set() == b.to_set(),
        a.len() == b.len(),
{
    assert forall|x: (usize, usize)| a.to_set().contains(x) <==> b.to_set().contains(x) by {
        if a.contains(x) {
            let i = choose|i: int| 0 <= i < a.len() && a[i] == x;
            assert(is_group(p, a[i].0 as int, a[i].1 as int));
            assert(lists(b, x.0 as int, x.1 as int));
            let j = choose|j: int| 0 <= j < b.len() && b[j].0 == x.0 as int && b[j].1 == x.1 as int;
            assert(b[j] == x);
        }
        if b.contains(x) {
            let i = choose|i: int| 0 <= i < b.len() && b[i] == x;
            assert(is_group(p, b[i].0 as int, b[i].1 as int));
            assert(lists(a, x.0 as int, x.1 as int));
            let j = choose|j: int| 0 <= j < a.len() && a[j].0 == x.0 as int && a[j].1 == x.1 as int;
            assert(a[j] == x);
        }
    }
    assert(a.to_set() =~= b.to_set());
    a.unique_seq_to_set();
    b.unique_seq_to_set();
}

/// The groups of a pattern, by one scan with a stack of the parentheses that
/// are open: every pair of an opening parenthesis and the one that closes it,
/// in the order of the closing ones. With `or_only`, only the plain
/// alternations among them.
pub fn find_parentheses(regexp: &String, or_only: bool) -> (r: Vec<(usize, usize)>)
    ensures
        forall|i: int| 0 <= i < r@.len() ==>
            is_reported(regexp@, (#[trigger] r@[i]).0 as int, r@[i].1 as int, or_only),
        forall|s: int, e: int| is_reported(regexp@, s, e, or_only) ==> lists(r@, s, e),
        forall|i: int, j: int| 0 <= i < j < r@.len() ==>
            (#[trigger] r@[i]).1 < (#[trigger] r@[j]).1,
        !or_only ==> spans_exact(regexp@, r@),
        offsets(r@) == reported_list(regexp@, or_only),
{
    let chars: Vec<char> = to_chars(regexp.as_str());
    let all: Vec<(usize, usize)> = scan_groups(&chars);
    if or_only {
        keep_alternations(&chars, &all)
    } else {
        proof {
            lemma_sorted_exact(chars@, all@);
        }
        all
    }
}

/// A list of groups that is complete and ordered by closing parenthesis is
/// exact.
proof fn lemma_sorted_exact(p: Seq<char>, r: Seq<(usize, usize)>)
    requires
        forall|i: int| 0 <= i < r.len() ==> is_group(p, (#[trigger] r[i]).0 as int, r[i].1 as int),
        forall|s: int, e: int| #[trigger] is_group(p, s, e) ==> lists(r, s, e),
        forall|i: int, j: int| 0 <= i < j < r.len() ==> (#[trigger] r[i]).1 < (#[trigger] r[j]).1,
    ensures
        spans_exact(p, r),
{
    assert forall|i: int, j: int| 0 <= i < r.len() && 0 <= j < r.len() && i != j implies
        r[i] != r[j] by {
        if i < j {
            assert(r[i].1 < r[j].1);
        } else {
            assert(r[j].1 < r[i].1);
        }
    }
}

/// All groups of `chars`, ordered by closing parenthesis.
pub fn scan_groups(chars: &Vec<char>) -> (r: Vec<(usize, usize)>)
    ensures
        forall|i: int| 0 <= i < r@.len() ==>
            is_group(chars@, (#[trigger] r@[i]).0 as int, r@[i].1 as int),
        forall|s: int, e: int| #[trigger] is_group(chars@, s, e) ==> lists(r@, s, e),
        forall|i: int, j: int| 0 <= i < j < r@.len() ==>
            (#[trigger] r@[i]).1 < (#[trigger] r@[j]).1,
        offsets(r@) == group_list(chars@),
{
    let n: usize = chars.len();
    let ghost p: Seq<char> = chars@;
    let mut stack: Vec<usize> = Vec::new();
    let mut found: Vec<(usize, usize)> = Vec::new();
    let mut i: usize = 0;
    while i < n
        invariant
            n == chars.len(),
            p == chars@,
            i <= n,
            forall|j: int| 0 <= j < stack@.len() ==>
                open_at(p, (#[trigger] stack@[j]) as int, i as int),
            forall|j: int| 0 <= j < stack@.len() ==>
                depth(p, (#[trigger] stack@[j]) as int) + (stack@.len() - j) == depth(p, i as int),
            forall|s: int| #[trigger] open_at(p, s, i as int) ==> stack@.contains(s as usize),
            forall|k: int| 0 <= k < found@.len() ==>
                is_group(p, (#[trigger] found@[k]).0 as int, found@[k].1 as int),
            forall|k: int| 0 <= k < found@.len() ==> (#[trigger] found@[k]).1 < i,
            forall|s: int, e: int| #[trigger] is_group(p, s, e) && e < i ==> lists(found@, s, e),
            forall|k: int, l: int| 0 <= k < l < found@.len() ==>
                (#[trigger] found@[k]).1 < (#[trigger] found@[l]).1,
            offsets(found@) == groups_upto(p, i as int),
        decreases n - i,
    {
        let c: char = chars[i];
        let ghost old_stack = stack@;
        let ghost old_found = found@;
        assert(depth(p, i + 1) == depth(p, i as int) + paren_step(p[i as int]));
        if c == '(' {
            stack.push(i);
            proof {
                assert forall|j: int| 0 <= j < stack@.len() implies
                    open_at(p, (#[trigger] stack@[j]) as int, i + 1) by {
                    if j < old_stack.len() {
                        assert(stack@[j] == old_stack[j]);
                        assert(open_at(p, old_stack[j] as int, i as int));
                    }
                }
                assert forall|s: int| #[trigger] open_at(p, s, i + 1) implies
                    stack@.contains(s as usize) by {
                    if s == i {
                        assert(stack@[old_stack.len() as int] == i);
                    } else {
                        assert(open_at(p, s, i as int));
                        let j = choose|j: int| 0 <= j < old_stack.len()
                            && old_stack[j] == s as usize;
                        assert(stack@[j] == s as usize);
                    }
                }
                assert forall|s: int, e: int| #[trigger] is_group(p, s, e) && e < i + 1 implies
                    lists(found@, s, e) by {
                    if e == i {
                        assert(false);
                    }
                }
                assert(!exists|s: int| is_group(p, s, i as int));
            }
        } else if c == ')' {
            if stack.len() > 0 {
                let top: usize = stack[stack.len() - 1];
                stack.pop();
                found.push((top, i));
                proof {
                    let m = old_stack.len() as int;
                    assert(old_stack[m - 1] == top);
                    assert(open_at(p, top as int, i as int));
                    assert(depth(p, top as int) + 1 == depth(p, i as int));
                    assert(is_group(p, top as int, i as int)) by {
                        assert forall|k: int| top < k <= i implies
                            #[trigger] depth(p, k) > depth(p, top as int) by {}
                    }
                    assert forall|j: int| 0 <= j < stack@.len() implies
                        open_at(p, (#[trigger] stack@[j]) as int, i + 1) by {
                        assert(stack@[j] == old_stack[j]);
                        assert(open_at(p, old_stack[j] as int, i as int));
                        assert(depth(p, old_stack[j] as int) + (m - j) == depth(p, i as int));
                    }
                    assert forall|j: int| 0 <= j < stack@.len() implies
                        depth(p, (#[trigger] stack@[j]) as int) + (stack@.len() - j)
                            == depth(p, i + 1) by {
                        assert(stack@[j] == old_stack[j]);
                    }
                    assert forall|s: int| #[trigger] open_at(p, s, i + 1) implies
                        stack@.contains(s as usize) by {
                        assert(s != i);
                        assert(open_at(p, s, i as int));
                        let j = choose|j: int| 0 <= j < old_stack.len()
                            && old_stack[j] == s as usize;
                        if j == m - 1 {
                            assert(depth(p, i + 1) > depth(p, s));
                            assert(false);
                        }
                        assert(stack@[j] == s as usize);
                    }
                    assert forall|k: int| 0 <= k < found@.len() implies
                        is_group(p, (#[trigger] found@[k]).0 as int, found@[k].1 as int) by {
                        if k < old_found.len() {
                            assert(found@[k] == old_found[k]);
                        }
                    }
                    assert forall|s: int, e: int| #[trigger] is_group(p, s, e)
                        && e < i + 1 implies lists(found@, s, e) by {
                        if e == i {
                            lemma_group_start_unique(p, s, top as int, e);
                            assert(found@[old_found.len() as int] == (top, i));
                        } else {
                            assert(lists(old_found, s, e));
                            let k = choose|k: int| 0 <= k < old_found.len()
                                && old_found[k] == (s as usize, e as usize);
                            assert(found@[k] == old_found[k]);
                        }
                    }
                    assert forall|k: int, l: int| 0 <= k < l < found@.len() implies
                        (#[trigger] found@[k]).1 < (#[trigger] found@[l]).1 by {
                        if l < old_found.len() {
                            assert(found@[k] == old_found[k] && found@[l] == old_found[l]);
                        } else {
                            assert(found@[k] == old_found[k]);
                        }
                    }
                    let opener = choose|s: int| is_group(p, s, i as int);
                    lemma_group_start_unique(p, opener, top as int, i as int);
                    assert(offsets(found@) =~= offsets(old_found).push((top as int, i as int)));
                }
            } else {
                proof {
                    assert forall|s: int, e: int| #[trigger] is_group(p, s, e)
                        && e < i + 1 implies lists(found@, s, e) by {
                        if e == i {
                            assert(open_at(p, s, i as int)) by {
                                assert forall|k: int| s < k <= i implies
                                    #[trigger] depth(p, k) > depth(p, s) by {}
                            }
                            assert(stack@.contains(s as usize));
                            assert(false);
                        }
                    }
                    assert forall|s: int| #[trigger] open_at(p, s, i + 1) implies
                        stack@.contains(s as usize) by {
                        assert(open_at(p, s, i as int));
                    }
                    assert forall|s: int| !is_group(p, s, i as int) by {
                        if is_group(p, s, i as int) {
                            assert(lists(found@, s, i as int));
                        }
                    }
                }
            }
        } else {
            proof {
                assert forall|j: int| 0 <= j < stack@.len() implies
                    open_at(p, (#[trigger] stack@[j]) as int, i + 1) by {
                    assert(open_at(p, stack@[j] as int, i as int));
                }
                assert forall|s: int| #[trigger] open_at(p, s, i + 1) implies
                    stack@.contains(s as usize) by {
                    assert(open_at(p, s, i as int));
                }
                assert forall|s: int, e: int| #[trigger] is_group(p, s, e) && e < i + 1 implies
                    lists(found@, s, e) by {
                    if e == i {
                        assert(false);
                    }
                }
                assert(!exists|s: int| is_group(p, s, i as int));
            }
        }
        i += 1;
    }
    found
}

/// Whether the group from `s` to `e` is a plain alternation.
pub fn check_alternation(chars: &Vec<char>, s: usize, e: usize) -> (b: bool)
    requires
        s < e < chars@.len(),
    ensures
        b == is_alternation(chars@, s as int, e as int),
{
    let n: usize = chars.len();
    let mut bar: bool = false;
    let mut nested: bool = false;
    let mut k: usize = s + 1;
    while k < e
        invariant
            s < k <= e,
            e < chars@.len(),
            bar == (exists|j: int| s < j < k && #[trigger] chars@[j] == '|'),
            nested == (exists|j: int| s < j < k
                && (#[trigger] chars@[j] == '(' || chars@[j] == ')')),
        decreases e - k,
    {
        let c: char = chars[k];
        if c == '|' {
            bar = true;
        }
        if c == '(' || c == ')' {
            nested = true;
        }
        k += 1;
    }
    let starred: bool = e + 1 < n && chars[e + 1] == '*';
    bar && !nested && !starred
}

/// Those of `all` that are plain alternations, in the same order.
fn keep_alternations(chars: &Vec<char>, all: &Vec<(usize, usize)>) -> (r: Vec<(usize, usize)>)
    requires
        forall|i: int| 0 <= i < all@.len() ==>
            is_group(chars@, (#[trigger] all@[i]).0 as int, all@[i].1 as int),
        forall|s: int, e: int| #[trigger] is_group(chars@, s, e) ==> lists(all@, s, e),
        forall|i: int, j: int| 0 <= i < j < all@.len() ==>
            (#[trigger] all@[i]).1 < (#[trigger] all@[j]).1,
    ensures
        forall|i: int| 0 <= i < r@.len() ==>
            is_reported(chars@, (#[trigger] r@[i]).0 as int, r@[i].1 as int, true),
        forall|s: int, e: int| is_reported(chars@, s, e, true) ==> lists(r@, s, e),
        forall|i: int, j: int| 0 <= i < j < r@.len() ==>
            (#[trigger] r@[i]).1 < (#[trigger] r@[j]).1,
        offsets(r@) == alternations_in(chars@, offsets(all@)),
{
    let ghost p: Seq<char> = chars@;
    let mut r: Vec<(usize, usize)> = Vec::new();
    let mut i: usize = 0;
    while i < all.len()
        invariant
            p == chars@,
            i <= all@.len(),
            forall|k: int| 0 <= k < all@.len() ==>
                is_group(p, (#[trigger] all@[k]).0 as int, all@[k].1 as int),
            forall|k: int, l: int| 0 <= k < l < all@.len() ==>
                (#[trigger] all@[k]).1 < (#[trigger] all@[l]).1,
            forall|k: int| 0 <= k < r@.len() ==>
                is_reported(p, (#[trigger] r@[k]).0 as int, r@[k].1 as int, true),
            forall|k: int| 0 <= k < r@.len() && i < all@.len() ==>
                (#[trigger] r@[k]).1 < all@[i as int].1,
            forall|k: int| 0 <= k < r@.len() && 0 < i ==> (#[trigger] r@[k]).1 <= all@[i - 1].1,
            forall|k: int| 0 <= k < i
                && is_alternation(p, (#[trigger] all@[k]).0 as int, all@[k].1 as int) ==>
                    r@.contains(all@[k]),
            forall|k: int, l: int| 0 <= k < l < r@.len() ==>
                (#[trigger] r@[k]).1 < (#[trigger] r@[l]).1,
            offsets(r@) == alternations_in(p, offsets(all@).take(i as int)),
        decreases all@.len() - i,
    {
        let (s, e) = all[i];
        let ghost old_r = r@;
        proof {
            let gs = offsets(all@).take(i + 1);
            assert(gs.drop_last() =~= offsets(all@).take(i as int));
            assert(gs.last() == (s as int, e as int));
        }
        assert(is_group(p, all@[i as int].0 as int, all@[i as int].1 as int));
        if check_alternation(chars, s, e) {
            r.push((s, e));
            proof {
                assert(offsets(r@) =~= offsets(old_r).push((s as int, e as int)));
                assert(r@[old_r.len() as int] == all@[i as int]);
                assert forall|k: int| 0 <= k < i + 1
                    && is_alternation(p, (#[trigger] all@[k]).0 as int, all@[k].1 as int) implies
                        r@.contains(all@[k]) by {
                    if k < i {
                        let l = choose|l: int| 0 <= l < old_r.len() && old_r[l] == all@[k];
                        assert(r@[l] == all@[k]);
                    }
                }
                assert forall|k: int| 0 <= k < r@.len() implies
                    is_reported(p, (#[trigger] r@[k]).0 as int, r@[k].1 as int, true) by {
                    if k < old_r.len() {
                        assert(r@[k] == old_r[k]);
                    }
                }
                assert forall|k: int, l: int| 0 <= k < l < r@.len() implies
                    (#[trigger] r@[k]).1 < (#[trigger] r@[l]).1 by {
                    assert(r@[k] == old_r[k]);
                    if l < old_r.len() {
                        assert(r@[l] == old_r[l]);
                    }
                }
            }
        }
        proof {
            assert forall|k: int| 0 <= k < r@.len() && i + 1 < all@.len() implies
                (#[trigger] r@[k]).1 < all@[i + 1].1 by {
                assert(all@[i as int].1 < all@[i + 1].1);
            }
        }
        i += 1;
    }
    proof {
        assert(offsets(all@).take(all@.len() as int) =~= offsets(all@));
        assert forall|s: int, e: int| is_reported(p, s, e, true) implies lists(r@, s, e) by {
            assert(is_group(p, s, e));
            let k = choose|k: int| 0 <= k < all@.len() && all@[k].0 == s && all@[k].1 == e;
            assert(r@.contains(all@[k]));
            let l = choose|l: int| 0 <= l < r@.len() && r@[l] == all@[k];
            assert(r@[l].0 == s && r@[l].1 == e);
        }
    }
    r
}

/// Where the offset `b` stands after an edit at `x` that moved the text
/// behind it by `dist`: offsets behind `x` move, the others stay.
pub open spec fn moved(b: int, x: int, dist: int, backward: bool) -> int {
    if b > x {
        if backward {
            b - dist
        } else {
            b + dist
        }
    } else {
        b
    }
}

/// `after` is `before` with every offset moved.
pub open spec fn spans_moved(
    before: Seq<(usize, usize)>,
    after: Seq<(usize, usize)>,
    x: int,
    dist: int,
    backward: bool,
) -> bool {
    &&& after.len() == before.len()
    &&& forall|i: int|
        0 <= i < before.len() ==> {
            &&& (#[trigger] after[i]).0 == moved(before[i].0 as int, x, dist, backward)
            &&& after[i].1 == moved(before[i].1 as int, x, dist, backward)
        }
}

/// Every offset of `spans` can be moved within the range of `usize`.
pub open spec fn spans_movable(spans: Seq<(usize, usize)>, x: int, dist: int, backward: bool) -> bool {
    forall|i: int|
        0 <= i < spans.len() ==> {
            &&& 0 <= moved((#[trigger] spans[i]).0 as int, x, dist, backward) <= usize::MAX
            &&& 0 <= moved(spans[i].1 as int, x, dist, backward) <= usize::MAX
        }
}

/// Moves the offsets of all tracked groups after an edit at offset `x` that
/// made the text behind it `pan_dist` characters longer, or shorter with
/// `pan_backwards`. Offsets at or before `x` stay.
pub fn update_parentheses(
    parentheses: &mut Vec<(usize, usize)>,
    x: usize,
    pan_dist: usize,
    pan_backwards: bool,
)
    requires
        spans_movable(old(parentheses)@, x as int, pan_dist as int, pan_backwards),
    ensures
        spans_moved(old(parentheses)@, final(parentheses)@, x as int, pan_dist as int, pan_backwards),
{
    let n: usize = parentheses.len();
    let mut i: usize = 0;
    while i < n
        invariant
            i <= n,
            n == parentheses@.len(),
            n == old(parentheses)@.len(),
            spans_movable(old(parentheses)@, x as int, pan_dist as int, pan_backwards),
            forall|k: int| i <= k < n ==> parentheses@[k] == old(parentheses)@[k],
            forall|k: int|
                0 <= k < i ==> {
                    &&& (#[trigger] parentheses@[k]).0 == moved(
                        old(parentheses)@[k].0 as int,
                        x as int,
                        pan_dist as int,
                        pan_backwards,
                    )
                    &&& parentheses@[k].1 == moved(
                        old(parentheses)@[k].1 as int,
                        x as int,
                        pan_dist as int,
                        pan_backwards,
                    )
                },
        decreases n - i,
    {
        let (a, b) = parentheses[i];
        assert(old(parentheses)@[i as int] == (a, b));
        let a2: usize = move_offset(a, x, pan_dist, pan_backwards);
        let b2: usize = move_offset(b, x, pan_dist, pan_backwards);
        parentheses.set(i, (a2, b2));
        i += 1;
    }
}

/// One offset after an edit at `x`.
fn move_offset(b: usize, x: usize, dist: usize, backward: bool) -> (r: usize)
    requires
        0 <= moved(b as int, x as int, dist as int, backward) <= usize::MAX,
    ensures
        r == moved(b as int, x as int, dist as int, backward),
{
    if b > x {
        if backward {
            b - dist
        } else {
            b + dist
        }
    } else {
        b
    }
}

/// The open position at `i` is one whole branch of an alternation: it stands
/// between `(` and `|`, between `|` and `|`, or between `|` and `)`.
pub open spec fn inside_alternation(p: Seq<char>, i: int) -> bool {
    &&& 1 <= i
    &&& i + 5 <= p.len()
    &&& hole_at(p, i)
    &&& {
        ||| p[i - 1] == '(' && p[i + 4] == '|'
        ||| p[i - 1] == '|' && p[i + 4] == '|'
        ||| p[i - 1] == '|' && p[i + 4] == ')'
    }
}

/// Whether the open position at `index` is one whole branch of an
/// alternation. Then another branch is added to that alternation in place,
/// where elsewhere a new group would be opened. In a well-nested pattern
/// whose tracked groups are exact such a position lies inside a tracked
/// group.
pub fn is_inside_or(s: &State, index: usize) -> (b: bool)
    ensures
        b == inside_alternation(s@.regexp, index as int),
        b && well_nested(s@.regexp) && spans_exact(s@.regexp, s@.parentheses) ==> enclosed(
            s@.parentheses,
            index as int,
        ),
{
    let chars: Vec<char> = to_chars(s.regexp.as_str());
    let b: bool = branch_at(&chars, index);
    proof {
        if b && well_nested(s@.regexp) && spans_exact(s@.regexp, s@.parentheses) {
            lemma_branch_enclosed(s@.regexp, s@.parentheses, index as int);
        }
    }
    b
}

/// [`is_inside_or`] on the characters of a pattern.
pub fn branch_at(chars: &Vec<char>, index: usize) -> (b: bool)
    ensures
        b == inside_alternation(chars@, index as int),
{
    let n: usize = chars.len();
    if index < 1 || n < 5 || index > n - 5 {
        return false;
    }
    if !is_hole_at(chars, index) {
        return false;
    }
    let before: char = chars[index - 1];
    let after: char = chars[index + 4];
    (before == '(' && after == '|') || (before == '|' && after == '|') || (before == '|' && after
        == ')')
}

} // verus!
