//! The pruning oracle: two tests that discard a state before it is extended.
//!
//! A state is dead when its pattern, with `.{0}` at every open position,
//! already matches a negative example. A state is redundant when its
//! pattern, or one branch of one of its alternations once its repeated
//! groups are unrolled, misses a positive example with `.*` at every open
//! position. Both tests are shortcuts: a search that leaves them out takes
//! more steps, and what it returns has passed the same final test.
use vstd::prelude::*;
use vstd::string::*;
use crate::matcher::{accepts_all, accepts_none, compiles, match_all, match_none, pattern_compiles};
use crate::edit::{closed_text, lemma_depth_window};
use crate::nesting::has_anchors;
use crate::spans::{
    depth, find_parentheses, group_list, is_group, lemma_group_list_groups, offsets, paren_step,
    reported_list, scan_groups,
};
use crate::text::{hole, replace, replaced, slice, texts, to_chars};

verus! {

/// The pattern `.{0}`, which matches the empty string and nothing else.
pub open spec fn nothing() -> Seq<char> {
    seq!['.', '{', '0', '}']
}

/// The pattern `.*`, which matches any text that holds no line break.
pub open spec fn anything() -> Seq<char> {
    seq!['.', '*']
}

/// `p` with nothing at every open position.
pub open spec fn narrowest(p: Seq<char>) -> Seq<char> {
    replaced(p, hole(), nothing())
}

/// `p` with anything at every open position.
pub open spec fn widest(p: Seq<char>) -> Seq<char> {
    replaced(p, hole(), anything())
}

/// The marker of an open position, as a string.
fn hole_text() -> (r: &'static str)
    ensures
        r@ == hole(),
{
    proof {
        reveal_strlit("\\x00");
    }
    let r: &'static str = "\\x00";
    assert(r@ =~= hole());
    r
}

/// The text of [`narrowest`] for a pattern.
pub fn narrow(regexp: &str) -> (r: String)
    ensures
        r@ == narrowest(regexp@),
{
    proof {
        reveal_strlit(".{0}");
    }
    let fill: &'static str = ".{0}";
    assert(fill@ =~= nothing());
    replace(regexp, hole_text(), fill)
}

/// The text of [`widest`] for a pattern.
pub fn widen(regexp: &str) -> (r: String)
    ensures
        r@ == widest(regexp@),
{
    proof {
        reveal_strlit(".*");
    }
    let fill: &'static str = ".*";
    assert(fill@ =~= anything());
    replace(regexp, hole_text(), fill)
}

/// The dead-state test: whether the pattern with `.{0}` at every open
/// position matches some negative example. The positive examples play no
/// part.
pub fn is_dead(regexp: &String, positive_set: &Vec<String>, negative_set: &Vec<String>) -> (b: bool)
    requires
        compiles(narrowest(regexp@)),
    ensures
        b == !accepts_none(narrowest(regexp@), negative_set@),
{
    let n_regex: String = narrow(regexp.as_str());
    !match_none(n_regex.as_str(), negative_set)
}

/// [`is_dead`] for any pattern: nothing where the narrowed pattern does not
/// compile.
pub fn try_is_dead(regexp: &String, positive_set: &Vec<String>, negative_set: &Vec<String>) -> (r: Option<bool>)
    ensures
        match r {
            Some(b) => compiles(narrowest(regexp@))
                && b == !accepts_none(narrowest(regexp@), negative_set@),
            None => !compiles(narrowest(regexp@)),
        },
{
    let n_regex: String = narrow(regexp.as_str());
    if pattern_compiles(n_regex.as_str()) {
        Some(is_dead(regexp, positive_set, negative_set))
    } else {
        None
    }
}

/// The texts of those groups among `gs` that a `*` follows, each text once,
/// in the order in which it first occurs.
pub open spec fn starred_texts(p: Seq<char>, gs: Seq<(int, int)>) -> Seq<Seq<char>>
    decreases gs.len(),
{
    if gs.len() == 0 {
        Seq::empty()
    } else {
        let before = starred_texts(p, gs.drop_last());
        let s = gs.last().0;
        let e = gs.last().1;
        let g = p.subrange(s, e + 1);
        if e + 1 < p.len() && p[e + 1] == '*' && !before.contains(g) {
            before.push(g)
        } else {
            before
        }
    }
}

/// `t` after each of `groups` in turn had every occurrence replaced by three
/// copies of itself.
pub open spec fn unrolled_by(t: Seq<char>, groups: Seq<Seq<char>>) -> Seq<char>
    decreases groups.len(),
{
    if groups.len() == 0 {
        t
    } else {
        let g = groups.last();
        replaced(unrolled_by(t, groups.drop_last()), g, g + g + g)
    }
}

/// `p` with its repeated groups unrolled: the texts of the groups that a `*`
/// follows are taken in the order of their closing parentheses, and each in
/// turn has its occurrences replaced by three copies.
pub open spec fn unrolled(p: Seq<char>) -> Seq<char> {
    unrolled_by(p, starred_texts(p, group_list(p)))
}

/// The text opens a parenthesis with its first character, closes it with its
/// last, and is balanced.
pub open spec fn is_group_text(g: Seq<char>) -> bool {
    &&& g.len() >= 2
    &&& g[0] == '('
    &&& g[g.len() - 1] == ')'
    &&& closed_text(g)
}

/// The text of a group is a group text.
pub proof fn lemma_group_text(p: Seq<char>, s: int, e: int)
    requires
        is_group(p, s, e),
    ensures
        is_group_text(p.subrange(s, e + 1)),
{
    let g = p.subrange(s, e + 1);
    assert forall|k: int| 0 <= k <= g.len() implies #[trigger] depth(g, k) == depth(p, s + k) - depth(p, s) by {
        assert forall|j: int| 0 <= j < 0 + k implies #[trigger] g[j] == p[j - 0 + s] by {}
        lemma_depth_window(g, 0, p, s, k);
    }
    assert forall|k: int| 0 <= k <= g.len() implies #[trigger] depth(g, k) >= 0 by {
        assert(depth(g, k) == depth(p, s + k) - depth(p, s));
        if 0 < k && k < g.len() {
            assert(depth(p, s + k) > depth(p, s));
        }
    }
    assert(depth(g, g.len() as int) == depth(p, s + g.len()) - depth(p, s));
}

/// The depth of two texts put together is that of the first, and behind it
/// that of the first plus that of the second.
pub proof fn lemma_depth_joined(a: Seq<char>, b: Seq<char>, k: int)
    requires
        0 <= k <= a.len() + b.len(),
    ensures
        k <= a.len() ==> depth(a + b, k) == depth(a, k),
        k >= a.len() ==> depth(a + b, k) == depth(a, a.len() as int) + depth(b, k - a.len()),
{
    let ab = a + b;
    if k <= a.len() {
        assert forall|j: int| 0 <= j < 0 + k implies #[trigger] ab[j] == a[j - 0 + 0] by {}
        lemma_depth_window(ab, 0, a, 0, k);
    }
    if k >= a.len() {
        let n = a.len() as int;
        assert forall|j: int| 0 <= j < 0 + n implies #[trigger] ab[j] == a[j - 0 + 0] by {}
        lemma_depth_window(ab, 0, a, 0, n);
        assert forall|j: int| n <= j < n + (k - n) implies #[trigger] ab[j] == b[j - n + 0] by {}
        lemma_depth_window(ab, n, b, 0, k - n);
    }
}

/// Two balanced texts put together are balanced.
pub proof fn lemma_closed_joined(a: Seq<char>, b: Seq<char>)
    requires
        closed_text(a),
        closed_text(b),
    ensures
        closed_text(a + b),
{
    assert forall|k: int| 0 <= k <= (a + b).len() implies #[trigger] depth(a + b, k) >= 0 by {
        lemma_depth_joined(a, b, k);
        if k <= a.len() {
            assert(depth(a, k) >= 0);
        } else {
            assert(depth(b, k - a.len()) >= 0);
        }
    }
    lemma_depth_joined(a, b, (a + b).len() as int);
}

/// Replacing a group text by three copies of itself keeps what the text is
/// about: it gets no shorter, it keeps a first and a last character that are
/// no parentheses, and it keeps its depth at the end and never goes deeper
/// below the depth `d` that it starts at.
pub proof fn lemma_tripled(t: Seq<char>, g: Seq<char>, d: int)
    requires
        is_group_text(g),
        forall|k: int| 0 <= k <= t.len() ==> d + #[trigger] depth(t, k) >= 0,
    ensures
        replaced(t, g, g + g + g).len() >= t.len(),
        t.len() > 0 && t[0] != '(' ==> replaced(t, g, g + g + g)[0] == t[0],
        t.len() > 0 && t[t.len() - 1] != ')' ==> replaced(t, g, g + g + g)[replaced(
            t,
            g,
            g + g + g,
        ).len() - 1] == t[t.len() - 1],
        depth(replaced(t, g, g + g + g), replaced(t, g, g + g + g).len() as int) == depth(
            t,
            t.len() as int,
        ),
        forall|k: int| 0 <= k <= replaced(t, g, g + g + g).len() ==>
            d + #[trigger] depth(replaced(t, g, g + g + g), k) >= 0,
    decreases t.len(),
{
    let to = g + g + g;
    let r = replaced(t, g, to);
    let m = g.len() as int;
    assert(d + depth(t, 0) >= 0);
    if t.len() < g.len() {
    } else if t.subrange(0, m) == g {
        let rest = t.subrange(m, t.len() as int);
        assert(t =~= g + rest);
        lemma_closed_joined(g, g);
        lemma_closed_joined(g + g, g);
        assert forall|k: int| 0 <= k <= rest.len() implies d + #[trigger] depth(rest, k) >= 0 by {
            lemma_depth_joined(g, rest, m + k);
            assert(d + depth(t, m + k) >= 0);
        }
        lemma_tripled(rest, g, d);
        let rr = replaced(rest, g, to);
        assert(r == to + rr);
        lemma_depth_joined(to, rr, r.len() as int);
        lemma_depth_joined(g, rest, t.len() as int);
        assert forall|k: int| 0 <= k <= r.len() implies d + #[trigger] depth(r, k) >= 0 by {
            lemma_depth_joined(to, rr, k);
            if k <= to.len() {
                assert(depth(to, k) >= 0);
            } else {
                assert(d + depth(rr, k - to.len()) >= 0);
            }
        }
        if t[t.len() - 1] != ')' {
            assert(rest.len() > 0);
            assert(rest[rest.len() - 1] == t[t.len() - 1]);
            assert(r[r.len() - 1] == rr[rr.len() - 1]);
        }
    } else {
        let rest = t.subrange(1, t.len() as int);
        let head = seq![t[0]];
        assert(t =~= head + rest);
        assert(depth(head, 1) == depth(head, 0) + paren_step(head[0]));
        let d1 = d + paren_step(t[0]);
        assert forall|k: int| 0 <= k <= rest.len() implies d1 + #[trigger] depth(rest, k) >= 0 by {
            lemma_depth_joined(head, rest, 1 + k);
            assert(d + depth(t, 1 + k) >= 0);
        }
        lemma_tripled(rest, g, d1);
        let rr = replaced(rest, g, to);
        assert(r == head + rr);
        lemma_depth_joined(head, rr, r.len() as int);
        lemma_depth_joined(head, rest, t.len() as int);
        assert forall|k: int| 0 <= k <= r.len() implies d + #[trigger] depth(r, k) >= 0 by {
            lemma_depth_joined(head, rr, k);
            if k >= 1 {
                assert(d1 + depth(rr, k - 1) >= 0);
            }
        }
        if t[t.len() - 1] != ')' {
            if rest.len() > 0 {
                assert(rest[rest.len() - 1] == t[t.len() - 1]);
                assert(r[r.len() - 1] == rr[rr.len() - 1]);
            } else {
                assert(rr =~= rest);
            }
        }
    }
}

/// The texts that are unrolled are group texts.
pub proof fn lemma_starred_texts(p: Seq<char>, gs: Seq<(int, int)>)
    requires
        forall|k: int| 0 <= k < gs.len() ==> is_group(p, (#[trigger] gs[k]).0, gs[k].1),
    ensures
        forall|j: int| 0 <= j < starred_texts(p, gs).len() ==>
            is_group_text(#[trigger] starred_texts(p, gs)[j]),
    decreases gs.len(),
{
    if gs.len() > 0 {
        assert forall|k: int| 0 <= k < gs.drop_last().len() implies
            is_group(p, (#[trigger] gs.drop_last()[k]).0, gs.drop_last()[k].1) by {
            assert(gs.drop_last()[k] == gs[k]);
        }
        lemma_starred_texts(p, gs.drop_last());
        assert(is_group(p, gs[gs.len() - 1].0, gs[gs.len() - 1].1));
        lemma_group_text(p, gs.last().0, gs.last().1);
        let before = starred_texts(p, gs.drop_last());
        assert forall|j: int| 0 <= j < starred_texts(p, gs).len() implies
            is_group_text(#[trigger] starred_texts(p, gs)[j]) by {
            if j < before.len() {
                assert(starred_texts(p, gs)[j] == before[j]);
            }
        }
    }
}

/// Unrolling group texts keeps a text balanced, makes it no shorter, and
/// keeps a first and a last character that are no parentheses.
pub proof fn lemma_unrolled_by(t: Seq<char>, groups: Seq<Seq<char>>)
    requires
        forall|j: int| 0 <= j < groups.len() ==> is_group_text(#[trigger] groups[j]),
    ensures
        unrolled_by(t, groups).len() >= t.len(),
        t.len() > 0 && t[0] != '(' ==> unrolled_by(t, groups)[0] == t[0],
        t.len() > 0 && t[t.len() - 1] != ')' ==> unrolled_by(t, groups)[unrolled_by(t, groups).len() - 1]
            == t[t.len() - 1],
        closed_text(t) ==> closed_text(unrolled_by(t, groups)),
    decreases groups.len(),
{
    if groups.len() > 0 {
        assert forall|j: int| 0 <= j < groups.drop_last().len() implies
            is_group_text(#[trigger] groups.drop_last()[j]) by {
            assert(groups.drop_last()[j] == groups[j]);
        }
        lemma_unrolled_by(t, groups.drop_last());
        let mid = unrolled_by(t, groups.drop_last());
        let g = groups.last();
        assert(is_group_text(groups[groups.len() - 1]));
        if closed_text(t) {
            lemma_tripled(mid, g, 0);
        } else {
            lemma_tripled_plain(mid, g);
        }
    }
}

/// Replacing a group text by three copies of itself makes a text no shorter
/// and keeps a first and a last character that are no parentheses.
pub proof fn lemma_tripled_plain(t: Seq<char>, g: Seq<char>)
    requires
        is_group_text(g),
    ensures
        replaced(t, g, g + g + g).len() >= t.len(),
        t.len() > 0 && t[0] != '(' ==> replaced(t, g, g + g + g)[0] == t[0],
        t.len() > 0 && t[t.len() - 1] != ')' ==> replaced(t, g, g + g + g)[replaced(
            t,
            g,
            g + g + g,
        ).len() - 1] == t[t.len() - 1],
    decreases t.len(),
{
    let to = g + g + g;
    let r = replaced(t, g, to);
    let m = g.len() as int;
    if t.len() < g.len() {
    } else if t.subrange(0, m) == g {
        let rest = t.subrange(m, t.len() as int);
        lemma_tripled_plain(rest, g);
        let rr = replaced(rest, g, to);
        if t[t.len() - 1] != ')' {
            assert(rest.len() > 0);
            assert(rest[rest.len() - 1] == t[t.len() - 1]);
            assert(r[r.len() - 1] == rr[rr.len() - 1]);
        }
    } else {
        let rest = t.subrange(1, t.len() as int);
        lemma_tripled_plain(rest, g);
        let rr = replaced(rest, g, to);
        if t[t.len() - 1] != ')' {
            if rest.len() > 0 {
                assert(rest[rest.len() - 1] == t[t.len() - 1]);
                assert(r[r.len() - 1] == rr[rr.len() - 1]);
            } else {
                assert(rr =~= rest);
            }
        }
    }
}

/// An unrolled pattern is no shorter than the pattern. It starts with `^` and
/// ends with `$` if the pattern does, and is balanced if the pattern is.
pub proof fn lemma_unrolled(p: Seq<char>)
    ensures
        unrolled(p).len() >= p.len(),
        has_anchors(p) ==> has_anchors(unrolled(p)),
        closed_text(p) ==> closed_text(unrolled(p)),
{
    lemma_group_list_groups(p, p.len() as int);
    lemma_starred_texts(p, group_list(p));
    lemma_unrolled_by(p, starred_texts(p, group_list(p)));
}

/// Whether `list` holds a string of the text of `g`.
fn holds(list: &Vec<String>, g: &String) -> (b: bool)
    ensures
        b == texts(list@).contains(g@),
{
    let mut k: usize = 0;
    while k < list.len()
        invariant
            k <= list@.len(),
            forall|j: int| 0 <= j < k ==> texts(list@)[j] != g@,
        decreases list@.len() - k,
    {
        if list[k] == *g {
            assert(texts(list@)[k as int] == g@);
            return true;
        }
        k += 1;
    }
    false
}

/// Unrolls the repeated groups of a pattern: a group that a `*` follows is
/// written three times, the `*` behind the third. The texts of those groups
/// are taken in the order of their closing parentheses, each text once, and
/// each in turn is replaced by its three copies wherever it stands in what
/// the earlier replacements made of the pattern.
pub fn unroll(regexp: &String) -> (r: String)
    ensures
        r@ == unrolled(regexp@),
        r@.len() >= regexp@.len(),
        has_anchors(regexp@) ==> has_anchors(r@),
        closed_text(regexp@) ==> closed_text(r@),
{
    proof {
        lemma_unrolled(regexp@);
    }
    let chars: Vec<char> = to_chars(regexp.as_str());
    let n: usize = chars.len();
    let all: Vec<(usize, usize)> = scan_groups(&chars);
    let ghost p = regexp@;
    let ghost gs = group_list(p);
    let mut groups: Vec<String> = Vec::new();
    let mut i: usize = 0;
    while i < all.len()
        invariant
            p == regexp@,
            chars@ == p,
            n == p.len(),
            gs == offsets(all@),
            forall|k: int| 0 <= k < all@.len() ==>
                is_group(p, (#[trigger] all@[k]).0 as int, all@[k].1 as int),
            i <= all@.len(),
            texts(groups@) == starred_texts(p, gs.take(i as int)),
        decreases all@.len() - i,
    {
        let (s, e) = all[i];
        proof {
            assert(is_group(p, all@[i as int].0 as int, all@[i as int].1 as int));
            assert(gs.take(i + 1).drop_last() =~= gs.take(i as int));
            assert(gs.take(i + 1).last() == (s as int, e as int));
        }
        if e + 1 < n && chars[e + 1] == '*' {
            let g: String = slice(regexp.as_str(), s, e + 1);
            if !holds(&groups, &g) {
                let ghost before = groups@;
                groups.push(g);
                assert(texts(groups@) =~= texts(before).push(g@));
            }
        }
        i += 1;
    }
    proof {
        assert(gs.take(all@.len() as int) =~= gs);
    }
    let ghost found = texts(groups@);
    let mut result: String = regexp.clone();
    let mut k: usize = 0;
    while k < groups.len()
        invariant
            p == regexp@,
            found == texts(groups@),
            k <= groups@.len(),
            result@ == unrolled_by(p, found.take(k as int)),
        decreases groups@.len() - k,
    {
        let g: &String = &groups[k];
        let mut thrice: String = g.clone();
        thrice.append(g.as_str());
        thrice.append(g.as_str());
        proof {
            assert(found.take(k + 1).drop_last() =~= found.take(k as int));
            assert(found.take(k + 1).last() == g@);
        }
        result = replace(result.as_str(), g.as_str(), thrice.as_str());
        k += 1;
    }
    proof {
        assert(found.take(groups@.len() as int) =~= found);
    }
    result
}

/// `t` cut at every `|`: the texts between them, empty ones too.
pub open spec fn pieces(t: Seq<char>) -> Seq<Seq<char>>
    decreases t.len(),
{
    if t.len() == 0 {
        seq![Seq::empty()]
    } else {
        let before = pieces(t.drop_last());
        if t.last() == '|' {
            before.push(Seq::empty())
        } else {
            before.update(before.len() - 1, before.last().push(t.last()))
        }
    }
}

/// The pattern once for each branch of the group from `s` to `e`: the branch
/// in place of the whole group.
pub open spec fn branches_of(p: Seq<char>, s: int, e: int) -> Seq<Seq<char>> {
    let parts = pieces(p.subrange(s + 1, e));
    Seq::new(parts.len(), |k: int| p.subrange(0, s) + parts[k] + p.subrange(e + 1, p.len() as int))
}

/// The branches of each of the groups `gs` in turn.
pub open spec fn projections_over(p: Seq<char>, gs: Seq<(int, int)>) -> Seq<Seq<char>>
    decreases gs.len(),
{
    if gs.len() == 0 {
        Seq::empty()
    } else {
        projections_over(p, gs.drop_last()) + branches_of(p, gs.last().0, gs.last().1)
    }
}

/// The branch projections of `p`: for each plain alternation, in the order of
/// the closing parentheses, the pattern once for each of its branches. A
/// pattern without a plain alternation is its own one projection.
pub open spec fn projections(p: Seq<char>) -> Seq<Seq<char>> {
    if reported_list(p, true).len() == 0 {
        seq![p]
    } else {
        projections_over(p, reported_list(p, true))
    }
}

/// The pieces of a text are never none.
proof fn lemma_pieces_nonempty(t: Seq<char>)
    ensures
        pieces(t).len() > 0,
    decreases t.len(),
{
    if t.len() > 0 {
        lemma_pieces_nonempty(t.drop_last());
    }
}

/// The pattern once for each branch of the group from `s` to `e`.
fn branches(regexp: &str, chars: &Vec<char>, s: usize, e: usize) -> (r: Vec<String>)
    requires
        chars@ == regexp@,
        s < e < chars@.len(),
    ensures
        texts(r@) == branches_of(regexp@, s as int, e as int),
{
    let ghost p = regexp@;
    let ghost inner = p.subrange(s + 1, e as int);
    let n: usize = chars.len();
    let head: String = slice(regexp, 0, s);
    let tail: String = slice(regexp, e + 1, n);
    let mut r: Vec<String> = Vec::new();
    let mut start: usize = s + 1;
    let mut i: usize = s + 1;
    proof {
        assert(inner.take(0) =~= Seq::<char>::empty());
        assert(p.subrange(s + 1, s + 1) =~= Seq::<char>::empty());
        assert(pieces(inner.take(0)) =~= seq![p.subrange(start as int, i as int)]);
        assert(Seq::new(r@.len(), |k: int| pieces(inner.take(0))[k]) =~= Seq::<Seq<char>>::empty());
    }
    while i < e
        invariant
            p == regexp@,
            chars@ == p,
            inner == p.subrange(s + 1, e as int),
            n == p.len(),
            s < e < n,
            head@ == p.subrange(0, s as int),
            tail@ == p.subrange(e + 1, n as int),
            s + 1 <= start <= i <= e,
            pieces(inner.take(i - (s + 1))).len() == r@.len() + 1,
            pieces(inner.take(i - (s + 1))).last() == p.subrange(start as int, i as int),
            forall|k: int| 0 <= k < r@.len() ==>
                (#[trigger] r@[k])@ == head@ + pieces(inner.take(i - (s + 1)))[k] + tail@,
        decreases e - i,
    {
        let ghost done = pieces(inner.take(i - (s + 1)));
        proof {
            let next = inner.take(i + 1 - (s + 1));
            assert(next.drop_last() =~= inner.take(i - (s + 1)));
            assert(next.last() == p[i as int]);
        }
        if chars[i] == '|' {
            let mut whole: String = head.clone();
            whole.append(regexp.substring_char(start, i));
            whole.append(tail.as_str());
            r.push(whole);
            start = i + 1;
            proof {
                assert(p.subrange(i + 1, i + 1) =~= Seq::<char>::empty());
            }
        } else {
            proof {
                assert(p.subrange(start as int, i as int).push(p[i as int])
                    =~= p.subrange(start as int, i + 1));
            }
        }
        i += 1;
    }
    let mut whole: String = head.clone();
    whole.append(regexp.substring_char(start, e));
    whole.append(tail.as_str());
    r.push(whole);
    proof {
        assert(inner.take(e - (s + 1)) =~= inner);
        assert(texts(r@) =~= branches_of(p, s as int, e as int));
    }
    r
}

/// The branch projections of a pattern: for each group that holds a `|`, no
/// parenthesis and is not followed by `*`, the pattern once for each branch
/// of the group, with the branch in place of the group. Where the pattern
/// has no such group, the pattern itself and nothing else.
pub fn split(regexp: &String) -> (r: Vec<String>)
    ensures
        texts(r@) == projections(regexp@),
        reported_list(regexp@, true).len() == 0 ==> texts(r@) == seq![regexp@],
{
    let chars: Vec<char> = to_chars(regexp.as_str());
    let positions: Vec<(usize, usize)> = find_parentheses(regexp, true);
    let ghost p = regexp@;
    let ghost gs = reported_list(p, true);
    let mut results: Vec<String> = Vec::new();
    if positions.len() == 0 {
        results.push(regexp.clone());
        assert(gs.len() == offsets(positions@).len());
        assert(texts(results@) =~= seq![p]);
        return results;
    }
    let mut i: usize = 0;
    while i < positions.len()
        invariant
            p == regexp@,
            chars@ == p,
            gs == offsets(positions@),
            forall|k: int| 0 <= k < positions@.len() ==>
                is_group(p, (#[trigger] positions@[k]).0 as int, positions@[k].1 as int),
            i <= positions@.len(),
            texts(results@) == projections_over(p, gs.take(i as int)),
        decreases positions@.len() - i,
    {
        let (s, e) = positions[i];
        proof {
            assert(is_group(p, positions@[i as int].0 as int, positions@[i as int].1 as int));
            assert(gs.take(i + 1).drop_last() =~= gs.take(i as int));
            assert(gs.take(i + 1).last() == (s as int, e as int));
        }
        let mut found: Vec<String> = branches(regexp.as_str(), &chars, s, e);
        let ghost before = results@;
        let ghost added = found@;
        results.append(&mut found);
        proof {
            assert(texts(results@) =~= texts(before) + texts(added));
        }
        i += 1;
    }
    proof {
        assert(gs.take(positions@.len() as int) =~= gs);
    }
    results
}

/// The patterns that the redundancy test tries: the widest completion of
/// each branch projection of the unrolled pattern; where the unrolled pattern
/// has no plain alternation, the widest completion of the pattern as it is
/// written.
pub open spec fn completions(p: Seq<char>) -> Seq<Seq<char>> {
    if reported_list(unrolled(p), true).len() == 0 {
        seq![widest(p)]
    } else {
        let branches = projections(unrolled(p));
        Seq::new(branches.len(), |k: int| widest(branches[k]))
    }
}

/// Some completion misses a positive example.
pub open spec fn redundant(p: Seq<char>, positive: Seq<String>) -> bool {
    exists|k: int| 0 <= k < completions(p).len()
        && !accepts_all(#[trigger] completions(p)[k], positive)
}

/// Every completion compiles.
pub open spec fn completions_compile(p: Seq<char>) -> bool {
    forall|k: int| 0 <= k < completions(p).len() ==> compiles(#[trigger] completions(p)[k])
}

/// The patterns that the redundancy test tries, as [`completions`] lists
/// them.
pub fn complete(regexp: &String) -> (r: Vec<String>)
    ensures
        texts(r@) == completions(regexp@),
{
    let unrolled_text: String = unroll(regexp);
    let mut r: Vec<String> = Vec::new();
    if find_parentheses(&unrolled_text, true).len() == 0 {
        r.push(widen(regexp.as_str()));
        assert(texts(r@) =~= seq![widest(regexp@)]);
        return r;
    }
    let results: Vec<String> = split(&unrolled_text);
    let ghost branches = texts(results@);
    let mut i: usize = 0;
    while i < results.len()
        invariant
            branches == texts(results@),
            i <= results@.len(),
            r@.len() == i,
            forall|k: int| 0 <= k < i ==> (#[trigger] r@[k])@ == widest(branches[k]),
        decreases results@.len() - i,
    {
        let w: String = widen(results[i].as_str());
        assert(branches[i as int] == results@[i as int]@);
        r.push(w);
        i += 1;
    }
    proof {
        assert(texts(r@) =~= completions(regexp@));
    }
    r
}

/// The redundancy test: whether some branch projection of the unrolled
/// pattern, with `.*` at every open position, misses a positive example.
/// Where the unrolled pattern has no plain alternation, the pattern as it is
/// written is tested in their place.
pub fn is_redundant(regexp: &String, positive_set: &Vec<String>) -> (b: bool)
    requires
        completions_compile(regexp@),
    ensures
        b == redundant(regexp@, positive_set@),
{
    let candidates: Vec<String> = complete(regexp);
    let ghost cs = completions(regexp@);
    let mut i: usize = 0;
    while i < candidates.len()
        invariant
            cs == completions(regexp@),
            cs == texts(candidates@),
            completions_compile(regexp@),
            i <= candidates@.len(),
            forall|k: int| 0 <= k < i ==> accepts_all(#[trigger] cs[k], positive_set@),
        decreases candidates@.len() - i,
    {
        assert(cs[i as int] == candidates@[i as int]@);
        assert(compiles(cs[i as int]));
        if !match_all(candidates[i].as_str(), positive_set) {
            return true;
        }
        i += 1;
    }
    false
}

/// [`is_redundant`] for any pattern: nothing where some completion does not
/// compile.
pub fn try_is_redundant(regexp: &String, positive_set: &Vec<String>) -> (r: Option<bool>)
    ensures
        match r {
            Some(b) => completions_compile(regexp@) && b == redundant(regexp@, positive_set@),
            None => !completions_compile(regexp@),
        },
{
    let candidates: Vec<String> = complete(regexp);
    let ghost cs = completions(regexp@);
    let mut i: usize = 0;
    while i < candidates.len()
        invariant
            cs == completions(regexp@),
            cs == texts(candidates@),
            i <= candidates@.len(),
            forall|k: int| 0 <= k < i ==> compiles(#[trigger] cs[k]),
        decreases candidates@.len() - i,
    {
        assert(cs[i as int] == candidates@[i as int]@);
        if !pattern_compiles(candidates[i].as_str()) {
            return None;
        }
        i += 1;
    }
    Some(is_redundant(regexp, positive_set))
}

} // verus!
