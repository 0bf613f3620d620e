//! Pattern text: the open-position marker, and the text edits built on it.
use vstd::prelude::*;
use vstd::string::*;

verus! {

/// The marker of an open position: a backslash, `x`, `0`, `0`.
pub open spec fn hole() -> Seq<char> {
    seq!['\\', 'x', '0', '0']
}

/// The marker stands in `p` at offset `i`.
pub open spec fn hole_at(p: Seq<char>, i: int) -> bool {
    &&& 0 <= i
    &&& i + 4 <= p.len()
    &&& p[i] == '\\'
    &&& p[i + 1] == 'x'
    &&& p[i + 2] == '0'
    &&& p[i + 3] == '0'
}

/// Some position of `p` is still open.
pub open spec fn has_hole(p: Seq<char>) -> bool {
    exists|i: int| hole_at(p, i)
}

/// `p` with the four characters at `at` replaced by `with`.
pub open spec fn spliced(p: Seq<char>, at: int, with: Seq<char>) -> Seq<char> {
    p.subrange(0, at) + with + p.subrange(at + 4, p.len() as int)
}

/// `t` with every occurrence of `from` replaced by `to`, occurrences taken
/// from the left and never overlapping. An empty `from` occurs nowhere.
pub open spec fn replaced(t: Seq<char>, from: Seq<char>, to: Seq<char>) -> Seq<char>
    decreases t.len(),
{
    if from.len() == 0 || t.len() < from.len() {
        t
    } else if t.subrange(0, from.len() as int) == from {
        to + replaced(t.subrange(from.len() as int, t.len() as int), from, to)
    } else {
        seq![t[0]] + replaced(t.subrange(1, t.len() as int), from, to)
    }
}

/// `from` occurs in `t` at offset `i`.
pub open spec fn occurs_at(t: Seq<char>, from: Seq<char>, i: int) -> bool {
    0 <= i && i + from.len() <= t.len() && t.subrange(i, i + from.len()) == from
}

/// The characters of a string, in order.
pub fn to_chars(s: &str) -> (v: Vec<char>)
    ensures
        v@ == s@,
{
    broadcast use vstd::string::group_string_axioms;

    let mut v: Vec<char> = Vec::new();
    for c in it: s.chars()
        invariant
            it.seq() == s@,
            v@ == s@.take(it.index()),
    {
        v.push(c);
    }
    v
}

/// Whether the marker stands at offset `i`.
pub fn is_hole_at(chars: &Vec<char>, i: usize) -> (b: bool)
    ensures
        b == hole_at(chars@, i as int),
{
    let n: usize = chars.len();
    if n < 4 || i > n - 4 {
        return false;
    }
    chars[i] == '\\' && chars[i + 1] == 'x' && chars[i + 2] == '0' && chars[i + 3] == '0'
}

/// The first open position at or after `from`.
pub fn find_hole(chars: &Vec<char>, from: usize) -> (r: Option<usize>)
    ensures
        match r {
            Some(i) => from <= i && hole_at(chars@, i as int) && forall|j: int|
                from <= j < i ==> !hole_at(chars@, j),
            None => forall|j: int| from <= j ==> !hole_at(chars@, j),
        },
{
    let n: usize = chars.len();
    let mut i: usize = from;
    while i < n
        invariant
            from <= i,
            n == chars.len(),
            forall|j: int| from <= j < i ==> !hole_at(chars@, j),
        decreases n - i,
    {
        if is_hole_at(chars, i) {
            return Some(i);
        }
        i += 1;
    }
    None
}

/// Whether `from` occurs in `t` at offset `i`.
pub fn occurs(t: &Vec<char>, from: &Vec<char>, i: usize) -> (b: bool)
    ensures
        b == occurs_at(t@, from@, i as int),
{
    let n: usize = t.len();
    let m: usize = from.len();
    if m > n || i > n - m {
        return false;
    }
    let mut k: usize = 0;
    while k < m
        invariant
            m == from.len(),
            n == t.len(),
            i + m <= n,
            k <= m,
            forall|j: int| 0 <= j < k ==> t@[i + j] == from@[j],
        decreases m - k,
    {
        if t[i + k] != from[k] {
            assert(t@.subrange(i as int, i + m)[k as int] != from@[k as int]);
            return false;
        }
        k += 1;
    }
    assert(t@.subrange(i as int, i + m) =~= from@);
    true
}

/// The text of `s` with the marker at `at` replaced by `with`.
pub fn splice(s: &str, at: usize, with: &str) -> (r: String)
    requires
        at + 4 <= s@.len(),
    ensures
        r@ == spliced(s@, at as int, with@),
{
    let n: usize = s.unicode_len();
    let mut out: String = String::from_str(s.substring_char(0, at));
    out.append(with);
    out.append(s.substring_char(at + 4, n));
    out
}

/// The texts of a list of strings.
pub open spec fn texts(v: Seq<String>) -> Seq<Seq<char>> {
    Seq::new(v.len(), |i: int| v[i]@)
}

/// The text of `s` from offset `from` up to `to`, as a string of its own.
pub fn slice(s: &str, from: usize, to: usize) -> (r: String)
    requires
        from <= to <= s@.len(),
    ensures
        r@ == s@.subrange(from as int, to as int),
{
    String::from_str(s.substring_char(from, to))
}

/// `text` with every occurrence of `from` replaced by `to`, occurrences taken
/// from the left and never overlapping. With an empty `from` the text is
/// returned as it is.
pub fn replace(text: &str, from: &str, to: &str) -> (r: String)
    ensures
        r@ == replaced(text@, from@, to@),
{
    let t: Vec<char> = to_chars(text);
    let f: Vec<char> = to_chars(from);
    let n: usize = t.len();
    let m: usize = f.len();
    if m == 0 || n < m {
        return String::from_str(text);
    }
    let ghost full = text@;
    let ghost pat = from@;
    let ghost sub = to@;
    let mut out: String = String::new();
    let mut start: usize = 0;
    let mut i: usize = 0;
    proof {
        assert(full.subrange(0, n as int) =~= full);
        assert(out@ + full.subrange(0, 0) + replaced(full, pat, sub) =~= replaced(full, pat, sub));
    }
    while i <= n - m
        invariant
            full == text@,
            pat == from@,
            sub == to@,
            t@ == full,
            f@ == pat,
            n == full.len(),
            m == pat.len(),
            0 < m <= n,
            start <= i <= n,
            replaced(full, pat, sub) == out@ + full.subrange(start as int, i as int) + replaced(
                full.subrange(i as int, n as int),
                pat,
                sub,
            ),
        decreases n - i,
    {
        let ghost rest = full.subrange(i as int, n as int);
        proof {
            assert(rest.subrange(0, m as int) =~= full.subrange(i as int, i + m));
        }
        if occurs(&t, &f, i) {
            proof {
                assert(rest.subrange(m as int, rest.len() as int)
                    =~= full.subrange(i + m, n as int));
                assert(full.subrange(i + m, i + m) =~= Seq::<char>::empty());
                assert(out@ + full.subrange(start as int, i as int) + (sub + replaced(
                    full.subrange(i + m, n as int),
                    pat,
                    sub,
                )) =~= (out@ + full.subrange(start as int, i as int) + sub) + full.subrange(i + m, i + m)
                    + replaced(full.subrange(i + m, n as int), pat, sub));
            }
            out.append(text.substring_char(start, i));
            out.append(to);
            i += m;
            start = i;
        } else {
            proof {
                assert(rest.subrange(1, rest.len() as int) =~= full.subrange(i + 1, n as int));
                assert(full.subrange(start as int, i as int) + seq![rest[0]] =~= full.subrange(
                    start as int,
                    i + 1,
                ));
                assert(out@ + full.subrange(start as int, i as int) + (seq![rest[0]] + replaced(
                    full.subrange(i + 1, n as int),
                    pat,
                    sub,
                )) =~= out@ + (full.subrange(start as int, i as int) + seq![rest[0]]) + replaced(
                    full.subrange(i + 1, n as int),
                    pat,
                    sub,
                ));
            }
            i += 1;
        }
    }
    proof {
        assert(full.subrange(start as int, i as int) + full.subrange(i as int, n as int)
            =~= full.subrange(
            start as int,
            n as int,
        ));
        assert(out@ + full.subrange(start as int, i as int) + full.subrange(i as int, n as int) =~= out@
            + full.subrange(start as int, n as int));
    }
    out.append(text.substring_char(start, n));
    out
}

} // verus!
