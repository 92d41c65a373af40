//! Verified string utilities used by the naming-convention parsers: substring
//! search, prefix tests, and splitting on a separator character.

use vstd::prelude::*;

verus! {

/// `p` occurs in `s` starting at character index `i`.
pub open spec fn matches_at(s: Seq<char>, p: Seq<char>, i: int) -> bool {
    0 <= i && i + p.len() <= s.len() && s.subrange(i, i + p.len()) == p
}

/// `p` occurs somewhere in `s`.
pub open spec fn contains_seq(s: Seq<char>, p: Seq<char>) -> bool {
    exists|i: int| matches_at(s, p, i)
}

/// `p` is a prefix of `s`.
pub open spec fn has_prefix(s: Seq<char>, p: Seq<char>) -> bool {
    p.len() <= s.len() && s.subrange(0, p.len() as int) == p
}

/// Whether `p` occurs in `s` at index `i`, by comparing characters.
fn match_at(s: &str, p: &str, i: usize) -> (b: bool)
    requires
        i + p@.len() <= s@.len(),
    ensures
        b == matches_at(s@, p@, i as int),
{
    let plen = p.unicode_len();
    let slen = s.unicode_len();
    let mut j: usize = 0;
    while j < plen
        invariant
            plen == p@.len(),
            slen == s@.len(),
            i + plen <= slen,
            0 <= j <= plen,
            forall|k: int| 0 <= k < j ==> s@[i + k] == p@[k],
        decreases plen - j,
    {
        if s.get_char(i + j) != p.get_char(j) {
            assert(s@.subrange(i as int, i + p@.len())[j as int] != p@[j as int]);
            return false;
        }
        j += 1;
    }
    assert(s@.subrange(i as int, i + p@.len()) =~= p@);
    true
}

/// Whether `pat` occurs anywhere in `s`.
pub fn str_contains(s: &str, pat: &str) -> (b: bool)
    ensures
        b == contains_seq(s@, pat@),
{
    let slen = s.unicode_len();
    let plen = pat.unicode_len();
    if plen > slen {
        assert(forall|i: int| !matches_at(s@, pat@, i));
        return false;
    }
    if plen == 0 {
        assert(s@.subrange(0, 0) =~= pat@);
        assert(matches_at(s@, pat@, 0));
        return true;
    }
    let last = slen - plen;
    let mut i: usize = 0;
    while i <= last
        invariant
            slen == s@.len(),
            plen == pat@.len(),
            1 <= plen <= slen,
            last == slen - plen,
            0 <= i <= last + 1,
            forall|k: int| 0 <= k < i ==> !matches_at(s@, pat@, k),
        decreases last + 1 - i,
    {
        if match_at(s, pat, i) {
            return true;
        }
        i += 1;
    }
    assert(forall|k: int| matches_at(s@, pat@, k) ==> 0 <= k <= last as int);
    false
}

/// Whether `p` is a prefix of `s`.
pub fn str_has_prefix(s: &str, p: &str) -> (b: bool)
    ensures
        b == has_prefix(s@, p@),
{
    let slen = s.unicode_len();
    let plen = p.unicode_len();
    if plen > slen {
        return false;
    }
    match_at(s, p, 0)
}

/// The segments of `s` between occurrences of the separator `c`, in order.
/// An empty input has one empty segment; a separator at either end or two
/// adjacent separators produce empty segments, as `str::split` does.
pub open spec fn split_char(s: Seq<char>, c: char) -> Seq<Seq<char>>
    decreases s.len(),
{
    if s.len() == 0 {
        seq![Seq::<char>::empty()]
    } else if s.last() == c {
        split_char(s.drop_last(), c).push(Seq::<char>::empty())
    } else {
        let r = split_char(s.drop_last(), c);
        r.update(r.len() - 1, r.last().push(s.last()))
    }
}

pub proof fn lemma_split_char_len(s: Seq<char>, c: char)
    ensures
        split_char(s, c).len() >= 1,
    decreases s.len(),
{
    if s.len() > 0 {
        lemma_split_char_len(s.drop_last(), c);
    }
}

/// A string without the separator splits into a single segment: itself.
pub proof fn lemma_split_char_whole(s: Seq<char>, c: char)
    requires
        forall|i: int| 0 <= i < s.len() ==> s[i] != c,
    ensures
        split_char(s, c) == seq![s],
    decreases s.len(),
{
    if s.len() == 0 {
        assert(split_char(s, c) =~~= seq![s]);
    } else {
        assert(forall|i: int| 0 <= i < s.drop_last().len() ==> s.drop_last()[i] == s[i]);
        lemma_split_char_whole(s.drop_last(), c);
        lemma_split_char_len(s.drop_last(), c);
        assert(s.last() != c);
        assert(s.drop_last().push(s.last()) =~= s);
        let r = split_char(s.drop_last(), c);
        assert(r == seq![s.drop_last()]);
        assert(r.last() == s.drop_last());
        assert(split_char(s, c) == r.update(0, s.drop_last().push(s.last())));
        assert(split_char(s, c) =~~= seq![s]);
    }
}

/// Splitting around one separator concatenates the splits of the two halves.
pub proof fn lemma_split_char_concat(x: Seq<char>, y: Seq<char>, c: char)
    ensures
        split_char(x + seq![c] + y, c) == split_char(x, c) + split_char(y, c),
    decreases y.len(),
{
    let s = x + seq![c] + y;
    lemma_split_char_len(x, c);
    if y.len() == 0 {
        assert(s.len() == x.len() + 1);
        assert(s.last() == c);
        assert(s.drop_last() =~= x);
        assert(split_char(y, c) =~~= seq![Seq::<char>::empty()]);
        assert(split_char(s, c) =~~= split_char(x, c) + split_char(y, c));
    } else {
        lemma_split_char_concat(x, y.drop_last(), c);
        lemma_split_char_len(y.drop_last(), c);
        assert(s.last() == y.last());
        assert(s.drop_last() =~= x + seq![c] + y.drop_last());
        let pre = split_char(x, c) + split_char(y.drop_last(), c);
        if y.last() == c {
            assert(split_char(s, c) =~~= split_char(x, c) + split_char(y, c));
        } else {
            assert(pre.len() >= 2);
            assert(pre.last() == split_char(y.drop_last(), c).last());
            assert(split_char(s, c) == pre.update(pre.len() - 1, pre.last().push(y.last())));
            assert(split_char(s, c) =~~= split_char(x, c) + split_char(y, c));
        }
    }
}

/// The views of a sequence of owned strings.
pub open spec fn seq_views(v: Seq<String>) -> Seq<Seq<char>> {
    v.map_values(|x: String| x@)
}

/// Splits `s` on the character `c`, as `str::split` does.
pub fn str_split(s: &str, c: char) -> (r: Vec<String>)
    ensures
        seq_views(r@) == split_char(s@, c),
{
    let n = s.unicode_len();
    let mut res: Vec<String> = Vec::new();
    let mut start: usize = 0;
    let mut i: usize = 0;
    proof {
        assert(s@.take(0) =~= Seq::<char>::empty());
        assert(s@.subrange(0, 0) =~= Seq::<char>::empty());
        assert(seq_views(res@).push(s@.subrange(0, 0)) =~~= split_char(s@.take(0), c));
    }
    while i < n
        invariant
            n == s@.len(),
            0 <= start <= i <= n,
            seq_views(res@).push(s@.subrange(start as int, i as int)) == split_char(
                s@.take(i as int),
                c,
            ),
        decreases n - i,
    {
        proof {
            assert(s@.take(i + 1).drop_last() =~= s@.take(i as int));
            assert(s@.take(i + 1).last() == s@[i as int]);
        }
        if s.get_char(i) == c {
            let seg = s.substring_char(start, i);
            let owned = seg.to_owned();
            proof {
                assert(seq_views(res@.push(owned)) =~= seq_views(res@).push(
                    s@.subrange(start as int, i as int),
                ));
            }
            res.push(owned);
            start = i + 1;
            proof {
                assert(s@.subrange(start as int, i + 1) =~= Seq::<char>::empty());
                assert(seq_views(res@).push(s@.subrange(start as int, i + 1)) =~= split_char(
                    s@.take(i + 1),
                    c,
                ));
            }
        } else {
            proof {
                let r = split_char(s@.take(i as int), c);
                lemma_split_char_len(s@.take(i as int), c);
                assert(r.last() == s@.subrange(start as int, i as int));
                assert(s@.subrange(start as int, i as int).push(s@[i as int]) =~= s@.subrange(
                    start as int,
                    i + 1,
                ));
                assert(seq_views(res@).push(s@.subrange(start as int, i + 1)) =~= r.update(
                    r.len() - 1,
                    r.last().push(s@[i as int]),
                ));
            }
        }
        i += 1;
    }
    let seg = s.substring_char(start, n);
    let owned = seg.to_owned();
    proof {
        assert(s@.take(n as int) =~= s@);
        assert(seq_views(res@.push(owned)) =~= seq_views(res@).push(
            s@.subrange(start as int, n as int),
        ));
    }
    res.push(owned);
    res
}

/// Whether `a` and `b` hold the same characters.
pub fn str_eq(a: &str, b: &str) -> (r: bool)
    ensures
        r == (a@ == b@),
{
    let alen = a.unicode_len();
    let blen = b.unicode_len();
    if alen != blen {
        return false;
    }
    let r = match_at(a, b, 0);
    proof {
        if r {
            assert(a@ =~= a@.subrange(0, a@.len() as int));
        } else {
            assert(a@.subrange(0, b@.len() as int) =~= a@);
        }
    }
    r
}

} // verus!
