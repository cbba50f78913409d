//! The longest-match finder and the block aggregator: locating the longest
//! common contiguous run of two text sequences inside a pair of windows,
//! and decomposing the full sequences into an ordered list of maximal
//! matching blocks with a trailing sentinel.

use crate::text::chars_of;
use vstd::prelude::*;

verus! {

/// A pair of half-open windows `[lo1, hi1)` into `s` and `[lo2, hi2)` into
/// `l`, with all offsets in range.
pub open spec fn valid_window(
    s: Seq<char>,
    l: Seq<char>,
    lo1: int,
    hi1: int,
    lo2: int,
    hi2: int,
) -> bool {
    0 <= lo1 <= hi1 <= s.len() && 0 <= lo2 <= hi2 <= l.len()
}

/// The runs of length `k` starting at `i` in `s` and at `j` in `l` hold
/// the same scalar values.
pub open spec fn same_run(s: Seq<char>, l: Seq<char>, i: int, j: int, k: int) -> bool {
    s.subrange(i, i + k) == l.subrange(j, j + k)
}

/// `(i, j, k)` describes a common substring of the two windows:
/// `s[i..i+k] == l[j..j+k]`, lying entirely inside the window bounds.
pub open spec fn match_in(
    s: Seq<char>,
    l: Seq<char>,
    lo1: int,
    hi1: int,
    lo2: int,
    hi2: int,
    i: int,
    j: int,
    k: int,
) -> bool {
    &&& lo1 <= i
    &&& i + k <= hi1
    &&& lo2 <= j
    &&& j + k <= hi2
    &&& 0 <= k
    &&& same_run(s, l, i, j, k)
}

/// The triple the longest-match search must return: a longest common
/// substring of the two windows, ties broken by the smallest start in `s`,
/// then by the smallest start in `l`; when the windows share nothing, the
/// zero-length triple anchored at the window starts.
pub open spec fn is_best(
    s: Seq<char>,
    l: Seq<char>,
    lo1: int,
    hi1: int,
    lo2: int,
    hi2: int,
    m: (int, int, int),
) -> bool {
    &&& valid_window(s, l, lo1, hi1, lo2, hi2)
    &&& match_in(s, l, lo1, hi1, lo2, hi2, m.0, m.1, m.2)
    &&& forall|i2: int, j2: int, k2: int|
        match_in(s, l, lo1, hi1, lo2, hi2, i2, j2, k2) ==> k2 <= m.2
    &&& (m.2 == 0 ==> m.0 == lo1 && m.1 == lo2)
    &&& (m.2 > 0 ==> forall|i2: int, j2: int|
        match_in(s, l, lo1, hi1, lo2, hi2, i2, j2, m.2) ==> m.0 <= i2 && (i2 == m.0 ==> m.1
            <= j2))
}

/// Only one triple satisfies `is_best` for a given pair of windows.
pub proof fn lemma_best_unique(
    s: Seq<char>,
    l: Seq<char>,
    lo1: int,
    hi1: int,
    lo2: int,
    hi2: int,
    m1: (int, int, int),
    m2: (int, int, int),
)
    requires
        is_best(s, l, lo1, hi1, lo2, hi2, m1),
        is_best(s, l, lo1, hi1, lo2, hi2, m2),
    ensures
        m1 == m2,
{
    assert(m1.2 <= m2.2);
    assert(m2.2 <= m1.2);
    if m1.2 > 0 {
        assert(m1.0 <= m2.0);
        assert(m2.0 <= m1.0);
        assert(m1.1 <= m2.1);
        assert(m2.1 <= m1.1);
    }
    assert(m1 == (m1.0, m1.1, m1.2));
    assert(m2 == (m2.0, m2.1, m2.2));
}

fn eq_range(l: &Vec<char>, j: usize, s: &Vec<char>, st: usize, size: usize) -> (r: bool)
    requires
        j + size <= l@.len(),
        st + size <= s@.len(),
    ensures
        r == (l@.subrange(j as int, j + size) == s@.subrange(st as int, st + size)),
{
    let s_len = s.len();
    let l_len = l.len();
    let mut t: usize = 0;
    while t < size
        invariant
            j + size <= l@.len(),
            st + size <= s@.len(),
            l@.len() == l_len,
            s@.len() == s_len,
            t <= size,
            forall|m: int| 0 <= m < t ==> l@[j + m] == #[trigger] s@[st + m],
        decreases size - t,
    {
        if l[j + t] != s[st + t] {
            proof {
                assert(l@.subrange(j as int, j + size)[t as int] == l@[j + t]);
                assert(s@.subrange(st as int, st + size)[t as int] == s@[st + t]);
            }
            return false;
        }
        t = t + 1;
    }
    proof {
        let a = l@.subrange(j as int, j + size);
        let b = s@.subrange(st as int, st + size);
        assert forall|m: int| 0 <= m < size implies a[m] == b[m] by {
            assert(a[m] == l@[j + m]);
            assert(b[m] == s@[st + m]);
        }
        assert(a =~= b);
    }
    true
}

fn first_occurrence(
    l: &Vec<char>,
    lo2: usize,
    hi2: usize,
    s: &Vec<char>,
    st: usize,
    size: usize,
) -> (r: Option<usize>)
    requires
        lo2 <= hi2 <= l@.len(),
        st + size <= s@.len(),
        1 <= size,
    ensures
        r matches Some(j) ==> lo2 <= j && j + size <= hi2 && same_run(
            s@,
            l@,
            st as int,
            j as int,
            size as int,
        ) && forall|j2: int| lo2 <= j2 < j ==> !same_run(s@, l@, st as int, j2, size as int),
        r is None ==> forall|j2: int|
            lo2 <= j2 && j2 + size <= hi2 ==> !same_run(s@, l@, st as int, j2, size as int),
{
    if size > hi2 - lo2 {
        return None;
    }
    let mut j = lo2;
    while j <= hi2 - size
        invariant
            lo2 <= hi2 <= l@.len(),
            st + size <= s@.len(),
            1 <= size <= hi2 - lo2,
            lo2 <= j,
            j <= hi2 - size + 1,
            forall|j2: int| lo2 <= j2 < j ==> !same_run(s@, l@, st as int, j2, size as int),
        decreases hi2 + 1 - size - j,
    {
        if eq_range(l, j, s, st, size) {
            return Some(j);
        }
        j = j + 1;
    }
    None
}

/// Finds the longest matching run of `s[low1..high1)` and `l[low2..high2)`,
/// returning the triple that `is_best` describes: longest first, then
/// earliest in `s`, then earliest in `l`.
pub fn find_longest_match_chars(
    s: &Vec<char>,
    l: &Vec<char>,
    low1: usize,
    high1: usize,
    low2: usize,
    high2: usize,
) -> (r: (usize, usize, usize))
    requires
        valid_window(s@, l@, low1 as int, high1 as int, low2 as int, high2 as int),
    ensures
        is_best(
            s@,
            l@,
            low1 as int,
            high1 as int,
            low2 as int,
            high2 as int,
            (r.0 as int, r.1 as int, r.2 as int),
        ),
{
    let ghost w1 = low1 as int;
    let ghost w2 = high1 as int;
    let ghost w3 = low2 as int;
    let ghost w4 = high2 as int;
    let slen = high1 - low1;
    let mut size = slen;
    while size >= 1
        invariant
            valid_window(s@, l@, w1, w2, w3, w4),
            w1 == low1 as int && w2 == high1 as int && w3 == low2 as int && w4 == high2 as int,
            slen == high1 - low1,
            size <= slen,
            forall|i2: int, j2: int, k2: int|
                match_in(s@, l@, w1, w2, w3, w4, i2, j2, k2) ==> k2 <= size,
        decreases size,
    {
        let mut start: usize = 0;
        while start <= slen - size
            invariant
                valid_window(s@, l@, w1, w2, w3, w4),
                w1 == low1 as int && w2 == high1 as int && w3 == low2 as int && w4 == high2 as int,
                slen == high1 - low1,
                1 <= size <= slen,
                start <= slen - size + 1,
                forall|i2: int, j2: int, k2: int|
                    match_in(s@, l@, w1, w2, w3, w4, i2, j2, k2) ==> k2 <= size,
                forall|i2: int, j2: int|
                    i2 < low1 + start ==> !match_in(s@, l@, w1, w2, w3, w4, i2, j2, size as int),
            decreases slen + 1 - size - start,
        {
            let st = low1 + start;
            match first_occurrence(l, low2, high2, s, st, size) {
                Some(j) => {
                    proof {
                        assert(s@.subrange(st as int, st + size) == l@.subrange(
                            j as int,
                            j + size,
                        ));
                        assert(match_in(s@, l@, w1, w2, w3, w4, st as int, j as int, size as int));
                        assert forall|i2: int, j2: int|
                            match_in(
                                s@,
                                l@,
                                w1,
                                w2,
                                w3,
                                w4,
                                i2,
                                j2,
                                size as int,
                            ) implies st <= i2 && (i2 == st ==> j <= j2) by {
                            if i2 == st && j2 < j {
                                assert(l@.subrange(j2, j2 + size) == s@.subrange(
                                    st as int,
                                    st + size,
                                ));
                            }
                        }
                    }
                    return (st, j, size);
                },
                None => {
                    proof {
                        assert forall|i2: int, j2: int|
                            i2 < low1 + start + 1 implies !match_in(
                            s@,
                            l@,
                            w1,
                            w2,
                            w3,
                            w4,
                            i2,
                            j2,
                            size as int,
                        ) by {
                            if i2 == low1 + start && match_in(
                                s@,
                                l@,
                                w1,
                                w2,
                                w3,
                                w4,
                                i2,
                                j2,
                                size as int,
                            ) {
                                assert(l@.subrange(j2, j2 + size) == s@.subrange(
                                    st as int,
                                    st + size,
                                ));
                            }
                        }
                    }
                },
            }
            start = start + 1;
        }
        proof {
            assert forall|i2: int, j2: int, k2: int|
                match_in(s@, l@, w1, w2, w3, w4, i2, j2, k2) implies k2 <= size - 1 by {
                if k2 == size {
                    assert(i2 + size <= w2);
                    assert(i2 < low1 + start);
                }
            }
        }
        size = size - 1;
    }
    proof {
        assert(s@.subrange(w1, w1) =~= l@.subrange(w3, w3));
        assert(match_in(s@, l@, w1, w2, w3, w4, w1, w3, 0));
    }
    (low1, low2, 0)
}

/// The view of a list of executable block triples at the mathematical level.
pub open spec fn triples_view(v: Seq<(usize, usize, usize)>) -> Seq<(int, int, int)> {
    v.map_values(|t: (usize, usize, usize)| (t.0 as int, t.1 as int, t.2 as int))
}

/// The matching blocks of a window pair, in left-to-right order: the best
/// match splits the windows, and the regions strictly before and strictly
/// after it are decomposed in turn.  Windows that share nothing contribute
/// no blocks.
pub open spec fn blocks_rec(
    s: Seq<char>,
    l: Seq<char>,
    lo1: int,
    hi1: int,
    lo2: int,
    hi2: int,
) -> Seq<(int, int, int)>
    decreases hi1 - lo1 + hi2 - lo2,
{
    if exists|m: (int, int, int)| is_best(s, l, lo1, hi1, lo2, hi2, m) {
        let m = choose|m: (int, int, int)| is_best(s, l, lo1, hi1, lo2, hi2, m);
        if m.2 == 0 {
            Seq::empty()
        } else {
            let before = if lo1 < m.0 && lo2 < m.1 {
                blocks_rec(s, l, lo1, m.0, lo2, m.1)
            } else {
                Seq::empty()
            };
            let after = if m.0 + m.2 < hi1 && m.1 + m.2 < hi2 {
                blocks_rec(s, l, m.0 + m.2, hi1, m.1 + m.2, hi2)
            } else {
                Seq::empty()
            };
            before + seq![m] + after
        }
    } else {
        Seq::empty()
    }
}

/// `b` is a matching run of length at least one lying inside the window.
pub open spec fn block_ok(
    s: Seq<char>,
    l: Seq<char>,
    lo1: int,
    hi1: int,
    lo2: int,
    hi2: int,
    b: (int, int, int),
) -> bool {
    &&& lo1 <= b.0
    &&& b.0 + b.2 <= hi1
    &&& lo2 <= b.1
    &&& b.1 + b.2 <= hi2
    &&& 1 <= b.2
    &&& same_run(s, l, b.0, b.1, b.2)
}

/// Each block ends, in both sequences, no later than any later block starts.
pub open spec fn chain_ordered(bs: Seq<(int, int, int)>) -> bool {
    forall|t1: int, t2: int|
        0 <= t1 < t2 < bs.len() ==> (#[trigger] bs[t1]).0 + bs[t1].2 <= (#[trigger] bs[t2]).0
            && bs[t1].1 + bs[t1].2 <= bs[t2].1
}

/// Every block the decomposition yields is a real matching run inside its
/// window, and the list is ordered in both sequences at once.
pub proof fn lemma_blocks_rec_props(
    s: Seq<char>,
    l: Seq<char>,
    lo1: int,
    hi1: int,
    lo2: int,
    hi2: int,
)
    ensures
        forall|t: int|
            0 <= t < blocks_rec(s, l, lo1, hi1, lo2, hi2).len() ==> block_ok(
                s,
                l,
                lo1,
                hi1,
                lo2,
                hi2,
                #[trigger] blocks_rec(s, l, lo1, hi1, lo2, hi2)[t],
            ),
        chain_ordered(blocks_rec(s, l, lo1, hi1, lo2, hi2)),
    decreases hi1 - lo1 + hi2 - lo2,
{
    let bs = blocks_rec(s, l, lo1, hi1, lo2, hi2);
    if exists|m: (int, int, int)| is_best(s, l, lo1, hi1, lo2, hi2, m) {
        let m = choose|m: (int, int, int)| is_best(s, l, lo1, hi1, lo2, hi2, m);
        if m.2 == 0 {
        } else {
            let before = if lo1 < m.0 && lo2 < m.1 {
                blocks_rec(s, l, lo1, m.0, lo2, m.1)
            } else {
                Seq::<(int, int, int)>::empty()
            };
            let after = if m.0 + m.2 < hi1 && m.1 + m.2 < hi2 {
                blocks_rec(s, l, m.0 + m.2, hi1, m.1 + m.2, hi2)
            } else {
                Seq::<(int, int, int)>::empty()
            };
            if lo1 < m.0 && lo2 < m.1 {
                lemma_blocks_rec_props(s, l, lo1, m.0, lo2, m.1);
            }
            if m.0 + m.2 < hi1 && m.1 + m.2 < hi2 {
                lemma_blocks_rec_props(s, l, m.0 + m.2, hi1, m.1 + m.2, hi2);
            }
            assert(bs == before + seq![m] + after);
            assert(bs.len() == before.len() + 1 + after.len());
            assert forall|t: int| 0 <= t < bs.len() implies block_ok(
                s,
                l,
                lo1,
                hi1,
                lo2,
                hi2,
                #[trigger] bs[t],
            ) by {
                if t < before.len() {
                    assert(bs[t] == before[t]);
                    assert(block_ok(s, l, lo1, m.0, lo2, m.1, before[t]));
                } else if t == before.len() {
                    assert(bs[t] == m);
                } else {
                    assert(bs[t] == after[t - before.len() - 1]);
                    assert(block_ok(s, l, m.0 + m.2, hi1, m.1 + m.2, hi2, bs[t]));
                }
            }
            assert forall|t1: int, t2: int| 0 <= t1 < t2 < bs.len() implies (#[trigger] bs[t1]).0
                + bs[t1].2 <= (#[trigger] bs[t2]).0 && bs[t1].1 + bs[t1].2 <= bs[t2].1 by {
                if t1 < before.len() {
                    assert(bs[t1] == before[t1]);
                    assert(block_ok(s, l, lo1, m.0, lo2, m.1, before[t1]));
                } else if t1 == before.len() {
                    assert(bs[t1] == m);
                } else {
                    assert(bs[t1] == after[t1 - before.len() - 1]);
                }
                if t2 < before.len() {
                    assert(bs[t2] == before[t2]);
                    assert(block_ok(s, l, lo1, m.0, lo2, m.1, before[t2]));
                } else if t2 == before.len() {
                    assert(bs[t2] == m);
                } else {
                    assert(bs[t2] == after[t2 - before.len() - 1]);
                    assert(block_ok(s, l, m.0 + m.2, hi1, m.1 + m.2, hi2, bs[t2]));
                }
            }
        }
    }
}

/// The merge pass over a sorted block list: a block that starts exactly
/// where the accumulated one ends, in both sequences, extends it; any other
/// block closes the accumulated one, which is emitted if non-empty.
pub open spec fn merge_acc(bs: Seq<(int, int, int)>, acc: (int, int, int)) -> Seq<(int, int, int)>
    decreases bs.len(),
{
    if bs.len() == 0 {
        if acc.2 != 0 {
            seq![acc]
        } else {
            Seq::empty()
        }
    } else {
        let b = bs.first();
        if acc.0 + acc.2 == b.0 && acc.1 + acc.2 == b.1 {
            merge_acc(bs.drop_first(), (acc.0, acc.1, acc.2 + b.2))
        } else if acc.2 != 0 {
            seq![acc] + merge_acc(bs.drop_first(), b)
        } else {
            merge_acc(bs.drop_first(), b)
        }
    }
}

/// Two matching runs that are adjacent in both sequences form one longer
/// matching run.
proof fn lemma_same_run_concat(s: Seq<char>, l: Seq<char>, i: int, j: int, k1: int, k2: int)
    requires
        0 <= i,
        0 <= j,
        0 <= k1,
        0 <= k2,
        i + k1 + k2 <= s.len(),
        j + k1 + k2 <= l.len(),
        same_run(s, l, i, j, k1),
        same_run(s, l, i + k1, j + k1, k2),
    ensures
        same_run(s, l, i, j, k1 + k2),
{
    let a = s.subrange(i, i + (k1 + k2));
    let c = l.subrange(j, j + (k1 + k2));
    let a1 = s.subrange(i, i + k1);
    let c1 = l.subrange(j, j + k1);
    let a2 = s.subrange(i + k1, i + k1 + k2);
    let c2 = l.subrange(j + k1, j + k1 + k2);
    assert forall|m: int| 0 <= m < k1 + k2 implies a[m] == c[m] by {
        if m < k1 {
            assert(a1[m] == c1[m]);
            assert(a[m] == s[i + m] && a1[m] == s[i + m]);
            assert(c[m] == l[j + m] && c1[m] == l[j + m]);
        } else {
            assert(a2[m - k1] == c2[m - k1]);
            assert(a[m] == s[i + m] && a2[m - k1] == s[i + m]);
            assert(c[m] == l[j + m] && c2[m - k1] == l[j + m]);
        }
    }
    assert(a =~= c);
}

/// What the merge pass guarantees: the merged list keeps only real matching
/// runs, stays ordered in both sequences, and leaves no two adjacent blocks
/// unmerged.
proof fn lemma_merge_props(s: Seq<char>, l: Seq<char>, bs: Seq<(int, int, int)>, acc: (int, int, int))
    requires
        forall|t: int|
            0 <= t < bs.len() ==> block_ok(
                s,
                l,
                0,
                s.len() as int,
                0,
                l.len() as int,
                #[trigger] bs[t],
            ),
        chain_ordered(bs),
        acc.2 == 0 ==> acc == (0int, 0int, 0int),
        acc.2 != 0 ==> block_ok(s, l, 0, s.len() as int, 0, l.len() as int, acc),
        forall|t: int|
            0 <= t < bs.len() ==> acc.0 + acc.2 <= (#[trigger] bs[t]).0 && acc.1 + acc.2
                <= bs[t].1,
    ensures
        ({
            let out = merge_acc(bs, acc);
            &&& forall|t: int|
                0 <= t < out.len() ==> block_ok(
                    s,
                    l,
                    0,
                    s.len() as int,
                    0,
                    l.len() as int,
                    #[trigger] out[t],
                )
            &&& chain_ordered(out)
            &&& forall|t: int|
                0 <= t < out.len() - 1 ==> !((#[trigger] out[t]).0 + out[t].2 == out[t + 1].0
                    && out[t].1 + out[t].2 == out[t + 1].1)
            &&& forall|t: int|
                0 <= t < out.len() ==> acc.0 <= (#[trigger] out[t]).0 && acc.1 <= out[t].1
            &&& acc.2 != 0 ==> out.len() >= 1 && out[0].0 == acc.0 && out[0].1 == acc.1
                && out[0].2 >= acc.2
        }),
    decreases bs.len(),
{
    let out = merge_acc(bs, acc);
    if bs.len() == 0 {
    } else {
        let b = bs.first();
        assert(b == bs[0]);
        assert(block_ok(s, l, 0, s.len() as int, 0, l.len() as int, b));
        let rest = bs.drop_first();
        assert(forall|t: int| 0 <= t < rest.len() ==> rest[t] == bs[t + 1]);
        assert forall|t: int|
            0 <= t < rest.len() implies block_ok(
            s,
            l,
            0,
            s.len() as int,
            0,
            l.len() as int,
            #[trigger] rest[t],
        ) by {
            assert(rest[t] == bs[t + 1]);
        }
        assert forall|t1: int, t2: int| 0 <= t1 < t2 < rest.len() implies (#[trigger] rest[t1]).0
            + rest[t1].2 <= (#[trigger] rest[t2]).0 && rest[t1].1 + rest[t1].2 <= rest[t2].1 by {
            assert(rest[t1] == bs[t1 + 1]);
            assert(rest[t2] == bs[t2 + 1]);
        }
        if acc.0 + acc.2 == b.0 && acc.1 + acc.2 == b.1 {
            let acc2 = (acc.0, acc.1, acc.2 + b.2);
            if acc.2 == 0 {
                assert(acc2 == b);
            } else {
                lemma_same_run_concat(s, l, acc.0, acc.1, acc.2, b.2);
            }
            assert forall|t: int|
                0 <= t < rest.len() implies acc2.0 + acc2.2 <= (#[trigger] rest[t]).0 && acc2.1
                + acc2.2 <= rest[t].1 by {
                assert(rest[t] == bs[t + 1]);
            }
            lemma_merge_props(s, l, rest, acc2);
            assert(out == merge_acc(rest, acc2));
        } else if acc.2 != 0 {
            assert forall|t: int|
                0 <= t < rest.len() implies b.0 + b.2 <= (#[trigger] rest[t]).0 && b.1 + b.2
                <= rest[t].1 by {
                assert(rest[t] == bs[t + 1]);
            }
            lemma_merge_props(s, l, rest, b);
            let rec = merge_acc(rest, b);
            assert(out == seq![acc] + rec);
            assert(out[0] == acc);
            assert(forall|t: int| 0 <= t < rec.len() ==> out[t + 1] == rec[t]);
            assert(rec.len() >= 1 && rec[0].0 == b.0 && rec[0].1 == b.1);
            assert forall|t1: int, t2: int| 0 <= t1 < t2 < out.len() implies (#[trigger] out[t1]).0
                + out[t1].2 <= (#[trigger] out[t2]).0 && out[t1].1 + out[t1].2 <= out[t2].1 by {
                if t1 == 0 {
                    assert(out[t2] == rec[t2 - 1]);
                    assert(b.0 <= rec[t2 - 1].0 && b.1 <= rec[t2 - 1].1);
                } else {
                    assert(out[t1] == rec[t1 - 1]);
                    assert(out[t2] == rec[t2 - 1]);
                }
            }
            assert forall|t: int| 0 <= t < out.len() - 1 implies !((#[trigger] out[t]).0 + out[t].2
                == out[t + 1].0 && out[t].1 + out[t].2 == out[t + 1].1) by {
                if t == 0 {
                    assert(out[1] == rec[0]);
                } else {
                    assert(out[t] == rec[t - 1]);
                    assert(out[t + 1] == rec[t]);
                }
            }
        } else {
            assert forall|t: int|
                0 <= t < rest.len() implies b.0 + b.2 <= (#[trigger] rest[t]).0 && b.1 + b.2
                <= rest[t].1 by {
                assert(rest[t] == bs[t + 1]);
            }
            lemma_merge_props(s, l, rest, b);
            assert(out == merge_acc(rest, b));
            assert(acc == (0int, 0int, 0int));
        }
    }
}

/// One unit of pending work for the aggregation loop: a window pair still
/// to decompose, or a block whose place in the output has been fixed and
/// which is emitted when reached.
enum Task {
    Split(usize, usize, usize, usize),
    Emit(usize, usize, usize),
}

spec fn task_blocks(s: Seq<char>, l: Seq<char>, t: Task) -> Seq<(int, int, int)> {
    match t {
        Task::Split(lo1, hi1, lo2, hi2) => blocks_rec(
            s,
            l,
            lo1 as int,
            hi1 as int,
            lo2 as int,
            hi2 as int,
        ),
        Task::Emit(i, j, k) => seq![(i as int, j as int, k as int)],
    }
}

spec fn task_wf(s: Seq<char>, l: Seq<char>, t: Task) -> bool {
    match t {
        Task::Split(lo1, hi1, lo2, hi2) => valid_window(
            s,
            l,
            lo1 as int,
            hi1 as int,
            lo2 as int,
            hi2 as int,
        ),
        Task::Emit(_i, _j, _k) => true,
    }
}

spec fn task_weight(t: Task) -> int {
    match t {
        Task::Split(lo1, hi1, lo2, hi2) => 2 * (hi1 - lo1 + hi2 - lo2) + 2,
        Task::Emit(_i, _j, _k) => 1,
    }
}

spec fn stack_blocks(s: Seq<char>, l: Seq<char>, st: Seq<Task>) -> Seq<(int, int, int)>
    decreases st.len(),
{
    if st.len() == 0 {
        Seq::empty()
    } else {
        task_blocks(s, l, st.last()) + stack_blocks(s, l, st.drop_last())
    }
}

spec fn stack_weight(st: Seq<Task>) -> int
    decreases st.len(),
{
    if st.len() == 0 {
        0
    } else {
        task_weight(st.last()) + stack_weight(st.drop_last())
    }
}

proof fn lemma_stack_push(s: Seq<char>, l: Seq<char>, st: Seq<Task>, t: Task)
    ensures
        stack_blocks(s, l, st.push(t)) == task_blocks(s, l, t) + stack_blocks(s, l, st),
        stack_weight(st.push(t)) == stack_weight(st) + task_weight(t),
{
    assert(st.push(t).last() == t);
    assert(st.push(t).drop_last() =~= st);
}

proof fn lemma_stack_weight_nonneg(s: Seq<char>, l: Seq<char>, st: Seq<Task>)
    requires
        forall|t: int| 0 <= t < st.len() ==> task_wf(s, l, #[trigger] st[t]),
    ensures
        stack_weight(st) >= 0,
    decreases st.len(),
{
    if st.len() > 0 {
        assert(task_wf(s, l, st[st.len() - 1]));
        match st.last() {
            Task::Split(lo1, hi1, lo2, hi2) => {
                assert(task_weight(st.last()) >= 2);
            },
            Task::Emit(_i, _j, _k) => {
                assert(task_weight(st.last()) == 1);
            },
        }
        assert forall|t: int| 0 <= t < st.drop_last().len() implies task_wf(
            s,
            l,
            #[trigger] st.drop_last()[t],
        ) by {
            assert(st.drop_last()[t] == st[t]);
        }
        lemma_stack_weight_nonneg(s, l, st.drop_last());
    }
}

/// Finds the longest matching run of `shorter[low1..high1)` and
/// `longer[low2..high2)`, with all offsets in Unicode scalar values.  The
/// result is the longest such run; among ties the one starting earliest in
/// `shorter`, then earliest in `longer`; `(low1, low2, 0)` when the windows
/// share no scalar value.
pub fn find_longest_match(
    shorter: &str,
    longer: &str,
    low1: usize,
    high1: usize,
    low2: usize,
    high2: usize,
) -> (r: (usize, usize, usize))
    requires
        low1 <= high1 <= shorter@.len(),
        low2 <= high2 <= longer@.len(),
    ensures
        is_best(
            shorter@,
            longer@,
            low1 as int,
            high1 as int,
            low2 as int,
            high2 as int,
            (r.0 as int, r.1 as int, r.2 as int),
        ),
{
    let s = chars_of(shorter);
    let l = chars_of(longer);
    find_longest_match_chars(&s, &l, low1, high1, low2, high2)
}

/// The block list of an oriented pair `(s, l)`: the merged decomposition of
/// the full windows, followed by the zero-length sentinel at the end of both
/// sequences.
pub open spec fn core_blocks(s: Seq<char>, l: Seq<char>) -> Seq<(int, int, int)> {
    merge_acc(blocks_rec(s, l, 0, s.len() as int, 0, l.len() as int), (0int, 0int, 0int)) + seq![
        (s.len() as int, l.len() as int, 0int),
    ]
}

/// Every triple with its two start offsets exchanged.
pub open spec fn swap_triples(bs: Seq<(int, int, int)>) -> Seq<(int, int, int)> {
    bs.map_values(|t: (int, int, int)| (t.1, t.0, t.2))
}

/// The block list of `(a, b)`: the shorter sequence drives the search, and
/// when that was `b` the offsets are exchanged back into argument order.
/// Equal lengths keep `a` in the driving role.
pub open spec fn matching_blocks_spec(a: Seq<char>, b: Seq<char>) -> Seq<(int, int, int)> {
    if a.len() <= b.len() {
        core_blocks(a, b)
    } else {
        swap_triples(core_blocks(b, a))
    }
}

/// The shape every returned block list has: at least the sentinel, which is
/// the last entry and the only zero-length one; every other entry a real
/// matching run of the two sequences; entries ordered in both sequences at
/// once, with no two adjacent entries left mergeable.
pub open spec fn wf_blocks(a: Seq<char>, b: Seq<char>, bs: Seq<(int, int, int)>) -> bool {
    &&& bs.len() >= 1
    &&& bs.last() == (a.len() as int, b.len() as int, 0int)
    &&& forall|t: int| 0 <= t < bs.len() - 1 ==> 1 <= (#[trigger] bs[t]).2
    &&& forall|t: int|
        0 <= t < bs.len() ==> 0 <= (#[trigger] bs[t]).0 && 0 <= bs[t].1 && bs[t].0 + bs[t].2
            <= a.len() && bs[t].1 + bs[t].2 <= b.len() && same_run(a, b, bs[t].0, bs[t].1, bs[t].2)
    &&& forall|t1: int, t2: int|
        0 <= t1 < t2 < bs.len() ==> (#[trigger] bs[t1]).0 + bs[t1].2 <= (#[trigger] bs[t2]).0
            && bs[t1].1 + bs[t1].2 <= bs[t2].1
    &&& forall|t: int|
        0 <= t < bs.len() - 2 ==> !((#[trigger] bs[t]).0 + bs[t].2 == bs[t + 1].0 && bs[t].1
            + bs[t].2 == bs[t + 1].1)
}

// The decomposition runs over an explicit work-list rather than by language
// recursion, so the pending state lives on the heap instead of the call
// stack.  The list is popped LIFO, and each window pushes its sub-windows
// around an emit entry for its own match, so the blocks are recorded
// already in the sorted left-to-right order the merge pass needs: the loop
// invariant proves the recorded list equal to the in-order decomposition,
// which makes a separate sorting pass unnecessary.
fn core_blocks_chars(s: &Vec<char>, l: &Vec<char>) -> (res: Vec<(usize, usize, usize)>)
    ensures
        triples_view(res@) == core_blocks(s@, l@),
        wf_blocks(s@, l@, triples_view(res@)),
{
    let len1 = s.len();
    let len2 = l.len();
    let ghost full = blocks_rec(s@, l@, 0, len1 as int, 0, len2 as int);
    let mut stack: Vec<Task> = Vec::new();
    let mut recorded: Vec<(usize, usize, usize)> = Vec::new();
    stack.push(Task::Split(0, len1, 0, len2));
    proof {
        lemma_stack_push(s@, l@, Seq::<Task>::empty(), Task::Split(0, len1, 0, len2));
        assert(stack@ =~= Seq::<Task>::empty().push(Task::Split(0, len1, 0, len2)));
        assert(triples_view(recorded@) =~= Seq::<(int, int, int)>::empty());
        assert(triples_view(recorded@) + stack_blocks(s@, l@, stack@) =~= full);
    }
    while stack.len() > 0
        invariant
            len1 == s@.len(),
            len2 == l@.len(),
            forall|t: int| 0 <= t < stack@.len() ==> task_wf(s@, l@, #[trigger] stack@[t]),
            triples_view(recorded@) + stack_blocks(s@, l@, stack@) == full,
        decreases stack_weight(stack@),
    {
        let ghost old_stack = stack@;
        let ghost old_rec = recorded@;
        let task = stack.pop().unwrap();
        let ghost base = stack@;
        proof {
            assert(base.push(task) =~= old_stack);
            lemma_stack_push(s@, l@, base, task);
            assert(stack_blocks(s@, l@, old_stack) == task_blocks(s@, l@, task) + stack_blocks(
                s@,
                l@,
                base,
            ));
            assert forall|t: int| 0 <= t < base.len() implies task_wf(
                s@,
                l@,
                #[trigger] base[t],
            ) by {
                assert(base[t] == old_stack[t]);
            }
        }
        let ghost sb_base = stack_blocks(s@, l@, base);
        match task {
            Task::Emit(bi, bj, bk) => {
                recorded.push((bi, bj, bk));
                proof {
                    let bt = (bi as int, bj as int, bk as int);
                    assert(triples_view(recorded@) =~= triples_view(old_rec).push(bt));
                    assert(triples_view(recorded@) =~= triples_view(old_rec) + seq![bt]);
                    assert(task_blocks(s@, l@, task) == seq![bt]);
                    assert(triples_view(recorded@) + stack_blocks(s@, l@, stack@) =~= triples_view(
                        old_rec,
                    ) + stack_blocks(s@, l@, old_stack));
                    lemma_stack_weight_nonneg(s@, l@, stack@);
                }
            },
            Task::Split(lo1, hi1, lo2, hi2) => {
                let ghost wlo1 = lo1 as int;
                let ghost whi1 = hi1 as int;
                let ghost wlo2 = lo2 as int;
                let ghost whi2 = hi2 as int;
                let ghost window = blocks_rec(s@, l@, wlo1, whi1, wlo2, whi2);
                let r = find_longest_match_chars(s, l, lo1, hi1, lo2, hi2);
                let mi = r.0;
                let mj = r.1;
                let mk = r.2;
                let ghost m = (mi as int, mj as int, mk as int);
                proof {
                    assert(is_best(s@, l@, wlo1, whi1, wlo2, whi2, m));
                    let mc = choose|m2: (int, int, int)| is_best(s@, l@, wlo1, whi1, wlo2, whi2, m2);
                    lemma_best_unique(s@, l@, wlo1, whi1, wlo2, whi2, mc, m);
                    assert(mc == m);
                }
                if mk > 0 {
                    let ghost before_seq = if wlo1 < m.0 && wlo2 < m.1 {
                        blocks_rec(s@, l@, wlo1, m.0, wlo2, m.1)
                    } else {
                        Seq::<(int, int, int)>::empty()
                    };
                    let ghost after_seq = if m.0 + m.2 < whi1 && m.1 + m.2 < whi2 {
                        blocks_rec(s@, l@, m.0 + m.2, whi1, m.1 + m.2, whi2)
                    } else {
                        Seq::<(int, int, int)>::empty()
                    };
                    proof {
                        assert(window == before_seq + seq![m] + after_seq);
                    }
                    if mi + mk < hi1 && mj + mk < hi2 {
                        let ni = mi + mk;
                        let nj = mj + mk;
                        stack.push(Task::Split(ni, hi1, nj, hi2));
                        proof {
                            lemma_stack_push(s@, l@, base, Task::Split(ni, hi1, nj, hi2));
                        }
                    }
                    proof {
                        assert(stack_blocks(s@, l@, stack@) == after_seq + sb_base);
                        assert(stack_weight(stack@) <= stack_weight(base) + 2 * (whi1 - (m.0 + m.2)
                            + (whi2 - (m.1 + m.2))) + 2);
                    }
                    let ghost stack_a = stack@;
                    stack.push(Task::Emit(mi, mj, mk));
                    proof {
                        lemma_stack_push(s@, l@, stack_a, Task::Emit(mi, mj, mk));
                        assert(stack_blocks(s@, l@, stack@) == seq![m] + (after_seq + sb_base));
                    }
                    let ghost stack_b = stack@;
                    if lo1 < mi && lo2 < mj {
                        stack.push(Task::Split(lo1, mi, lo2, mj));
                        proof {
                            lemma_stack_push(s@, l@, stack_b, Task::Split(lo1, mi, lo2, mj));
                        }
                    }
                    proof {
                        assert(stack_blocks(s@, l@, stack@) == before_seq + (seq![m] + (after_seq
                            + sb_base)));
                        assert(stack_blocks(s@, l@, stack@) =~= (before_seq + seq![m] + after_seq)
                            + sb_base);
                        assert(triples_view(recorded@) + stack_blocks(s@, l@, stack@) =~=
                            triples_view(old_rec) + stack_blocks(s@, l@, old_stack));
                        assert forall|t: int| 0 <= t < stack@.len() implies task_wf(
                            s@,
                            l@,
                            #[trigger] stack@[t],
                        ) by {
                            if t < base.len() {
                                assert(stack@[t] == base[t]);
                            }
                        }
                        lemma_stack_weight_nonneg(s@, l@, stack@);
                        assert(stack_weight(stack@) < stack_weight(old_stack));
                    }
                } else {
                    proof {
                        assert(window =~= Seq::<(int, int, int)>::empty());
                        assert(triples_view(recorded@) + stack_blocks(s@, l@, stack@) =~=
                            triples_view(old_rec) + stack_blocks(s@, l@, old_stack));
                        lemma_stack_weight_nonneg(s@, l@, stack@);
                        match task {
                            Task::Split(_a, _b, _c, _d) => {
                                assert(task_weight(task) >= 2);
                            },
                            Task::Emit(_a, _b, _c) => {},
                        }
                    }
                }
            },
        }
    }
    proof {
        assert(stack@.len() == 0);
        assert(triples_view(recorded@) =~= triples_view(recorded@) + stack_blocks(
            s@,
            l@,
            stack@,
        ));
        assert(triples_view(recorded@) == full);
        lemma_blocks_rec_props(s@, l@, 0, len1 as int, 0, len2 as int);
    }
    let ghost merged_goal = merge_acc(full, (0int, 0int, 0int));
    let rec_len = recorded.len();
    let mut i1: usize = 0;
    let mut j1: usize = 0;
    let mut k1: usize = 0;
    let mut out: Vec<(usize, usize, usize)> = Vec::new();
    let mut idx: usize = 0;
    proof {
        assert(full.skip(0) =~= full);
        assert(triples_view(out@) =~= Seq::<(int, int, int)>::empty());
        assert forall|t: int| 0 <= t < full.len() implies 0int + 0int <= (#[trigger] full[t]).0
            && 0int + 0int <= full[t].1 by {
            assert(block_ok(s@, l@, 0, len1 as int, 0, len2 as int, full[t]));
        }
    }
    while idx < rec_len
        invariant
            len1 == s@.len(),
            len2 == l@.len(),
            rec_len == recorded@.len(),
            idx <= rec_len,
            triples_view(recorded@) == full,
            forall|t: int|
                0 <= t < full.len() ==> block_ok(
                    s@,
                    l@,
                    0,
                    len1 as int,
                    0,
                    len2 as int,
                    #[trigger] full[t],
                ),
            chain_ordered(full),
            i1 + k1 <= len1,
            j1 + k1 <= len2,
            k1 == 0 ==> i1 == 0 && j1 == 0,
            k1 != 0 ==> same_run(s@, l@, i1 as int, j1 as int, k1 as int),
            forall|t: int|
                idx <= t < full.len() ==> i1 + k1 <= (#[trigger] full[t]).0 && j1 + k1
                    <= full[t].1,
            triples_view(out@) + merge_acc(full.skip(idx as int), (i1 as int, j1 as int, k1 as int))
                == merged_goal,
        decreases rec_len - idx,
    {
        let ghost old_out = out@;
        let ghost acc_old = (i1 as int, j1 as int, k1 as int);
        let ghost rem_old = full.skip(idx as int);
        let b = recorded[idx];
        let i2 = b.0;
        let j2 = b.1;
        let k2 = b.2;
        proof {
            assert(triples_view(recorded@)[idx as int] == (i2 as int, j2 as int, k2 as int));
            assert(full[idx as int] == (i2 as int, j2 as int, k2 as int));
            assert(block_ok(s@, l@, 0, len1 as int, 0, len2 as int, full[idx as int]));
            assert(rem_old.len() > 0);
            assert(rem_old.first() == full[idx as int]);
            assert(rem_old.drop_first() =~= full.skip(idx + 1));
        }
        if i1 + k1 == i2 && j1 + k1 == j2 {
            proof {
                if k1 == 0 {
                    assert(acc_old == (0int, 0int, 0int));
                } else {
                    lemma_same_run_concat(s@, l@, i1 as int, j1 as int, k1 as int, k2 as int);
                }
                assert forall|t: int|
                    idx + 1 <= t < full.len() implies i1 + (k1 + k2) <= (#[trigger] full[t]).0
                    && j1 + (k1 + k2) <= full[t].1 by {
                    assert(full[t].0 >= full[idx as int].0 + full[idx as int].2);
                    assert(full[t].1 >= full[idx as int].1 + full[idx as int].2);
                }
                assert(merge_acc(rem_old, acc_old) == merge_acc(
                    full.skip(idx + 1),
                    (i1 as int, j1 as int, (k1 + k2) as int),
                ));
            }
            k1 = k1 + k2;
        } else {
            proof {
                if k1 != 0 {
                    assert(merge_acc(rem_old, acc_old) == seq![acc_old] + merge_acc(
                        full.skip(idx + 1),
                        (i2 as int, j2 as int, k2 as int),
                    ));
                } else {
                    assert(merge_acc(rem_old, acc_old) == merge_acc(
                        full.skip(idx + 1),
                        (i2 as int, j2 as int, k2 as int),
                    ));
                }
            }
            if k1 != 0 {
                out.push((i1, j1, k1));
                proof {
                    assert(triples_view(out@) =~= triples_view(old_out) + seq![acc_old]);
                    assert(triples_view(out@) + merge_acc(
                        full.skip(idx + 1),
                        (i2 as int, j2 as int, k2 as int),
                    ) =~= triples_view(old_out) + merge_acc(rem_old, acc_old));
                }
            }
            i1 = i2;
            j1 = j2;
            k1 = k2;
            proof {
                assert forall|t: int|
                    idx + 1 <= t < full.len() implies i1 + k1 <= (#[trigger] full[t]).0 && j1 + k1
                    <= full[t].1 by {
                    assert(full[t].0 >= full[idx as int].0 + full[idx as int].2);
                    assert(full[t].1 >= full[idx as int].1 + full[idx as int].2);
                }
                assert(same_run(s@, l@, i1 as int, j1 as int, k1 as int));
            }
        }
        idx = idx + 1;
    }
    proof {
        assert(full.skip(rec_len as int) =~= Seq::<(int, int, int)>::empty());
    }
    if k1 != 0 {
        let ghost old_out = out@;
        let ghost acc_old = (i1 as int, j1 as int, k1 as int);
        out.push((i1, j1, k1));
        proof {
            assert(merge_acc(Seq::<(int, int, int)>::empty(), acc_old) == seq![acc_old]);
            assert(triples_view(out@) =~= triples_view(old_out) + seq![acc_old]);
            assert(triples_view(out@) =~= merged_goal);
        }
    } else {
        proof {
            let acc_old = (i1 as int, j1 as int, k1 as int);
            assert(merge_acc(Seq::<(int, int, int)>::empty(), acc_old) =~= Seq::<(
                int,
                int,
                int,
            )>::empty());
            assert(triples_view(out@) =~= merged_goal);
        }
    }
    proof {
        lemma_merge_props(s@, l@, full, (0int, 0int, 0int));
    }
    out.push((len1, len2, 0));
    proof {
        let sent = (len1 as int, len2 as int, 0int);
        let fv = triples_view(out@);
        assert(fv =~= merged_goal + seq![sent]);
        assert(fv == core_blocks(s@, l@));
        assert(s@.subrange(len1 as int, len1 as int) =~= l@.subrange(len2 as int, len2 as int));
        assert(same_run(s@, l@, len1 as int, len2 as int, 0));
        assert(fv.len() == merged_goal.len() + 1);
        assert(fv.last() == sent);
        assert forall|t: int| 0 <= t < fv.len() - 1 implies 1 <= (#[trigger] fv[t]).2 by {
            assert(fv[t] == merged_goal[t]);
            assert(block_ok(s@, l@, 0, len1 as int, 0, len2 as int, merged_goal[t]));
        }
        assert forall|t: int|
            0 <= t < fv.len() implies 0 <= (#[trigger] fv[t]).0 && 0 <= fv[t].1 && fv[t].0
            + fv[t].2 <= s@.len() && fv[t].1 + fv[t].2 <= l@.len() && same_run(
            s@,
            l@,
            fv[t].0,
            fv[t].1,
            fv[t].2,
        ) by {
            if t < fv.len() - 1 {
                assert(fv[t] == merged_goal[t]);
                assert(block_ok(s@, l@, 0, len1 as int, 0, len2 as int, merged_goal[t]));
            } else {
                assert(fv[t] == sent);
            }
        }
        assert forall|t1: int, t2: int| 0 <= t1 < t2 < fv.len() implies (#[trigger] fv[t1]).0
            + fv[t1].2 <= (#[trigger] fv[t2]).0 && fv[t1].1 + fv[t1].2 <= fv[t2].1 by {
            assert(fv[t1] == merged_goal[t1]);
            assert(block_ok(s@, l@, 0, len1 as int, 0, len2 as int, merged_goal[t1]));
            if t2 < fv.len() - 1 {
                assert(fv[t2] == merged_goal[t2]);
            } else {
                assert(fv[t2] == sent);
            }
        }
        assert forall|t: int| 0 <= t < fv.len() - 2 implies !((#[trigger] fv[t]).0 + fv[t].2
            == fv[t + 1].0 && fv[t].1 + fv[t].2 == fv[t + 1].1) by {
            assert(fv[t] == merged_goal[t]);
            assert(fv[t + 1] == merged_goal[t + 1]);
        }
        assert(wf_blocks(s@, l@, fv));
    }
    out
}

/// Returns the list of matching blocks of `a` and `b`: triples
/// `(i, j, k)` meaning `a[i..i+k] == b[j..j+k]`, in scalar-value offsets.
/// The result is a function of the scalar values of the two arguments
/// alone; its blocks are ordered in both sequences at once, no two
/// adjacent blocks can be merged, and the final entry is always the
/// zero-length sentinel `(length(a), length(b), 0)`, the only entry of
/// length zero.
pub fn get_matching_blocks(a: &str, b: &str) -> (res: Vec<(usize, usize, usize)>)
    ensures
        triples_view(res@) == matching_blocks_spec(a@, b@),
        wf_blocks(a@, b@, triples_view(res@)),
{
    let ac = chars_of(a);
    let bc = chars_of(b);
    if ac.len() <= bc.len() {
        core_blocks_chars(&ac, &bc)
    } else {
        let merged = core_blocks_chars(&bc, &ac);
        let ghost mv = triples_view(merged@);
        let mut res: Vec<(usize, usize, usize)> = Vec::new();
        let mut idx: usize = 0;
        let m_len = merged.len();
        while idx < m_len
            invariant
                m_len == merged@.len(),
                idx <= m_len,
                res@.len() == idx,
                forall|t: int|
                    0 <= t < idx ==> #[trigger] res@[t] == (merged@[t].1, merged@[t].0, merged@[t].2),
        decreases m_len - idx,
        {
            let e = merged[idx];
            res.push((e.1, e.0, e.2));
            idx = idx + 1;
        }
        proof {
            let fv = triples_view(res@);
            assert forall|t: int| 0 <= t < fv.len() implies fv[t] == swap_triples(mv)[t] by {
                assert(res@[t] == (merged@[t].1, merged@[t].0, merged@[t].2));
                assert(mv[t] == (merged@[t].0 as int, merged@[t].1 as int, merged@[t].2 as int));
            }
            assert(fv =~= swap_triples(mv));
            assert(fv == matching_blocks_spec(a@, b@));
            assert(wf_blocks(b@, a@, mv));
            assert(fv.last() == (a@.len() as int, b@.len() as int, 0int));
            assert forall|t: int| 0 <= t < fv.len() - 1 implies 1 <= (#[trigger] fv[t]).2 by {
                assert(fv[t] == (mv[t].1, mv[t].0, mv[t].2));
            }
            assert forall|t: int|
                0 <= t < fv.len() implies 0 <= (#[trigger] fv[t]).0 && 0 <= fv[t].1 && fv[t].0
                + fv[t].2 <= a@.len() && fv[t].1 + fv[t].2 <= b@.len() && same_run(
                a@,
                b@,
                fv[t].0,
                fv[t].1,
                fv[t].2,
            ) by {
                assert(fv[t] == (mv[t].1, mv[t].0, mv[t].2));
                assert(same_run(b@, a@, mv[t].0, mv[t].1, mv[t].2));
            }
            assert forall|t1: int, t2: int| 0 <= t1 < t2 < fv.len() implies (#[trigger] fv[t1]).0
                + fv[t1].2 <= (#[trigger] fv[t2]).0 && fv[t1].1 + fv[t1].2 <= fv[t2].1 by {
                assert(fv[t1] == (mv[t1].1, mv[t1].0, mv[t1].2));
                assert(fv[t2] == (mv[t2].1, mv[t2].0, mv[t2].2));
            }
            assert forall|t: int| 0 <= t < fv.len() - 2 implies !((#[trigger] fv[t]).0 + fv[t].2
                == fv[t + 1].0 && fv[t].1 + fv[t].2 == fv[t + 1].1) by {
                assert(fv[t] == (mv[t].1, mv[t].0, mv[t].2));
                assert(fv[t + 1] == (mv[t + 1].1, mv[t + 1].0, mv[t + 1].2));
            }
            assert(wf_blocks(a@, b@, fv));
        }
        res
    }
}

/// Comparing in the other argument order yields the same blocks with the
/// two start offsets exchanged in every triple, whenever the two sequences
/// have different lengths.  (With equal lengths the first argument keeps
/// the driving role in both calls, and the tie-breaking can differ.)
pub proof fn lemma_symmetry(a: Seq<char>, b: Seq<char>)
    requires
        a.len() != b.len(),
    ensures
        matching_blocks_spec(b, a) == swap_triples(matching_blocks_spec(a, b)),
{
    if a.len() < b.len() {
        assert(matching_blocks_spec(a, b) == core_blocks(a, b));
        assert(matching_blocks_spec(b, a) == swap_triples(core_blocks(a, b)));
    } else {
        let core = core_blocks(b, a);
        assert(matching_blocks_spec(a, b) == swap_triples(core));
        assert(matching_blocks_spec(b, a) == core);
        assert forall|t: int|
            0 <= t < core.len() implies swap_triples(swap_triples(core))[t] == core[t] by {
            assert(swap_triples(core)[t] == (core[t].1, core[t].0, core[t].2));
        }
        assert(swap_triples(swap_triples(core)) =~= core);
    }
}

} // verus!
