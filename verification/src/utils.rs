//! Frequency tallying and the deterministic ordering handed to the coders:
//! symbols are counted in first-occurrence order, then sorted by descending
//! count with the first-occurrence order as the tie break, so every coder
//! sees one reproducible frequency table for a given input.

use vstd::prelude::*;

verus! {

/// How many times `x` occurs in `s`.
pub open spec fn count_of(s: Seq<u8>, x: u8) -> nat
    decreases s.len(),
{
    if s.len() == 0 {
        0
    } else {
        count_of(s.drop_last(), x) + (if s.last() == x { 1nat } else { 0nat })
    }
}

/// The index of the first occurrence of `x` in `s` (the length if absent).
pub open spec fn first_pos(s: Seq<u8>, x: u8) -> int
    decreases s.len(),
{
    if s.len() == 0 {
        0
    } else if s[0] == x {
        0
    } else {
        1 + first_pos(s.skip(1), x)
    }
}

/// No two entries of a frequency table name the same symbol.
pub open spec fn distinct_symbols(t: Seq<(u8, usize)>) -> bool {
    forall|i: int, j: int| 0 <= i < j < t.len() ==> t[i].0 != t[j].0
}

/// The table's symbols are exactly those occurring in `s`.
pub open spec fn covers(t: Seq<(u8, usize)>, s: Seq<u8>) -> bool {
    forall|x: u8| s.contains(x) <==> exists|j: int| 0 <= j < t.len() && t[j].0 == x
}

/// Every entry carries the exact occurrence count of its symbol in `s`.
pub open spec fn counts_match(t: Seq<(u8, usize)>, s: Seq<u8>) -> bool {
    forall|j: int| 0 <= j < t.len() ==>
        (#[trigger] t[j]).1 == count_of(s, t[j].0) && t[j].1 >= 1
}

/// The sum of all counts in a table.
pub open spec fn total_count(t: Seq<(u8, usize)>) -> int
    decreases t.len(),
{
    if t.len() == 0 {
        0
    } else {
        total_count(t.drop_last()) + t.last().1
    }
}

/// The position of symbol `x`'s entry in a table with distinct symbols.
pub open spec fn entry_pos(t: Seq<(u8, usize)>, x: u8) -> int {
    choose|j: int| 0 <= j < t.len() && t[j].0 == x
}

/// Descending count order, ties broken by position in the unsorted table:
/// a strict total order on entries, so the sorted table is unique.
pub open spec fn sorted_desc(t: Seq<(u8, usize)>, base: Seq<(u8, usize)>) -> bool {
    forall|i: int, j: int| 0 <= i < j < t.len() ==>
        (#[trigger] t[i]).1 > (#[trigger] t[j]).1
            || (t[i].1 == t[j].1 && entry_pos(base, t[i].0) < entry_pos(base, t[j].0))
}

/// The canonical coder order over the input data: descending count, ties
/// broken by the symbol's first occurrence in the data.
pub open spec fn canonical_order(t: Seq<(u8, usize)>, data: Seq<u8>) -> bool {
    forall|i: int, j: int| 0 <= i < j < t.len() ==>
        (#[trigger] t[i]).1 > (#[trigger] t[j]).1
            || (t[i].1 == t[j].1 && first_pos(data, t[i].0) < first_pos(data, t[j].0))
}

/// In a table with distinct symbols, an entry's position is determined by
/// its symbol.
proof fn lemma_entry_pos_unique(t: Seq<(u8, usize)>, j: int)
    requires
        distinct_symbols(t),
        0 <= j < t.len(),
    ensures
        entry_pos(t, t[j].0) == j,
{
    assert(t[j].0 == t[j].0);
    let p = entry_pos(t, t[j].0);
    assert(0 <= p < t.len() && t[p].0 == t[j].0);
    if p != j {
        assert(t[p].0 != t[j].0);
    }
}

/// A count never exceeds the sequence length.
proof fn lemma_count_le_len(s: Seq<u8>, x: u8)
    ensures
        count_of(s, x) <= s.len(),
    decreases s.len(),
{
    if s.len() > 0 {
        lemma_count_le_len(s.drop_last(), x);
    }
}

/// A symbol that does not occur has count zero.
proof fn lemma_count_zero(s: Seq<u8>, x: u8)
    requires
        !s.contains(x),
    ensures
        count_of(s, x) == 0,
    decreases s.len(),
{
    if s.len() > 0 {
        assert(!s.drop_last().contains(x)) by {
            if s.drop_last().contains(x) {
                let k = choose|k: int| 0 <= k < s.drop_last().len() && s.drop_last()[k] == x;
                assert(s[k] == x);
            }
        };
        lemma_count_zero(s.drop_last(), x);
        assert(s.last() != x);
    }
}

/// Where the first occurrence sits: it indexes `x`, and nothing before does.
proof fn lemma_first_pos(s: Seq<u8>, x: u8)
    requires
        s.contains(x),
    ensures
        0 <= first_pos(s, x) < s.len(),
        s[first_pos(s, x)] == x,
        forall|k: int| 0 <= k < first_pos(s, x) ==> s[k] != x,
    decreases s.len(),
{
    if s[0] != x {
        assert(s.skip(1).contains(x)) by {
            let k = choose|k: int| 0 <= k < s.len() && s[k] == x;
            assert(s.skip(1)[k - 1] == x);
        };
        lemma_first_pos(s.skip(1), x);
        assert forall|k: int| 0 <= k < first_pos(s, x) implies s[k] != x by {
            if k > 0 {
                assert(s.skip(1)[k - 1] == s[k]);
            }
        }
    }
}

/// Updating one entry moves the total by the difference at that entry.
proof fn lemma_total_update(t: Seq<(u8, usize)>, i: int, v: (u8, usize))
    requires
        0 <= i < t.len(),
    ensures
        total_count(t.update(i, v)) == total_count(t) + v.1 - t[i].1,
    decreases t.len(),
{
    if i == t.len() - 1 {
        assert(t.update(i, v).drop_last() =~= t.drop_last());
    } else {
        assert(t.update(i, v).drop_last() =~= t.drop_last().update(i, v));
        lemma_total_update(t.drop_last(), i, v);
    }
}

/// Inserting an entry adds its count to the total.
proof fn lemma_total_insert(t: Seq<(u8, usize)>, p: int, v: (u8, usize))
    requires
        0 <= p <= t.len(),
    ensures
        total_count(t.insert(p, v)) == total_count(t) + v.1,
    decreases t.len(),
{
    if p == t.len() {
        assert(t.insert(p, v).drop_last() =~= t);
    } else {
        assert(t.insert(p, v).drop_last() =~= t.drop_last().insert(p, v));
        assert(t.insert(p, v).last() == t.last());
        lemma_total_insert(t.drop_last(), p, v);
    }
}

/// Tallies the symbols of `data` in first-occurrence order. Each symbol of
/// the input appears exactly once, with its exact occurrence count, and the
/// counts sum to the input length.
pub fn count_symbols(data: &[u8]) -> (r: Vec<(u8, usize)>)
    ensures
        distinct_symbols(r@),
        covers(r@, data@),
        counts_match(r@, data@),
        total_count(r@) == data@.len(),
        forall|j1: int, j2: int| 0 <= j1 < j2 < r@.len() ==>
            first_pos(data@, (#[trigger] r@[j1]).0) < first_pos(data@, (#[trigger] r@[j2]).0),
{
    let mut t: Vec<(u8, usize)> = Vec::new();
    let n = data.len();
    let mut i: usize = 0;
    while i < n
        invariant
            n == data@.len(),
            i <= n,
            distinct_symbols(t@),
            covers(t@, data@.take(i as int)),
            counts_match(t@, data@.take(i as int)),
            total_count(t@) == i,
            forall|j: int| 0 <= j < t@.len() ==> (#[trigger] t@[j]).1 <= i,
            forall|j: int| 0 <= j < t@.len() ==>
                0 <= first_pos(data@, (#[trigger] t@[j]).0) < i
                    && data@[first_pos(data@, t@[j].0)] == t@[j].0,
            forall|j1: int, j2: int| 0 <= j1 < j2 < t@.len() ==>
                first_pos(data@, (#[trigger] t@[j1]).0)
                    < first_pos(data@, (#[trigger] t@[j2]).0),
        decreases n - i,
    {
        let x = data[i];
        let ghost pre = t@;
        let ghost seen = data@.take(i as int);
        proof {
            assert(data@.take(i + 1).drop_last() =~= seen);
            assert(data@.take(i + 1).last() == x);
        }
        let mut j: usize = 0;
        let mut found = false;
        while j < t.len() && !found
            invariant
                t@ == pre,
                j <= t@.len(),
                !found ==> forall|k: int| 0 <= k < j ==> (#[trigger] t@[k]).0 != x,
                found ==> j > 0 && t@[j - 1].0 == x,
            decreases t@.len() - j + (if found { 0int } else { 1int }),
        {
            if t[j].0 == x {
                found = true;
            }
            j = j + 1;
        }
        if found {
            let idx = j - 1;
            let c = t[idx].1;
            proof {
                lemma_count_le_len(seen, x);
            }
            t.set(idx, (x, c + 1));
            proof {
                lemma_total_update(pre, idx as int, (x, (c + 1) as usize));
                assert forall|jj: int| 0 <= jj < t@.len() implies
                    (#[trigger] t@[jj]).1 == count_of(data@.take(i + 1), t@[jj].0)
                        && t@[jj].1 >= 1 by {
                    if jj != idx {
                        assert(t@[jj] == pre[jj]);
                        assert(pre[jj].0 != x);
                    }
                }
                assert forall|y: u8| #![trigger data@.take(i + 1).contains(y)]
                    data@.take(i + 1).contains(y) implies
                    exists|jj: int| 0 <= jj < t@.len() && t@[jj].0 == y by {
                    if y != x {
                        assert(seen.contains(y)) by {
                            let k = choose|k: int|
                                0 <= k < data@.take(i + 1).len()
                                    && #[trigger] data@.take(i + 1)[k] == y;
                            assert(seen[k] == y);
                        };
                        let jj = choose|jj: int| 0 <= jj < pre.len() && pre[jj].0 == y;
                        assert(t@[jj].0 == y);
                    } else {
                        assert(t@[idx as int].0 == x);
                    }
                }
                assert forall|y: u8| #![trigger data@.take(i + 1).contains(y)]
                    (exists|jj: int| 0 <= jj < t@.len() && t@[jj].0 == y)
                    implies data@.take(i + 1).contains(y) by {
                    let jj = choose|jj: int| 0 <= jj < t@.len() && t@[jj].0 == y;
                    assert(pre[jj].0 == y);
                    assert(seen.contains(y));
                    let k = choose|k: int| 0 <= k < seen.len() && seen[k] == y;
                    assert(data@.take(i + 1)[k] == y);
                }
            }
        } else {
            proof {
                assert(!seen.contains(x)) by {
                    if seen.contains(x) {
                        let jj = choose|jj: int| 0 <= jj < pre.len() && pre[jj].0 == x;
                        assert(pre[jj].0 != x);
                    }
                };
                lemma_count_zero(seen, x);
                assert(data@.take(i + 1)[i as int] == x);
                assert(first_pos(data@, x) == i) by {
                    assert(data@.contains(x)) by {
                        assert(data@[i as int] == x);
                    };
                    lemma_first_pos(data@, x);
                    let fp = first_pos(data@, x);
                    if fp < i {
                        assert(seen[fp] == x);
                        assert(seen.contains(x));
                    }
                    if fp > i {
                        assert(data@[i as int] != x);
                    }
                };
            }
            t.push((x, 1));
            proof {
                assert(t@.drop_last() =~= pre);
                assert forall|y: u8| #![trigger data@.take(i + 1).contains(y)]
                    data@.take(i + 1).contains(y) implies
                    exists|jj: int| 0 <= jj < t@.len() && t@[jj].0 == y by {
                    if y != x {
                        assert(seen.contains(y)) by {
                            let k = choose|k: int|
                                0 <= k < data@.take(i + 1).len()
                                    && #[trigger] data@.take(i + 1)[k] == y;
                            assert(seen[k] == y);
                        };
                        let jj = choose|jj: int| 0 <= jj < pre.len() && pre[jj].0 == y;
                        assert(t@[jj].0 == y);
                    } else {
                        assert(t@[t@.len() - 1].0 == x);
                    }
                }
                assert forall|y: u8| #![trigger data@.take(i + 1).contains(y)]
                    (exists|jj: int| 0 <= jj < t@.len() && t@[jj].0 == y)
                    implies data@.take(i + 1).contains(y) by {
                    let jj = choose|jj: int| 0 <= jj < t@.len() && t@[jj].0 == y;
                    if jj < pre.len() {
                        assert(pre[jj].0 == y);
                        assert(seen.contains(y));
                        let k = choose|k: int| 0 <= k < seen.len() && seen[k] == y;
                        assert(data@.take(i + 1)[k] == y);
                    } else {
                        assert(y == x);
                        assert(data@.take(i + 1)[i as int] == x);
                    }
                }
            }
        }
        proof {
            assert(data@.take(i + 1) =~= data@.take(i as int).push(x));
        }
        i = i + 1;
    }
    proof {
        assert(data@.take(n as int) =~= data@);
    }
    t
}

/// One insertion step of the descending-count sort: inserting the next
/// entry at the first position whose count is smaller keeps every
/// invariant of the partially sorted table.
#[verifier::rlimit(100)]
proof fn lemma_sort_step(pre: Seq<(u8, usize)>, counts: Seq<(u8, usize)>, k: int, p: int)
    requires
        distinct_symbols(counts),
        0 <= k < counts.len(),
        pre.len() == k,
        0 <= p <= k,
        forall|j: int| 0 <= j < pre.len() ==>
            exists|ii: int| 0 <= ii < k && counts[ii] == #[trigger] pre[j],
        forall|i: int| 0 <= i < k ==> pre.contains(#[trigger] counts[i]),
        distinct_symbols(pre),
        sorted_desc(pre, counts),
        total_count(pre) == total_count(counts.take(k)),
        forall|q: int| 0 <= q < p ==> (#[trigger] pre[q]).1 >= counts[k].1,
        p < k ==> pre[p].1 < counts[k].1,
    ensures
        pre.insert(p, counts[k]).len() == k + 1,
        forall|j: int| 0 <= j < pre.insert(p, counts[k]).len() ==>
            exists|ii: int| 0 <= ii < k + 1
                && counts[ii] == #[trigger] pre.insert(p, counts[k])[j],
        forall|i: int| 0 <= i < k + 1 ==>
            pre.insert(p, counts[k]).contains(#[trigger] counts[i]),
        distinct_symbols(pre.insert(p, counts[k])),
        sorted_desc(pre.insert(p, counts[k]), counts),
        total_count(pre.insert(p, counts[k])) == total_count(counts.take(k + 1)),
{
    let e = counts[k];
    let c = e.1;
    let r = pre.insert(p, e);
    assert(entry_pos(counts, e.0) == k) by {
        lemma_entry_pos_unique(counts, k);
    };
    assert forall|q: int| 0 <= q < pre.len() implies
        entry_pos(counts, (#[trigger] pre[q]).0) < k && pre[q].0 != e.0 by {
        let ii = choose|ii: int| 0 <= ii < k && counts[ii] == pre[q];
        lemma_entry_pos_unique(counts, ii);
        if pre[q].0 == e.0 {
            assert(counts[ii].0 == counts[k].0);
        }
    }
    lemma_total_insert(pre, p, e);
    assert(counts.take(k + 1).drop_last() =~= counts.take(k));
    assert(counts.take(k + 1).last() == counts[k]);
    assert forall|j: int| 0 <= j < r.len() implies
        exists|ii: int| 0 <= ii < k + 1 && counts[ii] == #[trigger] r[j] by {
        if j < p {
            assert(r[j] == pre[j]);
        } else if j == p {
            assert(r[j] == counts[k]);
        } else {
            assert(r[j] == pre[j - 1]);
        }
    }
    assert forall|i: int| 0 <= i < k + 1 implies r.contains(#[trigger] counts[i]) by {
        if i < k {
            let j = choose|j: int| 0 <= j < pre.len() && pre[j] == counts[i];
            if j < p {
                assert(r[j] == counts[i]);
            } else {
                assert(r[j + 1] == counts[i]);
            }
        } else {
            assert(r[p] == counts[i]);
        }
    }
    assert forall|i: int, j: int| 0 <= i < j < r.len() implies
        (#[trigger] r[i]).1 > (#[trigger] r[j]).1
            || (r[i].1 == r[j].1
                && entry_pos(counts, r[i].0) < entry_pos(counts, r[j].0)) by {
        if j < p {
            assert(r[i] == pre[i] && r[j] == pre[j]);
        } else if j == p {
            assert(r[i] == pre[i]);
            assert(pre[i].1 >= c);
        } else if i < p {
            assert(r[i] == pre[i] && r[j] == pre[j - 1]);
        } else if i == p {
            assert(r[j] == pre[j - 1]);
            assert(pre[j - 1].1 < c);
        } else {
            assert(r[i] == pre[i - 1] && r[j] == pre[j - 1]);
        }
    }
}

/// Sorts a frequency table by descending count; entries with equal counts
/// keep their relative order from the input table. The result is the unique
/// permutation of the input in this strict order.
pub fn sort_desc(counts: Vec<(u8, usize)>) -> (r: Vec<(u8, usize)>)
    requires
        distinct_symbols(counts@),
    ensures
        r@.len() == counts@.len(),
        distinct_symbols(r@),
        forall|j: int| 0 <= j < r@.len() ==> counts@.contains(#[trigger] r@[j]),
        forall|i: int| 0 <= i < counts@.len() ==> r@.contains(#[trigger] counts@[i]),
        sorted_desc(r@, counts@),
        total_count(r@) == total_count(counts@),
    {
    let mut r: Vec<(u8, usize)> = Vec::new();
    let n = counts.len();
    let mut k: usize = 0;
    while k < n
        invariant
            n == counts@.len(),
            k <= n,
            r@.len() == k,
            distinct_symbols(counts@),
            forall|j: int| 0 <= j < r@.len() ==>
                exists|ii: int| 0 <= ii < k && counts@[ii] == #[trigger] r@[j],
            forall|i: int| 0 <= i < k ==> r@.contains(#[trigger] counts@[i]),
            distinct_symbols(r@),
            sorted_desc(r@, counts@),
            total_count(r@) == total_count(counts@.take(k as int)),
        decreases n - k,
    {
        let e = counts[k];
        let c = e.1;
        let ghost pre = r@;
        let mut p: usize = 0;
        while p < r.len() && r[p].1 >= c
            invariant
                r@ == pre,
                p <= r@.len(),
                forall|q: int| 0 <= q < p ==> (#[trigger] r@[q]).1 >= c,
            decreases r@.len() - p,
        {
            p = p + 1;
        }
        proof {
            assert(p < pre.len() ==> pre[p as int].1 < c);
        }
        r.insert(p, e);
        proof {
            lemma_sort_step(pre, counts@, k as int, p as int);
            assert(r@ == pre.insert(p as int, e));
        }
        k = k + 1;
    }
    proof {
        assert(counts@.take(n as int) =~= counts@);
    }
    r
}

/// Counts the symbols of `data` and sorts them into the canonical coder
/// order: descending count, first occurrence first among equal counts.
pub fn sorted_counts(data: &[u8]) -> (r: Vec<(u8, usize)>)
    ensures
        distinct_symbols(r@),
        covers(r@, data@),
        counts_match(r@, data@),
        total_count(r@) == data@.len(),
        canonical_order(r@, data@),
    {
    let c = count_symbols(data);
    let ghost cv = c@;
    let r = sort_desc(c);
    proof {
        assert forall|x: u8| data@.contains(x) implies
            exists|j: int| 0 <= j < r@.len() && (#[trigger] r@[j]).0 == x by {
            let j = choose|j: int| 0 <= j < cv.len() && cv[j].0 == x;
            assert(r@.contains(cv[j]));
            let p = choose|p: int| 0 <= p < r@.len() && r@[p] == cv[j];
            assert(r@[p].0 == x);
        }
        assert forall|x: u8| (exists|j: int| 0 <= j < r@.len() && (#[trigger] r@[j]).0 == x)
            implies data@.contains(x) by {
            let j = choose|j: int| 0 <= j < r@.len() && r@[j].0 == x;
            assert(cv.contains(r@[j]));
            let p = choose|p: int| 0 <= p < cv.len() && cv[p] == r@[j];
            assert(cv[p].0 == x);
        }
        assert forall|j: int| 0 <= j < r@.len() implies
            (#[trigger] r@[j]).1 == count_of(data@, r@[j].0) && r@[j].1 >= 1 by {
            assert(cv.contains(r@[j]));
            let p = choose|p: int| 0 <= p < cv.len() && cv[p] == r@[j];
            assert(cv[p].1 == count_of(data@, cv[p].0));
        }
        assert(total_count(r@) == data@.len());
        assert forall|i: int, j: int| 0 <= i < j < r@.len() implies
            (#[trigger] r@[i]).1 > (#[trigger] r@[j]).1
                || (r@[i].1 == r@[j].1
                    && first_pos(data@, r@[i].0) < first_pos(data@, r@[j].0)) by {
            if r@[i].1 == r@[j].1 {
                assert(cv.contains(r@[i]) && cv.contains(r@[j]));
                let pi = choose|p: int| 0 <= p < cv.len() && cv[p] == r@[i];
                let pj = choose|p: int| 0 <= p < cv.len() && cv[p] == r@[j];
                lemma_entry_pos_unique(cv, pi);
                lemma_entry_pos_unique(cv, pj);
                assert(entry_pos(cv, r@[i].0) == pi && entry_pos(cv, r@[j].0) == pj);
                assert(pi < pj);
                assert(first_pos(data@, cv[pi].0) < first_pos(data@, cv[pj].0));
            }
        }
    }
    r
}

} // verus!
