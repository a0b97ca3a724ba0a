//! Shannon-Fano coding: the frequency table, sorted descending, is split
//! recursively at the point of least cumulative imbalance; entries left of
//! the split get bit `0` appended at that level, entries right of it bit `1`.

use vstd::prelude::*;
use crate::bitvec::BitVec;
use crate::compress::{
    Code, decode_with, encode_with, exec_table_wf, is_prefix, table_has, view_table,
};
use crate::utils;

verus! {

/// The sum of a frequency slice.
pub open spec fn freq_sum(s: Seq<usize>) -> int
    decreases s.len(),
{
    if s.len() == 0 {
        0
    } else {
        freq_sum(s.drop_last()) + s.last()
    }
}

/// The cumulative imbalance of splitting after index `k`: the absolute
/// difference between the sum of the first `k + 1` entries and the rest.
pub open spec fn imbalance(s: Seq<usize>, k: int) -> int {
    let d = 2 * freq_sum(s.take(k + 1)) - freq_sum(s);
    if d >= 0 {
        d
    } else {
        -d
    }
}

/// The first index at or after `k` whose imbalance is least among the
/// indices from `k` on.
pub open spec fn best_from(s: Seq<usize>, k: int) -> int
    decreases s.len() - k,
{
    if k >= s.len() - 1 {
        s.len() - 1
    } else {
        let b = best_from(s, k + 1);
        if imbalance(s, k) <= imbalance(s, b) {
            k
        } else {
            b
        }
    }
}

/// The Shannon-Fano codes for a descending frequency slice: split after the
/// index of least imbalance, prepend `0` on the left and `1` on the right,
/// and recurse; a single entry gets the empty code.
pub open spec fn shannon_codes(freqs: Seq<usize>) -> Seq<Seq<bool>>
    decreases freqs.len(),
{
    if freqs.len() <= 1 {
        Seq::new(freqs.len(), |j: int| Seq::<bool>::empty())
    } else {
        let m = best_from(freqs, 0) + 1;
        if 1 <= m < freqs.len() {
            let left = shannon_codes(freqs.take(m));
            let right = shannon_codes(freqs.skip(m));
            Seq::new(freqs.len(), |j: int|
                if j < m {
                    seq![false] + left[j]
                } else {
                    seq![true] + right[j - m]
                })
        } else {
            Seq::new(freqs.len(), |j: int| Seq::<bool>::empty())
        }
    }
}

/// Sums are nonnegative, and splitting a slice splits its sum.
proof fn lemma_sum_split(a: Seq<usize>, b: Seq<usize>)
    ensures
        freq_sum(a + b) == freq_sum(a) + freq_sum(b),
    decreases b.len(),
{
    if b.len() == 0 {
        assert(a + b =~= a);
    } else {
        assert((a + b).drop_last() =~= a + b.drop_last());
        lemma_sum_split(a, b.drop_last());
    }
}

/// A sum of unsigned frequencies is nonnegative.
proof fn lemma_sum_nonneg(s: Seq<usize>)
    ensures
        freq_sum(s) >= 0,
    decreases s.len(),
{
    if s.len() > 0 {
        lemma_sum_nonneg(s.drop_last());
    }
}

/// A sum is at least zero and at least the sum of any prefix.
proof fn lemma_sum_take(s: Seq<usize>, k: int)
    requires
        0 <= k <= s.len(),
    ensures
        0 <= freq_sum(s.take(k)) <= freq_sum(s),
    decreases s.len() - k,
{
    lemma_sum_nonneg(s.take(k));
    if k == s.len() {
        assert(s.take(k) =~= s);
    } else {
        lemma_sum_take(s, k + 1);
        assert(s.take(k + 1).drop_last() =~= s.take(k));
        assert(s.take(k + 1).last() == s[k]);
    }
}

/// With every frequency at least one, a sum is at least the slice length.
proof fn lemma_sum_positive(s: Seq<usize>)
    requires
        forall|j: int| 0 <= j < s.len() ==> s[j] >= 1,
    ensures
        freq_sum(s) >= s.len(),
    decreases s.len(),
{
    if s.len() > 0 {
        lemma_sum_positive(s.drop_last());
    }
}

/// What `best_from` returns: an index in range whose imbalance no later
/// index beats, and which every earlier index (from `k` on) strictly exceeds.
proof fn lemma_best_from(s: Seq<usize>, k: int)
    requires
        0 <= k <= s.len() - 1,
    ensures
        k <= best_from(s, k) <= s.len() - 1,
        forall|j: int| k <= j <= s.len() - 1 ==>
            imbalance(s, best_from(s, k)) <= #[trigger] imbalance(s, j),
        forall|j: int| k <= j < best_from(s, k) ==>
            #[trigger] imbalance(s, j) > imbalance(s, best_from(s, k)),
    decreases s.len() - k,
{
    if k < s.len() - 1 {
        lemma_best_from(s, k + 1);
    }
}

/// With positive frequencies the least-imbalance split is interior: the
/// last index, whose imbalance is the whole sum, is never chosen.
proof fn lemma_split_interior(s: Seq<usize>)
    requires
        s.len() >= 2,
        forall|j: int| 0 <= j < s.len() ==> s[j] >= 1,
    ensures
        0 <= best_from(s, 0) < s.len() - 1,
{
    lemma_best_from(s, 0);
    lemma_sum_nonneg(s);
    let total = freq_sum(s);
    assert(s.take(s.len() as int) =~= s);
    assert(imbalance(s, s.len() - 1) == total);
    assert(freq_sum(s.take(1)) == s[0]) by {
        assert(s.take(1).drop_last() =~= Seq::<usize>::empty());
        assert(s.take(1).last() == s[0]);
        assert(freq_sum(Seq::<usize>::empty()) == 0);
    };
    assert(total >= s[0] + 1) by {
        assert(s =~= s.take(1) + s.skip(1));
        lemma_sum_split(s.take(1), s.skip(1));
        assert(forall|j: int| 0 <= j < s.skip(1).len() ==> s.skip(1)[j] >= 1);
        lemma_sum_positive(s.skip(1));
    };
    assert(imbalance(s, 0) < total);
    if best_from(s, 0) == s.len() - 1 {
        assert(imbalance(s, best_from(s, 0)) <= imbalance(s, 0));
    }
}

/// Prepending one bit to two codes keeps or breaks prefixhood exactly by
/// that bit and the tails.
proof fn lemma_prefix_cons(b1: bool, x: Seq<bool>, b2: bool, y: Seq<bool>)
    ensures
        is_prefix(seq![b1] + x, seq![b2] + y) <==> (b1 == b2 && is_prefix(x, y)),
{
    let a = seq![b1] + x;
    let c = seq![b2] + y;
    if is_prefix(a, c) {
        assert(a[0] == c.take(a.len() as int)[0]);
        assert(a[0] == b1 && c[0] == b2);
        assert(x =~= y.take(x.len() as int)) by {
            assert forall|i: int| 0 <= i < x.len() implies x[i] == y.take(x.len() as int)[i] by {
                assert(a[i + 1] == c.take(a.len() as int)[i + 1]);
            }
        };
    }
    if b1 == b2 && is_prefix(x, y) {
        assert(a =~= c.take(a.len() as int)) by {
            assert forall|i: int| 0 <= i < a.len() implies a[i] == c.take(a.len() as int)[i] by {
                if i > 0 {
                    assert(x[i - 1] == y.take(x.len() as int)[i - 1]);
                }
            }
        };
    }
}

/// The Shannon-Fano table is prefix-free, and its codes are nonempty
/// whenever the alphabet has at least two symbols.
proof fn lemma_shannon_prefix_free(freqs: Seq<usize>)
    requires
        forall|j: int| 0 <= j < freqs.len() ==> freqs[j] >= 1,
    ensures
        shannon_codes(freqs).len() == freqs.len(),
        freqs.len() >= 2 ==> forall|j: int| 0 <= j < freqs.len() ==>
            (#[trigger] shannon_codes(freqs)[j]).len() >= 1,
        forall|i: int, j: int| 0 <= i < freqs.len() && 0 <= j < freqs.len() && i != j ==>
            !is_prefix(#[trigger] shannon_codes(freqs)[i], #[trigger] shannon_codes(freqs)[j]),
    decreases freqs.len(),
{
    if freqs.len() >= 2 {
        lemma_split_interior(freqs);
        let m = best_from(freqs, 0) + 1;
        let lf = freqs.take(m);
        let rf = freqs.skip(m);
        assert(forall|j: int| 0 <= j < lf.len() ==> lf[j] >= 1);
        assert(forall|j: int| 0 <= j < rf.len() ==> rf[j] >= 1);
        lemma_shannon_prefix_free(lf);
        lemma_shannon_prefix_free(rf);
        let cs = shannon_codes(freqs);
        let left = shannon_codes(lf);
        let right = shannon_codes(rf);
        assert forall|i: int, j: int|
            0 <= i < freqs.len() && 0 <= j < freqs.len() && i != j implies
            !is_prefix(#[trigger] cs[i], #[trigger] cs[j]) by {
            if i < m && j < m {
                lemma_prefix_cons(false, left[i], false, left[j]);
            } else if i >= m && j >= m {
                lemma_prefix_cons(true, right[i - m], true, right[j - m]);
            } else if i < m {
                lemma_prefix_cons(false, left[i], true, right[j - m]);
            } else {
                lemma_prefix_cons(true, right[i - m], false, left[j]);
            }
        }
    }
}

/// A Shannon-Fano coder: the built code table, one entry per symbol of the
/// data it was built from, in descending frequency order.
pub struct ShannonCode {
    table: Vec<(u8, BitVec)>,
}

impl ShannonCode {
    /// The frequencies, in table order, of the table's symbols in `data`.
    pub open spec fn table_freqs(t: Seq<(u8, Seq<bool>)>, data: Seq<u8>) -> Seq<usize> {
        Seq::new(t.len(), |j: int| utils::count_of(data, t[j].0) as usize)
    }

    /// Finds the absolute index in `[lo, hi)` of the first least-imbalance
    /// split point of the frequency slice.
    fn find_middle(freqs: &Vec<usize>, lo: usize, hi: usize) -> (r: usize)
        requires
            lo < hi <= freqs@.len(),
            freq_sum(freqs@.subrange(lo as int, hi as int)) <= usize::MAX,
        ensures
            lo <= r < hi,
            r == lo + best_from(freqs@.subrange(lo as int, hi as int), 0),
    {
        let ghost sub = freqs@.subrange(lo as int, hi as int);
        let mut total: usize = 0;
        let mut k: usize = lo;
        while k < hi
            invariant
                lo <= k <= hi <= freqs@.len(),
                sub == freqs@.subrange(lo as int, hi as int),
                freq_sum(sub) <= usize::MAX,
                total == freq_sum(sub.take(k - lo)),
            decreases hi - k,
        {
            proof {
                assert(sub.take(k - lo + 1).drop_last() =~= sub.take(k - lo));
                assert(sub.take(k - lo + 1).last() == freqs@[k as int]);
                lemma_sum_take(sub, k - lo + 1);
                assert(sub.take(k - lo + 1).take(k - lo) =~= sub.take(k - lo));
                lemma_sum_take(sub.take(k - lo + 1), k - lo);
            }
            total = total + freqs[k];
            k = k + 1;
        }
        proof {
            assert(sub.take(hi - lo) =~= sub);
        }
        let mut top: usize = 0;
        let mut best: usize = lo;
        let mut best_d: usize = total;
        let mut started = false;
        let mut k: usize = lo;
        while k < hi
            invariant
                lo <= k <= hi <= freqs@.len(),
                sub == freqs@.subrange(lo as int, hi as int),
                freq_sum(sub) <= usize::MAX,
                total == freq_sum(sub),
                top == freq_sum(sub.take(k - lo)),
                started ==> lo <= best < k
                    && best_d == imbalance(sub, best - lo)
                    && (forall|j: int| 0 <= j < k - lo ==>
                        #[trigger] imbalance(sub, j) >= best_d)
                    && (forall|j: int| 0 <= j < best - lo ==>
                        #[trigger] imbalance(sub, j) > best_d),
                !started ==> k == lo,
            decreases hi - k,
        {
            proof {
                assert(sub.take(k - lo + 1).drop_last() =~= sub.take(k - lo));
                assert(sub.take(k - lo + 1).last() == freqs@[k as int]);
                lemma_sum_take(sub, k - lo + 1);
                assert(sub.take(k - lo + 1).take(k - lo) =~= sub.take(k - lo));
                lemma_sum_take(sub.take(k - lo + 1), k - lo);
            }
            top = top + freqs[k];
            let bot = total - top;
            let d = if top > bot {
                top - bot
            } else {
                bot - top
            };
            proof {
                assert(d == imbalance(sub, k - lo));
            }
            if !started || d < best_d {
                best = k;
                best_d = d;
                started = true;
            }
            k = k + 1;
        }
        proof {
            lemma_best_from(sub, 0);
            let b = best_from(sub, 0);
            let e = best - lo;
            assert(imbalance(sub, b) >= best_d);
            assert(imbalance(sub, e) >= imbalance(sub, b));
            if b < e {
                assert(imbalance(sub, b) > best_d);
            }
            if b > e {
                assert(imbalance(sub, e) > imbalance(sub, b));
            }
        }
        best
    }

    /// Appends, to each code in `[lo, hi)`, the Shannon-Fano code of its
    /// position in that slice: one bit per recursion level, `0` left of the
    /// split, `1` right of it.
    fn step(codes: &mut Vec<BitVec>, freqs: &Vec<usize>, lo: usize, hi: usize)
        requires
            lo <= hi <= freqs@.len(),
            freqs@.len() == old(codes)@.len(),
            forall|j: int| lo <= j < hi ==> freqs@[j] >= 1,
            freq_sum(freqs@.subrange(lo as int, hi as int)) <= usize::MAX,
            forall|j: int| 0 <= j < old(codes)@.len() ==> (#[trigger] old(codes)@[j]).wf(),
            forall|j: int| lo <= j < hi ==>
                (#[trigger] old(codes)@[j])@.len() + (hi - lo) + 16 <= usize::MAX,
        ensures
            final(codes)@.len() == old(codes)@.len(),
            forall|j: int| 0 <= j < old(codes)@.len() && !(lo <= j < hi) ==>
                #[trigger] final(codes)@[j] == old(codes)@[j],
            forall|j: int| 0 <= j < old(codes)@.len() ==> (#[trigger] final(codes)@[j]).wf(),
            forall|j: int| lo <= j < hi ==>
                (#[trigger] final(codes)@[j])@ == old(codes)@[j]@
                    + shannon_codes(freqs@.subrange(lo as int, hi as int))[j - lo],
        decreases hi - lo,
    {
        let ghost sub = freqs@.subrange(lo as int, hi as int);
        if hi - lo <= 1 {
            proof {
                if lo < hi {
                    assert(shannon_codes(sub)[0] == Seq::<bool>::empty());
                    assert(old(codes)@[lo as int]@ + Seq::<bool>::empty()
                        =~= old(codes)@[lo as int]@);
                }
            }
            return;
        }
        proof {
            lemma_split_interior(sub);
        }
        let mid = Self::find_middle(freqs, lo, hi);
        let m = mid + 1;
        let ghost mrel = m - lo;
        let ghost pre = codes@;
        let mut j: usize = lo;
        while j < m
            invariant
                lo <= j <= m <= hi <= freqs@.len(),
                freqs@.len() == codes@.len(),
                codes@.len() == pre.len(),
                forall|k: int| 0 <= k < pre.len() && !(lo <= k < j) ==>
                    #[trigger] codes@[k] == pre[k],
                forall|k: int| 0 <= k < pre.len() ==> (#[trigger] codes@[k]).wf(),
                forall|k: int| lo <= k < j ==>
                    (#[trigger] codes@[k])@ == pre[k]@ + seq![false],
                forall|k: int| lo <= k < hi ==>
                    (#[trigger] pre[k])@.len() + (hi - lo) + 16 <= usize::MAX,
            decreases m - j,
        {
            let ghost before = codes@;
            let mut c = codes[j].clone();
            c.push(false);
            codes.set(j, c);
            proof {
                assert(codes@[j as int]@ =~= pre[j as int]@ + seq![false]);
            }
            j = j + 1;
        }
        let mut j: usize = m;
        while j < hi
            invariant
                lo <= m <= j <= hi <= freqs@.len(),
                freqs@.len() == codes@.len(),
                codes@.len() == pre.len(),
                forall|k: int| 0 <= k < pre.len() && !(lo <= k < j) ==>
                    #[trigger] codes@[k] == pre[k],
                forall|k: int| 0 <= k < pre.len() ==> (#[trigger] codes@[k]).wf(),
                forall|k: int| lo <= k < m ==>
                    (#[trigger] codes@[k])@ == pre[k]@ + seq![false],
                forall|k: int| m <= k < j ==>
                    (#[trigger] codes@[k])@ == pre[k]@ + seq![true],
                forall|k: int| lo <= k < hi ==>
                    (#[trigger] pre[k])@.len() + (hi - lo) + 16 <= usize::MAX,
            decreases hi - j,
        {
            let mut c = codes[j].clone();
            c.push(true);
            codes.set(j, c);
            proof {
                assert(codes@[j as int]@ =~= pre[j as int]@ + seq![true]);
            }
            j = j + 1;
        }
        proof {
            assert(freqs@.subrange(lo as int, m as int) =~= sub.take(mrel));
            assert(freqs@.subrange(m as int, hi as int) =~= sub.skip(mrel));
            lemma_sum_take(sub, mrel);
            assert(sub =~= sub.take(mrel) + sub.skip(mrel));
            lemma_sum_split(sub.take(mrel), sub.skip(mrel));
        }
        let ghost mid_state = codes@;
        Self::step(codes, freqs, lo, m);
        let ghost after_left = codes@;
        Self::step(codes, freqs, m, hi);
        proof {
            let cs = shannon_codes(sub);
            let left = shannon_codes(sub.take(mrel));
            let right = shannon_codes(sub.skip(mrel));
            assert forall|k: int| lo <= k < hi implies
                (#[trigger] codes@[k])@ == pre[k]@ + cs[k - lo] by {
                if k < m {
                    assert(after_left[k]@ == mid_state[k]@ + left[k - lo]);
                    assert(codes@[k] == after_left[k]);
                    assert(mid_state[k]@ == pre[k]@ + seq![false]);
                    assert((pre[k]@ + seq![false]) + left[k - lo]
                        =~= pre[k]@ + (seq![false] + left[k - lo]));
                    assert(cs[k - lo] == seq![false] + left[k - lo]);
                } else {
                    assert(after_left[k] == mid_state[k]);
                    assert(codes@[k]@ == after_left[k]@ + right[k - m]);
                    assert(mid_state[k]@ == pre[k]@ + seq![true]);
                    assert((pre[k]@ + seq![true]) + right[k - m]
                        =~= pre[k]@ + (seq![true] + right[k - m]));
                    assert(cs[k - lo] == seq![true] + right[k - lo - mrel]);
                }
            }
        }
    }
}

/// With every count at least one, a table has no more entries than its
/// counts sum to.
pub(crate) proof fn lemma_total_at_least_len(t: Seq<(u8, usize)>)
    requires
        forall|j: int| 0 <= j < t.len() ==> (#[trigger] t[j]).1 >= 1,
    ensures
        utils::total_count(t) >= t.len(),
    decreases t.len(),
{
    if t.len() > 0 {
        lemma_total_at_least_len(t.drop_last());
    }
}

/// Frequencies read off a table entry by entry sum to the table's total.
pub(crate) proof fn lemma_freq_total(freqs: Seq<usize>, t: Seq<(u8, usize)>)
    requires
        freqs.len() == t.len(),
        forall|j: int| 0 <= j < t.len() ==> freqs[j] == (#[trigger] t[j]).1,
    ensures
        freq_sum(freqs) == utils::total_count(t),
    decreases t.len(),
{
    if t.len() > 0 {
        lemma_freq_total(freqs.drop_last(), t.drop_last());
    }
}

impl Code for ShannonCode {
    /// The code table, as symbol/bit-sequence pairs.
    closed spec fn codes(&self) -> Seq<(u8, Seq<bool>)> {
        view_table(self.table@)
    }

    closed spec fn wf(&self) -> bool {
        exec_table_wf(self.table@)
    }

    /// Counts and sorts the data's symbols, then assigns each the
    /// Shannon-Fano code of its position: exactly `shannon_codes` of the
    /// sorted frequencies, attached to the symbols in descending count
    /// order with first occurrence breaking ties.
    fn from_data(data: &[u8]) -> (r: Self)
        ensures
            forall|i: int, j: int| 0 <= i < j < r.codes().len() ==>
                utils::count_of(data@, (#[trigger] r.codes()[i]).0)
                    > utils::count_of(data@, (#[trigger] r.codes()[j]).0)
                || (utils::count_of(data@, r.codes()[i].0)
                        == utils::count_of(data@, r.codes()[j].0)
                    && utils::first_pos(data@, r.codes()[i].0)
                        < utils::first_pos(data@, r.codes()[j].0)),
            forall|j: int| 0 <= j < r.codes().len() ==>
                (#[trigger] r.codes()[j]).1
                    == shannon_codes(Self::table_freqs(r.codes(), data@))[j],
    {
        let counts = utils::sorted_counts(data);
        let n = counts.len();
        let mut freqs: Vec<usize> = Vec::new();
        let mut codes: Vec<BitVec> = Vec::new();
        let mut k: usize = 0;
        while k < n
            invariant
                n == counts@.len(),
                utils::counts_match(counts@, data@),
                k <= n,
                freqs@.len() == k,
                codes@.len() == k,
                forall|j: int| 0 <= j < k ==> #[trigger] freqs@[j] == counts@[j].1
                    && freqs@[j] >= 1,
                forall|j: int| 0 <= j < k ==> (#[trigger] codes@[j]).wf()
                    && codes@[j]@ == Seq::<bool>::empty(),
            decreases n - k,
        {
            freqs.push(counts[k].1);
            codes.push(BitVec::new());
            k = k + 1;
        }
        proof {
            lemma_freq_total(freqs@, counts@);
            lemma_total_at_least_len(counts@);
            assert(freqs@.subrange(0, n as int) =~= freqs@);
        }
        ShannonCode::step(&mut codes, &freqs, 0, n);
        let mut table: Vec<(u8, BitVec)> = Vec::new();
        let mut k: usize = 0;
        while k < n
            invariant
                n == counts@.len(),
                n == codes@.len(),
                k <= n,
                table@.len() == k,
                forall|j: int| 0 <= j < codes@.len() ==> (#[trigger] codes@[j]).wf(),
                forall|j: int| 0 <= j < k ==> (#[trigger] table@[j]).0 == counts@[j].0
                    && table@[j].1.wf() && table@[j].1@ == codes@[j]@,
            decreases n - k,
        {
            table.push((counts[k].0, codes[k].clone()));
            k = k + 1;
        }
        let r = ShannonCode { table };
        proof {
            let vt = view_table(r.table@);
            let ghost fr = Self::table_freqs(vt, data@);
            assert(fr =~= freqs@);
            assert(freqs@.subrange(0, n as int) =~= freqs@);
            assert forall|j: int| 0 <= j < vt.len() implies
                (#[trigger] vt[j]).1 == shannon_codes(fr)[j] by {
                assert(codes@[j]@ == Seq::<bool>::empty() + shannon_codes(freqs@)[j]);
                assert(Seq::<bool>::empty() + shannon_codes(freqs@)[j]
                    =~= shannon_codes(freqs@)[j]);
            }
            lemma_shannon_prefix_free(freqs@);
            assert forall|x: u8| table_has(vt, x) implies data@.contains(x) by {
                let j = choose|j: int| 0 <= j < vt.len() && vt[j].0 == x;
                assert(counts@[j].0 == x);
                assert(exists|jj: int| 0 <= jj < counts@.len() && counts@[jj].0 == x);
            }
            assert forall|x: u8| data@.contains(x) implies table_has(vt, x) by {
                let j = choose|j: int| 0 <= j < counts@.len() && counts@[j].0 == x;
                assert(vt[j].0 == x);
            }
        }
        r
    }

    /// Concatenates each symbol's Shannon-Fano code in sequence order.
    fn encode(&self, symbols: &[u8]) -> (r: Option<BitVec>) {
        encode_with(&self.table, symbols)
    }

    /// Walks the buffer against the code table for `len` symbols.
    fn decode(&self, buffer: &BitVec, len: usize) -> (r: Option<Vec<u8>>) {
        decode_with(&self.table, buffer, len)
    }
}

} // verus!
