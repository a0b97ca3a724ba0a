//! Arithmetic coding: every symbol owns a half-open slice of the fixed range
//! `[0, RANGE_MAX)` proportional to its frequency, laid out contiguously in
//! descending frequency order with the last symbol absorbing the rounding
//! remainder. Encoding narrows the working interval into each symbol's slice
//! in turn and returns one integer inside the final interval; decoding finds,
//! step by step, the slice that integer falls in.

use vstd::prelude::*;
use crate::utils;

verus! {

/// The top of the numeric coding space; intervals partition `[0, RANGE_MAX)`.
pub const RANGE_MAX: u32 = 0x7FFF_FFFF;

/// A half-open slice `[low, high)` of the coding space.
#[derive(Clone, Copy)]
pub struct Interval {
    pub low: u32,
    pub high: u32,
}

impl Interval {
    pub fn new(low: u32, high: u32) -> (r: Self)
        ensures
            r.low == low,
            r.high == high,
    {
        Interval { low, high }
    }
}

/// A well-formed interval table: distinct symbols; slices in range, each
/// below the next; the first starting at zero and the last ending exactly at
/// `RANGE_MAX`, so the slices partition `[0, RANGE_MAX)`.
pub open spec fn ac_wf(t: Seq<(u8, Interval)>) -> bool {
    &&& forall|i: int, j: int| 0 <= i < j < t.len() ==> t[i].0 != t[j].0
    &&& forall|j: int| 0 <= j < t.len() ==>
        (#[trigger] t[j]).1.low <= t[j].1.high <= RANGE_MAX
    &&& forall|j: int| 0 <= j < t.len() - 1 ==>
        (#[trigger] t[j]).1.high == t[j + 1].1.low
    &&& t.len() > 0 ==> t[0].1.low == 0 && t[t.len() - 1].1.high == RANGE_MAX
}

/// The table has an entry for symbol `x`.
pub open spec fn ac_has(t: Seq<(u8, Interval)>, x: u8) -> bool {
    exists|j: int| 0 <= j < t.len() && t[j].0 == x
}

/// The position of `x`'s entry.
pub open spec fn ac_pos(t: Seq<(u8, Interval)>, x: u8) -> int {
    choose|j: int| 0 <= j < t.len() && t[j].0 == x
}

/// Mapping a point `a` of the fixed space into the working interval
/// `[low, high)`.
pub open spec fn narrow_point(low: int, high: int, a: int) -> int {
    low + (high - low) * a / (RANGE_MAX as int)
}

/// The working interval after encoding `s`: each symbol narrows the interval
/// to the image of its slice; absent on an unknown symbol or when an
/// interval of zero width would be reached.
pub open spec fn spec_narrow(t: Seq<(u8, Interval)>, s: Seq<u8>, low: int, high: int)
    -> Option<(int, int)>
    decreases s.len(),
{
    if s.len() == 0 {
        Some((low, high))
    } else if !ac_has(t, s[0]) {
        None
    } else {
        let iv = t[ac_pos(t, s[0])].1;
        let l2 = narrow_point(low, high, iv.low as int);
        let h2 = narrow_point(low, high, iv.high as int);
        if l2 < h2 {
            spec_narrow(t, s.skip(1), l2, h2)
        } else {
            None
        }
    }
}

/// Does `v` fall in the image of entry `j`'s slice?
pub open spec fn fits(t: Seq<(u8, Interval)>, j: int, v: int, low: int, high: int) -> bool {
    narrow_point(low, high, t[j].1.low as int) <= v
        && v < narrow_point(low, high, t[j].1.high as int)
}

/// The first entry whose mapped slice contains `v`, from position `j` on;
/// the table length if there is none.
pub open spec fn first_fit(t: Seq<(u8, Interval)>, v: int, low: int, high: int, j: int) -> int
    decreases t.len() - j,
{
    if j < 0 || j >= t.len() {
        t.len() as int
    } else if fits(t, j, v, low, high) {
        j
    } else {
        first_fit(t, v, low, high, j + 1)
    }
}

/// Decoding `len` symbols from the integer `v`: at each step take the first
/// entry whose mapped slice contains `v`, emit its symbol and narrow to that
/// slice; absent when no slice contains `v`.
pub open spec fn spec_recover(t: Seq<(u8, Interval)>, v: int, len: nat, low: int, high: int)
    -> Option<Seq<u8>>
    decreases len,
{
    if len == 0 {
        Some(Seq::empty())
    } else {
        let j = first_fit(t, v, low, high, 0);
        if j == t.len() {
            None
        } else {
            let l2 = narrow_point(low, high, t[j].1.low as int);
            let h2 = narrow_point(low, high, t[j].1.high as int);
            match spec_recover(t, v, (len - 1) as nat, l2, h2) {
                Some(rest) => Some(seq![t[j].0] + rest),
                None => None,
            }
        }
    }
}

/// Some slice of the table contains the point `v`.
pub open spec fn covered_point(t: Seq<(u8, Interval)>, v: int) -> bool {
    exists|j: int| 0 <= j < t.len() && (#[trigger] t[j]).1.low <= v < t[j].1.high
}

/// Mapping a point keeps the working interval's bounds and order.
proof fn lemma_narrow_bounds(low: int, high: int, a: int, b: int)
    requires
        low <= high,
        0 <= a <= b <= RANGE_MAX,
    ensures
        low <= narrow_point(low, high, a) <= narrow_point(low, high, b) <= high,
{
    let r = RANGE_MAX as int;
    let w = high - low;
    vstd::arithmetic::mul::lemma_mul_inequality(a, b, w);
    vstd::arithmetic::mul::lemma_mul_inequality(b, r, w);
    vstd::arithmetic::mul::lemma_mul_inequality(0, a, w);
    vstd::arithmetic::div_mod::lemma_div_is_ordered(0, w * a, r);
    vstd::arithmetic::div_mod::lemma_div_is_ordered(w * a, w * b, r);
    vstd::arithmetic::div_mod::lemma_div_is_ordered(w * b, w * r, r);
    vstd::arithmetic::div_mod::lemma_div_multiples_vanish(w, r);
    assert(w * r == r * w) by (nonlinear_arith);
    assert(w * a == a * w && w * b == b * w && 0 * w == 0) by (nonlinear_arith);
}

/// In a table with distinct symbols, an entry's position is determined by
/// its symbol.
proof fn lemma_ac_pos_unique(t: Seq<(u8, Interval)>, j: int)
    requires
        forall|i: int, jj: int| 0 <= i < jj < t.len() ==> t[i].0 != t[jj].0,
        0 <= j < t.len(),
    ensures
        ac_pos(t, t[j].0) == j,
{
    assert(t[j].0 == t[j].0);
    let p = ac_pos(t, t[j].0);
    assert(0 <= p < t.len() && t[p].0 == t[j].0);
    if p != j {
        assert(t[p].0 != t[j].0);
    }
}

/// Earlier slices end no later than later slices begin.
proof fn lemma_slice_chain(t: Seq<(u8, Interval)>, i: int, j: int)
    requires
        ac_wf(t),
        0 <= i <= j < t.len(),
    ensures
        t[i].1.high <= t[j].1.low + (t[j].1.high - t[j].1.low),
        i < j ==> t[i].1.high <= t[j].1.low,
    decreases j - i,
{
    if i < j {
        lemma_slice_chain(t, i, j - 1);
    }
}

/// The slices of a well-formed table partition `[0, RANGE_MAX)`: they are
/// pairwise disjoint, and every point of the range lies in exactly one.
pub proof fn lemma_interval_partition(t: Seq<(u8, Interval)>)
    requires
        ac_wf(t),
        t.len() > 0,
    ensures
        forall|i: int, j: int| 0 <= i < j < t.len() ==>
            (#[trigger] t[i]).1.high <= (#[trigger] t[j]).1.low,
        forall|v: int| 0 <= v < RANGE_MAX ==> #[trigger] covered_point(t, v),
{
    assert forall|i: int, j: int| 0 <= i < j < t.len() implies
        (#[trigger] t[i]).1.high <= (#[trigger] t[j]).1.low by {
        lemma_slice_chain(t, i, j);
    }
    assert forall|v: int| 0 <= v < RANGE_MAX implies #[trigger] covered_point(t, v) by {
        lemma_find_cover(t, v, 0);
    }
}

/// Scans forward for the slice containing `v`, which exists because the last
/// slice ends at `RANGE_MAX`.
proof fn lemma_find_cover(t: Seq<(u8, Interval)>, v: int, j: int)
    requires
        ac_wf(t),
        0 <= j < t.len(),
        t[j].1.low <= v < RANGE_MAX,
    ensures
        covered_point(t, v),
    decreases t.len() - j,
{
    if v < t[j].1.high {
        assert(t[j].1.low <= v < t[j].1.high);
    } else {
        assert(j < t.len() - 1);
        lemma_find_cover(t, v, j + 1);
    }
}

/// Narrowing only shrinks the working interval: a successful encode ends in
/// a nonempty interval nested inside the starting one.
proof fn lemma_narrow_nested(t: Seq<(u8, Interval)>, s: Seq<u8>, low: int, high: int)
    requires
        ac_wf(t),
        low < high <= RANGE_MAX,
        0 <= low,
        spec_narrow(t, s, low, high) is Some,
    ensures
        low <= spec_narrow(t, s, low, high).unwrap().0,
        spec_narrow(t, s, low, high).unwrap().0 < spec_narrow(t, s, low, high).unwrap().1,
        spec_narrow(t, s, low, high).unwrap().1 <= high,
    decreases s.len(),
{
    if s.len() > 0 {
        let iv = t[ac_pos(t, s[0])].1;
        lemma_narrow_bounds(low, high, iv.low as int, iv.high as int);
        let l2 = narrow_point(low, high, iv.low as int);
        let h2 = narrow_point(low, high, iv.high as int);
        lemma_narrow_nested(t, s.skip(1), l2, h2);
    }
}

/// `first_fit` finds exactly the least fitting position.
proof fn lemma_first_fit(t: Seq<(u8, Interval)>, v: int, low: int, high: int, j: int, j0: int)
    requires
        0 <= j <= j0 <= t.len(),
        forall|jj: int| j <= jj < j0 ==> !fits(t, jj, v, low, high),
        j0 < t.len() ==> fits(t, j0, v, low, high),
    ensures
        first_fit(t, v, low, high, j) == j0,
    decreases j0 - j,
{
    if j < j0 {
        lemma_first_fit(t, v, low, high, j + 1, j0);
    }
}

/// The round-trip law for arithmetic coding: if encoding `s` from the
/// working interval `[low, high)` succeeds, then decoding any integer of
/// the final interval for `s`'s length, from the same working interval,
/// returns exactly `s`.
pub proof fn lemma_arithmetic_round_trip(
    t: Seq<(u8, Interval)>,
    s: Seq<u8>,
    low: int,
    high: int,
    v: int,
)
    requires
        ac_wf(t),
        0 <= low < high <= RANGE_MAX,
        spec_narrow(t, s, low, high) is Some,
        spec_narrow(t, s, low, high).unwrap().0 <= v
            < spec_narrow(t, s, low, high).unwrap().1,
    ensures
        spec_recover(t, v, s.len(), low, high) == Some(s),
    decreases s.len(),
{
    if s.len() == 0 {
        assert(s =~= Seq::<u8>::empty());
    } else {
        let j0 = ac_pos(t, s[0]);
        assert(0 <= j0 < t.len() && t[j0].0 == s[0]);
        let iv = t[j0].1;
        let l2 = narrow_point(low, high, iv.low as int);
        let h2 = narrow_point(low, high, iv.high as int);
        lemma_narrow_bounds(low, high, iv.low as int, iv.high as int);
        lemma_narrow_nested(t, s.skip(1), l2, h2);
        assert(l2 <= v < h2);
        assert(fits(t, j0, v, low, high));
        assert forall|jj: int| 0 <= jj < j0 implies !fits(t, jj, v, low, high) by {
            lemma_slice_chain(t, jj, j0);
            lemma_narrow_bounds(low, high, t[jj].1.high as int, iv.low as int);
        }
        lemma_first_fit(t, v, low, high, 0, j0);
        lemma_arithmetic_round_trip(t, s.skip(1), l2, h2, v);
        assert(seq![t[j0].0] + s.skip(1) =~= s);
    }
}

/// Totals of count tables are nonnegative, and no entry exceeds the total.
proof fn lemma_entry_le_total(t: Seq<(u8, usize)>, j: int)
    requires
        0 <= j < t.len(),
    ensures
        t[j].1 <= utils::total_count(t),
    decreases t.len(),
{
    lemma_total_nonneg(t.drop_last());
    if j < t.len() - 1 {
        lemma_entry_le_total(t.drop_last(), j);
    }
}

/// A total of unsigned counts is nonnegative.
proof fn lemma_total_nonneg(t: Seq<(u8, usize)>)
    ensures
        utils::total_count(t) >= 0,
    decreases t.len(),
{
    if t.len() > 0 {
        lemma_total_nonneg(t.drop_last());
    }
}

/// Flooring division distributes superadditively over a sum.
proof fn lemma_div_plus(a: int, b: int, d: int)
    requires
        0 <= a,
        0 <= b,
        0 < d,
    ensures
        a / d + b / d <= (a + b) / d,
{
    vstd::arithmetic::div_mod::lemma_fundamental_div_mod(a, d);
    vstd::arithmetic::div_mod::lemma_fundamental_div_mod(b, d);
    vstd::arithmetic::div_mod::lemma_div_multiples_vanish(a / d + b / d, d);
    assert(d * (a / d + b / d) == d * (a / d) + d * (b / d)) by (nonlinear_arith);
    vstd::arithmetic::div_mod::lemma_div_is_ordered(d * (a / d + b / d), a + b, d);
}

/// An arithmetic coder: each symbol of the data it was built from, paired
/// with its slice of the coding space, in descending frequency order.
pub struct ArithmeticCode {
    map: Vec<(u8, Interval)>,
}

impl ArithmeticCode {
    /// The interval table.
    pub closed spec fn table(&self) -> Seq<(u8, Interval)> {
        self.map@
    }

    /// The coder's internal consistency.
    pub open spec fn wf(&self) -> bool {
        ac_wf(self.table())
    }

    /// Counts and sorts the data's symbols, then lays their slices out
    /// contiguously over `[0, RANGE_MAX)`: each slice's width is
    /// `RANGE_MAX * count / total` rounded down, and the last symbol's slice
    /// runs to `RANGE_MAX` exactly.
    pub fn from_data(data: &[u8]) -> (r: Self)
        requires
            data@.len() <= u32::MAX,
        ensures
            r.wf(),
            forall|x: u8| ac_has(r.table(), x) <==> data@.contains(x),
            forall|i: int, j: int| 0 <= i < j < r.table().len() ==>
                utils::count_of(data@, (#[trigger] r.table()[i]).0)
                    > utils::count_of(data@, (#[trigger] r.table()[j]).0)
                || (utils::count_of(data@, r.table()[i].0)
                        == utils::count_of(data@, r.table()[j].0)
                    && utils::first_pos(data@, r.table()[i].0)
                        < utils::first_pos(data@, r.table()[j].0)),
            forall|j: int| 0 <= j < r.table().len() - 1 ==>
                (#[trigger] r.table()[j]).1.high - r.table()[j].1.low
                    == (RANGE_MAX as int) * utils::count_of(data@, r.table()[j].0)
                        / (data@.len() as int),
    {
        let counts = utils::sorted_counts(data);
        let n = counts.len();
        if n == 0 {
            let r = ArithmeticCode { map: Vec::new() };
            proof {
                assert forall|x: u8| !data@.contains(x) by {
                    if data@.contains(x) {
                        assert(exists|j: int| 0 <= j < counts@.len() && counts@[j].0 == x);
                    }
                }
            }
            return r;
        }
        proof {
            crate::shannon::lemma_total_at_least_len(counts@);
        }
        let total = data.len() as u32;
        let mut map: Vec<(u8, Interval)> = Vec::new();
        let mut cum: u32 = 0;
        let mut k: usize = 0;
        while k < n
            invariant
                n == counts@.len(),
                n >= 1,
                utils::counts_match(counts@, data@),
                utils::canonical_order(counts@, data@),
                utils::distinct_symbols(counts@),
                utils::total_count(counts@) == data@.len(),
                data@.len() <= u32::MAX,
                total == data@.len(),
                total >= 1,
                k <= n,
                map@.len() == k,
                forall|j: int| 0 <= j < k ==> (#[trigger] map@[j]).0 == counts@[j].0,
                forall|j: int| 0 <= j < k ==>
                    (#[trigger] map@[j]).1.low <= map@[j].1.high <= RANGE_MAX,
                forall|j: int| 0 <= j < k - 1 ==>
                    (#[trigger] map@[j]).1.high == map@[j + 1].1.low,
                k > 0 ==> map@[0].1.low == 0,
                forall|j: int| 0 <= j < k && j < n - 1 ==>
                    (#[trigger] map@[j]).1.high - map@[j].1.low
                        == (RANGE_MAX as int) * (counts@[j].1 as int) / (total as int),
                k == n ==> map@[n - 1].1.high == RANGE_MAX,
                cum == (if k == 0 { 0u32 } else { map@[k - 1].1.high }),
                cum as int <= (RANGE_MAX as int) * utils::total_count(counts@.take(k as int))
                    / (total as int),
                (RANGE_MAX as int) * utils::total_count(counts@.take(k as int))
                    <= (RANGE_MAX as int) * (total as int),
            decreases n - k,
        {
            let c = counts[k].1;
            proof {
                lemma_entry_le_total(counts@, k as int);
            }
            let c32 = c as u32;
            let ghost r = RANGE_MAX as int;
            let ghost tt = total as int;
            let ghost sk = utils::total_count(counts@.take(k as int));
            let ghost sk1 = utils::total_count(counts@.take(k + 1));
            proof {
                assert(r * c <= r * tt);
                vstd::arithmetic::div_mod::lemma_div_is_ordered(r * c, r * tt, tt);
                vstd::arithmetic::div_mod::lemma_div_multiples_vanish(r, tt);
                assert(tt * r == r * tt);
                assert(r * c / tt <= r);
            }
            let width = (((RANGE_MAX as u64) * (c32 as u64)) / (total as u64)) as u32;
            proof {
                assert(counts@.take(k + 1).drop_last() =~= counts@.take(k as int));
                assert(counts@.take(k + 1).last() == counts@[k as int]);
                assert(sk1 == sk + c);
                assert(counts@.take(n as int) =~= counts@);
                lemma_total_nonneg(counts@.take(k as int));
                assert(sk1 <= total as int) by {
                    lemma_total_monotone(counts@, k + 1);
                };
                assert(width == r * c / tt);
                lemma_div_plus(r * sk, r * c, tt);
                assert(r * sk + r * c == r * sk1);
                vstd::arithmetic::div_mod::lemma_div_is_ordered(r * sk1, r * tt, tt);
                vstd::arithmetic::div_mod::lemma_div_multiples_vanish(r, tt);
                assert(tt * r == r * tt);
                assert(cum + width <= r * sk1 / tt <= r);
            }
            let high = if k == n - 1 {
                RANGE_MAX
            } else {
                cum + width
            };
            proof {
                if k == n - 1 {
                    assert(cum <= RANGE_MAX);
                }
            }
            map.push((counts[k].0, Interval::new(cum, high)));
            cum = high;
            k = k + 1;
        }
        let r = ArithmeticCode { map };
        proof {
            let vt = r.table();
            assert(vt[vt.len() - 1].1.high == RANGE_MAX);
            assert forall|x: u8| ac_has(vt, x) implies data@.contains(x) by {
                let j = choose|j: int| 0 <= j < vt.len() && vt[j].0 == x;
                assert(counts@[j].0 == x);
                assert(exists|jj: int| 0 <= jj < counts@.len() && counts@[jj].0 == x);
            }
            assert forall|x: u8| data@.contains(x) implies ac_has(vt, x) by {
                let j = choose|j: int| 0 <= j < counts@.len() && counts@[j].0 == x;
                assert(vt[j].0 == x);
            }
        }
        r
    }

    /// Finds the position of symbol `x` in the interval table.
    fn find_slot(&self, x: u8) -> (r: Option<usize>)
        ensures
            match r {
                Some(j) => j < self.table().len() && self.table()[j as int].0 == x,
                None => !ac_has(self.table(), x),
            },
    {
        let mut j: usize = 0;
        while j < self.map.len()
            invariant
                j <= self.map@.len(),
                forall|k: int| 0 <= k < j ==> (#[trigger] self.map@[k]).0 != x,
            decreases self.map@.len() - j,
        {
            if self.map[j].0 == x {
                return Some(j);
            }
            j = j + 1;
        }
        proof {
            if ac_has(self.table(), x) {
                let k = choose|k: int| 0 <= k < self.map@.len() && self.map@[k].0 == x;
                assert(self.map@[k].0 == x);
            }
        }
        None
    }

    /// Encodes a symbol sequence to one integer by narrowing the working
    /// interval into each symbol's slice in turn; absent on an unknown
    /// symbol or when the interval would collapse to zero width before the
    /// sequence ends. The result is the midpoint of the final interval.
    pub fn transform(&self, data: &[u8]) -> (r: Option<u32>)
        requires
            self.wf(),
        ensures
            r == match spec_narrow(self.table(), data@, 0, RANGE_MAX as int) {
                Some(p) => Some(((p.0 + p.1) / 2) as u32),
                None => None::<u32>,
            },
    {
        let ghost vt = self.table();
        let mut low: u32 = 0;
        let mut high: u32 = RANGE_MAX;
        let n = data.len();
        let mut i: usize = 0;
        proof {
            assert(data@.skip(0) =~= data@);
        }
        while i < n
            invariant
                self.wf(),
                vt == self.table(),
                n == data@.len(),
                i <= n,
                low < high <= RANGE_MAX,
                spec_narrow(vt, data@, 0, RANGE_MAX as int)
                    == spec_narrow(vt, data@.skip(i as int), low as int, high as int),
            decreases n - i,
        {
            let x = data[i];
            proof {
                assert(data@.skip(i as int)[0] == x);
            }
            match self.find_slot(x) {
                Some(j) => {
                    proof {
                        lemma_ac_pos_unique(vt, j as int);
                    }
                    let iv = self.map[j].1;
                    let w = high - low;
                    proof {
                        lemma_narrow_bounds(low as int, high as int, iv.low as int,
                            iv.high as int);
                        vstd::arithmetic::mul::lemma_mul_inequality(
                            w as int, RANGE_MAX as int, iv.low as int);
                        vstd::arithmetic::mul::lemma_mul_inequality(
                            w as int, RANGE_MAX as int, iv.high as int);
                        assert((w as int) * (iv.low as int) == (iv.low as int) * (w as int))
                            by (nonlinear_arith);
                        assert((w as int) * (iv.high as int) == (iv.high as int) * (w as int))
                            by (nonlinear_arith);
                    }
                    let l2 = low + (((w as u64) * (iv.low as u64)) / (RANGE_MAX as u64)) as u32;
                    let h2 = low + (((w as u64) * (iv.high as u64)) / (RANGE_MAX as u64)) as u32;
                    proof {
                        assert(l2 as int == narrow_point(low as int, high as int, iv.low as int));
                        assert(h2 as int == narrow_point(low as int, high as int, iv.high as int));
                    }
                    if l2 >= h2 {
                        return None;
                    }
                    low = l2;
                    high = h2;
                    proof {
                        assert(data@.skip(i as int).skip(1) =~= data@.skip(i + 1));
                    }
                }
                None => {
                    return None;
                }
            }
            i = i + 1;
        }
        proof {
            assert(data@.skip(n as int) =~= Seq::<u8>::empty());
        }
        let v = (((low as u64) + (high as u64)) / 2) as u32;
        proof {
            assert(v as int == (low as int + high as int) / 2);
        }
        Some(v)
    }

    /// Decodes `len` symbols from an encoded integer by finding, at each
    /// step, the slice whose image under the current working interval
    /// contains the integer; absent when no slice contains it.
    pub fn recover(&self, buffer: u32, len: usize) -> (r: Option<Vec<u8>>)
        requires
            self.wf(),
        ensures
            r is Some <==> spec_recover(self.table(), buffer as int, len as nat, 0,
                RANGE_MAX as int) is Some,
            r matches Some(v) ==> Some(v@) == spec_recover(self.table(), buffer as int,
                len as nat, 0, RANGE_MAX as int),
    {
        let ghost vt = self.table();
        let mut out: Vec<u8> = Vec::new();
        let mut low: u32 = 0;
        let mut high: u32 = RANGE_MAX;
        let mut i: usize = 0;
        proof {
            let d0 = spec_recover(vt, buffer as int, len as nat, 0, RANGE_MAX as int);
            if d0 is Some {
                assert(Seq::<u8>::empty() + d0.unwrap() =~= d0.unwrap());
            }
        }
        while i < len
            invariant
                self.wf(),
                vt == self.table(),
                i <= len,
                low <= high <= RANGE_MAX,
                out@.len() == i,
                spec_recover(vt, buffer as int, len as nat, 0, RANGE_MAX as int)
                    == match spec_recover(vt, buffer as int, (len - i) as nat,
                        low as int, high as int) {
                    Some(rest) => Some::<Seq<u8>>(out@ + rest),
                    None => None::<Seq<u8>>,
                },
            decreases len - i,
        {
            let w = high - low;
            let mut j: usize = 0;
            let mut found: Option<usize> = None;
            let mut nlow: u32 = low;
            let mut nhigh: u32 = high;
            while j < self.map.len() && found.is_none()
                invariant
                    self.wf(),
                    vt == self.table(),
                    low <= high <= RANGE_MAX,
                    w == high - low,
                    j <= vt.len(),
                    found is None ==> forall|k: int| 0 <= k < j ==>
                        !fits(vt, k, buffer as int, low as int, high as int),
                    match found {
                        Some(f) => f < vt.len()
                            && fits(vt, f as int, buffer as int, low as int, high as int)
                            && (forall|k: int| 0 <= k < f ==>
                                !fits(vt, k, buffer as int, low as int, high as int))
                            && nlow as int == narrow_point(low as int, high as int,
                                vt[f as int].1.low as int)
                            && nhigh as int == narrow_point(low as int, high as int,
                                vt[f as int].1.high as int),
                        None => true,
                    },
                decreases vt.len() - j + (if found is None { 1int } else { 0int }),
            {
                let iv = self.map[j].1;
                proof {
                    lemma_narrow_bounds(low as int, high as int, iv.low as int, iv.high as int);
                    vstd::arithmetic::mul::lemma_mul_inequality(
                        w as int, RANGE_MAX as int, iv.low as int);
                    vstd::arithmetic::mul::lemma_mul_inequality(
                        w as int, RANGE_MAX as int, iv.high as int);
                    assert((w as int) * (iv.low as int) == (iv.low as int) * (w as int))
                        by (nonlinear_arith);
                    assert((w as int) * (iv.high as int) == (iv.high as int) * (w as int))
                        by (nonlinear_arith);
                }
                let l2 = low + (((w as u64) * (iv.low as u64)) / (RANGE_MAX as u64)) as u32;
                let h2 = low + (((w as u64) * (iv.high as u64)) / (RANGE_MAX as u64)) as u32;
                proof {
                    assert(l2 as int == narrow_point(low as int, high as int, iv.low as int));
                    assert(h2 as int == narrow_point(low as int, high as int, iv.high as int));
                }
                if l2 <= buffer && buffer < h2 {
                    found = Some(j);
                    nlow = l2;
                    nhigh = h2;
                } else {
                    j = j + 1;
                }
            }
            match found {
                Some(f) => {
                    proof {
                        lemma_first_fit(vt, buffer as int, low as int, high as int, 0, f as int);
                        lemma_narrow_bounds(low as int, high as int,
                            vt[f as int].1.low as int, vt[f as int].1.high as int);
                    }
                    let ghost prev_out = out@;
                    out.push(self.map[f].0);
                    low = nlow;
                    high = nhigh;
                    proof {
                        assert(out@ == prev_out.push(vt[f as int].0));
                        let d = spec_recover(vt, buffer as int, (len - i - 1) as nat,
                            low as int, high as int);
                        if d is Some {
                            assert(prev_out + (seq![vt[f as int].0] + d.unwrap())
                                =~= out@ + d.unwrap());
                        }
                    }
                }
                None => {
                    proof {
                        lemma_first_fit(vt, buffer as int, low as int, high as int, 0,
                            vt.len() as int);
                    }
                    return None;
                }
            }
            i = i + 1;
        }
        proof {
            assert(out@ + Seq::<u8>::empty() =~= out@);
        }
        Some(out)
    }
}

/// A prefix of a count table never totals more than the whole table.
proof fn lemma_total_monotone(t: Seq<(u8, usize)>, k: int)
    requires
        0 <= k <= t.len(),
    ensures
        utils::total_count(t.take(k)) <= utils::total_count(t),
    decreases t.len() - k,
{
    if k == t.len() {
        assert(t.take(k) =~= t);
    } else {
        lemma_total_monotone(t, k + 1);
        assert(t.take(k + 1).drop_last() =~= t.take(k));
        assert(t.take(k + 1).last() == t[k]);
    }
}

} // verus!
