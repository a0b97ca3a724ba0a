//! The common coder abstraction: a code table mapping symbols to bit
//! patterns, encoding by concatenation, decoding by walking the bits against
//! the table, and the prefix-free round-trip law that makes the decoding
//! unambiguous.

use vstd::prelude::*;
use crate::bitvec::BitVec;

verus! {

/// `a` is an initial segment of `b`.
pub open spec fn is_prefix(a: Seq<bool>, b: Seq<bool>) -> bool {
    a.len() <= b.len() && a == b.take(a.len() as int)
}

/// A code table pairs each symbol with its bit pattern; symbols are distinct.
pub open spec fn table_wf(t: Seq<(u8, Seq<bool>)>) -> bool {
    forall|i: int, j: int| 0 <= i < j < t.len() ==> t[i].0 != t[j].0
}

/// The table has an entry for symbol `x`.
pub open spec fn table_has(t: Seq<(u8, Seq<bool>)>, x: u8) -> bool {
    exists|j: int| 0 <= j < t.len() && t[j].0 == x
}

/// The position of `x`'s entry.
pub open spec fn code_pos(t: Seq<(u8, Seq<bool>)>, x: u8) -> int {
    choose|j: int| 0 <= j < t.len() && t[j].0 == x
}

/// The bit pattern the table assigns to `x`.
pub open spec fn code_of(t: Seq<(u8, Seq<bool>)>, x: u8) -> Seq<bool> {
    t[code_pos(t, x)].1
}

/// No entry's code is a prefix of another entry's code; in particular all
/// codes are distinct, which makes a concatenated stream unambiguous.
pub open spec fn prefix_free(t: Seq<(u8, Seq<bool>)>) -> bool {
    forall|i: int, j: int| 0 <= i < t.len() && 0 <= j < t.len() && i != j ==>
        !is_prefix((#[trigger] t[i]).1, (#[trigger] t[j]).1)
}

/// The bit stream that encodes `s` against table `t`: the codes of the
/// symbols, in order.
pub open spec fn concat_codes(t: Seq<(u8, Seq<bool>)>, s: Seq<u8>) -> Seq<bool>
    decreases s.len(),
{
    if s.len() == 0 {
        Seq::empty()
    } else {
        code_of(t, s[0]) + concat_codes(t, s.skip(1))
    }
}

/// The first table position at or after `j` whose code starts the bit
/// stream; the table length if there is none.
pub open spec fn first_match_from(t: Seq<(u8, Seq<bool>)>, bits: Seq<bool>, j: int) -> int
    decreases t.len() - j,
{
    if j < 0 || j >= t.len() {
        t.len() as int
    } else if is_prefix(t[j].1, bits) {
        j
    } else {
        first_match_from(t, bits, j + 1)
    }
}

/// Decoding `len` symbols: repeatedly take the first entry whose code is a
/// prefix of the remaining bits, emit its symbol and drop its code; absent
/// when some step finds no matching entry.
pub open spec fn spec_decode(t: Seq<(u8, Seq<bool>)>, bits: Seq<bool>, len: nat) -> Option<Seq<u8>>
    decreases len,
{
    if len == 0 {
        Some(Seq::empty())
    } else {
        let j = first_match_from(t, bits, 0);
        if j == t.len() {
            None
        } else {
            match spec_decode(t, bits.skip(t[j].1.len() as int), (len - 1) as nat) {
                Some(rest) => Some(seq![t[j].0] + rest),
                None => None,
            }
        }
    }
}

/// In a table with distinct symbols, an entry's position is determined by
/// its symbol.
pub proof fn lemma_code_pos_unique(t: Seq<(u8, Seq<bool>)>, j: int)
    requires
        table_wf(t),
        0 <= j < t.len(),
    ensures
        code_pos(t, t[j].0) == j,
        code_of(t, t[j].0) == t[j].1,
{
    assert(t[j].0 == t[j].0);
    let p = code_pos(t, t[j].0);
    assert(0 <= p < t.len() && t[p].0 == t[j].0);
    if p != j {
        assert(t[p].0 != t[j].0);
    }
}

/// Two prefixes of one stream are ordered: the shorter one starts the longer.
proof fn lemma_common_prefix(a: Seq<bool>, b: Seq<bool>, c: Seq<bool>)
    requires
        is_prefix(a, c),
        is_prefix(b, c),
        a.len() <= b.len(),
    ensures
        is_prefix(a, b),
{
    assert(c.take(b.len() as int).take(a.len() as int) =~= c.take(a.len() as int));
    assert(b.take(a.len() as int) == a);
}

/// Splitting an input splits its encoding.
pub proof fn lemma_concat_split(t: Seq<(u8, Seq<bool>)>, a: Seq<u8>, b: Seq<u8>)
    ensures
        concat_codes(t, a + b) == concat_codes(t, a) + concat_codes(t, b),
    decreases a.len(),
{
    if a.len() == 0 {
        assert(a + b =~= b);
        assert(concat_codes(t, a) + concat_codes(t, b) =~= concat_codes(t, b));
    } else {
        assert((a + b).skip(1) =~= a.skip(1) + b);
        lemma_concat_split(t, a.skip(1), b);
        assert((a + b)[0] == a[0]);
        assert(code_of(t, a[0]) + (concat_codes(t, a.skip(1)) + concat_codes(t, b))
            =~= (code_of(t, a[0]) + concat_codes(t, a.skip(1))) + concat_codes(t, b));
    }
}

/// Appending one symbol appends its code.
pub proof fn lemma_concat_push(t: Seq<(u8, Seq<bool>)>, s: Seq<u8>, x: u8)
    ensures
        concat_codes(t, s.push(x)) == concat_codes(t, s) + code_of(t, x),
{
    assert(s.push(x) =~= s + seq![x]);
    lemma_concat_split(t, s, seq![x]);
    assert(seq![x].skip(1) =~= Seq::<u8>::empty());
    assert(concat_codes(t, seq![x])
        == code_of(t, seq![x][0]) + concat_codes(t, seq![x].skip(1)));
    assert(concat_codes(t, Seq::<u8>::empty()) == Seq::<bool>::empty());
    assert(code_of(t, x) + Seq::<bool>::empty() =~= code_of(t, x));
}

/// `first_match_from` finds exactly the least matching position.
proof fn lemma_first_match(t: Seq<(u8, Seq<bool>)>, bits: Seq<bool>, j: int, j0: int)
    requires
        0 <= j <= j0 <= t.len(),
        forall|jj: int| j <= jj < j0 ==> !is_prefix((#[trigger] t[jj]).1, bits),
        j0 < t.len() ==> is_prefix(t[j0].1, bits),
    ensures
        first_match_from(t, bits, j) == j0,
    decreases j0 - j,
{
    if j < j0 {
        lemma_first_match(t, bits, j + 1, j0);
    }
}

/// The round-trip law for prefix codes: decoding the concatenated codes of
/// any symbol sequence drawn from a prefix-free table, for the sequence's
/// length, returns exactly that sequence.
pub proof fn lemma_prefix_round_trip(t: Seq<(u8, Seq<bool>)>, s: Seq<u8>)
    requires
        table_wf(t),
        prefix_free(t),
        forall|k: int| 0 <= k < s.len() ==> table_has(t, #[trigger] s[k]),
    ensures
        spec_decode(t, concat_codes(t, s), s.len()) == Some(s),
    decreases s.len(),
{
    if s.len() == 0 {
        assert(spec_decode(t, concat_codes(t, s), 0) == Some(Seq::<u8>::empty()));
        assert(s =~= Seq::<u8>::empty());
    } else {
        let bits = concat_codes(t, s);
        assert(table_has(t, s[0]));
        let j0 = code_pos(t, s[0]);
        assert(0 <= j0 < t.len() && t[j0].0 == s[0]);
        let c = t[j0].1;
        let rest = concat_codes(t, s.skip(1));
        assert(bits == c + rest);
        assert(is_prefix(c, bits)) by {
            assert((c + rest).take(c.len() as int) =~= c);
        };
        assert forall|jj: int| 0 <= jj < j0 implies !is_prefix((#[trigger] t[jj]).1, bits) by {
            if is_prefix(t[jj].1, bits) {
                if t[jj].1.len() <= c.len() {
                    lemma_common_prefix(t[jj].1, c, bits);
                    assert(!is_prefix(t[jj].1, t[j0].1));
                } else {
                    lemma_common_prefix(c, t[jj].1, bits);
                    assert(!is_prefix(t[j0].1, t[jj].1));
                }
            }
        }
        lemma_first_match(t, bits, 0, j0);
        assert(bits.skip(c.len() as int) =~= rest);
        assert forall|k: int| 0 <= k < s.skip(1).len() implies
            table_has(t, #[trigger] s.skip(1)[k]) by {
            assert(s.skip(1)[k] == s[k + 1]);
        }
        lemma_prefix_round_trip(t, s.skip(1));
        assert(seq![t[j0].0] + s.skip(1) =~= s);
    }
}

/// The view of an executable code table: each entry's buffer replaced by
/// its bit sequence.
pub open spec fn view_table(t: Seq<(u8, BitVec)>) -> Seq<(u8, Seq<bool>)> {
    Seq::new(t.len(), |j: int| (t[j].0, t[j].1@))
}

/// An executable code table is well-formed when its buffers are and its
/// symbols are distinct.
pub open spec fn exec_table_wf(t: Seq<(u8, BitVec)>) -> bool {
    table_wf(view_table(t)) && forall|j: int| 0 <= j < t.len() ==> (#[trigger] t[j]).1.wf()
}

/// Finds the position of symbol `x` in a code table.
pub(crate) fn find_code(table: &Vec<(u8, BitVec)>, x: u8) -> (r: Option<usize>)
    ensures
        match r {
            Some(j) => j < table@.len() && table@[j as int].0 == x,
            None => !table_has(view_table(table@), x),
        },
{
    let mut j: usize = 0;
    while j < table.len()
        invariant
            j <= table@.len(),
            forall|k: int| 0 <= k < j ==> (#[trigger] table@[k]).0 != x,
        decreases table@.len() - j,
    {
        if table[j].0 == x {
            return Some(j);
        }
        j = j + 1;
    }
    proof {
        if table_has(view_table(table@), x) {
            let k = choose|k: int| 0 <= k < view_table(table@).len()
                && view_table(table@)[k].0 == x;
            assert(table@[k].0 == x);
        }
    }
    None
}

/// Folds a symbol sequence into one buffer by concatenating each symbol's
/// code in order; absent on the first symbol outside the table.
pub(crate) fn encode_with(table: &Vec<(u8, BitVec)>, symbols: &[u8]) -> (r: Option<BitVec>)
    requires
        exec_table_wf(table@),
        concat_codes(view_table(table@), symbols@).len() + 16 <= usize::MAX,
    ensures
        r is Some <==> (forall|k: int| 0 <= k < symbols@.len() ==>
            table_has(view_table(table@), #[trigger] symbols@[k])),
        r matches Some(b) ==> b.wf() && b@ == concat_codes(view_table(table@), symbols@),
{
    let ghost vt = view_table(table@);
    let mut buffer = BitVec::new();
    let n = symbols.len();
    let mut i: usize = 0;
    while i < n
        invariant
            exec_table_wf(table@),
            vt == view_table(table@),
            n == symbols@.len(),
            i <= n,
            concat_codes(vt, symbols@).len() + 16 <= usize::MAX,
            buffer.wf(),
            buffer@ == concat_codes(vt, symbols@.take(i as int)),
            forall|k: int| 0 <= k < i ==> table_has(vt, #[trigger] symbols@[k]),
        decreases n - i,
    {
        let x = symbols[i];
        match find_code(table, x) {
            Some(j) => {
                proof {
                    assert(vt[j as int].0 == x);
                    lemma_code_pos_unique(vt, j as int);
                    lemma_concat_push(vt, symbols@.take(i as int), x);
                    assert(symbols@.take(i + 1) =~= symbols@.take(i as int).push(x));
                    assert(symbols@.take(i + 1) + symbols@.skip(i + 1) =~= symbols@);
                    lemma_concat_split(vt, symbols@.take(i + 1), symbols@.skip(i + 1));
                }
                let code = table[j].1.clone();
                buffer.concat(code);
                proof {
                    assert(buffer@ == concat_codes(vt, symbols@.take(i + 1)));
                }
            }
            None => {
                return None;
            }
        }
        i = i + 1;
    }
    proof {
        assert(symbols@.take(n as int) =~= symbols@);
    }
    Some(buffer)
}

/// Does `code` start the bits of `buffer` at position `pos`?
fn code_matches_at(code: &BitVec, buffer: &BitVec, pos: usize) -> (r: bool)
    requires
        code.wf(),
        buffer.wf(),
        pos <= buffer@.len(),
    ensures
        r == is_prefix(code@, buffer@.skip(pos as int)),
{
    let cl = code.len();
    if cl > buffer.len() - pos {
        return false;
    }
    let ghost rem = buffer@.skip(pos as int);
    proof {
        buffer.lemma_len_bound();
    }
    let mut q: usize = 0;
    while q < cl
        invariant
            code.wf(),
            buffer.wf(),
            buffer@.len() <= usize::MAX,
            pos + cl <= buffer@.len(),
            cl == code@.len(),
            rem == buffer@.skip(pos as int),
            q <= cl,
            forall|k: int| 0 <= k < q ==> code@[k] == rem[k],
        decreases cl - q,
    {
        if code.get(q) != buffer.get(pos + q) {
            proof {
                assert(rem[q as int] == buffer@[pos + q]);
                assert(code@[q as int] != rem.take(cl as int)[q as int]);
            }
            return false;
        }
        q = q + 1;
    }
    proof {
        assert(code@ =~= rem.take(cl as int));
    }
    true
}

/// Decodes `len` symbols from `buffer` by scanning the table, in order, for
/// the first code that starts the remaining bits; absent when a step finds
/// no matching code.
pub(crate) fn decode_with(table: &Vec<(u8, BitVec)>, buffer: &BitVec, len: usize) -> (r: Option<
    Vec<u8>>)
    requires
        exec_table_wf(table@),
        buffer.wf(),
    ensures
        r is Some <==> spec_decode(view_table(table@), buffer@, len as nat) is Some,
        r matches Some(v) ==> Some(v@) == spec_decode(view_table(table@), buffer@, len as nat),
{
    let ghost vt = view_table(table@);
    let mut out: Vec<u8> = Vec::new();
    let mut pos: usize = 0;
    let mut i: usize = 0;
    proof {
        buffer.lemma_len_bound();
        assert(buffer@.skip(0) =~= buffer@);
        let d0 = spec_decode(vt, buffer@, len as nat);
        if d0 is Some {
            assert(Seq::<u8>::empty() + d0.unwrap() =~= d0.unwrap());
        }
    }
    while i < len
        invariant
            exec_table_wf(table@),
            vt == view_table(table@),
            buffer.wf(),
            buffer@.len() <= usize::MAX,
            i <= len,
            pos <= buffer@.len(),
            out@.len() == i,
            spec_decode(vt, buffer@, len as nat) == match spec_decode(
                vt, buffer@.skip(pos as int), (len - i) as nat) {
                Some(rest) => Some::<Seq<u8>>(out@ + rest),
                None => None::<Seq<u8>>,
            },
        decreases len - i,
    {
        let ghost rem = buffer@.skip(pos as int);
        let mut j: usize = 0;
        let mut found: Option<usize> = None;
        while j < table.len() && found.is_none()
            invariant
                exec_table_wf(table@),
                vt == view_table(table@),
                buffer.wf(),
                pos <= buffer@.len(),
                rem == buffer@.skip(pos as int),
                j <= table@.len(),
                found is None ==> forall|k: int| 0 <= k < j ==>
                    !is_prefix((#[trigger] vt[k]).1, rem),
                match found {
                    Some(f) => f < table@.len() && is_prefix(vt[f as int].1, rem)
                        && forall|k: int| 0 <= k < f ==> !is_prefix((#[trigger] vt[k]).1, rem),
                    None => true,
                },
            decreases table@.len() - j + (if found is None { 1int } else { 0int }),
        {
            if code_matches_at(&table[j].1, buffer, pos) {
                found = Some(j);
            } else {
                j = j + 1;
            }
        }
        match found {
            Some(f) => {
                proof {
                    lemma_first_match(vt, rem, 0, f as int);
                }
                let ghost prev_out = out@;
                let clen = table[f].1.len();
                out.push(table[f].0);
                pos = pos + clen;
                proof {
                    assert(buffer@.skip(pos as int) =~= rem.skip(clen as int));
                    assert(out@ == prev_out.push(vt[f as int].0));
                    let d = spec_decode(vt, rem.skip(vt[f as int].1.len() as int),
                        (len - i - 1) as nat);
                    if d is Some {
                        assert(prev_out + (seq![vt[f as int].0] + d.unwrap())
                            =~= out@ + d.unwrap());
                    }
                }
            }
            None => {
                proof {
                    lemma_first_match(vt, rem, 0, vt.len() as int);
                    assert(spec_decode(vt, rem, (len - i) as nat) is None);
                }
                return None;
            }
        }
        i = i + 1;
    }
    proof {
        assert(spec_decode(vt, buffer@.skip(pos as int), 0) == Some(Seq::<u8>::empty()));
        assert(out@ + Seq::<u8>::empty() =~= out@);
    }
    Some(out)
}

/// The common coder contract: build a prefix-free code table whose symbols
/// are exactly those of the input data, encode a symbol sequence into the
/// concatenation of its codes, and decode a given number of symbols back.
pub trait Code: Sized {
    /// The code table this coder has built.
    spec fn codes(&self) -> Seq<(u8, Seq<bool>)>;

    /// The coder's internal consistency.
    spec fn wf(&self) -> bool;

    /// Builds the code table from the frequencies observed in `data`.
    fn from_data(data: &[u8]) -> (r: Self)
        requires
            data@.len() <= usize::MAX / 8,
        ensures
            r.wf(),
            table_wf(r.codes()),
            prefix_free(r.codes()),
            forall|x: u8| table_has(r.codes(), x) <==> data@.contains(x),
    ;

    /// Encodes by concatenating each symbol's code, in order; absent exactly
    /// when some symbol has no code.
    fn encode(&self, symbols: &[u8]) -> (r: Option<BitVec>)
        requires
            self.wf(),
            concat_codes(self.codes(), symbols@).len() + 16 <= usize::MAX,
        ensures
            r is Some <==> (forall|k: int| 0 <= k < symbols@.len() ==>
                table_has(self.codes(), #[trigger] symbols@[k])),
            r matches Some(b) ==> b.wf() && b@ == concat_codes(self.codes(), symbols@),
    ;

    /// Decodes `len` symbols by walking the buffer against the code table.
    fn decode(&self, buffer: &BitVec, len: usize) -> (r: Option<Vec<u8>>)
        requires
            self.wf(),
            buffer.wf(),
        ensures
            r is Some <==> spec_decode(self.codes(), buffer@, len as nat) is Some,
            r matches Some(v) ==> Some(v@) == spec_decode(self.codes(), buffer@, len as nat),
    ;
}

} // verus!
