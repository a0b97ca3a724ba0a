//! A growable, ordered container of single bits, packed most-significant-bit
//! first into 8-bit blocks. The `offset` field (0..=7) counts how many bits of
//! the last block are in use, minus one; an empty buffer keeps `offset` at 7 so
//! that it looks like any other aligned buffer. Unused low bits of the last
//! block are always zero.

use vstd::prelude::*;

verus! {

/// Bit `i` (counted from the most significant end, `0 <= i < 8`) of a block.
pub open spec fn block_bit(b: u8, i: u8) -> bool {
    b & (0x80u8 >> i) != 0
}

/// Mask of the bit positions strictly below position `o`: the part of a last
/// block that a buffer with offset `o` leaves unused.
pub open spec fn low_mask(o: u8) -> u8 {
    (0xFFu8 >> o) >> 1
}

/// The bit content of a whole byte sequence, most-significant-bit first.
pub open spec fn bits_of_bytes(bytes: Seq<u8>) -> Seq<bool> {
    Seq::new(bytes.len() * 8, |k: int| block_bit(bytes[k / 8], (k % 8) as u8))
}

/// The eight bits of one block, most-significant first.
pub open spec fn byte_bits(b: u8) -> Seq<bool> {
    Seq::new(8, |t: int| block_bit(b, t as u8))
}

/// Adding the high part of a split block into the free low part of a tail
/// block keeps the used bits and writes the block's leading bits after them.
proof fn lemma_absorb_high(sl: u8, byte: u8, o: u8)
    by (bit_vector)
    requires
        o <= 6,
        sl & low_mask(o) == 0,
    ensures
        sl + (byte >> ((o + 1) as u8)) < 0x100,
        forall|i: u8| i <= o ==>
            #[trigger] block_bit((sl + (byte >> ((o + 1) as u8))) as u8, i) == block_bit(sl, i),
        forall|i: u8| o < i < 8 ==>
            #[trigger] block_bit((sl + (byte >> ((o + 1) as u8))) as u8, i)
                == block_bit(byte, (i - o - 1) as u8),
{
}

/// The low part of a split block, shifted up: its leading bits are the
/// block's trailing ones, and its own low part is zero.
proof fn lemma_shift_low(byte: u8, o: u8)
    by (bit_vector)
    requires
        o <= 6,
    ensures
        (byte << ((7 - o) as u8)) & low_mask(o) == 0,
        forall|i: u8| i <= o ==>
            #[trigger] block_bit(byte << ((7 - o) as u8), i) == block_bit(byte, (i + 7 - o) as u8),
{
}

/// A bit sequence with its trailing zero bits removed: the unique prefix that
/// ends in a one bit (or is empty) and carries all the one bits of the input.
pub open spec fn strip_trailing_zeros(s: Seq<bool>) -> Seq<bool>
    decreases s.len(),
{
    if s.len() == 0 || s.last() {
        s
    } else {
        strip_trailing_zeros(s.drop_last())
    }
}

/// Characters `'0'`/`'1'` for a run of bits.
pub open spec fn bit_chars(s: Seq<bool>) -> Seq<char> {
    Seq::new(s.len(), |k: int| if s[k] { '1' } else { '0' })
}

/// The rendering of a bit sequence in space-separated groups of eight, each
/// group followed by one space; the last group may be shorter.
pub open spec fn render_groups(s: Seq<bool>) -> Seq<char>
    decreases s.len(),
{
    if s.len() == 0 {
        Seq::empty()
    } else if s.len() <= 8 {
        bit_chars(s) + seq![' ']
    } else {
        bit_chars(s.take(8)) + seq![' '] + render_groups(s.skip(8))
    }
}

/// Stripping trailing zeros ignores a suffix of zero bits.
proof fn lemma_strip_false_suffix(s: Seq<bool>, k: nat)
    requires
        k <= s.len(),
        forall|i: int| s.len() - k <= i < s.len() ==> !s[i],
    ensures
        strip_trailing_zeros(s) == strip_trailing_zeros(s.take(s.len() - k)),
    decreases k,
{
    if k == 0 {
        assert(s.take(s.len() as int) =~= s);
    } else {
        assert(!s.last());
        assert(s.drop_last() =~= s.take(s.len() - 1));
        lemma_strip_false_suffix(s.take(s.len() - 1), (k - 1) as nat);
        assert(s.take(s.len() - 1).take(s.len() - k) =~= s.take(s.len() - k));
    }
}

/// Rendering splits at any whole-group boundary.
proof fn lemma_render_split(s: Seq<bool>, i: int)
    requires
        0 <= i < s.len(),
        i % 8 == 0,
    ensures
        render_groups(s) == render_groups(s.take(i)) + render_groups(s.skip(i)),
    decreases i,
{
    if i == 0 {
        assert(s.take(0) =~= Seq::<bool>::empty());
        assert(s.skip(0) =~= s);
        assert(render_groups(s.take(0)) + render_groups(s.skip(0)) =~= render_groups(s));
    } else {
        assert(i >= 8) by {
            vstd::arithmetic::div_mod::lemma_fundamental_div_mod(i, 8);
        };
        assert((i - 8) % 8 == 0) by {
            vstd::arithmetic::div_mod::lemma_mod_sub_multiples_vanish(i, 8);
        };
        if i == 8 {
            assert(s.take(8).len() == 8);
            assert(render_groups(s.take(8)) == bit_chars(s.take(8)) + seq![' ']);
            assert(render_groups(s) == bit_chars(s.take(8)) + seq![' '] + render_groups(s.skip(8)));
        } else {
            lemma_render_split(s.skip(8), i - 8);
            assert(s.skip(8).take(i - 8) =~= s.take(i).skip(8));
            assert(s.skip(8).skip(i - 8) =~= s.skip(i));
            assert(s.take(i).take(8) =~= s.take(8));
            assert(render_groups(s.take(i))
                == bit_chars(s.take(8)) + seq![' '] + render_groups(s.take(i).skip(8)));
            assert((bit_chars(s.take(8)) + seq![' '] + render_groups(s.take(i).skip(8)))
                + render_groups(s.skip(i))
                =~= bit_chars(s.take(8)) + seq![' ']
                    + (render_groups(s.take(i).skip(8)) + render_groups(s.skip(i))));
        }
    }
}

/// Popping the last bit and pushing it back restores the original buffer:
/// over the views that `pop` and `push` promise, removing the last bit and
/// appending it again is the identity.
pub proof fn lemma_pop_push_round_trip(bits: Seq<bool>)
    requires
        bits.len() > 0,
    ensures
        bits.drop_last().push(bits.last()) == bits,
{
    assert(bits.drop_last().push(bits.last()) =~= bits);
}

/// Two blocks that agree on all eight bits are equal.
proof fn lemma_block_eq(x: u8, y: u8)
    by (bit_vector)
    requires
        block_bit(x, 0) == block_bit(y, 0),
        block_bit(x, 1) == block_bit(y, 1),
        block_bit(x, 2) == block_bit(y, 2),
        block_bit(x, 3) == block_bit(y, 3),
        block_bit(x, 4) == block_bit(y, 4),
        block_bit(x, 5) == block_bit(y, 5),
        block_bit(x, 6) == block_bit(y, 6),
        block_bit(x, 7) == block_bit(y, 7),
    ensures
        x == y,
{
}

/// A block whose unused low part is zeroed has no set bit past the offset.
proof fn lemma_unused_bit(b: u8, o: u8, i: u8)
    by (bit_vector)
    requires
        o <= 7,
        o < i < 8,
        b & low_mask(o) == 0,
    ensures
        !block_bit(b, i),
{
}

#[derive(Debug)]
pub struct BitVec {
    blocks: Vec<u8>,
    offset: u8,
}

impl BitVec {
    /// Number of bits stored.
    pub closed spec fn spec_len(&self) -> nat {
        if self.blocks@.len() == 0 {
            0
        } else {
            (self.blocks@.len() * 8 - (7 - self.offset)) as nat
        }
    }

    /// Structural invariant: the offset stays in range, an empty buffer is
    /// aligned, the unused low bits of the last block are zero, and the block
    /// count is small enough that the bit length fits in a `usize`.
    pub closed spec fn wf(&self) -> bool {
        &&& self.offset <= 7
        &&& self.blocks@.len() == 0 ==> self.offset == 7
        &&& self.blocks@.len() > 0 ==> self.blocks@.last() & low_mask(self.offset) == 0
        &&& self.blocks@.len() * 8 <= usize::MAX
    }
}

impl View for BitVec {
    type V = Seq<bool>;

    /// The stored bits, in push order.
    closed spec fn view(&self) -> Seq<bool> {
        Seq::new(self.spec_len(), |k: int| block_bit(self.blocks@[k / 8], (k % 8) as u8))
    }
}

impl BitVec {
    pub fn new() -> (r: Self)
        ensures
            r.wf(),
            r@ == Seq::<bool>::empty(),
    {
        let r = BitVec { blocks: Vec::new(), offset: 7 };
        proof {
            assert(r@ =~= Seq::<bool>::empty());
        }
        r
    }

    pub fn is_empty(&self) -> (r: bool)
        requires
            self.wf(),
        ensures
            r == (self@.len() == 0),
    {
        self.blocks.len() == 0
    }

    /// Length in bits.
    pub fn len(&self) -> (r: usize)
        requires
            self.wf(),
        ensures
            r == self@.len(),
    {
        if self.blocks.len() == 0 {
            0
        } else {
            self.blocks.len() * 8 - (7 - self.offset as usize)
        }
    }

    /// An aligned buffer uses every bit of its last block, so its bit length
    /// is a whole number of blocks.
    pub fn is_aligned(&self) -> (r: bool)
        requires
            self.wf(),
        ensures
            r == (self@.len() % 8 == 0),
    {
        proof {
            if self.blocks@.len() > 0 {
                assert(self@.len() == self.blocks@.len() * 8 - (7 - self.offset));
                assert((self.blocks@.len() * 8) % 8 == 0) by {
                    vstd::arithmetic::div_mod::lemma_mod_multiples_basic(
                        self.blocks@.len() as int, 8);
                };
                assert(self@.len() % 8 == (self.offset + 1) % 8) by {
                    vstd::arithmetic::div_mod::lemma_add_mod_noop(
                        self.blocks@.len() * 8 - 8, self.offset + 1, 8);
                    assert((self.blocks@.len() * 8 - 8) % 8 == 0) by {
                        vstd::arithmetic::div_mod::lemma_mod_multiples_basic(
                            self.blocks@.len() as int - 1, 8);
                    };
                };
            }
        }
        self.offset == 7
    }

    /// Appends one bit at the logical tail.
    pub fn push(&mut self, bit: bool)
        requires
            old(self).wf(),
            old(self)@.len() + 16 <= usize::MAX,
        ensures
            final(self).wf(),
            final(self)@ == old(self)@.push(bit),
            final(self)@.len() == old(self)@.len() + 1,
    {
        if self.offset == 7 {
            self.offset = 0;
            if bit {
                self.blocks.push(0x80);
            } else {
                self.blocks.push(0);
            }
            proof {
                assert(block_bit(0x80u8, 0) && 0x80u8 & low_mask(0) == 0
                    && !block_bit(0u8, 0) && 0u8 & low_mask(0) == 0) by (bit_vector);
                assert forall|k: int| 0 <= k < self@.len() implies
                    self@[k] == old(self)@.push(bit)[k] by {
                    vstd::arithmetic::div_mod::lemma_fundamental_div_mod(k, 8);
                    if k < old(self)@.len() {
                        assert(k / 8 < old(self).blocks@.len());
                        assert(self.blocks@[k / 8] == old(self).blocks@[k / 8]);
                    } else {
                        assert(k == old(self).blocks@.len() * 8);
                        vstd::arithmetic::div_mod::lemma_fundamental_div_mod_converse(
                            k, 8, old(self).blocks@.len() as int, 0);
                    }
                }
                assert(self@ =~= old(self)@.push(bit));
            }
        } else {
            let ghost prev = self.blocks@.last();
            let ghost o = self.offset;
            self.offset = self.offset + 1;
            let n = self.blocks.len();
            let b = self.blocks[n - 1];
            proof {
                let o1 = self.offset;
                assert(b + (0x80u8 >> o1) < 0x100
                    && block_bit((b + (0x80u8 >> o1)) as u8, o1)
                    && ((b + (0x80u8 >> o1)) as u8) & low_mask(o1) == 0
                    && forall|i: u8| i < 8 && i != o1 ==>
                        block_bit((b + (0x80u8 >> o1)) as u8, i) == block_bit(b, i)) by (bit_vector)
                    requires
                        0 < o1 <= 7,
                        b & low_mask((o1 - 1) as u8) == 0,
                ;
                assert(!block_bit(b, o1) && b & low_mask(o1) == 0) by (bit_vector)
                    requires
                        0 < o1 <= 7,
                        b & low_mask((o1 - 1) as u8) == 0,
                ;
            }
            let nb = if bit { b + (0x80 >> self.offset) } else { b };
            self.blocks.set(n - 1, nb);
            proof {
                assert(self.blocks@.len() == old(self).blocks@.len());
                assert(block_bit(nb, (o + 1) as u8) == bit);
                assert(forall|i: u8| i < 8 && i != o + 1 ==>
                    block_bit(nb, i) == block_bit(prev, i));
                assert forall|k: int| 0 <= k < self@.len() implies
                    self@[k] == old(self)@.push(bit)[k] by {
                    vstd::arithmetic::div_mod::lemma_fundamental_div_mod(k, 8);
                    if k / 8 < old(self).blocks@.len() - 1 {
                        assert(self.blocks@[k / 8] == old(self).blocks@[k / 8]);
                    } else {
                        assert(k / 8 == old(self).blocks@.len() - 1) by {
                            vstd::arithmetic::div_mod::lemma_fundamental_div_mod_converse(
                                k, 8, k / 8, k % 8);
                        };
                    }
                }
                assert(self@ =~= old(self)@.push(bit));
            }
        }
    }

    /// Removes and returns the last bit; an empty buffer is left unchanged.
    pub fn pop(&mut self) -> (r: Option<bool>)
        requires
            old(self).wf(),
        ensures
            final(self).wf(),
            old(self)@.len() == 0 ==> r is None && final(self)@ == old(self)@,
            old(self)@.len() > 0 ==> r == Some(old(self)@.last())
                && final(self)@ == old(self)@.drop_last(),
    {
        if self.blocks.len() == 0 {
            return None;
        }
        let n = self.blocks.len();
        let b = self.blocks[n - 1];
        let ghost off = self.offset;
        let mask = 0x80u8 >> self.offset;
        let bit = b & mask != 0;
        proof {
            assert((old(self)@.len() - 1) / 8 == n - 1 && (old(self)@.len() - 1) % 8 == off) by {
                vstd::arithmetic::div_mod::lemma_fundamental_div_mod_converse(
                    old(self)@.len() - 1, 8, n as int - 1, off as int);
            };
            assert(old(self)@.last() == block_bit(b, off));
        }
        let nb: u8;
        if bit {
            proof {
                let o = self.offset;
                assert(b & (0x80u8 >> o) != 0 ==> b >= (0x80u8 >> o)) by (bit_vector);
                assert(!block_bit((b - (0x80u8 >> o)) as u8, o)
                    && ((b - (0x80u8 >> o)) as u8) & low_mask(o) == b & low_mask(o)
                    && forall|i: u8| i < 8 && i != o ==>
                        block_bit((b - (0x80u8 >> o)) as u8, i) == block_bit(b, i)) by (bit_vector)
                    requires
                        o <= 7,
                        b & (0x80u8 >> o) != 0,
                ;
            }
            nb = b - mask;
        } else {
            nb = b;
        }
        proof {
            assert(!block_bit(nb, off));
            assert(forall|i: u8| i < 8 && i != off ==> block_bit(nb, i) == block_bit(b, i));
            assert(nb & low_mask(off) == 0);
        }
        if self.offset == 0 {
            self.blocks.pop();
            self.offset = 7;
            proof {
                assert(self.blocks@ =~= old(self).blocks@.drop_last());
                if self.blocks@.len() > 0 {
                    assert(self.blocks@.last() & low_mask(7u8) == 0) by {
                        assert(forall|x: u8| x & low_mask(7u8) == 0) by (bit_vector);
                    };
                }
                assert forall|k: int| 0 <= k < self@.len() implies
                    self@[k] == old(self)@.drop_last()[k] by {
                    vstd::arithmetic::div_mod::lemma_fundamental_div_mod(k, 8);
                }
                assert(self@ =~= old(self)@.drop_last());
            }
        } else {
            self.blocks.set(n - 1, nb);
            self.offset = self.offset - 1;
            proof {
                assert(nb & low_mask((off - 1) as u8) == 0) by (bit_vector)
                    requires
                        0 < off <= 7,
                        nb & low_mask(off) == 0,
                        !block_bit(nb, off),
                ;
                assert forall|k: int| 0 <= k < self@.len() implies
                    self@[k] == old(self)@.drop_last()[k] by {
                    vstd::arithmetic::div_mod::lemma_fundamental_div_mod(k, 8);
                    if k / 8 < old(self).blocks@.len() - 1 {
                        assert(self.blocks@[k / 8] == old(self).blocks@[k / 8]);
                    } else {
                        assert(k / 8 == old(self).blocks@.len() - 1) by {
                            vstd::arithmetic::div_mod::lemma_fundamental_div_mod_converse(
                                k, 8, k / 8, k % 8);
                        };
                        assert(k % 8 != off);
                    }
                }
                assert(self@ =~= old(self)@.drop_last());
            }
        }
        Some(bit)
    }

    /// Destructively appends `other`'s bits after `self`'s, consuming
    /// `other`. An aligned `self` takes `other`'s blocks wholesale; a
    /// misaligned `self` splits every block of `other` at its free headroom:
    /// the leading bits of each source block fill the last block's unused low
    /// part, and the rest start a new block.
    pub fn concat(&mut self, other: BitVec)
        requires
            old(self).wf(),
            other.wf(),
            old(self)@.len() + other@.len() + 16 <= usize::MAX,
        ensures
            final(self).wf(),
            final(self)@ == old(self)@ + other@,
    {
        let ghost ov = other@;
        let BitVec { blocks: mut ob, offset: ooff } = other;
        if self.offset == 7 {
            let ghost n = self.blocks@.len();
            let ghost m = ob@.len();
            let ghost obv = ob@;
            self.blocks.append(&mut ob);
            self.offset = ooff;
            proof {
                if m == 0 {
                    assert(self.blocks@ =~= old(self).blocks@);
                    assert(ov =~= Seq::<bool>::empty());
                    assert(self@ =~= old(self)@ + ov);
                } else {
                    assert forall|k: int| 0 <= k < self@.len() implies
                        self@[k] == (old(self)@ + ov)[k] by {
                        vstd::arithmetic::div_mod::lemma_fundamental_div_mod(k, 8);
                        if k < 8 * n {
                            assert(k / 8 < n);
                            assert(self.blocks@[k / 8] == old(self).blocks@[k / 8]);
                        } else {
                            let k2 = k - 8 * n;
                            vstd::arithmetic::div_mod::lemma_fundamental_div_mod(k2, 8);
                            assert(k / 8 == n + k2 / 8 && k % 8 == k2 % 8) by {
                                vstd::arithmetic::div_mod::lemma_fundamental_div_mod_converse(
                                    k, 8, n + k2 / 8, k2 % 8);
                            };
                            assert(self.blocks@[k / 8] == obv[k2 / 8]);
                        }
                    }
                    assert(self@ =~= old(self)@ + ov);
                }
            }
        } else {
            let m = ob.len();
            if m == 0 {
                proof {
                    assert(ov =~= Seq::<bool>::empty());
                    assert(self@ =~= old(self)@ + ov);
                }
                return;
            }
            let tail = ob[m - 1];
            let limit = 7 - self.offset;
            let ghost o = self.offset;
            proof {
                assert((old(self).blocks@.len() + m) * 8 <= usize::MAX);
            }
            let mut j: usize = 0;
            while j < m - 1
                invariant
                    0 < limit <= 7,
                    limit == 7 - o,
                    o <= 6,
                    j < m,
                    m == ob@.len(),
                    self.offset == o,
                    self.blocks@.len() > 0,
                    self.blocks@.len() == old(self).blocks@.len() + j,
                    (old(self).blocks@.len() + m) * 8 <= usize::MAX,
                    self.blocks@.last() & low_mask(o) == 0,
                    self@ =~= old(self)@ + ov.take(8 * j),
                    ov == Seq::new((ob@.len() * 8 - (7 - ooff)) as nat,
                        |k: int| block_bit(ob@[k / 8], (k % 8) as u8)),
                    ooff <= 7,
                    tail == ob@[m - 1],
                    tail & low_mask(ooff) == 0,
                decreases m - 1 - j,
            {
                let byte = ob[j];
                let ghost vj = self@;
                let ghost n = self.blocks@.len();
                let ghost bpre = self.blocks@;
                let nn = self.blocks.len();
                let sl = self.blocks[nn - 1];
                proof {
                    lemma_absorb_high(sl, byte, o);
                    lemma_shift_low(byte, o);
                    assert((8 - limit) as u8 == (o + 1) as u8);
                }
                let fst = byte >> (8 - limit);
                let lst = byte << limit;
                self.blocks.set(nn - 1, sl + fst);
                self.blocks.push(lst);
                proof {
                    let snew = (sl + fst) as u8;
                    assert(vj.len() == 8 * n - (7 - o));
                    assert(self@.len() == vj.len() + 8);
                    assert forall|k: int| 0 <= k < self@.len() implies
                        self@[k] == (vj + byte_bits(byte))[k] by {
                        vstd::arithmetic::div_mod::lemma_fundamental_div_mod(k, 8);
                        let q = k / 8;
                        let r = k % 8;
                        if q < n - 1 {
                            assert(self.blocks@[q] == bpre[q]);
                            assert(k < vj.len());
                        } else if q == n - 1 {
                            assert(self.blocks@[q] == snew);
                            if r <= o {
                                assert(block_bit(snew, r as u8) == block_bit(sl, r as u8));
                                assert(k < vj.len());
                            } else {
                                assert(block_bit(snew, r as u8)
                                    == block_bit(byte, (r - o - 1) as u8));
                                assert(k - vj.len() == r - o - 1);
                            }
                        } else {
                            assert(q == n);
                            assert(r <= o);
                            assert(self.blocks@[q] == lst);
                            assert(block_bit(lst, r as u8)
                                == block_bit(byte, (r + 7 - o) as u8));
                            assert(k - vj.len() == r + 7 - o);
                        }
                    }
                    assert(self@ =~= vj + byte_bits(byte));
                    assert(8 * (j + 1) <= ov.len());
                    assert forall|k: int| 0 <= k < 8 * (j + 1) implies
                        #[trigger] ov.take(8 * (j + 1))[k]
                            == (ov.take(8 * j) + byte_bits(byte))[k] by {
                        if 8 * j <= k {
                            vstd::arithmetic::div_mod::lemma_fundamental_div_mod_converse(
                                k, 8, j as int, k - 8 * j);
                            assert(ov[k] == block_bit(ob@[j as int], (k - 8 * j) as u8));
                        }
                    }
                    assert(ov.take(8 * (j + 1)) =~= ov.take(8 * j) + byte_bits(byte));
                    assert((old(self)@ + ov.take(8 * j)) + byte_bits(byte)
                        =~= old(self)@ + (ov.take(8 * j) + byte_bits(byte)));
                    assert(self@ =~= old(self)@ + ov.take(8 * (j + 1)));
                }
                j = j + 1;
            }
            let ghost vt = self@;
            let ghost n = self.blocks@.len();
            let ghost bpre = self.blocks@;
            let ghost tb = Seq::new((ooff + 1) as nat, |t: int| block_bit(tail, t as u8));
            proof {
                assert(ov.len() == 8 * m - (7 - ooff));
                assert forall|k: int| 0 <= k < ov.len() implies
                    ov[k] == (ov.take(8 * (m - 1)) + tb)[k] by {
                    if 8 * (m - 1) <= k {
                        vstd::arithmetic::div_mod::lemma_fundamental_div_mod_converse(
                            k, 8, m as int - 1, k - 8 * (m as int - 1));
                        assert(ov[k] == block_bit(tail, (k - 8 * (m - 1)) as u8));
                    }
                }
                assert(ov =~= ov.take(8 * (m - 1)) + tb);
            }
            let nn = self.blocks.len();
            let sl = self.blocks[nn - 1];
            proof {
                lemma_absorb_high(sl, tail, o);
                assert((8 - limit) as u8 == (o + 1) as u8);
            }
            let fst = tail >> (8 - limit);
            self.blocks.set(nn - 1, sl + fst);
            let ghost snew = (sl + fst) as u8;
            if ooff + 1 <= limit {
                self.offset = self.offset + ooff + 1;
                proof {
                    assert(snew & low_mask((o + ooff + 1) as u8) == 0) by (bit_vector)
                        requires
                            o <= 6,
                            ooff <= 7,
                            ooff + 1 <= 7 - o,
                            sl & low_mask(o) == 0,
                            tail & low_mask(ooff) == 0,
                            snew == (sl + (tail >> ((o + 1) as u8))) as u8,
                    ;
                    assert(vt.len() == 8 * n - (7 - o));
                    assert(self@.len() == vt.len() + ooff + 1);
                    assert forall|k: int| 0 <= k < self@.len() implies
                        self@[k] == (vt + tb)[k] by {
                        vstd::arithmetic::div_mod::lemma_fundamental_div_mod(k, 8);
                        let q = k / 8;
                        let r = k % 8;
                        if q < n - 1 {
                            assert(self.blocks@[q] == bpre[q]);
                            assert(k < vt.len());
                        } else {
                            assert(q == n - 1);
                            assert(self.blocks@[q] == snew);
                            if r <= o {
                                assert(block_bit(snew, r as u8) == block_bit(sl, r as u8));
                                assert(k < vt.len());
                            } else {
                                assert(r <= o + ooff + 1);
                                assert(block_bit(snew, r as u8)
                                    == block_bit(tail, (r - o - 1) as u8));
                                assert(k - vt.len() == r - o - 1);
                                assert(r - o - 1 <= ooff);
                            }
                        }
                    }
                    assert(self@ =~= vt + tb);
                    assert((old(self)@ + ov.take(8 * (m - 1))) + tb
                        =~= old(self)@ + (ov.take(8 * (m - 1)) + tb));
                    assert(self@ =~= old(self)@ + ov);
                }
            } else {
                proof {
                    lemma_shift_low(tail, o);
                }
                let lst = tail << limit;
                self.blocks.push(lst);
                self.offset = ooff - limit;
                proof {
                    assert((tail << ((7 - o) as u8)) & low_mask((ooff - (7 - o)) as u8) == 0)
                        by (bit_vector)
                        requires
                            o <= 6,
                            ooff <= 7,
                            7 - o <= ooff,
                            tail & low_mask(ooff) == 0,
                    ;
                    assert(vt.len() == 8 * n - (7 - o));
                    assert(self@.len() == vt.len() + ooff + 1);
                    assert forall|k: int| 0 <= k < self@.len() implies
                        self@[k] == (vt + tb)[k] by {
                        vstd::arithmetic::div_mod::lemma_fundamental_div_mod(k, 8);
                        let q = k / 8;
                        let r = k % 8;
                        if q < n - 1 {
                            assert(self.blocks@[q] == bpre[q]);
                            assert(k < vt.len());
                        } else if q == n - 1 {
                            assert(self.blocks@[q] == snew);
                            if r <= o {
                                assert(block_bit(snew, r as u8) == block_bit(sl, r as u8));
                                assert(k < vt.len());
                            } else {
                                assert(block_bit(snew, r as u8)
                                    == block_bit(tail, (r - o - 1) as u8));
                                assert(k - vt.len() == r - o - 1);
                                assert(r - o - 1 <= ooff);
                            }
                        } else {
                            assert(q == n);
                            assert(r <= ooff - (7 - o));
                            assert(self.blocks@[q] == lst);
                            assert(block_bit(lst, r as u8)
                                == block_bit(tail, (r + 7 - o) as u8));
                            assert(k - vt.len() == r + 7 - o);
                            assert(r + 7 - o <= ooff);
                        }
                    }
                    assert(self@ =~= vt + tb);
                    assert((old(self)@ + ov.take(8 * (m - 1))) + tb
                        =~= old(self)@ + (ov.take(8 * (m - 1)) + tb));
                    assert(self@ =~= old(self)@ + ov);
                }
            }
        }
    }

    /// A well-formed buffer's bit length fits in a `usize`.
    pub proof fn lemma_len_bound(&self)
        requires
            self.wf(),
        ensures
            self@.len() <= usize::MAX,
    {
    }

    /// Reads the bit at position `i`.
    pub fn get(&self, i: usize) -> (r: bool)
        requires
            self.wf(),
            i < self@.len(),
        ensures
            r == self@[i as int],
    {
        proof {
            vstd::arithmetic::div_mod::lemma_fundamental_div_mod(i as int, 8);
            vstd::arithmetic::div_mod::lemma_div_is_ordered(i as int,
                self.blocks@.len() * 8 - 1, 8);
            assert((self.blocks@.len() * 8 - 1) / 8 == self.blocks@.len() - 1) by {
                vstd::arithmetic::div_mod::lemma_fundamental_div_mod_converse(
                    self.blocks@.len() * 8 - 1, 8, self.blocks@.len() as int - 1, 7);
            };
        }
        self.blocks[i / 8] & (0x80 >> ((i % 8) as u8)) != 0
    }

    /// A one-block buffer holding the leading `offset + 1` bits of `block`.
    pub fn from_block(block: u8, offset: u8) -> (r: Self)
        requires
            offset <= 7,
            block & low_mask(offset) == 0,
        ensures
            r.wf(),
            r@ == Seq::new((offset + 1) as nat, |k: int| block_bit(block, k as u8)),
    {
        let mut blocks: Vec<u8> = Vec::new();
        blocks.push(block);
        let r = BitVec { blocks, offset };
        proof {
            assert forall|k: int| 0 <= k < r@.len() implies
                r@[k] == block_bit(block, k as u8) by {
                vstd::arithmetic::div_mod::lemma_fundamental_div_mod_converse(k, 8, 0, k);
            }
            assert(r@ =~= Seq::new((offset + 1) as nat, |k: int| block_bit(block, k as u8)));
        }
        r
    }

    /// Builds a buffer from whole bytes, treating every trailing zero bit as
    /// padding: trailing all-zero bytes are dropped, and the offset is set to
    /// the last one bit of the final kept byte.
    pub fn from_bytes(bytes: Vec<u8>) -> (r: Self)
        requires
            bytes@.len() * 8 <= usize::MAX,
        ensures
            r.wf(),
            r@ == strip_trailing_zeros(bits_of_bytes(bytes@)),
    {
        let ghost orig = bytes@;
        let mut rest = bytes;
        loop
            invariant
                bytes@ == orig,
                rest@.len() * 8 <= usize::MAX,
                strip_trailing_zeros(bits_of_bytes(orig))
                    == strip_trailing_zeros(bits_of_bytes(rest@)),
            decreases rest@.len(),
        {
            let m = rest.len();
            if m == 0 {
                let r = Self::new();
                proof {
                    assert(bits_of_bytes(rest@) =~= Seq::<bool>::empty());
                    assert(strip_trailing_zeros(bits_of_bytes(orig)) == Seq::<bool>::empty());
                }
                return r;
            }
            let b = rest[m - 1];
            if b == 0 {
                let ghost pre = rest@;
                rest.pop();
                proof {
                    assert(forall|i: u8| !block_bit(0u8, i)) by (bit_vector);
                    let s = bits_of_bytes(pre);
                    assert forall|i: int| s.len() - 8 <= i < s.len() implies !s[i] by {
                        vstd::arithmetic::div_mod::lemma_fundamental_div_mod(i, 8);
                        assert(i / 8 == pre.len() - 1) by {
                            vstd::arithmetic::div_mod::lemma_fundamental_div_mod_converse(
                                i, 8, i / 8, i % 8);
                        };
                    }
                    lemma_strip_false_suffix(s, 8);
                    assert(s.take(s.len() - 8) =~= bits_of_bytes(rest@));
                }
            } else {
                proof {
                    assert(forall|x: u8| x & low_mask(7u8) == 0) by (bit_vector);
                }
                let mut off: u8 = 7;
                while rest[m - 1] & (0x80 >> off) == 0
                    invariant
                        off <= 7,
                        m == rest@.len(),
                        m > 0,
                        rest@[m - 1] == b,
                        b != 0,
                        b & low_mask(off) == 0,
                    decreases off,
                {
                    proof {
                        let o = off;
                        assert(!(o == 0 && b & (0x80u8 >> o) == 0 && b & low_mask(o) == 0)
                            || b == 0) by (bit_vector);
                        assert(b & low_mask((o - 1) as u8) == 0) by (bit_vector)
                            requires
                                0 < o <= 7,
                                b & low_mask(o) == 0,
                                b & (0x80u8 >> o) == 0,
                        ;
                    }
                    off = off - 1;
                }
                let r = BitVec { blocks: rest, offset: off };
                proof {
                    let s = bits_of_bytes(r.blocks@);
                    assert(s.len() == 8 * m);
                    assert forall|i: int| 8 * (m - 1) + off + 1 <= i < s.len() implies !s[i] by {
                        vstd::arithmetic::div_mod::lemma_fundamental_div_mod(i, 8);
                        assert(i / 8 == m - 1) by {
                            vstd::arithmetic::div_mod::lemma_fundamental_div_mod_converse(
                                i, 8, i / 8, i % 8);
                        };
                        lemma_unused_bit(b, off, (i % 8) as u8);
                    }
                    lemma_strip_false_suffix(s, (7 - off) as nat);
                    let t = s.take(8 * (m - 1) + off + 1);
                    assert(t.last() == block_bit(b, off)) by {
                        vstd::arithmetic::div_mod::lemma_fundamental_div_mod_converse(
                            8 * (m as int - 1) + off, 8, m as int - 1, off as int);
                    };
                    assert(strip_trailing_zeros(t) == t);
                    assert(r@ =~= t);
                    assert(r@ == strip_trailing_zeros(bits_of_bytes(orig)));
                }
                return r;
            }
        }
    }

    /// The bits rendered as text: groups of eight binary digits between
    /// brackets, the last group truncated to the bits actually in use.
    pub fn debug_string(&self) -> (r: String)
        requires
            self.wf(),
        ensures
            r@ == seq!['[', ' '] + render_groups(self@) + seq![']'],
    {
        proof {
            reveal_strlit("[ ");
            reveal_strlit("]");
            reveal_strlit("0");
            reveal_strlit("1");
        }
        let mut s = String::new();
        s.append("[ ");
        let n = self.len();
        let mut i: usize = 0;
        while i < n
            invariant
                self.wf(),
                n == self@.len(),
                i <= n,
                i % 8 == 0 || i == n,
                s@ == seq!['[', ' '] + render_groups(self@.take(i as int)),
            decreases n - i,
        {
            proof {
                reveal_strlit("[ ");
                reveal_strlit("]");
                reveal_strlit("0");
                reveal_strlit("1");
            }
            let c = if n - i < 8 { n - i } else { 8 };
            let ghost i0 = i as int;
            let ghost spre = s@;
            let mut j: usize = 0;
            while j < c
                invariant
                    self.wf(),
                    n == self@.len(),
                    i == i0,
                    i0 + c <= n,
                    0 < c <= 8,
                    j <= c,
                    "0"@ == seq!['0'],
                    "1"@ == seq!['1'],
                    s@ == spre + bit_chars(self@.subrange(i0, i0 + j)),
                decreases c - j,
            {
                let ghost sj = s@;
                if self.get(i + j) {
                    s.append("1");
                } else {
                    s.append("0");
                }
                proof {
                    assert(bit_chars(self@.subrange(i0, i0 + j + 1))
                        =~= bit_chars(self@.subrange(i0, i0 + j))
                            + seq![if self@[i0 + j] { '1' } else { '0' }]);
                    assert(s@ =~= spre + bit_chars(self@.subrange(i0, i0 + j + 1)));
                }
                j = j + 1;
            }
            s.append(" ");
            proof {
                reveal_strlit(" ");
                let whole = self@.take(i0 + c);
                if i0 > 0 {
                    lemma_render_split(whole, i0);
                    assert(whole.take(i0) =~= self@.take(i0));
                }
                assert(whole.skip(i0) =~= self@.subrange(i0, i0 + c));
                assert(self@.subrange(i0, i0 + c).len() == c);
                assert(render_groups(self@.subrange(i0, i0 + c))
                    == bit_chars(self@.subrange(i0, i0 + c)) + seq![' ']);
                if i0 == 0 {
                    assert(whole.take(0) =~= Seq::<bool>::empty());
                    assert(render_groups(self@.take(0)) == Seq::<char>::empty());
                    assert(whole =~= whole.skip(0));
                }
                assert(render_groups(whole)
                    == render_groups(self@.take(i0))
                        + (bit_chars(self@.subrange(i0, i0 + c)) + seq![' ']));
                assert(s@ =~= seq!['[', ' '] + render_groups(self@.take(i0 + c)));
                assert((i0 + c) % 8 == 0 || i0 + c == n) by {
                    if c == 8 {
                        vstd::arithmetic::div_mod::lemma_add_mod_noop(i0, 8, 8);
                        assert(8int % 8 == 0);
                    }
                };
            }
            i = i + c;
        }
        s.append("]");
        proof {
            reveal_strlit("]");
            assert(self@.take(n as int) =~= self@);
            assert(s@ =~= seq!['[', ' '] + render_groups(self@) + seq![']']);
        }
        s
    }
}

impl Clone for BitVec {
    /// An independent buffer with the same bits.
    fn clone(&self) -> (r: Self)
        ensures
            r@ == self@,
            self.wf() ==> r.wf(),
    {
        let mut blocks: Vec<u8> = Vec::new();
        let mut i: usize = 0;
        while i < self.blocks.len()
            invariant
                i <= self.blocks@.len(),
                blocks@ == self.blocks@.take(i as int),
            decreases self.blocks@.len() - i,
        {
            blocks.push(self.blocks[i]);
            proof {
                assert(blocks@ =~= self.blocks@.take(i + 1));
            }
            i = i + 1;
        }
        proof {
            assert(blocks@ =~= self.blocks@);
        }
        let r = BitVec { blocks, offset: self.offset };
        proof {
            assert(r@ =~= self@);
        }
        r
    }
}

impl PartialEq for BitVec {
    /// Buffers are equal when their blocks and offsets agree; for
    /// well-formed buffers that is exactly agreement of the stored bits.
    fn eq(&self, other: &Self) -> (r: bool) {
        if self.offset != other.offset || self.blocks.len() != other.blocks.len() {
            return false;
        }
        let mut i: usize = 0;
        while i < self.blocks.len()
            invariant
                i <= self.blocks@.len(),
                self.blocks@.len() == other.blocks@.len(),
                self.offset == other.offset,
                forall|k: int| 0 <= k < i ==> self.blocks@[k] == other.blocks@[k],
            decreases self.blocks@.len() - i,
        {
            if self.blocks[i] != other.blocks[i] {
                return false;
            }
            i = i + 1;
        }
        proof {
            assert(self.blocks@ =~= other.blocks@);
        }
        true
    }
}

impl BitVec {
    /// What `==` means on buffers: the backing blocks and the offset agree.
    pub closed spec fn same_rep(&self, other: &Self) -> bool {
        self.blocks@ == other.blocks@ && self.offset == other.offset
    }

    /// The representation is canonical: two well-formed buffers holding the
    /// same bits are equal as values. With `pop`'s and `push`'s contracts
    /// this closes the round-trip law: popping the last bit of a non-empty
    /// buffer and pushing it back restores the buffer itself, not only its
    /// bit content.
    pub proof fn lemma_unique_representation(&self, other: &Self)
        requires
            self.wf(),
            other.wf(),
            self@ == other@,
        ensures
            self.same_rep(other),
    {
        let n = self.blocks@.len() as int;
        let len = self@.len() as int;
        assert(self.blocks@.len() == other.blocks@.len() && self.offset == other.offset) by {
            if len > 0 {
                assert(8 * n - (7 - self.offset) == 8 * other.blocks@.len()
                    - (7 - other.offset));
            }
        };
        assert forall|j: int| 0 <= j < n implies self.blocks@[j] == other.blocks@[j] by {
            assert forall|i: u8| i < 8 implies
                #[trigger] block_bit(self.blocks@[j], i)
                    == block_bit(other.blocks@[j], i) by {
                let k = 8 * j + i;
                vstd::arithmetic::div_mod::lemma_fundamental_div_mod_converse(k, 8, j, i as int);
                if k < len {
                    assert(self@[k] == block_bit(self.blocks@[k / 8], (k % 8) as u8));
                    assert(other@[k] == block_bit(other.blocks@[k / 8], (k % 8) as u8));
                    assert(self@[k] == other@[k]);
                } else {
                    assert(j == n - 1 && i > self.offset);
                    lemma_unused_bit(self.blocks@.last(), self.offset, i);
                    lemma_unused_bit(other.blocks@.last(), other.offset, i);
                }
            }
            lemma_block_eq(self.blocks@[j], other.blocks@[j]);
        }
        assert(self.blocks@ =~= other.blocks@);
    }
}

impl vstd::std_specs::cmp::PartialEqSpecImpl for BitVec {
    open spec fn obeys_eq_spec() -> bool {
        true
    }

    open spec fn eq_spec(&self, other: &Self) -> bool {
        self.same_rep(other)
    }
}


} // verus!
