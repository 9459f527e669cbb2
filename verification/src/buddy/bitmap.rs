//! One level of the buddy allocator: a bitmap of free blocks and the number
//! of bits that are set in it.

use vstd::prelude::*;

verus! {

/// Whether bit `k` (0 is the least significant) of `byte` is set.
pub open spec fn bit_of(byte: u8, k: int) -> bool {
    0 <= k < 8 && (byte & (1u8 << (k as u8))) != 0
}

/// Whether bit `i` of the byte sequence is set; bits are numbered from the
/// least significant bit of the first byte.
pub open spec fn bit_at(bytes: Seq<u8>, i: int) -> bool {
    0 <= i < 8 * bytes.len() && bit_of(bytes[i / 8], i % 8)
}

/// The set of the indices of the set bits.
pub open spec fn ones_of(bytes: Seq<u8>) -> Set<int> {
    Set::new(|i: int| bit_at(bytes, i))
}

proof fn lemma_bit_set(b: u8, k: u8, m: u8)
    by (bit_vector)
    requires
        k < 8,
        m < 8,
    ensures
        ((b | (1u8 << k)) & (1u8 << m)) != 0 <==> (m == k || (b & (1u8 << m)) != 0),
{
}

proof fn lemma_bit_clear(b: u8, k: u8, m: u8)
    by (bit_vector)
    requires
        k < 8,
        m < 8,
    ensures
        ((b & !(1u8 << k)) & (1u8 << m)) != 0 <==> (m != k && (b & (1u8 << m)) != 0),
{
}

proof fn lemma_zero_byte(m: u8)
    by (bit_vector)
    requires
        m < 8,
    ensures
        (0u8 & (1u8 << m)) == 0,
{
}

proof fn lemma_nonzero_byte(b: u8)
    by (bit_vector)
    requires
        b != 0,
    ensures
        (b & (1u8 << 0u8)) != 0 || (b & (1u8 << 1u8)) != 0 || (b & (1u8 << 2u8)) != 0 || (b & (1u8
            << 3u8)) != 0 || (b & (1u8 << 4u8)) != 0 || (b & (1u8 << 5u8)) != 0 || (b & (1u8
            << 6u8)) != 0 || (b & (1u8 << 7u8)) != 0,
{
}

/// The set bits of a byte sequence all lie below eight times its length, so
/// they are finitely many.
pub proof fn lemma_ones_finite(bytes: Seq<u8>)
    ensures
        ones_of(bytes).finite(),
        ones_of(bytes).len() <= 8 * bytes.len(),
{
    let bound = 8 * bytes.len() as int;
    let range = Set::new(|i: int| 0 <= i < bound);
    vstd::set_lib::lemma_int_range(0, bound);
    assert(range =~= vstd::set_lib::set_int_range(0, bound));
    assert(ones_of(bytes).subset_of(range));
    vstd::set_lib::lemma_len_subset(ones_of(bytes), range);
}

/// Setting one bit adds its index to the set bits and changes nothing else.
pub proof fn lemma_ones_after_set(before: Seq<u8>, after: Seq<u8>, i: int)
    requires
        0 <= i < 8 * before.len(),
        after == before.update(i / 8, before[i / 8] | (1u8 << ((i % 8) as u8))),
    ensures
        ones_of(after) == ones_of(before).insert(i),
{
    assert forall|j: int| ones_of(after).contains(j) == ones_of(before).insert(i).contains(j) by {
        if 0 <= j < 8 * before.len() {
            if j / 8 == i / 8 {
                lemma_bit_set(before[i / 8], (i % 8) as u8, (j % 8) as u8);
            }
        }
    }
    assert(ones_of(after) =~= ones_of(before).insert(i));
}

/// Clearing one bit removes its index from the set bits and changes nothing
/// else.
pub proof fn lemma_ones_after_clear(before: Seq<u8>, after: Seq<u8>, i: int)
    requires
        0 <= i < 8 * before.len(),
        after == before.update(i / 8, before[i / 8] & !(1u8 << ((i % 8) as u8))),
    ensures
        ones_of(after) == ones_of(before).remove(i),
{
    assert forall|j: int| ones_of(after).contains(j) == ones_of(before).remove(i).contains(j) by {
        if 0 <= j < 8 * before.len() {
            if j / 8 == i / 8 {
                lemma_bit_clear(before[i / 8], (i % 8) as u8, (j % 8) as u8);
            }
        }
    }
    assert(ones_of(after) =~= ones_of(before).remove(i));
}

/// The free-block bitmap of one level, with the cached number of set bits.
pub struct BlockBitmap {
    bits: Vec<u8>,
    count: usize,
}

impl BlockBitmap {
    /// The bytes of the bitmap.
    pub closed spec fn bytes(&self) -> Seq<u8> {
        self.bits@
    }

    /// The cached number of set bits.
    pub closed spec fn cached(&self) -> nat {
        self.count as nat
    }

    /// The number of bits that the bitmap can hold.
    pub open spec fn capacity(&self) -> nat {
        8 * self.bytes().len()
    }

    /// Whether bit `i` is set.
    pub open spec fn is_set(&self, i: int) -> bool {
        bit_at(self.bytes(), i)
    }

    /// The indices of the set bits.
    pub open spec fn ones(&self) -> Set<int> {
        ones_of(self.bytes())
    }

    /// The cached count agrees with the bits, and every bit index fits a
    /// machine word.
    pub open spec fn wf(&self) -> bool {
        &&& self.cached() == self.ones().len()
        &&& 0 < self.bytes().len()
        &&& self.capacity() <= usize::MAX
    }

    /// The cached count is the number of set bits, and these are finitely
    /// many.
    pub proof fn lemma_count(&self)
        requires
            self.wf(),
        ensures
            self.ones().finite(),
            self.cached() == self.ones().len(),
            self.cached() <= self.capacity(),
    {
        lemma_ones_finite(self.bytes());
    }

    /// A bitmap for `blocks` blocks, all of them marked as not free, except
    /// the last one where `blocks` is odd.
    pub fn new(blocks: usize) -> (r: Self)
        requires
            0 < blocks <= usize::MAX - 8,
        ensures
            r.wf(),
            r.bytes().len() == (blocks - 1) / 8 + 1,
            forall|i: int| r.is_set(i) <==> (blocks % 2 == 1 && i == blocks - 1),
            r.cached() == blocks % 2,
    {
        let len: usize = (blocks - 1) / 8 + 1;
        let mut bits: Vec<u8> = Vec::new();
        let mut n: usize = 0;
        while n < len
            invariant
                n <= len,
                bits@.len() == n,
                forall|j: int| 0 <= j < n ==> bits@[j] == 0u8,
            decreases len - n,
        {
            bits.push(0u8);
            n += 1;
        }
        let ghost zeroed = bits@;
        proof {
            assert forall|i: int| !bit_at(zeroed, i) by {
                if 0 <= i < 8 * zeroed.len() {
                    lemma_zero_byte((i % 8) as u8);
                }
            }
            assert(ones_of(zeroed) =~= Set::<int>::empty());
        }
        let mut r = BlockBitmap { bits, count: 0 };
        assert(r.ones().len() == 0);
        if blocks % 2 != 0 {
            r.set_1(blocks - 1);
        }
        proof {
            assert forall|i: int| r.is_set(i) <==> (blocks % 2 == 1 && i == blocks - 1) by {
                assert(r.is_set(i) == r.ones().contains(i));
                assert(!ones_of(zeroed).contains(i));
            }
            lemma_ones_finite(zeroed);
        }
        r
    }

    /// The number of bits that the bitmap can hold.
    pub fn capacity_of(&self) -> (r: usize)
        requires
            self.wf(),
        ensures
            r == self.capacity(),
    {
        self.bits.len() * 8
    }

    /// Whether the block with index `block_idx` is marked free.
    pub fn get(&self, block_idx: usize) -> (r: bool)
        requires
            block_idx < self.capacity(),
        ensures
            r == self.is_set(block_idx as int),
    {
        let k: u8 = (block_idx % 8) as u8;
        (self.bits[block_idx / 8] & (1u8 << k)) != 0
    }

    /// Marks the block with index `block_idx` as free.
    pub fn set_1(&mut self, block_idx: usize)
        requires
            old(self).wf(),
            block_idx < old(self).capacity(),
        ensures
            final(self).wf(),
            final(self).bytes().len() == old(self).bytes().len(),
            final(self).ones() == old(self).ones().insert(block_idx as int),
            final(self).cached() == old(self).cached() + if old(self).is_set(block_idx as int) {
                0nat
            } else {
                1nat
            },
    {
        let prev = self.get(block_idx);
        let k: u8 = (block_idx % 8) as u8;
        let byte: u8 = self.bits[block_idx / 8];
        let ghost before = self.bits@;
        self.bits[block_idx / 8] = byte | (1u8 << k);
        proof {
            lemma_ones_after_set(before, self.bits@, block_idx as int);
            lemma_ones_finite(before);
            lemma_ones_finite(self.bits@);
        }
        if !prev {
            self.count += 1;
        }
    }

    /// Marks the block with index `block_idx` as not free.
    pub fn set_0(&mut self, block_idx: usize)
        requires
            old(self).wf(),
            block_idx < old(self).capacity(),
        ensures
            final(self).wf(),
            final(self).bytes().len() == old(self).bytes().len(),
            final(self).ones() == old(self).ones().remove(block_idx as int),
            final(self).cached() == old(self).cached() - if old(self).is_set(block_idx as int) {
                1nat
            } else {
                0nat
            },
    {
        let prev = self.get(block_idx);
        let k: u8 = (block_idx % 8) as u8;
        let byte: u8 = self.bits[block_idx / 8];
        let ghost before = self.bits@;
        self.bits[block_idx / 8] = byte & !(1u8 << k);
        proof {
            lemma_ones_after_clear(before, self.bits@, block_idx as int);
            lemma_ones_finite(before);
            lemma_ones_finite(self.bits@);
        }
        if prev {
            self.count -= 1;
        }
    }

    /// Whether no block of this level is marked free.
    pub fn empty(&self) -> (r: bool)
        requires
            self.wf(),
        ensures
            r == (self.ones().len() == 0),
            r == (forall|i: int| !self.is_set(i)),
    {
        proof {
            lemma_ones_finite(self.bits@);
            if self.ones().len() == 0 {
                assert(self.ones() =~= Set::<int>::empty());
                assert forall|i: int| !self.is_set(i) by {
                    assert(!self.ones().contains(i));
                }
            } else {
                let w = self.ones().choose();
                assert(self.ones().contains(w));
                assert(bit_at(self.bits@, w));
                assert(self.is_set(w));
            }
        }
        self.count == 0
    }

    /// The lowest index of a block that is marked free.
    pub fn first_1(&self) -> (r: usize)
        requires
            self.wf(),
            self.ones().len() != 0,
        ensures
            self.is_set(r as int),
            forall|i: int| 0 <= i < r ==> !self.is_set(i),
    {
        let ghost w: int = self.ones().choose();
        proof {
            lemma_ones_finite(self.bits@);
            assert(self.ones().contains(w));
            assert(ones_of(self.bits@).contains(w));
            assert(bit_at(self.bits@, w));
        }
        let mut bits_idx: usize = 0;
        while self.bits[bits_idx] == 0
            invariant
                self.wf(),
                self.is_set(w),
                bits_idx <= w / 8,
                bits_idx < self.bits@.len(),
                forall|i: int| 0 <= i < 8 * bits_idx ==> !self.is_set(i),
            decreases self.bits@.len() - bits_idx,
        {
            proof {
                assert forall|i: int| 8 * bits_idx <= i < 8 * (bits_idx + 1) implies !self.is_set(
                    i,
                ) by {
                    lemma_zero_byte((i % 8) as u8);
                }
                assert(w >= 8 * (bits_idx + 1));
            }
            bits_idx += 1;
        }
        let byte: u8 = self.bits[bits_idx];
        proof {
            lemma_nonzero_byte(byte);
            assert(bit_of(byte, 0) || bit_of(byte, 1) || bit_of(byte, 2) || bit_of(byte, 3)
                || bit_of(byte, 4) || bit_of(byte, 5) || bit_of(byte, 6) || bit_of(byte, 7));
        }
        let ghost m: int = choose|m: int| 0 <= m < 8 && bit_of(byte, m);
        let mut offset: u8 = 0;
        while (byte & (1u8 << offset)) == 0
            invariant
                offset <= m < 8,
                bit_of(byte, m),
                forall|k: int| 0 <= k < offset ==> !bit_of(byte, k),
            decreases 8 - offset,
        {
            offset += 1;
        }
        proof {
            let r = bits_idx * 8 + offset;
            assert(r / 8 == bits_idx as int && r % 8 == offset as int);
            assert forall|i: int| 0 <= i < r implies !self.is_set(i) by {
                if i >= 8 * bits_idx {
                    assert(i / 8 == bits_idx as int);
                    assert(!bit_of(byte, i % 8));
                }
            }
        }
        bits_idx * 8 + offset as usize
    }
}

} // verus!
