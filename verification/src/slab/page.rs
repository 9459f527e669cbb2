//! One page of a slab: its header, the headers of its slots, and its bytes.

use crate::slab::geometry::{Geometry, ObjectHeader, PAGE_SIZE, REDZONE_SIZE};
use vstd::prelude::*;

verus! {

/// The magic of a slot that is handed out.
pub const OBJECT_MAGIC: u16 = 0x6b5c;

/// The magic of a slot that is on the free list.
pub const MAGIC_EMPTY: u16 = 0;

/// The byte that fills the redzones.
pub const REDZONE_FILL: u8 = 0xf1;

/// The byte that fills the payload of a slot that is not in use.
pub const UNUSED_FILL: u8 = 0xe2;

/// Why the allocator refuses a pointer or a slot.
#[derive(Debug, Clone, Copy, PartialEq, Eq, Structural)]
pub enum SlabError {
    /// The pointer is not the payload of a slot in a page of this allocator.
    InvalidPointer,
    /// The slot is not marked as handed out: it was never allocated, or it
    /// was released before.
    NotAllocated,
    /// A redzone of the slot does not hold the redzone pattern: something
    /// wrote before or behind the payload.
    RedzoneCorrupted,
    /// The payload of a free slot does not hold the poison pattern:
    /// something wrote through a pointer that had been released.
    PoisonCorrupted,
}

impl SlabError {
    /// What went wrong, in words.
    pub open spec fn text(self) -> Seq<char> {
        match self {
            SlabError::InvalidPointer => "invalid dealloc(): not a slot of this slab"@,
            SlabError::NotAllocated => "invalid dealloc(): slot is not allocated"@,
            SlabError::RedzoneCorrupted => "slab is poisoned: redzone overwritten"@,
            SlabError::PoisonCorrupted => "dangling pointer exists or slab is poisoned"@,
        }
    }

    /// What went wrong, in words.
    pub fn message(&self) -> (r: &'static str)
        ensures
            r@ == self.text(),
    {
        match self {
            SlabError::InvalidPointer => "invalid dealloc(): not a slot of this slab",
            SlabError::NotAllocated => "invalid dealloc(): slot is not allocated",
            SlabError::RedzoneCorrupted => "slab is poisoned: redzone overwritten",
            SlabError::PoisonCorrupted => "dangling pointer exists or slab is poisoned",
        }
    }
}

/// Whether the bytes of `mem` from `lo` up to `hi` all equal `v`.
pub open spec fn all_bytes(mem: Seq<u8>, lo: int, hi: int, v: u8) -> bool {
    forall|i: int| lo <= i < hi ==> #[trigger] mem[i] == v
}

/// Whether both redzones of the slot at `off` hold the redzone pattern.
pub open spec fn redzones_intact(mem: Seq<u8>, geo: Geometry, off: int) -> bool {
    let payload = off + geo.front_size;
    &&& all_bytes(mem, payload - REDZONE_SIZE, payload, REDZONE_FILL)
    &&& all_bytes(
        mem,
        payload + geo.payload_size,
        payload + geo.payload_size + REDZONE_SIZE,
        REDZONE_FILL,
    )
}

/// Whether the payload of the slot at `off` holds the poison pattern.
pub open spec fn payload_poisoned(mem: Seq<u8>, geo: Geometry, off: int) -> bool {
    all_bytes(mem, off + geo.front_size, off + geo.front_size + geo.payload_size, UNUSED_FILL)
}

/// Whether the slot at `off` passes its integrity checks: both redzones hold
/// the redzone pattern, and, where the slot is free, its payload holds the
/// poison pattern.
pub open spec fn slot_sound(mem: Seq<u8>, geo: Geometry, off: int, is_free: bool) -> bool {
    redzones_intact(mem, geo, off) && (is_free ==> payload_poisoned(mem, geo, off))
}

/// Whether `after` is `before` with the bytes from `lo` up to `hi` set to
/// `v`.
pub open spec fn filled(before: Seq<u8>, after: Seq<u8>, lo: int, hi: int, v: u8) -> bool {
    &&& after.len() == before.len()
    &&& forall|i: int|
        0 <= i < before.len() ==> #[trigger] after[i] == if lo <= i < hi {
            v
        } else {
            before[i]
        }
}

/// Sets the bytes from `lo` up to `hi` to `v`.
fn fill(bytes: &mut Vec<u8>, lo: usize, hi: usize, v: u8)
    requires
        lo <= hi <= old(bytes)@.len(),
    ensures
        filled(old(bytes)@, final(bytes)@, lo as int, hi as int, v),
{
    let mut i: usize = lo;
    while i < hi
        invariant
            lo <= i <= hi <= bytes@.len(),
            filled(old(bytes)@, bytes@, lo as int, i as int, v),
        decreases hi - i,
    {
        bytes[i] = v;
        i += 1;
    }
}

/// Whether the bytes from `lo` up to `hi` all equal `v`.
fn all_equal(bytes: &Vec<u8>, lo: usize, hi: usize, v: u8) -> (r: bool)
    requires
        lo <= hi <= bytes@.len(),
    ensures
        r == all_bytes(bytes@, lo as int, hi as int, v),
{
    let mut i: usize = lo;
    while i < hi
        invariant
            lo <= i <= hi <= bytes@.len(),
            all_bytes(bytes@, lo as int, i as int, v),
        decreases hi - i,
    {
        if bytes[i] != v {
            return false;
        }
        i += 1;
    }
    true
}

/// A page of a slab.
pub struct SlabPage {
    free: u16,
    count: u16,
    headers: Vec<ObjectHeader>,
    bytes: Vec<u8>,
    chain: Ghost<Seq<int>>,
}

impl SlabPage {
    /// The offset of the first free slot, or zero where none is free.
    pub closed spec fn free_head(&self) -> u16 {
        self.free
    }

    /// The number of slots that are handed out.
    pub closed spec fn alloc_count(&self) -> u16 {
        self.count
    }

    /// The bytes of the page.
    pub closed spec fn memory(&self) -> Seq<u8> {
        self.bytes@
    }

    /// The header of the slot with index `k`.
    pub closed spec fn header(&self, k: int) -> ObjectHeader {
        self.headers@[k]
    }

    /// The indices of the free slots, in the order of the free list.
    pub closed spec fn free_slots(&self) -> Seq<int> {
        self.chain@
    }

    /// The offset that the free list holds for place `i`: that of the slot
    /// there, or zero behind the last.
    pub open spec fn chain_offset(&self, geo: Geometry, i: int) -> int {
        if i < self.free_slots().len() {
            geo.slot_offset(self.free_slots()[i])
        } else {
            0
        }
    }

    /// The header of the page and those of its slots agree: the free list
    /// runs through exactly the slots whose magic says that they are free,
    /// without a cycle; every other slot is marked as handed out and has no
    /// successor; the count is the number of those.
    pub closed spec fn wf(&self, geo: Geometry) -> bool {
        let chain = self.chain@;
        &&& geo.wf()
        &&& self.bytes@.len() == PAGE_SIZE
        &&& self.headers@.len() == geo.slots()
        &&& chain.no_duplicates()
        &&& forall|i: int| 0 <= i < chain.len() ==> 0 <= #[trigger] chain[i] < geo.slots()
        &&& self.free == self.chain_offset(geo, 0)
        &&& forall|i: int|
            0 <= i < chain.len() ==> (#[trigger] self.headers@[chain[i]]).magic == MAGIC_EMPTY
                && self.headers@[chain[i]].next == self.chain_offset(geo, i + 1)
        &&& forall|k: int|
            0 <= k < geo.slots() && !chain.contains(k) ==> (#[trigger] self.headers@[k]).magic
                == OBJECT_MAGIC && self.headers@[k].next == 0
        &&& self.count == geo.slots() - chain.len()
    }

    /// Whether the slot at `off` is handed out.
    pub open spec fn is_allocated(&self, geo: Geometry, off: int) -> bool {
        geo.is_slot(off) && !self.free_slots().contains(geo.slot_index(off))
    }

    /// Whether every slot passes its integrity checks: all redzones hold the
    /// redzone pattern, and the payload of every free slot holds the poison
    /// pattern.
    pub open spec fn intact(&self, geo: Geometry) -> bool {
        forall|k: int|
            0 <= k < geo.slots() ==> #[trigger] slot_sound(
                self.memory(),
                geo,
                geo.slot_offset(k),
                self.free_slots().contains(k),
            )
    }

    /// What the header of a consistent page says of its free list.
    pub proof fn lemma_wf(&self, geo: Geometry)
        requires
            self.wf(geo),
        ensures
            geo.wf(),
            self.memory().len() == PAGE_SIZE,
            self.free_slots().no_duplicates(),
            self.alloc_count() == geo.slots() - self.free_slots().len(),
            0 <= self.alloc_count() <= geo.slots(),
            self.free_head() == 0 <==> self.free_slots().len() == 0,
            self.free_head() != 0 ==> geo.is_slot(self.free_head() as int) && geo.slot_index(
                self.free_head() as int,
            ) == self.free_slots()[0],
            forall|i: int|
                0 <= i < self.free_slots().len() ==> 0 <= #[trigger] self.free_slots()[i]
                    < geo.slots(),
            forall|k: int|
                0 <= k < geo.slots() ==> ((#[trigger] self.header(k)).magic == MAGIC_EMPTY
                    <==> self.free_slots().contains(k)),
            forall|k: int|
                0 <= k < geo.slots() ==> ((#[trigger] self.header(k)).magic == OBJECT_MAGIC
                    <==> !self.free_slots().contains(k)),
            forall|i: int|
                0 <= i < self.free_slots().len() ==> (#[trigger] self.header(
                    self.free_slots()[i],
                )).next == self.chain_offset(geo, i + 1),
            forall|k: int|
                0 <= k < geo.slots() && !self.free_slots().contains(k) ==> (#[trigger] self.header(
                    k,
                )).next == 0,
    {
        geo.lemma_bounds();
        let chain = self.chain@;
        if chain.len() > 0 {
            geo.lemma_slot_offset(chain[0]);
        }
        assert forall|k: int| 0 <= k < geo.slots() implies ((#[trigger] self.header(k)).magic
            == MAGIC_EMPTY <==> self.free_slots().contains(k)) by {
            if chain.contains(k) {
                let i = chain.index_of(k);
                assert(self.headers@[chain[i]].magic == MAGIC_EMPTY);
            }
        }
        lemma_chain_bound(chain, geo.slots());
    }
}

/// A sequence without repetition of numbers below `n` has at most `n` items.
pub proof fn lemma_chain_bound(chain: Seq<int>, n: int)
    requires
        chain.no_duplicates(),
        forall|i: int| 0 <= i < chain.len() ==> 0 <= #[trigger] chain[i] < n,
    ensures
        chain.len() <= n || n < 0,
{
    if n >= 0 {
        let s = chain.to_set();
        chain.unique_seq_to_set();
        let range = Set::new(|i: int| 0 <= i < n);
        vstd::set_lib::lemma_int_range(0, n);
        assert(range =~= vstd::set_lib::set_int_range(0, n));
        assert(s.subset_of(range)) by {
            assert forall|x: int| s.contains(x) implies range.contains(x) by {
                let i = chain.index_of(x);
                assert(chain[i] == x);
            }
        }
        vstd::set_lib::lemma_len_subset(s, range);
    }
}

/// A sequence without repetition of numbers below `n` that misses one of
/// them has fewer than `n` items.
pub proof fn lemma_chain_short(chain: Seq<int>, n: int, k: int)
    requires
        chain.no_duplicates(),
        forall|i: int| 0 <= i < chain.len() ==> 0 <= #[trigger] chain[i] < n,
        0 <= k < n,
        !chain.contains(k),
    ensures
        chain.len() < n,
{
    let longer = chain.push(k);
    assert forall|i: int, j: int|
        0 <= i < longer.len() && 0 <= j < longer.len() && i != j implies longer[i]
        != longer[j] by {
        if i < chain.len() {
            assert(chain.contains(longer[i]));
        }
        if j < chain.len() {
            assert(chain.contains(longer[j]));
        }
    }
    lemma_chain_bound(longer, n);
}

/// Where fewer than `n` numbers below `n` stand in a sequence, one of them
/// is missing.
pub proof fn lemma_chain_gap(chain: Seq<int>, n: int) -> (k: int)
    requires
        chain.no_duplicates(),
        forall|i: int| 0 <= i < chain.len() ==> 0 <= #[trigger] chain[i] < n,
        chain.len() < n,
    ensures
        0 <= k < n,
        !chain.contains(k),
{
    let s = chain.to_set();
    chain.unique_seq_to_set();
    let range = Set::new(|i: int| 0 <= i < n);
    vstd::set_lib::lemma_int_range(0, n);
    assert(range =~= vstd::set_lib::set_int_range(0, n));
    if forall|k: int| 0 <= k < n ==> chain.contains(k) {
        assert(range.subset_of(s));
        vstd::set_lib::lemma_len_subset(range, s);
        0
    } else {
        choose|k: int| 0 <= k < n && !chain.contains(k)
    }
}

} // verus!

verus! {

/// Slots with different indices do not overlap: the later one starts where
/// the earlier one ends, or behind.
pub proof fn lemma_slots_apart(geo: Geometry, a: int, b: int)
    requires
        geo.wf(),
        0 <= a < b,
    ensures
        geo.slot_offset(a) + geo.object_size <= geo.slot_offset(b),
{
    let o = geo.object_size as int;
    geo.lemma_bounds();
    assert(a * o + o <= b * o) by (nonlinear_arith)
        requires
            a + 1 <= b,
            o > 0,
    ;
}

/// Writing inside the payload of one slot leaves the redzones of every slot,
/// and the payload of every other slot, as they were.
pub proof fn lemma_payload_write_frame(
    geo: Geometry,
    before: Seq<u8>,
    after: Seq<u8>,
    k: int,
    lo: int,
    hi: int,
    v: u8,
    j: int,
)
    requires
        geo.wf(),
        0 <= k < geo.slots(),
        0 <= j < geo.slots(),
        before.len() == PAGE_SIZE,
        geo.slot_offset(k) + geo.front_size <= lo <= hi <= geo.slot_offset(k) + geo.front_size
            + geo.payload_size,
        filled(before, after, lo, hi, v),
    ensures
        redzones_intact(before, geo, geo.slot_offset(j)) ==> redzones_intact(
            after,
            geo,
            geo.slot_offset(j),
        ),
        j != k && payload_poisoned(before, geo, geo.slot_offset(j)) ==> payload_poisoned(
            after,
            geo,
            geo.slot_offset(j),
        ),
{
    geo.lemma_bounds();
    if j < k {
        lemma_slots_apart(geo, j, k);
    } else if k < j {
        lemma_slots_apart(geo, k, j);
    }
    assert(0 < geo.slot_offset(j) && geo.slot_offset(j) + geo.object_size <= PAGE_SIZE);
    assert(0 < geo.slot_offset(k) && geo.slot_offset(k) + geo.object_size <= PAGE_SIZE);
}

/// `post` is `pre` after its first free slot, at offset `off`, has been
/// handed out.
pub open spec fn took(pre: SlabPage, post: SlabPage, geo: Geometry, off: int) -> bool {
    &&& post.wf(geo)
    &&& off == pre.free_head()
    &&& geo.is_slot(off)
    &&& geo.slot_index(off) == pre.free_slots()[0]
    &&& post.free_slots() == pre.free_slots().drop_first()
    &&& post.alloc_count() == pre.alloc_count() + 1
    &&& post.is_allocated(geo, off)
    &&& filled(
        pre.memory(),
        post.memory(),
        off + geo.front_size,
        off + geo.front_size + geo.payload_size,
        0u8,
    )
}

/// `post` is `pre` after the slot at offset `off` has been taken back.
pub open spec fn gave(pre: SlabPage, post: SlabPage, geo: Geometry, off: int) -> bool {
    &&& post.wf(geo)
    &&& post.free_head() == off
    &&& post.free_slots() == seq![geo.slot_index(off)] + pre.free_slots()
    &&& post.alloc_count() == pre.alloc_count() - 1
    &&& filled(
        pre.memory(),
        post.memory(),
        off + geo.front_size,
        off + geo.front_size + geo.payload_size,
        UNUSED_FILL,
    )
}

impl SlabPage {
    /// The offset of the first free slot, or zero where none is free.
    pub fn free(&self) -> (r: u16)
        ensures
            r == self.free_head(),
    {
        self.free
    }

    /// The number of slots that are handed out.
    pub fn count(&self) -> (r: u16)
        ensures
            r == self.alloc_count(),
    {
        self.count
    }

    /// The byte at `off` in the page; nothing where `off` lies behind the
    /// page or in a header. The headers are kept apart from the bytes of the
    /// page, so their places are not read as bytes.
    pub fn read(&self, geo: &Geometry, off: usize) -> (r: Option<u8>)
        requires
            self.wf(*geo),
        ensures
            r is Some <==> off < PAGE_SIZE && !geo.in_header(off as int),
            r is Some ==> r->0 == self.memory()[off as int],
    {
        if off >= PAGE_SIZE || geo.is_header(off) {
            None
        } else {
            Some(self.bytes[off])
        }
    }

    /// Sets the byte at `off` in the page and says whether it did. A write
    /// behind the page or into a header is refused and changes nothing: the
    /// headers are out of reach of such a write.
    pub fn write(&mut self, geo: &Geometry, off: usize, v: u8) -> (ok: bool)
        requires
            old(self).wf(*geo),
        ensures
            final(self).wf(*geo),
            ok == (off < PAGE_SIZE && !geo.in_header(off as int)),
            ok ==> final(self).memory() == old(self).memory().update(off as int, v),
            !ok ==> *final(self) == *old(self),
            final(self).free_head() == old(self).free_head(),
            final(self).alloc_count() == old(self).alloc_count(),
            final(self).free_slots() == old(self).free_slots(),
    {
        if off >= PAGE_SIZE || geo.is_header(off) {
            return false;
        }
        self.bytes[off] = v;
        true
    }

    /// A freshly formatted page: every slot is free and passes its checks,
    /// and the free list runs through the slots from the first to the last.
    pub fn format(geo: &Geometry) -> (r: Self)
        requires
            geo.wf(),
        ensures
            r.wf(*geo),
            r.intact(*geo),
            r.alloc_count() == 0,
            r.free_head() == geo.first(),
            r.free_slots() == Seq::new(geo.slots() as nat, |i: int| i),
    {
        proof {
            geo.lemma_bounds();
        }
        let mut bytes: Vec<u8> = Vec::new();
        let mut n: usize = 0;
        while n < PAGE_SIZE
            invariant
                n <= PAGE_SIZE,
                bytes@.len() == n,
            decreases PAGE_SIZE - n,
        {
            bytes.push(0u8);
            n += 1;
        }
        let first: u16 = geo.page_offset();
        let front: usize = geo.front_size as usize;
        let size: usize = geo.payload_size as usize;
        let zone: usize = REDZONE_SIZE as usize;
        let mut offset: u16 = first;
        let mut headers: Vec<ObjectHeader> = Vec::new();
        let ghost slots = geo.slots();
        let ghost o = geo.object_size as int;
        loop
            invariant_except_break
                headers@.len() < slots,
                offset == geo.slot_offset(headers@.len() as int),
            invariant
                geo.wf(),
                slots == geo.slots(),
                o == geo.object_size,
                first == geo.first(),
                front == geo.front_size,
                size == geo.payload_size,
                zone == REDZONE_SIZE,
                bytes@.len() == PAGE_SIZE,
                headers@.len() <= slots,
                forall|k: int|
                    0 <= k < headers@.len() ==> (#[trigger] headers@[k]).magic == MAGIC_EMPTY
                        && headers@[k].next == if k + 1 < slots {
                        geo.slot_offset(k + 1)
                    } else {
                        0
                    },
                forall|k: int|
                    0 <= k < headers@.len() ==> #[trigger] slot_sound(
                        bytes@,
                        *geo,
                        geo.slot_offset(k),
                        true,
                    ),
            ensures
                headers@.len() == slots,
            decreases slots - headers@.len(),
        {
            let ghost k = headers@.len() as int;
            let ghost before = bytes@;
            proof {
                geo.lemma_bounds();
                assert(0 < geo.slot_offset(k) && geo.slot_offset(k) + o <= PAGE_SIZE);
            }
            let obj: usize = offset as usize;
            fill(&mut bytes, obj + front - zone, obj + front, REDZONE_FILL);
            fill(&mut bytes, obj + front, obj + front + size, UNUSED_FILL);
            fill(&mut bytes, obj + front + size, obj + front + size + zone, REDZONE_FILL);
            proof {
                assert forall|j: int| 0 <= j < k implies #[trigger] slot_sound(
                    bytes@,
                    *geo,
                    geo.slot_offset(j),
                    true,
                ) by {
                    lemma_slots_apart(*geo, j, k);
                    assert(slot_sound(before, *geo, geo.slot_offset(j), true));
                    assert(0 < geo.slot_offset(j));
                }
                assert(slot_sound(bytes@, *geo, geo.slot_offset(k), true));
                assert((k + 1) * o == k * o + o) by (nonlinear_arith);
                vstd::arithmetic::div_mod::lemma_fundamental_div_mod(PAGE_SIZE - geo.first(), o);
                vstd::arithmetic::div_mod::lemma_mod_bound(PAGE_SIZE - geo.first(), o);
                if k + 1 < slots {
                    assert(0 < geo.slot_offset(k + 1) && geo.slot_offset(k + 1) + o <= PAGE_SIZE);
                } else {
                    assert((k + 2) * o > PAGE_SIZE - geo.first()) by (nonlinear_arith)
                        requires
                            k + 2 >= slots + 1,
                            o > 0,
                            PAGE_SIZE - geo.first() == o * slots + (PAGE_SIZE - geo.first()) % o,
                            (PAGE_SIZE - geo.first()) % o < o,
                    ;
                    assert((k + 2) * o == k * o + o + o) by (nonlinear_arith);
                }
            }
            offset += geo.object_size;
            if offset as usize + geo.object_size as usize <= PAGE_SIZE {
                headers.push(ObjectHeader { magic: MAGIC_EMPTY, next: offset });
            } else {
                headers.push(ObjectHeader { magic: MAGIC_EMPTY, next: 0 });
                break ;
            }
        }
        let r = SlabPage {
            free: first,
            count: 0,
            headers,
            bytes,
            chain: Ghost(Seq::new(slots as nat, |i: int| i)),
        };
        proof {
            let chain = r.chain@;
            assert(chain.no_duplicates());
            assert forall|k: int| 0 <= k < slots implies chain.contains(k) by {
                assert(chain[k] == k);
            }
            assert(r.wf(*geo));
            assert forall|k: int| 0 <= k < geo.slots() implies #[trigger] slot_sound(
                r.memory(),
                *geo,
                geo.slot_offset(k),
                r.free_slots().contains(k),
            ) by {
                assert(slot_sound(r.bytes@, *geo, geo.slot_offset(k), true));
            }
        }
        r
    }

    /// What the allocator makes of the answer `got` of its page provider:
    /// for an address, that address with a freshly formatted page; nothing
    /// for nothing.
    pub fn format_at(geo: &Geometry, got: Option<usize>) -> (r: Option<(usize, Self)>)
        requires
            geo.wf(),
        ensures
            r is Some <==> got is Some,
            r matches Some((p, page)) ==> {
                &&& got == Some(p)
                &&& page.wf(*geo)
                &&& page.intact(*geo)
                &&& page.alloc_count() == 0
                &&& page.free_head() == geo.first()
                &&& page.free_slots() == Seq::new(geo.slots() as nat, |i: int| i)
            },
    {
        match got {
            None => None,
            Some(p) => {
                let page = SlabPage::format(geo);
                Some((p, page))
            },
        }
    }

    /// Whether the first slot of the free list passes the checks that come
    /// before it is handed out: its magic says that it is free, both
    /// redzones hold the redzone pattern, and its payload holds the poison
    /// pattern.
    pub fn check_head(&self, geo: &Geometry) -> (r: Result<(), SlabError>)
        requires
            self.wf(*geo),
            self.free_head() != 0,
        ensures
            r == self.head_verdict(*geo),
    {
        proof {
            self.lemma_wf(*geo);
            geo.lemma_bounds();
            geo.lemma_slot_index(self.free as int);
        }
        let off: usize = self.free as usize;
        let k: usize = (off - geo.page_offset() as usize) / (geo.object_size as usize);
        let front: usize = geo.front_size as usize;
        let size: usize = geo.payload_size as usize;
        let zone: usize = REDZONE_SIZE as usize;
        assert(0 < geo.slot_offset(k as int) && geo.slot_offset(k as int) + geo.object_size
            <= PAGE_SIZE);
        if self.headers[k].magic != MAGIC_EMPTY {
            return Err(SlabError::NotAllocated);
        }
        if !all_equal(&self.bytes, off + front - zone, off + front, REDZONE_FILL) || !all_equal(
            &self.bytes,
            off + front + size,
            off + front + size + zone,
            REDZONE_FILL,
        ) {
            return Err(SlabError::RedzoneCorrupted);
        }
        if !all_equal(&self.bytes, off + front, off + front + size, UNUSED_FILL) {
            return Err(SlabError::PoisonCorrupted);
        }
        Ok(())
    }

    /// What the checks on the first slot of the free list give.
    pub open spec fn head_verdict(&self, geo: Geometry) -> Result<(), SlabError> {
        let off = self.free_head() as int;
        if !redzones_intact(self.memory(), geo, off) {
            Err(SlabError::RedzoneCorrupted)
        } else if !payload_poisoned(self.memory(), geo, off) {
            Err(SlabError::PoisonCorrupted)
        } else {
            Ok(())
        }
    }

    /// What the checks on the slot at `off` give before it is released.
    pub open spec fn live_verdict(&self, geo: Geometry, off: int) -> Result<(), SlabError> {
        if !self.is_allocated(geo, off) {
            Err(SlabError::NotAllocated)
        } else if !redzones_intact(self.memory(), geo, off) {
            Err(SlabError::RedzoneCorrupted)
        } else {
            Ok(())
        }
    }

    /// Whether the slot at `off` passes the checks that come before it is
    /// released: its magic says that it is handed out, it has no successor
    /// in the free list, and both redzones hold the redzone pattern.
    pub fn check_live(&self, geo: &Geometry, off: u16) -> (r: Result<(), SlabError>)
        requires
            self.wf(*geo),
            geo.is_slot(off as int),
        ensures
            r == self.live_verdict(*geo, off as int),
    {
        proof {
            self.lemma_wf(*geo);
            geo.lemma_bounds();
            geo.lemma_slot_index(off as int);
        }
        let at: usize = off as usize;
        let k: usize = (at - geo.page_offset() as usize) / (geo.object_size as usize);
        let front: usize = geo.front_size as usize;
        let size: usize = geo.payload_size as usize;
        let zone: usize = REDZONE_SIZE as usize;
        assert(0 < geo.slot_offset(k as int) && geo.slot_offset(k as int) + geo.object_size
            <= PAGE_SIZE);
        let header = self.headers[k];
        assert(header == self.header(k as int));
        if !(header.magic == OBJECT_MAGIC && header.next == 0) {
            return Err(SlabError::NotAllocated);
        }
        if !all_equal(&self.bytes, at + front - zone, at + front, REDZONE_FILL) || !all_equal(
            &self.bytes,
            at + front + size,
            at + front + size + zone,
            REDZONE_FILL,
        ) {
            return Err(SlabError::RedzoneCorrupted);
        }
        Ok(())
    }

    /// Hands out the first slot of the free list: it leaves the list, its
    /// magic says that it is handed out, its payload is zeroed, and the
    /// count goes up by one. Returns the offset of the slot.
    pub fn take(&mut self, geo: &Geometry) -> (off: u16)
        requires
            old(self).wf(*geo),
            old(self).free_head() != 0,
        ensures
            took(*old(self), *final(self), *geo, off as int),
            old(self).intact(*geo) ==> final(self).intact(*geo),
    {
        proof {
            old(self).lemma_wf(*geo);
            geo.lemma_bounds();
            geo.lemma_slot_index(self.free as int);
        }
        let ghost chain = self.chain@;
        let off: u16 = self.free;
        let at: usize = off as usize;
        let k: usize = (at - geo.page_offset() as usize) / (geo.object_size as usize);
        let front: usize = geo.front_size as usize;
        let size: usize = geo.payload_size as usize;
        assert(0 < geo.slot_offset(k as int) && geo.slot_offset(k as int) + geo.object_size
            <= PAGE_SIZE);
        assert(chain[0] == k);
        let header = self.headers[k];
        assert(header == self.headers@[chain[0]]);
        self.free = header.next;
        self.headers[k] = ObjectHeader { magic: OBJECT_MAGIC, next: 0 };
        fill(&mut self.bytes, at + front, at + front + size, 0u8);
        self.count += 1;
        self.chain = Ghost(chain.drop_first());
        proof {
            let rest = self.chain@;
            assert forall|i: int| 0 <= i < rest.len() implies rest[i] == chain[i + 1] by {}
            assert(!rest.contains(k as int)) by {
                if rest.contains(k as int) {
                    let i = rest.index_of(k as int);
                    assert(chain[i + 1] == k);
                }
            }
            assert forall|j: int| 0 <= j < geo.slots() && j != k implies rest.contains(j)
                == chain.contains(j) by {
                if chain.contains(j) {
                    let i = chain.index_of(j);
                    assert(rest[i - 1] == j);
                }
                if rest.contains(j) {
                    let i = rest.index_of(j);
                    assert(chain[i + 1] == j);
                }
            }
            assert forall|i: int| 0 <= i < rest.len() implies (#[trigger] self.headers@[rest[i]]).magic
                == MAGIC_EMPTY && self.headers@[rest[i]].next == self.chain_offset(*geo, i + 1) by {
                assert(rest[i] == chain[i + 1]);
                assert(old(self).headers@[chain[i + 1]].magic == MAGIC_EMPTY);
            }
            assert(self.wf(*geo));
            if old(self).intact(*geo) {
                assert forall|j: int| 0 <= j < geo.slots() implies #[trigger] slot_sound(
                    self.memory(),
                    *geo,
                    geo.slot_offset(j),
                    self.free_slots().contains(j),
                ) by {
                    assert(slot_sound(
                        old(self).memory(),
                        *geo,
                        geo.slot_offset(j),
                        old(self).free_slots().contains(j),
                    ));
                    lemma_payload_write_frame(
                        *geo,
                        old(self).memory(),
                        self.memory(),
                        k as int,
                        at + front,
                        at + front + size,
                        0u8,
                        j,
                    );
                    if self.free_slots().contains(j) {
                        assert(j != k);
                        assert(chain.contains(j));
                    }
                }
            }
        }
        off
    }

    /// Takes back the slot at `off`: its payload is filled with the poison
    /// pattern, its magic says that it is free, it becomes the first slot of
    /// the free list, and the count goes down by one.
    pub fn give_back(&mut self, geo: &Geometry, off: u16)
        requires
            old(self).wf(*geo),
            old(self).is_allocated(*geo, off as int),
        ensures
            gave(*old(self), *final(self), *geo, off as int),
            old(self).intact(*geo) ==> final(self).intact(*geo),
    {
        proof {
            old(self).lemma_wf(*geo);
            geo.lemma_bounds();
            geo.lemma_slot_index(off as int);
        }
        let ghost chain = self.chain@;
        let at: usize = off as usize;
        let k: usize = (at - geo.page_offset() as usize) / (geo.object_size as usize);
        let front: usize = geo.front_size as usize;
        let size: usize = geo.payload_size as usize;
        assert(0 < geo.slot_offset(k as int) && geo.slot_offset(k as int) + geo.object_size
            <= PAGE_SIZE);
        proof {
            lemma_chain_short(chain, geo.slots(), k as int);
        }
        fill(&mut self.bytes, at + front, at + front + size, UNUSED_FILL);
        self.headers[k] = ObjectHeader { magic: MAGIC_EMPTY, next: self.free };
        self.free = off;
        self.count -= 1;
        self.chain = Ghost(seq![k as int] + chain);
        proof {
            let grown = self.chain@;
            assert(grown[0] == k);
            assert forall|i: int| 1 <= i < grown.len() implies grown[i] == chain[i - 1] by {}
            assert forall|j: int| grown.contains(j) == (j == k || chain.contains(j)) by {
                if chain.contains(j) {
                    let i = chain.index_of(j);
                    assert(grown[i + 1] == j);
                }
                if grown.contains(j) {
                    let i = grown.index_of(j);
                    if i > 0 {
                        assert(chain[i - 1] == j);
                    }
                }
            }
            assert(grown.no_duplicates()) by {
                assert forall|i: int, j: int|
                    0 <= i < grown.len() && 0 <= j < grown.len() && i != j implies grown[i]
                    != grown[j] by {
                    if i > 0 {
                        assert(chain[i - 1] == grown[i]);
                    }
                    if j > 0 {
                        assert(chain[j - 1] == grown[j]);
                    }
                }
            }
            assert forall|i: int| 0 <= i < grown.len() implies (#[trigger] self.headers@[grown[i]]).magic
                == MAGIC_EMPTY && self.headers@[grown[i]].next == self.chain_offset(*geo, i + 1) by {
                if i > 0 {
                    assert(grown[i] == chain[i - 1]);
                    assert(old(self).headers@[chain[i - 1]].magic == MAGIC_EMPTY);
                    assert(chain[i - 1] != k);
                }
            }
            assert(self.wf(*geo));
            if old(self).intact(*geo) {
                assert forall|j: int| 0 <= j < geo.slots() implies #[trigger] slot_sound(
                    self.memory(),
                    *geo,
                    geo.slot_offset(j),
                    self.free_slots().contains(j),
                ) by {
                    assert(slot_sound(
                        old(self).memory(),
                        *geo,
                        geo.slot_offset(j),
                        old(self).free_slots().contains(j),
                    ));
                    lemma_payload_write_frame(
                        *geo,
                        old(self).memory(),
                        self.memory(),
                        k as int,
                        at + front,
                        at + front + size,
                        UNUSED_FILL,
                        j,
                    );
                    if j == k {
                        assert(payload_poisoned(self.memory(), *geo, geo.slot_offset(j)));
                    } else if self.free_slots().contains(j) {
                        assert(chain.contains(j));
                    }
                }
            }
        }
    }
}

} // verus!
