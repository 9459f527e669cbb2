//! The geometry of a slab page: where the slots start, how large they are,
//! and where the payload lies inside a slot.

use vstd::prelude::*;

verus! {

/// The size of a page in bytes.
pub const PAGE_SIZE: usize = 4096;

/// The bytes of each of the two redzones that flank a payload.
pub const REDZONE_SIZE: u16 = 16;

/// The bytes of the header of a slot: its magic and the offset of the next
/// free slot.
pub const SLOT_HEADER_SIZE: u16 = 4;

/// The alignment of the header of a slot.
pub const SLOT_HEADER_ALIGN: u16 = 2;

/// The bytes of the header of a page: two links, the offset of the first
/// free slot, and the number of slots handed out.
pub const PAGE_HEADER_SIZE: u16 = 24;

/// Whether `a` is a power of two.
pub open spec fn is_power_of_two(a: u16) -> bool {
    a != 0 && a & ((a - 1) as u16) == 0
}

/// `x` rounded up to a multiple of `a`.
pub open spec fn align_up(x: int, a: int) -> int {
    if a <= 0 {
        x
    } else {
        ((x + a - 1) / a) * a
    }
}

proof fn lemma_align_bits(x: u16, a: u16)
    by (bit_vector)
    requires
        a != 0,
        a & ((a - 1) as u16) == 0,
        (x as u32) + (a as u32) <= 0x10000u32,
    ensures
        ((x + ((a - 1) as u16)) as u16) & !((a - 1) as u16) == (((x + ((a - 1) as u16)) as u16)
            / a) * a,
        ((x + ((a - 1) as u16)) as u16) == x + a - 1,
        (((x + ((a - 1) as u16)) as u16) / a) * a <= 0xffff,
{
}

/// `x` rounded up to a multiple of the power of two `align`.
pub fn align_ceil(x: u16, align: u16) -> (r: u16)
    requires
        is_power_of_two(align),
        x + align - 1 <= u16::MAX,
    ensures
        r == align_up(x as int, align as int),
        r % align == 0,
        x <= r < x + align,
{
    proof {
        lemma_align_bits(x, align);
        let q = (x + align - 1) / (align as int);
        vstd::arithmetic::div_mod::lemma_fundamental_div_mod(x + align - 1, align as int);
        vstd::arithmetic::div_mod::lemma_mod_bound(x + align - 1, align as int);
        assert(q * align == align * q) by (nonlinear_arith);
        vstd::arithmetic::div_mod::lemma_mod_multiples_basic(q, align as int);
    }
    let mask: u16 = align - 1;
    (x + mask) & !mask
}

} // verus!

verus! {

/// The alignment of a slot: that of the payload, but at least that of the
/// slot header.
pub open spec fn slot_align_of(payload_align: u16) -> int {
    if payload_align > SLOT_HEADER_ALIGN {
        payload_align as int
    } else {
        SLOT_HEADER_ALIGN as int
    }
}

/// The distance from the start of a slot to its payload: the header and the
/// left redzone, rounded up to the alignment of the slot.
pub open spec fn front_size_of(payload_align: u16) -> int {
    align_up(SLOT_HEADER_SIZE + REDZONE_SIZE, slot_align_of(payload_align))
}

/// The size of a slot: everything up to the end of the right redzone,
/// rounded up to the alignment of the slot.
pub open spec fn object_size_of(payload_size: u16, payload_align: u16) -> int {
    align_up(
        front_size_of(payload_align) + payload_size + REDZONE_SIZE,
        slot_align_of(payload_align),
    )
}

/// The offset of the first slot in a page: the page header, rounded up to
/// the alignment of the slot.
pub open spec fn page_offset_of(payload_align: u16) -> int {
    align_up(PAGE_HEADER_SIZE as int, slot_align_of(payload_align))
}

/// Whether slots for payloads of `payload_size` bytes aligned to
/// `payload_align` can be laid out: the alignment is a power of two of at
/// most a quarter of a page, the size is positive and below half a page, and
/// a slot takes at most half a page.
pub open spec fn valid_params(payload_size: u16, payload_align: u16) -> bool {
    &&& is_power_of_two(payload_align)
    &&& payload_align <= PAGE_SIZE / 4
    &&& 0 < payload_size < PAGE_SIZE / 2
    &&& object_size_of(payload_size, payload_align) <= PAGE_SIZE / 2
}

/// The numbers by which a slab page is laid out.
#[derive(Debug, Clone, Copy)]
pub struct Geometry {
    pub payload_size: u16,
    pub payload_align: u16,
    pub front_size: u16,
    pub object_size: u16,
}

/// The slot header and the alignments that go with it.
#[derive(Debug, Clone, Copy)]
pub struct ObjectHeader {
    pub magic: u16,
    pub next: u16,
}

impl ObjectHeader {
    /// The alignment of a slot whose payload is aligned to `payload_align`.
    pub fn align(payload_align: u16) -> (r: u16)
        ensures
            r == slot_align_of(payload_align),
    {
        if payload_align > SLOT_HEADER_ALIGN {
            payload_align
        } else {
            SLOT_HEADER_ALIGN
        }
    }
}

proof fn lemma_align_power(a: u16)
    by (bit_vector)
    requires
        a != 0,
        a & ((a - 1) as u16) == 0,
        a <= 1024,
    ensures
        a == 1 || a == 2 || a == 4 || a == 8 || a == 16 || a == 32 || a == 64 || a == 128 || a
            == 256 || a == 512 || a == 1024,
        2u16 & ((2u16 - 1) as u16) == 0,
{
}

/// Rounding up to a multiple of `a` gives the least multiple that is not
/// below `x`.
pub proof fn lemma_align_up(x: int, a: int)
    requires
        a > 0,
        x >= 0,
    ensures
        x <= align_up(x, a) < x + a,
        align_up(x, a) % a == 0,
{
    let q = (x + a - 1) / a;
    vstd::arithmetic::div_mod::lemma_fundamental_div_mod(x + a - 1, a);
    vstd::arithmetic::div_mod::lemma_mod_bound(x + a - 1, a);
    assert(q * a == a * q) by (nonlinear_arith);
    vstd::arithmetic::div_mod::lemma_mod_multiples_basic(q, a);
}

/// A multiple of a power of two is a multiple of every power of two that is
/// not larger.
proof fn lemma_multiple_of_smaller(x: u16, a: u16, b: u16)
    by (bit_vector)
    requires
        a != 0,
        a & ((a - 1) as u16) == 0,
        b != 0,
        b & ((b - 1) as u16) == 0,
        b <= a,
        x % a == 0,
    ensures
        x % b == 0,
{
}

impl Geometry {
    /// The numbers are those that the payload's size and alignment give, and
    /// these are valid.
    pub open spec fn wf(&self) -> bool {
        &&& valid_params(self.payload_size, self.payload_align)
        &&& self.front_size == front_size_of(self.payload_align)
        &&& self.object_size == object_size_of(self.payload_size, self.payload_align)
    }

    /// The offset of the first slot in a page.
    pub open spec fn first(&self) -> int {
        page_offset_of(self.payload_align)
    }

    /// The number of slots in a page.
    pub open spec fn slots(&self) -> int {
        (PAGE_SIZE - self.first()) / (self.object_size as int)
    }

    /// The offset in a page of the slot with index `k`.
    pub open spec fn slot_offset(&self, k: int) -> int {
        self.first() + k * self.object_size
    }

    /// Whether `off` is the offset of a slot in a page.
    pub open spec fn is_slot(&self, off: int) -> bool {
        &&& self.first() <= off
        &&& (off - self.first()) % (self.object_size as int) == 0
        &&& (off - self.first()) / (self.object_size as int) < self.slots()
    }

    /// The index of the slot at offset `off`.
    pub open spec fn slot_index(&self, off: int) -> int {
        (off - self.first()) / (self.object_size as int)
    }

    /// Whether the byte at offset `off` of a page belongs to a header: the
    /// page header at the start of the page, or the header at the start of
    /// a slot.
    pub open spec fn in_header(&self, off: int) -> bool {
        ||| 0 <= off < PAGE_HEADER_SIZE
        ||| {
            &&& self.first() <= off
            &&& (off - self.first()) / (self.object_size as int) < self.slots()
            &&& (off - self.first()) % (self.object_size as int) < SLOT_HEADER_SIZE
        }
    }

    /// Of the bytes of a slot, the first four are its header and no other.
    pub proof fn lemma_slot_bytes(&self, k: int, d: int)
        requires
            self.wf(),
            0 <= k < self.slots(),
            0 <= d < self.object_size,
        ensures
            self.in_header(self.slot_offset(k) + d) <==> d < SLOT_HEADER_SIZE,
            self.slot_offset(k) + d < PAGE_SIZE,
    {
        self.lemma_bounds();
        let o = self.object_size as int;
        assert(0 < self.slot_offset(k) && self.slot_offset(k) + o <= PAGE_SIZE);
        vstd::arithmetic::div_mod::lemma_fundamental_div_mod_converse(k * o + d, o, k, d);
    }

    /// Whether the byte at offset `off` of a page belongs to a header.
    pub fn is_header(&self, off: usize) -> (r: bool)
        requires
            self.wf(),
            off < PAGE_SIZE,
        ensures
            r == self.in_header(off as int),
    {
        proof {
            self.lemma_bounds();
        }
        if off < PAGE_HEADER_SIZE as usize {
            return true;
        }
        let first = self.page_offset() as usize;
        if off < first {
            return false;
        }
        let size = self.object_size as usize;
        (off - first) / size < self.slots_per_page() as usize && (off - first) % size
            < SLOT_HEADER_SIZE as usize
    }

    /// What the numbers of a valid geometry add up to: the parts of a slot
    /// lie inside it one after another, and the slots lie inside the page.
    pub proof fn lemma_bounds(&self)
        requires
            self.wf(),
        ensures
            SLOT_HEADER_SIZE + REDZONE_SIZE <= self.front_size <= 1024,
            self.front_size % self.payload_align == 0,
            self.front_size + self.payload_size + REDZONE_SIZE <= self.object_size <= 2048,
            self.object_size % 2 == 0,
            PAGE_HEADER_SIZE <= self.first() <= 1024,
            self.first() % (self.payload_align as int) == 0,
            self.object_size % self.payload_align == 0,
            1 <= self.slots() <= 200,
            forall|k: int|
                0 <= k < self.slots() ==> 0 < #[trigger] self.slot_offset(k) && self.slot_offset(k)
                    + self.object_size <= PAGE_SIZE,
    {
        lemma_align_power(self.payload_align);
        let a = slot_align_of(self.payload_align);
        let o = self.object_size as int;
        let n = self.slots();
        lemma_align_up(SLOT_HEADER_SIZE + REDZONE_SIZE, a);
        lemma_align_up(self.front_size + self.payload_size + REDZONE_SIZE, a);
        lemma_align_up(PAGE_HEADER_SIZE as int, a);
        let al: u16 = if self.payload_align > 2 {
            self.payload_align
        } else {
            2u16
        };
        lemma_multiple_of_smaller(self.front_size, al, self.payload_align);
        lemma_multiple_of_smaller(self.object_size, al, self.payload_align);
        lemma_multiple_of_smaller(self.first() as u16, al, self.payload_align);
        lemma_multiple_of_smaller(self.object_size, al, 2);
        vstd::arithmetic::div_mod::lemma_fundamental_div_mod(PAGE_SIZE - self.first(), o);
        vstd::arithmetic::div_mod::lemma_mod_bound(PAGE_SIZE - self.first(), o);
        assert(o * n == n * o) by (nonlinear_arith);
        assert(n * o <= PAGE_SIZE - self.first());
        assert(n >= 1) by (nonlinear_arith)
            requires
                n * o + o > 3072,
                0 < o <= 2048,
        ;
        assert(n <= 200) by (nonlinear_arith)
            requires
                n * o <= 4096,
                o >= 36,
        ;
        assert forall|k: int| 0 <= k < self.slots() implies 0 < #[trigger] self.slot_offset(k)
            && self.slot_offset(k) + self.object_size <= PAGE_SIZE by {
            assert(k * o + o <= n * o) by (nonlinear_arith)
                requires
                    0 <= k < n,
                    o > 0,
            ;
            assert(k * o >= 0) by (nonlinear_arith)
                requires
                    0 <= k,
                    o > 0,
            ;
        }
    }

    /// The offsets of the slots are slots, each with its own index.
    pub proof fn lemma_slot_offset(&self, k: int)
        requires
            self.wf(),
            0 <= k < self.slots(),
        ensures
            self.is_slot(self.slot_offset(k)),
            self.slot_index(self.slot_offset(k)) == k,
    {
        self.lemma_bounds();
        let o = self.object_size as int;
        vstd::arithmetic::div_mod::lemma_fundamental_div_mod_converse(k * o, o, k, 0);
    }

    /// A slot's offset is the offset of the slot with its index.
    pub proof fn lemma_slot_index(&self, off: int)
        requires
            self.wf(),
            self.is_slot(off),
        ensures
            0 <= self.slot_index(off) < self.slots(),
            self.slot_offset(self.slot_index(off)) == off,
    {
        self.lemma_bounds();
        let o = self.object_size as int;
        vstd::arithmetic::div_mod::lemma_fundamental_div_mod(off - self.first(), o);
        assert(o * ((off - self.first()) / o) == ((off - self.first()) / o) * o)
            by (nonlinear_arith);
        vstd::arithmetic::div_mod::lemma_div_pos_is_pos(off - self.first(), o);
    }

    /// The payload of every slot is aligned as asked for, relative to the
    /// start of the page.
    pub proof fn lemma_payload_aligned(&self, off: int)
        requires
            self.wf(),
            self.is_slot(off),
        ensures
            (off + self.front_size) % (self.payload_align as int) == 0,
            PAGE_SIZE % (self.payload_align as usize) == 0,
    {
        self.lemma_bounds();
        self.lemma_slot_index(off);
        lemma_align_power(self.payload_align);
        let a = self.payload_align as int;
        let o = self.object_size as int;
        let k = self.slot_index(off);
        let f = self.front_size as int;
        vstd::arithmetic::div_mod::lemma_fundamental_div_mod(o, a);
        vstd::arithmetic::div_mod::lemma_fundamental_div_mod(self.first(), a);
        vstd::arithmetic::div_mod::lemma_fundamental_div_mod(f, a);
        let total = (o / a) * k + self.first() / a + f / a;
        assert(off + f == a * total) by (nonlinear_arith)
            requires
                off == self.first() + k * o,
                o == a * (o / a),
                self.first() == a * (self.first() / a),
                f == a * (f / a),
                total == (o / a) * k + self.first() / a + f / a,
        ;
        assert(a * total == total * a) by (nonlinear_arith);
        vstd::arithmetic::div_mod::lemma_mod_multiples_basic(total, a);
    }

    /// Whether slots for payloads of `payload_size` bytes aligned to
    /// `payload_align` can be laid out.
    pub fn accepts(payload_size: u16, payload_align: u16) -> (ok: bool)
        ensures
            ok == valid_params(payload_size, payload_align),
    {
        if payload_align == 0 || payload_align & (payload_align - 1) != 0 {
            return false;
        }
        if payload_align > (PAGE_SIZE as u16) / 4 {
            return false;
        }
        if payload_size == 0 || payload_size >= (PAGE_SIZE as u16) / 2 {
            return false;
        }
        let object_align = ObjectHeader::align(payload_align);
        proof {
            lemma_align_power(payload_align);
        }
        let front_size = align_ceil(SLOT_HEADER_SIZE + REDZONE_SIZE, object_align);
        let object_size = align_ceil(front_size + payload_size + REDZONE_SIZE, object_align);
        object_size <= (PAGE_SIZE as u16) / 2
    }

    /// The geometry for payloads of `payload_size` bytes aligned to
    /// `payload_align`.
    pub fn new(payload_size: u16, payload_align: u16) -> (r: Self)
        requires
            valid_params(payload_size, payload_align),
        ensures
            r.wf(),
            r.payload_size == payload_size,
            r.payload_align == payload_align,
    {
        let object_align = ObjectHeader::align(payload_align);
        proof {
            lemma_align_power(payload_align);
        }
        let front_size = align_ceil(SLOT_HEADER_SIZE + REDZONE_SIZE, object_align);
        let object_size = align_ceil(front_size + payload_size + REDZONE_SIZE, object_align);
        Geometry { payload_size, payload_align, front_size, object_size }
    }

    /// The offset of the first slot in a page.
    pub fn page_offset(&self) -> (r: u16)
        requires
            self.wf(),
        ensures
            r == self.first(),
    {
        proof {
            lemma_align_power(self.payload_align);
        }
        align_ceil(PAGE_HEADER_SIZE, ObjectHeader::align(self.payload_align))
    }

    /// The number of slots in a page.
    pub fn slots_per_page(&self) -> (r: u16)
        requires
            self.wf(),
        ensures
            r == self.slots(),
    {
        proof {
            self.lemma_bounds();
        }
        ((PAGE_SIZE as u16) - self.page_offset()) / self.object_size
    }
}

} // verus!
