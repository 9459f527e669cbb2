//! The map of physical memory: what the firmware reports, and the map of
//! usable, page-aligned ranges that the kernel makes of it.

use crate::numeric::{ceil_div, div_ceil_u64};
use vstd::prelude::*;

verus! {

/// The size of a page in bytes.
pub const PAGE_SIZE: u64 = 4096;

/// The physical address below which no dynamic memory lies.
pub const DYNMEM_START_PHYS: u64 = 0x0080_0000;

/// The virtual address at which dynamic memory starts.
pub const DYNMEM_START_VIRT: u64 = 0x0020_0000;

/// The number that the firmware gives to usable memory.
pub const USABLE: u32 = 1;

/// One range of the memory map.
#[derive(Debug, Clone, Copy, PartialEq, Eq, Structural)]
pub struct MemoryMapEntry {
    pub base: u64,
    pub size: u64,
    pub mem_type: u32,
    pub attrib: u32,
}

/// The kinds of memory that the firmware reports.
#[derive(Debug, Clone, Copy, PartialEq, Eq, Structural)]
pub enum MemoryEntryType {
    Usable,
    Reserved,
    AcpiReclaimable,
    AcpiNVS,
    BadArea,
}

impl MemoryEntryType {
    /// The number that the firmware gives to the kind.
    pub open spec fn number(self) -> u32 {
        match self {
            MemoryEntryType::Usable => 1,
            MemoryEntryType::Reserved => 2,
            MemoryEntryType::AcpiReclaimable => 3,
            MemoryEntryType::AcpiNVS => 4,
            MemoryEntryType::BadArea => 5,
        }
    }

    /// The kind with the number `value`, if there is one.
    pub fn try_from(value: u32) -> (r: Option<Self>)
        ensures
            match r {
                Some(t) => t.number() == value,
                None => value < 1 || value > 5,
            },
    {
        if value == 1 {
            Some(MemoryEntryType::Usable)
        } else if value == 2 {
            Some(MemoryEntryType::Reserved)
        } else if value == 3 {
            Some(MemoryEntryType::AcpiReclaimable)
        } else if value == 4 {
            Some(MemoryEntryType::AcpiNVS)
        } else if value == 5 {
            Some(MemoryEntryType::BadArea)
        } else {
            None
        }
    }

    /// The number that the firmware gives to the kind.
    pub fn into(self) -> (r: u32)
        ensures
            r == self.number(),
    {
        match self {
            MemoryEntryType::Usable => 1,
            MemoryEntryType::Reserved => 2,
            MemoryEntryType::AcpiReclaimable => 3,
            MemoryEntryType::AcpiNVS => 4,
            MemoryEntryType::BadArea => 5,
        }
    }
}

impl MemoryMapEntry {
    /// An entry with every field zero.
    pub fn zero() -> (r: Self)
        ensures
            r == (MemoryMapEntry { base: 0, size: 0, mem_type: 0, attrib: 0 }),
    {
        Self { attrib: 0, mem_type: 0, base: 0, size: 0 }
    }

    /// Whether the range is usable memory.
    pub open spec fn usable(self) -> bool {
        self.mem_type == USABLE
    }

    /// Whether the end of the range, and its base rounded up to a page, fit
    /// 64 bits.
    pub open spec fn in_range(self) -> bool {
        self.base + self.size <= u64::MAX && self.base + PAGE_SIZE <= u64::MAX
    }
}

/// `x` rounded up to a whole page.
pub open spec fn page_up(x: int) -> int {
    (ceil_div(x as nat, PAGE_SIZE as nat) * PAGE_SIZE) as int
}

/// `x` rounded down to a whole page.
pub open spec fn page_down(x: int) -> int {
    x / (PAGE_SIZE as int) * (PAGE_SIZE as int)
}

/// What becomes of the entry `e` where the ranges before it end at
/// `prev_end`, and where the ranges end after it. A usable range is cut down
/// to whole pages behind `prev_end`; where nothing is left of it, it is
/// marked as not usable. Other ranges stay as they are.
pub open spec fn trim(e: MemoryMapEntry, prev_end: u64) -> (MemoryMapEntry, u64) {
    if e.usable() {
        let up = page_up(e.base as int);
        let start = if prev_end > up {
            prev_end as int
        } else {
            up
        };
        let end = page_down(e.base + e.size);
        if start < end {
            (
                MemoryMapEntry {
                    base: start as u64,
                    size: (end - start) as u64,
                    mem_type: e.mem_type,
                    attrib: e.attrib,
                },
                end as u64,
            )
        } else {
            (MemoryMapEntry { base: e.base, size: e.size, mem_type: 0, attrib: e.attrib }, prev_end)
        }
    } else {
        (e, prev_end)
    }
}

/// The first `n` entries of `s`, each cut down in turn, and where the
/// ranges end after them; the ranges before the first end at `start`.
pub open spec fn trimmed(s: Seq<MemoryMapEntry>, n: nat, start: u64) -> (Seq<MemoryMapEntry>, u64)
    decreases n,
{
    if n == 0 {
        (Seq::empty(), start)
    } else {
        let (done, prev_end) = trimmed(s, (n - 1) as nat, start);
        let (e, end) = trim(s[n - 1], prev_end);
        (done.push(e), end)
    }
}

/// The usable entries among the first `n` of `s`, in their order.
pub open spec fn usable_of(s: Seq<MemoryMapEntry>, n: nat) -> Seq<MemoryMapEntry>
    decreases n,
{
    if n == 0 {
        Seq::empty()
    } else if s[n - 1].usable() {
        usable_of(s, (n - 1) as nat).push(s[n - 1])
    } else {
        usable_of(s, (n - 1) as nat)
    }
}

/// Whether the first `n` entries of `s` are in the order of their bases.
pub open spec fn ordered_by_base(s: Seq<MemoryMapEntry>, n: nat) -> bool {
    forall|i: int, j: int| 0 <= i <= j < n ==> s[i].base <= s[j].base
}

/// Sorts the first `len` entries by their base, with
/// `sort_unstable_by_key` of the standard library. Its documentation says
/// that the slice ends up sorted by the key and holds the same items; the
/// order of entries with equal bases is left open, and so it is here. The
/// entries from `len` on are not part of the slice that is sorted.
#[verifier::external_body]
fn sort_by_base(entries: &mut Vec<MemoryMapEntry>, len: usize)
    requires
        len <= old(entries)@.len(),
    ensures
        final(entries)@.len() == old(entries)@.len(),
        final(entries)@.subrange(0, len as int).to_multiset() == old(entries)@.subrange(
            0,
            len as int,
        ).to_multiset(),
        ordered_by_base(final(entries)@, len as nat),
        forall|i: int| len <= i < old(entries)@.len() ==> final(entries)@[i] == old(entries)@[i],
{
    entries[..len].sort_unstable_by_key(|x| x.base);
}

/// Moves the usable entries among the first `len` to the front, in their
/// order, and returns their number.
pub fn slice_remove(slice: &mut Vec<MemoryMapEntry>, len: usize) -> (first: usize)
    requires
        len <= old(slice)@.len(),
    ensures
        final(slice)@.len() == old(slice)@.len(),
        first <= len,
        final(slice)@.subrange(0, first as int) == usable_of(old(slice)@, len as nat),
        forall|i: int| len <= i < old(slice)@.len() ==> final(slice)@[i] == old(slice)@[i],
{
    let ghost before = slice@;
    let mut first: usize = 0;
    let mut p: usize = 0;
    while p < len
        invariant
            first <= p <= len <= slice@.len(),
            slice@.len() == before.len(),
            slice@.subrange(0, first as int) == usable_of(before, p as nat),
            forall|i: int| p <= i < before.len() ==> slice@[i] == before[i],
        decreases len - p,
    {
        let entry = slice[p];
        if entry.mem_type == USABLE {
            let ghost kept = slice@.subrange(0, first as int);
            let other = slice[first];
            slice[first] = entry;
            slice[p] = other;
            proof {
                assert(slice@.subrange(0, first + 1) =~= kept.push(entry));
            }
            first += 1;
        } else {
            proof {
                assert(usable_of(before, (p + 1) as nat) == usable_of(before, p as nat));
            }
        }
        p += 1;
    }
    first
}

/// Every entry of one sequence is an entry of another that holds the same
/// items.
proof fn lemma_same_items(a: Seq<MemoryMapEntry>, b: Seq<MemoryMapEntry>, i: int) -> (j: int)
    requires
        a.to_multiset() == b.to_multiset(),
        0 <= i < a.len(),
    ensures
        0 <= j < b.len(),
        b[j] == a[i],
{
    a.to_multiset_ensures();
    b.to_multiset_ensures();
    assert(a.contains(a[i]));
    assert(b.to_multiset().count(a[i]) > 0);
    assert(b.contains(a[i]));
    b.index_of(a[i])
}

/// The map of dynamic memory that `e820_entries` gives: the entries are put
/// in the order of their bases, each usable range is cut down to whole pages
/// behind the ranges before it and behind the start of dynamic memory, and
/// the usable ranges of which something is left are written to the front of
/// `map_buffer`. Returns their number.
pub fn create_dynmem_map(e820_entries: &Vec<MemoryMapEntry>, map_buffer: &mut Vec<MemoryMapEntry>) -> (len: usize)
    requires
        e820_entries@.len() <= old(map_buffer)@.len(),
        forall|i: int| 0 <= i < e820_entries@.len() ==> (#[trigger] e820_entries@[i]).in_range(),
    ensures
        final(map_buffer)@.len() == old(map_buffer)@.len(),
        len <= e820_entries@.len(),
        exists|sorted: Seq<MemoryMapEntry>|
            {
                &&& sorted.len() == e820_entries@.len()
                &&& sorted.to_multiset() == e820_entries@.to_multiset()
                &&& ordered_by_base(sorted, sorted.len())
                &&& #[trigger] usable_of(
                    trimmed(sorted, sorted.len(), DYNMEM_START_PHYS).0,
                    sorted.len(),
                ) == final(map_buffer)@.subrange(0, len as int)
            },
        forall|i: int|
            e820_entries@.len() <= i < old(map_buffer)@.len() ==> final(map_buffer)@[i]
                == old(map_buffer)@[i],
{
    let e820_len: usize = e820_entries.len();
    let mut i: usize = 0;
    while i < e820_len
        invariant
            i <= e820_len,
            e820_len == e820_entries@.len(),
            e820_len <= map_buffer@.len(),
            map_buffer@.len() == old(map_buffer)@.len(),
            map_buffer@.subrange(0, i as int) == e820_entries@.subrange(0, i as int),
            forall|k: int| i <= k < map_buffer@.len() ==> map_buffer@[k] == old(map_buffer)@[k],
        decreases e820_len - i,
    {
        let ghost copied = map_buffer@.subrange(0, i as int);
        map_buffer[i] = e820_entries[i];
        proof {
            assert(map_buffer@.subrange(0, i + 1) =~= copied.push(e820_entries@[i as int]));
            assert(e820_entries@.subrange(0, i + 1) =~= e820_entries@.subrange(0, i as int).push(
                e820_entries@[i as int],
            ));
        }
        i += 1;
    }
    proof {
        assert(e820_entries@.subrange(0, e820_len as int) =~= e820_entries@);
    }
    sort_by_base(map_buffer, e820_len);
    let ghost sorted = map_buffer@.subrange(0, e820_len as int);
    proof {
        assert forall|k: int| 0 <= k < sorted.len() implies (#[trigger] sorted[k]).in_range() by {
            let j = lemma_same_items(sorted, e820_entries@, k);
            assert(e820_entries@[j].in_range());
        }
        assert(ordered_by_base(sorted, sorted.len()));
    }
    let mut prev_end: u64 = DYNMEM_START_PHYS;
    let mut k: usize = 0;
    while k < e820_len
        invariant
            k <= e820_len,
            e820_len == sorted.len(),
            e820_len <= map_buffer@.len(),
            map_buffer@.len() == old(map_buffer)@.len(),
            forall|m: int| 0 <= m < sorted.len() ==> (#[trigger] sorted[m]).in_range(),
            map_buffer@.subrange(0, k as int) == trimmed(sorted, k as nat, DYNMEM_START_PHYS).0,
            prev_end == trimmed(sorted, k as nat, DYNMEM_START_PHYS).1,
            forall|m: int| k <= m < e820_len ==> map_buffer@[m] == sorted[m],
            forall|m: int|
                e820_len <= m < map_buffer@.len() ==> map_buffer@[m] == old(map_buffer)@[m],
        decreases e820_len - k,
    {
        let ghost done = map_buffer@.subrange(0, k as int);
        let mut entry = map_buffer[k];
        proof {
            assert(entry == sorted[k as int]);
            assert(entry.in_range());
        }
        if entry.mem_type == USABLE {
            let start = entry.base;
            let end = entry.base + entry.size;
            let up = div_ceil_u64(start, PAGE_SIZE) * PAGE_SIZE;
            let align_start = if prev_end > up {
                prev_end
            } else {
                up
            };
            let align_end = end / PAGE_SIZE * PAGE_SIZE;
            if align_start < align_end {
                entry.base = align_start;
                entry.size = align_end - align_start;
                prev_end = align_end;
            } else {
                entry.mem_type = 0;
            }
        }
        map_buffer[k] = entry;
        proof {
            assert(map_buffer@.subrange(0, k + 1) =~= done.push(entry));
        }
        k += 1;
    }
    let ghost full = map_buffer@;
    let ghost cut = map_buffer@.subrange(0, e820_len as int);
    let len = slice_remove(map_buffer, e820_len);
    proof {
        lemma_usable_prefix(full, cut, e820_len as nat);
        assert(cut == trimmed(sorted, sorted.len(), DYNMEM_START_PHYS).0);
        assert(usable_of(trimmed(sorted, sorted.len(), DYNMEM_START_PHYS).0, sorted.len())
            == map_buffer@.subrange(0, len as int));
    }
    len
}

/// The usable entries among the first `n` depend on those entries alone.
proof fn lemma_usable_prefix(a: Seq<MemoryMapEntry>, b: Seq<MemoryMapEntry>, n: nat)
    requires
        n <= a.len(),
        n <= b.len(),
    ensures
        (forall|i: int| 0 <= i < n ==> a[i] == b[i]) ==> usable_of(a, n) == usable_of(b, n),
    decreases n,
{
    if n > 0 {
        lemma_usable_prefix(a, b, (n - 1) as nat);
    }
}

/// The physical address of the byte at the virtual address `virt`, where
/// dynamic memory starts at `start_virt` and the ranges of the map lie one
/// after another there. Nothing where `virt` lies before the start or
/// behind the last range.
pub fn virt_to_phys_dynmem(virt: u64, map: &Vec<MemoryMapEntry>, start_virt: u64) -> (r: Option<
    u64,
>)
    requires
        forall|i: int| 0 <= i < map@.len() ==> (#[trigger] map@[i]).in_range(),
        total_size(map@, map@.len() as nat) <= u64::MAX,
    ensures
        match r {
            Some(phys) => virt >= start_virt && exists|i: int|
                {
                    &&& 0 <= i < map@.len()
                    &&& total_size(map@, i as nat) <= virt - start_virt < #[trigger] total_size(
                        map@,
                        (i + 1) as nat,
                    )
                    &&& phys == map@[i].base + (virt - start_virt - total_size(map@, i as nat))
                },
            None => virt < start_virt || virt - start_virt >= total_size(
                map@,
                map@.len() as nat,
            ),
        },
{
    if virt < start_virt {
        return None;
    }
    let offset = virt - start_virt;
    let mut sum: u64 = 0;
    let mut i: usize = 0;
    while i < map.len()
        invariant
            i <= map@.len(),
            sum == total_size(map@, i as nat),
            sum <= offset,
            offset == virt - start_virt,
            total_size(map@, map@.len() as nat) <= u64::MAX,
            forall|k: int| 0 <= k < map@.len() ==> (#[trigger] map@[k]).in_range(),
        decreases map@.len() - i,
    {
        proof {
            lemma_total_size_grows(map@, (i + 1) as nat, map@.len() as nat);
        }
        let oldsum = sum;
        sum += map[i].size;
        if offset < sum {
            assert(map@[i as int].in_range());
            return Some(map[i].base + (offset - oldsum));
        }
        i += 1;
    }
    None
}

/// The virtual address of the byte at the physical address `phys`: the
/// first range of the map that holds it decides. Nothing where no range
/// holds it, or where the address does not fit 64 bits.
pub fn phys_to_virt_dynmem(phys: u64, map: &Vec<MemoryMapEntry>, start_virt: u64) -> (r: Option<
    u64,
>)
    requires
        forall|i: int| 0 <= i < map@.len() ==> (#[trigger] map@[i]).in_range(),
        total_size(map@, map@.len() as nat) <= u64::MAX,
    ensures
        match r {
            Some(virt) => exists|i: int|
                {
                    &&& 0 <= i < map@.len()
                    &&& #[trigger] holds_phys(map@, i, phys)
                    &&& forall|k: int| 0 <= k < i ==> !holds_phys(map@, k, phys)
                    &&& virt == start_virt + total_size(map@, i as nat) + (phys - map@[i].base)
                },
            None => {
                ||| forall|i: int| 0 <= i < map@.len() ==> !holds_phys(map@, i, phys)
                ||| exists|i: int|
                    {
                        &&& 0 <= i < map@.len()
                        &&& #[trigger] holds_phys(map@, i, phys)
                        &&& forall|k: int| 0 <= k < i ==> !holds_phys(map@, k, phys)
                        &&& start_virt + total_size(map@, i as nat) + (phys - map@[i].base)
                            > u64::MAX
                    }
            },
        },
{
    let mut sum: u64 = 0;
    let mut i: usize = 0;
    while i < map.len()
        invariant
            i <= map@.len(),
            sum == total_size(map@, i as nat),
            total_size(map@, map@.len() as nat) <= u64::MAX,
            forall|k: int| 0 <= k < map@.len() ==> (#[trigger] map@[k]).in_range(),
            forall|k: int| 0 <= k < i ==> !holds_phys(map@, k, phys),
        decreases map@.len() - i,
    {
        proof {
            lemma_total_size_grows(map@, (i + 1) as nat, map@.len() as nat);
            assert(map@[i as int].in_range());
        }
        let entry = map[i];
        if entry.base <= phys && phys < entry.base + entry.size {
            assert(holds_phys(map@, i as int, phys));
            let inner = sum + (phys - entry.base);
            if inner > u64::MAX - start_virt {
                return None;
            }
            return Some(start_virt + inner);
        }
        sum += entry.size;
        i += 1;
    }
    None
}

/// Whether the range `i` of the map holds the physical address `phys`.
pub open spec fn holds_phys(map: Seq<MemoryMapEntry>, i: int, phys: u64) -> bool {
    map[i].base <= phys < map[i].base + map[i].size
}

/// The bytes of the first `n` ranges of the map.
pub open spec fn total_size(map: Seq<MemoryMapEntry>, n: nat) -> nat
    decreases n,
{
    if n == 0 {
        0
    } else {
        total_size(map, (n - 1) as nat) + map[n - 1].size as nat
    }
}

/// More ranges have at least as many bytes.
proof fn lemma_total_size_grows(map: Seq<MemoryMapEntry>, a: nat, b: nat)
    requires
        a <= b,
    ensures
        total_size(map, a) <= total_size(map, b),
    decreases b - a,
{
    if a < b {
        lemma_total_size_grows(map, a, (b - 1) as nat);
    }
}

} // verus!
