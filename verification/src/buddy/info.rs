//! The layout of a buddy-managed region: where the metadata ends, where the
//! data begins, how many units and levels there are.

use crate::buddy::layout::{
    lemma_metadata_leaves_data, lemma_metadata_monotone, bitmaps_total, lemma_bitmaps_total_bound, lemma_level_count_bound, level_count,
    metadata_bytes, round_up_unit, unit_count, LEVEL_ENTRY_SIZE, UNIT_SIZE,
};
use crate::numeric::div_ceil;
use vstd::prelude::*;

verus! {

/// What a `BuddyBlockInfo` says, as numbers.
pub struct InfoView {
    pub raw_addr: nat,
    pub total_len: nat,
    pub metadata_len: nat,
    pub data_offset: nat,
    pub units: nat,
    pub levels: nat,
}

/// The layout of no region at all: every number is zero.
pub open spec fn empty_layout() -> InfoView {
    InfoView { raw_addr: 0, total_len: 0, metadata_len: 0, data_offset: 0, units: 0, levels: 0 }
}

/// The offset from the start of a region of `total_len` bytes to its data:
/// the metadata of the whole region, rounded up to whole units.
pub open spec fn data_offset_for(total_len: nat) -> nat {
    round_up_unit(metadata_bytes(total_len))
}

/// The layout of the region of `total_len` bytes at `raw_addr`: the units,
/// levels and metadata are those of the data that follows the reserved units.
pub open spec fn layout_of(raw_addr: nat, total_len: nat) -> InfoView {
    let data_offset = data_offset_for(total_len);
    let data_len = (total_len - data_offset) as nat;
    InfoView {
        raw_addr,
        total_len,
        metadata_len: metadata_bytes(data_len),
        data_offset,
        units: unit_count(data_len),
        levels: level_count(unit_count(data_len)),
    }
}

/// Whether a buddy allocator can be laid out over `total_len` bytes at
/// `raw_addr`: the region is longer than a unit, the metadata of its data
/// fits in the units that are set aside before the data, and the addresses
/// of the region, with one unit to spare, fit a machine word.
pub open spec fn constructible(raw_addr: nat, total_len: nat) -> bool {
    let data_offset = data_offset_for(total_len);
    let data_len = (total_len - data_offset) as nat;
    &&& total_len > UNIT_SIZE
    &&& data_offset < total_len
    &&& metadata_bytes(data_len) <= data_offset
    &&& raw_addr + total_len + UNIT_SIZE <= usize::MAX
}

/// The metadata always fits: every region that is longer than a unit and
/// whose addresses fit a machine word can be laid out.
pub proof fn lemma_constructible(raw_addr: nat, total_len: nat)
    ensures
        constructible(raw_addr, total_len) <==> (total_len > UNIT_SIZE && raw_addr + total_len
            + UNIT_SIZE <= usize::MAX),
{
    if total_len > UNIT_SIZE {
        lemma_metadata_leaves_data(total_len);
        let data_offset = data_offset_for(total_len);
        lemma_metadata_monotone((total_len - data_offset) as nat, total_len);
    }
}

/// Rounding up by dividing with a ceiling counts the units.
pub proof fn lemma_ceil_div_units(x: nat)
    ensures
        crate::numeric::ceil_div(x, UNIT_SIZE as nat) == unit_count(x),
{
}

/// The offset to the data of a region whose metadata takes `whole` bytes.
fn offset_after(whole: usize) -> (r: usize)
    requires
        whole <= usize::MAX - UNIT_SIZE,
    ensures
        r == round_up_unit(whole as nat),
        whole <= r < whole + UNIT_SIZE,
{
    proof {
        lemma_ceil_div_units(whole as nat);
    }
    div_ceil(whole, UNIT_SIZE) * UNIT_SIZE
}

/// The layout of a buddy-managed region.
#[derive(Debug, Clone, Copy)]
pub struct BuddyBlockInfo {
    raw_addr: usize,
    total_len: usize,
    metadata_len: usize,
    data_offset: usize,
    units: usize,
    levels: u32,
}

impl View for BuddyBlockInfo {
    type V = InfoView;

    closed spec fn view(&self) -> InfoView {
        InfoView {
            raw_addr: self.raw_addr as nat,
            total_len: self.total_len as nat,
            metadata_len: self.metadata_len as nat,
            data_offset: self.data_offset as nat,
            units: self.units as nat,
            levels: self.levels as nat,
        }
    }
}

/// The units, levels and metadata bytes of a region of `len` bytes.
fn measure(len: usize) -> (r: (usize, u32, usize))
    requires
        len > 0,
    ensures
        r.0 == unit_count(len as nat),
        r.1 == level_count(r.0 as nat),
        r.2 == metadata_bytes(len as nat),
        r.0 >= 1,
        r.1 >= 1,
        r.2 <= 17 * 64 + r.0 / 4,
{
    let mut levels: u32 = 0;
    let mut bits: usize = 0;
    let units: usize = (len - 1) / UNIT_SIZE + 1;
    let mut block_count: usize = units;
    proof {
        lemma_level_count_bound(units as nat);
        lemma_bitmaps_total_bound(units as nat);
    }
    loop
        invariant_except_break
            levels + level_count(block_count as nat) == level_count(units as nat),
            bits + bitmaps_total(block_count as nat) == bitmaps_total(units as nat),
        invariant
            1 <= block_count <= units,
            level_count(units as nat) <= 64,
            8 * bitmaps_total(units as nat) <= 8 * level_count(units as nat) + 2 * units,
        ensures
            levels == level_count(units as nat),
            bits == bitmaps_total(units as nat),
        decreases block_count,
    {
        proof {
            lemma_bitmaps_total_bound(block_count as nat);
        }
        levels += 1;
        bits += (block_count - 1) / 8 + 1;
        if block_count == 1 {
            break ;
        }
        block_count /= 2;
    }
    let metadata_len: usize = (levels as usize) * LEVEL_ENTRY_SIZE + bits;
    (units, levels, metadata_len)
}

impl BuddyBlockInfo {
    /// The layout of no region at all: every number is zero.
    pub fn empty() -> (r: Self)
        ensures
            r@ == empty_layout(),
    {
        Self { raw_addr: 0, total_len: 0, metadata_len: 0, data_offset: 0, units: 0, levels: 0 }
    }

    /// The address at which the region starts.
    pub fn raw_addr(&self) -> (r: usize)
        ensures
            r == self@.raw_addr,
    {
        self.raw_addr
    }

    /// The length of the region in bytes, metadata included.
    pub fn total_len(&self) -> (r: usize)
        ensures
            r == self@.total_len,
    {
        self.total_len
    }

    /// The bytes of metadata: level descriptors and bitmaps.
    pub fn metadata_len(&self) -> (r: usize)
        ensures
            r == self@.metadata_len,
    {
        self.metadata_len
    }

    /// The offset from the start of the region to its data.
    pub fn data_offset(&self) -> (r: usize)
        ensures
            r == self@.data_offset,
    {
        self.data_offset
    }

    /// The number of units of data.
    pub fn units(&self) -> (r: usize)
        ensures
            r == self@.units,
    {
        self.units
    }

    /// The number of levels.
    pub fn levels(&self) -> (r: u32)
        ensures
            r == self@.levels,
    {
        self.levels
    }

    /// Whether the data lies inside the region and its addresses fit a
    /// machine word.
    pub open spec fn wf(&self) -> bool {
        &&& self@.data_offset <= self@.total_len
        &&& self@.raw_addr + self@.total_len <= usize::MAX
    }

    /// The address at which the data starts.
    pub fn data_addr(&self) -> (r: usize)
        requires
            self.wf(),
        ensures
            r == self@.raw_addr + self@.data_offset,
    {
        self.raw_addr + self.data_offset
    }

    /// The length of the data in bytes.
    pub fn data_len(&self) -> (r: usize)
        requires
            self.wf(),
        ensures
            r == self@.total_len - self@.data_offset,
    {
        self.total_len - self.data_offset
    }

    /// The metadata length rounded up to whole units.
    pub fn metadata_offset(&self) -> (r: usize)
        requires
            self@.metadata_len + UNIT_SIZE <= usize::MAX,
        ensures
            r == round_up_unit(self@.metadata_len),
    {
        (self.metadata_len + UNIT_SIZE - 1) / UNIT_SIZE * UNIT_SIZE
    }

    /// The layout of `len` bytes at `addr` taken as data alone, with no room
    /// set aside for the metadata.
    fn from_chunk(addr: usize, len: usize) -> (r: Self)
        requires
            len > 0,
        ensures
            r@ == (InfoView {
                raw_addr: addr as nat,
                total_len: len as nat,
                metadata_len: metadata_bytes(len as nat),
                data_offset: 0,
                units: unit_count(len as nat),
                levels: level_count(unit_count(len as nat)),
            }),
    {
        let (units, levels, metadata_len) = measure(len);
        BuddyBlockInfo { raw_addr: addr, total_len: len, metadata_len, data_offset: 0, units, levels }
    }

    /// Whether a buddy allocator can be laid out over `total_len` bytes at
    /// `raw_addr`. The metadata fits whenever the region is longer than a
    /// unit, so only the length and the addresses are looked at.
    pub fn fits(raw_addr: usize, total_len: usize) -> (ok: bool)
        ensures
            ok == constructible(raw_addr as nat, total_len as nat),
    {
        proof {
            lemma_constructible(raw_addr as nat, total_len as nat);
        }
        total_len > UNIT_SIZE && total_len <= usize::MAX - UNIT_SIZE && raw_addr <= usize::MAX
            - UNIT_SIZE - total_len
    }

    /// The layout of the region of `total_len` bytes at `raw_addr`: the first
    /// units hold the metadata, the rest is data.
    pub fn new(raw_addr: usize, total_len: usize) -> (r: Self)
        requires
            constructible(raw_addr as nat, total_len as nat),
        ensures
            r@ == layout_of(raw_addr as nat, total_len as nat),
            r.wf(),
    {
        proof {
            lemma_metadata_leaves_data(total_len as nat);
        }
        let tmp = BuddyBlockInfo::from_chunk(raw_addr, total_len);
        let data_offset = offset_after(tmp.metadata_len);
        let info = BuddyBlockInfo::from_chunk(raw_addr + data_offset, total_len - data_offset);
        Self {
            raw_addr,
            total_len,
            data_offset,
            metadata_len: info.metadata_len,
            units: info.units,
            levels: info.levels,
        }
    }
}

} // verus!
