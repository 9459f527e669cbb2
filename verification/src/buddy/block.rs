//! The buddy allocator: one bitmap of free blocks per level, splitting on
//! allocation and coalescing on release.

use crate::buddy::bitmap::BlockBitmap;
use crate::buddy::info::{constructible, empty_layout, layout_of, BuddyBlockInfo, InfoView};
use crate::buddy::layout::{
    bitmap_len, block_bytes, blocks_at, lemma_blocks_at_le, lemma_blocks_at_zero,
    lemma_blocks_halve, lemma_level_count_bound, lemma_level_for, lemma_level_for_unique,
    lemma_not_top, lemma_pow2_monotone, lemma_top_level, level_count, level_for, round_up_unit,
    unit_count, UNIT_SIZE,
};
use crate::buddy::tally::{
    by_bytes, by_units, free_units, lemma_free_units_update,
    lemma_table_bytes_le_units, lemma_table_empty, lemma_table_insert, lemma_table_remove,
    table_sum,
};
use crate::buddy::tree::{
    ancestor, covered, covers, holder, left_child, lemma_ancestor_chain, lemma_children,
    lemma_merge, lemma_merge_covers, lemma_parent, lemma_split, lemma_split_covers, nest_free,
    right_child, sibling, Node,
};
use crate::buddy::layout::lemma_above_top;
use crate::numeric::div_ceil;
use vstd::arithmetic::div_mod::lemma_div_denominator;
use vstd::arithmetic::power2::{lemma2_to64, lemma_pow2_adds, lemma_pow2_pos, lemma_pow2_unfold, pow2};
use vstd::prelude::*;

verus! {

/// Whether the block `index` of `level` is free in a region of `units` units
/// on which nothing has been allocated yet: it is the last block of a level
/// with an odd number of blocks.
pub open spec fn initially_free(units: nat, level: nat, index: nat) -> bool {
    &&& units >= 1
    &&& level < level_count(units)
    &&& blocks_at(units, level) % 2 == 1
    &&& index == blocks_at(units, level) - 1
}

/// The blocks that are free before anything has been allocated.
pub open spec fn initial_blocks(units: nat) -> Set<Node> {
    Set::new(|n: Node| initially_free(units, n.0, n.1))
}

/// An odd number of blocks loses nothing by dropping the last block before
/// going up.
proof fn lemma_odd_tail(c: nat, k: nat)
    requires
        c % 2 == 1,
        k >= 1,
    ensures
        (c - 1) / (pow2(k) as int) == c / pow2(k),
{
    lemma2_to64();
    let rest = (k - 1) as nat;
    lemma_pow2_pos(rest);
    lemma_pow2_adds(1, rest);
    assert(pow2(k) == 2 * pow2(rest));
    lemma_div_denominator(c as int, 2, pow2(rest) as int);
    lemma_div_denominator(c - 1, 2, pow2(rest) as int);
}

/// The block count of a level is that of any lower level, divided down.
proof fn lemma_blocks_at_chain(units: nat, level: nat, k: nat)
    ensures
        blocks_at(units, level + k) == blocks_at(units, level) / pow2(k),
{
    lemma_pow2_pos(level);
    lemma_pow2_pos(k);
    lemma_pow2_adds(level, k);
    lemma_div_denominator(units as int, pow2(level) as int, pow2(k) as int);
}

/// Before anything is allocated, no free block lies inside another.
pub proof fn lemma_initial_nest_free(units: nat)
    ensures
        nest_free(initial_blocks(units)),
{
    let s = initial_blocks(units);
    assert forall|n: Node, k: nat| s.contains(n) && k >= 1 implies !s.contains(
        ancestor(n, k),
    ) by {
        let c = blocks_at(units, n.0);
        lemma_odd_tail(c, k);
        lemma_blocks_at_chain(units, n.0, k);
    }
}

/// Before anything is allocated, the unit `u` is held by a free block at
/// `level` or above, where its block at `level` is inside the region.
proof fn lemma_initial_holder(units: nat, u: nat, level: nat)
    requires
        u < units,
        holder(u, level).1 < blocks_at(units, level),
    ensures
        covered(initial_blocks(units), u),
    decreases level_count(units) - level,
{
    let s = initial_blocks(units);
    if level >= level_count(units) {
        lemma_above_top(units, level);
    } else {
        let here = holder(u, level);
        let up = holder(u, level + 1);
        lemma_ancestor_chain((0, u), level, 1);
        lemma_parent(here);
        lemma_blocks_halve(units, level);
        if up.1 < blocks_at(units, level + 1) {
            lemma_initial_holder(units, u, level + 1);
        } else {
            assert(initially_free(units, level, here.1));
            assert(s.contains(holder(u, level)));
        }
    }
}

/// Before anything is allocated, the free blocks hold every unit.
pub proof fn lemma_initial_covers(units: nat)
    ensures
        covers(initial_blocks(units), units),
{
    assert forall|u: nat| u < units implies #[trigger] covered(initial_blocks(units), u) by {
        lemma2_to64();
        lemma_initial_holder(units, u, 0);
    }
}

/// One step of the sum of the units level by level: the blocks of a level,
/// `c` of `p` units each, are those of the next level, `h` of twice as many
/// units each, and the odd block.
proof fn lemma_level_step(before: int, c: int, h: int, odd: int, p: int, twice: int, units: int)
    by (nonlinear_arith)
    requires
        before + c * p == units,
        c == 2 * h + odd,
        twice == 2 * p,
    ensures
        before + odd * p + h * twice == units,
{
}

/// Where each level has one free block if its block count is odd and none
/// otherwise, the free blocks hold all units of the levels taken together.
proof fn lemma_initial_units(counts: Seq<nat>, units: nat, n: nat)
    requires
        n <= counts.len(),
        forall|l: int| 0 <= l < n ==> #[trigger] counts[l] == blocks_at(units, l as nat) % 2,
    ensures
        free_units(counts, n) + blocks_at(units, n) * pow2(n) == units,
    decreases n,
{
    if n == 0 {
        lemma_blocks_at_zero(units);
        lemma2_to64();
        assert(free_units(counts, 0) == 0);
        assert(blocks_at(units, 0) * pow2(0) == units);
    } else {
        let below = (n - 1) as nat;
        lemma_initial_units(counts, units, below);
        lemma_blocks_halve(units, below);
        lemma_pow2_unfold(n);
        let c = blocks_at(units, below);
        let h = blocks_at(units, n);
        let p = pow2(below);
        let odd = counts[below as int];
        let before = free_units(counts, below);
        assert(below + 1 == n);
        assert(h == c / 2);
        assert(odd == c % 2);
        assert(c == 2 * h + odd);
        assert(pow2(n) == 2 * p);
        assert(before + c * p == units);
        assert(free_units(counts, n) == before + counts[n - 1] * pow2((n - 1) as nat));
        assert(free_units(counts, n) == before + odd * p);
        lemma_level_step(
            before as int,
            c as int,
            h as int,
            odd as int,
            p as int,
            pow2(n) as int,
            units as int,
        );
    }
}

/// The free blocks after `n` has been split down to level `fit`: on the way
/// down the right half of each block becomes free, and the left half is
/// split further.
pub open spec fn split_down(free: Set<Node>, n: Node, fit: nat) -> Set<Node>
    decreases n.0,
{
    if n.0 <= fit {
        free
    } else {
        split_down(free.insert(right_child(n)), left_child(n), fit)
    }
}

/// The free blocks after `n` has become free and has been merged with its
/// buddy as long as the buddy was free too, below the top of `levels` levels.
pub open spec fn coalesce(free: Set<Node>, n: Node, levels: nat) -> Set<Node>
    decreases levels - n.0,
{
    let buddy = (n.0, sibling(n.1));
    if n.0 + 1 < levels && free.contains(buddy) {
        coalesce(free.remove(buddy), (n.0 + 1, n.1 / 2), levels)
    } else {
        free.insert(n)
    }
}

/// Whether `n` is the free block that a request for level `fit` takes: the
/// one with the lowest index on the lowest level, from `fit` up, that has a
/// free block.
pub open spec fn first_fit(free: Set<Node>, fit: nat, n: Node) -> bool {
    &&& fit <= n.0
    &&& free.contains(n)
    &&& forall|m: Node| fit <= m.0 < n.0 ==> !#[trigger] free.contains(m)
    &&& forall|j: nat| j < n.1 ==> !#[trigger] free.contains((n.0, j))
}

/// The start and the length of the span of whole units that covers `len`
/// bytes at `addr`.
pub open spec fn span_of(addr: nat, len: nat) -> (nat, nat) {
    let start = addr / (UNIT_SIZE as nat) * (UNIT_SIZE as nat);
    (start, (round_up_unit(addr + len) - start) as nat)
}

/// `post` is `pre` with the block `n` marked free and nothing else changed.
pub open spec fn marked(pre: BuddyBlock, post: BuddyBlock, n: Node) -> bool {
    &&& post.shape()
    &&& post.layout() == pre.layout()
    &&& post.used_bytes() == pre.used_bytes()
    &&& post.outstanding() == pre.outstanding()
    &&& forall|l: nat, j: nat|
        post.is_free(l, j) == (pre.is_free(l, j) || (l == n.0 && j == n.1))
    &&& post.counts() == pre.counts().update(
        n.0 as int,
        pre.counts()[n.0 as int] + if pre.is_free(n.0, n.1) {
            0nat
        } else {
            1nat
        },
    )
}

/// `post` is `pre` with the block `n` marked not free and nothing else
/// changed.
pub open spec fn cleared(pre: BuddyBlock, post: BuddyBlock, n: Node) -> bool {
    &&& post.shape()
    &&& post.layout() == pre.layout()
    &&& post.used_bytes() == pre.used_bytes()
    &&& post.outstanding() == pre.outstanding()
    &&& forall|l: nat, j: nat|
        post.is_free(l, j) == (pre.is_free(l, j) && !(l == n.0 && j == n.1))
    &&& post.counts() == pre.counts().update(
        n.0 as int,
        (pre.counts()[n.0 as int] - if pre.is_free(n.0, n.1) {
            1nat
        } else {
            0nat
        }) as nat,
    )
}

/// The lowest level whose blocks hold `size` bytes.
pub fn bitmap_index_for_size(size: usize) -> (idx: u32)
    ensures
        idx == level_for(unit_count(size as nat)),
        idx <= 64,
{
    proof {
        crate::buddy::info::lemma_ceil_div_units(size as nat);
        lemma2_to64();
    }
    let need = div_ceil(size, UNIT_SIZE);
    let mut idx: u32 = 0;
    let mut span: usize = 1;
    while span < need
        invariant
            span == pow2(idx as nat),
            span >= 1,
            idx > 0 ==> pow2((idx - 1) as nat) < need,
            need <= usize::MAX / 4096 + 1,
            idx < 64,
        decreases 64 - idx,
    {
        proof {
            lemma2_to64();
            lemma_pow2_unfold((idx + 1) as nat);
            if idx + 1 >= 64 {
                lemma_pow2_monotone(64, (idx + 1) as nat);
            }
        }
        span *= 2;
        idx += 1;
    }
    proof {
        lemma_level_for_unique(need as nat, idx as nat);
    }
    idx
}

/// The size in bytes of a block of `level`.
fn block_size(level: usize) -> (r: usize)
    requires
        block_bytes(level as nat) <= usize::MAX,
    ensures
        r == block_bytes(level as nat),
{
    proof {
        lemma2_to64();
        lemma_pow2_pos(level as nat);
        if level >= usize::BITS {
            lemma_pow2_monotone(usize::BITS as nat, level as nat);
            assert(UNIT_SIZE * pow2(level as nat) >= pow2(level as nat)) by (nonlinear_arith)
                requires
                    pow2(level as nat) > 0,
            ;
        }
        vstd::bits::lemma_usize_shl_is_mul(UNIT_SIZE, level);
    }
    UNIT_SIZE << level
}

/// Flipping the lowest bit of an index gives the index of the buddy.
proof fn lemma_xor_one(x: usize)
    ensures
        (x ^ 1) == sibling(x as nat),
{
    assert(x % 2 == 0 ==> (x ^ 1) == x + 1) by (bit_vector);
    assert(x % 2 == 1 ==> (x ^ 1) == x - 1) by (bit_vector);
}

/// With a block in transit, the bytes in use and the bytes of that block
/// together fit the units of the region.
proof fn lemma_usage_bound(b: BuddyBlock, p: Node)
    requires
        b.wf_pending(p),
    ensures
        b.used_bytes() + UNIT_SIZE * pow2(p.0) <= b.layout().units * UNIT_SIZE,
        b.layout().units * UNIT_SIZE <= usize::MAX,
{
    let v = b.layout();
    let unit = UNIT_SIZE as nat;
    assert forall|k: Node| #[trigger] b.live@.contains_key(k) implies b.live@[k] <= unit * pow2(
        k.0,
    ) by {
        assert(b.outstanding().contains_key(k));
    }
    lemma_table_bytes_le_units(b.live@, unit, v.levels, v.units);
    let units_out = table_sum(b.live@, by_units(), v.levels, v.units);
    assert(unit * units_out + unit * pow2(p.0) <= v.units * unit) by (nonlinear_arith)
        requires
            units_out + pow2(p.0) <= v.units,
    ;
}

/// A buddy allocator over one contiguous region.
pub struct BuddyBlock {
    info: BuddyBlockInfo,
    used: usize,
    bitmaps: Vec<BlockBitmap>,
    live: Ghost<Map<Node, nat>>,
}

impl BuddyBlock {
    /// The layout of the region.
    pub closed spec fn layout(&self) -> InfoView {
        self.info@
    }

    /// The bytes that are handed out: the sum of the requests, each rounded
    /// up to whole units.
    pub closed spec fn used_bytes(&self) -> nat {
        self.used as nat
    }

    /// Whether the block `index` of `level` is marked free.
    pub closed spec fn is_free(&self, level: nat, index: nat) -> bool {
        level < self.bitmaps@.len() && self.bitmaps@[level as int].is_set(index as int)
    }

    /// The blocks that are marked free.
    pub open spec fn free_blocks(&self) -> Set<Node> {
        Set::new(|n: Node| self.is_free(n.0, n.1))
    }

    /// The blocks that are handed out, each with the bytes asked for, rounded
    /// up to whole units.
    pub closed spec fn outstanding(&self) -> Map<Node, nat> {
        self.live@
    }

    /// The blocks that are free or handed out.
    pub open spec fn occupied(&self) -> Set<Node> {
        Set::new(|n: Node| self.is_free(n.0, n.1) || self.outstanding().contains_key(n))
    }

    /// The number of free blocks that each level has cached.
    pub closed spec fn counts(&self) -> Seq<nat> {
        Seq::new(self.bitmaps@.len(), |l: int| self.bitmaps@[l].cached())
    }

    /// The bitmaps match the layout: one per level, each of the length that
    /// its level needs, with a count that agrees with its bits.
    pub closed spec fn shape(&self) -> bool {
        let v = self.info@;
        &&& self.info.wf()
        &&& self.bitmaps@.len() == v.levels
        &&& v.levels == 0 ==> v.units == 0
        &&& v.levels > 0 ==> v.units >= 1 && v.levels == level_count(v.units)
        &&& v.units == unit_count((v.total_len - v.data_offset) as nat)
        &&& v.raw_addr + v.data_offset + v.units * UNIT_SIZE <= usize::MAX
        &&& forall|l: int|
            0 <= l < v.levels ==> (#[trigger] self.bitmaps@[l]).wf() && self.bitmaps@[l].bytes().len()
                == bitmap_len(blocks_at(v.units, l as nat))
    }

    /// Every free block and every block handed out lies inside the region.
    pub open spec fn blocks_valid(&self) -> bool {
        let v = self.layout();
        &&& forall|l: nat, j: nat| #[trigger] self.is_free(l, j) ==> j < blocks_at(v.units, l)
        &&& forall|n: Node| #[trigger]
            self.outstanding().contains_key(n) ==> {
                &&& n.0 < v.levels
                &&& n.1 < blocks_at(v.units, n.0)
                &&& 0 < self.outstanding()[n] <= block_bytes(n.0)
                &&& !self.is_free(n.0, n.1)
            }
    }

    /// No two halves of one block are both free.
    pub open spec fn no_free_siblings(&self) -> bool {
        forall|l: nat, j: nat|
            #![trigger self.is_free(l, sibling(j))]
            self.is_free(l, j) ==> !self.is_free(l, sibling(j))
    }

    /// The counters agree with the blocks: the free blocks and the blocks
    /// handed out hold all units between them, and the bytes in use are the
    /// sum of what was handed out.
    pub closed spec fn balanced(&self) -> bool {
        let v = self.info@;
        &&& free_units(self.counts(), v.levels) + table_sum(
            self.live@,
            by_units(),
            v.levels,
            v.units,
        ) == v.units
        &&& self.used == table_sum(self.live@, by_bytes(), v.levels, v.units)
    }

    /// The allocator is consistent.
    pub open spec fn wf(&self) -> bool {
        &&& self.shape()
        &&& self.blocks_valid()
        &&& nest_free(self.occupied())
        &&& covers(self.occupied(), self.layout().units)
        &&& self.no_free_siblings()
        &&& self.balanced()
    }

    /// An allocator over no region: it has no level and never hands out
    /// anything.
    pub fn empty() -> (r: Self)
        ensures
            r.wf(),
            r.layout() == empty_layout(),
            r.used_bytes() == 0,
            r.outstanding() == Map::<Node, nat>::empty(),
            forall|l: nat, j: nat| !r.is_free(l, j),
    {
        let r = Self {
            info: BuddyBlockInfo::empty(),
            used: 0,
            bitmaps: Vec::new(),
            live: Ghost(Map::empty()),
        };
        proof {
            lemma_table_empty(by_units(), 0, 0);
            lemma_table_empty(by_bytes(), 0, 0);
            assert(r.counts() =~= Seq::<nat>::empty());
        }
        r
    }

    /// An allocator over the region of `total_len` bytes at `raw_addr`. The
    /// first units are set aside for the metadata; of the rest, the top block
    /// and the odd block at the end of each lower level are free.
    pub fn new(raw_addr: usize, total_len: usize) -> (r: Self)
        requires
            constructible(raw_addr as nat, total_len as nat),
        ensures
            r.wf(),
            r.layout() == layout_of(raw_addr as nat, total_len as nat),
            r.used_bytes() == 0,
            r.outstanding() == Map::<Node, nat>::empty(),
            forall|l: nat, j: nat| r.is_free(l, j) <==> initially_free(r.layout().units, l, j),
    {
        let info = BuddyBlockInfo::new(raw_addr, total_len);
        let units: usize = info.units();
        let ghost levels: nat = info@.levels;
        let mut bitmaps: Vec<BlockBitmap> = Vec::new();
        let mut block_count: usize = units;
        let mut idx: usize = 0;
        proof {
            lemma_blocks_at_zero(units as nat);
            lemma_level_count_bound(units as nat);
            lemma_top_level(units as nat);
            lemma2_to64();
        }
        loop
            invariant_except_break
                idx < levels,
                block_count == blocks_at(units as nat, idx as nat),
            invariant
                units == info@.units,
                units >= 1,
                units * UNIT_SIZE <= usize::MAX,
                levels == level_count(units as nat),
                levels <= 64,
                forall|l: nat| l < levels ==> blocks_at(units as nat, l) >= 1,
                blocks_at(units as nat, (levels - 1) as nat) == 1,
                block_count <= units,
                idx == bitmaps@.len(),
                idx <= levels,
                forall|l: int|
                    0 <= l < idx ==> (#[trigger] bitmaps@[l]).wf() && bitmaps@[l].bytes().len()
                        == bitmap_len(blocks_at(units as nat, l as nat)),
                forall|l: int, j: int|
                    0 <= l < idx ==> (#[trigger] bitmaps@[l].is_set(j) <==> initially_free(
                        units as nat,
                        l as nat,
                        j as nat,
                    ) && j >= 0),
                forall|l: int|
                    0 <= l < idx ==> (#[trigger] bitmaps@[l]).cached() == blocks_at(
                        units as nat,
                        l as nat,
                    ) % 2,
            ensures
                idx == levels,
            decreases levels - idx,
        {
            let ghost level = idx as nat;
            let bitmap = BlockBitmap::new(block_count);
            bitmaps.push(bitmap);
            idx += 1;
            block_count /= 2;
            proof {
                lemma_blocks_halve(units as nat, level);
            }
            if block_count == 0 {
                break ;
            }
        }
        let r = Self { info, used: 0, bitmaps, live: Ghost(Map::empty()) };
        proof {
            let u = units as nat;
            lemma_table_empty(by_units(), levels, u);
            lemma_table_empty(by_bytes(), levels, u);
            lemma_initial_units(r.counts(), u, levels);
            lemma_blocks_halve(u, (levels - 1) as nat);
            assert(blocks_at(u, levels) == 0);
            assert(blocks_at(u, levels) * pow2(levels) == 0) by (nonlinear_arith)
                requires
                    blocks_at(u, levels) == 0,
            ;
            lemma_initial_nest_free(u);
            lemma_initial_covers(u);
            assert(r.occupied() =~= initial_blocks(u));
            assert forall|l: nat, j: nat| #[trigger] r.is_free(l, j) implies !r.is_free(
                l,
                sibling(j),
            ) by {}
        }
        r
    }

    /// Whether the block `block_idx` of level `bitmap_idx` is marked free.
    fn bitget(&self, bitmap_idx: usize, block_idx: usize) -> (r: bool)
        requires
            self.shape(),
            bitmap_idx < self.layout().levels,
            block_idx < 8 * bitmap_len(blocks_at(self.layout().units, bitmap_idx as nat)),
        ensures
            r == self.is_free(bitmap_idx as nat, block_idx as nat),
    {
        self.bitmaps[bitmap_idx].get(block_idx)
    }

    /// Marks the block `block_idx` of level `bitmap_idx` as free.
    fn bitset_1(&mut self, bitmap_idx: usize, block_idx: usize)
        requires
            old(self).shape(),
            bitmap_idx < old(self).layout().levels,
            block_idx < 8 * bitmap_len(blocks_at(old(self).layout().units, bitmap_idx as nat)),
        ensures
            marked(*old(self), *final(self), (bitmap_idx as nat, block_idx as nat)),
    {
        let ghost before = self.bitmaps@;
        self.bitmaps[bitmap_idx].set_1(block_idx);
        proof {
            assert(self.bitmaps@ =~= before.update(bitmap_idx as int, self.bitmaps@[bitmap_idx as int]));
            assert forall|l: nat, j: nat|
                self.is_free(l, j) == (old(self).is_free(l, j) || (l == bitmap_idx && j
                    == block_idx)) by {
                if l == bitmap_idx {
                    assert(self.bitmaps@[l as int].ones().contains(j as int)
                        == self.bitmaps@[l as int].is_set(j as int));
                    assert(before[l as int].ones().contains(j as int) == before[l as int].is_set(
                        j as int,
                    ));
                }
            }
            assert(self.counts() =~= old(self).counts().update(
                bitmap_idx as int,
                self.bitmaps@[bitmap_idx as int].cached(),
            ));
        }
    }

    /// Marks the block `block_idx` of level `bitmap_idx` as not free.
    fn bitset_0(&mut self, bitmap_idx: usize, block_idx: usize)
        requires
            old(self).shape(),
            bitmap_idx < old(self).layout().levels,
            block_idx < 8 * bitmap_len(blocks_at(old(self).layout().units, bitmap_idx as nat)),
        ensures
            cleared(*old(self), *final(self), (bitmap_idx as nat, block_idx as nat)),
    {
        let ghost before = self.bitmaps@;
        self.bitmaps[bitmap_idx].set_0(block_idx);
        proof {
            assert(self.bitmaps@ =~= before.update(bitmap_idx as int, self.bitmaps@[bitmap_idx as int]));
            assert forall|l: nat, j: nat|
                self.is_free(l, j) == (old(self).is_free(l, j) && !(l == bitmap_idx && j
                    == block_idx)) by {
                if l == bitmap_idx {
                    assert(self.bitmaps@[l as int].ones().contains(j as int)
                        == self.bitmaps@[l as int].is_set(j as int));
                    assert(before[l as int].ones().contains(j as int) == before[l as int].is_set(
                        j as int,
                    ));
                }
            }
            assert(self.counts() =~= old(self).counts().update(
                bitmap_idx as int,
                self.bitmaps@[bitmap_idx as int].cached(),
            ));
        }
    }

    /// Takes the first free block of level `found` for a request of
    /// `aligned_len` bytes at level `fit`, splitting it on the way down.
    fn carve(&mut self, found: usize, fit: usize, aligned_len: usize) -> (addr: usize)
        requires
            old(self).wf(),
            fit <= found < old(self).layout().levels,
            exists|j: nat| old(self).is_free(found as nat, j),
            0 < aligned_len <= block_bytes(fit as nat),
        ensures
            final(self).wf(),
            final(self).layout() == old(self).layout(),
            exists|n: Node|
                {
                    &&& n.0 == found
                    &&& old(self).free_blocks().contains(n)
                    &&& forall|j: nat| j < n.1 ==> !#[trigger] old(self).free_blocks().contains((n.0, j))
                    &&& #[trigger] old(self).carved(
                        *final(self),
                        n,
                        fit as nat,
                        aligned_len as nat,
                        addr as nat,
                    )
                },
    {
        let ghost v = self.layout();
        let ghost w: nat = choose|j: nat| self.is_free(found as nat, j);
        proof {
            let bm = self.bitmaps@[found as int];
            bm.lemma_count();
            assert(bm.ones().contains(w as int));
            if bm.ones().len() == 0 {
                assert(bm.ones() =~= Set::<int>::empty());
            }
        }
        let block_idx = self.bitmaps[found].first_1();
        let ghost n0: Node = (found as nat, block_idx as nat);
        let ghost f0 = self.free_blocks().remove(n0);
        proof {
            assert(self.is_free(n0.0, n0.1));
            assert forall|j: nat| j < n0.1 implies !#[trigger] self.free_blocks().contains(
                (n0.0, j),
            ) by {
                assert(!self.bitmaps@[found as int].is_set(j as int));
            }
            lemma_blocks_at_le(v.units, found as nat);
            lemma2_to64();
        }
        self.bitset_0(found, block_idx);
        proof {
            lemma_detach(*old(self), *self, n0);
        }
        let mut below: usize = found;
        let mut below_block_idx: usize = block_idx;
        assert(block_idx * pow2(0) == block_idx) by {
            lemma2_to64();
        }
        while below > fit
            invariant
                fit <= below <= found,
                self.wf_pending((below as nat, below_block_idx as nat)),
                self.layout() == v,
                self.used_bytes() == old(self).used_bytes(),
                self.outstanding() == old(self).outstanding(),
                split_down(self.free_blocks(), (below as nat, below_block_idx as nat), fit as nat)
                    == split_down(f0, n0, fit as nat),
                below_block_idx == block_idx * pow2((found - below) as nat),
            decreases below,
        {
            let ghost pre = *self;
            let ghost p: Node = (below as nat, below_block_idx as nat);
            proof {
                lemma_blocks_halve(v.units, (below - 1) as nat);
                lemma_blocks_at_le(v.units, (below - 1) as nat);
                lemma_pow2_unfold((found - below + 1) as nat);
                assert(block_idx * pow2((found - below + 1) as nat) == 2 * (block_idx * pow2(
                    (found - below) as nat,
                ))) by (nonlinear_arith)
                    requires
                        pow2((found - below + 1) as nat) == 2 * pow2((found - below) as nat),
                ;
            }
            below -= 1;
            below_block_idx *= 2;
            self.bitset_1(below, below_block_idx + 1);
            proof {
                lemma_split_step(pre, *self, p);
            }
        }
        let ghost grant: Node = (fit as nat, below_block_idx as nat);
        let ghost pre = *self;
        proof {
            lemma_usage_bound(pre, grant);
            assert(aligned_len + self.used <= usize::MAX) by (nonlinear_arith)
                requires
                    self.used + UNIT_SIZE * pow2(fit as nat) <= v.units * UNIT_SIZE,
                    aligned_len <= UNIT_SIZE * pow2(fit as nat),
                    v.units * UNIT_SIZE <= usize::MAX,
            ;
        }
        self.used += aligned_len;
        self.live = Ghost(self.live@.insert(grant, aligned_len as nat));
        proof {
            lemma_grant(pre, *self, grant, aligned_len as nat);
            assert(self.free_blocks() =~= pre.free_blocks());
            lemma_blocks_at_le(v.units, found as nat);
            lemma_pow2_pos(found as nat);
            assert((block_idx + 1) * (UNIT_SIZE * pow2(found as nat)) <= v.units * UNIT_SIZE)
                by (nonlinear_arith)
                requires
                    block_idx + 1 <= blocks_at(v.units, found as nat),
                    blocks_at(v.units, found as nat) * pow2(found as nat) <= v.units,
                    pow2(found as nat) > 0,
            ;
            assert(block_idx * (UNIT_SIZE * pow2(found as nat)) + UNIT_SIZE * pow2(found as nat)
                == (block_idx + 1) * (UNIT_SIZE * pow2(found as nat))) by (nonlinear_arith);
        }
        let size = block_size(found);
        let data_addr = self.info.data_addr();
        assert(old(self).carved(*self, n0, fit as nat, aligned_len as nat, (data_addr + block_idx
            * size) as nat));
        data_addr + block_idx * size
    }

    /// Hands out `len` bytes: the request is rounded up to whole units, the
    /// lowest level whose blocks hold it is chosen, and the first free block
    /// from that level up is taken and split down to it. Returns the address
    /// of the block, or nothing where no block that large is free.
    pub fn allocate(&mut self, len: usize) -> (r: Option<usize>)
        requires
            old(self).wf(),
            len > 0,
        ensures
            final(self).wf(),
            final(self).layout() == old(self).layout(),
            r is None ==> {
                &&& forall|n: Node| #[trigger]
                    old(self).free_blocks().contains(n) ==> n.0 < level_for(unit_count(len as nat))
                &&& final(self).free_blocks() == old(self).free_blocks()
                &&& final(self).outstanding() == old(self).outstanding()
                &&& final(self).used_bytes() == old(self).used_bytes()
            },
            r is Some ==> exists|n: Node|
                {
                    &&& first_fit(old(self).free_blocks(), level_for(unit_count(len as nat)), n)
                    &&& #[trigger] old(self).carved(
                        *final(self),
                        n,
                        level_for(unit_count(len as nat)),
                        round_up_unit(len as nat),
                        r->0 as nat,
                    )
                },
            r is Some ==> {
                let size = block_bytes(level_for(unit_count(len as nat)));
                &&& old(self).data_start() <= r->0
                &&& (r->0 - old(self).data_start()) % (size as int) == 0
                &&& r->0 + len <= r->0 + size <= old(self).data_start() + old(self).layout().units
                    * UNIT_SIZE
            },
    {
        let ghost v = self.layout();
        let ghost fit: nat = level_for(unit_count(len as nat));
        proof {
            crate::buddy::info::lemma_ceil_div_units(len as nat);
        }
        let need = div_ceil(len, UNIT_SIZE);
        let bitmap_idx_fit: usize = bitmap_index_for_size(len) as usize;
        let bitmap_len: usize = self.bitmaps.len();
        if bitmap_idx_fit >= bitmap_len {
            return None;
        }
        proof {
            lemma_level_for(need as nat);
            lemma_top_level(v.units);
            lemma_pow2_monotone(fit, (v.levels - 1) as nat);
            assert(need * UNIT_SIZE <= v.units * UNIT_SIZE) by (nonlinear_arith)
                requires
                    need <= v.units,
            ;
            assert(need * UNIT_SIZE <= UNIT_SIZE * pow2(fit)) by (nonlinear_arith)
                requires
                    need <= pow2(fit),
            ;
        }
        let aligned_len = need * UNIT_SIZE;
        let mut bitmap_idx: usize = bitmap_idx_fit;
        while bitmap_idx < bitmap_len
            invariant
                bitmap_idx_fit <= bitmap_idx <= bitmap_len,
                bitmap_len == v.levels,
                bitmap_idx_fit == fit,
                fit == level_for(unit_count(len as nat)),
                *self == *old(self),
                self.wf(),
                self.layout() == v,
                0 < aligned_len <= block_bytes(fit),
                aligned_len == round_up_unit(len as nat),
                forall|m: Node|
                    fit <= m.0 < bitmap_idx ==> !#[trigger] self.free_blocks().contains(m),
            decreases bitmap_len - bitmap_idx,
        {
            if self.bitmaps[bitmap_idx].empty() {
                proof {
                    let level = bitmap_idx as nat;
                    assert forall|m: Node| fit <= m.0 < bitmap_idx + 1 implies !#[trigger] self.free_blocks().contains(
                        m,
                    ) by {
                        if m.0 == level {
                            assert(!self.bitmaps@[level as int].is_set(m.1 as int));
                        }
                    }
                }
                bitmap_idx += 1;
                continue ;
            }
            proof {
                let bm = self.bitmaps@[bitmap_idx as int];
                let j = choose|j: int| bm.is_set(j);
                assert(bm.is_set(j));
                assert(self.is_free(bitmap_idx as nat, j as nat));
            }
            let addr = self.carve(bitmap_idx, bitmap_idx_fit, aligned_len);
            proof {
                let n = choose|n: Node|
                    {
                        &&& n.0 == bitmap_idx
                        &&& old(self).free_blocks().contains(n)
                        &&& forall|j: nat|
                            j < n.1 ==> !#[trigger] old(self).free_blocks().contains((n.0, j))
                        &&& #[trigger] old(self).carved(
                            *self,
                            n,
                            bitmap_idx_fit as nat,
                            aligned_len as nat,
                            addr as nat,
                        )
                    };
                assert(first_fit(old(self).free_blocks(), level_for(unit_count(len as nat)), n));
                let got: Option<usize> = Some(addr);
                assert(old(self).carved(
                    *self,
                    n,
                    level_for(unit_count(len as nat)),
                    round_up_unit(len as nat),
                    got->0 as nat,
                ));
                old(self).lemma_grant_in_data(
                    *self,
                    n,
                    fit,
                    round_up_unit(len as nat),
                    addr as nat,
                );
            }
            return Some(addr);
        }
        None
    }

    /// Takes back `len` bytes at `addr`. Nothing happens where `len` is zero.
    /// Otherwise the range is widened to whole units, the block of that span
    /// becomes free again, and as long as its buddy is free too the two are
    /// merged into their parent.
    pub fn dealloc(&mut self, addr: usize, len: usize)
        requires
            old(self).wf(),
            len > 0 ==> old(self).holds(addr as nat, len as nat),
        ensures
            final(self).wf(),
            final(self).layout() == old(self).layout(),
            len == 0 ==> {
                &&& final(self).free_blocks() == old(self).free_blocks()
                &&& final(self).outstanding() == old(self).outstanding()
                &&& final(self).used_bytes() == old(self).used_bytes()
            },
            len > 0 ==> {
                let n = old(self).node_of(addr as nat, len as nat);
                &&& final(self).free_blocks() == coalesce(
                    old(self).free_blocks(),
                    n,
                    old(self).layout().levels,
                )
                &&& final(self).outstanding() == old(self).outstanding().remove(n)
                &&& final(self).used_bytes() == old(self).used_bytes() - span_of(
                    addr as nat,
                    len as nat,
                ).1
            },
    {
        if len == 0 {
            return ;
        }
        let ghost v = self.layout();
        let ghost n0: Node = self.node_of(addr as nat, len as nat);
        let ghost f0 = self.free_blocks();
        let data_addr = self.info.data_addr();
        proof {
            crate::buddy::info::lemma_ceil_div_units((addr + len) as nat);
        }
        let aligned_addr = addr / UNIT_SIZE * UNIT_SIZE;
        let aligned_end = div_ceil(addr + len, UNIT_SIZE) * UNIT_SIZE;
        let aligned_len = aligned_end - aligned_addr;
        proof {
            crate::buddy::info::lemma_ceil_div_units(aligned_len as nat);
            assert(unit_count(aligned_len as nat) == aligned_len as nat / (UNIT_SIZE as nat));
        }
        let bitmap_idx_fit: usize = bitmap_index_for_size(aligned_len) as usize;
        let bitmap_len: usize = self.bitmaps.len();
        proof {
            lemma_top_level(v.units);
            lemma_pow2_monotone(n0.0, (v.levels - 1) as nat);
            lemma_pow2_pos(n0.0);
            assert(UNIT_SIZE * pow2(n0.0) <= v.units * UNIT_SIZE) by (nonlinear_arith)
                requires
                    pow2(n0.0) <= v.units,
            ;
            lemma_used_covers(*self, n0);
        }
        let mut block_idx: usize = (aligned_addr - data_addr) / block_size(bitmap_idx_fit);
        let mut current: usize = bitmap_idx_fit;
        let ghost entry = *self;
        self.used -= aligned_len;
        self.live = Ghost(self.live@.remove(n0));
        proof {
            lemma_revoke(entry, *self, n0);
        }
        loop
            invariant_except_break
                self.wf_pending((current as nat, block_idx as nat)),
                coalesce(self.free_blocks(), (current as nat, block_idx as nat), v.levels)
                    == coalesce(f0, n0, v.levels),
            invariant
                bitmap_len == v.levels,
                self.layout() == v,
                self.outstanding() == old(self).outstanding().remove(n0),
                self.used_bytes() == old(self).used_bytes() - aligned_len,
            ensures
                self.wf(),
                self.free_blocks() == coalesce(f0, n0, v.levels),
            decreases v.levels - current,
        {
            let ghost pre = *self;
            let ghost p: Node = (current as nat, block_idx as nat);
            proof {
                lemma_xor_one(block_idx);
                lemma_blocks_at_le(v.units, current as nat);
            }
            self.bitset_1(current, block_idx);
            let buddy_idx = block_idx ^ 1;
            if self.bitget(current, buddy_idx) {
                proof {
                    assert(pre.is_free(p.0, sibling(p.1)));
                    lemma_not_top(v.units, p.0);
                }
                if current + 1 >= bitmap_len {
                    break ;
                }
                self.bitset_0(current, buddy_idx);
                self.bitset_0(current, block_idx);
                proof {
                    assert(self.counts() =~= pre.counts().update(
                        p.0 as int,
                        (pre.counts()[p.0 as int] - 1) as nat,
                    )) by {
                        lemma_count_positive(pre, (p.0, sibling(p.1)));
                    }
                    lemma_merge_step(pre, *self, p);
                }
                block_idx /= 2;
                current += 1;
            } else {
                proof {
                    lemma_release(pre, *self, p);
                }
                break ;
            }
        }
    }

    /// Whether the block that releasing `len` bytes at `addr` speaks of lies
    /// in the data and is marked as not free.
    pub open spec fn releasable(&self, addr: nat, len: nat) -> bool {
        let (start, bytes) = span_of(addr, len);
        let n = self.node_of(addr, len);
        &&& self.data_start() <= start < self.data_start() + self.data_size()
        &&& self.data_start() < start + bytes <= self.data_start() + self.data_size()
        &&& n.0 < self.layout().levels
        &&& !self.is_free(n.0, n.1)
    }

    /// Whether `len` bytes at `addr` pass the tests that come before a
    /// release: a zero length always does; otherwise the span of whole units
    /// around the range must lie in the data and its block must not be free.
    /// Every range that `holds` admits passes.
    pub fn can_dealloc(&self, addr: usize, len: usize) -> (ok: bool)
        requires
            self.wf(),
        ensures
            ok == (len == 0 || self.releasable(addr as nat, len as nat)),
            len > 0 && self.holds(addr as nat, len as nat) ==> ok,
    {
        if len == 0 {
            return true;
        }
        let ghost v = self.layout();
        let data_addr = self.info.data_addr();
        let data_len = self.info.data_len();
        if len > usize::MAX - addr || addr + len > usize::MAX - (UNIT_SIZE - 1) {
            proof {
                assert(usize::MAX == 0xffff_ffff || usize::MAX == 0xffff_ffff_ffff_ffff);
                if addr + len <= usize::MAX {
                    assert(round_up_unit((addr + len) as nat) > usize::MAX);
                }
            }
            return false;
        }
        proof {
            crate::buddy::info::lemma_ceil_div_units((addr + len) as nat);
        }
        let aligned_addr = addr / UNIT_SIZE * UNIT_SIZE;
        let aligned_end = div_ceil(addr + len, UNIT_SIZE) * UNIT_SIZE;
        let aligned_len = aligned_end - aligned_addr;
        if !(data_addr <= aligned_addr && aligned_addr < data_addr + data_len) {
            return false;
        }
        if !(data_addr < aligned_end && aligned_end <= data_addr + data_len) {
            return false;
        }
        proof {
            crate::buddy::info::lemma_ceil_div_units(aligned_len as nat);
            assert(unit_count(aligned_len as nat) == aligned_len as nat / (UNIT_SIZE as nat));
        }
        let bitmap_idx_fit: usize = bitmap_index_for_size(aligned_len) as usize;
        if bitmap_idx_fit >= self.bitmaps.len() {
            return false;
        }
        let ghost n0: Node = self.node_of(addr as nat, len as nat);
        proof {
            lemma_top_level(v.units);
            lemma_pow2_monotone(n0.0, (v.levels - 1) as nat);
            lemma_pow2_pos(n0.0);
            assert(UNIT_SIZE * pow2(n0.0) <= v.units * UNIT_SIZE) by (nonlinear_arith)
                requires
                    pow2(n0.0) <= v.units,
            ;
        }
        let size = block_size(bitmap_idx_fit);
        let block_idx: usize = (aligned_addr - data_addr) / size;
        if block_idx >= self.bitmaps[bitmap_idx_fit].capacity_of() {
            return true;
        }
        !self.bitget(bitmap_idx_fit, block_idx)
    }

    /// The bytes of data that are not handed out.
    pub fn left(&self) -> (r: usize)
        requires
            self.used_bytes() <= self.data_size(),
            self.layout().data_offset <= self.layout().total_len,
        ensures
            r == self.data_size() - self.used_bytes(),
    {
        self.info.total_len() - self.info.data_offset() - self.used
    }

    /// The allocator is consistent but for one block `p` that is in transit:
    /// it is neither free nor handed out, and its units are counted apart.
    pub closed spec fn wf_pending(&self, p: Node) -> bool {
        let v = self.info@;
        &&& self.shape()
        &&& self.blocks_valid()
        &&& p.0 < v.levels
        &&& p.1 < blocks_at(v.units, p.0)
        &&& !self.occupied().contains(p)
        &&& nest_free(self.occupied().insert(p))
        &&& covers(self.occupied().insert(p), v.units)
        &&& self.no_free_siblings()
        &&& free_units(self.counts(), v.levels) + table_sum(
            self.live@,
            by_units(),
            v.levels,
            v.units,
        ) + pow2(p.0) == v.units
        &&& self.used == table_sum(self.live@, by_bytes(), v.levels, v.units)
    }

    /// The address at which the data of the region starts.
    pub open spec fn data_start(&self) -> nat {
        self.layout().raw_addr + self.layout().data_offset
    }

    /// The length of the data of the region in bytes.
    pub open spec fn data_size(&self) -> nat {
        (self.layout().total_len - self.layout().data_offset) as nat
    }

    /// The block that releasing `len` bytes at `addr` speaks of: its level is
    /// the lowest that holds the span of whole units around the range, its
    /// index is the one of the block in which the span starts.
    pub open spec fn node_of(&self, addr: nat, len: nat) -> Node {
        let (start, bytes) = span_of(addr, len);
        let level = level_for(bytes / (UNIT_SIZE as nat));
        (level, ((start - self.data_start()) / (block_bytes(level) as int)) as nat)
    }

    /// Whether `len` bytes at `addr` can be released: the span of whole units
    /// around the range lies in the data, and the block of that span is
    /// handed out with exactly that many bytes.
    pub open spec fn holds(&self, addr: nat, len: nat) -> bool {
        let (start, bytes) = span_of(addr, len);
        let n = self.node_of(addr, len);
        &&& self.data_start() <= start < self.data_start() + self.data_size()
        &&& self.data_start() < start + bytes <= self.data_start() + self.data_size()
        &&& n.0 < self.layout().levels
        &&& self.outstanding().contains_key(n)
        &&& self.outstanding()[n] == bytes
    }

    /// `post` is `self` after the free block `n` has been taken for a request
    /// of `bytes` bytes at level `fit`, with `addr` as the address handed out.
    pub open spec fn carved(&self, post: Self, n: Node, fit: nat, bytes: nat, addr: nat) -> bool {
        let grant: Node = (fit, n.1 * pow2((n.0 - fit) as nat));
        &&& addr == self.data_start() + n.1 * block_bytes(n.0)
        &&& post.free_blocks() == split_down(self.free_blocks().remove(n), n, fit)
        &&& !self.outstanding().contains_key(grant)
        &&& post.outstanding() == self.outstanding().insert(grant, bytes)
        &&& post.used_bytes() == self.used_bytes() + bytes
    }

    /// In a consistent allocator the data lies inside the region, the units
    /// are those that cover the data, and the levels those of the units.
    pub proof fn lemma_layout_wf(&self)
        requires
            self.wf(),
        ensures
            self.layout().data_offset <= self.layout().total_len,
            self.layout().raw_addr + self.layout().total_len <= usize::MAX,
            self.layout().units == unit_count(self.data_size()),
            self.layout().levels > 0 ==> self.layout().units >= 1 && self.layout().levels
                == level_count(self.layout().units),
            self.layout().levels == 0 ==> self.layout().units == 0,
            self.data_start() + self.layout().units * UNIT_SIZE <= usize::MAX,
            self.info_wf(),
    {
    }

    /// The layout is one whose data lies inside the region.
    pub closed spec fn info_wf(&self) -> bool {
        self.info.wf()
    }

    /// The layout of the region.
    pub fn info(&self) -> (r: &BuddyBlockInfo)
        ensures
            r@ == self.layout(),
            self.info_wf() ==> r.wf(),
    {
        &self.info
    }

    /// The bytes that are handed out.
    pub fn used(&self) -> (r: usize)
        ensures
            r == self.used_bytes(),
    {
        self.used
    }
}

} // verus!

verus! {

/// The number of free blocks that a level has cached is the number of its
/// set bits, so a level with a free block has a positive count.
proof fn lemma_count_positive(b: BuddyBlock, n: Node)
    requires
        b.shape(),
        b.is_free(n.0, n.1),
    ensures
        n.0 < b.layout().levels,
        b.counts()[n.0 as int] >= 1,
        b.counts().len() == b.layout().levels,
{
    let bm = b.bitmaps@[n.0 as int];
    bm.lemma_count();
    assert(bm.ones().contains(n.1 as int));
    if bm.ones().len() == 0 {
        assert(bm.ones() =~= Set::<int>::empty());
    }
}

/// Taking a free block out of its bitmap leaves a consistent allocator with
/// that block in transit.
proof fn lemma_detach(pre: BuddyBlock, post: BuddyBlock, p: Node)
    requires
        pre.wf(),
        pre.is_free(p.0, p.1),
        cleared(pre, post, p),
    ensures
        post.wf_pending(p),
        post.free_blocks() == pre.free_blocks().remove(p),
{
    let v = pre.layout();
    lemma_count_positive(pre, p);
    assert(post.free_blocks() =~= pre.free_blocks().remove(p));
    assert(post.occupied().insert(p) =~= pre.occupied());
    lemma_free_units_update(pre.counts(), v.levels, p.0, (pre.counts()[p.0 as int] - 1) as nat);
    assert forall|l: nat, j: nat| post.is_free(l, j) implies !post.is_free(l, sibling(j)) by {
        assert(pre.is_free(l, j));
        assert(!pre.is_free(l, sibling(j)));
    }
    assert((pre.counts()[p.0 as int] - 1) * pow2(p.0) == pre.counts()[p.0 as int] * pow2(p.0)
        - pow2(p.0)) by (nonlinear_arith);
}

/// Marking the right half of the block in transit as free leaves a
/// consistent allocator with the left half in transit.
proof fn lemma_split_step(pre: BuddyBlock, post: BuddyBlock, p: Node)
    requires
        pre.wf_pending(p),
        p.0 >= 1,
        marked(pre, post, right_child(p)),
    ensures
        post.wf_pending(left_child(p)),
        post.free_blocks() == pre.free_blocks().insert(right_child(p)),
        !pre.free_blocks().contains(right_child(p)),
{
    let v = pre.layout();
    let l = left_child(p);
    let r = right_child(p);
    let below = (p.0 - 1) as nat;
    lemma_children(p);
    lemma_blocks_halve(v.units, below);
    let s = pre.occupied().insert(p);
    assert(s.contains(ancestor(l, 1)));
    assert(s.contains(ancestor(r, 1)));
    assert(!s.contains(l));
    assert(!s.contains(r));
    assert(!pre.is_free(r.0, r.1));
    assert(post.free_blocks() =~= pre.free_blocks().insert(r));
    lemma_split(s, p);
    lemma_split_covers(s, p, v.units);
    assert(post.occupied().insert(l) =~= s.remove(p).insert(l).insert(r));
    assert forall|lv: nat, j: nat| post.is_free(lv, j) implies !post.is_free(lv, sibling(j)) by {
        if lv == r.0 && j == r.1 {
            assert(sibling(j) == l.1);
        } else {
            assert(pre.is_free(lv, j));
            assert(!pre.is_free(lv, sibling(j)));
            if lv == r.0 && sibling(j) == r.1 {
                assert(j == l.1);
            }
        }
    }
    lemma_free_units_update(pre.counts(), v.levels, below, pre.counts()[below as int] + 1);
    lemma_pow2_unfold(p.0);
    assert((pre.counts()[below as int] + 1) * pow2(below) == pre.counts()[below as int] * pow2(
        below,
    ) + pow2(below)) by (nonlinear_arith);
    assert forall|n: Node| #[trigger] post.outstanding().contains_key(n) implies !post.is_free(
        n.0,
        n.1,
    ) by {
        assert(pre.occupied().contains(n));
    }
}

/// Handing out the block in transit leaves a consistent allocator.
proof fn lemma_grant(pre: BuddyBlock, post: BuddyBlock, p: Node, bytes: nat)
    requires
        pre.wf_pending(p),
        0 < bytes <= block_bytes(p.0),
        post.info == pre.info,
        post.bitmaps == pre.bitmaps,
        post.live@ == pre.live@.insert(p, bytes),
        post.used == pre.used + bytes,
    ensures
        post.wf(),
        !pre.outstanding().contains_key(p),
{
    let v = pre.layout();
    assert(!pre.outstanding().contains_key(p));
    assert(post.counts() =~= pre.counts());
    assert forall|l: nat, j: nat| post.is_free(l, j) == pre.is_free(l, j) by {}
    assert(post.occupied() =~= pre.occupied().insert(p));
    lemma_blocks_at_le(v.units, p.0);
    lemma_table_insert(pre.live@, by_units(), v.levels, v.units, p, bytes);
    lemma_table_insert(pre.live@, by_bytes(), v.levels, v.units, p, bytes);
    assert forall|l: nat, j: nat| post.is_free(l, j) implies !post.is_free(l, sibling(j)) by {
        assert(pre.is_free(l, j));
        assert(!pre.is_free(l, sibling(j)));
    }
}

/// Taking back a block that was handed out leaves a consistent allocator
/// with that block in transit.
proof fn lemma_revoke(pre: BuddyBlock, post: BuddyBlock, p: Node)
    requires
        pre.wf(),
        pre.outstanding().contains_key(p),
        post.info == pre.info,
        post.bitmaps == pre.bitmaps,
        post.live@ == pre.live@.remove(p),
        post.used == pre.used - pre.live@[p],
    ensures
        post.wf_pending(p),
        post.free_blocks() == pre.free_blocks(),
{
    let v = pre.layout();
    assert(post.counts() =~= pre.counts());
    assert forall|l: nat, j: nat| post.is_free(l, j) == pre.is_free(l, j) by {}
    assert(post.free_blocks() =~= pre.free_blocks());
    assert(post.occupied().insert(p) =~= pre.occupied());
    lemma_blocks_at_le(v.units, p.0);
    lemma_table_remove(pre.live@, by_units(), v.levels, v.units, p);
    lemma_table_remove(pre.live@, by_bytes(), v.levels, v.units, p);
    assert forall|l: nat, j: nat| post.is_free(l, j) implies !post.is_free(l, sibling(j)) by {
        assert(pre.is_free(l, j));
        assert(!pre.is_free(l, sibling(j)));
    }
}

/// What is handed out is never more than its sum, so a block that is taken
/// back never exceeds the bytes in use.
proof fn lemma_used_covers(b: BuddyBlock, p: Node)
    requires
        b.wf(),
        b.outstanding().contains_key(p),
    ensures
        b.used_bytes() >= b.outstanding()[p],
{
    let v = b.layout();
    lemma_blocks_at_le(v.units, p.0);
    lemma_table_remove(b.live@, by_bytes(), v.levels, v.units, p);
}

/// Marking the block in transit as free, where its buddy is not free,
/// leaves a consistent allocator.
proof fn lemma_release(pre: BuddyBlock, post: BuddyBlock, p: Node)
    requires
        pre.wf_pending(p),
        marked(pre, post, p),
        !pre.is_free(p.0, sibling(p.1)),
    ensures
        post.wf(),
        post.free_blocks() == pre.free_blocks().insert(p),
{
    let v = pre.layout();
    assert(!pre.is_free(p.0, p.1));
    assert(post.free_blocks() =~= pre.free_blocks().insert(p));
    assert(post.occupied() =~= pre.occupied().insert(p));
    lemma_free_units_update(pre.counts(), v.levels, p.0, pre.counts()[p.0 as int] + 1);
    assert((pre.counts()[p.0 as int] + 1) * pow2(p.0) == pre.counts()[p.0 as int] * pow2(p.0)
        + pow2(p.0)) by (nonlinear_arith);
    assert forall|l: nat, j: nat| post.is_free(l, j) implies !post.is_free(l, sibling(j)) by {
        if l == p.0 && j == p.1 {
        } else {
            assert(pre.is_free(l, j));
            assert(!pre.is_free(l, sibling(j)));
            if l == p.0 && sibling(j) == p.1 {
                assert(j == sibling(p.1));
            }
        }
    }
}

/// Where the buddy of the block in transit is free, taking the buddy out of
/// its bitmap leaves a consistent allocator with their parent in transit.
proof fn lemma_merge_step(pre: BuddyBlock, post: BuddyBlock, p: Node)
    requires
        pre.wf_pending(p),
        pre.is_free(p.0, sibling(p.1)),
        cleared(pre, post, (p.0, sibling(p.1))),
    ensures
        p.0 + 1 < pre.layout().levels,
        post.wf_pending((p.0 + 1, p.1 / 2)),
        post.free_blocks() == pre.free_blocks().remove((p.0, sibling(p.1))),
{
    let v = pre.layout();
    let buddy: Node = (p.0, sibling(p.1));
    let parent: Node = (p.0 + 1, p.1 / 2);
    assert(buddy.1 < blocks_at(v.units, p.0));
    lemma_not_top(v.units, p.0);
    lemma_blocks_halve(v.units, p.0);
    lemma_children(parent);
    lemma_count_positive(pre, buddy);
    assert(post.free_blocks() =~= pre.free_blocks().remove(buddy));
    let s = pre.occupied().insert(p);
    assert(left_child(parent) == p || left_child(parent) == buddy);
    assert(right_child(parent) == p || right_child(parent) == buddy);
    assert(s.contains(left_child(parent)) && s.contains(right_child(parent)));
    lemma_merge(s, parent);
    lemma_merge_covers(s, parent, v.units);
    assert(!s.contains(ancestor(p, 1)));
    assert(!pre.occupied().contains(parent));
    assert(post.occupied().insert(parent) =~= s.remove(left_child(parent)).remove(
        right_child(parent),
    ).insert(parent));
    lemma_free_units_update(pre.counts(), v.levels, p.0, (pre.counts()[p.0 as int] - 1) as nat);
    lemma_pow2_unfold(p.0 + 1);
    assert((pre.counts()[p.0 as int] - 1) * pow2(p.0) == pre.counts()[p.0 as int] * pow2(p.0)
        - pow2(p.0)) by (nonlinear_arith);
    assert forall|l: nat, j: nat| post.is_free(l, j) implies !post.is_free(l, sibling(j)) by {
        assert(pre.is_free(l, j));
        assert(!pre.is_free(l, sibling(j)));
    }
    assert forall|n: Node| #[trigger] post.outstanding().contains_key(n) implies !post.is_free(
        n.0,
        n.1,
    ) by {}
}

} // verus!

verus! {

impl BuddyBlock {
    /// The block that an allocation hands out lies in the data of the
    /// region, as many blocks of its level behind the start of the data as
    /// its index says, and it holds the bytes that were asked for.
    pub proof fn lemma_grant_in_data(&self, post: Self, n: Node, fit: nat, bytes: nat, addr: nat)
        requires
            self.wf(),
            post.wf(),
            post.layout() == self.layout(),
            fit <= n.0,
            self.free_blocks().contains(n),
            self.carved(post, n, fit, bytes, addr),
        ensures
            addr == self.data_start() + n.1 * pow2((n.0 - fit) as nat) * block_bytes(fit),
            (addr - self.data_start()) % (block_bytes(fit) as int) == 0,
            self.data_start() <= addr,
            bytes <= block_bytes(fit),
            addr + block_bytes(fit) <= self.data_start() + self.layout().units * UNIT_SIZE,
    {
        let v = self.layout();
        let k = (n.0 - fit) as nat;
        let j = n.1 * pow2(k);
        let grant: Node = (fit, j);
        lemma_pow2_pos(k);
        lemma_pow2_pos(fit);
        lemma_pow2_adds(k, fit);
        assert(post.outstanding().contains_key(grant));
        assert(post.outstanding()[grant] == bytes);
        assert(n.1 * block_bytes(n.0) == j * block_bytes(fit)) by {
            assert(n.1 * (UNIT_SIZE * (pow2(k) * pow2(fit))) == (n.1 * pow2(k)) * (UNIT_SIZE
                * pow2(fit))) by (nonlinear_arith);
        }
        vstd::arithmetic::div_mod::lemma_mod_multiples_basic(j as int, block_bytes(fit) as int);
        assert(j < blocks_at(v.units, fit));
        lemma_blocks_at_le(v.units, fit);
        assert((j + 1) * (UNIT_SIZE * pow2(fit)) <= v.units * UNIT_SIZE) by (nonlinear_arith)
            requires
                j + 1 <= blocks_at(v.units, fit),
                blocks_at(v.units, fit) * pow2(fit) <= v.units,
                pow2(fit) > 0,
        ;
        assert((j + 1) * (UNIT_SIZE * pow2(fit)) == j * (UNIT_SIZE * pow2(fit)) + UNIT_SIZE
            * pow2(fit)) by (nonlinear_arith);
        assert(j * block_bytes(fit) >= 0) by (nonlinear_arith)
            requires
                j >= 0,
                block_bytes(fit) >= 0,
        ;
    }

    /// The bytes in use never exceed the units of the region; where the data
    /// is a whole number of units long, they never exceed the data.
    pub proof fn lemma_used_within_data(&self)
        requires
            self.wf(),
        ensures
            self.used_bytes() <= self.layout().units * UNIT_SIZE,
            self.data_size() % (UNIT_SIZE as nat) == 0 ==> self.used_bytes() <= self.data_size(),
    {
        let v = self.layout();
        let unit = UNIT_SIZE as nat;
        assert forall|k: Node| #[trigger] self.live@.contains_key(k) implies self.live@[k] <= unit
            * pow2(k.0) by {
            assert(self.outstanding().contains_key(k));
        }
        lemma_table_bytes_le_units(self.live@, unit, v.levels, v.units);
        let units_out = table_sum(self.live@, by_units(), v.levels, v.units);
        assert(unit * units_out <= v.units * unit) by (nonlinear_arith)
            requires
                units_out <= v.units,
        ;
    }

    /// No two halves of one block are both free: they would have been
    /// merged.
    pub proof fn lemma_no_free_siblings(&self, level: nat, index: nat)
        requires
            self.wf(),
        ensures
            !(self.is_free(level, 2 * index) && self.is_free(level, 2 * index + 1)),
    {
        if self.is_free(level, 2 * index) {
            assert(sibling(2 * index) == 2 * index + 1);
            assert(!self.is_free(level, sibling(2 * index)));
        }
    }

    /// No block that is free or handed out lies inside another, and every
    /// unit of the region lies in one of them.
    pub proof fn lemma_blocks_partition(&self)
        requires
            self.wf(),
        ensures
            nest_free(self.occupied()),
            covers(self.occupied(), self.layout().units),
    {
    }

    /// Where nothing is handed out, a free block has no buddy inside the
    /// region.
    proof fn lemma_free_is_tail(&self, level: nat, index: nat)
        requires
            self.wf(),
            self.outstanding().dom() == Set::<Node>::empty(),
            self.is_free(level, index),
        ensures
            sibling(index) >= blocks_at(self.layout().units, level),
        decreases level,
    {
        let units = self.layout().units;
        let s = sibling(index);
        let c = blocks_at(units, level);
        if s < c {
            let u = s * pow2(level);
            lemma_blocks_at_le(units, level);
            lemma_pow2_pos(level);
            assert(u < units) by {
                assert(s * pow2(level) + pow2(level) <= c * pow2(level)) by (nonlinear_arith)
                    requires
                        s + 1 <= c,
                        pow2(level) > 0,
                ;
            }
            assert(covered(self.occupied(), u));
            let at = choose|l: nat| #[trigger] self.occupied().contains(holder(u, l));
            let b = holder(u, at);
            assert(self.is_free(b.0, b.1)) by {
                if self.outstanding().contains_key(b) {
                    assert(self.outstanding().dom().contains(b));
                }
            }
            crate::buddy::tree::lemma_holder_of_start(s, level);
            if at == level {
                assert(self.is_free(level, sibling(index)));
            } else if at > level {
                let k = (at - level) as nat;
                crate::buddy::tree::lemma_holder_above(u, level, k);
                crate::buddy::tree::lemma_sibling_ancestors((level, index), k);
                assert(b == ancestor((level, index), k));
                assert(self.occupied().contains((level, index)));
                assert(self.occupied().contains(ancestor((level, index), k)));
            } else {
                let k = (level - at) as nat;
                crate::buddy::tree::lemma_holder_below(s, level, at);
                self.lemma_free_is_tail(at, b.1);
                crate::buddy::layout::lemma_blocks_scale(units, level, at);
                lemma_pow2_pos(k);
                lemma_pow2_unfold(k);
                assert(b.1 == s * pow2(k));
                assert(b.1 % 2 == 0) by {
                    assert(s * pow2(k) == 2 * (s * pow2((k - 1) as nat))) by (nonlinear_arith)
                        requires
                            pow2(k) == 2 * pow2((k - 1) as nat),
                    ;
                }
                assert(c * pow2(k) >= s * pow2(k) + pow2(k)) by (nonlinear_arith)
                    requires
                        s + 1 <= c,
                        pow2(k) > 0,
                ;
                assert(pow2(k) >= 2) by {
                    lemma_pow2_pos((k - 1) as nat);
                }
            }
        }
    }

    /// Where nothing is handed out, the allocator is as it was when it was
    /// made: no byte is in use, and exactly the blocks that were free at the
    /// start are free.
    pub proof fn lemma_all_released(&self)
        requires
            self.wf(),
            self.outstanding().dom() == Set::<Node>::empty(),
        ensures
            self.used_bytes() == 0,
            forall|l: nat, j: nat|
                self.is_free(l, j) <==> initially_free(self.layout().units, l, j),
    {
        let v = self.layout();
        let units = v.units;
        assert(self.live@ =~= Map::<Node, nat>::empty());
        lemma_table_empty(by_bytes(), v.levels, v.units);
        assert forall|l: nat, j: nat| self.is_free(l, j) implies initially_free(units, l, j) by {
            self.lemma_free_is_tail(l, j);
            lemma_blocks_at_le(units, l);
        }
        assert forall|l: nat, j: nat| initially_free(units, l, j) implies self.is_free(l, j) by {
            let c = blocks_at(units, l);
            let u = j * pow2(l);
            lemma_blocks_at_le(units, l);
            lemma_pow2_pos(l);
            assert(u < units) by {
                assert(j * pow2(l) + pow2(l) <= c * pow2(l)) by (nonlinear_arith)
                    requires
                        j + 1 <= c,
                        pow2(l) > 0,
                ;
            }
            assert(covered(self.occupied(), u));
            let at = choose|m: nat| #[trigger] self.occupied().contains(holder(u, m));
            let b = holder(u, at);
            assert(self.is_free(b.0, b.1)) by {
                if self.outstanding().contains_key(b) {
                    assert(self.outstanding().dom().contains(b));
                }
            }
            self.lemma_free_is_tail(at, b.1);
            assert(b.1 < blocks_at(units, at));
            crate::buddy::tree::lemma_holder_of_start(j, l);
            if at > l {
                let k = (at - l) as nat;
                crate::buddy::tree::lemma_holder_above(u, l, k);
                lemma_odd_tail(c, k);
                lemma_blocks_at_chain(units, l, k);
                assert(b.1 == blocks_at(units, at));
            } else if at < l {
                let k = (l - at) as nat;
                crate::buddy::tree::lemma_holder_below(j, l, at);
                crate::buddy::layout::lemma_blocks_scale(units, l, at);
                lemma_pow2_pos(k);
                lemma_pow2_unfold(k);
                lemma_pow2_pos((k - 1) as nat);
                assert(b.1 % 2 == 0) by {
                    assert(j * pow2(k) == 2 * (j * pow2((k - 1) as nat))) by (nonlinear_arith)
                        requires
                            pow2(k) == 2 * pow2((k - 1) as nat),
                    ;
                }
                assert(c * pow2(k) >= j * pow2(k) + pow2(k)) by (nonlinear_arith)
                    requires
                        j + 1 <= c,
                        pow2(k) > 0,
                ;
            }
        }
    }
}

} // verus!
