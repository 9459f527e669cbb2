//! How a region is divided: units, levels, and the bytes of bookkeeping that
//! they need.

use vstd::arithmetic::div_mod::lemma_div_denominator;
use vstd::arithmetic::power2::{lemma2_to64, lemma_pow2_pos, lemma_pow2_unfold, pow2};
use vstd::prelude::*;

verus! {

/// The smallest block that the buddy allocator hands out, in bytes.
pub const UNIT_SIZE: usize = 4096;

/// The bytes that the descriptor of one level takes in the metadata region.
pub const LEVEL_ENTRY_SIZE: usize = 16;

/// The number of units that cover `len` bytes.
pub open spec fn unit_count(len: nat) -> nat {
    (len + UNIT_SIZE - 1) as nat / (UNIT_SIZE as nat)
}

/// The number of levels for a region of `blocks` units: halve until one
/// block is left, counting the steps.
pub open spec fn level_count(blocks: nat) -> nat
    decreases blocks,
{
    if blocks <= 1 {
        1
    } else {
        1 + level_count(blocks / 2)
    }
}

/// The number of blocks at `level` in a region of `units` units.
pub open spec fn blocks_at(units: nat, level: nat) -> nat {
    units / pow2(level)
}

/// The bytes of a bitmap with one bit for each of `blocks` blocks.
pub open spec fn bitmap_len(blocks: nat) -> nat {
    (blocks + 7) / 8
}

/// The bytes of the bitmaps of all levels together.
pub open spec fn bitmaps_total(blocks: nat) -> nat
    decreases blocks,
{
    if blocks <= 1 {
        1
    } else {
        bitmap_len(blocks) + bitmaps_total(blocks / 2)
    }
}

/// The bytes of metadata for a region of `len` bytes: one descriptor for each
/// level, then the bitmaps.
pub open spec fn metadata_bytes(len: nat) -> nat {
    level_count(unit_count(len)) * (LEVEL_ENTRY_SIZE as nat) + bitmaps_total(unit_count(len))
}

/// `x` rounded up to a multiple of the unit size.
pub open spec fn round_up_unit(x: nat) -> nat {
    unit_count(x) * (UNIT_SIZE as nat)
}

/// The size in bytes of a block at `level`.
pub open spec fn block_bytes(level: nat) -> nat {
    (UNIT_SIZE as nat) * pow2(level)
}

/// The lowest level whose blocks hold `units` units.
pub open spec fn level_for(units: nat) -> nat
    decreases units,
{
    if units <= 1 {
        0
    } else {
        1 + level_for((units + 1) / 2)
    }
}

/// Halving the block count of one level gives the block count of the next.
pub proof fn lemma_blocks_halve(units: nat, level: nat)
    ensures
        blocks_at(units, level + 1) == blocks_at(units, level) / 2,
{
    lemma_pow2_pos(level);
    lemma_pow2_unfold(level + 1);
    lemma_div_denominator(units as int, pow2(level) as int, 2);
    assert(pow2(level) * 2 == pow2(level + 1));
}

/// At level zero every unit is a block.
pub proof fn lemma_blocks_at_zero(units: nat)
    ensures
        blocks_at(units, 0) == units,
{
    lemma2_to64();
}

/// The top level holds exactly one block, and levels above it none.
pub proof fn lemma_top_level(units: nat)
    requires
        units >= 1,
    ensures
        blocks_at(units, (level_count(units) - 1) as nat) == 1,
        forall|l: nat| l < level_count(units) ==> blocks_at(units, l) >= 1,
        pow2((level_count(units) - 1) as nat) <= units,
    decreases units,
{
    lemma2_to64();
    if units <= 1 {
        assert forall|l: nat| l < level_count(units) implies blocks_at(units, l) >= 1 by {
            assert(l == 0);
        }
    } else {
        let half = units / 2;
        lemma_top_level(half);
        let top = (level_count(units) - 1) as nat;
        assert(top == level_count(half));
        assert(top >= 1);
        lemma_shift_halved(units, (top - 1) as nat);
        assert forall|l: nat| l < level_count(units) implies blocks_at(units, l) >= 1 by {
            if l == 0 {
                assert(pow2(0) == 1);
                assert(blocks_at(units, 0) == units);
            } else {
                let below = (l - 1) as nat;
                lemma_shift_halved(units, below);
                assert(below < level_count(half));
                assert(blocks_at(half, below) >= 1);
                assert(below + 1 == l);
            }
        }
        lemma_pow2_unfold(top);
    }
}

/// Dropping one level from a region is the same as halving its units first.
pub proof fn lemma_shift_halved(units: nat, level: nat)
    ensures
        blocks_at(units, level + 1) == blocks_at(units / 2, level),
{
    lemma_pow2_pos(level);
    lemma_pow2_unfold(level + 1);
    lemma_div_denominator(units as int, 2, pow2(level) as int);
    assert(2 * pow2(level) == pow2(level + 1));
}

/// A region that fits a machine word has fewer levels than the word has bits.
pub proof fn lemma_level_count_bound(units: nat)
    requires
        1 <= units <= usize::MAX,
    ensures
        level_count(units) <= usize::BITS,
        level_count(units) <= 64,
{
    lemma_top_level(units);
    let top = (level_count(units) - 1) as nat;
    lemma2_to64();
    if top >= usize::BITS {
        lemma_pow2_monotone(usize::BITS as nat, top);
        assert(pow2(usize::BITS as nat) > usize::MAX);
    }
}

/// Powers of two grow with the exponent.
pub proof fn lemma_pow2_monotone(a: nat, b: nat)
    requires
        a <= b,
    ensures
        pow2(a) <= pow2(b),
    decreases b - a,
{
    if a < b {
        lemma_pow2_monotone(a, (b - 1) as nat);
        lemma_pow2_unfold(b);
        lemma_pow2_pos((b - 1) as nat);
    }
}

/// The bitmaps of a region take at most one byte per level and a quarter of
/// a byte per unit.
pub proof fn lemma_bitmaps_total_bound(blocks: nat)
    requires
        blocks >= 1,
    ensures
        8 * bitmaps_total(blocks) <= 8 * level_count(blocks) + 2 * blocks,
        bitmaps_total(blocks) >= 1,
    decreases blocks,
{
    if blocks > 1 {
        lemma_bitmaps_total_bound(blocks / 2);
    }
}

} // verus!

verus! {

/// `level_for` is the least level whose blocks hold the units asked for.
pub proof fn lemma_level_for(units: nat)
    ensures
        units <= pow2(level_for(units)),
        level_for(units) > 0 ==> pow2((level_for(units) - 1) as nat) < units,
    decreases units,
{
    lemma2_to64();
    if units > 1 {
        let half = (units + 1) / 2;
        lemma_level_for(half);
        let l = level_for(half);
        lemma_pow2_unfold(l + 1);
        if l > 0 {
            lemma_pow2_unfold(l);
        }
    }
}

/// A level is `level_for(units)` if its blocks hold `units` units and those
/// of the level below do not.
pub proof fn lemma_level_for_unique(units: nat, level: nat)
    requires
        units <= pow2(level),
        level > 0 ==> pow2((level - 1) as nat) < units,
    ensures
        level == level_for(units),
{
    lemma_level_for(units);
    let l = level_for(units);
    if level < l {
        lemma_pow2_monotone(level, (l - 1) as nat);
    } else if l < level {
        lemma_pow2_monotone(l, (level - 1) as nat);
    }
}

/// Above the top level there are no blocks.
pub proof fn lemma_above_top(units: nat, level: nat)
    requires
        units >= 1,
        level >= level_count(units),
    ensures
        blocks_at(units, level) == 0,
{
    lemma_top_level(units);
    let top = (level_count(units) - 1) as nat;
    lemma_pow2_pos(top);
    lemma_pow2_unfold(top + 1);
    lemma_pow2_monotone(top + 1, level);
    let p = pow2(top) as int;
    assert(units < 2 * p) by {
        vstd::arithmetic::div_mod::lemma_fundamental_div_mod(units as int, p);
        vstd::arithmetic::div_mod::lemma_mod_bound(units as int, p);
        assert(units as int / p == 1);
        assert(p * 1 == p);
    }
    vstd::arithmetic::div_mod::lemma_basic_div(units as int, pow2(level) as int);
}

/// A level with at least two blocks is not the top level.
pub proof fn lemma_not_top(units: nat, level: nat)
    requires
        units >= 1,
        blocks_at(units, level) >= 2,
    ensures
        level + 1 < level_count(units),
{
    lemma_blocks_halve(units, level);
    if level + 1 >= level_count(units) {
        lemma_above_top(units, level + 1);
    }
}

/// The block counts of the levels never exceed the number of units.
pub proof fn lemma_blocks_at_le(units: nat, level: nat)
    ensures
        blocks_at(units, level) <= units,
        blocks_at(units, level) * pow2(level) <= units,
{
    lemma_pow2_pos(level);
    let p = pow2(level) as int;
    vstd::arithmetic::div_mod::lemma_fundamental_div_mod(units as int, p);
    vstd::arithmetic::div_mod::lemma_mod_bound(units as int, p);
    assert(p * (units as int / p) == (units as int / p) * p) by (nonlinear_arith);
    assert((units as int / p) <= (units as int / p) * p) by (nonlinear_arith)
        requires
            p >= 1,
            units as int / p >= 0,
    ;
}

} // verus!

verus! {

/// A level has at least as many blocks as a higher level has, times the
/// blocks of the lower level that make up a block of the higher one.
pub proof fn lemma_blocks_scale(units: nat, l: nat, low: nat)
    requires
        low <= l,
    ensures
        blocks_at(units, low) >= blocks_at(units, l) * pow2((l - low) as nat),
{
    let k = (l - low) as nat;
    let c = blocks_at(units, l);
    lemma_blocks_at_le(units, l);
    lemma_pow2_pos(low);
    lemma_pow2_pos(k);
    vstd::arithmetic::power2::lemma_pow2_adds(k, low);
    let x = c * pow2(k);
    assert(x * pow2(low) == c * pow2(l)) by (nonlinear_arith)
        requires
            x == c * pow2(k),
            pow2(l) == pow2(k) * pow2(low),
    ;
    vstd::arithmetic::div_mod::lemma_div_is_ordered(
        (x * pow2(low)) as int,
        units as int,
        pow2(low) as int,
    );
    vstd::arithmetic::div_mod::lemma_div_multiples_vanish(x as int, pow2(low) as int);
    assert(x * pow2(low) == pow2(low) * x) by (nonlinear_arith);
}

} // verus!

verus! {

/// More blocks never need fewer levels.
pub proof fn lemma_level_count_monotone(a: nat, b: nat)
    requires
        a <= b,
    ensures
        level_count(a) <= level_count(b),
    decreases b,
{
    if a > 1 {
        lemma_level_count_monotone(a / 2, b / 2);
    }
}

/// More blocks never need fewer bytes of bitmaps.
pub proof fn lemma_bitmaps_total_monotone(a: nat, b: nat)
    requires
        a <= b,
    ensures
        bitmaps_total(a) <= bitmaps_total(b),
    decreases b,
{
    if a > 1 {
        lemma_bitmaps_total_monotone(a / 2, b / 2);
    } else if b > 1 {
        lemma_bitmaps_total_bound(b / 2);
    }
}

/// A longer region never needs fewer bytes of metadata.
pub proof fn lemma_metadata_monotone(a: nat, b: nat)
    requires
        a <= b,
    ensures
        metadata_bytes(a) <= metadata_bytes(b),
{
    lemma_level_count_monotone(unit_count(a), unit_count(b));
    lemma_bitmaps_total_monotone(unit_count(a), unit_count(b));
    assert(level_count(unit_count(a)) * (LEVEL_ENTRY_SIZE as nat) <= level_count(unit_count(b))
        * (LEVEL_ENTRY_SIZE as nat)) by (nonlinear_arith)
        requires
            level_count(unit_count(a)) <= level_count(unit_count(b)),
    ;
}

/// There are never more levels than blocks.
pub proof fn lemma_level_count_le(blocks: nat)
    requires
        blocks >= 1,
    ensures
        level_count(blocks) <= blocks,
    decreases blocks,
{
    if blocks > 1 {
        lemma_level_count_le(blocks / 2);
    }
}

/// The metadata of a region that is longer than a unit, rounded up to whole
/// units, is shorter than the region: it always leaves data behind it.
pub proof fn lemma_metadata_leaves_data(len: nat)
    requires
        len > UNIT_SIZE,
    ensures
        1 <= metadata_bytes(len),
        round_up_unit(metadata_bytes(len)) < len,
        metadata_bytes(len) <= round_up_unit(metadata_bytes(len)),
{
    let units = unit_count(len);
    let levels = level_count(units);
    let bits = bitmaps_total(units);
    lemma_bitmaps_total_bound(units);
    lemma_level_count_le(units);
    assert(levels * (LEVEL_ENTRY_SIZE as nat) == 16 * levels);
    if units == 2 {
        assert(level_count(1) == 1);
        assert(level_count(2) == 2);
        assert(bitmaps_total(1) == 1);
        assert(bitmaps_total(2) == 2);
        assert(metadata_bytes(len) == 34);
    } else {
        assert(units >= 3);
        assert(metadata_bytes(len) <= 17 * units + units / 4);
    }
}

} // verus!
