//! Sums that the accounting of the buddy allocator rests on: what the
//! outstanding allocations add up to, and how many units the free blocks hold.

use crate::buddy::tree::Node;
use vstd::arithmetic::power2::pow2;
use vstd::prelude::*;

verus! {

/// The sum of `w(level, bytes)` over the entries of `m` at `level` whose
/// index is below `n`.
pub open spec fn row_sum(m: Map<Node, nat>, w: spec_fn(nat, nat) -> nat, level: nat, n: nat) -> nat
    decreases n,
{
    if n == 0 {
        0
    } else {
        let k = (level, (n - 1) as nat);
        row_sum(m, w, level, (n - 1) as nat) + if m.contains_key(k) {
            w(level, m[k])
        } else {
            0
        }
    }
}

/// The sum of `w(level, bytes)` over the entries of `m` below `levels` whose
/// index is below `width`.
pub open spec fn table_sum(
    m: Map<Node, nat>,
    w: spec_fn(nat, nat) -> nat,
    levels: nat,
    width: nat,
) -> nat
    decreases levels,
{
    if levels == 0 {
        0
    } else {
        table_sum(m, w, (levels - 1) as nat, width) + row_sum(m, w, (levels - 1) as nat, width)
    }
}

/// The weight that counts the bytes of an allocation.
pub open spec fn by_bytes() -> spec_fn(nat, nat) -> nat {
    |level: nat, bytes: nat| bytes
}

/// The weight that counts the units of the block that holds an allocation.
pub open spec fn by_units() -> spec_fn(nat, nat) -> nat {
    |level: nat, bytes: nat| pow2(level)
}

/// Inserting a new entry adds its weight to the row that holds it and leaves
/// the other rows as they were.
pub proof fn lemma_row_insert(
    m: Map<Node, nat>,
    w: spec_fn(nat, nat) -> nat,
    level: nat,
    n: nat,
    key: Node,
    v: nat,
)
    requires
        !m.contains_key(key),
    ensures
        row_sum(m.insert(key, v), w, level, n) == row_sum(m, w, level, n) + if key.0 == level
            && key.1 < n {
            w(level, v)
        } else {
            0
        },
    decreases n,
{
    if n > 0 {
        lemma_row_insert(m, w, level, (n - 1) as nat, key, v);
    }
}

/// Inserting a new entry adds its weight to the sum of the table.
pub proof fn lemma_table_insert(
    m: Map<Node, nat>,
    w: spec_fn(nat, nat) -> nat,
    levels: nat,
    width: nat,
    key: Node,
    v: nat,
)
    requires
        !m.contains_key(key),
    ensures
        table_sum(m.insert(key, v), w, levels, width) == table_sum(m, w, levels, width)
            + if key.0 < levels && key.1 < width {
            w(key.0, v)
        } else {
            0
        },
    decreases levels,
{
    if levels > 0 {
        lemma_table_insert(m, w, (levels - 1) as nat, width, key, v);
        lemma_row_insert(m, w, (levels - 1) as nat, width, key, v);
    }
}

/// Removing an entry takes its weight from the sum of the table.
pub proof fn lemma_table_remove(
    m: Map<Node, nat>,
    w: spec_fn(nat, nat) -> nat,
    levels: nat,
    width: nat,
    key: Node,
)
    requires
        m.contains_key(key),
        key.0 < levels,
        key.1 < width,
    ensures
        table_sum(m, w, levels, width) == table_sum(m.remove(key), w, levels, width) + w(
            key.0,
            m[key],
        ),
{
    let rest = m.remove(key);
    lemma_table_insert(rest, w, levels, width, key, m[key]);
    assert(rest.insert(key, m[key]) =~= m);
}

/// A table without entries sums to zero.
pub proof fn lemma_table_empty(w: spec_fn(nat, nat) -> nat, levels: nat, width: nat)
    ensures
        table_sum(Map::<Node, nat>::empty(), w, levels, width) == 0,
    decreases levels,
{
    if levels > 0 {
        lemma_table_empty(w, (levels - 1) as nat, width);
        lemma_row_empty(w, (levels - 1) as nat, width);
    }
}

/// A row without entries sums to zero.
pub proof fn lemma_row_empty(w: spec_fn(nat, nat) -> nat, level: nat, n: nat)
    ensures
        row_sum(Map::<Node, nat>::empty(), w, level, n) == 0,
    decreases n,
{
    if n > 0 {
        lemma_row_empty(w, level, (n - 1) as nat);
    }
}

/// Where every allocation takes at most `unit` bytes for each unit of its
/// block, the bytes of a row are at most `unit` times its units.
pub proof fn lemma_row_bytes_le_units(m: Map<Node, nat>, unit: nat, level: nat, n: nat)
    requires
        forall|k: Node| #[trigger] m.contains_key(k) ==> m[k] <= unit * pow2(k.0),
    ensures
        row_sum(m, by_bytes(), level, n) <= unit * row_sum(m, by_units(), level, n),
    decreases n,
{
    if n > 0 {
        lemma_row_bytes_le_units(m, unit, level, (n - 1) as nat);
        let k = (level, (n - 1) as nat);
        let a = row_sum(m, by_units(), level, (n - 1) as nat);
        if m.contains_key(k) {
            assert(unit * (a + pow2(level)) == unit * a + unit * pow2(level))
                by (nonlinear_arith);
        }
    }
}

/// Where every allocation takes at most `unit` bytes for each unit of its
/// block, the bytes of the table are at most `unit` times its units.
pub proof fn lemma_table_bytes_le_units(m: Map<Node, nat>, unit: nat, levels: nat, width: nat)
    requires
        forall|k: Node| #[trigger] m.contains_key(k) ==> m[k] <= unit * pow2(k.0),
    ensures
        table_sum(m, by_bytes(), levels, width) <= unit * table_sum(m, by_units(), levels, width),
    decreases levels,
{
    if levels > 0 {
        lemma_table_bytes_le_units(m, unit, (levels - 1) as nat, width);
        lemma_row_bytes_le_units(m, unit, (levels - 1) as nat, width);
        let a = table_sum(m, by_units(), (levels - 1) as nat, width);
        let b = row_sum(m, by_units(), (levels - 1) as nat, width);
        assert(unit * (a + b) == unit * a + unit * b) by (nonlinear_arith);
    }
}

/// The units held by free blocks: for each level below `n`, the number of
/// free blocks times the units of a block.
pub open spec fn free_units(counts: Seq<nat>, n: nat) -> nat
    decreases n,
{
    if n == 0 {
        0
    } else {
        free_units(counts, (n - 1) as nat) + counts[n - 1] * pow2((n - 1) as nat)
    }
}

/// Changing the count of one level changes the free units by the difference
/// times the units of a block of that level.
pub proof fn lemma_free_units_update(counts: Seq<nat>, n: nat, level: nat, c: nat)
    requires
        n <= counts.len(),
        level < counts.len(),
    ensures
        free_units(counts.update(level as int, c), n) == free_units(counts, n) + if level < n {
            c * pow2(level) - counts[level as int] * pow2(level)
        } else {
            0
        },
    decreases n,
{
    if n > 0 {
        lemma_free_units_update(counts, (n - 1) as nat, level, c);
        let after = counts.update(level as int, c);
        if level == n - 1 {
            assert(after[n - 1] == c);
        } else {
            assert(after[n - 1] == counts[n - 1]);
        }
    }
}

} // verus!
