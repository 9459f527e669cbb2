//! Blocks as nodes of the buddy tree, and the two steps that keep occupied
//! blocks from overlapping: splitting a block and merging two buddies.

use vstd::arithmetic::div_mod::lemma_div_denominator;
use vstd::arithmetic::power2::{lemma2_to64, lemma_pow2_adds, lemma_pow2_pos, pow2};
use vstd::prelude::*;

verus! {

/// A block: its level and its index at that level.
pub type Node = (nat, nat);

/// The block `k` levels above `n` that contains it.
pub open spec fn ancestor(n: Node, k: nat) -> Node {
    (n.0 + k, n.1 / pow2(k))
}

/// The left half of `n`, one level below.
pub open spec fn left_child(n: Node) -> Node {
    ((n.0 - 1) as nat, 2 * n.1)
}

/// The right half of `n`, one level below.
pub open spec fn right_child(n: Node) -> Node {
    ((n.0 - 1) as nat, 2 * n.1 + 1)
}

/// The index of the other half of the parent of the block with index `i`.
pub open spec fn sibling(i: nat) -> nat {
    if i % 2 == 0 {
        i + 1
    } else {
        (i - 1) as nat
    }
}

/// No block of the set lies inside another block of the set.
pub open spec fn nest_free(s: Set<Node>) -> bool {
    forall|n: Node, k: nat|
        #![trigger s.contains(ancestor(n, k))]
        s.contains(n) && k >= 1 ==> !s.contains(ancestor(n, k))
}

/// The block of level `l` that holds unit `u`.
pub open spec fn holder(u: nat, l: nat) -> Node {
    ancestor((0, u), l)
}

/// Whether some block of the set holds unit `u`.
pub open spec fn covered(s: Set<Node>, u: nat) -> bool {
    exists|l: nat| #[trigger] s.contains(holder(u, l))
}

/// Whether every unit below `units` is held by some block of the set.
pub open spec fn covers(s: Set<Node>, units: nat) -> bool {
    forall|u: nat| u < units ==> #[trigger] covered(s, u)
}

/// Going up `a` levels and then `b` more is going up `a + b` levels.
pub proof fn lemma_ancestor_chain(n: Node, a: nat, b: nat)
    ensures
        ancestor(ancestor(n, a), b) == ancestor(n, a + b),
{
    lemma_pow2_pos(a);
    lemma_pow2_pos(b);
    lemma_pow2_adds(a, b);
    lemma_div_denominator(n.1 as int, pow2(a) as int, pow2(b) as int);
}

/// One level up, a block is found by halving its index.
pub proof fn lemma_parent(n: Node)
    ensures
        ancestor(n, 1) == (n.0 + 1, n.1 / 2),
        ancestor(n, 0) == n,
{
    lemma2_to64();
}

/// Both halves of a block have that block as their parent.
pub proof fn lemma_children(p: Node)
    requires
        p.0 >= 1,
    ensures
        ancestor(left_child(p), 1) == p,
        ancestor(right_child(p), 1) == p,
{
    lemma2_to64();
}

/// Replacing a block by its two halves keeps a set free of nesting.
pub proof fn lemma_split(s: Set<Node>, p: Node)
    requires
        nest_free(s),
        s.contains(p),
        p.0 >= 1,
    ensures
        nest_free(s.remove(p).insert(left_child(p)).insert(right_child(p))),
{
    let l = left_child(p);
    let r = right_child(p);
    let t = s.remove(p).insert(l).insert(r);
    lemma_children(p);
    assert forall|n: Node, k: nat| t.contains(n) && k >= 1 implies !t.contains(
        ancestor(n, k),
    ) by {
        let up = ancestor(n, k);
        if n == l || n == r {
            if k >= 2 {
                lemma_ancestor_chain(n, 1, (k - 1) as nat);
                assert(up == ancestor(p, (k - 1) as nat));
                assert(!s.contains(ancestor(p, (k - 1) as nat)));
            }
        } else {
            assert(s.contains(n));
            assert(!s.contains(ancestor(n, k)));
            if up == l || up == r {
                lemma_ancestor_chain(n, k, 1);
                assert(ancestor(n, k + 1) == p);
                assert(!s.contains(ancestor(n, k + 1)));
            }
        }
    }
}

/// Replacing the two halves of a block by the block keeps a set free of
/// nesting.
pub proof fn lemma_merge(s: Set<Node>, p: Node)
    requires
        nest_free(s),
        p.0 >= 1,
        s.contains(left_child(p)),
        s.contains(right_child(p)),
    ensures
        nest_free(s.remove(left_child(p)).remove(right_child(p)).insert(p)),
{
    let l = left_child(p);
    let r = right_child(p);
    let t = s.remove(l).remove(r).insert(p);
    lemma_children(p);
    assert forall|n: Node, k: nat| t.contains(n) && k >= 1 implies !t.contains(
        ancestor(n, k),
    ) by {
        let up = ancestor(n, k);
        if n == p {
            lemma_ancestor_chain(l, 1, k);
            assert(up == ancestor(l, k + 1));
            assert(!s.contains(ancestor(l, k + 1)));
        } else {
            assert(s.contains(n));
            assert(!s.contains(ancestor(n, k)));
            if up == p {
                if k == 1 {
                    lemma_parent(n);
                    assert(n == l || n == r);
                } else {
                    let mid = ancestor(n, (k - 1) as nat);
                    lemma_ancestor_chain(n, (k - 1) as nat, 1);
                    lemma_parent(mid);
                    assert(mid == l || mid == r);
                    assert(!s.contains(ancestor(n, (k - 1) as nat)));
                }
            }
        }
    }
}

/// Replacing a block by its two halves keeps every unit covered.
pub proof fn lemma_split_covers(s: Set<Node>, p: Node, units: nat)
    requires
        covers(s, units),
        p.0 >= 1,
    ensures
        covers(s.remove(p).insert(left_child(p)).insert(right_child(p)), units),
{
    let t = s.remove(p).insert(left_child(p)).insert(right_child(p));
    assert forall|u: nat| u < units implies #[trigger] covered(t, u) by {
        assert(covered(s, u));
        let l = choose|l: nat| #[trigger] s.contains(holder(u, l));
        if holder(u, l) == p {
            let below = (p.0 - 1) as nat;
            let m = holder(u, below);
            lemma_ancestor_chain((0, u), below, 1);
            lemma_parent(m);
            assert(m == left_child(p) || m == right_child(p));
            assert(t.contains(holder(u, below)));
        } else {
            assert(t.contains(holder(u, l)));
        }
    }
}

/// Replacing the two halves of a block by the block keeps every unit
/// covered.
pub proof fn lemma_merge_covers(s: Set<Node>, p: Node, units: nat)
    requires
        covers(s, units),
        p.0 >= 1,
    ensures
        covers(s.remove(left_child(p)).remove(right_child(p)).insert(p), units),
{
    let t = s.remove(left_child(p)).remove(right_child(p)).insert(p);
    lemma_children(p);
    assert forall|u: nat| u < units implies #[trigger] covered(t, u) by {
        assert(covered(s, u));
        let l = choose|l: nat| #[trigger] s.contains(holder(u, l));
        let m = holder(u, l);
        if m == left_child(p) || m == right_child(p) {
            lemma_ancestor_chain((0, u), l, 1);
            assert(holder(u, l + 1) == p);
            assert(t.contains(holder(u, l + 1)));
        } else {
            assert(t.contains(holder(u, l)));
        }
    }
}

} // verus!

verus! {

/// The block of level `l` with index `j` starts at unit `j * 2^l`, and that
/// unit is held by it.
pub proof fn lemma_holder_of_start(j: nat, l: nat)
    ensures
        holder(j * pow2(l), l) == (l, j),
{
    lemma_pow2_pos(l);
    vstd::arithmetic::div_mod::lemma_div_multiples_vanish(j as int, pow2(l) as int);
    assert(j * pow2(l) == pow2(l) * j) by (nonlinear_arith);
}

/// Below level `l`, the first unit of the block `j` of level `l` is held by
/// the first of the blocks that make it up.
pub proof fn lemma_holder_below(j: nat, l: nat, low: nat)
    requires
        low <= l,
    ensures
        holder(j * pow2(l), low) == (low, j * pow2((l - low) as nat)),
{
    let k = (l - low) as nat;
    lemma_pow2_pos(low);
    lemma_pow2_adds(k, low);
    assert(j * pow2(l) == (j * pow2(k)) * pow2(low)) by (nonlinear_arith)
        requires
            pow2(l) == pow2(k) * pow2(low),
    ;
    lemma_holder_of_start(j * pow2(k), low);
}

/// Above the level of a block, a unit of the block is held by the ancestors
/// of the block.
pub proof fn lemma_holder_above(u: nat, l: nat, k: nat)
    ensures
        holder(u, l + k) == ancestor(holder(u, l), k),
{
    lemma_ancestor_chain((0, u), l, k);
}

/// A block and its buddy have the same ancestors.
pub proof fn lemma_sibling_ancestors(n: Node, k: nat)
    requires
        k >= 1,
    ensures
        ancestor((n.0, sibling(n.1)), k) == ancestor(n, k),
{
    let m: Node = (n.0, sibling(n.1));
    lemma_parent(n);
    lemma_parent(m);
    assert(ancestor(n, 1) == ancestor(m, 1));
    lemma_ancestor_chain(n, 1, (k - 1) as nat);
    lemma_ancestor_chain(m, 1, (k - 1) as nat);
}

} // verus!
