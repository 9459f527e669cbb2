//! A buddy allocator that keeps a record of what it has handed out, so that
//! a release can be tested before it is made.

use crate::buddy::block::{coalesce, first_fit, initially_free, span_of, BuddyBlock};
use crate::buddy::info::{constructible, layout_of};
use crate::buddy::layout::{block_bytes, level_for, round_up_unit, unit_count, UNIT_SIZE};
use crate::buddy::tree::{ancestor, Node};
use crate::numeric::div_ceil;
use std::collections::HashMap;
use vstd::arithmetic::power2::{lemma_pow2_adds, lemma_pow2_pos, pow2};
use vstd::prelude::*;

verus! {

/// The block that `bytes` bytes at `addr` stand for, where the data starts
/// at `start`: its level is the lowest that holds the bytes, its index the
/// one of the block in which `addr` lies.
pub open spec fn node_at(start: int, addr: int, bytes: int) -> Node {
    let level = level_for((bytes / (UNIT_SIZE as int)) as nat);
    (level, ((addr - start) / (block_bytes(level) as int)) as nat)
}

/// The address at which the block `n` starts, where the data starts at
/// `start`.
pub open spec fn addr_of(start: int, n: Node) -> int {
    start + n.1 * block_bytes(n.0)
}

/// Of two blocks of different levels that start at the same unit, the
/// smaller lies inside the larger.
proof fn lemma_same_start_nested(a: Node, b: Node)
    requires
        a.0 < b.0,
        a.1 * block_bytes(a.0) == b.1 * block_bytes(b.0),
    ensures
        ancestor(a, (b.0 - a.0) as nat) == b,
{
    let k = (b.0 - a.0) as nat;
    lemma_pow2_pos(a.0);
    lemma_pow2_pos(k);
    lemma_pow2_adds(k, a.0);
    let pa = pow2(a.0) as int;
    let pk = pow2(k) as int;
    assert(a.1 == b.1 * pk) by (nonlinear_arith)
        requires
            a.1 * (UNIT_SIZE * pa) == b.1 * (UNIT_SIZE * (pk * pa)),
            pa > 0,
    ;
    vstd::arithmetic::div_mod::lemma_div_multiples_vanish(b.1 as int, pk);
    assert(b.1 * pk == pk * b.1) by (nonlinear_arith);
}

/// Two blocks of one level that start at the same address are one block.
proof fn lemma_same_start_same_level(a: Node, b: Node)
    requires
        a.0 == b.0,
        a.1 * block_bytes(a.0) == b.1 * block_bytes(b.0),
    ensures
        a == b,
{
    lemma_pow2_pos(a.0);
    let p = pow2(a.0) as int;
    assert(a.1 == b.1) by (nonlinear_arith)
        requires
            a.1 * (UNIT_SIZE * p) == b.1 * (UNIT_SIZE * p),
            p > 0,
    ;
}

/// Two different blocks that are both handed out do not start at the same
/// address.
proof fn lemma_starts_differ(buddy: BuddyBlock, a: Node, b: Node)
    requires
        buddy.wf(),
        buddy.outstanding().contains_key(a),
        buddy.outstanding().contains_key(b),
        a != b,
    ensures
        a.1 * block_bytes(a.0) != b.1 * block_bytes(b.0),
{
    if a.1 * block_bytes(a.0) == b.1 * block_bytes(b.0) {
        assert(buddy.occupied().contains(a));
        assert(buddy.occupied().contains(b));
        if a.0 == b.0 {
            lemma_same_start_same_level(a, b);
        } else if a.0 < b.0 {
            lemma_same_start_nested(a, b);
            assert(buddy.occupied().contains(ancestor(a, (b.0 - a.0) as nat)));
        } else {
            lemma_same_start_nested(b, a);
            assert(buddy.occupied().contains(ancestor(b, (a.0 - b.0) as nat)));
        }
    }
}

/// A block is the block that its own address and bytes stand for, where
/// the bytes are whole units and its level is the lowest that holds them.
proof fn lemma_node_at_addr(start: int, n: Node, bytes: int)
    requires
        bytes >= 0,
        level_for((bytes / (UNIT_SIZE as int)) as nat) == n.0,
    ensures
        node_at(start, addr_of(start, n), bytes) == n,
        (addr_of(start, n) - start) % (block_bytes(n.0) as int) == 0,
{
    lemma_pow2_pos(n.0);
    let size = block_bytes(n.0) as int;
    vstd::arithmetic::div_mod::lemma_div_multiples_vanish(n.1 as int, size);
    vstd::arithmetic::div_mod::lemma_mod_multiples_basic(n.1 as int, size);
    assert(n.1 * size == size * n.1) by (nonlinear_arith);
}

/// A buddy allocator with a table of the blocks that it has handed out:
/// for the address of each, the bytes that were asked for, rounded up to
/// whole units.
pub struct CheckedBuddy {
    buddy: BuddyBlock,
    granted: HashMap<usize, usize>,
}

impl CheckedBuddy {
    /// The buddy allocator.
    pub closed spec fn inner(&self) -> BuddyBlock {
        self.buddy
    }

    /// The table: the address of each block that is handed out, with its
    /// bytes.
    pub closed spec fn table(&self) -> Map<usize, usize> {
        self.granted@
    }

    /// The table holds exactly the blocks that the allocator has handed out.
    pub open spec fn matches(&self) -> bool {
        let start = self.inner().data_start() as int;
        let out = self.inner().outstanding();
        &&& forall|a: usize| #[trigger]
            self.table().contains_key(a) ==> {
                let n = node_at(start, a as int, self.table()[a] as int);
                &&& addr_of(start, n) == a
                &&& out.contains_key(n)
                &&& out[n] == self.table()[a]
            }
        &&& forall|n: Node| #[trigger]
            out.contains_key(n) ==> {
                let a = addr_of(start, n);
                &&& a <= usize::MAX
                &&& self.table().contains_key(a as usize)
                &&& self.table()[a as usize] == out[n]
                &&& node_at(start, a, out[n] as int) == n
            }
    }

    /// The allocator is consistent and the table holds what it has handed
    /// out.
    pub open spec fn wf(&self) -> bool {
        self.inner().wf() && self.matches()
    }

    /// Whether `len` bytes at `addr` name a block that is handed out, by its
    /// own address and with the bytes that it was handed out for.
    pub open spec fn is_held(&self, addr: nat, len: nat) -> bool {
        let (start, bytes) = span_of(addr, len);
        let n = self.inner().node_of(addr, len);
        &&& self.inner().holds(addr, len)
        &&& (start - self.inner().data_start()) % (block_bytes(n.0) as int) == 0
    }

    /// An allocator over no region.
    pub fn empty() -> (r: Self)
        ensures
            r.wf(),
            r.inner().layout() == crate::buddy::info::empty_layout(),
            r.inner().used_bytes() == 0,
            r.table() == Map::<usize, usize>::empty(),
    {
        broadcast use vstd::std_specs::hash::group_hash_axioms;

        CheckedBuddy { buddy: BuddyBlock::empty(), granted: HashMap::new() }
    }

    /// An allocator over the region of `total_len` bytes at `raw_addr`, with
    /// nothing handed out.
    pub fn new(raw_addr: usize, total_len: usize) -> (r: Self)
        requires
            constructible(raw_addr as nat, total_len as nat),
        ensures
            r.wf(),
            r.inner().layout() == layout_of(raw_addr as nat, total_len as nat),
            r.inner().used_bytes() == 0,
            r.inner().outstanding() == Map::<Node, nat>::empty(),
            r.table() == Map::<usize, usize>::empty(),
            forall|l: nat, j: nat|
                r.inner().is_free(l, j) <==> initially_free(r.inner().layout().units, l, j),
    {
        broadcast use vstd::std_specs::hash::group_hash_axioms;

        CheckedBuddy { buddy: BuddyBlock::new(raw_addr, total_len), granted: HashMap::new() }
    }

    /// The buddy allocator.
    pub fn buddy(&self) -> (r: &BuddyBlock)
        ensures
            *r == self.inner(),
    {
        &self.buddy
    }

    /// Hands out `len` bytes as the buddy allocator does, and notes the
    /// block in the table.
    pub fn allocate(&mut self, len: usize) -> (r: Option<usize>)
        requires
            old(self).wf(),
            len > 0,
        ensures
            final(self).wf(),
            final(self).inner().layout() == old(self).inner().layout(),
            r is None ==> {
                &&& forall|n: Node| #[trigger]
                    old(self).inner().free_blocks().contains(n) ==> n.0 < level_for(
                        unit_count(len as nat),
                    )
                &&& final(self).inner().free_blocks() == old(self).inner().free_blocks()
                &&& final(self).inner().outstanding() == old(self).inner().outstanding()
                &&& final(self).inner().used_bytes() == old(self).inner().used_bytes()
                &&& final(self).table() == old(self).table()
            },
            r is Some ==> {
                &&& exists|n: Node|
                    {
                        &&& first_fit(
                            old(self).inner().free_blocks(),
                            level_for(unit_count(len as nat)),
                            n,
                        )
                        &&& #[trigger] old(self).inner().carved(
                            final(self).inner(),
                            n,
                            level_for(unit_count(len as nat)),
                            round_up_unit(len as nat),
                            r->0 as nat,
                        )
                    }
                &&& !old(self).table().contains_key(r->0)
                &&& final(self).table() == old(self).table().insert(
                    r->0,
                    round_up_unit(len as nat) as usize,
                )
            },
            r is Some && old(self).inner().data_start() % (UNIT_SIZE as nat) == 0 && old(
                self,
            ).inner().data_size() % (UNIT_SIZE as nat) == 0 ==> final(self).is_held(
                r->0 as nat,
                len as nat,
            ),
    {
        broadcast use vstd::std_specs::hash::group_hash_axioms;

        let ghost pre = *self;
        let ghost fit = level_for(unit_count(len as nat));
        let ghost bytes = round_up_unit(len as nat);
        proof {
            crate::buddy::info::lemma_ceil_div_units(len as nat);
        }
        let r = self.buddy.allocate(len);
        match r {
            None => {
                proof {
                    assert(self.table() == pre.table());
                    assert forall|a: usize| #[trigger] self.table().contains_key(a) implies {
                        let n = node_at(
                            self.inner().data_start() as int,
                            a as int,
                            self.table()[a] as int,
                        );
                        &&& addr_of(self.inner().data_start() as int, n) == a
                        &&& self.inner().outstanding().contains_key(n)
                        &&& self.inner().outstanding()[n] == self.table()[a]
                    } by {
                        assert(pre.table().contains_key(a));
                    }
                    assert forall|n: Node| #[trigger]
                        self.inner().outstanding().contains_key(n) implies {
                        let a = addr_of(self.inner().data_start() as int, n);
                        &&& a <= usize::MAX
                        &&& self.table().contains_key(a as usize)
                        &&& self.table()[a as usize] == self.inner().outstanding()[n]
                        &&& node_at(
                            self.inner().data_start() as int,
                            a,
                            self.inner().outstanding()[n] as int,
                        ) == n
                    } by {
                        assert(pre.inner().outstanding().contains_key(n));
                    }
                }
                None
            },
            Some(addr) => {
                proof {
                    let post = self.buddy;
                    let start = pre.buddy.data_start() as int;
                    let n = choose|n: Node|
                        {
                            &&& first_fit(pre.buddy.free_blocks(), fit, n)
                            &&& #[trigger] pre.buddy.carved(post, n, fit, bytes, addr as nat)
                        };
                    let grant: Node = (fit, n.1 * pow2((n.0 - fit) as nat));
                    pre.buddy.lemma_grant_in_data(post, n, fit, bytes, addr as nat);
                    assert(bytes / (UNIT_SIZE as nat) == unit_count(len as nat)) by {
                        vstd::arithmetic::div_mod::lemma_div_multiples_vanish(
                            unit_count(len as nat) as int,
                            UNIT_SIZE as int,
                        );
                        assert(unit_count(len as nat) * (UNIT_SIZE as nat) == (UNIT_SIZE as nat)
                            * unit_count(len as nat)) by (nonlinear_arith);
                    }
                    assert(addr_of(start, grant) == addr) by {
                        assert(n.1 * pow2((n.0 - fit) as nat) * block_bytes(fit) == grant.1
                            * block_bytes(grant.0));
                    }
                    lemma_node_at_addr(start, grant, bytes as int);
                    pre.buddy.lemma_layout_wf();
                    if pre.table().contains_key(addr) {
                        let other = node_at(start, addr as int, pre.table()[addr] as int);
                        assert(pre.buddy.outstanding().contains_key(other));
                        assert(other != grant);
                        assert(post.outstanding().contains_key(other));
                        assert(post.outstanding().contains_key(grant));
                        lemma_starts_differ(post, other, grant);
                    }
                    assert forall|m: Node| #[trigger]
                        pre.buddy.outstanding().contains_key(m) implies addr_of(start, m)
                        != addr by {
                        assert(post.outstanding().contains_key(m));
                        lemma_starts_differ(post, m, grant);
                    }
                    if start % (UNIT_SIZE as int) == 0 && pre.buddy.data_size() % (
                    UNIT_SIZE as nat) == 0 {
                        lemma_pow2_pos(fit);
                        assert(grant.1 * block_bytes(fit) == (grant.1 * pow2(fit)) * UNIT_SIZE)
                            by (nonlinear_arith)
                            requires
                                block_bytes(fit) == UNIT_SIZE * pow2(fit),
                        ;
                        vstd::arithmetic::div_mod::lemma_mod_multiples_basic(
                            (grant.1 * pow2(fit)) as int,
                            UNIT_SIZE as int,
                        );
                        assert(addr % UNIT_SIZE == 0);
                        assert(span_of(addr as nat, len as nat) == (addr as nat, bytes));
                        assert(post.node_of(addr as nat, len as nat) == grant);
                        assert(post.outstanding().contains_key(grant));
                        assert(post.outstanding()[grant] == bytes);
                        assert(grant.0 < post.layout().levels);
                        assert(bytes > 0);
                        assert(post.layout().units * UNIT_SIZE == post.data_size());
                        assert(post.data_start() == start);
                        assert(start <= addr);
                        assert(addr + bytes <= start + post.data_size());
                        assert(post.holds(addr as nat, len as nat));
                    }
                }
                self.granted.insert(addr, need_bytes(len));
                Some(addr)
            },
        }
    }

    /// Whether `len` bytes at `addr` name a block that is handed out, by its
    /// own address and with the bytes that it was handed out for.
    pub fn holds_block(&self, addr: usize, len: usize) -> (ok: bool)
        requires
            self.wf(),
        ensures
            ok == self.is_held(addr as nat, len as nat),
            ok ==> self.inner().holds(addr as nat, len as nat),
    {
        broadcast use vstd::std_specs::hash::group_hash_axioms;

        proof {
            self.buddy.lemma_layout_wf();
        }
        let info = self.buddy.info();
        let data_addr = info.data_addr();
        let data_len = info.data_len();
        if len > usize::MAX - addr || addr + len > usize::MAX - (UNIT_SIZE - 1) {
            proof {
                assert(usize::MAX == 0xffff_ffff || usize::MAX == 0xffff_ffff_ffff_ffff);
                if addr + len <= usize::MAX {
                    assert(round_up_unit((addr + len) as nat) > usize::MAX);
                }
            }
            return false;
        }
        proof {
            crate::buddy::info::lemma_ceil_div_units((addr + len) as nat);
        }
        let aligned_addr = addr / UNIT_SIZE * UNIT_SIZE;
        let aligned_end = div_ceil(addr + len, UNIT_SIZE) * UNIT_SIZE;
        let aligned_len = aligned_end - aligned_addr;
        if !(data_addr <= aligned_addr && aligned_addr < data_addr + data_len) {
            return false;
        }
        if !(data_addr < aligned_end && aligned_end <= data_addr + data_len) {
            return false;
        }
        let ghost start = self.buddy.data_start() as int;
        let ghost n = self.buddy.node_of(addr as nat, len as nat);
        proof {
            assert(n == node_at(start, aligned_addr as int, aligned_len as int));
            if self.buddy.outstanding().contains_key(n) && self.buddy.outstanding()[n]
                == aligned_len && (aligned_addr - start) % (block_bytes(n.0) as int) == 0 {
                lemma_pow2_pos(n.0);
                vstd::arithmetic::div_mod::lemma_fundamental_div_mod(
                    aligned_addr - start,
                    block_bytes(n.0) as int,
                );
                assert(addr_of(start, n) == aligned_addr) by {
                    let size = block_bytes(n.0) as int;
                    assert(size * ((aligned_addr - start) / size) == ((aligned_addr - start)
                        / size) * size) by (nonlinear_arith);
                }
            }
            if self.table().contains_key(aligned_addr) && self.table()[aligned_addr]
                == aligned_len {
                assert(addr_of(start, n) == aligned_addr);
                lemma_pow2_pos(n.0);
                vstd::arithmetic::div_mod::lemma_mod_multiples_basic(
                    n.1 as int,
                    block_bytes(n.0) as int,
                );
            }
        }
        match self.granted.get(&aligned_addr) {
            Some(bytes) => *bytes == aligned_len,
            None => false,
        }
    }

    /// Takes back `len` bytes at `addr` where they name a block that is
    /// handed out, and says whether they do. Nothing happens where `len` is
    /// zero. A range that names no such block is refused and changes
    /// nothing.
    pub fn try_dealloc(&mut self, addr: usize, len: usize) -> (ok: bool)
        requires
            old(self).wf(),
        ensures
            final(self).wf(),
            final(self).inner().layout() == old(self).inner().layout(),
            ok == (len == 0 || old(self).is_held(addr as nat, len as nat)),
            !ok || len == 0 ==> {
                &&& final(self).inner().free_blocks() == old(self).inner().free_blocks()
                &&& final(self).inner().outstanding() == old(self).inner().outstanding()
                &&& final(self).inner().used_bytes() == old(self).inner().used_bytes()
                &&& final(self).table() == old(self).table()
            },
            ok && len > 0 ==> {
                let n = old(self).inner().node_of(addr as nat, len as nat);
                &&& final(self).inner().free_blocks() == coalesce(
                    old(self).inner().free_blocks(),
                    n,
                    old(self).inner().layout().levels,
                )
                &&& final(self).inner().outstanding() == old(self).inner().outstanding().remove(n)
                &&& final(self).inner().used_bytes() == old(self).inner().used_bytes() - span_of(
                    addr as nat,
                    len as nat,
                ).1
                &&& final(self).table() == old(self).table().remove(
                    span_of(addr as nat, len as nat).0 as usize,
                )
            },
    {
        broadcast use vstd::std_specs::hash::group_hash_axioms;

        if len == 0 {
            return true;
        }
        if !self.holds_block(addr, len) {
            return false;
        }
        let ghost pre = *self;
        let ghost start = pre.buddy.data_start() as int;
        let ghost n = pre.buddy.node_of(addr as nat, len as nat);
        let aligned_addr = addr / UNIT_SIZE * UNIT_SIZE;
        proof {
            pre.buddy.lemma_layout_wf();
            let bytes = span_of(addr as nat, len as nat).1;
            assert(n == node_at(start, aligned_addr as int, bytes as int));
            lemma_pow2_pos(n.0);
            vstd::arithmetic::div_mod::lemma_fundamental_div_mod(
                aligned_addr - start,
                block_bytes(n.0) as int,
            );
            assert(addr_of(start, n) == aligned_addr) by {
                let size = block_bytes(n.0) as int;
                assert(size * ((aligned_addr - start) / size) == ((aligned_addr - start) / size)
                    * size) by (nonlinear_arith);
            }
            assert forall|m: Node| #[trigger]
                pre.buddy.outstanding().contains_key(m) && m != n implies addr_of(start, m)
                != aligned_addr by {
                lemma_starts_differ(pre.buddy, m, n);
            }
        }
        self.buddy.dealloc(addr, len);
        self.granted.remove(&aligned_addr);
        true
    }
}

/// `len` rounded up to whole units.
fn need_bytes(len: usize) -> (r: usize)
    requires
        round_up_unit(len as nat) <= usize::MAX,
    ensures
        r == round_up_unit(len as nat),
{
    proof {
        crate::buddy::info::lemma_ceil_div_units(len as nat);
    }
    div_ceil(len, UNIT_SIZE) * UNIT_SIZE
}

} // verus!
