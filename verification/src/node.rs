//! The radix-tree node and the allocation, free and query algorithms on it.
//!
//! A node holds a 64-bit occupancy bitmap and 64 optional children.  At the
//! leaf level (level 0) bit `i` of the bitmap says that the id with low six
//! bits `i` is allocated.  At an internal level, bit `i` says that child `i`
//! is completely full, while an absent child stands for a completely empty
//! subtree.  These are two distinct signals: a clear bit over a present child
//! means a partially filled subtree.

use vstd::arithmetic::div_mod::{
    lemma_fundamental_div_mod, lemma_fundamental_div_mod_converse, lemma_mod_breakdown,
    lemma_small_mod,
};
use vstd::arithmetic::power2::{lemma_pow2_adds, lemma_pow2_pos, pow2};
use vstd::bits::{
    lemma_low_bits_mask_values, lemma_u64_low_bits_mask_is_mod, lemma_u64_shl_is_mul,
    lemma_u64_shr_is_div, low_bits_mask,
};
use vstd::prelude::*;
use vstd::string::StringExecFns;

verus! {

/// One level of the tree consumes this many bits of an id.
pub const IDA_SHIFT: usize = 6;

/// Branching factor: the width of the occupancy bitmap, `2^IDA_SHIFT`.
pub const IDA_BITMAP_BITS: usize = 64;

/// Number of levels needed so that the tree spans the whole 64-bit id space;
/// the integer-division form of `ceil(64 / IDA_SHIFT)`.
pub const IDA_MAX_LEVELS: usize = (64 + IDA_SHIFT - 1) / IDA_SHIFT;

/// Child slots the topmost level can use.  Eleven levels of six bits
/// overshoot a 64-bit id by two bits, so the root addresses `2^(64 - 60)`
/// slots; ids under its other slots would not fit in a machine word.
const IDA_TOP_SLOTS: usize = 16;

/// One node of the radix tree.  `children` always has 64 slots; a `None`
/// slot is an absent (completely empty, never stored) subtree.
#[derive(Debug)]
pub struct IdaNode {
    bitmap: u64,
    children: Vec<Option<Box<IdaNode>>>,
}

/// How many ids a subtree rooted at `level` spans: `2^(6 * (level + 1))`,
/// clipped to the `2^64` ids that fit in a machine word.
pub open spec fn id_cap(level: nat) -> nat {
    if 6 * level + 6 <= 64 {
        pow2(6 * level + 6)
    } else {
        pow2(64)
    }
}

/// How many of a node's 64 child slots lie inside the machine-word id space.
/// Every level but the topmost uses all 64; the topmost uses 16, since
/// 11 levels of 6 bits overshoot 64 bits.
pub open spec fn slot_count(level: nat) -> nat {
    if 6 * level + 6 <= 64 {
        64
    } else {
        pow2((64 - 6 * level) as nat)
    }
}

/// Bit `i` of the word `w`.
pub open spec fn nth_bit(w: u64, i: u64) -> bool {
    (w >> i) & 1u64 == 1u64
}

/// The powers of two this module juggles, pinned to their values.
proof fn lemma_pow_facts()
    ensures
        pow2(0) == 1,
        pow2(4) == 16,
        pow2(6) == 64,
        pow2(60) == 0x1000000000000000,
        pow2(64) == 0x10000000000000000,
{
    vstd::arithmetic::power2::lemma2_to64();
    vstd::arithmetic::power2::lemma2_to64_rest();
}

/// How a level's id span splits into child slots: `slot_count` children of
/// `pow2(6 * level)` ids each, the child span being the next level's cap.
proof fn lemma_cap_layout(level: nat)
    requires
        1 <= level < 11,
    ensures
        id_cap(level) == slot_count(level) * pow2(6 * level),
        pow2(6 * level) == id_cap((level - 1) as nat),
        1 <= slot_count(level) <= 64,
        0 < pow2(6 * level),
        0 < id_cap(level) <= pow2(64),
{
    lemma_pow_facts();
    lemma_pow2_pos(6 * level);
    if 6 * level + 6 <= 64 {
        lemma_pow2_adds(6 * level, 6);
        if 6 * level + 6 < 64 {
            vstd::arithmetic::power2::lemma_pow2_strictly_increases(6 * level + 6, 64);
        }
    } else {
        assert(level == 10);
        lemma_pow2_adds(60, 4);
    }
}

/// Splitting an id at `level` into its slot index and its remainder within
/// the child's span.
proof fn lemma_split_id(level: nat, id: int)
    requires
        1 <= level < 11,
        0 <= id < id_cap(level),
    ensures
        0 <= id / (pow2(6 * level) as int) < slot_count(level),
        0 <= id % (pow2(6 * level) as int) < id_cap((level - 1) as nat),
        id == (id / (pow2(6 * level) as int)) * (pow2(6 * level) as int) + id % (pow2(6
            * level) as int),
{
    lemma_cap_layout(level);
    let p = pow2(6 * level) as int;
    let sc = slot_count(level) as int;
    vstd::arithmetic::div_mod::lemma_div_pos_is_pos(id, p);
    assert(p * sc == sc * p) by (nonlinear_arith);
    vstd::arithmetic::div_mod::lemma_multiply_divide_lt(id, p, sc);
    vstd::arithmetic::div_mod::lemma_mod_bound(id, p);
    lemma_fundamental_div_mod(id, p);
    assert(p * (id / p) == (id / p) * p) by (nonlinear_arith);
}

/// Joining a slot index and a remainder back into an id at `level`.
proof fn lemma_join_id(level: nat, s: int, r: int)
    requires
        1 <= level < 11,
        0 <= s < slot_count(level),
        0 <= r < pow2(6 * level),
    ensures
        0 <= s * (pow2(6 * level) as int) + r < id_cap(level),
        (s * (pow2(6 * level) as int) + r) / (pow2(6 * level) as int) == s,
        (s * (pow2(6 * level) as int) + r) % (pow2(6 * level) as int) == r,
{
    lemma_cap_layout(level);
    let p = pow2(6 * level) as int;
    let sc = slot_count(level) as int;
    assert(0 <= s * p + r) by (nonlinear_arith)
        requires
            0 <= s && 0 <= r && 0 < p,
    ;
    assert(s * p + r < sc * p) by (nonlinear_arith)
        requires
            0 <= s && s < sc && 0 <= r && r < p && 0 < p,
    ;
    lemma_fundamental_div_mod_converse(s * p + r, p, s, r);
}

/// Reducing an id modulo a level's cap commutes with reducing it modulo the
/// child's smaller span.
proof fn lemma_chain_mod(level: nat, id: int)
    requires
        1 <= level < 11,
        0 <= id,
    ensures
        (id % (id_cap(level) as int)) % (pow2(6 * level) as int) == id % (pow2(6 * level) as int),
{
    lemma_cap_layout(level);
    let p = pow2(6 * level) as int;
    let sc = slot_count(level) as int;
    assert(p * sc == sc * p) by (nonlinear_arith);
    vstd::arithmetic::div_mod::lemma_mod_mod(id, p, sc);
}

/// The slot index the executable code computes by shifting and masking is
/// the slot index of the id reduced into the level's span.
proof fn lemma_exec_slot(id: u64, level: nat)
    requires
        1 <= level < 11,
    ensures
        ((id >> ((6 * level) as u64)) & 63u64) < 64,
        ((id >> ((6 * level) as u64)) & 63u64) as int == ((id as int) % (id_cap(level) as int)) / (
        pow2(6 * level) as int),
{
    lemma_pow_facts();
    lemma_cap_layout(level);
    let sh = (6 * level) as u64;
    let p = pow2(6 * level) as int;
    let sc = slot_count(level) as int;
    lemma_u64_shr_is_div(id, sh);
    let q = (id >> sh) as int;
    lemma_low_bits_mask_values();
    lemma_u64_low_bits_mask_is_mod(id >> sh, 6);
    assert((id >> sh) & 63u64 == (id >> sh) & (low_bits_mask(6) as u64));
    // so the executable value is `q % 64`
    vstd::arithmetic::div_mod::lemma_mod_bound(q, 64);
    if 6 * level + 6 <= 64 {
        // the cap is `p * 64`, and `(id % (p * 64)) / p == (id / p) % 64`
        lemma_mod_breakdown(id as int, p, 64);
        assert(p * 64 == 64 * p) by (nonlinear_arith);
        vstd::arithmetic::div_mod::lemma_mod_bound(id as int, p);
        assert((id as int) % (p * 64) == (q % 64) * p + (id as int) % p) by (nonlinear_arith)
            requires
                (id as int) % (p * 64) == p * (((id as int) / p) % 64) + (id as int) % p && q == (
                id as int) / p,
        ;
        lemma_fundamental_div_mod_converse(
            (id as int) % (p * 64),
            p,
            q % 64,
            (id as int) % p,
        );
    } else {
        // the top level: the cap is all of `pow2(64)`, so reduction is a no-op
        // and the quotient is below 16, making the mask a no-op too
        assert(level == 10);
        lemma_small_mod(id as nat, pow2(64));
        vstd::arithmetic::div_mod::lemma_multiply_divide_lt(id as int, p, 16);
        assert(p * 16 == 16 * p) by (nonlinear_arith);
        lemma_small_mod(q as nat, 64);
    }
}

/// The mask the executable code applies at the leaf level keeps exactly the
/// id's position within its 64-id block.
proof fn lemma_exec_leaf(id: u64)
    ensures
        (id & 63u64) < 64,
        (id & 63u64) as int == (id as int) % (id_cap(0) as int),
{
    lemma_pow_facts();
    lemma_low_bits_mask_values();
    lemma_u64_low_bits_mask_is_mod(id, 6);
    assert(id & 63u64 == id & (low_bits_mask(6) as u64));
    vstd::arithmetic::div_mod::lemma_mod_bound(id as int, 64);
}

/// Setting bit `b` leaves every other bit alone.
proof fn lemma_bit_or(w: u64, b: u64)
    requires
        b < 64,
    ensures
        forall|k: u64|
            k < 64 ==> (#[trigger] nth_bit(w | (1u64 << b), k) <==> (nth_bit(w, k) || k == b)),
{
    assert forall|k: u64|
        k < 64 implies (#[trigger] nth_bit(w | (1u64 << b), k) <==> (nth_bit(w, k) || k
        == b)) by {
        assert((((w | (1u64 << b)) >> k) & 1u64 == 1u64) <==> (((w >> k) & 1u64 == 1u64) || k
            == b)) by (bit_vector)
            requires
                k < 64 && b < 64,
        ;
    }
}

/// Clearing bit `b` leaves every other bit alone.
proof fn lemma_bit_andnot(w: u64, b: u64)
    requires
        b < 64,
    ensures
        forall|k: u64|
            k < 64 ==> (#[trigger] nth_bit(w & !(1u64 << b), k) <==> (nth_bit(w, k) && k != b)),
{
    assert forall|k: u64|
        k < 64 implies (#[trigger] nth_bit(w & !(1u64 << b), k) <==> (nth_bit(w, k) && k
        != b)) by {
        assert((((w & !(1u64 << b)) >> k) & 1u64 == 1u64) <==> (((w >> k) & 1u64 == 1u64) && k
            != b)) by (bit_vector)
            requires
                k < 64 && b < 64,
        ;
    }
}

/// A word is all ones exactly when each of its 64 bits is set.
proof fn lemma_all_ones(w: u64)
    ensures
        (w == u64::MAX) <==> (forall|k: u64| k < 64 ==> #[trigger] nth_bit(w, k)),
{
    if w == u64::MAX {
        assert forall|k: u64| k < 64 implies #[trigger] nth_bit(w, k) by {
            assert((0xffff_ffff_ffff_ffffu64 >> k) & 1u64 == 1u64) by (bit_vector)
                requires
                    k < 64,
            ;
        }
    }
    if w != u64::MAX {
        vstd::std_specs::bits::axiom_u64_trailing_zeros(!w);
        let t = vstd::std_specs::bits::u64_trailing_zeros(!w) as u64;
        assert(!w != 0u64) by (bit_vector)
            requires
                w != 0xffff_ffff_ffff_ffffu64,
        ;
        assert(((!w) >> t) & 1u64 == 1u64);
        assert(((!w) >> t) & 1u64 == 1u64 ==> ((w >> t) & 1u64 == 0u64)) by (bit_vector);
        assert(!nth_bit(w, t));
    }
}

/// A word is zero exactly when each of its 64 bits is clear.
proof fn lemma_all_zeros(w: u64)
    ensures
        (w == 0u64) <==> (forall|k: u64| k < 64 ==> !(#[trigger] nth_bit(w, k))),
{
    if w == 0u64 {
        assert forall|k: u64| k < 64 implies !(#[trigger] nth_bit(w, k)) by {
            assert((0u64 >> k) & 1u64 == 0u64) by (bit_vector);
        }
    }
    if w != 0u64 {
        vstd::std_specs::bits::axiom_u64_trailing_zeros(w);
        let t = vstd::std_specs::bits::u64_trailing_zeros(w) as u64;
        assert(nth_bit(w, t));
    }
}

/// Finds the lowest clear bit of `w` by scanning upward, the way the
/// allocation policy wants ids handed out.
fn lowest_clear_bit(w: u64) -> (r: u64)
    requires
        w != u64::MAX,
    ensures
        r < 64,
        !nth_bit(w, r),
        forall|k: u64| k < r ==> #[trigger] nth_bit(w, k),
{
    let mut i: u64 = 0;
    while i < 64
        invariant
            i <= 64,
            forall|k: u64| k < i ==> #[trigger] nth_bit(w, k),
        decreases 64 - i,
    {
        if (w >> i) & 1u64 == 0u64 {
            return i;
        }
        proof {
            assert((w >> i) & 1u64 == 1u64) by (bit_vector)
                requires
                    (w >> i) & 1u64 != 0u64,
            ;
            assert(nth_bit(w, i));
        }
        i = i + 1;
    }
    proof {
        lemma_all_ones(w);
    }
    0
}

impl IdaNode {
    /// The abstract state of a subtree rooted at `level`: which ids in
    /// `[0, id_cap(level))` are allocated.
    pub closed spec fn marked(self, level: nat, id: int) -> bool
        decreases level,
    {
        if !(0 <= id < id_cap(level)) {
            false
        } else if level == 0 {
            nth_bit(self.bitmap, id as u64)
        } else {
            let p = pow2(6 * level) as int;
            let s = id / p;
            let r = id % p;
            self.children@[s] is Some && self.children@[s]->Some_0.marked((level - 1) as nat, r)
        }
    }

    /// Every id the subtree spans is allocated.
    pub open spec fn full(self, level: nat) -> bool {
        forall|j: int| 0 <= j < id_cap(level) ==> self.marked(level, j)
    }

    /// No id the subtree spans is allocated.
    pub open spec fn vacant(self, level: nat) -> bool {
        forall|j: int| 0 <= j < id_cap(level) ==> !self.marked(level, j)
    }

    /// A node exactly as the constructor builds it: clear bitmap, no children.
    pub closed spec fn is_blank(self) -> bool {
        &&& self.bitmap == 0
        &&& self.children@.len() == 64
        &&& forall|s: int| 0 <= s < 64 ==> self.children@[s] is None
    }

    /// Well-formedness of a subtree rooted at `level`:
    /// - every node has its 64 child slots, and a leaf stores no children;
    /// - a present child is well-formed and holds at least one allocation
    ///   (empty subtrees are pruned, never stored);
    /// - an internal bit is set exactly when that child is present and full;
    /// - child slots beyond the machine-word id space stay absent.
    pub closed spec fn wf(self, level: nat) -> bool
        decreases level,
    {
        &&& self.children@.len() == 64
        &&& (level == 0 ==> forall|s: int| 0 <= s < 64 ==> self.children@[s] is None)
        &&& (level > 0 ==> {
            &&& (forall|s: int|
                0 <= s < 64 && (#[trigger] self.children@[s]) is Some ==> {
                    &&& s < slot_count(level)
                    &&& self.children@[s]->Some_0.wf((level - 1) as nat)
                    &&& !self.children@[s]->Some_0.vacant((level - 1) as nat)
                })
            &&& (forall|s: int|
                0 <= s < 64 ==> (nth_bit(self.bitmap, s as u64) <==> ((
                #[trigger] self.children@[s]) is Some && self.children@[s]->Some_0.full((level
                    - 1) as nat))))
        })
    }

    /// Creates an empty node: nothing allocated, no children stored.
    pub fn new() -> (r: Self)
        ensures
            r.is_blank(),
            forall|level: nat| level < IDA_MAX_LEVELS ==> #[trigger] r.wf(level),
            forall|level: nat| level < IDA_MAX_LEVELS ==> #[trigger] r.vacant(level),
    {
        let mut children: Vec<Option<Box<IdaNode>>> = Vec::new();
        let mut i: usize = 0;
        while i < IDA_BITMAP_BITS
            invariant
                i <= 64,
                children@.len() == i,
                forall|s: int| 0 <= s < i ==> children@[s] is None,
            decreases 64 - i,
        {
            children.push(None);
            i = i + 1;
        }
        let r = IdaNode { bitmap: 0, children };
        proof {
            assert(r.is_blank());
            assert forall|level: nat| level < IDA_MAX_LEVELS implies #[trigger] r.wf(level) by {
                r.lemma_blank_wf(level);
            }
            assert forall|level: nat| level < IDA_MAX_LEVELS implies #[trigger] r.vacant(level) by {
                r.lemma_blank_wf(level);
            }
        }
        r
    }

    /// A blank node is well-formed and vacant at every level of the tree.
    proof fn lemma_blank_wf(self, level: nat)
        requires
            self.is_blank(),
            level < IDA_MAX_LEVELS,
        ensures
            self.wf(level),
            self.vacant(level),
    {
        lemma_pow_facts();
        lemma_all_zeros(self.bitmap);
        assert forall|j: int| 0 <= j < id_cap(level) implies !self.marked(level, j) by {
            if level > 0 {
                lemma_split_id(level, j);
            }
        }
        assert forall|s: int| 0 <= s < 64 implies !(#[trigger] nth_bit(self.bitmap, s as u64)) by {
        }
    }

    /// Reports whether the node stores no children at all.
    fn no_children(&self) -> (r: bool)
        requires
            self.children@.len() == 64,
        ensures
            r == (forall|s: int| 0 <= s < 64 ==> self.children@[s] is None),
    {
        let mut i: usize = 0;
        while i < IDA_BITMAP_BITS
            invariant
                i <= 64,
                self.children@.len() == 64,
                forall|s: int| 0 <= s < i ==> self.children@[s] is None,
            decreases 64 - i,
        {
            if self.children[i].is_some() {
                return false;
            }
            i = i + 1;
        }
        true
    }

    /// Reports whether `id`, taken modulo the span of a subtree rooted at
    /// `level`, is currently allocated in this subtree.
    pub fn is_allocated(&self, id: u64, level: usize) -> (r: bool)
        requires
            self.wf(level as nat),
            level < IDA_MAX_LEVELS,
        ensures
            r == self.marked(level as nat, (id as int) % (id_cap(level as nat) as int)),
        decreases level,
    {
        let bit_index: u64 = (id >> ((level * IDA_SHIFT) as u64)) & ((IDA_BITMAP_BITS - 1) as u64);

        if level == 0 {
            proof {
                lemma_pow_facts();
                assert(id >> 0u64 == id) by (bit_vector);
                lemma_exec_leaf(id);
            }
            return (self.bitmap >> bit_index) & 1u64 == 1u64;
        }
        proof {
            lemma_cap_layout(level as nat);
            lemma_exec_slot(id, level as nat);
            lemma_chain_mod(level as nat, id as int);
            vstd::arithmetic::div_mod::lemma_mod_bound(
                id as int,
                id_cap(level as nat) as int,
            );
        }
        match &self.children[bit_index as usize] {
            Some(child) => child.is_allocated(id, level - 1),
            None => false,
        }
    }

    /// An unstable diagnostic rendering of this node: its bitmap as 64 bit
    /// characters and one presence mark per child slot.  For debugging only;
    /// the format carries no guarantee and must not be parsed.
    pub fn debug_dump(&self) -> String {
        let mut out = String::new();
        out.append("bitmap:");
        let mut i: u64 = 0;
        while i < 64
            invariant
                i <= 64,
            decreases 64 - i,
        {
            if (self.bitmap >> i) & 1u64 == 1u64 {
                out.append("1");
            } else {
                out.append("0");
            }
            i = i + 1;
        }
        out.append(" children:");
        let mut j: usize = 0;
        while j < self.children.len()
            invariant
                j <= self.children@.len(),
            decreases self.children@.len() - j,
        {
            if self.children[j].is_some() {
                out.append("*");
            } else {
                out.append(".");
            }
            j = j + 1;
        }
        out
    }

    /// Under well-formedness, a subtree is completely full exactly when its
    /// root bitmap is all ones.  This holds at every level whose 64 slots all
    /// lie in the id space, which covers every node a parent inspects.
    proof fn lemma_full_iff_max(self, level: nat)
        requires
            self.wf(level),
            6 * level + 6 <= 64,
        ensures
            (self.bitmap == u64::MAX) <==> self.full(level),
    {
        lemma_pow_facts();
        lemma_all_ones(self.bitmap);
        if level == 0 {
            if self.bitmap == u64::MAX {
                assert forall|j: int| 0 <= j < id_cap(level) implies self.marked(level, j) by {
                    assert(nth_bit(self.bitmap, j as u64));
                }
            } else {
                let k = choose|k: u64| k < 64 && !nth_bit(self.bitmap, k);
                assert(!self.marked(level, k as int));
                assert(!self.full(level));
            }
        } else {
            lemma_cap_layout(level);
            let p = pow2(6 * level) as int;
            if self.bitmap == u64::MAX {
                assert forall|j: int| 0 <= j < id_cap(level) implies self.marked(level, j) by {
                    lemma_split_id(level, j);
                    let s = j / p;
                    assert(nth_bit(self.bitmap, s as u64));
                    assert(self.children@[s] is Some && self.children@[s]->Some_0.full(
                        (level - 1) as nat,
                    ));
                    assert(self.children@[s]->Some_0.marked((level - 1) as nat, j % p));
                }
            } else {
                let k = choose|k: u64| k < 64 && !nth_bit(self.bitmap, k);
                let s = k as int;
                if self.children@[s] is Some && self.children@[s]->Some_0.full(
                    (level - 1) as nat,
                ) {
                    assert(nth_bit(self.bitmap, k));
                }
                if self.children@[s] is None {
                    lemma_join_id(level, s, 0);
                    assert(!self.marked(level, s * p));
                    assert(!self.full(level));
                } else {
                    let c = self.children@[s]->Some_0;
                    assert(!c.full((level - 1) as nat));
                    let r = choose|r: int|
                        0 <= r < id_cap((level - 1) as nat) && !(#[trigger] c.marked(
                            (level - 1) as nat,
                            r,
                        ));
                    lemma_join_id(level, s, r);
                    assert(!self.marked(level, s * p + r));
                    assert(!self.full(level));
                }
            }
        }
    }

    /// Under well-formedness, a subtree is completely empty exactly when its
    /// root node is blank: clear bitmap and no stored children.  This is what
    /// lets a parent decide pruning by looking at one node.
    proof fn lemma_vacant_iff_empty(self, level: nat)
        requires
            self.wf(level),
            level < IDA_MAX_LEVELS,
        ensures
            (self.bitmap == 0 && (forall|s: int| 0 <= s < 64 ==> self.children@[s] is None))
                <==> self.vacant(level),
    {
        lemma_pow_facts();
        lemma_all_zeros(self.bitmap);
        if level == 0 {
            if self.bitmap == 0 {
                assert forall|j: int| 0 <= j < id_cap(level) implies !self.marked(level, j) by {
                    assert(!nth_bit(self.bitmap, j as u64));
                }
            }
            if self.vacant(level) {
                assert forall|k: u64| k < 64 implies !(#[trigger] nth_bit(self.bitmap, k)) by {
                    assert(!self.marked(level, k as int));
                }
            }
        } else {
            lemma_cap_layout(level);
            let p = pow2(6 * level) as int;
            if self.bitmap == 0 && (forall|s: int| 0 <= s < 64 ==> self.children@[s] is None) {
                assert forall|j: int| 0 <= j < id_cap(level) implies !self.marked(level, j) by {
                    lemma_split_id(level, j);
                }
            }
            if self.vacant(level) {
                assert forall|s: int| 0 <= s < 64 implies self.children@[s] is None by {
                    if self.children@[s] is Some {
                        let c = self.children@[s]->Some_0;
                        assert(!c.vacant((level - 1) as nat));
                        let r = choose|r: int|
                            0 <= r < id_cap((level - 1) as nat) && (#[trigger] c.marked(
                                (level - 1) as nat,
                                r,
                            ));
                        lemma_join_id(level, s, r);
                        assert(self.marked(level, s * p + r));
                    }
                }
                assert forall|k: u64| k < 64 implies !(#[trigger] nth_bit(self.bitmap, k)) by {
                    if nth_bit(self.bitmap, k) {
                        assert(self.children@[k as int] is Some);
                    }
                }
            }
        }
    }

    /// Releases `id`, reduced modulo the subtree's span, from the subtree.
    /// Freeing an id that is not allocated, including one whose subtree was
    /// never created or was already pruned, changes nothing.  A child whose
    /// last allocation goes away is removed from the slot table.
    pub fn free(&mut self, id: u64, level: usize)
        requires
            old(self).wf(level as nat),
            level < IDA_MAX_LEVELS,
        ensures
            final(self).wf(level as nat),
            clear_step(
                *old(self),
                *final(self),
                level as nat,
                (id as int) % (id_cap(level as nat) as int),
            ),
        decreases level,
    {
        let bit_index: u64 = (id >> ((level * IDA_SHIFT) as u64)) & ((IDA_BITMAP_BITS - 1) as u64);
        proof {
            lemma_pow_facts();
            if level == 0 {
                assert(id >> 0u64 == id) by (bit_vector);
                lemma_exec_leaf(id);
            } else {
                lemma_cap_layout(level as nat);
                lemma_exec_slot(id, level as nat);
                lemma_chain_mod(level as nat, id as int);
                vstd::arithmetic::div_mod::lemma_mod_bound(id as int, id_cap(level as nat) as int);
                vstd::arithmetic::div_mod::lemma_mod_bound(id as int, pow2(6 * (level as nat)) as int);
            }
            lemma_bit_andnot(self.bitmap, bit_index);
        }

        if level == 0 {
            self.bitmap = self.bitmap & !(1u64 << bit_index);
            proof {
                assert forall|j: int|
                    0 <= j < id_cap(0) implies (self.marked(0, j) <==> (old(self).marked(0, j) && j
                    != (id as int) % (id_cap(0) as int))) by {
                    assert(nth_bit(self.bitmap, j as u64) <==> (nth_bit(old(self).bitmap, j as u64)
                        && j as u64 != bit_index));
                }
            }
            return ;
        }
        self.bitmap = self.bitmap & !(1u64 << bit_index);
        let bi = bit_index as usize;
        let ghost self0 = *old(self);
        let ghost lvl = level as nat;
        let ghost p = pow2(6 * lvl) as int;
        let ghost m = (id as int) % (id_cap(lvl) as int);
        let ghost mr = (id as int) % p;
        let child_opt = take_child(&mut self.children, bi);
        proof {
            assert(m / p == bi as int);
            assert(m % p == mr) by {
                assert((m % p) == ((id as int) % (id_cap(lvl) as int)) % p);
            }
            lemma_fundamental_div_mod(m, p);
        }
        match child_opt {
            Some(mut child) => {
                let ghost c0 = *child;
                proof {
                    assert(self0.children@[bi as int] is Some);
                    assert(c0.wf((lvl - 1) as nat));
                }
                child.free(id, level - 1);
                let prune = child.bitmap == 0 && child.no_children();
                proof {
                    child.lemma_vacant_iff_empty((lvl - 1) as nat);
                }
                if prune {
                    set_child(&mut self.children, bi, None);
                } else {
                    set_child(&mut self.children, bi, Some(child));
                }
            },
            None => {
                set_child(&mut self.children, bi, None);
            },
        }
        proof {
            let b = bi as int;
            // the slot table changed only at slot `b`
            assert(forall|s: int|
                0 <= s < 64 && s != b ==> self.children@[s] == self0.children@[s]);
            // well-formedness is restored
            assert forall|s: int|
                0 <= s < 64 && (#[trigger] self.children@[s]) is Some implies {
                &&& s < slot_count(lvl)
                &&& self.children@[s]->Some_0.wf((lvl - 1) as nat)
                &&& !self.children@[s]->Some_0.vacant((lvl - 1) as nat)
            } by {
                if s != b {
                    assert(self0.children@[s] is Some);
                }
            }
            assert forall|s: int|
                0 <= s < 64 implies (nth_bit(self.bitmap, s as u64) <==> ((
            #[trigger] self.children@[s]) is Some && self.children@[s]->Some_0.full(
                (lvl - 1) as nat,
            ))) by {
                if s != b {
                    assert(nth_bit(self.bitmap, s as u64) <==> nth_bit(self0.bitmap, s as u64));
                } else {
                    assert(!nth_bit(self.bitmap, s as u64));
                    if self.children@[b] is Some {
                        let c1 = self.children@[b]->Some_0;
                        assert(!c1.marked((lvl - 1) as nat, mr));
                        assert(!c1.full((lvl - 1) as nat));
                    }
                }
            }
            assert(self.wf(lvl));
            // the abstract effect: exactly `m` was cleared
            assert forall|j: int|
                0 <= j < id_cap(lvl) implies ((#[trigger] self.marked(lvl, j)) <==> (
            self0.marked(lvl, j) && j != m)) by {
                lemma_split_id(lvl, j);
                let sj = j / p;
                let rj = j % p;
                if sj != b {
                    assert(self.children@[sj] == self0.children@[sj]);
                } else {
                    assert(p * (m / p) == (m / p) * p) by (nonlinear_arith);
                    assert(m == b * p + mr);
                    assert(j == b * p + rj);
                    assert(j == m <==> rj == mr);
                    if self0.children@[b] is Some {
                        let c0 = self0.children@[b]->Some_0;
                        if self.children@[b] is Some {
                            let c1 = self.children@[b]->Some_0;
                            assert(c1.marked((lvl - 1) as nat, rj) <==> (c0.marked(
                                (lvl - 1) as nat,
                                rj,
                            ) && rj != mr));
                        } else {
                            // the child was pruned because it became vacant
                            assert(!(c0.marked((lvl - 1) as nat, rj) && rj != mr));
                        }
                    }
                }
            }
            assert(clear_step(self0, *self, lvl, m));
        }
    }

    /// Allocates the lowest free id of the subtree rooted at `level`,
    /// creating the child nodes its path needs, and returns it.  Returns
    /// `None`, with the subtree untouched, only when every id the subtree
    /// spans is already allocated.
    pub fn allocate(&mut self, level: usize) -> (r: Option<u64>)
        requires
            old(self).wf(level as nat),
            level < IDA_MAX_LEVELS,
        ensures
            final(self).wf(level as nat),
            r matches Some(id) ==> alloc_step(
                *old(self),
                *final(self),
                level as nat,
                id as int,
            ),
            r is None ==> *final(self) == *old(self) && old(self).full(level as nat),
        decreases level,
    {
        proof {
            lemma_pow_facts();
        }
        if level == 0 {
            // A leaf: the bitmap itself is the set of 64 ids.
            if self.bitmap == u64::MAX {
                proof {
                    lemma_all_ones(self.bitmap);
                    assert forall|j: int| 0 <= j < id_cap(0) implies self.marked(0, j) by {
                        assert(nth_bit(self.bitmap, j as u64));
                    }
                }
                return None;
            }
            let bit: u64 = lowest_clear_bit(self.bitmap);
            let ghost w0 = self.bitmap;
            proof {
                lemma_bit_or(self.bitmap, bit);
            }
            self.bitmap = self.bitmap | (1u64 << bit);
            proof {
                assert(!old(self).marked(0, bit as int));
                assert forall|j: int| 0 <= j < bit as int implies old(self).marked(0, j) by {
                    assert(nth_bit(w0, j as u64));
                }
                assert forall|j: int|
                    0 <= j < id_cap(0) implies (self.marked(0, j) <==> (old(self).marked(0, j) || j
                    == bit as int)) by {
                    assert(nth_bit(self.bitmap, j as u64) <==> (nth_bit(w0, j as u64) || j as u64
                        == bit));
                }
                assert(alloc_step(*old(self), *self, 0, bit as int));
            }
            return Some(bit);
        }
        // An internal node: scan for a child that is not marked full.
        let ghost lvl = level as nat;
        let ghost p = pow2(6 * lvl) as int;
        proof {
            lemma_cap_layout(lvl);
        }
        while self.bitmap != u64::MAX
            invariant
                1 <= level < IDA_MAX_LEVELS,
                lvl == level as nat,
                p == pow2(6 * lvl) as int,
                self.wf(lvl),
                *self == *old(self),
            decreases u64::MAX - self.bitmap,
        {
            proof {
                lemma_pow_facts();
                lemma_cap_layout(lvl);
                vstd::arithmetic::power2::lemma_pow2_strictly_increases(6 * lvl, 64);
            }
            let i: u64 = lowest_clear_bit(self.bitmap);
            let i_us = i as usize;
            if level == IDA_MAX_LEVELS - 1 && i_us >= IDA_TOP_SLOTS {
                // The sixteen slots that cover the whole 64-bit space are all
                // full: the id space is exhausted.
                proof {
                    assert(slot_count(lvl) == 16);
                    assert forall|j: int| 0 <= j < id_cap(lvl) implies self.marked(lvl, j) by {
                        lemma_split_id(lvl, j);
                        let s = j / p;
                        assert(nth_bit(self.bitmap, s as u64));
                        assert(self.children@[s]->Some_0.marked((lvl - 1) as nat, j % p));
                    }
                }
                return None;
            }
            proof {
                if level == IDA_MAX_LEVELS - 1 {
                    assert(slot_count(lvl) == 16);
                }
                assert((i as int) < slot_count(lvl));
            }
            let ghost self_at = *self;
            let child_opt = take_child(&mut self.children, i_us);
            let mut child: Box<IdaNode> = match child_opt {
                Some(c) => c,
                None => Box::new(IdaNode::new()),
            };
            let ghost c0 = *child;
            proof {
                assert(c0.wf((lvl - 1) as nat));
                assert(!nth_bit(self_at.bitmap, i));
            }
            let res = (&mut *child).allocate(level - 1);
            match res {
                Some(frag) => {
                    let ghost c1 = *child;
                    proof {
                        c1.lemma_full_iff_max((lvl - 1) as nat);
                        lemma_bit_or(self_at.bitmap, i);
                    }
                    let full_now = child.bitmap == u64::MAX;
                    if full_now {
                        self.bitmap = self.bitmap | (1u64 << i);
                    }
                    set_child(&mut self.children, i_us, Some(child));
                    let id: u64 = (i << ((level * IDA_SHIFT) as u64)) | frag;
                    proof {
                        let sh = ((level * IDA_SHIFT) as u64);
                        let s = i as int;
                        // the composed word is `i * p + frag`, an id of this level
                        lemma_u64_shl_is_mul(1u64, sh);
                        assert((frag as int) < p);
                        assert((i as int) * p + 1 * p <= slot_count(lvl) * p) by (nonlinear_arith)
                            requires
                                (i as int) + 1 <= slot_count(lvl) && 0 < p,
                        ;
                        lemma_u64_shl_is_mul(i, sh);
                        assert(((i << sh) & frag) == 0u64 && ((i << sh) | frag) == (i << sh)
                            + frag) by (bit_vector)
                            requires
                                sh < 64u64 && frag < (1u64 << sh),
                        ;
                        assert((id as int) == s * p + frag as int);
                        lemma_join_id(lvl, s, frag as int);
                        let ghost idi = id as int;
                        // nothing below `id` was free beforehand
                        assert forall|j: int| 0 <= j < idi implies self_at.marked(lvl, j) by {
                            lemma_split_id(lvl, j);
                            let sj = j / p;
                            let rj = j % p;
                            assert(j < (s + 1) * p) by (nonlinear_arith)
                                requires
                                    j == (j / p) * p + j % p && j < idi && idi == s * p
                                        + (frag as int) && (frag as int) < p && 0 < p,
                            ;
                            vstd::arithmetic::div_mod::lemma_multiply_divide_lt(j, p, s + 1);
                            if sj < s {
                                assert(nth_bit(self_at.bitmap, sj as u64));
                                assert(self_at.children@[sj]->Some_0.marked((lvl - 1) as nat, rj));
                            } else {
                                assert(sj == s);
                                assert(rj < frag as int) by (nonlinear_arith)
                                    requires
                                        j == sj * p + rj && sj == s && j < idi && idi == s * p
                                            + (frag as int),
                                ;
                                if self_at.children@[s] is None {
                                    assert(c0.vacant((lvl - 1) as nat));
                                    assert(frag as int == 0) by {
                                        if frag as int > 0 {
                                            assert(c0.marked((lvl - 1) as nat, 0));
                                        }
                                    }
                                } else {
                                    assert(c0.marked((lvl - 1) as nat, rj));
                                }
                            }
                        }
                        // `id` itself was free
                        assert(!self_at.marked(lvl, idi));
                        // every id's state after: the old state, plus `id`
                        assert forall|j: int|
                            0 <= j < id_cap(lvl) implies (self.marked(lvl, j) <==> (
                        self_at.marked(lvl, j) || j == idi)) by {
                            lemma_split_id(lvl, j);
                            let sj = j / p;
                            let rj = j % p;
                            if sj != s {
                                assert(self.children@[sj] == self_at.children@[sj]);
                                assert(j != idi);
                                assert(self.marked(lvl, j) == self_at.marked(lvl, j));
                            } else {
                                assert(j == idi <==> rj == frag as int) by (nonlinear_arith)
                                    requires
                                        j == sj * p + rj && sj == s && idi == s * p + (frag as int)
                                            && 0 <= rj < p && 0 <= (frag as int) < p,
                                ;
                                assert(self.children@[s] is Some && self.children@[s]->Some_0
                                    == c1);
                                assert(c1.marked((lvl - 1) as nat, rj) <==> (c0.marked(
                                    (lvl - 1) as nat,
                                    rj,
                                ) || rj == frag as int));
                                assert(self.marked(lvl, j) == c1.marked((lvl - 1) as nat, rj));
                                if self_at.children@[s] is None {
                                    assert(c0.vacant((lvl - 1) as nat));
                                    assert(!c0.marked((lvl - 1) as nat, rj));
                                    assert(!self_at.marked(lvl, j));
                                } else {
                                    assert(self_at.marked(lvl, j) == c0.marked(
                                        (lvl - 1) as nat,
                                        rj,
                                    ));
                                }
                            }
                        }
                        assert(alloc_step(self_at, *self, lvl, idi));
                        // well-formedness is restored
                        assert forall|t: int|
                            0 <= t < 64 && (#[trigger] self.children@[t]) is Some implies {
                            &&& t < slot_count(lvl)
                            &&& self.children@[t]->Some_0.wf((lvl - 1) as nat)
                            &&& !self.children@[t]->Some_0.vacant((lvl - 1) as nat)
                        } by {
                            if t != s {
                                assert(self_at.children@[t] is Some);
                            } else {
                                assert(c1.marked((lvl - 1) as nat, frag as int));
                            }
                        }
                        assert forall|t: int|
                            0 <= t < 64 implies (nth_bit(self.bitmap, t as u64) <==> ((
                        #[trigger] self.children@[t]) is Some && self.children@[t]->Some_0.full(
                            (lvl - 1) as nat,
                        ))) by {
                            if t != s {
                                if full_now {
                                    assert(nth_bit(self.bitmap, t as u64) <==> nth_bit(
                                        self_at.bitmap,
                                        t as u64,
                                    ));
                                }
                            } else {
                                assert(c1.marked((lvl - 1) as nat, frag as int));
                                if full_now {
                                    assert(nth_bit(self.bitmap, i));
                                } else {
                                    assert(!nth_bit(self.bitmap, i));
                                    assert(!c1.full((lvl - 1) as nat));
                                }
                            }
                        }
                        assert(self.wf(lvl));
                    }
                    return Some(id);
                },
                None => {
                    // The child had space according to this node's bitmap yet
                    // reports being full: an inconsistency the locking
                    // discipline rules out.  Repair the bit and move on to
                    // the next slot rather than failing the whole call.
                    proof {
                        assert(c0.full((lvl - 1) as nat));
                        if self_at.children@[i as int] is Some {
                            assert(nth_bit(self_at.bitmap, i));
                        } else {
                            assert(c0.vacant((lvl - 1) as nat));
                            assert(c0.marked((lvl - 1) as nat, 0));
                        }
                        assert(false);
                    }
                    self.bitmap = self.bitmap | (1u64 << i);
                    set_child(&mut self.children, i_us, Some(child));
                },
            }
        }
        // Every bit is set: each child in the id space is full.
        proof {
            lemma_all_ones(self.bitmap);
            assert forall|j: int| 0 <= j < id_cap(lvl) implies self.marked(lvl, j) by {
                lemma_split_id(lvl, j);
                let s = j / p;
                assert(nth_bit(self.bitmap, s as u64));
                assert(self.children@[s]->Some_0.marked((lvl - 1) as nat, j % p));
            }
        }
        None
    }
}

/// Abstract effect of a successful allocation on a subtree at `level`:
/// `id` was the lowest free id of the subtree and is now allocated, and no
/// other id changed state.
pub open spec fn alloc_step(pre: IdaNode, post: IdaNode, level: nat, id: int) -> bool {
    &&& 0 <= id < id_cap(level)
    &&& !pre.marked(level, id)
    &&& (forall|j: int| 0 <= j < id ==> pre.marked(level, j))
    &&& (forall|j: int|
        0 <= j < id_cap(level) ==> (post.marked(level, j) <==> (pre.marked(level, j) || j == id)))
}

/// Abstract effect of a free on a subtree at `level`: id `cleared` is no
/// longer allocated, and no other id changed state.  When `cleared` was not
/// allocated to begin with, this says the subtree's state is unchanged.
pub open spec fn clear_step(pre: IdaNode, post: IdaNode, level: nat, cleared: int) -> bool {
    forall|j: int|
        0 <= j < id_cap(level) ==> (post.marked(level, j) <==> (pre.marked(level, j) && j
            != cleared))
}

/// What a subtree at some point of an allocation run remembers of an earlier
/// allocation: once `x` is allocated it stays allocated through every later
/// successful allocation.
proof fn lemma_marked_persists(states: Seq<IdaNode>, ids: Seq<int>, level: nat, x: int, k1: int, k2: int)
    requires
        states.len() == ids.len() + 1,
        forall|k: int|
            0 <= k < ids.len() ==> alloc_step(states[k], states[k + 1], level, #[trigger] ids[k]),
        0 <= k1 <= k2 <= ids.len(),
        0 <= x < id_cap(level),
        states[k1].marked(level, x),
    ensures
        states[k2].marked(level, x),
    decreases k2 - k1,
{
    if k2 > k1 {
        lemma_marked_persists(states, ids, level, x, k1, k2 - 1);
        assert(alloc_step(states[k2 - 1], states[k2], level, ids[k2 - 1]));
    }
}

/// Uniqueness: across any run of successful allocations on one subtree, the
/// returned ids are pairwise distinct.  Each allocation returns an id that
/// was free at its turn, and ids, once handed out, stay allocated until
/// freed, and this run frees nothing.
pub proof fn lemma_alloc_run_distinct(states: Seq<IdaNode>, ids: Seq<int>, level: nat)
    requires
        states.len() == ids.len() + 1,
        forall|k: int|
            0 <= k < ids.len() ==> alloc_step(states[k], states[k + 1], level, #[trigger] ids[k]),
    ensures
        forall|k1: int, k2: int| 0 <= k1 < k2 < ids.len() ==> ids[k1] != ids[k2],
{
    assert forall|k1: int, k2: int| 0 <= k1 < k2 < ids.len() implies ids[k1] != ids[k2] by {
        assert(alloc_step(states[k1], states[k1 + 1], level, ids[k1]));
        assert(states[k1 + 1].marked(level, ids[k1]));
        lemma_marked_persists(states, ids, level, ids[k1], k1 + 1, k2);
        assert(alloc_step(states[k2], states[k2 + 1], level, ids[k2]));
    }
}

/// After `k` allocations from a fresh subtree, exactly the ids below `k` are
/// allocated, and the run so far returned `0, 1, ..., k - 1` in order.
proof fn lemma_fresh_run_prefix(states: Seq<IdaNode>, ids: Seq<int>, level: nat, k: int)
    requires
        states.len() == ids.len() + 1,
        forall|t: int|
            0 <= t < ids.len() ==> alloc_step(states[t], states[t + 1], level, #[trigger] ids[t]),
        states[0].vacant(level),
        ids.len() <= id_cap(level),
        0 <= k <= ids.len(),
    ensures
        forall|j: int| 0 <= j < id_cap(level) ==> (states[k].marked(level, j) <==> j < k),
        forall|t: int| 0 <= t < k ==> #[trigger] ids[t] == t,
    decreases k,
{
    if k > 0 {
        lemma_fresh_run_prefix(states, ids, level, k - 1);
        assert(alloc_step(states[k - 1], states[k], level, ids[k - 1]));
        assert(ids[k - 1] == k - 1) by {
            if ids[k - 1] < k - 1 {
                assert(states[k - 1].marked(level, ids[k - 1]));
            }
            if ids[k - 1] > k - 1 {
                assert(states[k - 1].marked(level, k - 1));
            }
        }
    }
}

/// Lowest-first ordering: on a fresh subtree, with no frees interleaved, the
/// k-th successful allocation returns `k - 1`, so the run comes out as
/// `0, 1, 2, ...`.
pub proof fn lemma_fresh_run_counts_up(states: Seq<IdaNode>, ids: Seq<int>, level: nat)
    requires
        states.len() == ids.len() + 1,
        forall|t: int|
            0 <= t < ids.len() ==> alloc_step(states[t], states[t + 1], level, #[trigger] ids[t]),
        states[0].vacant(level),
        ids.len() <= id_cap(level),
    ensures
        forall|t: int| 0 <= t < ids.len() ==> #[trigger] ids[t] == t,
{
    lemma_fresh_run_prefix(states, ids, level, ids.len() as int);
}

/// Reuse ordered by value: an allocation returns exactly the lowest free id
/// of the subtree.  In particular, after `free(x)` the next allocation
/// returns `x` precisely when `x` is then the lowest free id; otherwise it
/// returns that lower free id instead.
pub proof fn lemma_alloc_returns_lowest_free(
    pre: IdaNode,
    post: IdaNode,
    level: nat,
    got: int,
    x: int,
)
    requires
        alloc_step(pre, post, level, got),
        0 <= x < id_cap(level),
        !pre.marked(level, x),
        forall|j: int| 0 <= j < x ==> pre.marked(level, j),
    ensures
        got == x,
{
    if got < x {
        assert(pre.marked(level, got));
    }
    if got > x {
        assert(pre.marked(level, x));
    }
}

/// Round trip: an id is free before the allocation that returns it,
/// allocated right after it, and free again once the matching free runs;
/// and neither call touches any other id's state.
pub proof fn lemma_round_trip(s0: IdaNode, s1: IdaNode, s2: IdaNode, level: nat, i: int)
    requires
        alloc_step(s0, s1, level, i),
        clear_step(s1, s2, level, i),
    ensures
        !s0.marked(level, i),
        s1.marked(level, i),
        !s2.marked(level, i),
        forall|j: int|
            0 <= j < id_cap(level) && j != i ==> (s1.marked(level, j) <==> s0.marked(level, j)),
        forall|j: int|
            0 <= j < id_cap(level) && j != i ==> (s2.marked(level, j) <==> s1.marked(level, j)),
{
}

/// No-op safety: freeing an id that is not allocated leaves the subtree's
/// whole abstract state as it was, so every later allocation or query
/// behaves as if the call had never happened.
pub proof fn lemma_free_unallocated_is_noop(pre: IdaNode, post: IdaNode, level: nat, i: int)
    requires
        clear_step(pre, post, level, i),
        !pre.marked(level, i),
    ensures
        forall|j: int|
            0 <= j < id_cap(level) ==> (post.marked(level, j) <==> pre.marked(level, j)),
{
}

/// Memory reclamation: a well-formed subtree with no live allocation stores
/// nothing at all, clear bitmap and no child nodes, exactly like a freshly
/// constructed node.  Fully freeing a subtree therefore reclaims every node
/// that was created under it.
pub proof fn lemma_empty_tree_is_blank(n: IdaNode, level: nat)
    requires
        n.wf(level),
        n.vacant(level),
        level < IDA_MAX_LEVELS,
    ensures
        n.is_blank(),
{
    n.lemma_vacant_iff_empty(level);
}

/// Takes the child stored at slot `i` out of the slot table, leaving the
/// slot empty.
fn take_child(v: &mut Vec<Option<Box<IdaNode>>>, i: usize) -> (c: Option<Box<IdaNode>>)
    requires
        i < old(v)@.len(),
    ensures
        c == old(v)@[i as int],
        final(v)@ == old(v)@.update(i as int, None),
{
    let c = v.remove(i);
    v.insert(i, None);
    proof {
        assert(v@ =~= old(v)@.update(i as int, None));
    }
    c
}

/// Stores `x` at slot `i` of the slot table.
fn set_child(v: &mut Vec<Option<Box<IdaNode>>>, i: usize, x: Option<Box<IdaNode>>)
    requires
        i < old(v)@.len(),
    ensures
        final(v)@ == old(v)@.update(i as int, x),
{
    let _ = v.remove(i);
    v.insert(i, x);
    proof {
        assert(v@ =~= old(v)@.update(i as int, x));
    }
}

} // verus!
