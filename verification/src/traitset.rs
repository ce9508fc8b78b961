//! Fixed-width trait sets: a bitset over the vocabulary's positions.
//!
//! A `TraitSet` holds one bit per vocabulary position, so every set-algebra
//! operation is a single word operation. The abstract view of a set is the
//! `Set<int>` of positions whose bit is one; every operation's contract is
//! stated against that view.

use vstd::prelude::*;

verus! {

/// Number of bit positions a `TraitSet` can hold; a vocabulary may not
/// exceed this size.
pub const WIDTH: u64 = 64;

/// A set of traits, keyed by vocabulary position.
///
/// Equality is structural: two sets are equal exactly when the same bits
/// are set, independent of how either was built.
#[derive(Clone, Copy, PartialEq, Eq, Structural, Debug)]
pub struct TraitSet {
    pub bits: u64,
}

/// Whether bit `i` of `bits` is set.
pub open spec fn bit_set(bits: u64, i: u64) -> bool {
    (bits >> i) & 1 == 1
}

impl TraitSet {
    /// The abstract contents: the set of positions (within the full width)
    /// whose bit is one.
    pub open spec fn view(self) -> Set<int> {
        Set::new(|i: int| 0 <= i < WIDTH && bit_set(self.bits, i as u64))
    }

    /// The set with no traits selected.
    pub fn empty() -> (r: TraitSet)
        ensures
            r@ =~= Set::<int>::empty(),
            r.bits == 0,
    {
        proof {
            lemma_zero_has_no_bits();
        }
        TraitSet { bits: 0 }
    }

    /// Whether trait position `i` is in the set.
    pub fn contains(&self, i: usize) -> (r: bool)
        requires
            i < WIDTH,
        ensures
            r == self@.contains(i as int),
    {
        (self.bits >> (i as u64)) & 1 == 1
    }

    /// Union: traits in either set.
    pub fn union(&self, other: &TraitSet) -> (r: TraitSet)
        ensures
            r@ =~= self@.union(other@),
    {
        proof {
            lemma_or_bits(self.bits, other.bits);
        }
        TraitSet { bits: self.bits | other.bits }
    }

    /// Intersection: traits in both sets.
    pub fn intersect(&self, other: &TraitSet) -> (r: TraitSet)
        ensures
            r@ =~= self@.intersect(other@),
    {
        proof {
            lemma_and_bits(self.bits, other.bits);
        }
        TraitSet { bits: self.bits & other.bits }
    }

    /// Set difference: traits in `self` but not in `other`.
    pub fn difference(&self, other: &TraitSet) -> (r: TraitSet)
        ensures
            r@ =~= self@.difference(other@),
    {
        proof {
            lemma_diff_bits(self.bits, other.bits);
        }
        TraitSet { bits: self.bits & !other.bits }
    }

    /// Complement relative to a vocabulary of `n` traits: the positions
    /// below `n` that are not in `self`.
    pub fn complement(&self, n: usize) -> (r: TraitSet)
        requires
            n <= WIDTH,
        ensures
            r@ =~= full_set(n as nat).difference(self@),
    {
        let mask: u64 = if n == 64 {
            u64::MAX
        } else {
            proof {
                assert(1u64 << (n as u64) >= 1) by (bit_vector)
                    requires
                        (n as u64) < 64,
                ;
            }
            (1u64 << (n as u64)) - 1
        };
        proof {
            lemma_mask_bits(n as u64, mask);
            lemma_diff_bits(mask, self.bits);
        }
        TraitSet { bits: mask & !self.bits }
    }

    /// The set with position `i` added.
    pub fn with_bit(&self, i: usize) -> (r: TraitSet)
        requires
            i < WIDTH,
        ensures
            r@ =~= self@.insert(i as int),
    {
        proof {
            lemma_single_bit(self.bits, i as u64);
        }
        TraitSet { bits: self.bits | (1u64 << (i as u64)) }
    }

    /// Whether no trait is selected.
    pub fn is_empty(&self) -> (r: bool)
        ensures
            r == (self@ =~= Set::<int>::empty()),
    {
        proof {
            if self.bits == 0 {
                lemma_zero_has_no_bits();
                assert(forall|i: int| !self@.contains(i));
            } else {
                lemma_nonzero_has_a_bit(self.bits);
                let w = choose|i: u64| i < WIDTH && bit_set(self.bits, i);
                assert(self@.contains(w as int));
            }
        }
        self.bits == 0
    }

    /// How many traits are selected: the population count, which is the
    /// cardinality of the abstract contents.
    pub fn count(&self) -> (r: u64)
        ensures
            r == count_below(self.bits, WIDTH as nat),
            r == self@.len(),
    {
        proof {
            lemma_count_is_cardinality(self.bits, WIDTH as nat);
            assert(Set::new(
                |i: int| 0 <= i < WIDTH as nat && bit_set(self.bits, i as u64),
            ) =~= self@);
        }
        let mut r: u64 = 0;
        let mut i: usize = 0;
        while i < 64
            invariant
                i <= 64,
                r == count_below(self.bits, i as nat),
                r <= i,
            decreases 64 - i,
        {
            if (self.bits >> (i as u64)) & 1 == 1 {
                r = r + 1;
            }
            i = i + 1;
        }
        r
    }
}

/// The positions of a full vocabulary of `n` traits.
pub open spec fn full_set(n: nat) -> Set<int> {
    Set::new(|i: int| 0 <= i < n)
}

/// Number of set bits among the `n` lowest positions of `bits`.
pub open spec fn count_below(bits: u64, n: nat) -> nat
    decreases n,
{
    if n == 0 {
        0
    } else {
        count_below(bits, (n - 1) as nat) + if bit_set(bits, (n - 1) as u64) {
            1nat
        } else {
            0nat
        }
    }
}

/// The population count of the first `n` positions is the cardinality of
/// the set of positions below `n` whose bit is one.
pub proof fn lemma_count_is_cardinality(bits: u64, n: nat)
    requires
        n <= WIDTH,
    ensures
        Set::new(|i: int| 0 <= i < n && bit_set(bits, i as u64)).finite(),
        count_below(bits, n) == Set::new(|i: int| 0 <= i < n && bit_set(bits, i as u64)).len(),
    decreases n,
{
    let s = Set::new(|i: int| 0 <= i < n && bit_set(bits, i as u64));
    if n == 0 {
        assert(s =~= Set::<int>::empty());
    } else {
        lemma_count_is_cardinality(bits, (n - 1) as nat);
        let s0 = Set::new(|i: int| 0 <= i < n - 1 && bit_set(bits, i as u64));
        if bit_set(bits, (n - 1) as u64) {
            assert(s =~= s0.insert(n - 1));
            assert(!s0.contains(n - 1));
        } else {
            assert(s =~= s0);
        }
    }
}

/// Zero has no bit set.
pub proof fn lemma_zero_has_no_bits()
    ensures
        forall|i: u64| !bit_set(0u64, i),
{
    assert forall|i: u64| !bit_set(0u64, i) by {
        assert((0u64 >> i) & 1 != 1) by (bit_vector);
    }
}

/// A non-zero word has a set bit at some position below the width.
pub proof fn lemma_nonzero_has_a_bit(bits: u64)
    requires
        bits != 0,
    ensures
        exists|i: u64| i < WIDTH && bit_set(bits, i),
{
    assert(bits >> 0 == bits) by (bit_vector);
    lemma_bit_at_or_above(bits, 0);
}

/// If `bits` still has a set bit at or above position `n`, one such
/// position exists below the width.
proof fn lemma_bit_at_or_above(bits: u64, n: u64)
    requires
        n < 64,
        bits >> n != 0,
    ensures
        exists|i: u64| i < WIDTH && bit_set(bits, i),
    decreases 64 - n,
{
    if (bits >> n) & 1 == 1 {
        assert(n < WIDTH && bit_set(bits, n));
    } else {
        assert(n < 63) by (bit_vector)
            requires
                n < 64 && bits >> n != 0 && (bits >> n) & 1 != 1,
        ;
        assert(bits >> (n + 1) != 0) by (bit_vector)
            requires
                n < 63 && bits >> n != 0 && (bits >> n) & 1 != 1,
        ;
        lemma_bit_at_or_above(bits, (n + 1) as u64);
    }
}

/// Bitwise or is per-position disjunction.
pub proof fn lemma_or_bits(a: u64, b: u64)
    ensures
        forall|i: u64| #[trigger] bit_set(a | b, i) == (bit_set(a, i) || bit_set(b, i)),
{
    assert forall|i: u64| #[trigger] bit_set(a | b, i) == (bit_set(a, i) || bit_set(b, i)) by {
        assert((((a | b) >> i) & 1 == 1) == (((a >> i) & 1 == 1) || ((b >> i) & 1 == 1)))
            by (bit_vector);
    }
}

/// Bitwise and is per-position conjunction.
pub proof fn lemma_and_bits(a: u64, b: u64)
    ensures
        forall|i: u64| #[trigger] bit_set(a & b, i) == (bit_set(a, i) && bit_set(b, i)),
{
    assert forall|i: u64| #[trigger] bit_set(a & b, i) == (bit_set(a, i) && bit_set(b, i)) by {
        assert((((a & b) >> i) & 1 == 1) == (((a >> i) & 1 == 1) && ((b >> i) & 1 == 1)))
            by (bit_vector);
    }
}

/// And-not is per-position difference.
pub proof fn lemma_diff_bits(a: u64, b: u64)
    ensures
        forall|i: u64| #[trigger] bit_set(a & !b, i) == (bit_set(a, i) && !bit_set(b, i)),
{
    assert forall|i: u64| #[trigger] bit_set(a & !b, i) == (bit_set(a, i) && !bit_set(b, i)) by {
        assert((((a & !b) >> i) & 1 == 1) == (((a >> i) & 1 == 1) && !((b >> i) & 1 == 1)))
            by (bit_vector);
    }
}

/// Setting one bit adds exactly that position.
proof fn lemma_single_bit(a: u64, j: u64)
    requires
        j < 64,
    ensures
        forall|i: u64| #[trigger] bit_set(a | (1u64 << j), i) == (bit_set(a, i) || i == j),
{
    assert forall|i: u64| #[trigger] bit_set(a | (1u64 << j), i) == (bit_set(a, i) || i == j) by {
        assert((((a | (1u64 << j)) >> i) & 1 == 1) == (((a >> i) & 1 == 1) || i == j))
            by (bit_vector)
            requires
                j < 64,
        ;
    }
}

/// The low mask of width `n` has exactly the bits below `n` set.
proof fn lemma_mask_bits(n: u64, mask: u64)
    requires
        n <= 64,
        mask == if n == 64 {
            u64::MAX
        } else {
            ((1u64 << n) - 1) as u64
        },
    ensures
        forall|i: u64| #[trigger] bit_set(mask, i) == (i < n),
{
    assert forall|i: u64| #[trigger] bit_set(mask, i) == (i < n) by {
        if n == 64 {
            assert(((u64::MAX >> i) & 1 == 1) == (i < 64)) by (bit_vector);
        } else {
            assert((((((1u64 << n) - 1) as u64) >> i) & 1 == 1) == (i < n)) by (bit_vector)
                requires
                    n < 64,
            ;
        }
    }
}

/// Decomposition consistency: any set `a` splits into the part it shares
/// with `b` and the part it holds apart from `b`, and the two parts are
/// disjoint.
pub proof fn lemma_intersection_difference_decompose(a: TraitSet, b: TraitSet)
    ensures
        a@ =~= a@.intersect(b@).union(a@.difference(b@)),
        a@.intersect(b@).intersect(a@.difference(b@)) =~= Set::<int>::empty(),
{
}

} // verus!
