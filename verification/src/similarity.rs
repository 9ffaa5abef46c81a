//! Distance metrics, and the order in which scores are ranked.

use vstd::prelude::*;

verus! {

/// The metric by which a collection compares a query with its members.
#[derive(Debug, Clone, Copy, PartialEq, Eq, Structural)]
pub enum Distance {
    Euclidean,
    Cosine,
    DotProduct,
}

impl Distance {
    /// Whether a collection with this metric keeps its vectors at unit length.
    /// Only `Cosine` does: with both sides at unit length the cosine of two
    /// vectors is their dot product.
    pub fn stores_unit_vectors(self) -> (unit: bool)
        ensures
            unit == (self == Distance::Cosine),
    {
        match self {
            Distance::Cosine => true,
            Distance::Euclidean => false,
            Distance::DotProduct => false,
        }
    }
}

/// The sign bit of a binary32 pattern.
pub const SIGN_MASK: u32 = 0x8000_0000;

/// Exponent and fraction of a binary32 pattern: everything but the sign.
pub const MAGNITUDE_MASK: u32 = 0x7fff_ffff;

/// The pattern of positive infinity. A magnitude above it is not a number.
pub const INFINITY_BITS: u32 = 0x7f80_0000;

/// The pattern of negative infinity, which every number meets as a
/// threshold: the threshold of a search that names none.
pub const NEGATIVE_INFINITY_BITS: u32 = 0xff80_0000;

/// Whether `bits` is the pattern of a NaN.
pub open spec fn is_nan(bits: u32) -> bool {
    (bits & MAGNITUDE_MASK) > INFINITY_BITS
}

/// An integer that orders patterns as the numbers they stand for: for two
/// patterns that are not NaN, the first number is below the second exactly
/// when its rank is. Both zeros have rank 0.
pub open spec fn rank(bits: u32) -> int {
    if bits & SIGN_MASK == 0 {
        (bits & MAGNITUDE_MASK) as int
    } else {
        -((bits & MAGNITUDE_MASK) as int)
    }
}

/// The comparison `a >= b` of the two numbers: false as soon as one is NaN.
pub open spec fn at_least(a: u32, b: u32) -> bool {
    !is_nan(a) && !is_nan(b) && rank(a) >= rank(b)
}

/// Tells a NaN pattern from a number.
pub fn score_is_nan(bits: u32) -> (nan: bool)
    ensures
        nan == is_nan(bits),
{
    (bits & MAGNITUDE_MASK) > INFINITY_BITS
}

/// Computes the rank of a pattern.
pub fn score_rank(bits: u32) -> (r: i64)
    ensures
        r == rank(bits),
        -0x7fff_ffff <= r <= 0x7fff_ffff,
{
    let magnitude: u32 = bits & MAGNITUDE_MASK;
    assert(bits & 0x7fff_ffff <= 0x7fff_ffff) by (bit_vector);
    if bits & SIGN_MASK == 0 {
        magnitude as i64
    } else {
        -(magnitude as i64)
    }
}

/// Computes `a >= b` on the numbers that the two patterns stand for.
pub fn score_at_least(a: u32, b: u32) -> (holds: bool)
    ensures
        holds == at_least(a, b),
{
    !score_is_nan(a) && !score_is_nan(b) && score_rank(a) >= score_rank(b)
}

/// A score together with the position of the embedding that earned it.
#[derive(Debug, Clone, Copy)]
pub struct ScoreIndex {
    pub score: u32,
    pub index: usize,
}

impl ScoreIndex {
    /// The strict order of the selection: the higher score first, and of two
    /// equal scores the earlier position first.
    pub open spec fn ranks_above(self, other: ScoreIndex) -> bool {
        rank(self.score) > rank(other.score) || (rank(self.score) == rank(other.score)
            && self.index < other.index)
    }

    /// Neither of the two ranks above the other.
    pub open spec fn ties_with(self, other: ScoreIndex) -> bool {
        rank(self.score) == rank(other.score) && self.index == other.index
    }

    /// Decides `ranks_above`.
    pub fn outranks(&self, other: &ScoreIndex) -> (above: bool)
        ensures
            above == self.ranks_above(*other),
    {
        let mine: i64 = score_rank(self.score);
        let theirs: i64 = score_rank(other.score);
        mine > theirs || (mine == theirs && self.index < other.index)
    }
}

/// `ranks_above` orders entries strictly and totally: no entry ranks above
/// itself, no two rank above each other, the order passes along a chain,
/// and of two entries one ranks above the other unless they tie.
pub proof fn lemma_ranking_is_a_strict_total_order(a: ScoreIndex, b: ScoreIndex, c: ScoreIndex)
    ensures
        !a.ranks_above(a),
        a.ranks_above(b) ==> !b.ranks_above(a),
        a.ranks_above(b) && b.ranks_above(c) ==> a.ranks_above(c),
        a.ranks_above(b) || b.ranks_above(a) || a.ties_with(b),
        a.ties_with(b) ==> !a.ranks_above(b) && !b.ranks_above(a),
{
}

/// The two zeros have one rank, a number and its negative have opposite
/// ranks, and no number ranks beyond the infinities.
pub proof fn lemma_rank_follows_sign_and_magnitude(bits: u32)
    ensures
        rank(0x0000_0000) == 0 && rank(0x8000_0000) == 0,
        rank(bits ^ SIGN_MASK) == -rank(bits),
        is_nan(bits ^ SIGN_MASK) == is_nan(bits),
        !is_nan(bits) ==> -(INFINITY_BITS as int) <= rank(bits) <= INFINITY_BITS as int,
{
    assert(0x0000_0000u32 & 0x8000_0000 == 0 && 0x0000_0000u32 & 0x7fff_ffff == 0) by (bit_vector);
    assert(0x8000_0000u32 & 0x8000_0000 != 0 && 0x8000_0000u32 & 0x7fff_ffff == 0) by (bit_vector);
    assert((bits ^ 0x8000_0000) & 0x7fff_ffff == bits & 0x7fff_ffff) by (bit_vector);
    assert(((bits ^ 0x8000_0000) & 0x8000_0000 == 0) != (bits & 0x8000_0000 == 0)) by (bit_vector);
}

/// Negative infinity is a threshold that leaves out no number: a score
/// meets it exactly when the score is not a NaN.
pub proof fn lemma_every_number_meets_negative_infinity(bits: u32)
    ensures
        at_least(bits, NEGATIVE_INFINITY_BITS) == !is_nan(bits),
{
    lemma_rank_follows_sign_and_magnitude(bits);
    assert(0xff80_0000u32 & 0x7fff_ffff == 0x7f80_0000 && 0xff80_0000u32 & 0x8000_0000 != 0)
        by (bit_vector);
}

} // verus!
