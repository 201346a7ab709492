use vstd::prelude::*;

verus! {

/// A normalized compression distance, kept exact as a non-negative
/// rational `num / den` with `den >= 1`.
///
/// The defining formula divides by the larger of two compressed sizes;
/// keeping numerator and denominator avoids any rounding, so distance
/// comparisons — and with them the whole classification — are exact.
#[derive(Clone, Copy, Debug)]
pub struct Ncd {
    pub num: usize,
    pub den: usize,
}

/// Mathematical model of an [`Ncd`] value.
pub ghost struct NcdModel {
    pub num: nat,
    pub den: nat,
}

impl View for Ncd {
    type V = NcdModel;

    open spec fn view(&self) -> NcdModel {
        NcdModel { num: self.num as nat, den: self.den as nat }
    }
}

/// The normalized compression distance from the two standalone
/// compressed sizes `cx1` and `cx2` and the compressed size `cx1x2`
/// of the concatenation:
///
/// `(cx1x2 - min(cx1, cx2)) / max(cx1, cx2)`
///
/// with two guards: the numerator saturates at zero (a well-behaved
/// compressor never lets the concatenation compress below the smaller
/// standalone size, but the formula must not underflow if one does),
/// and a degenerate pair — both compressed sizes zero — is defined to
/// be at distance zero rather than dividing by zero.
pub open spec fn spec_ncd(cx1: nat, cx2: nat, cx1x2: nat) -> NcdModel {
    let mn = if cx1 <= cx2 { cx1 } else { cx2 };
    let mx = if cx1 <= cx2 { cx2 } else { cx1 };
    if mx == 0 {
        NcdModel { num: 0, den: 1 }
    } else if cx1x2 <= mn {
        NcdModel { num: 0, den: mx }
    } else {
        NcdModel { num: (cx1x2 - mn) as nat, den: mx }
    }
}

/// Computes the normalized compression distance from three compressed
/// sizes; see [`spec_ncd`] for the formula and its guards.
pub fn normalized_compression_distance(cx1: usize, cx2: usize, cx1x2: usize) -> (r: Ncd)
    ensures
        r@ == spec_ncd(cx1 as nat, cx2 as nat, cx1x2 as nat),
        r.den >= 1,
{
    let mn = if cx1 <= cx2 { cx1 } else { cx2 };
    let mx = if cx1 <= cx2 { cx2 } else { cx1 };
    if mx == 0 {
        Ncd { num: 0, den: 1 }
    } else if cx1x2 <= mn {
        Ncd { num: 0, den: mx }
    } else {
        Ncd { num: cx1x2 - mn, den: mx }
    }
}

/// `a <= b` as rationals, by cross multiplication; sound whenever both
/// denominators are positive.
pub open spec fn rat_le(a: NcdModel, b: NcdModel) -> bool {
    a.num * b.den <= b.num * a.den
}

/// `a < b` as rationals, by cross multiplication.
pub open spec fn rat_lt(a: NcdModel, b: NcdModel) -> bool {
    a.num * b.den < b.num * a.den
}

/// Compares two distances as rationals.
pub fn ncd_le(a: &Ncd, b: &Ncd) -> (r: bool)
    ensures
        r == rat_le(a@, b@),
{
    proof {
        assert(a.num <= u64::MAX && a.den <= u64::MAX && b.num <= u64::MAX && b.den <= u64::MAX);
        assert((a.num as nat) * (b.den as nat) <= u128::MAX && (b.num as nat) * (a.den as nat)
            <= u128::MAX) by (nonlinear_arith)
            requires
                a.num <= u64::MAX,
                a.den <= u64::MAX,
                b.num <= u64::MAX,
                b.den <= u64::MAX,
        ;
    }
    let left: u128 = (a.num as u128) * (b.den as u128);
    let right: u128 = (b.num as u128) * (a.den as u128);
    left <= right
}

/// Transitivity of the rational order, with strictness carried along:
/// the cross-multiplied comparisons compose whenever the denominators
/// are positive.
pub proof fn lemma_rat_le_trans(a: NcdModel, b: NcdModel, c: NcdModel)
    requires
        a.den >= 1,
        b.den >= 1,
        c.den >= 1,
        rat_le(a, b),
        rat_le(b, c),
    ensures
        rat_le(a, c),
        rat_lt(a, b) || rat_lt(b, c) ==> rat_lt(a, c),
{
    assert(a.num * c.den * b.den <= c.num * a.den * b.den && ((a.num * b.den < b.num * a.den
        || b.num * c.den < c.num * b.den) ==> a.num * c.den * b.den < c.num * a.den * b.den))
        by (nonlinear_arith)
        requires
            a.num * b.den <= b.num * a.den,
            b.num * c.den <= c.num * b.den,
            a.den >= 1,
            b.den >= 1,
            c.den >= 1,
    ;
    assert(a.num * c.den <= c.num * a.den && (a.num * c.den * b.den < c.num * a.den * b.den
        ==> a.num * c.den < c.num * a.den)) by (nonlinear_arith)
        requires
            a.num * c.den * b.den <= c.num * a.den * b.den,
            b.den >= 1,
    ;
}

/// The provable half of the boundedness of the distance: whatever the
/// compressor returns, the value is a ratio of naturals with a positive
/// denominator, so it is never below zero.
pub proof fn lemma_ncd_nonnegative(cx1: nat, cx2: nat, cx1x2: nat)
    ensures
        spec_ncd(cx1, cx2, cx1x2).num >= 0,
        spec_ncd(cx1, cx2, cx1x2).den >= 1,
{
}

/// The other half of boundedness holds whenever the compressor is
/// subadditive on the pair — the concatenation compresses to at most
/// the sum of the standalone sizes, which real compressors only exceed
/// by a small constant overhead: then the distance is at most one.
pub proof fn lemma_ncd_at_most_one_when_subadditive(cx1: nat, cx2: nat, cx1x2: nat)
    requires
        cx1x2 <= cx1 + cx2,
    ensures
        spec_ncd(cx1, cx2, cx1x2).num <= spec_ncd(cx1, cx2, cx1x2).den,
{
}

/// The distance formula itself is symmetric in the two records: both
/// orders use the same minimum and maximum, so the two directions can
/// differ only through the compressed size of the concatenation. When
/// the compressor gives both concatenation orders the same size, the
/// two distances are equal exactly.
pub proof fn lemma_ncd_symmetric_in_sizes(cx1: nat, cx2: nat, c: nat)
    ensures
        spec_ncd(cx1, cx2, c) == spec_ncd(cx2, cx1, c),
{
}

} // verus!
