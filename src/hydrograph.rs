use crate::time_base::{
    lemma_doubled_exceeds, lemma_exceeds_doubled, lemma_exceeds_downward, TimeBase,
};
use vstd::arithmetic::power2::{lemma2_to64, lemma_pow2_pos, lemma_pow2_unfold, pow2};
use vstd::prelude::*;

verus! {

/// The piece of an S-curve on which a time index lies.
#[derive(Clone, Copy, Debug, PartialEq, Eq, Structural)]
pub enum Segment {
    /// `t < x4`: the curve rises as a power of `t / x4`.
    Rising,
    /// `x4 <= t < 2 x4` (second family only): the curve falls toward one as a
    /// power of `2 - t / x4`.
    Falling,
    /// The curve has reached one.
    Saturated,
}

/// The segment of the first (single-limb) S-curve family at `t`.
pub open spec fn spec_first_curve_segment(t: int, x4: TimeBase) -> Segment {
    if x4.exceeds(t) {
        Segment::Rising
    } else {
        Segment::Saturated
    }
}

/// The segment of the second (two-limb) S-curve family at `t`.
pub open spec fn spec_second_curve_segment(t: int, x4: TimeBase) -> Segment {
    if x4.exceeds(t) {
        Segment::Rising
    } else if x4.spec_doubled().exceeds(t) {
        Segment::Falling
    } else {
        Segment::Saturated
    }
}

/// The segment of the first S-curve family at time index `t`.
pub fn first_curve_segment(t: u64, x4: &TimeBase) -> (r: Segment)
    requires
        x4.is_binary64(),
    ensures
        r == spec_first_curve_segment(t as int, *x4),
{
    if x4.exceeds_whole(t) {
        Segment::Rising
    } else {
        Segment::Saturated
    }
}

/// The segment of the second S-curve family at time index `t`.
pub fn second_curve_segment(t: u64, x4: &TimeBase) -> (r: Segment)
    requires
        x4.is_binary64(),
    ensures
        r == spec_second_curve_segment(t as int, *x4),
{
    if x4.exceeds_whole(t) {
        Segment::Rising
    } else if x4.doubled().exceeds_whole(t) {
        Segment::Falling
    } else {
        Segment::Saturated
    }
}

/// The lengths of the two unit-hydrograph ordinate tables for a time base.
#[derive(Clone, Copy, Debug, PartialEq, Eq, Structural)]
pub struct HydrographSizes {
    /// `ceil(x4)`, the length of the first table.
    pub first: usize,
    /// `ceil(2 x4)`, the length of the second table.
    pub second: usize,
}

/// `sizes` holds the table lengths of time base `x4`.
pub open spec fn sizes_of(x4: TimeBase, sizes: HydrographSizes) -> bool {
    &&& x4.has_ceiling(sizes.first as int)
    &&& x4.spec_doubled().has_ceiling(sizes.second as int)
}

/// The lengths `ceil(x4)` and `ceil(2 x4)` of the ordinate tables; `None`
/// where `2 x4` exceeds `usize::MAX`, so that no buffer could hold them.
pub fn hydrograph_sizes(x4: &TimeBase) -> (r: Option<HydrographSizes>)
    requires
        x4.is_binary64(),
    ensures
        match r {
            Some(sizes) => sizes_of(*x4, sizes) && sizes.first >= 1 && sizes.second >= 1,
            None => x4.spec_doubled().exceeds(usize::MAX as int),
        },
{
    let doubled = x4.doubled();
    match doubled.ceiling() {
        None => None,
        Some(second) => {
            match x4.ceiling() {
                Some(first) => Some(HydrographSizes { first, second }),
                None => {
                    proof {
                        lemma_exceeds_doubled(*x4, usize::MAX as int);
                        lemma_exceeds_downward(doubled, second as int, usize::MAX as int);
                    }
                    None
                },
            }
        },
    }
}

/// The second table is twice as long as the first, less one where `x4`
/// lies at most half a step above a whole number: `ceil(2 x4)` is
/// `2 ceil(x4) - 1` or `2 ceil(x4)`, and exactly `2 ceil(x4)` when `x4` is a
/// whole number.
pub proof fn lemma_second_table_doubles_first(x4: TimeBase, sizes: HydrographSizes)
    requires
        x4.is_binary64(),
        sizes_of(x4, sizes),
    ensures
        sizes.second == 2 * sizes.first || sizes.second == 2 * sizes.first - 1,
        x4.is_whole() ==> sizes.second == 2 * sizes.first,
{
    let n1 = sizes.first as int;
    let n2 = sizes.second as int;
    let d = x4.spec_doubled();
    lemma_doubled_exceeds(x4, n1 - 1);
    lemma_doubled_exceeds(x4, n1);
    if n2 > 2 * n1 {
        lemma_exceeds_downward(d, 2 * n1, n2 - 1);
    }
    if n2 < 2 * n1 - 1 {
        if n2 >= 0 && 2 * n1 - 2 >= 0 {
            lemma_exceeds_downward(d, n2, 2 * n1 - 2);
        }
    }
    if x4.is_whole() {
        lemma_whole_ceiling_doubles(x4, n1);
        if n2 < 2 * n1 {
            lemma_exceeds_downward(d, n2, 2 * n1 - 1);
        }
    }
}

/// For a whole `x4` with ceiling `n`, `2n - 1 < 2 x4`.
proof fn lemma_whole_ceiling_doubles(x4: TimeBase, n: int)
    requires
        x4.is_binary64(),
        x4.is_whole(),
        x4.has_ceiling(n),
    ensures
        x4.spec_doubled().exceeds(2 * n - 1),
{
    let m = x4.mantissa as int;
    let e = x4.exponent as int;
    let d = x4.spec_doubled();
    assert(d.exponent == e + 1);
    if e >= 0 {
        let p = pow2(e as nat) as int;
        lemma_pow2_unfold((e + 1) as nat);
        assert(pow2(d.exponent as nat) == 2 * p);
        assert(2 * n - 1 < m * (2 * p)) by (nonlinear_arith)
            requires
                n - 1 < m * p,
        ;
        assert(d.exceeds(2 * n - 1));
    } else {
        let k = (-e) as nat;
        let p = pow2(k) as int;
        lemma_pow2_pos(k);
        let q = m / p;
        assert(m == q * p) by (nonlinear_arith)
            requires
                m % p == 0,
                p > 0,
                q == m / p,
        ;
        assert(n <= q) by (nonlinear_arith)
            requires
                (n - 1) * p < m,
                m == q * p,
                p > 0,
        ;
        lemma_pow2_unfold(k);
        if e == -1 {
            lemma2_to64();
            assert(pow2(0) == 1);
            assert(p == 2);
            assert(m == 2 * q) by (nonlinear_arith)
                requires
                    m == q * p,
                    p == 2,
            ;
            assert(d.exponent == 0);
            assert(pow2(d.exponent as nat) == 1);
            let one = pow2(d.exponent as nat) as int;
            assert(d.mantissa == m);
            assert(m * one == m) by (nonlinear_arith)
                requires
                    one == 1,
            ;
            assert(d.exceeds(2 * n - 1));
        } else {
            let h = pow2((k - 1) as nat) as int;
            assert(pow2((-d.exponent) as nat) == h);
            assert((2 * n - 1) * h < m) by (nonlinear_arith)
                requires
                    n <= q,
                    m == q * p,
                    p == 2 * h,
                    h > 0,
            ;
            assert(d.exceeds(2 * n - 1));
        }
    }
}

/// Each ordinate table covers its S-curve exactly: both curves start on the
/// rising limb at `t = 0`, every index below the table's length lies before
/// saturation, and every index from the length on lies on the saturated
/// part. So the ordinates `S(i) - S(i - 1)` of a table add up to
/// `S(n) - S(0)`, one minus zero, and an ordinate past its end would be zero.
pub proof fn lemma_tables_cover_curves(x4: TimeBase, sizes: HydrographSizes)
    requires
        x4.is_binary64(),
        sizes_of(x4, sizes),
    ensures
        spec_first_curve_segment(0, x4) == Segment::Rising,
        spec_second_curve_segment(0, x4) == Segment::Rising,
        forall|t: int|
            0 <= t < sizes.first ==> #[trigger] spec_first_curve_segment(t, x4) == Segment::Rising,
        forall|t: int|
            0 <= t < sizes.second ==> #[trigger] spec_second_curve_segment(t, x4)
                != Segment::Saturated,
        forall|t: int|
            t >= sizes.first ==> #[trigger] spec_first_curve_segment(t, x4) == Segment::Saturated,
        forall|t: int|
            t >= sizes.second ==> #[trigger] spec_second_curve_segment(t, x4)
                == Segment::Saturated,
{
    let d = x4.spec_doubled();
    assert(x4.exceeds(0)) by {
        if x4.exponent >= 0 {
            lemma_pow2_pos(x4.exponent as nat);
            assert(0 < x4.mantissa * pow2(x4.exponent as nat)) by (nonlinear_arith)
                requires
                    x4.mantissa > 0,
                    pow2(x4.exponent as nat) > 0,
            ;
        }
    }
    assert forall|t: int| 0 <= t < sizes.first implies #[trigger] spec_first_curve_segment(t, x4)
        == Segment::Rising by {
        lemma_exceeds_downward(x4, t, sizes.first - 1);
    }
    assert forall|t: int| 0 <= t < sizes.second implies #[trigger] spec_second_curve_segment(
        t,
        x4,
    ) != Segment::Saturated by {
        lemma_exceeds_downward(d, t, sizes.second - 1);
    }
    assert forall|t: int| t >= sizes.first implies #[trigger] spec_first_curve_segment(t, x4)
        == Segment::Saturated by {
        if x4.exceeds(t) {
            lemma_exceeds_downward(x4, sizes.first as int, t);
        }
    }
    assert forall|t: int| t >= sizes.second implies #[trigger] spec_second_curve_segment(t, x4)
        == Segment::Saturated by {
        if d.exceeds(t) {
            lemma_exceeds_downward(d, sizes.second as int, t);
        }
        if x4.exceeds(t) {
            lemma_exceeds_doubled(x4, t);
            lemma_exceeds_downward(d, sizes.second as int, t);
        }
    }
}

} // verus!
