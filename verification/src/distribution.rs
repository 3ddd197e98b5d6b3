//! The five-tap LCD coverage distribution table.

use vstd::prelude::*;
use vstd::arithmetic::div_mod::{lemma_div_is_ordered, lemma_fundamental_div_mod};

verus! {

/// Integer part of `weight / total` of the coverage `v`; nothing when every
/// weight is zero.
pub open spec fn share(weight: int, total: int, v: int) -> int {
    if total == 0 {
        0
    } else {
        weight * v / total
    }
}

/// Lookup table for LCD sub-pixel coverage distribution.
///
/// Each coverage value is spread over the primary (centre) sub-pixel, the two
/// secondary (adjacent) ones and the two tertiary (two away) ones, in the
/// proportions `prim : second : tert`, normalised so that
/// `prim + 2 * second + 2 * tert` is the whole.
pub struct LcdDistributionLut {
    primary_lut: [u8; 256],
    secondary_lut: [u8; 256],
    tertiary_lut: [u8; 256],
}

/// `floor(weight * v / total)`, or 0 when `total` is 0.
fn share_of(weight: u64, total: u64, v: u64) -> (r: u8)
    requires
        weight <= total,
        total <= 5 * (u32::MAX as int),
        v <= 255,
    ensures
        r == share(weight as int, total as int, v as int),
{
    if total == 0 {
        0
    } else {
        proof {
            assert(weight * v <= total * v) by (nonlinear_arith)
                requires weight <= total;
            assert(weight * v <= 5 * (u32::MAX as int) * 255) by (nonlinear_arith)
                requires weight <= 5 * (u32::MAX as int), v <= 255;
            lemma_div_is_ordered((weight * v) as int, (total * v) as int, total as int);
            assert((total * v) / (total as int) == v) by (nonlinear_arith)
                requires total > 0;
        }
        ((weight * v) / total) as u8
    }
}

/// For shares of the weights `p`, `s`, `t` of the same coverage `v`, the
/// five taps add up to at most `v`, and, when the weights are not all zero,
/// to more than `v - 5`.
pub proof fn lemma_shares_sum(p: int, s: int, t: int, v: int)
    requires
        p >= 0,
        s >= 0,
        t >= 0,
        v >= 0,
    ensures
        share(p, p + 2 * s + 2 * t, v) + 2 * share(s, p + 2 * s + 2 * t, v) + 2 * share(t, p + 2 * s
            + 2 * t, v) <= v,
        p + 2 * s + 2 * t > 0 ==> share(p, p + 2 * s + 2 * t, v) + 2 * share(s, p + 2 * s + 2 * t, v)
            + 2 * share(t, p + 2 * s + 2 * t, v) > v - 5,
{
    let total = p + 2 * s + 2 * t;
    if total > 0 {
        let qp = p * v / total;
        let qs = s * v / total;
        let qt = t * v / total;
        lemma_fundamental_div_mod(p * v, total);
        lemma_fundamental_div_mod(s * v, total);
        lemma_fundamental_div_mod(t * v, total);
        let rp = (p * v) % total;
        let rs = (s * v) % total;
        let rt = (t * v) % total;
        assert(0 <= rp < total && 0 <= rs < total && 0 <= rt < total);
        assert(total * (qp + 2 * qs + 2 * qt) + rp + 2 * rs + 2 * rt == total * v) by (nonlinear_arith)
            requires
                p * v == total * qp + rp,
                s * v == total * qs + rs,
                t * v == total * qt + rt,
                total == p + 2 * s + 2 * t;
        assert(qp + 2 * qs + 2 * qt <= v) by (nonlinear_arith)
            requires
                total * (qp + 2 * qs + 2 * qt) + rp + 2 * rs + 2 * rt == total * v,
                rp >= 0,
                rs >= 0,
                rt >= 0,
                total > 0;
        assert(qp + 2 * qs + 2 * qt > v - 5) by (nonlinear_arith)
            requires
                total * (qp + 2 * qs + 2 * qt) + rp + 2 * rs + 2 * rt == total * v,
                rp < total,
                rs < total,
                rt < total,
                total > 0;
    }
}

/// A share never decreases as the coverage grows.
pub proof fn lemma_share_monotone(w: int, total: int, u: int, v: int)
    requires
        0 <= w,
        0 <= total,
        0 <= u <= v,
    ensures
        share(w, total, u) <= share(w, total, v),
{
    if total > 0 {
        assert(w * u <= w * v) by (nonlinear_arith)
            requires 0 <= w, u <= v;
        lemma_div_is_ordered(w * u, w * v, total);
    }
}

impl LcdDistributionLut {
    /// The primary (centre) table.
    pub closed spec fn primary_table(&self) -> Seq<u8> {
        self.primary_lut@
    }

    /// The secondary (adjacent) table.
    pub closed spec fn secondary_table(&self) -> Seq<u8> {
        self.secondary_lut@
    }

    /// The tertiary (two away) table.
    pub closed spec fn tertiary_table(&self) -> Seq<u8> {
        self.tertiary_lut@
    }

    /// Every table has one entry per coverage value.
    pub open spec fn wf(&self) -> bool {
        &&& self.primary_table().len() == 256
        &&& self.secondary_table().len() == 256
        &&& self.tertiary_table().len() == 256
    }

    /// The table built from the weights `prim`, `second`, `tert`.
    pub open spec fn built_from(&self, prim: int, second: int, tert: int) -> bool {
        let total = prim + 2 * second + 2 * tert;
        &&& self.wf()
        &&& forall|v: int|
            0 <= v < 256 ==> {
                &&& #[trigger] self.primary_table()[v] == share(prim, total, v)
                &&& self.secondary_table()[v] == share(second, total, v)
                &&& self.tertiary_table()[v] == share(tert, total, v)
            }
    }

    /// The five taps of a coverage value never add up to more than it.
    pub open spec fn conserves(&self) -> bool {
        forall|v: int|
            0 <= v < 256 ==> #[trigger] self.primary_table()[v] + 2 * self.secondary_table()[v] + 2
                * self.tertiary_table()[v] <= v
    }

    /// Each table is non-decreasing in the coverage.
    pub open spec fn monotone(&self) -> bool {
        forall|u: int, v: int|
            0 <= u <= v < 256 ==> {
                &&& #[trigger] self.primary_table()[u] <= #[trigger] self.primary_table()[v]
                &&& self.secondary_table()[u] <= self.secondary_table()[v]
                &&& self.tertiary_table()[u] <= self.tertiary_table()[v]
            }
    }

    /// Creates the table for the weights of the primary (`prim`), secondary
    /// (`second`) and tertiary (`tert`) sub-pixels: entry `v` of each table
    /// is `floor(weight * v / (prim + 2 * second + 2 * tert))`.
    pub fn new(prim: u32, second: u32, tert: u32) -> (lut: Self)
        ensures
            lut.built_from(prim as int, second as int, tert as int),
            lut.conserves(),
            lut.monotone(),
            prim + 2 * second + 2 * tert > 0 ==> forall|v: int|
                0 <= v < 256 ==> #[trigger] lut.primary_table()[v] + 2 * lut.secondary_table()[v] + 2
                    * lut.tertiary_table()[v] > v - 5,
    {
        let total: u64 = prim as u64 + 2 * second as u64 + 2 * tert as u64;
        let mut primary_lut = [0u8; 256];
        let mut secondary_lut = [0u8; 256];
        let mut tertiary_lut = [0u8; 256];
        let ghost t = total as int;
        for i in 0..256usize
            invariant
                total == prim + 2 * second + 2 * tert,
                t == total as int,
                forall|v: int| 0 <= v < i ==> #[trigger] primary_lut@[v] == share(prim as int, t, v),
                forall|v: int| 0 <= v < i ==> #[trigger] secondary_lut@[v] == share(second as int, t, v),
                forall|v: int| 0 <= v < i ==> #[trigger] tertiary_lut@[v] == share(tert as int, t, v),
        {
            primary_lut[i] = share_of(prim as u64, total, i as u64);
            secondary_lut[i] = share_of(second as u64, total, i as u64);
            tertiary_lut[i] = share_of(tert as u64, total, i as u64);
        }
        let lut = LcdDistributionLut { primary_lut, secondary_lut, tertiary_lut };
        proof {
            assert forall|v: int| 0 <= v < 256 implies #[trigger] lut.primary_table()[v] + 2
                * lut.secondary_table()[v] + 2 * lut.tertiary_table()[v] <= v
                && (prim + 2 * second + 2 * tert > 0 ==> lut.primary_table()[v] + 2
                * lut.secondary_table()[v] + 2 * lut.tertiary_table()[v] > v - 5) by {
                assert(lut.primary_table()[v] == share(prim as int, t, v));
                assert(lut.secondary_table()[v] == share(second as int, t, v));
                assert(lut.tertiary_table()[v] == share(tert as int, t, v));
                lemma_shares_sum(prim as int, second as int, tert as int, v);
            }
            assert forall|u: int, v: int| 0 <= u <= v < 256 implies {
                &&& #[trigger] lut.primary_table()[u] <= #[trigger] lut.primary_table()[v]
                &&& lut.secondary_table()[u] <= lut.secondary_table()[v]
                &&& lut.tertiary_table()[u] <= lut.tertiary_table()[v]
            } by {
                assert(lut.primary_table()[u] == share(prim as int, t, u));
                assert(lut.primary_table()[v] == share(prim as int, t, v));
                assert(lut.secondary_table()[u] == share(second as int, t, u));
                assert(lut.secondary_table()[v] == share(second as int, t, v));
                assert(lut.tertiary_table()[u] == share(tert as int, t, u));
                assert(lut.tertiary_table()[v] == share(tert as int, t, v));
                lemma_share_monotone(prim as int, t, u, v);
                lemma_share_monotone(second as int, t, u, v);
                lemma_share_monotone(tert as int, t, u, v);
            }
        }
        lut
    }

    /// A table from given primary, secondary and tertiary entries, such as
    /// ones computed with other arithmetic.
    pub fn from_tables(primary: [u8; 256], secondary: [u8; 256], tertiary: [u8; 256]) -> (lut: Self)
        ensures
            lut.wf(),
            lut.primary_table() == primary@,
            lut.secondary_table() == secondary@,
            lut.tertiary_table() == tertiary@,
    {
        LcdDistributionLut { primary_lut: primary, secondary_lut: secondary, tertiary_lut: tertiary }
    }

    /// The primary (centre) share of coverage `v`.
    pub fn primary(&self, v: u8) -> (r: u8)
        requires
            self.wf(),
        ensures
            r == self.primary_table()[v as int],
    {
        self.primary_lut[v as usize]
    }

    /// The secondary (adjacent) share of coverage `v`.
    pub fn secondary(&self, v: u8) -> (r: u8)
        requires
            self.wf(),
        ensures
            r == self.secondary_table()[v as int],
    {
        self.secondary_lut[v as usize]
    }

    /// The tertiary (two away) share of coverage `v`.
    pub fn tertiary(&self, v: u8) -> (r: u8)
        requires
            self.wf(),
        ensures
            r == self.tertiary_table()[v as int],
    {
        self.tertiary_lut[v as usize]
    }
}

impl LcdDistributionLut {
    /// Tap `t` of the five-tap kernel applied to coverage `v`: taps 0 and 4
    /// are tertiary, 1 and 3 secondary, 2 primary.
    pub open spec fn tap(&self, t: int, v: u8) -> int {
        if t == 2 {
            self.primary_table()[v as int] as int
        } else if t == 1 || t == 3 {
            self.secondary_table()[v as int] as int
        } else {
            self.tertiary_table()[v as int] as int
        }
    }

    /// What tap `t` of cover `j - t` brings to position `j` when the first
    /// `n` covers are distributed.
    pub open spec fn tap_at(&self, covers: Seq<u8>, n: int, j: int, t: int) -> int {
        if 0 <= j - t < n {
            self.tap(t, covers[j - t])
        } else {
            0
        }
    }

    /// Position `j` of the five-tap distribution of the first `n` covers:
    /// the sum of the taps that land on it.
    pub open spec fn distributed(&self, covers: Seq<u8>, n: int, j: int) -> int {
        self.tap_at(covers, n, j, 0) + self.tap_at(covers, n, j, 1) + self.tap_at(covers, n, j, 2)
            + self.tap_at(covers, n, j, 3) + self.tap_at(covers, n, j, 4)
    }

    /// Built from weights that are not all zero, entry `v` of each table is
    /// the greatest count of whole `1 / total` parts of `weight * v`: the
    /// floor of `weight * v / total`.
    pub proof fn lemma_built_from_floor(&self, p: int, s: int, t: int, v: int)
        requires
            self.built_from(p, s, t),
            0 <= p,
            0 <= s,
            0 <= t,
            p + 2 * s + 2 * t > 0,
            0 <= v < 256,
        ensures
            ({
                let total = p + 2 * s + 2 * t;
                let e1 = self.primary_table()[v] as int;
                let e2 = self.secondary_table()[v] as int;
                let e3 = self.tertiary_table()[v] as int;
                &&& e1 * total <= p * v < (e1 + 1) * total
                &&& e2 * total <= s * v < (e2 + 1) * total
                &&& e3 * total <= t * v < (e3 + 1) * total
            }),
    {
        let total = p + 2 * s + 2 * t;
        assert(self.primary_table()[v] == share(p, total, v));
        lemma_fundamental_div_mod(p * v, total);
        lemma_fundamental_div_mod(s * v, total);
        lemma_fundamental_div_mod(t * v, total);
        let e1 = self.primary_table()[v] as int;
        let e2 = self.secondary_table()[v] as int;
        let e3 = self.tertiary_table()[v] as int;
        assert(e1 * total == total * e1 && (e1 + 1) * total == total * e1 + total) by (nonlinear_arith);
        assert(e2 * total == total * e2 && (e2 + 1) * total == total * e2 + total) by (nonlinear_arith);
        assert(e3 * total == total * e3 && (e3 + 1) * total == total * e3 + total) by (nonlinear_arith);
    }

    /// Position `j` of the distribution of the first `n` covers is the
    /// tertiary share of cover `j`, the secondary shares of covers `j - 1`
    /// and `j - 3`, the primary share of cover `j - 2` and the tertiary share
    /// of cover `j - 4`, each where that cover exists.
    pub proof fn lemma_distributed_explicit(&self, covers: Seq<u8>, n: int, j: int)
        requires
            0 <= n <= covers.len(),
        ensures
            self.distributed(covers, n, j) == (if 0 <= j < n {
                self.tertiary_table()[covers[j] as int] as int
            } else {
                0
            }) + (if 0 <= j - 1 < n {
                self.secondary_table()[covers[j - 1] as int] as int
            } else {
                0
            }) + (if 0 <= j - 2 < n {
                self.primary_table()[covers[j - 2] as int] as int
            } else {
                0
            }) + (if 0 <= j - 3 < n {
                self.secondary_table()[covers[j - 3] as int] as int
            } else {
                0
            }) + (if 0 <= j - 4 < n {
                self.tertiary_table()[covers[j - 4] as int] as int
            } else {
                0
            }),
    {
    }

    /// With a conserving, monotone table the distribution of any covers
    /// never exceeds full coverage at any position, so an 8-bit accumulator
    /// of it never wraps.
    pub proof fn lemma_distribution_fits(&self, covers: Seq<u8>, n: int, j: int)
        requires
            self.wf(),
            self.conserves(),
            self.monotone(),
            0 <= n <= covers.len(),
        ensures
            0 <= self.distributed(covers, n, j) <= 255,
    {
        assert forall|t: int| 0 <= t < 5 implies 0 <= #[trigger] self.tap_at(covers, n, j, t) <= self.tap(t, 255u8) by {
            if 0 <= j - t < n {
                let v = covers[j - t] as int;
                assert(self.primary_table()[v] <= self.primary_table()[255]);
            }
        }
        assert(self.primary_table()[255] + 2 * self.secondary_table()[255] + 2 * self.tertiary_table()[255] <= 255);
        assert(0 <= self.tap_at(covers, n, j, 0) <= self.tap(0, 255u8));
        assert(0 <= self.tap_at(covers, n, j, 1) <= self.tap(1, 255u8));
        assert(0 <= self.tap_at(covers, n, j, 2) <= self.tap(2, 255u8));
        assert(0 <= self.tap_at(covers, n, j, 3) <= self.tap(3, 255u8));
        assert(0 <= self.tap_at(covers, n, j, 4) <= self.tap(4, 255u8));
    }
}

} // verus!
