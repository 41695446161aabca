//! Wide unsigned arithmetic: comparing products that overflow 128 bits,
//! for the exact rational ordering of centrality scores.

use vstd::prelude::*;
use vstd::arithmetic::div_mod::lemma_fundamental_div_mod;

verus! {

/// The product of two 128-bit values, split into a high and a low 128-bit
/// half: `r.0 * 2^128 + r.1 == a * b`.
pub fn mul_wide(a: u128, b: u128) -> (r: (u128, u128))
    ensures
        (r.0 as int) * 0x100000000000000000000000000000000int + (r.1 as int) == (a as int) * (
        b as int),
{
    let base: u128 = 0x10000000000000000;
    let ghost bi: int = 0x10000000000000000;
    let ah = a / base;
    let al = a % base;
    let bh = b / base;
    let bl = b % base;
    proof {
        lemma_fundamental_div_mod(a as int, bi);
        lemma_fundamental_div_mod(b as int, bi);
        assert(al < base && bl < base && ah < base && bh < base) by {
            assert(ah as int == a as int / bi && al as int == a as int % bi);
            assert(bh as int == b as int / bi && bl as int == b as int % bi);
            assert(a as int / bi < bi) by (nonlinear_arith)
                requires
                    a as int == bi * (a as int / bi) + (a as int % bi),
                    0 <= a as int % bi,
                    (a as int) < bi * bi,
                    bi > 0;
            assert(b as int / bi < bi) by (nonlinear_arith)
                requires
                    b as int == bi * (b as int / bi) + (b as int % bi),
                    0 <= b as int % bi,
                    (b as int) < bi * bi,
                    bi > 0;
        }
        assert((al as int) * (bl as int) <= (bi - 1) * (bi - 1) && (al as int) * (bh as int)
            <= (bi - 1) * (bi - 1) && (ah as int) * (bl as int) <= (bi - 1) * (bi - 1) && (
        ah as int) * (bh as int) <= (bi - 1) * (bi - 1)) by (nonlinear_arith)
            requires
                0 <= (al as int) <= bi - 1,
                0 <= (ah as int) <= bi - 1,
                0 <= (bl as int) <= bi - 1,
                0 <= (bh as int) <= bi - 1;
    }
    let p0 = al * bl;
    let p1 = al * bh;
    let p2 = ah * bl;
    let p3 = ah * bh;
    proof {
        lemma_fundamental_div_mod(p0 as int, bi);
        lemma_fundamental_div_mod(p1 as int, bi);
        lemma_fundamental_div_mod(p2 as int, bi);
        assert(p0 as int / bi <= bi - 2 && p1 as int / bi <= bi - 2 && p2 as int / bi <= bi
            - 2) by (nonlinear_arith)
            requires
                p0 as int == bi * (p0 as int / bi) + (p0 as int % bi),
                p1 as int == bi * (p1 as int / bi) + (p1 as int % bi),
                p2 as int == bi * (p2 as int / bi) + (p2 as int % bi),
                0 <= p0 as int % bi,
                0 <= p1 as int % bi,
                0 <= p2 as int % bi,
                (p0 as int) <= (bi - 1) * (bi - 1),
                (p1 as int) <= (bi - 1) * (bi - 1),
                (p2 as int) <= (bi - 1) * (bi - 1),
                bi > 2;
    }
    let mid = p1 % base + p2 % base + p0 / base;
    proof {
        lemma_fundamental_div_mod(mid as int, bi);
        assert(mid as int / bi <= 2) by (nonlinear_arith)
            requires
                mid as int == bi * (mid as int / bi) + (mid as int % bi),
                0 <= mid as int % bi,
                (mid as int) <= 3 * (bi - 1),
                bi > 2;
    }
    let lo = (mid % base) * base + p0 % base;
    let hi = p3 + p1 / base + p2 / base + mid / base;
    proof {
        let q0: int = p0 as int / bi;
        let r0: int = p0 as int % bi;
        let q1: int = p1 as int / bi;
        let r1: int = p1 as int % bi;
        let q2: int = p2 as int / bi;
        let r2: int = p2 as int % bi;
        let qm: int = mid as int / bi;
        let rm: int = mid as int % bi;
        assert((a as int) * (b as int) == (p3 as int) * bi * bi + (p1 as int + p2 as int) * bi
            + p0 as int) by (nonlinear_arith)
            requires
                a as int == bi * (ah as int) + (al as int),
                b as int == bi * (bh as int) + (bl as int),
                p0 as int == (al as int) * (bl as int),
                p1 as int == (al as int) * (bh as int),
                p2 as int == (ah as int) * (bl as int),
                p3 as int == (ah as int) * (bh as int);
        assert(mid as int == r1 + r2 + q0);
        assert(lo as int == rm * bi + r0);
        assert(hi as int == p3 as int + q1 + q2 + qm);
        assert((hi as int) * (bi * bi) + lo as int == (p3 as int) * bi * bi + (p1 as int
            + p2 as int) * bi + p0 as int) by (nonlinear_arith)
            requires
                p0 as int == bi * q0 + r0,
                p1 as int == bi * q1 + r1,
                p2 as int == bi * q2 + r2,
                mid as int == bi * qm + rm,
                mid as int == r1 + r2 + q0,
                lo as int == rm * bi + r0,
                hi as int == p3 as int + q1 + q2 + qm;
        assert(bi * bi == 0x100000000000000000000000000000000int);
    }
    (hi, lo)
}

/// Decides `a1 * b1 >= a2 * b2` exactly, though the products can be as
/// large as 256 bits.
pub fn prod_ge(a1: u128, b1: u128, a2: u128, b2: u128) -> (r: bool)
    ensures
        r == ((a1 as int) * (b1 as int) >= (a2 as int) * (b2 as int)),
{
    let (h1, l1) = mul_wide(a1, b1);
    let (h2, l2) = mul_wide(a2, b2);
    let r = h1 > h2 || (h1 == h2 && l1 >= l2);
    proof {
        let q: int = 0x100000000000000000000000000000000int;
        assert(l1 < q && l2 < q);
        if h1 > h2 {
            assert((h1 as int) * q >= (h2 as int) * q + q) by (nonlinear_arith)
                requires
                    (h1 as int) >= (h2 as int) + 1,
                    q > 0;
        }
        if h1 < h2 {
            assert((h2 as int) * q >= (h1 as int) * q + q) by (nonlinear_arith)
                requires
                    (h2 as int) >= (h1 as int) + 1,
                    q > 0;
        }
    }
    r
}

} // verus!
