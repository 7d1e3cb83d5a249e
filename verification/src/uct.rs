//! Fixed-point arithmetic for the UCT selection criterion: integer square
//! root, floored base-2 logarithm, and the scaled selection score
//! approximating w/n + sqrt(2) * sqrt(ln(N) / n).

use vstd::prelude::*;

verus! {

/// Fixed-point scale: one unit of score is 1 / 65536.
pub const UCT_SCALE: u64 = 65536;

/// ln(2) in fixed-point units (rounded).
pub const LN2_SCALED: u64 = 45426;

/// The integer square root: the greatest r with r * r <= x.
pub open spec fn spec_isqrt(x: nat) -> nat
    decreases x,
{
    if x == 0 {
        0
    } else {
        let r = spec_isqrt((x - 1) as nat);
        if (r + 1) * (r + 1) <= x {
            r + 1
        } else {
            r
        }
    }
}

pub proof fn lemma_isqrt_bounds(x: nat)
    ensures
        spec_isqrt(x) * spec_isqrt(x) <= x,
        x < (spec_isqrt(x) + 1) * (spec_isqrt(x) + 1),
    decreases x,
{
    let s = spec_isqrt(x);
    if x == 0 {
        assert(s == 0);
        assert(s * s <= x && x < (s + 1) * (s + 1)) by (nonlinear_arith)
            requires
                s == 0,
                x == 0,
        {}
    } else {
        lemma_isqrt_bounds((x - 1) as nat);
        let r = spec_isqrt((x - 1) as nat);
        if (r + 1) * (r + 1) <= x {
            assert(s == r + 1);
            assert(x - 1 < (r + 1) * (r + 1));
            assert(s * s <= x && x < (s + 1) * (s + 1)) by (nonlinear_arith)
                requires
                    s == r + 1,
                    (r + 1) * (r + 1) <= x,
                    x <= (r + 1) * (r + 1),
            {}
        } else {
            assert(s == r);
            assert(r * r <= x - 1);
            assert(s * s <= x && x < (s + 1) * (s + 1)) by (nonlinear_arith)
                requires
                    s == r,
                    r * r <= x - 1,
                    !((r + 1) * (r + 1) <= x),
        {}
        }
    }
}

pub proof fn lemma_isqrt_unique(x: nat, r: nat)
    requires
        r * r <= x,
        x < (r + 1) * (r + 1),
    ensures
        r == spec_isqrt(x),
{
    lemma_isqrt_bounds(x);
    let s = spec_isqrt(x);
    assert(r == s) by (nonlinear_arith)
        requires
            r * r <= x,
            x < (r + 1) * (r + 1),
            s * s <= x,
            x < (s + 1) * (s + 1),
    {}
}

/// The floored base-2 logarithm, with log2(x) = 0 for x <= 1.
pub open spec fn spec_log2(x: nat) -> nat
    decreases x,
{
    if x <= 1 {
        0
    } else {
        1 + spec_log2(x / 2)
    }
}

proof fn lemma_log2_lt(x: nat, k: nat)
    requires
        1 <= x,
        x < vstd::arithmetic::power2::pow2(k),
    ensures
        spec_log2(x) < k,
    decreases x,
{
    assert(vstd::arithmetic::power2::pow2(0) == 1) by {
        vstd::arithmetic::power2::lemma2_to64();
    }
    if x <= 1 {
        assert(k >= 1);
    } else {
        assert(k >= 1);
        vstd::arithmetic::power2::lemma_pow2_unfold(k);
        assert(vstd::arithmetic::power2::pow2(k) == 2 * vstd::arithmetic::power2::pow2(
            (k - 1) as nat,
        ));
        lemma_log2_lt(x / 2, (k - 1) as nat);
    }
}

/// The base-2 logarithm of a 64-bit value is below 64.
pub proof fn lemma_log2_u64(x: u64)
    requires
        x >= 1,
    ensures
        spec_log2(x as nat) < 64,
{
    assert(vstd::arithmetic::power2::pow2(64) == 0x10000000000000000) by {
        vstd::arithmetic::power2::lemma2_to64();
    }
    lemma_log2_lt(x as nat, 64);
}

/// The integer square root of a 64-bit value, by bisection.
pub fn isqrt64(x: u64) -> (r: u64)
    ensures
        r == spec_isqrt(x as nat),
{
    let mut lo: u64 = 0;
    let mut hi: u64 = 4294967296;
    proof {
        assert((4294967296int) * 4294967296 > u64::MAX) by (nonlinear_arith);
    }
    while lo + 1 < hi
        invariant
            lo < hi <= 4294967296,
            lo * lo <= x,
            (x as int) < (hi as int) * (hi as int),
        decreases hi - lo,
    {
        let mid = lo + (hi - lo) / 2;
        proof {
            assert(lo < mid < hi);
            assert((mid as int) * (mid as int) <= (4294967295int) * 4294967295)
                by (nonlinear_arith)
                requires
                    mid <= 4294967295,
            {}
            assert((4294967295int) * 4294967295 <= u64::MAX as int) by (nonlinear_arith);
        }
        if mid * mid <= x {
            lo = mid;
        } else {
            hi = mid;
        }
    }
    proof {
        lemma_isqrt_unique(x as nat, lo as nat);
    }
    lo
}

/// The floored base-2 logarithm of a positive 64-bit value.
pub fn log2_floor64(x: u64) -> (r: u64)
    requires
        x >= 1,
    ensures
        r == spec_log2(x as nat),
{
    let mut v: u64 = x;
    let mut r: u64 = 0;
    proof {
        lemma_log2_u64(x);
    }
    while v > 1
        invariant
            v >= 1,
            spec_log2(x as nat) == r + spec_log2(v as nat),
            spec_log2(x as nat) < 64,
            r <= spec_log2(x as nat),
        decreases v,
    {
        proof {
            assert(spec_log2(v as nat) == 1 + spec_log2((v / 2) as nat));
        }
        v = v / 2;
        r = r + 1;
    }
    r
}

/// The fixed-point UCT selection score of a child with `won` half-points
/// over `total` visits, under a parent with `parent_total` visits:
/// exploitation w/n plus exploration sqrt(2 * ln(N) / n), both scaled by
/// `UCT_SCALE`, with ln approximated through the floored base-2 logarithm.
/// An unvisited child scores highest of all.
pub open spec fn uct_score(won: nat, total: nat, parent_total: nat) -> int {
    if total == 0 {
        u64::MAX as int
    } else {
        (won as int) * (UCT_SCALE as int) / (2 * (total as int)) + spec_isqrt(
            ((2 * (LN2_SCALED as int) * spec_log2(parent_total) * (UCT_SCALE as int)) / (
            total as int)) as nat,
        )
    }
}

/// Computes the fixed-point UCT selection score.
pub fn calculate_selection_criteria(won: u64, total: u32, parent_total: u32) -> (r: u64)
    requires
        won <= 2 * total,
    ensures
        r == uct_score(won as nat, total as nat, parent_total as nat),
{
    if total == 0 {
        u64::MAX
    } else {
        let exploit: u64 = won * UCT_SCALE / (2 * (total as u64));
        proof {
            assert((won as int) * (UCT_SCALE as int) <= (2 * (u32::MAX as int)) * 65536)
                by (nonlinear_arith)
                requires
                    won <= 2 * (u32::MAX as int),
            {}
            assert((2 * (u32::MAX as int)) * 65536 <= u64::MAX as int) by (nonlinear_arith);
        }
        let ln_n: u64 = if parent_total >= 1 {
            log2_floor64(parent_total as u64)
        } else {
            0
        };
        proof {
            if parent_total >= 1 {
                lemma_log2_u64(parent_total as u64);
            }
            assert(ln_n < 64);
            assert(2 * (LN2_SCALED as int) * (ln_n as int) * (UCT_SCALE as int) < u64::MAX as int)
                by (nonlinear_arith)
                requires
                    ln_n < 64,
            {}
        }
        let inside: u64 = 2 * LN2_SCALED * ln_n * UCT_SCALE / (total as u64);
        let explore: u64 = isqrt64(inside);
        proof {
            assert(exploit <= UCT_SCALE) by (nonlinear_arith)
                requires
                    won <= 2 * (total as int),
                    total >= 1,
                    exploit == (won as int) * (UCT_SCALE as int) / (2 * (total as int)),
            {}
            assert(inside < u64::MAX);
            assert((explore as int) * (explore as int) <= inside as int) by {
                lemma_isqrt_bounds(inside as nat);
            }
            assert(explore < 4294967296) by (nonlinear_arith)
                requires
                    (explore as int) * (explore as int) <= inside as int,
                    inside < u64::MAX,
            {}
        }
        exploit + explore
    }
}

} // verus!
