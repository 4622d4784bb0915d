use vstd::prelude::*;
use vstd::arithmetic::power2::{pow2, lemma_pow2_adds, lemma_pow2_pos, lemma_pow2_strictly_increases, lemma2_to64, lemma2_to64_rest};
use vstd::arithmetic::div_mod::{lemma_div_is_ordered, lemma_div_denominator, lemma_div_multiples_vanish, lemma_div_multiples_vanish_quotient};

verus! {

// Binary64 numbers are handled here as whole numbers scaled by a power of two, so that their
// rounding can be stated and computed exactly.

/// `v + e` rounded to the nearest number of at most 53 significant bits, halves to the one whose
/// last kept bit is 0: the rounding of binary64 arithmetic, on a scale where the result is whole.
/// `e` is some fraction strictly between 0 and 1 when `sticky` holds, and 0 otherwise. Below
/// 2^53 every whole number has at most 53 bits and `v` is kept.
pub open spec fn round53(v: nat, sticky: bool) -> nat
    decreases v,
{
    if v < 0x20000000000000 {
        v
    } else if v < 0x40000000000000 {
        let q = v / 2;
        if v % 2 == 1 && (sticky || q % 2 == 1) {
            2 * (q + 1)
        } else {
            2 * q
        }
    } else {
        2 * round53(v / 2, sticky || v % 2 == 1)
    }
}

/// Rounding moves a number up by at most one part in 2^53 of it.
pub proof fn lemma_round53_bound(v: nat, sticky: bool)
    ensures
        round53(v, sticky) <= v + v / 0x20000000000000,
        v > 0 ==> round53(v, sticky) > 0,
    decreases v,
{
    if v < 0x20000000000000 {
    } else if v < 0x40000000000000 {
        assert(v / 0x20000000000000 >= 1) by {
            lemma_div_is_ordered(0x20000000000000, v as int, 0x20000000000000);
        }
    } else {
        let h = v / 2;
        lemma_round53_bound(h, sticky || v % 2 == 1);
        let a = v / 0x40000000000000;
        assert(h / 0x20000000000000 == a) by {
            lemma_div_denominator(v as int, 2, 0x20000000000000);
        }
        assert(2 * a <= v / 0x20000000000000) by {
            assert(a * 0x40000000000000 <= v);
            assert(2 * a * 0x20000000000000 == a * 0x40000000000000);
            lemma_div_is_ordered((2 * a * 0x20000000000000) as int, v as int, 0x20000000000000);
            lemma_div_multiples_vanish((2 * a) as int, 0x20000000000000);
        }
    }
}

/// Rounding a number twice as large, with nothing below it, gives twice the rounding.
pub proof fn lemma_round53_double(v: nat)
    ensures
        round53(2 * v, false) == 2 * round53(v, false),
{
    if 2 * v >= 0x40000000000000 {
        assert((2 * v) / 2 == v);
        assert((2 * v) % 2 == 0);
    } else if 2 * v >= 0x20000000000000 {
        assert((2 * v) / 2 == v);
        assert((2 * v) % 2 == 0);
    }
}

/// Rounding commutes with scaling by a power of two.
pub proof fn lemma_round53_scale(v: nat, t: nat)
    ensures
        round53(v * pow2(t), false) == pow2(t) * round53(v, false),
    decreases t,
{
    if t == 0 {
        lemma2_to64();
        assert(v * pow2(0) == v);
        assert(pow2(0) * round53(v, false) == round53(v, false));
    } else {
        let t1 = (t - 1) as nat;
        lemma_round53_scale(v, t1);
        lemma_pow2_adds(t1, 1);
        lemma2_to64();
        assert(pow2(t) == pow2(t1) * 2);
        let u = v * pow2(t1);
        assert(v * pow2(t) == 2 * u) by (nonlinear_arith)
            requires
                pow2(t) == pow2(t1) * 2,
                u == v * pow2(t1),
        ;
        lemma_round53_double(u);
        assert(round53(v * pow2(t), false) == 2 * round53(u, false));
        assert(round53(u, false) == pow2(t1) * round53(v, false));
        assert(pow2(t) * round53(v, false) == 2 * (pow2(t1) * round53(v, false))) by (nonlinear_arith)
            requires
                pow2(t) == pow2(t1) * 2,
        ;
    }
}

/// `round53(v, sticky)`, for `v` below 2^127.
pub(crate) fn round53_exec(v: u128, sticky: bool) -> (r: u128)
    requires
        v < 0x80000000000000000000000000000000,
    ensures
        r == round53(v as nat, sticky),
    decreases v,
{
    proof {
        lemma_round53_bound(v as nat, sticky);
    }
    if v < 0x20000000000000 {
        v
    } else if v < 0x40000000000000 {
        let q = v / 2;
        if v % 2 == 1 && (sticky || q % 2 == 1) {
            2 * (q + 1)
        } else {
            2 * q
        }
    } else {
        let h = round53_exec(v / 2, sticky || v % 2 == 1);
        assert(v / 0x20000000000000 < 0x4000000000000000000000000) by {
            lemma_div_is_ordered(v as int, 0x80000000000000000000000000000000, 0x20000000000000);
        }
        2 * h
    }
}

/// `round53(v, sticky)` as `w` times 2^t, with `w` at most 2^53.
pub(crate) fn round53_split(v: u128, sticky: bool) -> (r: (u128, u32))
    ensures
        r.0 * pow2(r.1 as nat) == round53(v as nat, sticky),
        r.0 <= 0x20000000000000,
        v > 0 ==> r.0 > 0,
        r.1 == 0 || pow2(r.1 as nat) <= v,
    decreases v,
{
    proof {
        lemma2_to64();
    }
    if v < 0x20000000000000 {
        assert(v * pow2(0) == round53(v as nat, sticky));
        (v, 0)
    } else if v < 0x40000000000000 {
        let q = v / 2;
        assert(pow2(1) == 2);
        if v % 2 == 1 && (sticky || q % 2 == 1) {
            assert((q + 1) * pow2(1) == 2 * (q + 1));
            (q + 1, 1)
        } else {
            assert(q * pow2(1) == 2 * q);
            (q, 1)
        }
    } else {
        let (w, t) = round53_split(v / 2, sticky || v % 2 == 1);
        proof {
            lemma_pow2_adds(t as nat, 1);
            lemma2_to64_rest();
            lemma_pow2_adds(64, 63);
            if t >= 127 {
                if t > 127 {
                    lemma_pow2_strictly_increases(127, t as nat);
                }
                assert(false);
            }
            assert(w * pow2((t + 1) as nat) == 2 * (w * pow2(t as nat))) by (nonlinear_arith)
                requires
                    pow2((t + 1) as nat) == pow2(t as nat) * 2,
            ;
            assert(round53(v as nat, sticky) == 2 * round53((v / 2) as nat, sticky || v % 2 == 1));
            assert(w * pow2((t + 1) as nat) == round53(v as nat, sticky));
        }
        (w, t + 1)
    }
}

/// 2^e.
pub(crate) fn two_pow(e: u32) -> (p: u128)
    requires
        e < 128,
    ensures
        p == pow2(e as nat),
{
    proof {
        lemma2_to64();
    }
    let mut p: u128 = 1;
    let mut i: u32 = 0;
    while i < e
        invariant
            i <= e < 128,
            p == pow2(i as nat),
        decreases e - i,
    {
        proof {
            lemma2_to64();
            lemma_pow2_adds(i as nat, 1);
            lemma_pow2_strictly_increases(i as nat, 127);
            lemma2_to64_rest();
            lemma_pow2_adds(64, 63);
        }
        p = p * 2;
        i = i + 1;
    }
    p
}

} // verus!
