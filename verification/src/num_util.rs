use vstd::arithmetic::div_mod::{
    lemma_fundamental_div_mod, lemma_mod_multiples_vanish, lemma_small_mod,
};
use vstd::prelude::*;

verus! {

/// `d` divides `n`. Zero divides only zero.
pub open spec fn divides(d: nat, n: nat) -> bool {
    if d == 0 {
        n == 0
    } else {
        n % d == 0
    }
}

/// `g` is the greatest common divisor of `a` and `b`: it divides both, and
/// whatever divides both divides `g`. For `a == b == 0` that is 0.
pub open spec fn is_gcd(g: nat, a: nat, b: nat) -> bool {
    &&& divides(g, a)
    &&& divides(g, b)
    &&& forall|d: nat| #![trigger divides(d, a)] divides(d, a) && divides(d, b) ==> divides(d, g)
}

/// A common divisor of `y` and of the remainder of `x` by `y` is one of `x`
/// and `y`, and the other way round.
proof fn lemma_remainder_keeps_divisors(x: nat, y: nat, d: nat)
    requires
        y > 0,
    ensures
        (divides(d, x) && divides(d, y)) <==> (divides(d, y) && divides(d, x % y)),
{
    if d != 0 && divides(d, y) {
        let xi = x as int;
        let yi = y as int;
        let di = d as int;
        let q = xi / yi;
        let r = xi % yi;
        let k = yi / di;
        lemma_fundamental_div_mod(xi, yi);
        lemma_fundamental_div_mod(yi, di);
        assert(yi * q == di * (k * q)) by (nonlinear_arith)
            requires
                yi == di * k,
        ;
        // x and the remainder differ by a multiple of d
        lemma_mod_multiples_vanish(k * q, r, di);
    }
}

/// At most one number is the greatest common divisor of two others.
pub proof fn lemma_gcd_unique(g: nat, h: nat, a: nat, b: nat)
    requires
        is_gcd(g, a, b),
        is_gcd(h, a, b),
    ensures
        g == h,
{
    if g != 0 && h != 0 {
        if g < h {
            lemma_small_mod(g, h);
        } else if h < g {
            lemma_small_mod(h, g);
        }
    }
}

/// The greatest common divisor of `a` and `b`, by Euclid's algorithm.
pub fn gcd(a: u32, b: u32) -> (g: u32)
    ensures
        is_gcd(g as nat, a as nat, b as nat),
{
    let mut x: u32 = a;
    let mut y: u32 = b;
    while y != 0
        invariant
            forall|d: nat|
                #![trigger divides(d, a as nat)]
                #![trigger divides(d, x as nat)]
                (divides(d, a as nat) && divides(d, b as nat)) <==> (divides(d, x as nat)
                    && divides(d, y as nat)),
        decreases y,
    {
        let r: u32 = x % y;
        proof {
            assert forall|d: nat|
                #![trigger divides(d, a as nat)]
                #![trigger divides(d, y as nat)]
                (divides(d, a as nat) && divides(d, b as nat)) <==> (divides(d, y as nat)
                    && divides(d, r as nat)) by {
                lemma_remainder_keeps_divisors(x as nat, y as nat, d);
            }
        }
        x = y;
        y = r;
    }
    proof {
        // x divides itself and zero, so it divides a and b
        assert(divides(x as nat, x as nat));
    }
    x
}

} // verus!
