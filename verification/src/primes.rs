use vstd::arithmetic::div_mod::{lemma_fundamental_div_mod, lemma_mod_multiples_vanish};
use vstd::prelude::*;

verus! {

/// `n` is prime: greater than 1, and divided by no number between 1 and
/// itself.
pub open spec fn is_prime(n: nat) -> bool {
    &&& n >= 2
    &&& forall|d: nat| 2 <= d < n ==> #[trigger] (n % d) != 0
}

/// `p` is the first prime after `after`.
pub open spec fn is_next_prime(after: nat, p: nat) -> bool {
    &&& is_prime(p)
    &&& after < p
    &&& forall|m: nat| after < m < p ==> !is_prime(m)
}

/// What comes before place `k` of `run`: the item at `k - 1`, or `start` at
/// the front.
pub open spec fn predecessor(start: nat, run: Seq<nat>, k: int) -> nat {
    if k == 0 {
        start
    } else {
        run[k - 1]
    }
}

/// The item at place `k` of `run` is the first prime after what comes before
/// it.
pub open spec fn follows_on(start: nat, run: Seq<nat>, k: int) -> bool {
    is_next_prime(predecessor(start, run, k), run[k])
}

/// `run` lists the primes that follow `start`, in order and without a gap:
/// each item is the first prime after the one before it, the first item the
/// first prime after `start`.
pub open spec fn primes_after(start: nat, run: Seq<nat>) -> bool {
    forall|k: int| 0 <= k < run.len() ==> #[trigger] follows_on(start, run, k)
}

/// A multiple of a multiple of `q` is a multiple of `q`.
pub proof fn lemma_divisor_chain(q: nat, d: nat, n: nat)
    requires
        q > 0,
        d > 0,
        d % q == 0,
        n % d == 0,
    ensures
        n % q == 0,
{
    let qi = q as int;
    let di = d as int;
    let ni = n as int;
    lemma_fundamental_div_mod(di, qi);
    lemma_fundamental_div_mod(ni, di);
    let j = di / qi;
    let k = ni / di;
    assert(ni == qi * (j * k)) by (nonlinear_arith)
        requires
            ni == di * k,
            di == qi * j,
    ;
    lemma_mod_multiples_vanish(j * k, 0, qi);
}

/// Every number from 2 on has a prime divisor.
pub proof fn lemma_prime_divisor(n: nat) -> (q: nat)
    requires
        n >= 2,
    ensures
        is_prime(q),
        q <= n,
        n % q == 0,
    decreases n,
{
    if is_prime(n) {
        n
    } else {
        let d = choose|d: nat| 2 <= d < n && #[trigger] (n % d) == 0;
        let q = lemma_prime_divisor(d);
        lemma_divisor_chain(q, d, n);
        q
    }
}

/// Of two multiples of `q` less than `q` apart, the one is the other.
pub proof fn lemma_multiples_apart(q: nat, low: nat, high: nat)
    requires
        q > 0,
        low % q == 0,
        high % q == 0,
        low <= high < low + q,
    ensures
        low == high,
{
    let qi = q as int;
    lemma_fundamental_div_mod(low as int, qi);
    lemma_fundamental_div_mod(high as int, qi);
    let a = (low as int) / qi;
    let b = (high as int) / qi;
    assert(a == b) by (nonlinear_arith)
        requires
            qi > 0,
            qi * a <= qi * b < qi * a + qi,
    ;
}

/// The multiple of `p` that follows a multiple `n` of `p` is `n + p`.
pub proof fn lemma_next_multiple(p: nat, n: nat)
    requires
        p > 0,
        n % p == 0,
    ensures
        (n + p) % p == 0,
{
    let pi = p as int;
    lemma_fundamental_div_mod(n as int, pi);
    let k = (n as int) / pi;
    assert(n + p == pi * (k + 1)) by (nonlinear_arith)
        requires
            n == pi * k,
            p == pi,
    ;
    lemma_mod_multiples_vanish(k + 1, 0, pi);
}

/// A multiple of `p` greater than `p` is at least twice `p`.
pub proof fn lemma_proper_multiple(p: nat, n: nat)
    requires
        p > 0,
        n % p == 0,
        n > p,
    ensures
        n >= 2 * p,
{
    let pi = p as int;
    lemma_fundamental_div_mod(n as int, pi);
    let k = (n as int) / pi;
    assert(k >= 2) by (nonlinear_arith)
        requires
            pi > 0,
            n == pi * k,
            n > pi,
    ;
    assert(pi * k >= 2 * pi) by (nonlinear_arith)
        requires
            pi > 0,
            k >= 2,
    ;
}

/// Every item of a run of primes is a prime beyond the start.
pub proof fn lemma_run_of_primes(start: nat, run: Seq<nat>, i: int)
    requires
        primes_after(start, run),
        0 <= i < run.len(),
    ensures
        is_prime(run[i]),
        start < run[i],
    decreases i,
{
    assert(follows_on(start, run, i));
    if i > 0 {
        lemma_run_of_primes(start, run, i - 1);
    }
}

/// A run of primes ascends strictly.
pub proof fn lemma_run_ascends(start: nat, run: Seq<nat>, i: int, j: int)
    requires
        primes_after(start, run),
        0 <= i < j < run.len(),
    ensures
        run[i] < run[j],
    decreases j - i,
{
    assert(follows_on(start, run, j));
    if i < j - 1 {
        lemma_run_ascends(start, run, i, j - 1);
    }
}

/// A run of primes leaves none out: a number between its start and its last
/// item is prime exactly when it is an item of the run.
pub proof fn lemma_run_complete(start: nat, run: Seq<nat>, n: nat)
    requires
        primes_after(start, run),
        run.len() > 0,
        start < n <= run.last(),
    ensures
        is_prime(n) <==> run.contains(n),
    decreases run.len(),
{
    let last = run.len() - 1;
    assert(follows_on(start, run, last));
    if n == run.last() {
    } else if n > predecessor(start, run, last) {
        assert forall|k: int| 0 <= k < run.len() implies run[k] != n by {
            if k < last - 1 {
                lemma_run_ascends(start, run, k, last - 1);
            }
        }
    } else {
        let front = run.drop_last();
        assert forall|k: int| 0 <= k < front.len() implies #[trigger] follows_on(
            start,
            front,
            k,
        ) by {
            assert(follows_on(start, run, k));
        }
        lemma_run_complete(start, front, n);
        if front.contains(n) {
            let k = choose|k: int| 0 <= k < front.len() && front[k] == n;
        }
        if run.contains(n) {
            let k = choose|k: int| 0 <= k < run.len() && run[k] == n;
            assert(front[k] == n);
        }
    }
}

} // verus!
