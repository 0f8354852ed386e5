use crate::min_heap::MinHeap;
use crate::natural::{values, Natural};
use crate::order::{le, lemma_le_total, lemma_operators};
use crate::primes::{
    is_next_prime, is_prime, lemma_multiples_apart, lemma_next_multiple, lemma_prime_divisor,
    lemma_proper_multiple, lemma_run_ascends, lemma_run_complete, predecessor, primes_after,
    follows_on,
};
use std::collections::HashMap;
use vstd::multiset::Multiset;
use vstd::prelude::*;

verus! {

broadcast use vstd::std_specs::hash::group_hash_axioms;

/// Prime `p` waits at `c` while the search stands before `frontier`: `p` was
/// found below the frontier, and `c` is its first multiple from the frontier
/// on.
pub open spec fn waits_at(p: nat, c: nat, frontier: nat) -> bool {
    &&& is_prime(p)
    &&& p < frontier
    &&& c % p == 0
    &&& frontier <= c < frontier + p
}

/// The queue holds each scheduled value once and nothing else, and no
/// scheduled value is left without a prime waiting at it.
pub open spec fn in_step<N>(pending: Multiset<N>, schedule: Map<N, Seq<N>>) -> bool {
    &&& forall|c: N|
        #![trigger pending.count(c)]
        #![trigger schedule.contains_key(c)]
        pending.count(c) == (if schedule.contains_key(c) {
            1nat
        } else {
            0nat
        })
    &&& forall|c: N| #[trigger] schedule.contains_key(c) ==> schedule[c].len() > 0
}

/// Every prime in the schedule waits where the schedule says.
pub open spec fn entries_sound<N: Natural>(schedule: Map<N, Seq<N>>, frontier: nat) -> bool {
    forall|c: N, j: int|
        schedule.contains_key(c) && 0 <= j < schedule[c].len() ==> waits_at(
            (#[trigger] schedule[c][j]).value(),
            c.value(),
            frontier,
        )
}

/// The number `q` is somewhere in the schedule.
pub open spec fn tracks<N: Natural>(schedule: Map<N, Seq<N>>, q: nat) -> bool {
    exists|c: N, j: int|
        schedule.contains_key(c) && 0 <= j < schedule[c].len() && (
        #[trigger] schedule[c][j]).value() == q
}

/// Every prime below the frontier is in the schedule.
pub open spec fn primes_tracked<N: Natural>(schedule: Map<N, Seq<N>>, frontier: nat) -> bool {
    forall|q: nat| is_prime(q) && q < frontier ==> #[trigger] tracks(schedule, q)
}

/// No number is in the schedule twice.
pub open spec fn once_each<N: Natural>(schedule: Map<N, Seq<N>>) -> bool {
    forall|c: N, j: int, d: N, k: int|
        schedule.contains_key(c) && 0 <= j < schedule[c].len() && schedule.contains_key(d) && 0
            <= k < schedule[d].len() && (#[trigger] schedule[c][j]).value() == (
        #[trigger] schedule[d][k]).value() ==> c == d && j == k
}

/// The schedule with `p` added to those that wait at `c`.
pub open spec fn with_entry<N>(schedule: Map<N, Seq<N>>, c: N, p: N) -> Map<N, Seq<N>> {
    schedule.insert(
        c,
        if schedule.contains_key(c) {
            schedule[c].push(p)
        } else {
            seq![p]
        },
    )
}

/// An entry that waits where it should keeps the schedule sound.
proof fn lemma_with_entry_sound<N: Natural>(
    schedule: Map<N, Seq<N>>,
    c: N,
    p: N,
    frontier: nat,
)
    requires
        entries_sound(schedule, frontier),
        waits_at(p.value(), c.value(), frontier),
    ensures
        entries_sound(with_entry(schedule, c, p), frontier),
{
    let grown = with_entry(schedule, c, p);
    assert forall|k: N, j: int| grown.contains_key(k) && 0 <= j < grown[k].len() implies waits_at(
        (#[trigger] grown[k][j]).value(),
        k.value(),
        frontier,
    ) by {
        if k == c {
            if schedule.contains_key(c) && j < schedule[c].len() {
                assert(grown[k][j] == schedule[c][j]);
            }
        } else {
            assert(grown[k][j] == schedule[k][j]);
        }
    }
}

/// A new entry adds its own number to those in the schedule, and no other.
proof fn lemma_with_entry_tracks<N: Natural>(schedule: Map<N, Seq<N>>, c: N, p: N, q: nat)
    ensures
        tracks(with_entry(schedule, c, p), p.value()),
        tracks(with_entry(schedule, c, p), q) <==> tracks(schedule, q) || q == p.value(),
{
    let grown = with_entry(schedule, c, p);
    let at = grown[c].len() - 1;
    assert(grown.contains_key(c) && grown[c][at].value() == p.value());
    if tracks(schedule, q) {
        let (k, j): (N, int) = choose|k: N, j: int|
            schedule.contains_key(k) && 0 <= j < schedule[k].len() && (
            #[trigger] schedule[k][j]).value() == q;
        assert(grown.contains_key(k) && grown[k][j].value() == q);
    }
    if tracks(grown, q) && q != p.value() {
        let (k, j): (N, int) = choose|k: N, j: int|
            grown.contains_key(k) && 0 <= j < grown[k].len() && (#[trigger] grown[k][j]).value()
                == q;
        assert(schedule.contains_key(k) && schedule[k][j].value() == q);
    }
}

/// A number that was not in the schedule is in it once after it is added.
proof fn lemma_with_entry_once<N: Natural>(schedule: Map<N, Seq<N>>, c: N, p: N)
    requires
        once_each(schedule),
        !tracks(schedule, p.value()),
    ensures
        once_each(with_entry(schedule, c, p)),
{
    let grown = with_entry(schedule, c, p);
    let at = grown[c].len() - 1;
    assert forall|a: N, j: int, b: N, k: int|
        grown.contains_key(a) && 0 <= j < grown[a].len() && grown.contains_key(b) && 0 <= k
            < grown[b].len() && (#[trigger] grown[a][j]).value() == (
        #[trigger] grown[b][k]).value() implies a == b && j == k by {
        let first_is_new = a == c && j == at;
        let second_is_new = b == c && k == at;
        if !first_is_new {
            assert(schedule.contains_key(a) && schedule[a][j] == grown[a][j]);
        }
        if !second_is_new {
            assert(schedule.contains_key(b) && schedule[b][k] == grown[b][k]);
        }
    }
}

/// A lazy, unbounded generator of the primes in ascending order.
///
/// It remembers the last number it examined, and for each prime found so far
/// the next multiple of that prime still to come. The multiples are the keys
/// of a map to the primes that wait at them, and sit in a queue that hands out
/// the nearest one.
pub struct Sieve<N: Natural> {
    i: N,
    heap: MinHeap<N>,
    map: HashMap<N, Vec<N>>,
}

impl<N: Natural> Sieve<N> {
    /// The last number examined. Every prime up to it has been produced.
    pub closed spec fn position(&self) -> nat {
        self.i.value()
    }

    /// The values that wait in the queue.
    pub closed spec fn pending(&self) -> Multiset<N> {
        self.heap@
    }

    /// For each scheduled value, the primes that wait at it.
    pub closed spec fn schedule(&self) -> Map<N, Seq<N>> {
        Map::new(|c: N| self.map@.contains_key(c), |c: N| self.map@[c]@)
    }

    /// The queue's own order is intact.
    pub closed spec fn queue_in_order(&self) -> bool {
        self.heap.wf()
    }

    /// Queue and schedule agree, and the schedule is that of a search which
    /// stands before `frontier`.
    pub open spec fn wf_before(&self, frontier: nat) -> bool {
        &&& self.queue_in_order()
        &&& in_step(self.pending(), self.schedule())
        &&& entries_sound(self.schedule(), frontier)
        &&& primes_tracked(self.schedule(), frontier)
        &&& once_each(self.schedule())
    }

    /// The number type has run out: no prime after the last number examined
    /// is small enough for its double to fit the type.
    pub open spec fn exhausted(&self) -> bool {
        forall|m: nat| self.position() < m && 2 * m <= N::limit() ==> !is_prime(m)
    }

    /// The state between two calls: the search stands just after the last
    /// number examined.
    pub open spec fn wf(&self) -> bool {
        &&& self.position() >= 1
        &&& self.wf_before(self.position() + 1)
    }

    /// Between two calls, whatever waits in the queue lies beyond the last
    /// number examined.
    pub proof fn lemma_queue_lies_ahead(&self)
        requires
            self.wf(),
        ensures
            forall|c: N| self.pending().contains(c) ==> c.value() > self.position(),
    {
        lemma_keys_from_frontier(self.pending(), self.schedule(), self.position() + 1);
    }

    /// Between two calls, every prime up to the last number examined has one
    /// entry in the schedule, and that entry stands at the prime's first
    /// multiple beyond that number.
    pub proof fn lemma_one_entry_for_each_prime(&self, q: nat)
        requires
            self.wf(),
            is_prime(q),
            q <= self.position(),
        ensures
            tracks(self.schedule(), q),
            forall|c: N, j: int, d: N, k: int|
                self.schedule().contains_key(c) && 0 <= j < self.schedule()[c].len()
                    && self.schedule().contains_key(d) && 0 <= k < self.schedule()[d].len() && (
                #[trigger] self.schedule()[c][j]).value() == q && (
                #[trigger] self.schedule()[d][k]).value() == q ==> c == d && j == k,
            forall|c: N, j: int|
                self.schedule().contains_key(c) && 0 <= j < self.schedule()[c].len() && (
                #[trigger] self.schedule()[c][j]).value() == q ==> c.value() % q == 0
                    && self.position() < c.value() <= self.position() + q,
    {
    }

    /// A generator that has produced nothing yet.
    pub fn new() -> (sieve: Sieve<N>)
        ensures
            sieve.wf(),
            sieve.position() == 1,
    {
        let sieve = Sieve { i: N::one(), heap: MinHeap::new(), map: HashMap::new() };
        proof {
            assert forall|q: nat| is_prime(q) && q < 2 implies #[trigger] tracks(
                sieve.schedule(),
                q,
            ) by {}
        }
        sieve
    }

    /// Schedules `p` at its next multiple after the current position.
    fn cross_out_next_multiple(&mut self, p: N)
        requires
            old(self).queue_in_order(),
            in_step(old(self).pending(), old(self).schedule()),
            old(self).position() + p.value() <= N::limit(),
        ensures
            final(self).queue_in_order(),
            in_step(final(self).pending(), final(self).schedule()),
            final(self).position() == old(self).position(),
            exists|c: N| #[trigger]
                c.value() == old(self).position() + p.value() && final(self).schedule()
                    == with_entry(old(self).schedule(), c, p),
    {
        proof {
            N::lemma_natural();
        }
        let next_cross = self.i.checked_sum(p).unwrap();
        let already_crossed = self.map.contains_key(&next_cross);
        if already_crossed {
            let mut waiting = self.map.remove(&next_cross).unwrap();
            waiting.push(p);
            self.map.insert(next_cross, waiting);
            assert(self.schedule() =~~= with_entry(old(self).schedule(), next_cross, p));
        } else {
            let waiting = vec![p];
            self.map.insert(next_cross, waiting);
            self.heap.push(next_cross);
            assert(self.schedule() =~~= with_entry(old(self).schedule(), next_cross, p));
        }
    }

    /// Whether every prime that waits at `n` has its next multiple, `n` plus
    /// the prime, within the limit.
    fn can_cross_out(&self, n: N) -> (r: bool)
        requires
            self.schedule().contains_key(n),
        ensures
            r <==> forall|j: int|
                0 <= j < self.schedule()[n].len() ==> n.value() + (
                #[trigger] self.schedule()[n][j]).value() <= N::limit(),
    {
        proof {
            N::lemma_natural();
        }
        let waiting = self.map.get(&n).unwrap();
        let mut k: usize = 0;
        while k < waiting.len()
            invariant
                self.schedule().contains_key(n),
                waiting@ == self.schedule()[n],
                k <= waiting.len(),
                forall|j: int|
                    0 <= j < k ==> n.value() + (#[trigger] waiting@[j]).value() <= N::limit(),
            decreases waiting.len() - k,
        {
            if n.checked_sum(waiting[k]).is_none() {
                return false;
            }
            proof {
                N::lemma_natural();
            }
            k += 1;
        }
        true
    }

    /// Resolves the scheduled value `n`, at which the search stands: takes it
    /// out of queue and schedule, and moves each prime that waited at it on to
    /// its next multiple.
    fn loop_f(&mut self, n: N)
        requires
            old(self).position() == n.value(),
            old(self).wf_before(n.value()),
            old(self).schedule().contains_key(n),
            forall|j: int|
                0 <= j < old(self).schedule()[n].len() ==> n.value() + (
                #[trigger] old(self).schedule()[n][j]).value() <= N::limit(),
        ensures
            final(self).wf_before(n.value() + 1),
            final(self).position() == n.value(),
    {
        let ghost frontier = n.value();
        let ghost before = self.schedule();
        proof {
            N::lemma_natural();
            lemma_keys_from_frontier(self.pending(), before, frontier);
        }
        let x = self.heap.pop();
        proof {
            // the nearest scheduled value is `n` itself
            let least = x.unwrap();
            assert(le(least, n));
        }
        let v = self.map.remove(&n).unwrap();
        proof {
            assert(self.schedule() =~~= before.remove(n));
            lemma_rest_moves_on(before, n, frontier);
            assert forall|j: int| 0 <= j < v@.len() implies !tracks(
                self.schedule(),
                (#[trigger] v@[j]).value(),
            ) by {
                if tracks(self.schedule(), v@[j].value()) {
                    let (c, i): (N, int) = choose|c: N, i: int|
                        self.schedule().contains_key(c) && 0 <= i < self.schedule()[c].len() && (
                        #[trigger] self.schedule()[c][i]).value() == v@[j].value();
                    // the same number twice in the schedule as it was
                    assert(before[c][i].value() == before[n][j].value());
                }
            }
            assert forall|j: int, i: int|
                0 <= j < v@.len() && 0 <= i < v@.len() && (#[trigger] v@[j]).value() == (
                #[trigger] v@[i]).value() implies i == j by {
                assert(before[n][j].value() == before[n][i].value());
            }
            assert(!is_prime(frontier)) by {
                assert(waits_at(before[n][0].value(), frontier, frontier));
            }
            assert forall|q: nat| is_prime(q) && q < frontier + 1 implies #[trigger] accounted(
                self.schedule(),
                v@,
                0,
                q,
            ) by {
                assert(tracks(before, q));
                let (c, j): (N, int) = choose|c: N, j: int|
                    before.contains_key(c) && 0 <= j < before[c].len() && (
                    #[trigger] before[c][j]).value() == q;
                if c == n {
                    assert(v@[j].value() == q);
                } else {
                    assert(self.schedule().contains_key(c) && self.schedule()[c][j].value() == q);
                }
            }
        }
        let mut k: usize = 0;
        while k < v.len()
            invariant
                k <= v.len(),
                self.queue_in_order(),
                in_step(self.pending(), self.schedule()),
                self.position() == frontier,
                entries_sound(self.schedule(), frontier + 1),
                once_each(self.schedule()),
                forall|j: int|
                    k <= j < v@.len() ==> !tracks(self.schedule(), (#[trigger] v@[j]).value()),
                forall|j: int, i: int|
                    0 <= j < v@.len() && 0 <= i < v@.len() && (#[trigger] v@[j]).value() == (
                    #[trigger] v@[i]).value() ==> i == j,
                forall|q: nat|
                    is_prime(q) && q < frontier + 1 ==> #[trigger] accounted(
                        self.schedule(),
                        v@,
                        k as int,
                        q,
                    ),
                forall|j: int|
                    0 <= j < v@.len() ==> waits_at((#[trigger] v@[j]).value(), frontier, frontier),
                forall|j: int|
                    0 <= j < v@.len() ==> frontier + (#[trigger] v@[j]).value() <= N::limit(),
            decreases v.len() - k,
        {
            let p = v[k];
            let ghost earlier = self.schedule();
            self.cross_out_next_multiple(p);
            proof {
                let c = choose|c: N| #[trigger]
                    c.value() == frontier + p.value() && self.schedule() == with_entry(
                        earlier,
                        c,
                        p,
                    );
                lemma_next_multiple(p.value(), frontier);
                lemma_with_entry_sound(earlier, c, p, (frontier + 1) as nat);
                lemma_with_entry_once(earlier, c, p);
                assert forall|j: int| k + 1 <= j < v@.len() implies !tracks(
                    self.schedule(),
                    (#[trigger] v@[j]).value(),
                ) by {
                    lemma_with_entry_tracks(earlier, c, p, v@[j].value());
                }
                assert forall|q: nat| is_prime(q) && q < frontier + 1 implies #[trigger] accounted(
                    self.schedule(),
                    v@,
                    k + 1,
                    q,
                ) by {
                    assert(accounted(earlier, v@, k as int, q));
                    lemma_with_entry_tracks(earlier, c, p, q);
                    if !tracks(earlier, q) {
                        let j = choose|j: int|
                            k <= j < v@.len() && (#[trigger] v@[j]).value() == q;
                        if j > k {
                            assert(still_waiting(v@, k + 1, q));
                        }
                    }
                }
            }
            k += 1;
        }
        proof {
            assert forall|q: nat| is_prime(q) && q < frontier + 1 implies #[trigger] tracks(
                self.schedule(),
                q,
            ) by {
                assert(accounted(self.schedule(), v@, k as int, q));
            }
        }
    }

    /// Produces the next prime: the first one after the last number examined.
    ///
    /// The prime is scheduled at twice its value, so it is produced only where
    /// that fits the number type. Where it does not fit, or where moving an
    /// earlier prime on to its next multiple would not, the call reports it by
    /// `None`; so does every call after it.
    pub fn next(&mut self) -> (r: Option<N>)
        requires
            old(self).wf(),
        ensures
            final(self).wf(),
            r.is_none() <==> old(self).exhausted(),
            match r {
                Some(p) => {
                    &&& is_next_prime(old(self).position(), p.value())
                    &&& final(self).position() == p.value()
                },
                None => {
                    &&& final(self).exhausted()
                    &&& old(self).position() <= final(self).position()
                    &&& forall|m: nat|
                        old(self).position() < m <= final(self).position() ==> !is_prime(m)
                },
            },
    {
        proof {
            N::lemma_natural();
        }
        let mut candidate = match self.i.checked_sum(N::one()) {
            Some(c) => c,
            None => {
                return None;
            },
        };
        loop
            invariant
                self.wf(),
                candidate.value() == self.position() + 1,
                old(self).position() <= self.position(),
                forall|m: nat| old(self).position() < m <= self.position() ==> !is_prime(m),
            ensures
                forall|c: N| self.pending().contains(c) ==> c.value() > candidate.value(),
            decreases N::limit() - self.position(),
        {
            proof {
                N::lemma_natural();
                lemma_keys_from_frontier(self.pending(), self.schedule(), candidate.value());
            }
            let n = match self.heap.peek() {
                Some(next) => *next,
                None => {
                    break ;
                },
            };
            if n > candidate {
                proof {
                    lemma_operators(n, candidate);
                    lemma_le_total(candidate, n);
                    assert forall|c: N| self.pending().contains(c) implies c.value()
                        > candidate.value() by {
                        assert(le(n, c));
                    }
                }
                break ;
            }
            proof {
                // a scheduled value that is due is the candidate itself
                lemma_operators(n, candidate);
                lemma_le_total(candidate, n);
                assert(waits_at(self.schedule()[n][0].value(), n.value(), n.value()));
            }
            if !self.can_cross_out(n) {
                proof {
                    let j = choose|j: int|
                        0 <= j < self.schedule()[n].len() && n.value() + (
                        #[trigger] self.schedule()[n][j]).value() > N::limit();
                    let p = self.schedule()[n][j].value();
                    lemma_proper_multiple(p, n.value());
                }
                return None;
            }
            self.i = n;
            self.loop_f(n);
            candidate =
            match n.checked_sum(N::one()) {
                Some(c) => c,
                None => {
                    return None;
                },
            };
        }
        let result = candidate;
        proof {
            // nothing is scheduled at the candidate, so no prime below divides it
            if !is_prime(result.value()) {
                let q = lemma_prime_divisor(result.value());
                assert(tracks(self.schedule(), q));
                let (c, j): (N, int) = choose|c: N, j: int|
                    self.schedule().contains_key(c) && 0 <= j < self.schedule()[c].len() && (
                    #[trigger] self.schedule()[c][j]).value() == q;
                lemma_multiples_apart(q, result.value(), c.value());
                assert(self.pending().contains(c));
                assert(false);
            }
        }
        if result.checked_sum(result).is_none() {
            return None;
        }
        let ghost earlier = self.schedule();
        proof {
            lemma_keys_from_frontier(self.pending(), earlier, result.value());
            assert forall|c: N| earlier.contains_key(c) implies c.value() != result.value() by {
                assert(self.pending().contains(c));
            }
            lemma_frontier_moves_on(earlier, result.value());
        }
        self.i = result;
        self.cross_out_next_multiple(result);
        proof {
            let c = choose|c: N| #[trigger]
                c.value() == result.value() + result.value() && self.schedule() == with_entry(
                    earlier,
                    c,
                    result,
                );
            vstd::arithmetic::div_mod::lemma_mod_self_0(result.value() as int);
            lemma_next_multiple(result.value(), result.value());
            lemma_with_entry_sound(earlier, c, result, (result.value() + 1) as nat);
            if tracks(earlier, result.value()) {
                let (d, j): (N, int) = choose|d: N, j: int|
                    earlier.contains_key(d) && 0 <= j < earlier[d].len() && (
                    #[trigger] earlier[d][j]).value() == result.value();
            }
            lemma_with_entry_once(earlier, c, result);
            assert forall|q: nat| is_prime(q) && q < result.value() + 1 implies #[trigger] tracks(
                self.schedule(),
                q,
            ) by {
                lemma_with_entry_tracks(earlier, c, result, q);
                if q < result.value() {
                    assert(tracks(earlier, q));
                }
            }
        }
        Some(result)
    }

    /// Produces the next `count` primes, in order. The run is shorter where the
    /// number type runs out first, that is, where `next` reports `None`.
    ///
    /// The run holds every prime among the numbers examined by the call, and
    /// nothing else.
    pub fn take(&mut self, count: usize) -> (run: Vec<N>)
        requires
            old(self).wf(),
        ensures
            final(self).wf(),
            primes_after(old(self).position(), values(run@)),
            forall|m: nat|
                old(self).position() < m <= final(self).position() ==> (is_prime(m)
                    <==> values(run@).contains(m)),
            forall|k: int|
                0 <= k < run@.len() ==> (#[trigger] run@[k]).value() <= final(self).position()
                    && 2 * run@[k].value() <= N::limit(),
            old(self).position() <= final(self).position(),
            run@.len() <= count,
            run@.len() < count ==> final(self).exhausted(),
            run@.len() == count ==> final(self).position() == predecessor(
                old(self).position(),
                values(run@),
                count as int,
            ),
    {
        let mut run: Vec<N> = Vec::new();
        while run.len() < count
            invariant_except_break
                self.position() == predecessor(
                    old(self).position(),
                    values(run@),
                    run@.len() as int,
                ),
            invariant
                self.wf(),
                primes_after(old(self).position(), values(run@)),
                forall|k: int|
                    0 <= k < run@.len() ==> 2 * (#[trigger] run@[k]).value() <= N::limit(),
                run@.len() <= count,
                old(self).position() <= self.position(),
                predecessor(old(self).position(), values(run@), run@.len() as int)
                    <= self.position(),
            ensures
                run@.len() < count ==> self.exhausted(),
                run@.len() == count ==> self.position() == predecessor(
                    old(self).position(),
                    values(run@),
                    count as int,
                ),
                forall|m: nat|
                    predecessor(old(self).position(), values(run@), run@.len() as int) < m
                        <= self.position() ==> !is_prime(m),
            decreases count - run.len(),
        {
            let ghost so_far = values(run@);
            match self.next() {
                Some(p) => {
                    run.push(p);
                    proof {
                        let grown = values(run@);
                        assert forall|k: int| 0 <= k < grown.len() implies #[trigger] follows_on(
                            old(self).position(),
                            grown,
                            k,
                        ) by {
                            if k < so_far.len() {
                                assert(follows_on(old(self).position(), so_far, k));
                            }
                        }
                    }
                },
                None => {
                    break ;
                },
            }
        }
        proof {
            let start = old(self).position();
            let listed = values(run@);
            let end = predecessor(start, listed, listed.len() as int);
            assert forall|k: int| 0 <= k < run@.len() implies (#[trigger] run@[k]).value()
                <= end by {
                if k < listed.len() - 1 {
                    lemma_run_ascends(start, listed, k, listed.len() - 1);
                }
            }
            assert forall|m: nat| start < m <= self.position() implies (is_prime(m)
                <==> listed.contains(m)) by {
                if listed.len() > 0 && m <= end {
                    lemma_run_complete(start, listed, m);
                } else if listed.contains(m) {
                    let k = choose|k: int| 0 <= k < listed.len() && listed[k] == m;
                }
            }
        }
        run
    }
}

/// The number `q` is among the items of `rest` from place `from` on.
spec fn still_waiting<N: Natural>(rest: Seq<N>, from: int, q: nat) -> bool {
    exists|j: int| from <= j < rest.len() && (#[trigger] rest[j]).value() == q
}

/// The number `q` is in the schedule, or among the items of `rest` that are
/// still to be moved there.
spec fn accounted<N: Natural>(schedule: Map<N, Seq<N>>, rest: Seq<N>, from: int, q: nat) -> bool {
    tracks(schedule, q) || still_waiting(rest, from, q)
}

/// No scheduled value lies below the frontier, and what waits in the queue is
/// scheduled.
proof fn lemma_keys_from_frontier<N: Natural>(
    pending: Multiset<N>,
    schedule: Map<N, Seq<N>>,
    frontier: nat,
)
    requires
        in_step(pending, schedule),
        entries_sound(schedule, frontier),
    ensures
        forall|c: N| #[trigger] schedule.contains_key(c) ==> c.value() >= frontier,
        forall|c: N| #[trigger] pending.contains(c) ==> schedule.contains_key(c),
{
    assert forall|c: N| #[trigger] schedule.contains_key(c) implies c.value() >= frontier by {
        assert(waits_at(schedule[c][0].value(), c.value(), frontier));
    }
    assert forall|c: N| #[trigger] pending.contains(c) implies schedule.contains_key(c) by {
        assert(pending.count(c) > 0);
    }
}

/// Where nothing is scheduled at the frontier itself, the schedule serves a
/// search that stands one number further on.
proof fn lemma_frontier_moves_on<N: Natural>(schedule: Map<N, Seq<N>>, frontier: nat)
    requires
        entries_sound(schedule, frontier),
        forall|c: N| schedule.contains_key(c) ==> c.value() != frontier,
    ensures
        entries_sound(schedule, frontier + 1),
{
    assert forall|c: N, j: int|
        schedule.contains_key(c) && 0 <= j < schedule[c].len() implies waits_at(
        (#[trigger] schedule[c][j]).value(),
        c.value(),
        frontier + 1,
    ) by {
        assert(waits_at(schedule[c][j].value(), c.value(), frontier));
    }
}

/// Once the value at the frontier is taken out, the rest of the schedule
/// serves a search that stands one number further on.
proof fn lemma_rest_moves_on<N: Natural>(schedule: Map<N, Seq<N>>, n: N, frontier: nat)
    requires
        entries_sound(schedule, frontier),
        n.value() == frontier,
        forall|a: N, b: N| a.value() == b.value() ==> a == b,
    ensures
        entries_sound(schedule.remove(n), frontier + 1),
        once_each(schedule) ==> once_each(schedule.remove(n)),
{
    let rest = schedule.remove(n);
    if once_each(schedule) {
        assert forall|c: N, j: int, d: N, k: int|
            rest.contains_key(c) && 0 <= j < rest[c].len() && rest.contains_key(d) && 0 <= k
                < rest[d].len() && (#[trigger] rest[c][j]).value() == (
            #[trigger] rest[d][k]).value() implies c == d && j == k by {
            assert(schedule[c][j].value() == schedule[d][k].value());
        }
    }
    assert forall|c: N, j: int|
        rest.contains_key(c) && 0 <= j < rest[c].len() implies waits_at(
        (#[trigger] rest[c][j]).value(),
        c.value(),
        frontier + 1,
    ) by {
        assert(waits_at(schedule[c][j].value(), c.value(), frontier));
    }
}

} // verus!
