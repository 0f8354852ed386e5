//! Primes on demand.
//!
//! [`primestwo::Sieve`] is an incremental sieve of Eratosthenes: it produces
//! the primes one at a time, in ascending order and without a bound fixed in
//! advance. It schedules, for every prime found so far, the next multiple of
//! that prime, and keeps the scheduled values in a [`min_heap::MinHeap`], a
//! priority queue that hands out its smallest item first.
//!
//! Every function is verified against its contract. The contracts speak of
//! [`primes::is_prime`] for the sieve, of a multiset of items and the order of
//! [`order`] for the queue, and of [`num_util::is_gcd`] for [`num_util::gcd`].

pub mod min_heap;
pub mod natural;
pub mod num_util;
pub mod order;
pub mod primes;
pub mod primestwo;
