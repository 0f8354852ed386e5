use crate::order::{
    le, lemma_le_reflexive, lemma_le_total, lemma_le_transitive, lemma_order_facts, lt, same_rank,
    strictly_ordered, totally_ordered,
};
use std::cmp::Ordering;
use vstd::multiset::Multiset;
use vstd::prelude::*;
use vstd::std_specs::cmp::{
    OrdSpec, PartialEqSpec, PartialEqSpecImpl, PartialOrdSpec, PartialOrdSpecImpl,
};

verus! {

/// A value whose comparisons run backwards: `RevOrd(a)` is ordered before
/// `RevOrd(b)` exactly when `b` is ordered before `a`. Equality is untouched.
#[derive(Debug)]
pub struct RevOrd<T: Ord>(pub T);

impl<T: Ord> RevOrd<T> {
    /// Compares the wrapped values the other way round.
    pub fn cmp(&self, other: &RevOrd<T>) -> (r: Ordering)
        ensures
            T::obeys_cmp_spec() ==> r == other.0.cmp_spec(&self.0),
    {
        other.0.cmp(&self.0)
    }

    /// Gives the wrapped value back.
    pub fn unwrap(self) -> (item: T)
        ensures
            item == self.0,
    {
        let RevOrd(item) = self;
        item
    }

    /// Whether `self` ranks strictly above `other` in the reversed order, that
    /// is, whether the value it wraps is strictly the smaller one.
    fn outranks(&self, other: &RevOrd<T>) -> (r: bool)
        requires
            totally_ordered::<T>(),
        ensures
            r == lt(self.0, other.0),
    {
        proof {
            lemma_order_facts::<T>();
        }
        match self.cmp(other) {
            Ordering::Greater => true,
            _ => false,
        }
    }
}

impl<T: Ord> PartialEq for RevOrd<T> {
    fn eq(&self, other: &RevOrd<T>) -> (r: bool) {
        self.0 == other.0
    }
}

impl<T: Ord> PartialEqSpecImpl for RevOrd<T> {
    open spec fn obeys_eq_spec() -> bool {
        T::obeys_eq_spec()
    }

    open spec fn eq_spec(&self, other: &RevOrd<T>) -> bool {
        self.0.eq_spec(&other.0)
    }
}

impl<T: Ord> Eq for RevOrd<T> {}

impl<T: Ord> PartialOrd for RevOrd<T> {
    fn partial_cmp(&self, other: &RevOrd<T>) -> (r: Option<Ordering>) {
        Some(other.0.cmp(&self.0))
    }
}

impl<T: Ord> PartialOrdSpecImpl for RevOrd<T> {
    open spec fn obeys_partial_cmp_spec() -> bool {
        T::obeys_cmp_spec()
    }

    open spec fn partial_cmp_spec(&self, other: &RevOrd<T>) -> Option<Ordering> {
        Some(other.0.cmp_spec(&self.0))
    }
}

/// The values that a sequence of wrappers holds, place by place.
spec fn unwrapped<T: Ord>(s: Seq<RevOrd<T>>) -> Seq<T> {
    s.map_values(|r: RevOrd<T>| r.0)
}

/// `x` occurs in `m`, and nothing in `m` is ordered strictly before it.
pub open spec fn is_least<T: Ord>(x: T, m: Multiset<T>) -> bool {
    &&& m.contains(x)
    &&& forall|y: T| m.contains(y) ==> le(x, y)
}

/// The place above place `i` in the implicit tree.
spec fn up(i: int) -> int {
    (i - 1) / 2
}

/// Every item but the first is preceded by the one above it.
spec fn heap_ordered<T: Ord>(s: Seq<T>) -> bool {
    forall|i: int| 1 <= i < s.len() ==> le(s[up(i)], #[trigger] s[i])
}

/// The heap order holds everywhere but between `hole` and the place above it;
/// what lies directly below `hole` is already preceded by what lies above it.
spec fn ordered_but_above<T: Ord>(s: Seq<T>, hole: int) -> bool {
    &&& forall|i: int| 1 <= i < s.len() && i != hole ==> le(s[up(i)], #[trigger] s[i])
    &&& forall|i: int|
        1 <= i < s.len() && up(i) == hole && hole >= 1 ==> le(s[up(hole)], #[trigger] s[i])
}

/// The heap order holds everywhere but between `hole` and the places directly
/// below it, which are already preceded by what lies above `hole`.
spec fn ordered_but_below<T: Ord>(s: Seq<T>, hole: int) -> bool {
    &&& forall|i: int| 1 <= i < s.len() && up(i) != hole ==> le(s[up(i)], #[trigger] s[i])
    &&& forall|i: int|
        1 <= i < s.len() && up(i) == hole && hole >= 1 ==> le(s[up(hole)], #[trigger] s[i])
}

/// `s` with the items at `i` and `j` exchanged.
spec fn exchanged<A>(s: Seq<A>, i: int, j: int) -> Seq<A> {
    s.update(i, s[j]).update(j, s[i])
}

proof fn lemma_update_items<A>(s: Seq<A>, i: int, a: A)
    requires
        0 <= i < s.len(),
    ensures
        s.update(i, a).to_multiset() == s.to_multiset().remove(s[i]).insert(a),
{
    vstd::seq_lib::to_multiset_remove(s, i);
    vstd::seq_lib::to_multiset_insert(s.remove(i), i, a);
    assert(s.remove(i).insert(i, a) =~= s.update(i, a));
}

proof fn lemma_exchange_keeps_items<A>(s: Seq<A>, i: int, j: int)
    requires
        0 <= i < s.len(),
        0 <= j < s.len(),
    ensures
        exchanged(s, i, j).to_multiset() == s.to_multiset(),
{
    let t = s.update(i, s[j]);
    lemma_update_items(s, i, s[j]);
    lemma_update_items(t, j, s[i]);
    vstd::seq_lib::to_multiset_contains(s, s[i]);
    if i != j {
        assert(s.to_multiset().remove(s[i]).insert(s[j]).remove(s[j]).insert(s[i])
            =~= s.to_multiset());
    }
}

proof fn lemma_no_items<A>(s: Seq<A>)
    requires
        s.len() == 0,
    ensures
        s.to_multiset() == Multiset::<A>::empty(),
{
    vstd::seq_lib::to_multiset_len(s);
}

/// In a heap-ordered sequence the first item precedes every other.
proof fn lemma_first_is_least<T: Ord>(s: Seq<T>, i: int)
    requires
        totally_ordered::<T>(),
        heap_ordered(s),
        0 <= i < s.len(),
    ensures
        le(s[0], s[i]),
    decreases i,
{
    if i == 0 {
        lemma_le_reflexive(s[0]);
    } else {
        lemma_first_is_least(s, up(i));
        lemma_le_transitive(s[0], s[up(i)], s[i]);
    }
}

/// Exchanges two entries of a vector.
fn swap_entries<E>(v: &mut Vec<E>, i: usize, j: usize)
    requires
        i < j < old(v)@.len(),
    ensures
        final(v)@ == exchanged(old(v)@, i as int, j as int),
{
    let (head, tail) = v.split_at_mut(j);
    core::mem::swap(&mut head[i], &mut tail[0]);
}

/// Moves the entry at `start` towards the front until the one above it
/// precedes it.
fn sift_up<T: Ord>(data: &mut Vec<RevOrd<T>>, start: usize)
    requires
        totally_ordered::<T>(),
        start < old(data)@.len(),
        ordered_but_above(unwrapped(old(data)@), start as int),
    ensures
        heap_ordered(unwrapped(final(data)@)),
        unwrapped(final(data)@).to_multiset() == unwrapped(old(data)@).to_multiset(),
{
    let mut pos = start;
    while pos > 0
        invariant
            totally_ordered::<T>(),
            pos < data@.len(),
            ordered_but_above(unwrapped(data@), pos as int),
            unwrapped(data@).to_multiset() == unwrapped(old(data)@).to_multiset(),
        ensures
            heap_ordered(unwrapped(data@)),
            unwrapped(data@).to_multiset() == unwrapped(old(data)@).to_multiset(),
        decreases pos,
    {
        let above = (pos - 1) / 2;
        let ghost before = unwrapped(data@);
        if !data[pos].outranks(&data[above]) {
            proof {
                lemma_le_total(before[pos as int], before[above as int]);
            }
            break ;
        }
        swap_entries(data, above, pos);
        proof {
            let after = unwrapped(data@);
            assert(after =~= exchanged(before, above as int, pos as int));
            lemma_exchange_keeps_items(before, above as int, pos as int);
            assert forall|i: int| 1 <= i < after.len() && i != above implies le(
                after[up(i)],
                #[trigger] after[i],
            ) by {
                if i != pos && up(i) == above {
                    // the entry beside `pos`
                    lemma_le_transitive(before[pos as int], before[above as int], before[i]);
                }
            }
            assert forall|i: int|
                1 <= i < after.len() && up(i) == above && above >= 1 implies le(
                after[up(above as int)],
                #[trigger] after[i],
            ) by {
                if i != pos {
                    lemma_le_transitive(
                        before[up(above as int)],
                        before[above as int],
                        before[i],
                    );
                }
            }
        }
        pos = above;
    }
}

/// Moves the entry at `start` away from the front until it precedes both
/// entries directly below it.
fn sift_down<T: Ord>(data: &mut Vec<RevOrd<T>>, start: usize)
    requires
        totally_ordered::<T>(),
        start < old(data)@.len(),
        ordered_but_below(unwrapped(old(data)@), start as int),
    ensures
        heap_ordered(unwrapped(final(data)@)),
        unwrapped(final(data)@).to_multiset() == unwrapped(old(data)@).to_multiset(),
{
    let len = data.len();
    let mut pos = start;
    while pos < len / 2
        invariant
            totally_ordered::<T>(),
            len == data@.len(),
            pos < len,
            ordered_but_below(unwrapped(data@), pos as int),
            unwrapped(data@).to_multiset() == unwrapped(old(data)@).to_multiset(),
        ensures
            heap_ordered(unwrapped(data@)),
            unwrapped(data@).to_multiset() == unwrapped(old(data)@).to_multiset(),
        decreases len - pos,
    {
        let ghost before = unwrapped(data@);
        let left = 2 * pos + 1;
        let mut below = left;
        if left + 1 < len && data[left + 1].outranks(&data[left]) {
            below = left + 1;
        }
        proof {
            // `below` holds the lesser of the entries under `pos`
            assert forall|i: int| 1 <= i < before.len() && up(i) == pos implies le(
                before[below as int],
                #[trigger] before[i],
            ) by {
                lemma_le_reflexive(before[i]);
                if left + 1 < len {
                    lemma_le_total(before[left + 1], before[left as int]);
                }
            }
        }
        if !data[below].outranks(&data[pos]) {
            proof {
                lemma_le_total(before[below as int], before[pos as int]);
                assert forall|i: int| 1 <= i < before.len() implies le(
                    before[up(i)],
                    #[trigger] before[i],
                ) by {
                    if up(i) == pos {
                        lemma_le_transitive(before[pos as int], before[below as int], before[i]);
                    }
                }
            }
            break ;
        }
        swap_entries(data, pos, below);
        proof {
            let after = unwrapped(data@);
            assert(after =~= exchanged(before, pos as int, below as int));
            lemma_exchange_keeps_items(before, pos as int, below as int);
        }
        pos = below;
    }
}

/// `Vec::capacity`: the number of entries that the vector can hold without
/// allocating again. The allocator decides the exact number; it is never less
/// than the length.
#[verifier::external_body]
fn room_of<E>(entries: &Vec<E>) -> (capacity: usize)
    ensures
        capacity >= entries@.len(),
{
    entries.capacity()
}

/// `Vec::reserve_exact`: makes room for `additional` more entries and leaves
/// the contents alone. It panics when the room asked for cannot be counted in
/// `usize` or takes more than `isize::MAX` bytes, so both are required not to
/// happen.
#[verifier::external_body]
fn make_room_exactly<E>(entries: &mut Vec<E>, additional: usize)
    requires
        old(entries)@.len() + additional <= usize::MAX,
        (old(entries)@.len() + additional) * vstd::layout::size_of::<E>() <= isize::MAX,
    ensures
        final(entries)@ == old(entries)@,
{
    entries.reserve_exact(additional)
}

/// `Vec::shrink_to_fit`: gives spare room back and leaves the contents alone.
#[verifier::external_body]
fn give_room_back<E>(entries: &mut Vec<E>)
    ensures
        final(entries)@ == old(entries)@,
{
    entries.shrink_to_fit()
}

/// A priority queue that hands out its smallest item first.
///
/// The items are kept wrapped in [`RevOrd`], in a vector laid out as an
/// implicit binary tree in which every entry ranks, in the reversed order, at
/// least as high as the entries below it. Seen from outside, the queue is the
/// multiset of its items.
#[derive(Debug)]
pub struct MinHeap<T: Ord>(Vec<RevOrd<T>>);

impl<T: Ord> View for MinHeap<T> {
    type V = Multiset<T>;

    closed spec fn view(&self) -> Multiset<T> {
        unwrapped(self.0@).to_multiset()
    }
}

impl<T: Ord> MinHeap<T> {
    /// The entries are in heap order.
    pub closed spec fn wf(&self) -> bool {
        heap_ordered(unwrapped(self.0@))
    }

    /// The item at the front of the queue: the one that `peek` shows and that
    /// `pop` removes. `None` when the queue is empty.
    pub closed spec fn front(&self) -> Option<T> {
        if self.0@.len() == 0 {
            None
        } else {
            Some(self.0@[0].0)
        }
    }

    /// `shown` is what `peek` shows: the front item, or nothing where there is
    /// none.
    pub open spec fn shows(&self, shown: Option<&T>) -> bool {
        match shown {
            Some(x) => self.front() == Some(*x),
            None => self.front().is_none(),
        }
    }

    /// The front item is a least item of the queue, and there is none exactly
    /// when the queue is empty.
    pub proof fn lemma_front_is_least(&self)
        requires
            self.wf(),
            totally_ordered::<T>(),
        ensures
            match self.front() {
                Some(x) => is_least(x, self@),
                None => self@ == Multiset::<T>::empty(),
            },
            self.front().is_none() <==> self@.len() == 0,
    {
        let items = unwrapped(self.0@);
        vstd::seq_lib::to_multiset_len(items);
        if items.len() > 0 {
            let x = items[0];
            vstd::seq_lib::to_multiset_contains(items, x);
            assert forall|y: T| self@.contains(y) implies le(x, y) by {
                vstd::seq_lib::to_multiset_contains(items, y);
                let i = choose|i: int| 0 <= i < items.len() && items[i] == y;
                lemma_first_is_least(items, i);
            }
        }
    }

    /// An empty queue.
    pub fn new() -> (heap: MinHeap<T>)
        ensures
            heap.wf(),
            heap@ == Multiset::<T>::empty(),
    {
        let heap = MinHeap(Vec::new());
        proof {
            lemma_no_items(unwrapped(heap.0@));
        }
        heap
    }

    /// An empty queue with room set aside for `capacity` items.
    pub fn with_capacity(capacity: usize) -> (heap: MinHeap<T>)
        ensures
            heap.wf(),
            heap@ == Multiset::<T>::empty(),
    {
        let heap = MinHeap(Vec::with_capacity(capacity));
        proof {
            lemma_no_items(unwrapped(heap.0@));
        }
        heap
    }

    /// Shows the smallest item without removing it.
    pub fn peek(&self) -> (r: Option<&T>)
        requires
            self.wf(),
            totally_ordered::<T>(),
        ensures
            self.shows(r),
            match r {
                Some(x) => is_least(*x, self@),
                None => self@.len() == 0,
            },
    {
        proof {
            self.lemma_front_is_least();
        }
        if self.0.len() == 0 {
            None
        } else {
            Some(&self.0[0].0)
        }
    }

    /// The number of items that the queue can hold without allocating again.
    pub fn capacity(&self) -> (capacity: usize)
        ensures
            capacity >= self@.len(),
    {
        proof {
            vstd::seq_lib::to_multiset_len(unwrapped(self.0@));
        }
        room_of(&self.0)
    }

    /// Makes room for exactly `additional` more items. The contents stay.
    pub fn reserve_exact(&mut self, additional: usize)
        requires
            old(self)@.len() + additional <= usize::MAX,
            (old(self)@.len() + additional) * vstd::layout::size_of::<RevOrd<T>>() <= isize::MAX,
        ensures
            final(self).wf() == old(self).wf(),
            final(self).front() == old(self).front(),
            final(self)@ == old(self)@,
    {
        proof {
            vstd::seq_lib::to_multiset_len(unwrapped(self.0@));
        }
        make_room_exactly(&mut self.0, additional)
    }

    /// Makes room for at least `additional` more items. The contents stay.
    pub fn reserve(&mut self, additional: usize)
        ensures
            final(self).wf() == old(self).wf(),
            final(self).front() == old(self).front(),
            final(self)@ == old(self)@,
    {
        self.0.reserve(additional)
    }

    /// Gives spare room back. The contents stay.
    pub fn shrink_to_fit(&mut self)
        ensures
            final(self).wf() == old(self).wf(),
            final(self).front() == old(self).front(),
            final(self)@ == old(self)@,
    {
        give_room_back(&mut self.0)
    }

    /// Removes the smallest item and returns it.
    pub fn pop(&mut self) -> (r: Option<T>)
        requires
            old(self).wf(),
            totally_ordered::<T>(),
        ensures
            final(self).wf(),
            r == old(self).front(),
            match r {
                Some(x) => is_least(x, old(self)@) && final(self)@ == old(self)@.remove(x),
                None => old(self)@.len() == 0 && final(self)@ == old(self)@,
            },
    {
        let ghost before = unwrapped(self.0@);
        proof {
            old(self).lemma_front_is_least();
        }
        match self.0.pop() {
            Some(mut entry) => {
                let ghost rest = unwrapped(self.0@);
                proof {
                    assert(rest =~= before.remove(before.len() - 1));
                    vstd::seq_lib::to_multiset_remove(before, before.len() - 1);
                }
                if self.0.len() > 0 {
                    core::mem::swap(&mut entry, &mut self.0[0]);
                    proof {
                        let moved = unwrapped(self.0@);
                        assert(moved =~= rest.update(0, before.last()));
                        lemma_update_items(rest, 0, before.last());
                        vstd::seq_lib::to_multiset_contains(rest, rest[0]);
                        vstd::seq_lib::to_multiset_contains(before, before.last());
                        assert(ordered_but_below(moved, 0));
                    }
                    sift_down(&mut self.0, 0);
                } else {
                    proof {
                        vstd::seq_lib::to_multiset_len(before);
                        vstd::multiset::lemma_multiset_empty_len(
                            before.to_multiset().remove(before[0]),
                        );
                    }
                }
                Some(entry.unwrap())
            },
            None => None,
        }
    }

    /// Adds `item` to the queue.
    pub fn push(&mut self, item: T)
        requires
            old(self).wf(),
            totally_ordered::<T>(),
        ensures
            final(self).wf(),
            final(self)@ == old(self)@.insert(item),
    {
        let ghost before = unwrapped(self.0@);
        self.0.push(RevOrd(item));
        proof {
            let grown = unwrapped(self.0@);
            assert(grown =~= before.push(item));
            vstd::seq_lib::to_multiset_build(before, item);
            assert(ordered_but_above(grown, before.len() as int));
        }
        let last = self.0.len() - 1;
        sift_up(&mut self.0, last);
    }

    /// The number of items in the queue.
    pub fn len(&self) -> (n: usize)
        ensures
            n == self@.len(),
    {
        proof {
            vstd::seq_lib::to_multiset_len(unwrapped(self.0@));
        }
        self.0.len()
    }

    /// Whether the queue holds no item.
    pub fn is_empty(&self) -> (r: bool)
        ensures
            r <==> self@.len() == 0,
    {
        proof {
            vstd::seq_lib::to_multiset_len(unwrapped(self.0@));
        }
        self.0.is_empty()
    }

    /// Removes every item.
    pub fn clear(&mut self)
        ensures
            final(self).wf(),
            final(self)@ == Multiset::<T>::empty(),
    {
        self.0.clear();
        proof {
            lemma_no_items(unwrapped(self.0@));
        }
    }

    /// Moves every item of `other` into `self`, leaving `other` empty.
    pub fn append(&mut self, other: &mut MinHeap<T>)
        requires
            old(self).wf(),
            totally_ordered::<T>(),
        ensures
            final(self).wf(),
            final(other).wf(),
            final(self)@ == old(self)@.add(old(other)@),
            final(self)@.len() == old(self)@.len() + old(other)@.len(),
            final(other)@ == Multiset::<T>::empty(),
    {
        loop
            invariant
                self.wf(),
                totally_ordered::<T>(),
                self@.add(other@) == old(self)@.add(old(other)@),
            ensures
                self.wf(),
                other.wf(),
                self@ == old(self)@.add(old(other)@),
                other@ == Multiset::<T>::empty(),
            decreases other.0@.len(),
        {
            let ghost left = unwrapped(other.0@);
            match other.0.pop() {
                Some(entry) => {
                    proof {
                        assert(unwrapped(other.0@) =~= left.remove(left.len() - 1));
                        vstd::seq_lib::to_multiset_remove(left, left.len() - 1);
                        vstd::seq_lib::to_multiset_contains(left, left.last());
                    }
                    self.push(entry.unwrap());
                },
                None => {
                    proof {
                        lemma_no_items(left);
                    }
                    break ;
                },
            }
        }
    }
}

/// `out` can be what successive calls of `pop` return, in that order, on a
/// queue that holds `m`: each item is a least item of what the calls before it
/// have left.
pub open spec fn pops_from<T: Ord>(m: Multiset<T>, out: Seq<T>) -> bool
    decreases out.len(),
{
    out.len() == 0 || (is_least(out[0], m) && pops_from(m.remove(out[0]), out.drop_first()))
}

/// What `pop` returns was in the queue: the items popped are among those
/// held, each as often as it was popped at most, and make up all of them once
/// as many were popped as the queue held.
pub proof fn lemma_pops_are_items<T: Ord>(m: Multiset<T>, out: Seq<T>)
    requires
        pops_from(m, out),
    ensures
        out.to_multiset().subset_of(m),
        out.len() == m.len() ==> out.to_multiset() == m,
    decreases out.len(),
{
    if out.len() == 0 {
        lemma_no_items(out);
    } else {
        let x = out[0];
        let rest = out.drop_first();
        lemma_pops_are_items(m.remove(x), rest);
        assert(out =~= rest.insert(0, x));
        vstd::seq_lib::to_multiset_insert(rest, 0, x);
    }
}

/// Successive calls of `pop` return the items in ascending order: none is
/// ordered strictly before one that came out earlier.
pub proof fn lemma_pops_ascend<T: Ord>(m: Multiset<T>, out: Seq<T>, i: int, j: int)
    requires
        totally_ordered::<T>(),
        pops_from(m, out),
        0 <= i <= j < out.len(),
    ensures
        le(out[i], out[j]),
    decreases i,
{
    if i == 0 {
        lemma_pops_are_items(m, out);
        vstd::seq_lib::to_multiset_contains(out, out[j]);
    } else {
        lemma_pops_ascend(m.remove(out[0]), out.drop_first(), i - 1, j - 1);
    }
}

/// Two queues that hold the same items return the same items, in the same
/// order, from as many calls of `pop`, whatever room either was made with;
/// this holds where the order tells any two different values apart.
pub proof fn lemma_pops_agree<T: Ord>(m: Multiset<T>, one: Seq<T>, other: Seq<T>)
    requires
        totally_ordered::<T>(),
        strictly_ordered::<T>(),
        pops_from(m, one),
        pops_from(m, other),
        one.len() == other.len(),
    ensures
        one == other,
    decreases one.len(),
{
    if one.len() > 0 {
        lemma_le_total(one[0], other[0]);
        lemma_pops_agree(m.remove(one[0]), one.drop_first(), other.drop_first());
        assert(one =~= one.drop_first().insert(0, one[0]));
        assert(other =~= other.drop_first().insert(0, other[0]));
    }
}

/// After a `push` of an item that nothing in the queue is ordered strictly
/// before, `peek` shows an item of that item's rank.
pub proof fn lemma_push_then_peek<T: Ord>(before: Multiset<T>, item: T, shown: T)
    requires
        totally_ordered::<T>(),
        forall|y: T| before.contains(y) ==> le(item, y),
        is_least(shown, before.insert(item)),
    ensures
        same_rank(shown, item),
{
    lemma_le_total(shown, item);
}

/// Whatever `peek` shows, it shows again for as long as the queue is left
/// alone: two results of `peek` on one queue are the same.
pub proof fn lemma_peek_repeats<T: Ord>(heap: MinHeap<T>, first: Option<&T>, second: Option<&T>)
    requires
        heap.shows(first),
        heap.shows(second),
    ensures
        first == second,
{
}

} // verus!
