//! A growable buffer with an explicit, doubling capacity.

use crate::text::{bracketed, joined, texts_of};
use std::collections::VecDeque;
use vstd::prelude::*;

verus! {

/// Whether `n` is a power of two.
pub open spec fn is_power_of_two(n: nat) -> bool
    decreases n,
{
    n == 1 || (n > 1 && n % 2 == 0 && is_power_of_two(n / 2))
}

/// The capacity that one growth step gives a buffer of capacity `cap`:
/// one slot for a buffer that has none, twice as many otherwise.
pub open spec fn grown(cap: nat) -> nat {
    if cap == 0 {
        1
    } else {
        2 * cap
    }
}

/// The capacity after a push onto a buffer that holds `len` elements in
/// `cap` slots: the buffer grows exactly when it is full.
pub open spec fn capacity_after_push(cap: nat, len: nat) -> nat {
    if len == cap {
        grown(cap)
    } else {
        cap
    }
}

/// The capacity of a buffer that started empty and was pushed to `k` times.
pub open spec fn capacity_after(k: nat) -> nat
    decreases k,
{
    if k == 0 {
        0
    } else {
        capacity_after_push(capacity_after((k - 1) as nat), (k - 1) as nat)
    }
}

/// What a buffer holds after the elements of `items` were pushed, in order,
/// onto one that held `base`.
pub open spec fn after_pushes<T>(base: Seq<T>, items: Seq<T>) -> Seq<T>
    decreases items.len(),
{
    if items.len() == 0 {
        base
    } else {
        after_pushes(base, items.drop_last()).push(items.last())
    }
}

/// The elements that `count` pops hand out, in the order in which they come,
/// from a buffer that holds `held`. Pops on an empty buffer hand out nothing.
pub open spec fn popped<T>(held: Seq<T>, count: nat) -> Seq<T>
    decreases count,
{
    if count == 0 || held.len() == 0 {
        Seq::empty()
    } else {
        seq![held.last()] + popped(held.drop_last(), (count - 1) as nat)
    }
}

/// What a buffer that holds `held` still holds after `count` pops.
pub open spec fn after_pops<T>(held: Seq<T>, count: nat) -> Seq<T>
    decreases count,
{
    if count == 0 || held.len() == 0 {
        held
    } else {
        after_pops(held.drop_last(), (count - 1) as nat)
    }
}

/// Pushing a run of elements puts them behind what was there.
pub proof fn lemma_after_pushes<T>(base: Seq<T>, items: Seq<T>)
    ensures
        after_pushes(base, items) == base + items,
    decreases items.len(),
{
    if items.len() == 0 {
        assert(base + items =~= base);
    } else {
        lemma_after_pushes(base, items.drop_last());
        assert((base + items.drop_last()).push(items.last()) =~= base + items);
    }
}

/// Last in, first out: after a run of pushes, as many pops hand the pushed
/// elements back in reverse order and leave the buffer as it was before.
pub proof fn lemma_pops_reverse_pushes<T>(base: Seq<T>, items: Seq<T>)
    ensures
        popped(after_pushes(base, items), items.len()) == items.reverse(),
        after_pops(after_pushes(base, items), items.len()) == base,
    decreases items.len(),
{
    lemma_after_pushes(base, items);
    if items.len() == 0 {
        assert(items.reverse() =~= Seq::<T>::empty());
    } else {
        let shorter = items.drop_last();
        lemma_pops_reverse_pushes(base, shorter);
        lemma_after_pushes(base, shorter);
        assert((base + items).drop_last() =~= base + shorter);
        assert((base + items).last() == items.last());
        assert(seq![items.last()] + shorter.reverse() =~= items.reverse());
    }
}

/// A pop on an empty buffer hands out nothing and changes nothing.
pub proof fn lemma_pop_on_empty<T>(count: nat)
    ensures
        popped(Seq::<T>::empty(), count) == Seq::<T>::empty(),
        after_pops(Seq::<T>::empty(), count) == Seq::<T>::empty(),
{
}

/// Doubling a power of two gives a power of two.
pub proof fn lemma_double_power_of_two(n: nat)
    requires
        is_power_of_two(n),
    ensures
        is_power_of_two(2 * n),
{
    assert((2 * n) / 2 == n);
}

/// No power of two lies strictly between a power of two and its double.
pub proof fn lemma_no_power_between(low: nat, p: nat)
    requires
        is_power_of_two(low),
        is_power_of_two(p),
        low < p,
    ensures
        2 * low <= p,
    decreases low,
{
    if low > 1 {
        assert(p > 1);
        lemma_no_power_between(low / 2, p / 2);
    }
}

/// A buffer that started empty and was pushed to `k` times has no slot if
/// `k` is zero, and otherwise as many slots as the smallest power of two
/// that is at least `k`.
pub proof fn lemma_capacity_after(k: nat)
    ensures
        k == 0 ==> capacity_after(k) == 0,
        k > 0 ==> is_power_of_two(capacity_after(k)),
        k > 0 ==> capacity_after(k) >= k,
        forall|p: nat| k > 0 && is_power_of_two(p) && p >= k ==> capacity_after(k) <= p,
    decreases k,
{
    if k > 1 {
        let before = capacity_after((k - 1) as nat);
        lemma_capacity_after((k - 1) as nat);
        if (k - 1) as nat == before {
            lemma_double_power_of_two(before);
            assert forall|p: nat| is_power_of_two(p) && p >= k implies 2 * before <= p by {
                lemma_no_power_between(before, p);
            }
        }
    } else if k == 1 {
        assert(capacity_after(0) == 0);
        assert(capacity_after(1) == 1);
        assert forall|p: nat| is_power_of_two(p) && p >= 1 implies 1 <= p by {}
    }
}

/// A contiguous growable buffer. Its elements are `self@`; its capacity
/// starts at zero, becomes one at the first push and doubles whenever a push
/// finds the buffer full.
pub struct List<T> {
    items: Vec<T>,
    cap: usize,
}

impl<T> View for List<T> {
    type V = Seq<T>;

    closed spec fn view(&self) -> Seq<T> {
        self.items@
    }
}

impl<T> List<T> {
    /// The buffer's invariant: the elements fit in the allocated slots, and
    /// the number of slots is zero or a power of two.
    pub closed spec fn well_formed(&self) -> bool {
        &&& self.items@.len() <= self.cap
        &&& (self.cap == 0 || is_power_of_two(self.cap as nat))
    }

    /// The number of slots the buffer has allocated.
    pub closed spec fn spec_capacity(&self) -> usize {
        self.cap
    }

    /// The number of elements the buffer holds.
    pub open spec fn spec_len(&self) -> usize {
        self@.len() as usize
    }

    /// The number of elements fits the machine's word.
    pub proof fn lemma_len_fits(&self)
        ensures
            self@.len() <= usize::MAX,
    {
        vstd::std_specs::vec::axiom_spec_len(&self.items);
    }

    /// An empty buffer without any allocation.
    pub fn new() -> (list: Self)
        requires
            vstd::layout::size_of::<T>() != 0,
        ensures
            list.well_formed(),
            list@ == Seq::<T>::empty(),
            list.capacity() == 0,
    {
        List { items: Vec::new(), cap: 0 }
    }

    /// The number of elements held.
    #[verifier::when_used_as_spec(spec_len)]
    pub fn len(&self) -> (n: usize)
        ensures
            n == self.len(),
            n == self@.len(),
    {
        self.items.len()
    }

    /// The number of slots allocated: zero, or a power of two that is at
    /// least the length.
    #[verifier::when_used_as_spec(spec_capacity)]
    pub fn capacity(&self) -> (cap: usize)
        requires
            self.well_formed(),
        ensures
            cap == self.capacity(),
            self@.len() <= cap,
            cap == 0 || is_power_of_two(cap as nat),
    {
        self.cap
    }

    /// Grows the buffer by one step and has the backing store make room for
    /// the new slots; the elements stay as they are.
    fn grow(&mut self)
        requires
            old(self).well_formed(),
            2 * old(self).capacity() <= usize::MAX,
        ensures
            final(self).well_formed(),
            final(self)@ == old(self)@,
            final(self).capacity() == grown(old(self).capacity() as nat),
    {
        let new_cap: usize = if self.cap == 0 {
            1
        } else {
            self.cap * 2
        };
        self.items.reserve(new_cap - self.items.len());
        self.cap = new_cap;
    }

    /// Appends `elem`, growing first if the buffer is full.
    pub fn push(&mut self, elem: T)
        requires
            old(self).well_formed(),
            old(self)@.len() <= isize::MAX,
        ensures
            final(self).well_formed(),
            final(self)@ == old(self)@.push(elem),
            final(self).capacity() == capacity_after_push(
                old(self).capacity() as nat,
                old(self)@.len(),
            ),
    {
        if self.items.len() == self.cap {
            self.grow();
        }
        self.items.push(elem);
    }

    /// Removes and returns the last element, if there is one. The capacity
    /// stays as it is.
    pub fn pop(&mut self) -> (popped: Option<T>)
        requires
            old(self).well_formed(),
        ensures
            final(self).well_formed(),
            old(self)@.len() == 0 ==> popped is None && final(self)@ == old(self)@,
            old(self)@.len() > 0 ==> popped == Some(old(self)@.last()) && final(self)@ == old(
                self,
            )@.drop_last(),
            final(self).capacity() == old(self).capacity(),
    {
        self.items.pop()
    }

    /// Whether the buffer holds no element.
    pub fn is_empty(&self) -> (empty: bool)
        ensures
            empty == (self@.len() == 0),
    {
        self.items.len() == 0
    }

    /// The last element, if there is one.
    pub fn last(&self) -> (top: Option<&T>)
        ensures
            self@.len() == 0 ==> top is None,
            self@.len() > 0 ==> top == Some(&self@.last()),
    {
        let n = self.items.len();
        if n == 0 {
            None
        } else {
            Some(&self.items[n - 1])
        }
    }

    /// The element at `index`.
    pub fn get(&self, index: usize) -> (elem: &T)
        requires
            index < self@.len(),
        ensures
            *elem == self@[index as int],
    {
        &self.items[index]
    }

    /// Overwrites the element at `index`; nothing else changes.
    pub fn set(&mut self, index: usize, elem: T)
        requires
            old(self).well_formed(),
            index < old(self)@.len(),
        ensures
            final(self).well_formed(),
            final(self)@ == old(self)@.update(index as int, elem),
            final(self).capacity() == old(self).capacity(),
    {
        self.items[index] = elem;
    }

    /// The buffer that results from pushing the elements of `items`, in
    /// order, onto an empty one.
    pub fn from_iter(items: Vec<T>) -> (list: Self)
        requires
            vstd::layout::size_of::<T>() != 0,
            items@.len() <= isize::MAX,
        ensures
            list.well_formed(),
            list@ == items@,
            list.capacity() == capacity_after(items@.len()),
    {
        let mut rest = items;
        let mut reversed: Vec<T> = Vec::new();
        while rest.len() > 0
            invariant
                rest@ + reversed@.reverse() == items@,
            decreases rest@.len(),
        {
            let ghost before_rest = rest@;
            let ghost before_reversed = reversed@;
            let item = rest.pop().unwrap();
            reversed.push(item);
            assert(rest@ + reversed@.reverse() =~= before_rest + before_reversed.reverse());
        }
        assert(reversed@.reverse() =~= items@);
        let mut list = Self::new();
        while reversed.len() > 0
            invariant
                list.well_formed(),
                list@ + reversed@.reverse() == items@,
                list.capacity() == capacity_after(list@.len()),
                items@.len() <= isize::MAX,
            decreases reversed@.len(),
        {
            let ghost before_list = list@;
            let ghost before_reversed = reversed@;
            let item = reversed.pop().unwrap();
            list.push(item);
            assert(list@ + reversed@.reverse() =~= before_list + before_reversed.reverse());
        }
        assert(list@ =~= items@);
        list
    }

    /// Hands the elements over to an iterator that yields them from either
    /// end.
    pub fn into_iter(self) -> (iter: ListIter<T>)
        ensures
            iter@ == self@,
    {
        let mut items = self.items;
        let mut remaining: VecDeque<T> = VecDeque::new();
        while items.len() > 0
            invariant
                items@ + remaining@ == self@,
            decreases items@.len(),
        {
            let ghost before_items = items@;
            let ghost before_remaining = remaining@;
            let item = items.pop().unwrap();
            remaining.push_front(item);
            assert(items@ + remaining@ =~= before_items + before_remaining);
        }
        assert(remaining@ =~= self@);
        ListIter { remaining }
    }
}

/// A consuming iterator over what a [`List`] held. `self@` is what is still
/// to come, front first.
pub struct ListIter<T> {
    remaining: VecDeque<T>,
}

impl<T> View for ListIter<T> {
    type V = Seq<T>;

    closed spec fn view(&self) -> Seq<T> {
        self.remaining@
    }
}

impl<T> ListIter<T> {
    /// Takes the next element from the front.
    pub fn next(&mut self) -> (item: Option<T>)
        ensures
            old(self)@.len() == 0 ==> item is None && final(self)@ == old(self)@,
            old(self)@.len() > 0 ==> item == Some(old(self)@.first()) && final(self)@ == old(
                self,
            )@.drop_first(),
    {
        self.remaining.pop_front()
    }

    /// Takes the next element from the back.
    pub fn next_back(&mut self) -> (item: Option<T>)
        ensures
            old(self)@.len() == 0 ==> item is None && final(self)@ == old(self)@,
            old(self)@.len() > 0 ==> item == Some(old(self)@.last()) && final(self)@ == old(
                self,
            )@.drop_last(),
    {
        self.remaining.pop_back()
    }
}

impl<T: core::fmt::Display> List<T> {
    /// The buffer as text: its elements in order, each as its `Display` impl
    /// writes it, separated by a comma and a space, between square brackets.
    pub fn to_string(&self) -> (text: String)
        ensures
            exists|parts: Seq<String>|
                {
                    &&& parts.len() == self@.len()
                    &&& forall|i: int|
                        0 <= i < parts.len() ==> vstd::string::to_string_from_display_ensures::<T>(
                            &self@[i],
                            #[trigger] parts[i],
                        )
                    &&& text@ == bracketed(texts_of(parts))
                },
    {
        let mut out = String::new();
        proof {
            reveal_strlit("[");
            reveal_strlit("]");
        }
        out.append("[");
        let ghost mut parts: Seq<String> = Seq::empty();
        let mut i: usize = 0;
        while i < self.items.len()
            invariant
                i <= self.items.len(),
                parts.len() == i,
                forall|k: int|
                    0 <= k < parts.len() ==> vstd::string::to_string_from_display_ensures::<T>(
                        &self@[k],
                        #[trigger] parts[k],
                    ),
                out@ == seq!['['] + joined(texts_of(parts)),
            decreases self.items.len() - i,
        {
            let part = self.items[i].to_string();
            if i > 0 {
                out.append(", ");
            }
            out.append(part.as_str());
            proof {
                let longer = parts.push(part);
                assert(texts_of(longer).drop_last() =~= texts_of(parts));
                assert(texts_of(longer).last() == part@);
                reveal_strlit(", ");
                assert(", "@ =~= seq![',', ' ']);
                assert(out@ =~= seq!['['] + joined(texts_of(longer)));
                parts = longer;
            }
            i += 1;
        }
        out.append("]");
        assert(out@ =~= bracketed(texts_of(parts)));
        out
    }
}

impl<T> core::ops::Deref for List<T> {
    type Target = [T];

    /// The elements as a slice.
    fn deref(&self) -> (slice: &[T])
        ensures
            slice@ == self@,
    {
        self.items.as_slice()
    }
}

} // verus!
