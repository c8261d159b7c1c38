//! A fixed-capacity circular buffer.
//!
//! A `RingBuffer<T, CAPACITY>` holds at most `CAPACITY` elements of type `T`.
//! Pushing into a full buffer silently discards the oldest element; popping
//! removes and returns the oldest element, or reports that the buffer is
//! empty. All operations run in constant time and allocate nothing after
//! construction.

use vstd::prelude::*;

verus! {

use vstd::arithmetic::div_mod::{
    lemma_mod_add_multiples_vanish,
    lemma_mod_self_0,
    lemma_small_mod,
};

/// What one push leaves in a buffer of capacity `cap` whose live contents
/// are `s`: the new item goes at the back, and when the buffer is already
/// full the oldest element is discarded to make room.
pub open spec fn pushed<T>(s: Seq<T>, cap: nat, item: T) -> Seq<T> {
    if s.len() < cap {
        s.push(item)
    } else {
        s.skip(1).push(item)
    }
}

/// What a run of pushes leaves in a buffer of capacity `cap` whose live
/// contents are `s`: the items are pushed one at a time, in order.
pub open spec fn pushed_all<T>(s: Seq<T>, cap: nat, items: Seq<T>) -> Seq<T>
    decreases items.len(),
{
    if items.len() == 0 {
        s
    } else {
        pushed_all(pushed(s, cap, items[0]), cap, items.skip(1))
    }
}

/// The suffix of `s` that a buffer of capacity `cap` can retain: all of `s`
/// when it fits, otherwise the last `cap` elements.
pub open spec fn retained<T>(s: Seq<T>, cap: nat) -> Seq<T> {
    if s.len() <= cap {
        s
    } else {
        s.skip(s.len() - cap)
    }
}

/// A run of pushes into a buffer holding `s` leaves the retained suffix of
/// `s` followed by the pushed items: everything fits as long as the total
/// stays within the capacity, and beyond that only the last `cap` elements
/// survive.
pub proof fn lemma_pushed_all_retains_suffix<T>(s: Seq<T>, cap: nat, items: Seq<T>)
    requires
        cap >= 1,
        s.len() <= cap,
    ensures
        pushed_all(s, cap, items) == retained(s + items, cap),
    decreases items.len(),
{
    if items.len() == 0 {
        assert(s + items =~= s);
    } else {
        let stepped = pushed(s, cap, items[0]);
        let rest = items.skip(1);
        lemma_pushed_all_retains_suffix(stepped, cap, rest);
        let total = s + items;
        if s.len() < cap {
            assert(stepped + rest =~= total);
        } else {
            assert(stepped + rest =~= total.skip(1));
            if total.len() - 1 <= cap {
                assert(total.skip(1) =~= total.skip(total.len() - cap));
            } else {
                assert(total.skip(1).skip(total.len() - 1 - cap) =~= total.skip(
                    total.len() - cap,
                ));
            }
        }
    }
}

/// FIFO ordering: pushing at most `cap` items into an empty buffer of
/// capacity `cap` leaves exactly those items, in push order, so popping
/// repeatedly returns them in the order they were pushed.
pub proof fn lemma_fifo_order<T>(cap: nat, items: Seq<T>)
    requires
        cap >= 1,
        items.len() <= cap,
    ensures
        pushed_all(Seq::empty(), cap, items) == items,
{
    lemma_pushed_all_retains_suffix(Seq::empty(), cap, items);
    assert(Seq::<T>::empty() + items =~= items);
}

/// Overwrite law: pushing `cap` or more items into an empty buffer of
/// capacity `cap` leaves exactly the last `cap` items pushed, in push
/// order, oldest first — every earlier item was overwritten.
pub proof fn lemma_overwrite<T>(cap: nat, items: Seq<T>)
    requires
        cap >= 1,
        items.len() >= cap,
    ensures
        pushed_all(Seq::empty(), cap, items) == items.skip(items.len() - cap),
{
    lemma_pushed_all_retains_suffix(Seq::empty(), cap, items);
    assert(Seq::<T>::empty() + items =~= items);
    if items.len() == cap {
        assert(items.skip(0) =~= items);
    }
}

/// Where a circular offset lands: for `-c <= j < c` the remainder modulo
/// `c` is `j` itself when `j` is nonnegative and `j + c` otherwise.
proof fn lemma_mod_in_range(j: int, c: int)
    requires
        c > 0,
        -c <= j < c,
    ensures
        j % c == if j >= 0 { j } else { j + c },
{
    if j >= 0 {
        lemma_small_mod(j as nat, c as nat);
    } else {
        lemma_mod_add_multiples_vanish(j, c);
        lemma_small_mod((j + c) as nat, c as nat);
    }
}

/// A fixed-capacity circular buffer.
///
/// `storage` always holds exactly `CAPACITY` slots; the `size` slots that
/// immediately precede `end_index` in circular order are the live elements,
/// oldest first. Slots outside that window keep whatever value they last
/// held (initially `T::default()`) but are never observable through the
/// public operations.
pub struct RingBuffer<T: Default + Copy, const CAPACITY: usize> {
    storage: Vec<T>,
    size: usize,
    end_index: usize,
}

impl<T: Default + Copy, const CAPACITY: usize> View for RingBuffer<T, CAPACITY> {
    type V = Seq<T>;

    /// The live contents, oldest first.
    closed spec fn view(&self) -> Seq<T> {
        Seq::new(
            self.size as nat,
            |i: int| self.storage@[(self.end_index - self.size + i) % (CAPACITY as int)],
        )
    }
}

impl<T: Default + Copy, const CAPACITY: usize> RingBuffer<T, CAPACITY> {
    /// The buffer's internal invariant: the storage block has exactly
    /// `CAPACITY` slots, the write cursor stays inside it, and the element
    /// count never exceeds the capacity.
    pub closed spec fn wf(&self) -> bool {
        &&& CAPACITY >= 1
        &&& self.storage@.len() == CAPACITY
        &&& self.size <= CAPACITY
        &&& self.end_index < CAPACITY
    }

    /// Creates an empty buffer: no live elements, write cursor at the first
    /// slot, every storage slot filled with the element type's default value.
    pub fn new() -> (result: Self)
        requires
            CAPACITY >= 1,
        ensures
            result.wf(),
            result@ == Seq::<T>::empty(),
    {
        let mut storage: Vec<T> = Vec::new();
        while storage.len() < CAPACITY
            invariant
                storage@.len() <= CAPACITY,
            decreases CAPACITY - storage@.len(),
        {
            storage.push(T::default());
        }
        let result = RingBuffer { storage, size: 0, end_index: 0 };
        proof {
            assert(result@ =~= Seq::<T>::empty());
        }
        result
    }

    /// Returns the number of elements currently held.
    pub fn size(&self) -> (result: usize)
        ensures
            result == self@.len(),
    {
        self.size
    }

    /// Returns the fixed capacity.
    pub fn capacity(&self) -> (result: usize)
        ensures
            result == CAPACITY,
    {
        CAPACITY
    }

    /// Writes `item` at the write cursor and advances the cursor circularly.
    /// On a buffer that is not yet full the element count grows by one; on a
    /// full buffer the oldest element is silently overwritten and the count
    /// stays at the capacity.
    pub fn push(&mut self, item: T)
        requires
            old(self).wf(),
        ensures
            final(self).wf(),
            final(self)@ == pushed(old(self)@, CAPACITY as nat, item),
            old(self)@.len() < CAPACITY ==> final(self)@.len() == old(self)@.len() + 1,
            old(self)@.len() == CAPACITY ==> final(self)@.len() == CAPACITY,
    {
        let idx = self.end_index % CAPACITY;
        proof {
            lemma_small_mod(self.end_index as nat, CAPACITY as nat);
        }
        self.storage.set(idx, item);
        self.end_index = (self.end_index + 1) % CAPACITY;
        if self.size < CAPACITY {
            self.size = self.size + 1;
        }
        proof {
            let c = CAPACITY as int;
            let e = old(self).end_index as int;
            let n = self.size as int;
            let target = pushed(old(self)@, CAPACITY as nat, item);
            if e + 1 < c {
                lemma_mod_in_range(e + 1, c);
            } else {
                lemma_mod_self_0(c);
            }
            assert forall|i: int| 0 <= i < n implies self@[i] == target[i] by {
                let j = e + 1 - n + i;
                if e + 1 == c {
                    lemma_mod_add_multiples_vanish(j - c, c);
                }
                lemma_mod_in_range(j, c);
            };
            assert(self@ =~= target);
        }
    }

    /// Removes and returns the oldest element, or returns `None` and leaves
    /// the buffer untouched when it is empty. The vacated slot keeps its
    /// stale value; only the element count changes.
    pub fn pop(&mut self) -> (result: Option<T>)
        requires
            old(self).wf(),
        ensures
            final(self).wf(),
            old(self)@.len() == 0 ==> result is None,
            old(self)@.len() == 0 ==> *final(self) == *old(self),
            old(self)@.len() > 0 ==> result == Some(old(self)@[0]),
            old(self)@.len() > 0 ==> final(self)@ == old(self)@.skip(1),
            old(self)@.len() > 0 ==> final(self)@.len() == old(self)@.len() - 1,
    {
        if self.size == 0 {
            return None;
        }
        let start = if self.size <= self.end_index {
            self.end_index - self.size
        } else {
            self.end_index + (CAPACITY - self.size)
        };
        proof {
            lemma_mod_in_range(
                self.end_index as int - self.size as int,
                CAPACITY as int,
            );
        }
        let return_value = self.storage[start];
        self.size = self.size - 1;
        proof {
            assert(self@ =~= old(self)@.skip(1));
        }
        Some(return_value)
    }

    /// The element count never exceeds the capacity: a well-formed buffer
    /// always satisfies `0 <= size <= capacity`.
    pub proof fn lemma_size_within_capacity(&self)
        requires
            self.wf(),
        ensures
            0 <= self@.len() <= CAPACITY,
    {
    }
}

} // verus!
