//! A bounded first-in first-out ring buffer whose capacity is a power of
//! two: pushing onto a full queue hands the item back.

use vstd::prelude::*;
use crate::map::is_pow2;

verus! {

/// `x % c` for `0 <= x < 2c`.
proof fn lemma_mod_once(x: int, c: int)
    requires
        c > 0,
        0 <= x < 2 * c,
    ensures
        x % c == if x < c {
            x
        } else {
            x - c
        },
{
    vstd::arithmetic::div_mod::lemma_fundamental_div_mod(x, c);
    assert(0 <= x % c < c) by {
        vstd::arithmetic::div_mod::lemma_mod_bound(x, c);
    }
    if x < c {
        vstd::arithmetic::div_mod::lemma_small_mod(x as nat, c as nat);
    } else {
        vstd::arithmetic::div_mod::lemma_mod_sub_multiples_vanish(x, c);
        vstd::arithmetic::div_mod::lemma_small_mod((x - c) as nat, c as nat);
    }
}

/// `x % c` for `-c <= x < 0`.
proof fn lemma_mod_neg(x: int, c: int)
    requires
        c > 0,
        -c <= x < 0,
    ensures
        x % c == x + c,
{
    vstd::arithmetic::div_mod::lemma_mod_add_multiples_vanish(x, c);
    vstd::arithmetic::div_mod::lemma_small_mod((x + c) as nat, c as nat);
}

/// The distance from `h` to slot `i` going forward around a ring of `c`
/// slots.
spec fn dist(i: int, h: int, c: int) -> int {
    (i - h) % c
}

/// Slot `(h + n) % c` lies `n` slots after `h`, and no other slot does.
proof fn lemma_ring(i: int, h: int, n: int, c: int)
    requires
        c > 0,
        0 <= i < c,
        0 <= h < c,
        0 <= n < c,
    ensures
        (dist(i, h, c) == n) == (i == (h + n) % c),
        0 <= dist(i, h, c) < c,
        dist((h + n) % c, h, c) == n,
{
    lemma_mod_once(h + n, c);
    if i - h >= 0 {
        vstd::arithmetic::div_mod::lemma_small_mod((i - h) as nat, c as nat);
    } else {
        lemma_mod_neg(i - h, c);
    }
    let s = (h + n) % c;
    if s - h >= 0 {
        vstd::arithmetic::div_mod::lemma_small_mod((s - h) as nat, c as nat);
    } else {
        lemma_mod_neg(s - h, c);
    }
}

/// A ring buffer of `buffer.len()` slots holding `len` items from slot
/// `head` on, wrapping around.
pub struct BoundedQueue<T> {
    head: usize,
    len: usize,
    buffer: Vec<Option<T>>,
}

impl<T> BoundedQueue<T> {
    /// The slots hold exactly the items from `head`, and the capacity is a
    /// power of two.
    pub closed spec fn wf(&self) -> bool {
        let cap = self.buffer@.len() as int;
        &&& is_pow2(cap)
        &&& self.head < cap
        &&& self.len <= cap
        &&& forall|i: int| 0 <= i < cap ==> (#[trigger] self.buffer@[i] is Some) == (dist(i, self.head as int, cap) < self.len)
    }

    /// The number of slots.
    pub closed spec fn capacity(&self) -> nat {
        self.buffer@.len()
    }

    /// The queued items, oldest first.
    pub closed spec fn view(&self) -> Seq<T> {
        Seq::new(self.len as nat, |i: int| self.buffer@[(self.head + i) % (self.buffer@.len() as int)]->Some_0)
    }

    /// An empty queue with `capacity` slots; the capacity must be a power
    /// of two.
    pub fn new(capacity: usize) -> (q: Self)
        requires
            is_pow2(capacity as int),
        ensures
            q.wf(),
            q.capacity() == capacity,
            q.view() == Seq::<T>::empty(),
    {
        let mut buffer: Vec<Option<T>> = Vec::new();
        let mut i: usize = 0;
        while i < capacity
            invariant
                i <= capacity,
                buffer@.len() == i,
                forall|j: int| 0 <= j < i ==> buffer@[j] is None,
            decreases capacity - i,
        {
            buffer.push(None);
            i = i + 1;
        }
        let q = BoundedQueue { head: 0, len: 0, buffer };
        proof {
            assert(capacity >= 1);
            assert forall|j: int| 0 <= j < capacity implies (#[trigger] q.buffer@[j] is Some) == (dist(j, 0, capacity as int) < 0) by {
                lemma_ring(j, 0, 0, capacity as int);
            }
            assert(q.view() =~= Seq::<T>::empty());
        }
        q
    }

    /// Enqueues `item`, or hands it back when the queue is full.
    pub fn push(&mut self, item: T) -> (r: Result<(), T>)
        requires
            old(self).wf(),
        ensures
            final(self).wf(),
            final(self).capacity() == old(self).capacity(),
            old(self).view().len() < old(self).capacity() ==> r is Ok && final(self).view() == old(self).view().push(item),
            old(self).view().len() >= old(self).capacity() ==> r == Err::<(), T>(item) && final(self).view() == old(
                self,
            ).view(),
    {
        let cap = self.buffer.len();
        if self.len >= cap {
            return Err(item);
        }
        let ghost c = cap as int;
        let ghost h = self.head as int;
        let ghost n = self.len as int;
        let slot = if self.head < cap - self.len {
            self.head + self.len
        } else {
            self.head - (cap - self.len)
        };
        proof {
            lemma_mod_once(h + n, c);
        }
        let ghost before = self.buffer@;
        self.buffer.set(slot, Some(item));
        self.len = self.len + 1;
        proof {
            lemma_ring(slot as int, h, n, c);
            assert forall|i: int| 0 <= i < c implies (#[trigger] self.buffer@[i] is Some) == (dist(i, h, c) < n + 1) by {
                lemma_ring(i, h, n, c);
            }
            assert forall|i: int| 0 <= i < n implies #[trigger] self.buffer@[(h + i) % c] == before[(h + i) % c] by {
                lemma_mod_once(h + i, c);
                lemma_ring((h + i) % c, h, i, c);
                lemma_ring((h + i) % c, h, n, c);
            }
            assert(self.view() =~= old(self).view().push(item));
        }
        Ok(())
    }

    /// Dequeues the oldest item, if any.
    pub fn pop(&mut self) -> (r: Option<T>)
        requires
            old(self).wf(),
        ensures
            final(self).wf(),
            final(self).capacity() == old(self).capacity(),
            old(self).view().len() > 0 ==> r == Some(old(self).view()[0]) && final(self).view() == old(self).view().skip(1),
            old(self).view().len() == 0 ==> r is None && final(self).view() == old(self).view(),
    {
        if self.len == 0 {
            return None;
        }
        let cap = self.buffer.len();
        let h = self.head;
        let ghost c = cap as int;
        let ghost n = self.len as int;
        let ghost before = self.buffer@;
        proof {
            lemma_ring(h as int, h as int, 0, c);
            lemma_mod_once(h as int, c);
        }
        let taken = self.buffer[h].take();
        let nh = (h + 1) % cap;
        self.head = nh;
        self.len = self.len - 1;
        proof {
            lemma_mod_once(h + 1, c);
            assert forall|i: int| 0 <= i < c implies (#[trigger] self.buffer@[i] is Some) == (dist(i, nh as int, c) < n - 1) by {
                lemma_ring(i, h as int, 0, c);
                if i == h {
                    lemma_ring(i, nh as int, c - 1, c);
                    lemma_mod_once(nh + c - 1, c);
                } else {
                    assert(dist(i, h as int, c) >= 1);
                    let d = dist(i, h as int, c);
                    lemma_ring(i, h as int, d, c);
                    lemma_ring(i, nh as int, d - 1, c);
                    lemma_mod_once(h + d, c);
                    lemma_mod_once(nh + d - 1, c);
                }
            }
            assert forall|i: int| 0 <= i < n - 1 implies #[trigger] self.buffer@[(nh + i) % c] == before[(h + (i + 1)) % c] by {
                lemma_mod_once(nh + i, c);
                lemma_mod_once(h + (i + 1), c);
                lemma_ring((h + (i + 1)) % c, h as int, 0, c);
                lemma_ring((h + (i + 1)) % c, h as int, i + 1, c);
            }
            assert(self.view() =~= old(self).view().skip(1));
            assert(old(self).view()[0] == before[h as int]->Some_0);
        }
        taken
    }
}

} // verus!
