use vstd::prelude::*;

verus! {

/// Fixed-capacity ordered container with overwrite-oldest eviction.
///
/// Items are kept in insertion order; at most `cap()` items are held, and a
/// push into a full buffer evicts the oldest item first.  A buffer of
/// capacity zero simply discards every pushed item.
pub struct RingBuffer<T> {
    items: Vec<T>,
    capacity: usize,
}

impl<T> View for RingBuffer<T> {
    type V = Seq<T>;

    closed spec fn view(&self) -> Seq<T> {
        self.items@
    }
}

impl<T> RingBuffer<T> {
    /// The capacity fixed at construction.
    pub closed spec fn cap(&self) -> nat {
        self.capacity as nat
    }

    /// The buffer never holds more items than its capacity.
    pub open spec fn wf(&self) -> bool {
        self@.len() <= self.cap()
    }

    /// Contents after one push of `x` into a buffer of capacity `c` holding `pre`.
    pub open spec fn pushed(pre: Seq<T>, c: nat, x: T) -> Seq<T> {
        if pre.len() < c {
            pre.push(x)
        } else if c == 0 {
            Seq::empty()
        } else {
            pre.skip(pre.len() - c + 1).push(x)
        }
    }

    /// Contents after pushing every item of `s`, in order, starting from `pre`.
    pub open spec fn pushed_all(pre: Seq<T>, c: nat, s: Seq<T>) -> Seq<T>
        decreases s.len(),
    {
        if s.len() == 0 {
            pre
        } else {
            Self::pushed_all(Self::pushed(pre, c, s[0]), c, s.skip(1))
        }
    }

    /// The last `c` elements of `s`, or all of `s` when it is shorter.
    pub open spec fn last_n(s: Seq<T>, c: nat) -> Seq<T> {
        if s.len() <= c {
            s
        } else {
            s.skip(s.len() - c)
        }
    }

    pub fn new(capacity: usize) -> (r: Self)
        ensures
            r@ == Seq::<T>::empty(),
            r.cap() == capacity,
            r.wf(),
    {
        RingBuffer { items: Vec::new(), capacity }
    }

    pub fn capacity(&self) -> (r: usize)
        ensures
            r == self.cap(),
    {
        self.capacity
    }

    pub fn len(&self) -> (r: usize)
        ensures
            r == self@.len(),
    {
        self.items.len()
    }

    /// Drop every item; the capacity is kept.
    pub fn clear(&mut self)
        ensures
            final(self)@ == Seq::<T>::empty(),
            final(self).cap() == old(self).cap(),
            final(self).wf(),
    {
        self.items.clear();
    }

    pub fn push(&mut self, x: T)
        requires
            old(self).wf(),
        ensures
            final(self)@ == Self::pushed(old(self)@, old(self).cap(), x),
            final(self).cap() == old(self).cap(),
            final(self).wf(),
    {
        if self.capacity == 0 {
            proof {
                assert(self@ =~= Seq::<T>::empty());
            }
            return;
        }
        if self.items.len() == self.capacity {
            self.items.remove(0);
            proof {
                assert(self.items@ =~= old(self).items@.skip(old(self)@.len() - old(self).cap() + 1));
            }
        }
        self.items.push(x);
    }

    /// A reference to the item at position `i`, counting from the oldest.
    pub fn get(&self, i: usize) -> (r: &T)
        requires
            i < self@.len(),
        ensures
            *r == self@[i as int],
    {
        &self.items[i]
    }

    /// The window of the last `n` items, oldest of the window first; it holds
    /// `min(n, len)` items and, being a plain vector, can be walked any number
    /// of times.
    pub fn iter_last(&self, n: usize) -> (r: Vec<&T>)
        ensures
            r@.len() == if n as int <= self@.len() { n as int } else { self@.len() as int },
            forall|i: int| 0 <= i < r@.len() ==> *(#[trigger] r@[i]) == self@[self@.len() - r@.len() + i],
    {
        let len = self.items.len();
        let start = if n <= len { len - n } else { 0 };
        let mut out: Vec<&T> = Vec::new();
        let mut i = start;
        while i < len
            invariant
                start <= i <= len,
                len == self@.len(),
                start == if n as int <= len as int { len - n } else { 0 },
                out@.len() == i - start,
                forall|j: int| 0 <= j < out@.len() ==> *(#[trigger] out@[j]) == self@[start + j],
            decreases len - i,
        {
            out.push(&self.items[i]);
            i = i + 1;
        }
        out
    }

    proof fn lemma_last_n_absorb(a: Seq<T>, b: Seq<T>, c: nat)
        ensures
            Self::last_n(Self::last_n(a, c) + b, c) =~= Self::last_n(a + b, c),
    {
    }

    proof fn lemma_pushed_all_last_n(pre: Seq<T>, c: nat, s: Seq<T>)
        requires
            pre.len() <= c,
        ensures
            Self::pushed_all(pre, c, s) =~= Self::last_n(pre + s, c),
        decreases s.len(),
    {
        if s.len() == 0 {
            assert(pre + s =~= pre);
        } else {
            let first = Self::pushed(pre, c, s[0]);
            assert(first =~= Self::last_n(pre.push(s[0]), c));
            Self::lemma_pushed_all_last_n(first, c, s.skip(1));
            Self::lemma_last_n_absorb(pre.push(s[0]), s.skip(1), c);
            assert(pre.push(s[0]) + s.skip(1) =~= pre + s);
        }
    }

    /// Law: pushing a sequence of at least `c` items into a well-formed buffer
    /// of capacity `c` leaves exactly the last `c` pushed items, in push order.
    pub proof fn lemma_push_keeps_last_capacity(pre: Seq<T>, c: nat, s: Seq<T>)
        requires
            pre.len() <= c,
            s.len() >= c,
        ensures
            Self::pushed_all(pre, c, s) =~= s.skip(s.len() - c),
    {
        Self::lemma_pushed_all_last_n(pre, c, s);
        if (pre + s).len() > c {
            assert(Self::last_n(pre + s, c) =~= s.skip(s.len() - c));
        } else {
            assert(pre + s =~= s);
        }
    }

    /// Law: a buffer of capacity zero stays empty however many items are
    /// pushed into it.
    pub proof fn lemma_zero_capacity_stays_empty(pre: Seq<T>, s: Seq<T>)
        requires
            pre.len() == 0,
        ensures
            Self::pushed_all(pre, 0, s) =~= Seq::<T>::empty(),
    {
        Self::lemma_pushed_all_last_n(pre, 0, s);
    }

    /// Pushing the items of `s` and then one more item is one push after
    /// pushing the items of `s`.
    pub proof fn lemma_pushed_all_snoc(pre: Seq<T>, c: nat, s: Seq<T>, x: T)
        ensures
            Self::pushed_all(pre, c, s.push(x)) == Self::pushed(Self::pushed_all(pre, c, s), c, x),
        decreases s.len(),
    {
        if s.len() == 0 {
            assert(s.push(x)[0] == x);
            assert(s.push(x).skip(1) =~= Seq::<T>::empty());
            assert(Self::pushed_all(Self::pushed(pre, c, x), c, s.push(x).skip(1))
                == Self::pushed(pre, c, x));
        } else {
            assert(s.push(x)[0] == s[0]);
            assert(s.push(x).skip(1) =~= s.skip(1).push(x));
            Self::lemma_pushed_all_snoc(Self::pushed(pre, c, s[0]), c, s.skip(1), x);
            assert(Self::pushed_all(pre, c, s.push(x))
                == Self::pushed_all(Self::pushed(pre, c, s[0]), c, s.skip(1).push(x)));
            assert(Self::pushed_all(pre, c, s)
                == Self::pushed_all(Self::pushed(pre, c, s[0]), c, s.skip(1)));
        }
    }
}

} // verus!
