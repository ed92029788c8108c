//! A fixed-capacity sliding window over the most recently pushed elements,
//! kept in a circular buffer.

use vstd::prelude::*;
use vstd::arithmetic::div_mod::lemma_add_mod_noop_right;

verus! {

/// The last `cap` elements of `s`, or all of them if there are fewer.
pub open spec fn keep_last<T>(s: Seq<T>, cap: nat) -> Seq<T> {
    if s.len() <= cap {
        s
    } else {
        s.subrange(s.len() - cap, s.len() as int)
    }
}

/// The `n` elements that an LZ77 copy from `dist` elements back appends to
/// `s`: the copy may overlap itself, so it repeats the last `dist` elements.
pub open spec fn copy_run<T>(s: Seq<T>, dist: nat, n: nat) -> Seq<T> {
    Seq::new(n, |i: int| s[s.len() - dist + i % (dist as int)])
}

/// Keeping the last elements after a push is the same as pushing onto the
/// last elements and keeping the last ones again.
pub proof fn lemma_keep_last_push<T>(s: Seq<T>, x: T, cap: nat)
    requires
        cap > 0,
    ensures
        keep_last(keep_last(s, cap).push(x), cap) == keep_last(s.push(x), cap),
{
    assert(keep_last(keep_last(s, cap).push(x), cap) =~= keep_last(s.push(x), cap));
}

/// Keeping the last elements of an extended sequence only depends on the
/// last elements of the sequence that was extended.
pub proof fn lemma_keep_last_append<T>(s: Seq<T>, t: Seq<T>, cap: nat)
    requires
        cap > 0,
    ensures
        keep_last(keep_last(s, cap) + t, cap) == keep_last(s + t, cap),
{
    assert(keep_last(keep_last(s, cap) + t, cap) =~= keep_last(s + t, cap));
}

/// An element `d` places from the end is kept as long as `d` is within the
/// window.
pub proof fn lemma_keep_last_index<T>(s: Seq<T>, cap: nat, d: int)
    requires
        1 <= d <= keep_last(s, cap).len(),
    ensures
        keep_last(s, cap)[keep_last(s, cap).len() - d] == s[s.len() - d],
        keep_last(s, cap).len() <= s.len(),
{
}

/// How many of a window's elements, oldest first, lie before the end of its
/// circular buffer, after `n` more pushes into a window of capacity `cap`
/// that holds `len` elements of which `wrap` lie before the end: the buffer
/// fills up from its start, and once full, each push overwrites the oldest
/// element and moves the end point one place on.
pub open spec fn wrap_after(len: nat, wrap: nat, cap: nat, n: nat) -> nat {
    if len + n < cap {
        len + n
    } else {
        let cursor = if len < cap {
            len as int
        } else {
            cap - wrap
        };
        (cap - (cursor + n) % (cap as int)) as nat
    }
}

/// A split point of a window is consistent with its length and capacity.
pub open spec fn wrap_ok(len: nat, wrap: nat, cap: nat) -> bool {
    &&& 0 < cap
    &&& len <= cap
    &&& len < cap ==> wrap == len
    &&& len == cap ==> 1 <= wrap <= cap
}

/// `n + 1` pushes are `n` pushes and then one more.
proof fn lemma_wrap_after_step(len: nat, wrap: nat, cap: nat, n: nat)
    requires
        wrap_ok(len, wrap, cap),
    ensures
        wrap_ok(
            if len + n < cap {
                len + n
            } else {
                cap
            },
            wrap_after(len, wrap, cap, n),
            cap,
        ),
        wrap_after(len, wrap, cap, n + 1) == wrap_after(
            if len + n < cap {
                len + n
            } else {
                cap
            },
            wrap_after(len, wrap, cap, n),
            cap,
            1,
        ),
        wrap_after(len, wrap, cap, 0) == wrap,
{
    let c = cap as int;
    let cursor = if len < cap {
        len as int
    } else {
        cap - wrap
    };
    if len == cap {
        assert(cursor % c == cursor) by (nonlinear_arith)
            requires
                0 <= cursor < c,
        ;
    }
    if len + n >= cap {
        assert(0 <= (cursor + n) % c < c) by (nonlinear_arith)
            requires
                c > 0,
                cursor + n >= 0,
        ;
        lemma_add_mod_noop_right(1, cursor + n, c);
        assert((1 + (cursor + n)) == cursor + (n + 1));
    }
    if len + n + 1 == cap && len + n < cap {
        let t: int = (len + n + 1) as int;
        assert(t % c == 0) by (nonlinear_arith)
            requires
                t == c,
                c > 0,
        ;
    }
}

/// A fixed-capacity sliding window implemented with a circular buffer: it
/// remembers the last `capacity` elements pushed into it.
#[derive(Debug)]
pub struct SlidingWindow<T> {
    buffer: Vec<T>,
    cursor: usize,
    cap: usize,
}

impl<T> SlidingWindow<T> {
    /// Well-formedness: the buffer holds at most `cap` elements and the
    /// cursor points at the slot of the next push.
    pub closed spec fn wf(&self) -> bool {
        &&& 0 < self.cap
        &&& self.buffer.len() <= self.cap
        &&& self.cursor < self.cap
        &&& self.buffer.len() < self.cap ==> self.cursor == self.buffer.len()
    }

    /// The elements in the window, oldest first.
    pub closed spec fn contents(&self) -> Seq<T> {
        if self.buffer.len() < self.cap {
            self.buffer@
        } else {
            self.buffer@.subrange(self.cursor as int, self.buffer.len() as int) + self.buffer@.subrange(
                0,
                self.cursor as int,
            )
        }
    }

    /// The number of elements the window can hold.
    pub closed spec fn cap(&self) -> nat {
        self.cap as nat
    }

    /// How many of the elements, oldest first, lie before the end of the
    /// circular buffer; the others continue from its start.
    pub closed spec fn wrap(&self) -> nat {
        if self.buffer.len() < self.cap {
            self.buffer.len() as nat
        } else {
            (self.cap - self.cursor) as nat
        }
    }

    /// The split point of a window is consistent with its length.
    pub proof fn lemma_wrap_ok(&self)
        requires
            self.wf(),
        ensures
            wrap_ok(self.contents().len(), self.wrap(), self.cap()),
    {
    }

    /// A window never holds more elements than its capacity, which is never 0.
    pub proof fn lemma_contents_bounded(&self)
        requires
            self.wf(),
        ensures
            self.contents().len() <= self.cap(),
            self.cap() > 0,
    {
    }

    /// Creates a new, empty `SlidingWindow` with the given fixed capacity.
    pub fn with_capacity(capacity: usize) -> (r: Self)
        requires
            capacity > 0,
        ensures
            r.wf(),
            r.contents() == Seq::<T>::empty(),
            r.cap() == capacity,
            r.wrap() == 0,
    {
        let buffer: Vec<T> = Vec::new();
        SlidingWindow { buffer, cursor: 0, cap: capacity }
    }

    /// Returns the number of elements pushed into the `SlidingWindow` that it
    /// still holds.
    pub fn len(&self) -> (n: usize)
        requires
            self.wf(),
        ensures
            n == self.contents().len(),
    {
        self.buffer.len()
    }

    /// Returns the number of elements that the `SlidingWindow` is capable of
    /// holding.
    pub fn capacity(&self) -> (n: usize)
        ensures
            n == self.cap(),
    {
        self.cap
    }

    /// Adds an element to the `SlidingWindow`, dropping the oldest one if the
    /// window is full.
    pub fn push(&mut self, element: T)
        requires
            old(self).wf(),
        ensures
            final(self).wf(),
            final(self).cap() == old(self).cap(),
            final(self).contents() == keep_last(old(self).contents().push(element), old(self).cap()),
            final(self).wrap() == wrap_after(old(self).contents().len(), old(self).wrap(), old(self).cap(), 1),
    {
        let ghost old_contents = self.contents();
        let ghost old_buf = self.buffer@;
        let ghost c = self.cursor as int;
        let ghost n = self.cap as int;
        proof {
            if c + 1 < n {
                assert((c + 1) % n == c + 1) by (nonlinear_arith)
                    requires
                        0 <= c + 1 < n,
                ;
            } else {
                assert((c + 1) % n == 0) by (nonlinear_arith)
                    requires
                        c + 1 == n,
                        n > 0,
                ;
            }
        }
        if self.buffer.len() < self.cap {
            // It just fits into an empty slot
            self.buffer.push(element);
            self.cursor = if self.cursor + 1 == self.cap {
                0
            } else {
                self.cursor + 1
            };
            assert(self.contents() =~= keep_last(old_contents.push(element), self.cap as nat));
        } else {
            // We are overwriting the oldest element
            self.buffer.set(self.cursor, element);
            self.cursor = if self.cursor + 1 == self.cap {
                0
            } else {
                self.cursor + 1
            };
            let ghost expect = keep_last(old_contents.push(element), self.cap as nat);
            assert(expect =~= old_contents.drop_first().push(element));
            assert forall|i: int| 0 <= i < n implies #[trigger] self.contents()[i] == expect[i] by {
                if i < n - c - 1 {
                    assert(self.contents()[i] == old_buf[c + 1 + i]);
                } else if i < n - 1 {
                    assert(self.contents()[i] == old_buf[i - (n - c - 1)]);
                }
            }
            assert(self.contents() =~= expect);
        }
    }

    /// Clears this `SlidingWindow`, removing all elements.
    pub fn clear(&mut self)
        requires
            old(self).wf(),
        ensures
            final(self).wf(),
            final(self).cap() == old(self).cap(),
            final(self).contents() == Seq::<T>::empty(),
            final(self).wrap() == 0,
    {
        self.buffer.clear();
        self.cursor = 0;
    }
}

impl<T: Copy> SlidingWindow<T> {
    /// Adds a slice to the `SlidingWindow`, as if its elements were pushed one
    /// by one.
    pub fn push_slice(&mut self, elements: &[T])
        requires
            old(self).wf(),
        ensures
            final(self).wf(),
            final(self).cap() == old(self).cap(),
            final(self).contents() == keep_last(old(self).contents() + elements@, old(self).cap()),
            final(self).wrap() == wrap_after(
                old(self).contents().len(),
                old(self).wrap(),
                old(self).cap(),
                elements@.len(),
            ),
    {
        let ghost start = self.contents();
        let ghost cap = self.cap();
        let ghost w0 = self.wrap();
        proof {
            self.lemma_wrap_ok();
            lemma_wrap_after_step(start.len(), w0, cap, 0);
        }
        let n = elements.len();
        for i in 0..n
            invariant
                n == elements@.len(),
                self.wf(),
                self.cap() == cap,
                cap > 0,
                wrap_ok(start.len(), w0, cap),
                self.contents() == keep_last(start + elements@.subrange(0, i as int), cap),
                self.wrap() == wrap_after(start.len(), w0, cap, i as nat),
        {
            proof {
                lemma_wrap_after_step(start.len(), w0, cap, i as nat);
            }
            self.push(elements[i]);
            proof {
                lemma_keep_last_push(start + elements@.subrange(0, i as int), elements@[i as int], cap);
                assert(start + elements@.subrange(0, i + 1) =~= (start + elements@.subrange(
                    0,
                    i as int,
                )).push(elements@[i as int]));
            }
        }
        assert(elements@.subrange(0, n as int) =~= elements@);
    }

    /// Returns the buffer index of the element the given distance back from
    /// the newest one.
    fn buffer_index_of_dist(&self, dist: usize) -> (idx: usize)
        requires
            self.wf(),
            1 <= dist <= self.contents().len(),
        ensures
            idx < self.buffer@.len(),
            self.buffer@[idx as int] == self.contents()[self.contents().len() - dist],
    {
        if self.buffer.len() < self.cap {
            self.buffer.len() - dist
        } else {
            if dist <= self.cursor {
                self.cursor - dist
            } else {
                self.cap - (dist - self.cursor)
            }
        }
    }

    /// Returns the element the given distance back from the newest one; the
    /// newest element is at distance 1.
    pub fn peek(&self, dist: usize) -> (e: T)
        requires
            self.wf(),
            1 <= dist <= self.contents().len(),
        ensures
            e == self.contents()[self.contents().len() - dist],
    {
        let idx = self.buffer_index_of_dist(dist);
        self.buffer[idx]
    }

    /// Copies `len` elements starting `dist` elements back into the window, one
    /// by one so that the copy may overlap itself, and returns the copied
    /// elements.
    pub fn backreference(&mut self, dist: usize, len: usize) -> (r: Vec<T>)
        requires
            old(self).wf(),
            1 <= dist <= old(self).contents().len(),
        ensures
            final(self).wf(),
            r@ == copy_run(old(self).contents(), dist as nat, len as nat),
            final(self).cap() == old(self).cap(),
            final(self).contents() == keep_last(old(self).contents() + r@, old(self).cap()),
            final(self).wrap() == wrap_after(old(self).contents().len(), old(self).wrap(), old(self).cap(), len as nat),
    {
        let ghost start = self.contents();
        let ghost cap = self.cap();
        let ghost w0 = self.wrap();
        proof {
            self.lemma_wrap_ok();
            lemma_wrap_after_step(start.len(), w0, cap, 0);
        }
        let mut out: Vec<T> = Vec::new();
        for i in 0..len
            invariant
                1 <= dist <= start.len(),
                self.wf(),
                self.cap() == cap,
                cap > 0,
                wrap_ok(start.len(), w0, cap),
                self.wrap() == wrap_after(start.len(), w0, cap, i as nat),
                out@ == copy_run(start, dist as nat, i as nat),
                self.contents() == keep_last(start + out@, cap),
                dist <= self.contents().len(),
        {
            proof {
                let all = start + out@;
                lemma_keep_last_index(all, cap, dist as int);
            }
            proof {
                lemma_wrap_after_step(start.len(), w0, cap, i as nat);
            }
            let e = self.peek(dist);
            proof {
                let all = start + out@;
                let k = i as int;
                let d = dist as int;
                // The element `d` back from the end of `start + out` repeats the
                // copied run with period `d`.
                if k < d {
                    assert(k % d == k) by (nonlinear_arith)
                        requires
                            0 <= k < d,
                    ;
                    assert(all[all.len() - d] == start[start.len() - d + k]);
                } else {
                    assert((k - d) % d == k % d) by (nonlinear_arith)
                        requires
                            0 <= d <= k,
                    ;
                    assert(all[all.len() - d] == out@[k - d]);
                }
                assert(e == start[start.len() - d + k % d]);
            }
            self.push(e);
            out.push(e);
            proof {
                lemma_keep_last_push(start + out@.drop_last(), e, cap);
                assert(start + out@ =~= (start + out@.drop_last()).push(e));
                assert(out@ =~= copy_run(start, dist as nat, (i + 1) as nat));
            }
        }
        out
    }

    /// Returns `len` elements of the window starting `start` elements after the
    /// oldest one, as the two pieces that the circular buffer holds them in:
    /// the first piece runs up to the end of the buffer, where the first
    /// `wrap()` elements of the window end, and the second one continues from
    /// its beginning.
    pub fn slice(&self, start: usize, len: usize) -> (r: (Vec<T>, Vec<T>))
        requires
            self.wf(),
            start + len <= self.contents().len(),
        ensures
            r.0@ + r.1@ == self.contents().subrange(start as int, start + len),
            r.0@.len() == (if start >= self.wrap() {
                len as nat
            } else if len <= self.wrap() - start {
                len as nat
            } else {
                (self.wrap() - start) as nat
            }),
    {
        let n = self.buffer.len();
        let phys = if n < self.cap {
            start
        } else if start < self.cap - self.cursor {
            self.cursor + start
        } else {
            start - (self.cap - self.cursor)
        };
        let first = if len <= n - phys {
            len
        } else {
            n - phys
        };
        let mut a: Vec<T> = Vec::new();
        let mut b: Vec<T> = Vec::new();
        for i in 0..first
            invariant
                n == self.buffer@.len(),
                phys + first <= n,
                a@ == self.buffer@.subrange(phys as int, phys + i),
        {
            a.push(self.buffer[phys + i]);
            assert(a@ =~= self.buffer@.subrange(phys as int, phys + i + 1));
        }
        let rest = len - first;
        for i in 0..rest
            invariant
                n == self.buffer@.len(),
                rest <= n,
                b@ == self.buffer@.subrange(0, i as int),
        {
            b.push(self.buffer[i]);
            assert(b@ =~= self.buffer@.subrange(0, i + 1));
        }
        assert(a@ + b@ =~= self.contents().subrange(start as int, start + len));
        (a, b)
    }
}

} // verus!
