//! Fixed-capacity circular buffer holding the most recent telemetry samples of one GPU.
//!
//! The ring has exactly `WINDOW` slots. `head` is the next write slot and `len`
//! counts the stored samples (saturating at `WINDOW`). Reads return samples
//! oldest-first.

use vstd::prelude::*;

verus! {

/// 60 minutes x 60 seconds x 10 samples/second.
pub const WINDOW: usize = 36000;

/// Circular buffer of samples; once full, every push overwrites the oldest sample.
pub struct MetricRing<T> {
    buf: Vec<Option<T>>,
    /// Index of the next write slot.
    head: usize,
    /// Number of valid samples, at most `WINDOW`.
    len: usize,
}

/// The samples a ring holds after pushing `s` onto a ring holding `old`:
/// `s` is appended, and the oldest sample is dropped when the ring was full.
pub open spec fn ring_after_push<T>(old: Seq<T>, s: T) -> Seq<T> {
    if old.len() < WINDOW {
        old.push(s)
    } else {
        old.drop_first().push(s)
    }
}

/// The last `min(n, held.len())` samples of `held`, oldest first.
pub open spec fn ring_window<T>(held: Seq<T>, n: nat) -> Seq<T> {
    let take = if n < held.len() { n } else { held.len() };
    held.subrange(held.len() - take, held.len() as int)
}

/// The samples a ring holding `held` holds after pushing each of `ss` in order.
pub open spec fn ring_after_pushes<T>(held: Seq<T>, ss: Seq<T>) -> Seq<T>
    decreases ss.len(),
{
    if ss.len() == 0 {
        held
    } else {
        ring_after_push(ring_after_pushes(held, ss.drop_last()), ss.last())
    }
}

/// The last `min(n, ss.len())` items of `ss`.
pub open spec fn latest<T>(ss: Seq<T>, n: nat) -> Seq<T> {
    ss.subrange(if ss.len() > n { ss.len() - n } else { 0 }, ss.len() as int)
}

/// A ring that starts empty holds, after any sequence of pushes, exactly the
/// last `WINDOW` samples pushed, oldest first.
pub proof fn lemma_ring_keeps_latest<T>(ss: Seq<T>)
    ensures
        ring_after_pushes(Seq::<T>::empty(), ss) == latest(ss, WINDOW as nat),
    decreases ss.len(),
{
    if ss.len() > 0 {
        lemma_ring_keeps_latest(ss.drop_last());
        let p = latest(ss.drop_last(), WINDOW as nat);
        if p.len() < WINDOW {
            assert(p.push(ss.last()) =~= latest(ss, WINDOW as nat));
        } else {
            assert(p.drop_first().push(ss.last()) =~= latest(ss, WINDOW as nat));
        }
    } else {
        assert(latest(ss, WINDOW as nat) =~= Seq::<T>::empty());
    }
}

/// After any sequence of pushes onto an empty ring, `window(n)` gives the
/// last `min(n, WINDOW)` samples pushed (fewer if fewer were pushed), oldest
/// first.
pub proof fn lemma_window_of_latest<T>(ss: Seq<T>, n: nat)
    ensures
        ring_window(ring_after_pushes(Seq::<T>::empty(), ss), n)
            == latest(ss, if n < WINDOW { n } else { WINDOW as nat }),
{
    lemma_ring_keeps_latest(ss);
    assert(ring_window(latest(ss, WINDOW as nat), n) =~= latest(ss, if n < WINDOW { n } else { WINDOW as nat }));
}

impl<T> MetricRing<T> {
    /// Physical slot of the `k`-th oldest sample.
    pub closed spec fn slot(&self, k: int) -> int {
        (self.head + WINDOW - self.len + k) % (WINDOW as int)
    }

    /// Well-formedness: the buffer has `WINDOW` slots and every logical
    /// position below `len` holds a sample.
    pub closed spec fn wf(&self) -> bool {
        &&& self.buf@.len() == WINDOW
        &&& self.head < WINDOW
        &&& self.len <= WINDOW
        &&& forall|k: int| 0 <= k < self.len ==> (#[trigger] self.buf@[self.slot(k)]) is Some
    }

    /// The stored samples, oldest first.
    pub closed spec fn view(&self) -> Seq<T> {
        Seq::new(self.len as nat, |k: int| self.buf@[self.slot(k)]->0)
    }

    /// An empty ring with all `WINDOW` slots allocated.
    pub fn new() -> (r: Self)
        ensures
            r.wf(),
            r.view() == Seq::<T>::empty(),
    {
        let mut buf: Vec<Option<T>> = Vec::with_capacity(WINDOW);
        let mut i: usize = 0;
        while i < WINDOW
            invariant
                i <= WINDOW,
                buf@.len() == i,
            decreases WINDOW - i,
        {
            buf.push(None);
            i = i + 1;
        }
        let r = MetricRing { buf, head: 0, len: 0 };
        assert(r.view() =~= Seq::<T>::empty());
        r
    }

    /// Append `sample`; when the ring is full the oldest sample is overwritten.
    pub fn push(&mut self, sample: T)
        requires
            old(self).wf(),
        ensures
            final(self).wf(),
            final(self).view() == ring_after_push(old(self).view(), sample),
    {
        let ghost old_self = *self;
        let h = self.head;
        self.buf.set(h, Some(sample));
        self.head = (h + 1) % WINDOW;
        if self.len < WINDOW {
            self.len = self.len + 1;
        }
        proof {
            let w = WINDOW as int;
            if old_self.len < WINDOW {
                assert forall|k: int| 0 <= k < self.len implies #[trigger] self.buf@[self.slot(k)] is Some by {
                    if k < old_self.len {
                        assert(self.slot(k) == old_self.slot(k));
                        assert(old_self.buf@[old_self.slot(k)] is Some);
                        assert(old_self.slot(k) != h) by {
                            assert(old_self.slot(k) == (h + w - old_self.len + k) % w);
                        }
                    } else {
                        assert(self.slot(k) == h);
                    }
                }
                assert(self.view() =~= old_self.view().push(sample)) by {
                    assert forall|k: int| 0 <= k < self.len implies self.view()[k] == old_self.view().push(sample)[k] by {
                        if k < old_self.len {
                            assert(self.slot(k) == old_self.slot(k));
                            assert(old_self.slot(k) != h);
                        } else {
                            assert(self.slot(k) == h);
                        }
                    }
                }
            } else {
                assert forall|k: int| 0 <= k < self.len implies #[trigger] self.buf@[self.slot(k)] is Some by {
                    if k < w - 1 {
                        assert(self.slot(k) == old_self.slot(k + 1));
                        assert(old_self.buf@[old_self.slot(k + 1)] is Some);
                        assert(old_self.slot(k + 1) != h);
                    } else {
                        assert(self.slot(k) == h);
                    }
                }
                assert(self.view() =~= old_self.view().drop_first().push(sample)) by {
                    assert forall|k: int| 0 <= k < self.len implies self.view()[k] == old_self.view().drop_first().push(sample)[k] by {
                        if k < w - 1 {
                            assert(self.slot(k) == old_self.slot(k + 1));
                            assert(old_self.slot(k + 1) != h);
                        } else {
                            assert(self.slot(k) == h);
                        }
                    }
                }
            }
        }
    }
}

impl<T> Default for MetricRing<T> {
    /// An empty ring.
    fn default() -> (r: Self)
        ensures
            r.wf(),
            r.view() == Seq::<T>::empty(),
    {
        MetricRing::new()
    }
}

impl<T: Clone> MetricRing<T> {
    /// Up to `n` of the most recent samples, oldest first; each is a clone of
    /// the stored sample.
    pub fn window(&self, n: usize) -> (res: Vec<T>)
        requires
            self.wf(),
        ensures
            res@.len() == ring_window(self.view(), n as nat).len(),
            forall|i: int|
                0 <= i < res@.len() ==> cloned(ring_window(self.view(), n as nat)[i], #[trigger] res@[i]),
    {
        let take = if n < self.len { n } else { self.len };
        if take == 0 {
            return Vec::new();
        }
        let oldest = (self.head + WINDOW - self.len) % WINDOW;
        let skip = self.len - take;
        let mut res: Vec<T> = Vec::new();
        let mut i: usize = 0;
        while i < take
            invariant
                self.wf(),
                take <= self.len,
                skip == self.len - take,
                oldest == (self.head + WINDOW - self.len) % (WINDOW as int),
                i <= take,
                res@.len() == i,
                forall|j: int|
                    0 <= j < i ==> cloned(ring_window(self.view(), n as nat)[j], #[trigger] res@[j]),
                take == ring_window(self.view(), n as nat).len(),
            decreases take - i,
        {
            let idx = (oldest + skip + i) % WINDOW;
            proof {
                let w = WINDOW as int;
                assert(idx == self.slot(skip + i));
                assert(self.buf@[self.slot(skip + i)] is Some);
                assert(ring_window(self.view(), n as nat)[i as int] == self.view()[skip + i]);
            }
            match &self.buf[idx] {
                Some(s) => {
                    let c = s.clone();
                    res.push(c);
                },
                None => {
                    proof {
                        assert(false);
                    }
                },
            }
            i = i + 1;
        }
        res
    }
}

} // verus!
