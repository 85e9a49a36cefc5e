//! Per-GPU telemetry rings keyed by gpu_id.
//!
//! A GPU gets a ring on its first sample; its later samples go to the same
//! ring. GPUs are listed in the order they first reported.

use vstd::prelude::*;
use crate::graph::string_views;
use crate::ring::{ring_after_push, ring_window, MetricRing};

verus! {

/// The samples of the entry for `id`.
pub open spec fn held_for<T>(es: Seq<(Seq<char>, Seq<T>)>, id: Seq<char>) -> Option<Seq<T>> {
    if exists|i: int| 0 <= i < es.len() && (#[trigger] es[i]).0 == id {
        Some(es[choose|i: int| 0 <= i < es.len() && (#[trigger] es[i]).0 == id].1)
    } else {
        None
    }
}

proof fn lemma_held_for<T>(es: Seq<(Seq<char>, Seq<T>)>, i: int)
    requires
        0 <= i < es.len(),
        forall|a: int, b: int| 0 <= a < b < es.len() ==> (#[trigger] es[a]).0 != (#[trigger] es[b]).0,
    ensures
        held_for(es, es[i].0) == Some(es[i].1),
{
    let k = choose|k: int| 0 <= k < es.len() && (#[trigger] es[k]).0 == es[i].0;
    if k < i {
        assert(es[k].0 != es[i].0);
    } else if i < k {
        assert(es[i].0 != es[k].0);
    }
}

/// The rings of all GPUs that have reported.
pub struct RingStore<T> {
    rings: Vec<(String, MetricRing<T>)>,
}

impl<T> RingStore<T> {
    /// (gpu_id, held samples) per GPU, in first-report order.
    pub closed spec fn entries(&self) -> Seq<(Seq<char>, Seq<T>)> {
        self.rings@.map_values(|e: (String, MetricRing<T>)| (e.0@, e.1.view()))
    }

    /// The gpu_ids, in first-report order.
    pub open spec fn ids(&self) -> Seq<Seq<char>> {
        self.entries().map_values(|e: (Seq<char>, Seq<T>)| e.0)
    }

    /// The samples held for `id`, if it has reported.
    pub open spec fn ring_of(&self, id: Seq<char>) -> Option<Seq<T>> {
        held_for(self.entries(), id)
    }

    /// Every ring is well formed and holds a sample, and no gpu_id has two
    /// rings.
    pub closed spec fn wf(&self) -> bool {
        &&& forall|i: int| 0 <= i < self.rings@.len() ==> (#[trigger] self.rings@[i]).1.wf()
        &&& forall|i: int| 0 <= i < self.rings@.len() ==> (#[trigger] self.rings@[i]).1.view().len() > 0
        &&& self.ids().no_duplicates()
    }

    proof fn lemma_ring_of(&self, i: int)
        requires
            self.wf(),
            0 <= i < self.entries().len(),
        ensures
            self.ring_of(self.entries()[i].0) == Some(self.entries()[i].1),
    {
        let es = self.entries();
        assert forall|a: int, b: int| 0 <= a < b < es.len() implies (#[trigger] es[a]).0 != (#[trigger] es[b]).0 by {
            assert(self.ids()[a] == es[a].0);
            assert(self.ids()[b] == es[b].0);
        }
        lemma_held_for(es, i);
    }

    /// No GPU has reported.
    pub fn new() -> (s: Self)
        ensures
            s.wf(),
            s.ids() == Seq::<Seq<char>>::empty(),
            forall|id: Seq<char>| s.ring_of(id) is None,
    {
        let s = RingStore { rings: Vec::new() };
        assert(s.ids() =~= Seq::<Seq<char>>::empty());
        s
    }

    fn find(&self, gpu_id: &str) -> (r: Option<usize>)
        ensures
            match r {
                Some(i) => i < self.entries().len() && self.entries()[i as int].0 == gpu_id@,
                None => forall|i: int| 0 <= i < self.entries().len() ==> (#[trigger] self.entries()[i]).0 != gpu_id@,
            },
    {
        let key = String::from_str(gpu_id);
        let mut i: usize = 0;
        while i < self.rings.len()
            invariant
                i <= self.rings@.len(),
                key@ == gpu_id@,
                forall|k: int| 0 <= k < i ==> (#[trigger] self.entries()[k]).0 != gpu_id@,
            decreases self.rings@.len() - i,
        {
            if self.rings[i].0 == key {
                return Some(i);
            }
            i = i + 1;
        }
        None
    }

    /// Store `sample` in the ring of `gpu_id`, creating the ring on first
    /// contact.
    pub fn ingest(&mut self, gpu_id: &str, sample: T)
        requires
            old(self).wf(),
        ensures
            final(self).wf(),
            final(self).ring_of(gpu_id@) == Some(ring_after_push(
                match old(self).ring_of(gpu_id@) {
                    Some(h) => h,
                    None => Seq::<T>::empty(),
                },
                sample,
            )),
            forall|id: Seq<char>| id != gpu_id@ ==> #[trigger] final(self).ring_of(id) == old(self).ring_of(id),
            final(self).ids() == (if old(self).ring_of(gpu_id@) is Some { old(self).ids() } else { old(self).ids().push(gpu_id@) }),
    {
        let ghost oe = self.entries();
        match self.find(gpu_id) {
            Some(i) => {
                proof {
                    self.lemma_ring_of(i as int);
                }
                let (id, mut ring) = self.rings.remove(i);
                ring.push(sample);
                self.rings.insert(i, (id, ring));
                proof {
                    let ne = self.entries();
                    assert(ne =~= oe.update(i as int, (gpu_id@, ring.view())));
                    assert(self.ids() =~= old(self).ids());
                    assert forall|k: int| 0 <= k < self.rings@.len() implies (#[trigger] self.rings@[k]).1.wf()
                        && self.rings@[k].1.view().len() > 0 by {
                        if k != i {
                            assert(self.rings@[k] == old(self).rings@[k]);
                        }
                    }
                    self.lemma_ring_of(i as int);
                    assert forall|x: Seq<char>| x != gpu_id@ implies #[trigger] self.ring_of(x) == old(self).ring_of(x) by {
                        if exists|k: int| 0 <= k < oe.len() && (#[trigger] oe[k]).0 == x {
                            let k = choose|k: int| 0 <= k < oe.len() && (#[trigger] oe[k]).0 == x;
                            old(self).lemma_ring_of(k);
                            assert(ne[k] == oe[k]);
                            self.lemma_ring_of(k);
                        } else {
                            assert forall|k: int| 0 <= k < ne.len() implies (#[trigger] ne[k]).0 != x by {
                                if k != i {
                                    assert(ne[k] == oe[k]);
                                }
                            }
                        }
                    }
                }
            },
            None => {
                let mut ring: MetricRing<T> = MetricRing::new();
                ring.push(sample);
                self.rings.push((String::from_str(gpu_id), ring));
                proof {
                    let ne = self.entries();
                    assert(ne =~= oe.push((gpu_id@, ring.view())));
                    assert(self.ids() =~= old(self).ids().push(gpu_id@));
                    assert(old(self).ring_of(gpu_id@) is None);
                    assert(ring.view() == ring_after_push(Seq::<T>::empty(), sample));
                    assert forall|k: int| 0 <= k < self.rings@.len() implies (#[trigger] self.rings@[k]).1.wf()
                        && self.rings@[k].1.view().len() > 0 by {
                        if k < old(self).rings@.len() {
                            assert(self.rings@[k] == old(self).rings@[k]);
                        }
                    }
                    assert(self.ids().no_duplicates()) by {
                        assert forall|a: int, b: int| 0 <= a < self.ids().len() && 0 <= b < self.ids().len() && a != b
                            implies self.ids()[a] != self.ids()[b] by {
                            if a == oe.len() {
                                assert(self.ids()[b] == oe[b].0);
                            } else if b == oe.len() {
                                assert(self.ids()[a] == oe[a].0);
                            } else {
                                assert(self.ids()[a] == old(self).ids()[a]);
                                assert(self.ids()[b] == old(self).ids()[b]);
                            }
                        }
                    }
                    self.lemma_ring_of(oe.len() as int);
                    assert forall|x: Seq<char>| x != gpu_id@ implies #[trigger] self.ring_of(x) == old(self).ring_of(x) by {
                        if exists|k: int| 0 <= k < oe.len() && (#[trigger] oe[k]).0 == x {
                            let k = choose|k: int| 0 <= k < oe.len() && (#[trigger] oe[k]).0 == x;
                            old(self).lemma_ring_of(k);
                            assert(ne[k] == oe[k]);
                            self.lemma_ring_of(k);
                        } else {
                            assert forall|k: int| 0 <= k < ne.len() implies (#[trigger] ne[k]).0 != x by {
                                if k < oe.len() {
                                    assert(ne[k] == oe[k]);
                                }
                            }
                        }
                    }
                }
            },
        }
    }

    /// The gpu_ids that have reported, in first-report order.
    pub fn gpu_ids(&self) -> (r: Vec<String>)
        ensures
            string_views(r@) == self.ids(),
    {
        let mut r: Vec<String> = Vec::new();
        let mut i: usize = 0;
        while i < self.rings.len()
            invariant
                i <= self.rings@.len(),
                string_views(r@) == self.ids().take(i as int),
            decreases self.rings@.len() - i,
        {
            let id = self.rings[i].0.clone();
            let ghost before = r@;
            r.push(id);
            assert(string_views(r@) =~= string_views(before).push(id@));
            assert(self.ids().take(i + 1) =~= self.ids().take(i as int).push(self.ids()[i as int]));
            i = i + 1;
        }
        assert(self.ids().take(self.rings@.len() as int) =~= self.ids());
        r
    }
}

impl<T: Clone> RingStore<T> {
    /// Up to `n` of the most recent samples of `gpu_id`, oldest first, each a
    /// clone of the stored sample; empty for a GPU that has not reported.
    pub fn window(&self, gpu_id: &str, n: usize) -> (r: Vec<T>)
        requires
            self.wf(),
        ensures
            match self.ring_of(gpu_id@) {
                Some(h) => r@.len() == ring_window(h, n as nat).len()
                    && forall|i: int| 0 <= i < r@.len() ==> cloned(ring_window(h, n as nat)[i], #[trigger] r@[i]),
                None => r@.len() == 0,
            },
    {
        match self.find(gpu_id) {
            Some(i) => {
                proof {
                    self.lemma_ring_of(i as int);
                }
                self.rings[i].1.window(n)
            },
            None => Vec::new(),
        }
    }

    /// The most recent sample of each GPU, in first-report order, each a
    /// clone of the stored sample.
    pub fn latest_samples(&self) -> (r: Vec<T>)
        requires
            self.wf(),
        ensures
            r@.len() == self.ids().len(),
            forall|i: int| 0 <= i < r@.len() ==> cloned(self.entries()[i].1.last(), #[trigger] r@[i]),
    {
        let mut r: Vec<T> = Vec::new();
        let mut i: usize = 0;
        while i < self.rings.len()
            invariant
                self.wf(),
                i <= self.rings@.len(),
                r@.len() == i,
                forall|k: int| 0 <= k < i ==> cloned(self.entries()[k].1.last(), #[trigger] r@[k]),
            decreases self.rings@.len() - i,
        {
            let mut w = self.rings[i].1.window(1);
            proof {
                let h = self.entries()[i as int].1;
                assert(h == self.rings@[i as int].1.view());
                assert(h.len() > 0);
                assert(ring_window(h, 1).len() == 1);
                assert(ring_window(h, 1)[0] == h.last());
            }
            let x = w.remove(0);
            r.push(x);
            i = i + 1;
        }
        assert(self.ids().len() == self.rings@.len());
        r
    }
}

} // verus!
