//! The process-global entry points, modelled for one thread: a heap
//! handle, the cached-pointer fast path, the guard against recursive
//! allocation while thread-local state is being set up, and the queue of
//! frees deferred to the reclaimer.
//!
//! While the guard flag is set, allocations bypass the size classes and
//! go straight to the large path, and frees of creek pointers are parked
//! on the reclaim queue instead of touching the per-thread caches; the
//! reclaimer drains that queue later. This breaks the recursion where
//! registering thread-local destructors itself allocates.

use vstd::prelude::*;
use crate::general::DynamicAllocator;
use crate::layout::{CREEK_END, HEADER_SIZE, spec_align_of, spec_round_page};

verus! {

/// One thread's view of the process-global allocator.
pub struct GlobalAllocator {
    heap: DynamicAllocator,
    ptr_cached: bool,
    initializing: bool,
    reclaim: Vec<usize>,
}

impl GlobalAllocator {
    /// The underlying heap.
    pub closed spec fn heap_view(self) -> DynamicAllocator {
        self.heap
    }

    /// Frees parked for the reclaimer: already surrendered by the
    /// caller, not yet returned to the heap.
    pub closed spec fn pending(self) -> Seq<usize> {
        self.reclaim@
    }

    /// The recursion guard is set.
    pub closed spec fn in_init(self) -> bool {
        self.initializing
    }

    /// A per-thread handle has been set up and cached: the fast path
    /// dispatches straight to the heap.
    pub closed spec fn handle_cached(self) -> bool {
        self.ptr_cached
    }

    /// The heap is well-formed and every parked free is still a live
    /// heap block, each parked once.
    pub closed spec fn wf(self) -> bool {
        &&& self.heap.wf()
        &&& forall|k: int|
            0 <= k < self.reclaim@.len() ==> self.heap.is_live(#[trigger] self.reclaim@[k])
        &&& forall|k1: int, k2: int|
            0 <= k1 < k2 < self.reclaim@.len() ==> self.reclaim@[k1] != self.reclaim@[k2]
    }

    /// Live to the caller: live in the heap and not surrendered to the
    /// reclaimer.
    pub open spec fn is_live(self, p: usize) -> bool {
        self.heap_view().is_live(p) && !self.pending().contains(p)
    }

    /// Bytes of the block at `p`.
    pub open spec fn data_at(self, p: usize) -> Seq<u8> {
        self.heap_view().data_at(p)
    }

    /// Granted length of the block at `p`.
    pub open spec fn granted(self, p: usize) -> int {
        self.heap_view().granted(p)
    }

    /// Every address outside `ps` keeps its liveness and bytes.
    pub open spec fn same_view_except(self, other: Self, ps: Set<usize>) -> bool {
        forall|p: usize|
            !ps.contains(p) ==> (self.is_live(p) <==> #[trigger] other.is_live(p))
                && (self.is_live(p) ==> other.data_at(p) == self.data_at(p))
    }

    /// A fresh global allocator: nothing live, guard clear, queue empty.
    pub fn new() -> (r: Self)
        ensures
            r.wf(),
            forall|p: usize| !r.is_live(p),
            !r.in_init(),
            !r.handle_cached(),
            r.pending().len() == 0,
            r.heap_view().large_cursor() == CREEK_END,
    {
        GlobalAllocator {
            heap: DynamicAllocator::new(),
            ptr_cached: false,
            initializing: false,
            reclaim: Vec::new(),
        }
    }

    /// Raise the recursion guard, as the entry points do around
    /// thread-local setup.
    pub fn init_begin(&mut self)
        requires
            old(self).wf(),
        ensures
            final(self).wf(),
            final(self).in_init(),
            final(self).handle_cached() == old(self).handle_cached(),
            final(self).heap_view() == old(self).heap_view(),
            final(self).pending() == old(self).pending(),
    {
        self.initializing = true;
    }

    /// Clear the recursion guard.
    pub fn init_end(&mut self)
        requires
            old(self).wf(),
        ensures
            final(self).wf(),
            !final(self).in_init(),
            final(self).handle_cached() == old(self).handle_cached(),
            final(self).heap_view() == old(self).heap_view(),
            final(self).pending() == old(self).pending(),
    {
        self.initializing = false;
    }

    /// Whether an allocation entry point is being re-entered during
    /// thread-local setup.
    pub fn is_initializing(&self) -> (r: bool)
        ensures
            r == self.in_init(),
    {
        self.initializing
    }

    /// Allocate `n` bytes. With a cached handle, or after setting one
    /// up, this is the heap's allocation; under the recursion guard it
    /// bypasses the size classes and maps a large block directly,
    /// whatever the size.
    pub fn allocate(&mut self, n: usize) -> (r: usize)
        requires
            old(self).wf(),
        ensures
            final(self).wf(),
            final(self).in_init() == old(self).in_init(),
            final(self).handle_cached() == (old(self).handle_cached() || !old(self).in_init()),
            final(self).pending() == old(self).pending(),
            old(self).heap_view().can_alloc_large(n) ==> r != 0,
            old(self).in_init() && !old(self).handle_cached() && r != 0 ==> r > CREEK_END && r
                % HEADER_SIZE == 0,
            old(self).heap_view().large_cursor() <= final(self).heap_view().large_cursor() <= old(
                self,
            ).heap_view().large_cursor() + HEADER_SIZE + spec_round_page(n as int),
            r == 0 ==> old(self).same_view_except(*final(self), Set::empty()),
            r != 0 ==> {
                &&& final(self).is_live(r)
                &&& !old(self).is_live(r)
                &&& old(self).same_view_except(*final(self), set![r])
                &&& final(self).granted(r) >= n
                &&& (r as int) % spec_align_of(n as int) == 0
            },
    {
        let ghost orig = *self;
        let r: usize;
        if self.ptr_cached {
            r = self.heap.allocate(n);
        } else if self.initializing {
            r = self.heap.alloc_large(n);
            proof {
                if r != 0 {
                    crate::layout::lemma_align_of(n as int);
                    crate::layout::lemma_round_page(n as int);
                    crate::layout::lemma_mod_divides(
                        r as int,
                        crate::layout::HEADER_SIZE as int,
                        spec_align_of(n as int),
                    );
                }
            }
        } else {
            self.initializing = true;
            r = self.heap.allocate(n);
            self.ptr_cached = true;
            self.initializing = false;
        }
        proof {
            let fin = *self;
            if r != 0 {
                assert(!orig.heap.is_live(r));
                assert forall|k: int|
                    0 <= k < fin.reclaim@.len() implies fin.heap.is_live(
                    #[trigger] fin.reclaim@[k],
                ) by {
                    assert(orig.heap.is_live(orig.reclaim@[k]));
                    assert(!set![r].contains(orig.reclaim@[k]));
                }
                assert(!orig.pending().contains(r)) by {
                    if orig.pending().contains(r) {
                        let k = choose|k: int|
                            0 <= k < orig.reclaim@.len() && orig.reclaim@[k] == r;
                        assert(orig.heap.is_live(orig.reclaim@[k]));
                    }
                }
                assert forall|p: usize| !set![r].contains(p) implies (orig.is_live(p)
                    <==> #[trigger] fin.is_live(p)) && (orig.is_live(p) ==> fin.data_at(p)
                    == orig.data_at(p)) by {
                    assert(orig.heap.is_live(p) <==> fin.heap.is_live(p));
                }
            } else {
                assert forall|k: int|
                    0 <= k < fin.reclaim@.len() implies fin.heap.is_live(
                    #[trigger] fin.reclaim@[k],
                ) by {
                    assert(orig.heap.is_live(orig.reclaim@[k]));
                    assert(!Set::<usize>::empty().contains(orig.reclaim@[k]));
                }
                assert forall|p: usize| !Set::<usize>::empty().contains(p) implies (orig.is_live(
                    p,
                ) <==> #[trigger] fin.is_live(p)) && (orig.is_live(p) ==> fin.data_at(p)
                    == orig.data_at(p)) by {
                    assert(orig.heap.is_live(p) <==> fin.heap.is_live(p));
                }
            }
        }
        r
    }

    /// Free the block at `p`. With a cached handle this is the heap's
    /// free; under the recursion guard, creek pointers are parked on the
    /// reclaim queue and large pointers are unmapped directly.
    pub fn free(&mut self, p: usize)
        requires
            old(self).wf(),
            old(self).is_live(p),
        ensures
            final(self).wf(),
            !final(self).is_live(p),
            old(self).same_view_except(*final(self), set![p]),
            final(self).in_init() == old(self).in_init(),
            final(self).handle_cached() == (old(self).handle_cached() || !old(self).in_init()),
            final(self).heap_view().large_cursor() == old(self).heap_view().large_cursor(),
    {
        let ghost orig = *self;
        if self.ptr_cached {
            self.heap.free(p);
            proof {
                lemma_global_free_view(orig, *self, p);
            }
        } else if self.initializing {
            if self.heap.contains(p) {
                self.reclaim.push(p);
                proof {
                    let fin = *self;
                    assert forall|k: int|
                        0 <= k < fin.reclaim@.len() implies fin.heap.is_live(
                        #[trigger] fin.reclaim@[k],
                    ) by {
                        if k < orig.reclaim@.len() {
                            assert(orig.heap.is_live(orig.reclaim@[k]));
                        }
                    }
                    assert forall|k1: int, k2: int|
                        0 <= k1 < k2 < fin.reclaim@.len() implies fin.reclaim@[k1]
                        != fin.reclaim@[k2] by {
                        if k2 == fin.reclaim@.len() - 1 {
                            assert(!orig.pending().contains(p));
                            assert(orig.reclaim@[k1] != p);
                        }
                    }
                    assert(fin.pending().contains(p)) by {
                        assert(fin.reclaim@[fin.reclaim@.len() - 1] == p);
                    }
                    assert(!fin.is_live(p));
                    assert forall|q: usize| !set![p].contains(q) implies (orig.is_live(q)
                        <==> #[trigger] fin.is_live(q)) && (orig.is_live(q) ==> fin.data_at(q)
                        == orig.data_at(q)) by {
                        assert(fin.pending().contains(q) <==> orig.pending().contains(q)) by {
                            if fin.pending().contains(q) {
                                let k = choose|k: int|
                                    0 <= k < fin.reclaim@.len() && fin.reclaim@[k] == q;
                                if k == fin.reclaim@.len() - 1 {
                                    assert(q == p);
                                    assert(false);
                                }
                                assert(orig.reclaim@[k] == q);
                            }
                            if orig.pending().contains(q) {
                                let k = choose|k: int|
                                    0 <= k < orig.reclaim@.len() && orig.reclaim@[k] == q;
                                assert(fin.reclaim@[k] == q);
                            }
                        }
                    }
                }
            } else {
                proof {
                    crate::general::lemma_wf_unfold(orig.heap);
                    crate::general::lemma_is_live_cases(orig.heap, p);
                    if orig.heap.creek_live(p) {
                        crate::general::lemma_creek_live_range(orig.heap, p);
                        assert(orig.heap.in_creek(p));
                        assert(false);
                    }
                    assert(orig.heap.large_live(p));
                }
                self.heap.free_large(p);
                proof {
                    lemma_global_free_view(orig, *self, p);
                }
            }
        } else {
            self.initializing = true;
            self.heap.free(p);
            self.ptr_cached = true;
            self.initializing = false;
            proof {
                lemma_global_free_view(orig, *self, p);
            }
        }
    }

    /// Resize the block at `p`, as the heap's realloc; never legal while
    /// the recursion guard is up.
    pub fn realloc(&mut self, p: usize, n: usize) -> (r: usize)
        requires
            old(self).wf(),
            !old(self).in_init(),
            p != 0 ==> old(self).is_live(p),
        ensures
            final(self).wf(),
            !final(self).in_init(),
            final(self).handle_cached(),
            final(self).pending() == old(self).pending(),
            old(self).heap_view().large_cursor() <= final(self).heap_view().large_cursor() <= old(
                self,
            ).heap_view().large_cursor() + HEADER_SIZE + spec_round_page(n as int),
            p == 0 && r == 0 ==> old(self).same_view_except(*final(self), Set::empty()),
            p == 0 && r != 0 ==> final(self).is_live(r) && !old(self).is_live(r) && old(
                self,
            ).same_view_except(*final(self), set![r]) && final(self).granted(r) >= n,
            p != 0 && n == 0 ==> r == 0 && !final(self).is_live(p) && old(
                self,
            ).same_view_except(*final(self), set![p]),
            p != 0 && n > 0 && old(self).granted(p) >= n ==> r == p && final(self).is_live(p)
                && old(self).same_view_except(*final(self), Set::empty()),
            p != 0 && n > 0 && old(self).granted(p) < n ==> {
                &&& (r == 0 ==> old(self).same_view_except(*final(self), Set::empty()))
                &&& (r != 0 ==> {
                    &&& final(self).is_live(r)
                    &&& r != p
                    &&& !old(self).is_live(r)
                    &&& !final(self).is_live(p)
                    &&& final(self).granted(r) >= n
                    &&& final(self).data_at(r).subrange(0, old(self).granted(p)) == old(
                        self,
                    ).data_at(p)
                    &&& old(self).same_view_except(*final(self), set![p, r])
                })
            },
            old(self).heap_view().can_alloc_large(n) && n > 0 ==> r != 0,
    {
        let ghost orig = *self;
        self.initializing = true;
        let r = self.heap.realloc(p, n);
        self.initializing = false;
        self.ptr_cached = true;
        proof {
            let fin = *self;
            assert forall|k: int|
                0 <= k < fin.reclaim@.len() implies fin.heap.is_live(
                #[trigger] fin.reclaim@[k],
            ) by {
                let e = orig.reclaim@[k];
                assert(orig.heap.is_live(e));
                if p != 0 {
                    assert(e != p) by {
                        if e == p {
                            assert(orig.pending().contains(p)) by {
                                assert(orig.reclaim@[k] == p);
                            }
                        }
                    }
                }
                if r != 0 && (p == 0 || (n > 0 && orig.heap.granted(p) < n)) {
                    assert(e != r) by {
                        assert(!orig.heap.is_live(r));
                    }
                }
                if p == 0 {
                    if r == 0 {
                        assert(!Set::<usize>::empty().contains(e));
                    } else {
                        assert(!set![r].contains(e));
                    }
                } else if n == 0 {
                    assert(!set![p].contains(e));
                } else if orig.heap.granted(p) >= n {
                    assert(!Set::<usize>::empty().contains(e));
                } else if r == 0 {
                    assert(!Set::<usize>::empty().contains(e));
                } else {
                    assert(!set![p, r].contains(e));
                }
            }
            if r != 0 && p != 0 && n > 0 && orig.heap.granted(p) < n {
                assert(!fin.pending().contains(r)) by {
                    if fin.pending().contains(r) {
                        let k = choose|k: int| 0 <= k < fin.reclaim@.len() && fin.reclaim@[k] == r;
                        assert(orig.heap.is_live(orig.reclaim@[k]));
                        assert(!orig.heap.is_live(r));
                    }
                }
            }
            if p == 0 && r != 0 {
                assert(!fin.pending().contains(r)) by {
                    if fin.pending().contains(r) {
                        let k = choose|k: int| 0 <= k < fin.reclaim@.len() && fin.reclaim@[k] == r;
                        assert(orig.heap.is_live(orig.reclaim@[k]));
                        assert(!orig.heap.is_live(r));
                    }
                }
            }
            if p != 0 && n > 0 && orig.heap.granted(p) >= n {
                assert(fin.is_live(p)) by {
                    assert(!orig.pending().contains(p));
                }
            }
            // transfer the heap-level frames to the caller's view
            if p == 0 {
                if r == 0 {
                    assert forall|q: usize| !Set::<usize>::empty().contains(q) implies (
                    orig.is_live(q) <==> #[trigger] fin.is_live(q)) && (orig.is_live(q)
                        ==> fin.data_at(q) == orig.data_at(q)) by {
                        assert(orig.heap.is_live(q) <==> fin.heap.is_live(q));
                    }
                    assert(orig.same_view_except(fin, Set::empty()));
                } else {
                    assert forall|q: usize| !set![r].contains(q) implies (orig.is_live(q)
                        <==> #[trigger] fin.is_live(q)) && (orig.is_live(q) ==> fin.data_at(q)
                        == orig.data_at(q)) by {
                        assert(orig.heap.is_live(q) <==> fin.heap.is_live(q));
                    }
                    assert(orig.same_view_except(fin, set![r]));
                    assert(!orig.is_live(r)) by {
                        assert(!orig.heap.is_live(r));
                    }
                }
            } else if n == 0 {
                assert forall|q: usize| !set![p].contains(q) implies (orig.is_live(q)
                    <==> #[trigger] fin.is_live(q)) && (orig.is_live(q) ==> fin.data_at(q)
                    == orig.data_at(q)) by {
                    assert(orig.heap.is_live(q) <==> fin.heap.is_live(q));
                }
                assert(orig.same_view_except(fin, set![p]));
            } else if orig.heap.granted(p) >= n {
                assert forall|q: usize| !Set::<usize>::empty().contains(q) implies (orig.is_live(
                    q,
                ) <==> #[trigger] fin.is_live(q)) && (orig.is_live(q) ==> fin.data_at(q)
                    == orig.data_at(q)) by {
                    assert(orig.heap.is_live(q) <==> fin.heap.is_live(q));
                }
                assert(orig.same_view_except(fin, Set::empty()));
            } else if r == 0 {
                assert forall|q: usize| !Set::<usize>::empty().contains(q) implies (orig.is_live(
                    q,
                ) <==> #[trigger] fin.is_live(q)) && (orig.is_live(q) ==> fin.data_at(q)
                    == orig.data_at(q)) by {
                    assert(orig.heap.is_live(q) <==> fin.heap.is_live(q));
                }
                assert(orig.same_view_except(fin, Set::empty()));
            } else {
                assert forall|q: usize| !set![p, r].contains(q) implies (orig.is_live(q)
                    <==> #[trigger] fin.is_live(q)) && (orig.is_live(q) ==> fin.data_at(q)
                    == orig.data_at(q)) by {
                    assert(!set![p, r].contains(q));
                    assert(orig.heap.is_live(q) <==> fin.heap.is_live(q));
                }
                assert(orig.same_view_except(fin, set![p, r]));
                assert(!orig.is_live(r)) by {
                    assert(!orig.heap.is_live(r));
                }
            }
        }
        r
    }

    /// Drain the reclaim queue: return every parked pointer to the heap,
    /// as the background reclaimer does. The caller-visible view does not
    /// change, since parked pointers were already dead to the caller.
    pub fn drain_reclaim(&mut self)
        requires
            old(self).wf(),
        ensures
            final(self).wf(),
            final(self).pending().len() == 0,
            old(self).same_view_except(*final(self), Set::empty()),
            final(self).in_init() == old(self).in_init(),
            final(self).handle_cached() == old(self).handle_cached(),
            final(self).heap_view().large_cursor() == old(self).heap_view().large_cursor(),
    {
        let ghost orig = *self;
        while self.reclaim.len() > 0
            invariant
                self.wf(),
                orig.same_view_except(*self, Set::empty()),
                self.initializing == orig.initializing,
                self.ptr_cached == orig.ptr_cached,
                self.heap.large_cursor() == orig.heap.large_cursor(),
            decreases self.reclaim@.len(),
        {
            let ghost pre = *self;
            let a = self.reclaim.pop().unwrap();
            let ghost mid = *self;
            proof {
                assert(pre.heap.is_live(a)) by {
                    assert(pre.heap.is_live(pre.reclaim@[pre.reclaim@.len() - 1]));
                }
            }
            self.heap.free(a);
            proof {
                let post = *self;
                assert forall|k: int|
                    0 <= k < post.reclaim@.len() implies post.heap.is_live(
                    #[trigger] post.reclaim@[k],
                ) by {
                    assert(pre.heap.is_live(pre.reclaim@[k]));
                    assert(pre.reclaim@[k] != a) by {
                        assert(pre.reclaim@[k] != pre.reclaim@[pre.reclaim@.len() - 1]);
                    }
                    assert(!set![a].contains(pre.reclaim@[k]));
                }
                assert forall|q: usize| !Set::<usize>::empty().contains(q) implies (orig.is_live(
                    q,
                ) <==> #[trigger] post.is_live(q)) && (orig.is_live(q) ==> post.data_at(q)
                    == orig.data_at(q)) by {
                    assert(pre.is_live(q) <==> orig.is_live(q));
                    assert(orig.is_live(q) ==> pre.data_at(q) == orig.data_at(q));
                    if q == a {
                        assert(pre.pending().contains(q)) by {
                            assert(pre.reclaim@[pre.reclaim@.len() - 1] == q);
                        }
                        assert(!pre.is_live(q));
                        assert(!post.heap.is_live(q));
                        assert(!post.is_live(q));
                    } else {
                        assert(!set![a].contains(q));
                        assert(pre.heap.is_live(q) <==> post.heap.is_live(q));
                        assert(post.pending().contains(q) <==> pre.pending().contains(q)) by {
                            if post.pending().contains(q) {
                                let k = choose|k: int|
                                    0 <= k < post.reclaim@.len() && post.reclaim@[k] == q;
                                assert(pre.reclaim@[k] == q);
                            }
                            if pre.pending().contains(q) {
                                let k = choose|k: int|
                                    0 <= k < pre.reclaim@.len() && pre.reclaim@[k] == q;
                                assert(k != pre.reclaim@.len() - 1);
                                assert(post.reclaim@[k] == q);
                            }
                        }
                    }
                }
            }
        }
    }

    /// Read a byte of the live block at `p`.
    pub fn read(&self, p: usize, off: usize) -> (b: u8)
        requires
            self.wf(),
            self.is_live(p),
            off < self.granted(p),
        ensures
            b == self.data_at(p)[off as int],
    {
        self.heap.read(p, off)
    }

    /// Write a byte of the live block at `p`.
    pub fn write(&mut self, p: usize, off: usize, b: u8)
        requires
            old(self).wf(),
            old(self).is_live(p),
            off < old(self).granted(p),
        ensures
            final(self).wf(),
            final(self).is_live(p),
            final(self).data_at(p) == old(self).data_at(p).update(off as int, b),
            old(self).same_view_except(*final(self), set![p]),
            final(self).in_init() == old(self).in_init(),
            final(self).handle_cached() == old(self).handle_cached(),
            final(self).pending() == old(self).pending(),
            final(self).heap_view().large_cursor() == old(self).heap_view().large_cursor(),
    {
        let ghost orig = *self;
        self.heap.write(p, off, b);
        proof {
            let fin = *self;
            assert forall|k: int|
                0 <= k < fin.reclaim@.len() implies fin.heap.is_live(
                #[trigger] fin.reclaim@[k],
            ) by {
                assert(orig.heap.is_live(orig.reclaim@[k]));
            }
            assert(fin.is_live(p)) by {
                assert(!orig.pending().contains(p));
            }
            assert forall|q: usize| !set![p].contains(q) implies (orig.is_live(q)
                <==> #[trigger] fin.is_live(q)) && (orig.is_live(q) ==> fin.data_at(q)
                == orig.data_at(q)) by {
                assert(orig.heap.is_live(q) <==> fin.heap.is_live(q));
            }
        }
    }
}

/// Transferring a heap-level free to the global view: the caller loses
/// exactly `p`, and the reclaim queue stays sound.
proof fn lemma_global_free_view(orig: GlobalAllocator, fin: GlobalAllocator, p: usize)
    requires
        orig.wf(),
        orig.is_live(p),
        fin.heap_view().wf(),
        !fin.heap_view().is_live(p),
        orig.heap_view().same_view_except(fin.heap_view(), set![p]),
        fin.pending() == orig.pending(),
    ensures
        fin.wf(),
        !fin.is_live(p),
        orig.same_view_except(fin, set![p]),
{
    assert forall|k: int|
        0 <= k < fin.pending().len() implies fin.heap_view().is_live(
        #[trigger] fin.pending()[k],
    ) by {
        let e = orig.pending()[k];
        assert(orig.heap_view().is_live(e));
        assert(e != p) by {
            assert(!orig.pending().contains(p));
        }
        assert(!set![p].contains(e));
    }
    assert forall|q: usize| !set![p].contains(q) implies (orig.is_live(q) <==> #[trigger] fin.is_live(
        q,
    )) && (orig.is_live(q) ==> fin.data_at(q) == orig.data_at(q)) by {
        assert(orig.heap_view().is_live(q) <==> fin.heap_view().is_live(q));
    }
}

} // verus!
