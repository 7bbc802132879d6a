//! The dynamic allocator: creek-backed slabs behind per-handle magazines,
//! plus the direct-mapped large path.
//!
//! The state of the whole address space is explicit: a table of carved
//! slabs with their slags, the page allocator's free list over that table,
//! one pipe of partially-filled slabs per size class, one front-end
//! magazine per size class for each open handle, and the table of live
//! large mappings. All handles share the back end, so a block allocated
//! through one handle may be freed through any other. The public
//! contracts speak of the allocator through two views: which addresses
//! are live, and what bytes each live block holds.

use vstd::prelude::*;
use vstd::pervasive::VecAdditionalExecFns;
use crate::layout::{
    CREEK_BASE, CREEK_END, CREEK_SLABS, HEADER_SIZE, MAG_CAP, MAX_SIZE, N_CLASSES, SLAB_SIZE,
    USABLE_HINT, class_of, class_size, lemma_align_of, lemma_aligned_sum, lemma_capacity,
    lemma_class_of_fits, lemma_class_size_bounds, lemma_mod_divides, lemma_round_page,
    spec_align_of, spec_capacity, spec_class_of, spec_class_size, spec_round_page,
};
use crate::slag::{
    ObjSt, Slag, SlagState, lemma_count_all, obj_addr, spec_obj_addr, spec_obj_addr_valid,
    spec_obj_of, spec_off_of, spec_slab_of,
};

verus! {

/// A per-class front-end magazine: two bounded batches of cached object
/// addresses. Allocations pop from the front; frees push onto it; the
/// reserve absorbs overflow in either direction.
pub(crate) struct Magazine {
    pub front: Vec<usize>,
    pub reserve: Vec<usize>,
}

/// One live large mapping: a header page recording the total mapped
/// length, then the payload the caller sees.
pub(crate) struct LargeBlock {
    /// Address of the header page; the caller's pointer is one page up.
    pub base: usize,
    /// Total mapped length, header page included.
    pub total: usize,
    /// The size the caller asked for; the header word records
    /// `requested + HEADER_SIZE`.
    pub requested: usize,
    /// The payload bytes.
    pub bytes: Vec<u8>,
}

/// Both batches of a magazine, reserve first: the end of the sequence is
/// the end of the front, where allocations pop and frees push.
pub(crate) open spec fn mag_seq(m: Magazine) -> Seq<usize> {
    m.reserve@ + m.front@
}

/// A dynamic memory allocator over an explicit address-space state.
///
/// `allocate` returns addresses that are nonzero, aligned, fresh, and
/// backed by at least the requested number of bytes; `free` retires
/// them; `realloc` grows them while preserving their bytes. The creek
/// (slab region) serves requests below `MAX_SIZE` through size classes;
/// larger requests map their own block past the creek. `new_handle`
/// opens further handles over the same shared back end, each with its
/// own front-end magazines; liveness belongs to the allocator as a
/// whole, so any handle may free any other handle's blocks.
pub struct DynamicAllocator {
    /// Slags of the slabs carved from the creek so far; index `s` owns
    /// the address range of slab `s`.
    pub(crate) slabs: Vec<Slag>,
    /// Page allocator free list: unassigned slabs ready for reuse.
    pub(crate) free_slabs: Vec<usize>,
    /// Per class, the pipe of its `Active` slabs.
    pub(crate) pipes: Vec<Vec<usize>>,
    /// Per handle, per class, the front-end magazine. Every handle of
    /// the allocator shares the back end above; each owns one row here.
    pub(crate) fronts: Vec<Vec<Magazine>>,
    /// Live large mappings.
    pub(crate) larges: Vec<LargeBlock>,
    /// Next address the large path would map at.
    pub(crate) next_large: usize,
}

impl DynamicAllocator {
    /// Every carved slab has a well-formed slag.
    pub(crate) open spec fn slabs_wf(self) -> bool {
        &&& self.slabs@.len() <= CREEK_SLABS
        &&& forall|s: int| 0 <= s < self.slabs@.len() ==> (#[trigger] self.slabs@[s]).wf()
    }

    /// Pipes list exactly the `Active` slabs of their class, each slab
    /// remembering its position.
    pub(crate) open spec fn pipes_wf(self) -> bool {
        &&& self.pipes@.len() == N_CLASSES
        &&& forall|c: int, k: int|
            0 <= c < N_CLASSES && 0 <= k < self.pipes@[c].len() ==> {
                let s = #[trigger] self.pipes@[c]@[k];
                &&& s < self.slabs@.len()
                &&& self.slabs@[s as int].class == c
                &&& self.slabs@[s as int].state == SlagState::Active
                &&& self.slabs@[s as int].pos == k
            }
        &&& forall|s: int|
            0 <= s < self.slabs@.len() && (#[trigger] self.slabs@[s]).state == SlagState::Active
                ==> {
                &&& self.slabs@[s].pos < self.pipes@[self.slabs@[s].class as int].len()
                &&& self.pipes@[self.slabs@[s].class as int]@[self.slabs@[s].pos as int] == s
            }
    }

    /// The free list holds unassigned slabs, each remembering its
    /// position.
    pub(crate) open spec fn free_wf(self) -> bool {
        forall|k: int|
            0 <= k < self.free_slabs@.len() ==> {
                let s = #[trigger] self.free_slabs@[k];
                &&& s < self.slabs@.len()
                &&& self.slabs@[s as int].state == SlagState::Unassigned
                &&& self.slabs@[s as int].pos == k
            }
    }

    /// Address `p` is a cached object of class `c`.
    pub(crate) open spec fn cached_in_class(self, p: usize, c: int) -> bool {
        let s = spec_slab_of(p as int);
        &&& CREEK_BASE <= p
        &&& 0 <= s < self.slabs@.len()
        &&& self.slabs@[s].state != SlagState::Unassigned
        &&& self.slabs@[s].class == c
        &&& spec_obj_addr_valid(p as int, c)
        &&& self.slabs@[s].st@[spec_obj_of(p as int, c)] == ObjSt::Cached
    }

    /// Every handle's magazines hold bounded batches of cached objects of
    /// their own class, and no object sits in two magazine slots at once,
    /// within or across handles.
    pub(crate) open spec fn fronts_wf(self) -> bool {
        &&& self.fronts@.len() >= 1
        &&& forall|h: int|
            0 <= h < self.fronts@.len() ==> (#[trigger] self.fronts@[h])@.len() == N_CLASSES
        &&& forall|h: int, c: int|
            0 <= h < self.fronts@.len() && 0 <= c < N_CLASSES ==> (#[trigger] (
            self.fronts@[h]@[c])).front@.len() <= MAG_CAP && self.fronts@[h]@[c].reserve@.len()
                <= MAG_CAP
        &&& forall|h: int, c: int, k: int|
            0 <= h < self.fronts@.len() && 0 <= c < N_CLASSES && 0 <= k < mag_seq(
                self.fronts@[h]@[c],
            ).len() ==> self.cached_in_class(#[trigger] mag_seq(self.fronts@[h]@[c])[k], c)
        &&& forall|h: int, c: int, k1: int, k2: int|
            0 <= h < self.fronts@.len() && 0 <= c < N_CLASSES && 0 <= k1 < k2 < mag_seq(
                self.fronts@[h]@[c],
            ).len() ==> #[trigger] mag_seq(self.fronts@[h]@[c])[k1] != #[trigger] mag_seq(
                self.fronts@[h]@[c],
            )[k2]
        &&& forall|h1: int, h2: int, c: int, k1: int, k2: int|
            0 <= h1 < h2 < self.fronts@.len() && 0 <= c < N_CLASSES && 0 <= k1 < mag_seq(
                self.fronts@[h1]@[c],
            ).len() && 0 <= k2 < mag_seq(self.fronts@[h2]@[c]).len() ==> #[trigger] mag_seq(
                self.fronts@[h1]@[c],
            )[k1] != #[trigger] mag_seq(self.fronts@[h2]@[c])[k2]
    }

    /// Large blocks sit past the creek, page-aligned, whole pages, below
    /// the bump cursor, with distinct bases, payload lengths matching.
    pub(crate) open spec fn larges_wf(self) -> bool {
        &&& forall|k: int|
            0 <= k < self.larges@.len() ==> {
                let b = #[trigger] self.larges@[k];
                &&& CREEK_END <= b.base
                &&& b.base % HEADER_SIZE == 0
                &&& b.total % HEADER_SIZE == 0
                &&& HEADER_SIZE <= b.total
                &&& b.base + b.total <= self.next_large
                &&& b.bytes@.len() == b.total - HEADER_SIZE
                &&& b.total == HEADER_SIZE + spec_round_page(b.requested as int)
            }
        &&& forall|k1: int, k2: int|
            0 <= k1 < k2 < self.larges@.len() ==> (#[trigger] self.larges@[k1]).base != (
            #[trigger] self.larges@[k2]).base
        &&& self.next_large % HEADER_SIZE == 0
        &&& CREEK_END <= self.next_large
    }

    /// The allocator's invariant.
    pub closed spec fn wf(self) -> bool {
        &&& self.slabs_wf()
        &&& self.pipes_wf()
        &&& self.free_wf()
        &&& self.fronts_wf()
        &&& self.larges_wf()
    }

    /// Address `p` is a live creek object: its slab is in circulation and
    /// its slot is held by the caller.
    pub(crate) open spec fn creek_live(self, p: usize) -> bool {
        let s = spec_slab_of(p as int);
        &&& CREEK_BASE <= p
        &&& 0 <= s < self.slabs@.len()
        &&& self.slabs@[s].state != SlagState::Unassigned
        &&& spec_obj_addr_valid(p as int, self.slabs@[s].class as int)
        &&& self.slabs@[s].st@[spec_obj_of(p as int, self.slabs@[s].class as int)] == ObjSt::User
    }

    /// Address `p` is the payload address of a live large mapping.
    pub(crate) open spec fn large_live(self, p: usize) -> bool {
        exists|k: int|
            0 <= k < self.larges@.len() && (#[trigger] self.larges@[k]).base + HEADER_SIZE == p
    }

    /// `p` was returned by an allocation and not freed since.
    pub closed spec fn is_live(self, p: usize) -> bool {
        self.creek_live(p) || self.large_live(p)
    }

    /// The bytes of the live block at `p`. Its length is the granted
    /// size: the object size of the class for creek blocks, the payload
    /// length for large blocks.
    pub closed spec fn data_at(self, p: usize) -> Seq<u8> {
        if self.creek_live(p) {
            let s = spec_slab_of(p as int);
            self.slabs@[s].objs@[spec_obj_of(p as int, self.slabs@[s].class as int)]@
        } else {
            let k = choose|k: int|
                0 <= k < self.larges@.len() && (#[trigger] self.larges@[k]).base + HEADER_SIZE
                    == p;
            self.larges@[k].bytes@
        }
    }

    /// Number of bytes backing the live block at `p`.
    pub open spec fn granted(self, p: usize) -> int {
        self.data_at(p).len() as int
    }

    /// The size the large block at `p` was requested with; its header
    /// word records this plus the header page.
    pub closed spec fn large_requested(self, p: usize) -> int {
        let k = choose|k: int|
            0 <= k < self.larges@.len() && (#[trigger] self.larges@[k]).base + HEADER_SIZE == p;
        self.larges@[k].requested as int
    }

    /// `p` lies in the creek: it would be freed through its slab's class
    /// rather than through the large path.
    pub closed spec fn in_creek(self, p: usize) -> bool {
        CREEK_BASE <= p < CREEK_END
    }

    /// Every address outside `ps` has the same liveness and, if live, the
    /// same bytes in `self` and in `other`.
    pub open spec fn same_view_except(self, other: Self, ps: Set<usize>) -> bool {
        forall|p: usize|
            !ps.contains(p) ==> (self.is_live(p) <==> #[trigger] other.is_live(p))
                && (self.is_live(p) ==> other.data_at(p) == self.data_at(p))
    }

    /// The two states present the same liveness and bytes everywhere.
    pub open spec fn same_view(self, other: Self) -> bool {
        self.same_view_except(other, Set::empty())
    }

    /// Every address outside `ps` is cached the same way in both states.
    pub(crate) open spec fn same_cached_except(self, other: Self, ps: Set<usize>) -> bool {
        forall|p: usize, c: int|
            !ps.contains(p) ==> (self.cached_in_class(p, c) <==> #[trigger] other.cached_in_class(
                p,
                c,
            ))
    }
}

/// A valid object address of class `c` re-encodes from its decoded slab
/// and slot.
pub(crate) proof fn lemma_decode_encode(p: int, c: int)
    requires
        CREEK_BASE <= p,
        0 <= c < N_CLASSES,
        spec_obj_addr_valid(p, c),
    ensures
        0 <= spec_slab_of(p),
        0 <= spec_obj_of(p, c),
        p == spec_obj_addr(spec_slab_of(p), c, spec_obj_of(p, c)),
{
    crate::layout::lemma_class_size_bounds(c);
    let z = spec_class_size(c);
    let d = p - CREEK_BASE;
    vstd::arithmetic::div_mod::lemma_fundamental_div_mod(d, SLAB_SIZE as int);
    vstd::arithmetic::div_mod::lemma_mod_bound(d, SLAB_SIZE as int);
    vstd::arithmetic::div_mod::lemma_div_pos_is_pos(d, SLAB_SIZE as int);
    let s = spec_slab_of(p);
    let off = spec_off_of(p);
    assert(d == SLAB_SIZE * s + off);
    let e = off - HEADER_SIZE;
    vstd::arithmetic::div_mod::lemma_fundamental_div_mod(e, z);
    vstd::arithmetic::div_mod::lemma_div_pos_is_pos(e, z);
    assert(e == z * (e / z) + e % z);
    assert(e % z == 0);
    let i = spec_obj_of(p, c);
    assert(e == z * i);
    assert(p == CREEK_BASE + s * SLAB_SIZE + HEADER_SIZE + i * z) by (nonlinear_arith)
        requires
            d == SLAB_SIZE * s + off,
            e == off - HEADER_SIZE,
            e == z * i,
            d == p - CREEK_BASE,
    {}
}

/// Creek-live addresses lie inside the creek.
pub(crate) proof fn lemma_creek_live_range(a: DynamicAllocator, p: usize)
    requires
        a.slabs_wf(),
        a.creek_live(p) || (exists|c: int|
            0 <= c < N_CLASSES && #[trigger] a.cached_in_class(p, c)),
    ensures
        CREEK_BASE <= p < CREEK_END,
{
    let s = spec_slab_of(p as int);
    let c = a.slabs@[s].class as int;
    assert(a.slabs@[s].wf());
    lemma_decode_encode(p as int, c);
    crate::slag::lemma_addr_roundtrip(s, c, spec_obj_of(p as int, c));
}

/// In a slab whose slots are all free, no address is live or cached.
proof fn lemma_all_free_not_held(x: DynamicAllocator, p: usize)
    requires
        ({
            let t = spec_slab_of(p as int);
            (CREEK_BASE <= p && 0 <= t < x.slabs@.len() && x.slabs@[t].state
                != SlagState::Unassigned) ==> {
                &&& x.slabs@[t].wf()
                &&& forall|j: int|
                    0 <= j < x.slabs@[t].st@.len() ==> #[trigger] x.slabs@[t].st@[j] == ObjSt::Free
            }
        }),
    ensures
        !x.creek_live(p),
        forall|cc: int| !#[trigger] x.cached_in_class(p, cc),
{
    let t = spec_slab_of(p as int);
    if CREEK_BASE <= p && 0 <= t < x.slabs@.len() && x.slabs@[t].state != SlagState::Unassigned {
        let c = x.slabs@[t].class as int;
        if spec_obj_addr_valid(p as int, c) {
            lemma_decode_encode(p as int, c);
            assert(x.slabs@[t].st@[spec_obj_of(p as int, c)] == ObjSt::Free);
        }
        assert(!x.creek_live(p));
        assert forall|cc: int| !#[trigger] x.cached_in_class(p, cc) by {
            if x.cached_in_class(p, cc) {
                assert(cc == c);
            }
        }
    }
}

/// Frame for a change confined to slot `i` of slab `s`: the view and the
/// cached map agree everywhere but at that slot's address.
pub(crate) proof fn lemma_frame_slot(a: DynamicAllocator, b: DynamicAllocator, s: int, i: int)
    requires
        b.larges@ == a.larges@,
        b.slabs@.len() == a.slabs@.len(),
        a.slabs@.len() <= CREEK_SLABS,
        0 <= s < a.slabs@.len(),
        forall|t: int| 0 <= t < a.slabs@.len() && t != s ==> b.slabs@[t] == a.slabs@[t],
        a.slabs@[s].wf(),
        b.slabs@[s].wf(),
        a.slabs@[s].state != SlagState::Unassigned,
        b.slabs@[s].state != SlagState::Unassigned,
        b.slabs@[s].class == a.slabs@[s].class,
        0 <= i < spec_capacity(a.slabs@[s].class as int),
        forall|j: int|
            0 <= j < spec_capacity(a.slabs@[s].class as int) && j != i ==> b.slabs@[s].st@[j]
                == a.slabs@[s].st@[j],
        forall|j: int|
            0 <= j < spec_capacity(a.slabs@[s].class as int) && j != i ==> b.slabs@[s].objs@[j]
                == a.slabs@[s].objs@[j],
    ensures
        a.same_view_except(b, set![spec_obj_addr(s, a.slabs@[s].class as int, i) as usize]),
        a.same_cached_except(b, set![spec_obj_addr(s, a.slabs@[s].class as int, i) as usize]),
{
    let c = a.slabs@[s].class as int;
    let q = spec_obj_addr(s, c, i);
    crate::slag::lemma_addr_roundtrip(s, c, i);
    assert forall|p: usize| !set![q as usize].contains(p) implies (a.is_live(p)
        <==> #[trigger] b.is_live(p)) && (a.is_live(p) ==> b.data_at(p) == a.data_at(p)) by {
        assert(p != q);
        let t = spec_slab_of(p as int);
        if CREEK_BASE <= p && 0 <= t < a.slabs@.len() {
            if t != s {
                assert(b.slabs@[t] == a.slabs@[t]);
            } else if spec_obj_addr_valid(p as int, c) {
                lemma_decode_encode(p as int, c);
                assert(spec_obj_of(p as int, c) != i);
            }
        }
        assert(a.creek_live(p) <==> b.creek_live(p));
        assert(a.large_live(p) <==> b.large_live(p));
        if a.is_live(p) {
            assert(b.data_at(p) == a.data_at(p));
        }
    }
    assert forall|p: usize, cc: int| !set![q as usize].contains(p) implies (a.cached_in_class(
        p,
        cc,
    ) <==> #[trigger] b.cached_in_class(p, cc)) by {
        assert(p != q);
        let t = spec_slab_of(p as int);
        if CREEK_BASE <= p && 0 <= t < a.slabs@.len() {
            if t != s {
                assert(b.slabs@[t] == a.slabs@[t]);
            } else if spec_obj_addr_valid(p as int, c) {
                lemma_decode_encode(p as int, c);
                assert(spec_obj_of(p as int, c) != i);
            }
        }
    }
}

/// Frame for replacing slab `s` wholesale, when neither the old nor the
/// new slag holds caller-held or cached slots: nothing observable moves.
pub(crate) proof fn lemma_frame_slab(a: DynamicAllocator, b: DynamicAllocator, s: int)
    requires
        b.larges@ == a.larges@,
        b.slabs@.len() == a.slabs@.len(),
        0 <= s < a.slabs@.len(),
        forall|t: int| 0 <= t < a.slabs@.len() && t != s ==> b.slabs@[t] == a.slabs@[t],
        a.slabs@[s].state != SlagState::Unassigned ==> a.slabs@[s].wf() && forall|j: int|
            0 <= j < a.slabs@[s].st@.len() ==> #[trigger] a.slabs@[s].st@[j] == ObjSt::Free,
        b.slabs@[s].state != SlagState::Unassigned ==> b.slabs@[s].wf() && forall|j: int|
            0 <= j < b.slabs@[s].st@.len() ==> #[trigger] b.slabs@[s].st@[j] == ObjSt::Free,
    ensures
        a.same_view(b),
        a.same_cached_except(b, Set::empty()),
{
    assert forall|p: usize| !Set::<usize>::empty().contains(p) implies (a.is_live(p)
        <==> #[trigger] b.is_live(p)) && (a.is_live(p) ==> b.data_at(p) == a.data_at(p)) by {
        let t = spec_slab_of(p as int);
        if CREEK_BASE <= p && 0 <= t < a.slabs@.len() {
            if t != s {
                assert(b.slabs@[t] == a.slabs@[t]);
            } else {
                lemma_all_free_not_held(a, p);
                lemma_all_free_not_held(b, p);
            }
        }
        assert(a.large_live(p) <==> b.large_live(p));
        if a.is_live(p) {
            assert(b.data_at(p) == a.data_at(p));
        }
    }
    assert forall|p: usize, cc: int| !Set::<usize>::empty().contains(p) implies (a.cached_in_class(
        p,
        cc,
    ) <==> #[trigger] b.cached_in_class(p, cc)) by {
        let t = spec_slab_of(p as int);
        if CREEK_BASE <= p && 0 <= t < a.slabs@.len() {
            if t != s {
                assert(b.slabs@[t] == a.slabs@[t]);
            } else {
                lemma_all_free_not_held(a, p);
                lemma_all_free_not_held(b, p);
            }
        }
    }
}

/// Frame for carving: appending a slab whose slots are all free does not
/// move the view.
pub(crate) proof fn lemma_frame_push_slab(a: DynamicAllocator, b: DynamicAllocator)
    requires
        b.larges@ == a.larges@,
        b.slabs@.len() == a.slabs@.len() + 1,
        forall|t: int| 0 <= t < a.slabs@.len() ==> b.slabs@[t] == a.slabs@[t],
        b.slabs@.last().state != SlagState::Unassigned ==> b.slabs@.last().wf() && forall|j: int|
            0 <= j < b.slabs@.last().st@.len() ==> #[trigger] b.slabs@.last().st@[j]
                == ObjSt::Free,
    ensures
        a.same_view(b),
        a.same_cached_except(b, Set::empty()),
{
    let n = a.slabs@.len() as int;
    assert forall|p: usize| !Set::<usize>::empty().contains(p) implies (a.is_live(p)
        <==> #[trigger] b.is_live(p)) && (a.is_live(p) ==> b.data_at(p) == a.data_at(p)) by {
        let t = spec_slab_of(p as int);
        if CREEK_BASE <= p && 0 <= t < n {
            assert(b.slabs@[t] == a.slabs@[t]);
        } else if CREEK_BASE <= p && t == n {
            assert(b.slabs@[t] == b.slabs@.last());
            lemma_all_free_not_held(b, p);
            assert(!a.creek_live(p));
        }
        assert(a.large_live(p) <==> b.large_live(p));
        if a.is_live(p) {
            assert(b.data_at(p) == a.data_at(p));
        }
    }
    assert forall|p: usize, cc: int| !Set::<usize>::empty().contains(p) implies (a.cached_in_class(
        p,
        cc,
    ) <==> #[trigger] b.cached_in_class(p, cc)) by {
        let t = spec_slab_of(p as int);
        if CREEK_BASE <= p && 0 <= t < n {
            assert(b.slabs@[t] == a.slabs@[t]);
        } else if CREEK_BASE <= p && t == n {
            assert(b.slabs@[t] == b.slabs@.last());
            lemma_all_free_not_held(b, p);
            assert(!a.cached_in_class(p, cc));
        }
    }
}

/// Frame for mapping a new large block at the bump cursor: the view gains
/// exactly the new payload address.
pub(crate) proof fn lemma_frame_large_push(a: DynamicAllocator, b: DynamicAllocator)
    requires
        b.slabs@ == a.slabs@,
        a.slabs_wf(),
        a.larges_wf(),
        b.larges@.len() == a.larges@.len() + 1,
        forall|k: int| 0 <= k < a.larges@.len() ==> b.larges@[k] == a.larges@[k],
        b.larges@.last().base >= a.next_large,
        b.larges@.last().base >= CREEK_END,
        b.larges@.last().base + HEADER_SIZE <= usize::MAX,
    ensures
        forall|p: usize|
            p != b.larges@.last().base + HEADER_SIZE ==> (a.is_live(p) <==> #[trigger] b.is_live(
                p,
            )) && (a.is_live(p) ==> b.data_at(p) == a.data_at(p)),
        a.same_cached_except(b, Set::empty()),
        !a.is_live((b.larges@.last().base + HEADER_SIZE) as usize),
        b.is_live((b.larges@.last().base + HEADER_SIZE) as usize),
        b.data_at((b.larges@.last().base + HEADER_SIZE) as usize) == b.larges@.last().bytes@,
        b.large_requested((b.larges@.last().base + HEADER_SIZE) as usize)
            == b.larges@.last().requested,
{
    let n = a.larges@.len() as int;
    let q = (b.larges@.last().base + HEADER_SIZE) as usize;
    assert(b.larges@.last().base + HEADER_SIZE == q);
    assert forall|p: usize| p != q implies (a.is_live(p) <==> #[trigger] b.is_live(p)) && (
    a.is_live(p) ==> b.data_at(p) == a.data_at(p)) by {
        assert(a.creek_live(p) <==> b.creek_live(p));
        if b.large_live(p) {
            let k = choose|k: int|
                0 <= k < b.larges@.len() && (#[trigger] b.larges@[k]).base + HEADER_SIZE == p;
            assert(k < n);
            assert(a.larges@[k].base + HEADER_SIZE == p);
            assert(a.large_live(p));
        }
        if a.large_live(p) {
            let k = choose|k: int|
                0 <= k < a.larges@.len() && (#[trigger] a.larges@[k]).base + HEADER_SIZE == p;
            assert(b.larges@[k] == a.larges@[k]);
            assert(b.large_live(p));
        }
        if a.is_live(p) && !a.creek_live(p) {
            let ka = choose|k: int|
                0 <= k < a.larges@.len() && (#[trigger] a.larges@[k]).base + HEADER_SIZE == p;
            let kb = choose|k: int|
                0 <= k < b.larges@.len() && (#[trigger] b.larges@[k]).base + HEADER_SIZE == p;
            if kb == n {
                assert(b.larges@[kb].base == a.larges@[ka].base);
                assert(a.larges@[ka].base + a.larges@[ka].total <= a.next_large);
                assert(false);
            }
            assert(b.larges@[kb] == a.larges@[kb]);
            if ka != kb {
                assert(a.larges@[ka].base == a.larges@[kb].base);
                assert(false);
            }
        }
    }
    assert forall|p: usize, cc: int| !Set::<usize>::empty().contains(p) implies (a.cached_in_class(
        p,
        cc,
    ) <==> #[trigger] b.cached_in_class(p, cc)) by {}
    assert(!a.creek_live(q)) by {
        if a.creek_live(q) {
            lemma_creek_live_range(a, q);
        }
    }
    assert(!a.large_live(q)) by {
        if a.large_live(q) {
            let k = choose|k: int|
                0 <= k < a.larges@.len() && (#[trigger] a.larges@[k]).base + HEADER_SIZE == q;
            assert(a.larges@[k].base + a.larges@[k].total <= a.next_large);
            assert(a.larges@[k].base == b.larges@.last().base);
            assert(false);
        }
    }
    assert(b.large_live(q)) by {
        assert(b.larges@[n].base + HEADER_SIZE == q);
    }
    assert(!b.creek_live(q)) by {
        if b.creek_live(q) {
            assert(a.creek_live(q));
            lemma_creek_live_range(a, q);
        }
    }
    let kb = choose|k: int|
        0 <= k < b.larges@.len() && (#[trigger] b.larges@[k]).base + HEADER_SIZE == q;
    if kb != n {
        assert(b.larges@[kb] == a.larges@[kb]);
        assert(a.larges@[kb].base + a.larges@[kb].total <= a.next_large);
        assert(false);
    }
}

/// Frame for unmapping the large block at table index `k`: the view loses
/// exactly its payload address.
pub(crate) proof fn lemma_frame_large_remove(a: DynamicAllocator, b: DynamicAllocator, k: int)
    requires
        b.slabs@ == a.slabs@,
        a.slabs_wf(),
        a.larges_wf(),
        0 <= k < a.larges@.len(),
        b.larges@ == a.larges@.update(k, a.larges@.last()).drop_last(),
    ensures
        forall|p: usize|
            p != a.larges@[k].base + HEADER_SIZE ==> (a.is_live(p) <==> #[trigger] b.is_live(p))
                && (a.is_live(p) ==> b.data_at(p) == a.data_at(p)),
        a.same_cached_except(b, Set::empty()),
        !b.is_live((a.larges@[k].base + HEADER_SIZE) as usize),
{
    let n = a.larges@.len() as int;
    let q = (a.larges@[k].base + HEADER_SIZE) as usize;
    assert(a.larges@[k].base + HEADER_SIZE == q);
    assert forall|p: usize| p != q implies (a.is_live(p) <==> #[trigger] b.is_live(p)) && (
    a.is_live(p) ==> b.data_at(p) == a.data_at(p)) by {
        assert(a.creek_live(p) <==> b.creek_live(p));
        if a.large_live(p) {
            let ka = choose|j: int|
                0 <= j < a.larges@.len() && (#[trigger] a.larges@[j]).base + HEADER_SIZE == p;
            assert(ka != k) by {
                if ka == k {
                    assert(a.larges@[ka].base + HEADER_SIZE == q);
                }
            }
            if ka == n - 1 {
                assert(k < n - 1);
                assert(b.larges@[k] == a.larges@[n - 1]);
                assert(b.large_live(p));
            } else {
                assert(b.larges@[ka] == a.larges@[ka]);
                assert(b.large_live(p));
            }
        }
        if b.large_live(p) {
            let kb = choose|j: int|
                0 <= j < b.larges@.len() && (#[trigger] b.larges@[j]).base + HEADER_SIZE == p;
            if kb == k && k < n - 1 {
                assert(b.larges@[kb] == a.larges@[n - 1]);
                assert(a.large_live(p));
            } else {
                assert(b.larges@[kb] == a.larges@[kb]);
                assert(a.large_live(p));
            }
        }
        if a.is_live(p) && !a.creek_live(p) {
            let ka = choose|j: int|
                0 <= j < a.larges@.len() && (#[trigger] a.larges@[j]).base + HEADER_SIZE == p;
            let kb = choose|j: int|
                0 <= j < b.larges@.len() && (#[trigger] b.larges@[j]).base + HEADER_SIZE == p;
            let orig = if kb == k && k < n - 1 {
                n - 1
            } else {
                kb
            };
            assert(b.larges@[kb] == a.larges@[orig]);
            assert(a.larges@[orig].base == a.larges@[ka].base);
            if orig != ka {
                assert(false);
            }
            assert(b.data_at(p) == b.larges@[kb].bytes@);
            assert(a.data_at(p) == a.larges@[ka].bytes@);
        }
    }
    assert forall|p: usize, cc: int| !Set::<usize>::empty().contains(p) implies (a.cached_in_class(
        p,
        cc,
    ) <==> #[trigger] b.cached_in_class(p, cc)) by {}
    assert(!b.large_live(q)) by {
        if b.large_live(q) {
            let kb = choose|j: int|
                0 <= j < b.larges@.len() && (#[trigger] b.larges@[j]).base + HEADER_SIZE == q;
            let orig = if kb == k && k < n - 1 {
                n - 1
            } else {
                kb
            };
            assert(b.larges@[kb] == a.larges@[orig]);
            assert(a.larges@[orig].base == a.larges@[k].base);
            if orig != k {
                assert(false);
            } else {
                assert(k == n - 1 && kb < n - 1);
                assert(b.larges@[kb] == a.larges@[kb]);
                assert(false);
            }
        }
    }
    if b.creek_live(q) {
        assert(a.creek_live(q));
        assert(a.large_live(q));
        lemma_large_creek_disjoint(a, q);
    }
}

/// A live large payload address is never creek-live.
pub(crate) proof fn lemma_large_creek_disjoint(a: DynamicAllocator, p: usize)
    requires
        a.larges_wf(),
        a.slabs_wf(),
        a.large_live(p),
    ensures
        !a.creek_live(p),
{
    if a.creek_live(p) {
        lemma_creek_live_range(a, p);
        let k = choose|j: int|
            0 <= j < a.larges@.len() && (#[trigger] a.larges@[j]).base + HEADER_SIZE == p;
        assert(a.larges@[k].base >= CREEK_END);
    }
}

impl DynamicAllocator {
    /// A fresh allocator: nothing carved, nothing mapped, nothing live.
    pub fn new() -> (r: Self)
        ensures
            r.wf(),
            forall|p: usize| !r.is_live(p),
            r.large_cursor() == CREEK_END,
            r.n_handles() == 1,
    {
        let mut pipes: Vec<Vec<usize>> = Vec::new();
        let mut row: Vec<Magazine> = Vec::new();
        let mut c: usize = 0;
        while c < N_CLASSES
            invariant
                pipes@.len() == c,
                row@.len() == c,
                c <= N_CLASSES,
                forall|j: int| 0 <= j < c ==> (#[trigger] pipes@[j])@.len() == 0,
                forall|j: int|
                    0 <= j < c ==> (#[trigger] row@[j]).front@.len() == 0 && row@[j].reserve@.len()
                        == 0,
            decreases N_CLASSES - c,
        {
            pipes.push(Vec::new());
            row.push(Magazine { front: Vec::new(), reserve: Vec::new() });
            c = c + 1;
        }
        let mut fronts: Vec<Vec<Magazine>> = Vec::new();
        fronts.push(row);
        let r = DynamicAllocator {
            slabs: Vec::new(),
            free_slabs: Vec::new(),
            pipes,
            fronts,
            larges: Vec::new(),
            next_large: CREEK_END,
        };
        proof {
            assert forall|p: usize| !r.is_live(p) by {
                assert(!r.creek_live(p));
                assert(!r.large_live(p));
            }
            assert forall|h0: int, c0: int, k: int|
                0 <= h0 < r.fronts@.len() && 0 <= c0 < N_CLASSES && 0 <= k < mag_seq(r.fronts@[h0]@[c0]).len() implies r.cached_in_class(
                #[trigger] mag_seq(r.fronts@[h0]@[c0])[k],
                c0,
            ) by {
                assert(mag_seq(r.fronts@[h0]@[c0]).len() == 0);
            }
        }
        r
    }
}



/// Frame for changes that leave every slab's class, slot states and
/// object bytes alone (state word, positions, stacks and high-water marks
/// may move, as may anything outside the slab table): the view and the
/// cached map do not move at all.
pub(crate) proof fn lemma_frame_meta(a: DynamicAllocator, b: DynamicAllocator)
    requires
        b.larges@ == a.larges@,
        b.slabs@.len() == a.slabs@.len(),
        forall|t: int|
            0 <= t < a.slabs@.len() ==> {
                &&& ((#[trigger] b.slabs@[t]).state == SlagState::Unassigned <==> a.slabs@[t].state
                    == SlagState::Unassigned)
                &&& b.slabs@[t].class == a.slabs@[t].class
                &&& b.slabs@[t].st == a.slabs@[t].st
                &&& b.slabs@[t].objs == a.slabs@[t].objs
            },
    ensures
        a.same_view(b),
        a.same_cached_except(b, Set::empty()),
{
    assert forall|p: usize| !Set::<usize>::empty().contains(p) implies (a.is_live(p)
        <==> #[trigger] b.is_live(p)) && (a.is_live(p) ==> b.data_at(p) == a.data_at(p)) by {
        let t = spec_slab_of(p as int);
        if CREEK_BASE <= p && 0 <= t < a.slabs@.len() {
            assert(b.slabs@[t].class == a.slabs@[t].class);
        }
        assert(a.creek_live(p) <==> b.creek_live(p));
        assert(a.large_live(p) <==> b.large_live(p));
        if a.is_live(p) {
            assert(b.data_at(p) == a.data_at(p));
        }
    }
    assert forall|p: usize, cc: int| !Set::<usize>::empty().contains(p) implies (a.cached_in_class(
        p,
        cc,
    ) <==> #[trigger] b.cached_in_class(p, cc)) by {
        let t = spec_slab_of(p as int);
        if CREEK_BASE <= p && 0 <= t < a.slabs@.len() {
            assert(b.slabs@[t].class == a.slabs@[t].class);
        }
    }
}

/// Chaining views: agreement except `ps1` then except `ps2` gives
/// agreement except their union.
pub(crate) proof fn lemma_view_trans(
    x: DynamicAllocator,
    y: DynamicAllocator,
    z: DynamicAllocator,
    ps1: Set<usize>,
    ps2: Set<usize>,
)
    requires
        x.same_view_except(y, ps1),
        y.same_view_except(z, ps2),
    ensures
        x.same_view_except(z, ps1.union(ps2)),
{
    assert forall|p: usize| !ps1.union(ps2).contains(p) implies (x.is_live(p)
        <==> #[trigger] z.is_live(p)) && (x.is_live(p) ==> z.data_at(p) == x.data_at(p)) by {
        assert(!ps1.contains(p));
        assert(!ps2.contains(p));
        assert(x.is_live(p) <==> y.is_live(p));
        assert(y.is_live(p) <==> z.is_live(p));
    }
}

/// Chaining cached maps the same way.
pub(crate) proof fn lemma_cached_trans(
    x: DynamicAllocator,
    y: DynamicAllocator,
    z: DynamicAllocator,
    ps1: Set<usize>,
    ps2: Set<usize>,
)
    requires
        x.same_cached_except(y, ps1),
        y.same_cached_except(z, ps2),
    ensures
        x.same_cached_except(z, ps1.union(ps2)),
{
    assert forall|p: usize, c: int| !ps1.union(ps2).contains(p) implies (x.cached_in_class(p, c)
        <==> #[trigger] z.cached_in_class(p, c)) by {
        assert(!ps1.contains(p));
        assert(!ps2.contains(p));
        assert(x.cached_in_class(p, c) <==> y.cached_in_class(p, c));
    }
}

impl DynamicAllocator {
    /// `p` decodes to an object slot of a slab that is in circulation.
    pub(crate) open spec fn creek_addr_ok(self, p: usize) -> bool {
        let s = spec_slab_of(p as int);
        &&& CREEK_BASE <= p
        &&& 0 <= s < self.slabs@.len()
        &&& self.slabs@[s].state != SlagState::Unassigned
        &&& spec_obj_addr_valid(p as int, self.slabs@[s].class as int)
    }

    /// Decode a creek address into its slab index, class, and object
    /// slot.
    pub(crate) fn locate(&self, a: usize) -> (r: (usize, usize, usize))
        requires
            self.slabs_wf(),
            self.creek_addr_ok(a),
        ensures
            r.0 == spec_slab_of(a as int),
            r.1 == self.slabs@[r.0 as int].class,
            r.2 == spec_obj_of(a as int, r.1 as int),
            r.0 < self.slabs@.len(),
            r.1 < N_CLASSES,
            r.2 < spec_capacity(r.1 as int),
            a == spec_obj_addr(r.0 as int, r.1 as int, r.2 as int),
    {
        let s = (a - CREEK_BASE) / SLAB_SIZE;
        proof {
            assert(self.slabs@[s as int].wf());
            lemma_decode_encode(a as int, self.slabs@[s as int].class as int);
        }
        let c = self.slabs[s].class;
        proof {
            lemma_class_size_bounds(c as int);
        }
        let z = class_size(c);
        let off = (a - CREEK_BASE) % SLAB_SIZE;
        let i = (off - HEADER_SIZE) / z;
        (s, c, i)
    }

    /// Get a slab for class `c`: reuse an unassigned slab from the page
    /// allocator's free list, else carve a new one from the creek. The
    /// rebuilt slag joins the class's pipe with every slot free. Fails
    /// only once the creek is exhausted and the free list is empty.
    #[verifier::spinoff_prover]
    pub(crate) fn acquire_slab(&mut self, c: usize) -> (r: Option<usize>)
        requires
            old(self).wf(),
            c < N_CLASSES,
        ensures
            final(self).wf(),
            old(self).same_view(*final(self)),
            old(self).same_cached_except(*final(self), Set::empty()),
            final(self).larges@ == old(self).larges@,
            final(self).next_large == old(self).next_large,
            final(self).fronts@ == old(self).fronts@,
            match r {
                Some(s) => {
                    &&& (s as int) < final(self).slabs@.len()
                    &&& final(self).slabs@[s as int].class == c
                    &&& final(self).slabs@[s as int].state == SlagState::Active
                    &&& final(self).slabs@[s as int].free_stack@.len() == spec_capacity(c as int)
                    &&& final(self).pipes@[c as int]@ == old(self).pipes@[c as int]@.push(s)
                },
                None => *final(self) == *old(self),
            },
            old(self).free_slabs@.len() > 0 || old(self).slabs@.len() < CREEK_SLABS ==> r is Some,
    {
        let ghost pre = *self;
        let s: usize;
        if self.free_slabs.len() > 0 {
            s = self.free_slabs.pop().unwrap();
        } else if self.slabs.len() < CREEK_SLABS {
            s = self.slabs.len();
        } else {
            return None;
        }
        let plen = self.pipes[c].len();
        proof {
            lemma_capacity(c as int);
            assert(plen <= usize::MAX - 1) by {
                if self.pipes@[c as int].len() > self.slabs@.len() {
                    // every pipe entry is a distinct active slab, so the
                    // pipe is no longer than the slab table
                    pipe_shorter_than_slabs(pre, c as int);
                }
            }
        }
        let mut slag = Slag::fresh(c);
        slag.pos = plen;
        if s < self.slabs.len() {
            self.slabs.set(s, slag);
        } else {
            self.slabs.push(slag);
        }
        let pv = &mut self.pipes[c];
        pv.push(s);
        proof {
            let post = *self;
            if s < pre.slabs@.len() {
                lemma_frame_slab(pre, post, s as int);
            } else {
                lemma_frame_push_slab(pre, post);
            }
            assert forall|h0: int, c0: int, k: int|
                0 <= h0 < post.fronts@.len() && 0 <= c0 < N_CLASSES && 0 <= k < mag_seq(post.fronts@[h0]@[c0]).len() implies
                post.cached_in_class(#[trigger] mag_seq(post.fronts@[h0]@[c0])[k], c0) by {
                assert(pre.cached_in_class(mag_seq(pre.fronts@[h0]@[c0])[k], c0));
            }
            assert(post.pipes_wf()) by {
                assert forall|c0: int, k: int|
                    0 <= c0 < N_CLASSES && 0 <= k < post.pipes@[c0].len() implies {
                    let t = #[trigger] post.pipes@[c0]@[k];
                    &&& t < post.slabs@.len()
                    &&& post.slabs@[t as int].class == c0
                    &&& post.slabs@[t as int].state == SlagState::Active
                    &&& post.slabs@[t as int].pos == k
                } by {
                    if c0 == c && k == plen {
                    } else {
                        assert(post.pipes@[c0]@[k] == pre.pipes@[c0]@[k]);
                        let t = pre.pipes@[c0]@[k];
                        assert(pre.slabs@[t as int].state == SlagState::Active);
                        assert(t != s);
                    }
                }
            }
            assert(post.free_wf()) by {
                assert forall|k: int| 0 <= k < post.free_slabs@.len() implies {
                    let t = #[trigger] post.free_slabs@[k];
                    &&& t < post.slabs@.len()
                    &&& post.slabs@[t as int].state == SlagState::Unassigned
                    &&& post.slabs@[t as int].pos == k
                } by {
                    let t = post.free_slabs@[k];
                    assert(pre.free_slabs@[k] == t);
                    assert(pre.slabs@[t as int].state == SlagState::Unassigned);
                    assert(t != s);
                }
            }
        }
        Some(s)
    }
}

/// Every pipe entry is a distinct slab index, so a pipe can never be
/// longer than the slab table.
proof fn pipe_shorter_than_slabs(a: DynamicAllocator, c: int)
    requires
        a.wf(),
        0 <= c < N_CLASSES,
    ensures
        a.pipes@[c].len() <= a.slabs@.len(),
{
    let pipe = a.pipes@[c]@;
    let n = a.slabs@.len() as int;
    if pipe.len() > n {
        let f = |k: int| pipe[k] as int;
        // map each pipe position to its slab; positions are injective
        // because each slab stores its own position
        assert forall|k1: int, k2: int|
            0 <= k1 < pipe.len() && 0 <= k2 < pipe.len() && k1 != k2 implies pipe[k1] != pipe[k2]
        by {
            assert(a.slabs@[pipe[k1] as int].pos == k1);
            assert(a.slabs@[pipe[k2] as int].pos == k2);
        }
        lemma_injective_bound(pipe, n);
    }
}

/// A sequence of distinct values below `n` has length at most `n`.
proof fn lemma_injective_bound(s: Seq<usize>, n: int)
    requires
        0 <= n,
        forall|k: int| 0 <= k < s.len() ==> 0 <= #[trigger] s[k] < n,
        forall|k1: int, k2: int| 0 <= k1 < s.len() && 0 <= k2 < s.len() && k1 != k2 ==> s[k1] != s[k2],
    ensures
        s.len() <= n,
{
    let t = s.map_values(|x: usize| x as int);
    assert(t.no_duplicates());
    t.unique_seq_to_set();
    let rng = vstd::set_lib::set_int_range(0, n);
    vstd::set_lib::lemma_int_range(0, n);
    assert(t.to_set().subset_of(rng)) by {
        assert forall|v: int| t.to_set().contains(v) implies rng.contains(v) by {
            let k = choose|k: int| 0 <= k < t.len() && t[k] == v;
            assert(0 <= s[k] < n);
        }
    }
    vstd::set_lib::lemma_len_subset(t.to_set(), rng);
}



impl DynamicAllocator {
    /// Drop slabs with no free slot from the end of class `c`'s pipe,
    /// marking them `Full`, until the pipe is empty or its last slab has a
    /// free slot.
    #[verifier::spinoff_prover]
    pub(crate) fn trim_full(&mut self, c: usize)
        requires
            old(self).wf(),
            c < N_CLASSES,
        ensures
            final(self).wf(),
            old(self).same_view(*final(self)),
            old(self).same_cached_except(*final(self), Set::empty()),
            final(self).larges@ == old(self).larges@,
            final(self).next_large == old(self).next_large,
            final(self).fronts@ == old(self).fronts@,
            final(self).free_slabs@.len() >= old(self).free_slabs@.len(),
            final(self).slabs@.len() == old(self).slabs@.len(),
            final(self).pipes@[c as int].len() > 0 ==> ({
                let pipe = final(self).pipes@[c as int]@;
                final(self).slabs@[pipe[pipe.len() - 1] as int].free_stack@.len() > 0
            }),
    {
        let ghost orig = *self;
        while self.pipes[c].len() > 0 && self.slabs[self.pipes[c][self.pipes[c].len()
            - 1]].free_stack.len() == 0
            invariant
                self.wf(),
                c < N_CLASSES,
                orig.same_view(*self),
                orig.same_cached_except(*self, Set::empty()),
                self.larges@ == orig.larges@,
                self.next_large == orig.next_large,
                self.fronts@ == orig.fronts@,
                self.free_slabs@.len() == orig.free_slabs@.len(),
                self.slabs@.len() == orig.slabs@.len(),
            decreases self.pipes@[c as int].len(),
        {
            let ghost prev = *self;
            let plen = self.pipes[c].len();
            let s = self.pipes[c][plen - 1];
            let pv = &mut self.pipes[c];
            pv.pop();
            let slag = &mut self.slabs[s];
            slag.state = SlagState::Full;
            proof {
                let post = *self;
                assert(prev.slabs@[s as int].state == SlagState::Active);
                lemma_frame_meta(prev, post);
                lemma_view_trans(orig, prev, post, Set::empty(), Set::empty());
                lemma_cached_trans(orig, prev, post, Set::empty(), Set::empty());
                assert(Set::<usize>::empty().union(Set::empty()) =~= Set::<usize>::empty());
                assert(post.slabs_wf()) by {
                    assert(post.slabs@[s as int].wf());
                }
                assert(post.pipes_wf()) by {
                    assert forall|c0: int, k: int|
                        0 <= c0 < N_CLASSES && 0 <= k < post.pipes@[c0].len() implies {
                        let t = #[trigger] post.pipes@[c0]@[k];
                        &&& t < post.slabs@.len()
                        &&& post.slabs@[t as int].class == c0
                        &&& post.slabs@[t as int].state == SlagState::Active
                        &&& post.slabs@[t as int].pos == k
                    } by {
                        let t = post.pipes@[c0]@[k];
                        assert(t == prev.pipes@[c0]@[k]);
                        assert(prev.slabs@[t as int].state == SlagState::Active);
                        if t == s {
                            assert(prev.slabs@[s as int].pos == plen - 1);
                            assert(false);
                        }
                    }
                }
                assert(post.free_wf()) by {
                    assert forall|k: int| 0 <= k < post.free_slabs@.len() implies {
                        let t = #[trigger] post.free_slabs@[k];
                        &&& t < post.slabs@.len()
                        &&& post.slabs@[t as int].state == SlagState::Unassigned
                        &&& post.slabs@[t as int].pos == k
                    } by {
                        let t = post.free_slabs@[k];
                        assert(prev.slabs@[t as int].state == SlagState::Unassigned);
                        assert(t != s);
                    }
                }
                assert(post.fronts_wf()) by {
                    assert forall|h0: int, c0: int, k: int|
                        0 <= h0 < post.fronts@.len() && 0 <= c0 < N_CLASSES && 0 <= k < mag_seq(post.fronts@[h0]@[c0]).len() implies
                        post.cached_in_class(#[trigger] mag_seq(post.fronts@[h0]@[c0])[k], c0) by {
                        assert(prev.cached_in_class(mag_seq(prev.fronts@[h0]@[c0])[k], c0));
                    }
                }
            }
        }
    }

    /// Take one object from class `c`: from the last partial slab of its
    /// pipe, acquiring a fresh slab when the pipe runs dry. The returned
    /// address is newly cached, ready for a magazine.
    #[verifier::spinoff_prover]
    pub(crate) fn class_take(&mut self, c: usize) -> (r: Option<usize>)
        requires
            old(self).wf(),
            c < N_CLASSES,
        ensures
            final(self).wf(),
            old(self).same_view(*final(self)),
            final(self).larges@ == old(self).larges@,
            final(self).next_large == old(self).next_large,
            final(self).fronts@ == old(self).fronts@,
            match r {
                Some(a) => {
                    &&& final(self).cached_in_class(a, c as int)
                    &&& forall|cc: int| !#[trigger] old(self).cached_in_class(a, cc)
                    &&& old(self).same_cached_except(*final(self), set![a])
                },
                None => old(self).same_cached_except(*final(self), Set::empty()),
            },
    {
        let ghost orig = *self;
        self.trim_full(c);
        let ghost mid0 = *self;
        if self.pipes[c].len() == 0 {
            match self.acquire_slab(c) {
                None => {
                    proof {
                        lemma_view_trans(orig, mid0, *self, Set::empty(), Set::empty());
                        lemma_cached_trans(orig, mid0, *self, Set::empty(), Set::empty());
                        assert(Set::<usize>::empty().union(Set::empty())
                            =~= Set::<usize>::empty());
                    }
                    return None;
                },
                Some(_) => {
                    proof {
                        lemma_capacity(c as int);
                    }
                },
            }
        }
        let ghost mid = *self;
        proof {
            lemma_view_trans(orig, mid0, mid, Set::empty(), Set::empty());
            lemma_cached_trans(orig, mid0, mid, Set::empty(), Set::empty());
            assert(Set::<usize>::empty().union(Set::empty()) =~= Set::<usize>::empty());
        }
        let plen = self.pipes[c].len();
        let s = self.pipes[c][plen - 1];
        let slag = &mut self.slabs[s];
        let ghost cap = spec_capacity(c as int);
        let i = slag.take_free();
        let a = obj_addr(s, c, i);
        proof {
            let post = *self;
            crate::slag::lemma_addr_roundtrip(s as int, c as int, i as int);
            lemma_frame_slot(mid, post, s as int, i as int);
            // the touched slot was free before and cached after: not live
            // on either side, so the view does not move at all
            assert(!mid.is_live(a)) by {
                assert(!mid.creek_live(a));
                if mid.large_live(a) {
                    lemma_large_creek_disjoint(mid, a);
                    lemma_creek_live_range(mid, a);
                    let k = choose|k: int|
                        0 <= k < mid.larges@.len() && (#[trigger] mid.larges@[k]).base
                            + HEADER_SIZE == a;
                    assert(mid.larges@[k].base >= CREEK_END);
                    assert(false);
                }
            }
            assert(!post.is_live(a)) by {
                assert(!post.creek_live(a));
                if post.large_live(a) {
                    let k = choose|k: int|
                        0 <= k < post.larges@.len() && (#[trigger] post.larges@[k]).base
                            + HEADER_SIZE == a;
                    assert(post.larges@[k].base >= CREEK_END);
                    assert(false);
                }
            }
            assert(mid.same_view(post)) by {
                assert forall|p: usize| !Set::<usize>::empty().contains(p) implies (mid.is_live(p)
                    <==> #[trigger] post.is_live(p)) && (mid.is_live(p) ==> post.data_at(p)
                    == mid.data_at(p)) by {
                    if p != a {
                        assert(!set![a].contains(p));
                        assert(mid.is_live(p) <==> post.is_live(p));
                    }
                }
            }
            lemma_view_trans(orig, mid, post, Set::empty(), Set::empty());
            assert(Set::<usize>::empty().union(Set::empty()) =~= Set::<usize>::empty());
            assert(forall|cc: int| !#[trigger] mid.cached_in_class(a, cc)) by {
                assert(mid.slabs@[s as int].st@[i as int] == ObjSt::Free);
            }
            assert forall|cc: int| !#[trigger] orig.cached_in_class(a, cc) by {
                assert(!mid.cached_in_class(a, cc));
            }
            lemma_cached_trans(orig, mid, post, Set::empty(), set![a]);
            assert(Set::<usize>::empty().union(set![a]) =~= set![a]);
            assert(post.cached_in_class(a, c as int)) by {
                assert(post.slabs@[s as int].st@[i as int] == ObjSt::Cached);
            }
            // well-formedness of the result state
            assert(post.slabs_wf());
            assert(post.pipes_wf()) by {
                assert forall|c0: int, k: int|
                    0 <= c0 < N_CLASSES && 0 <= k < post.pipes@[c0].len() implies {
                    let t = #[trigger] post.pipes@[c0]@[k];
                    &&& t < post.slabs@.len()
                    &&& post.slabs@[t as int].class == c0
                    &&& post.slabs@[t as int].state == SlagState::Active
                    &&& post.slabs@[t as int].pos == k
                } by {
                    let t = post.pipes@[c0]@[k];
                    assert(t == mid.pipes@[c0]@[k]);
                    assert(mid.slabs@[t as int].state == SlagState::Active);
                }
            }
            assert(post.free_wf()) by {
                assert forall|k: int| 0 <= k < post.free_slabs@.len() implies {
                    let t = #[trigger] post.free_slabs@[k];
                    &&& t < post.slabs@.len()
                    &&& post.slabs@[t as int].state == SlagState::Unassigned
                    &&& post.slabs@[t as int].pos == k
                } by {
                    let t = post.free_slabs@[k];
                    assert(mid.slabs@[t as int].state == SlagState::Unassigned);
                    assert(t != s);
                }
            }
            assert(post.fronts_wf()) by {
                assert forall|h0: int, c0: int, k: int|
                    0 <= h0 < post.fronts@.len() && 0 <= c0 < N_CLASSES && 0 <= k < mag_seq(post.fronts@[h0]@[c0]).len() implies
                    post.cached_in_class(#[trigger] mag_seq(post.fronts@[h0]@[c0])[k], c0) by {
                    let e = mag_seq(post.fronts@[h0]@[c0])[k];
                    assert(mid.cached_in_class(mag_seq(mid.fronts@[h0]@[c0])[k], c0));
                    assert(e != a);
                    assert(!set![a].contains(e));
                }
            }
        }
        Some(a)
    }
}


impl DynamicAllocator {
    /// Return a cached object to its slag: the slot becomes free again. A
    /// slab that was full rejoins its class's pipe; a slab drained back to
    /// empty that was well used and belongs to a reclaimable class leaves
    /// the pipe for the page allocator's free list.
    #[verifier::rlimit(100)]
    #[verifier::spinoff_prover]
    pub(crate) fn release_object(&mut self, a: usize)
        requires
            old(self).wf(),
            exists|cc: int| #[trigger] old(self).cached_in_class(a, cc),
            forall|h0: int, c0: int, k: int|
                0 <= h0 < old(self).fronts@.len() && 0 <= c0 < N_CLASSES && 0 <= k < mag_seq(old(self).fronts@[h0]@[c0]).len()
                    ==> #[trigger] mag_seq(old(self).fronts@[h0]@[c0])[k] != a,
        ensures
            final(self).wf(),
            old(self).same_view(*final(self)),
            old(self).same_cached_except(*final(self), set![a]),
            forall|cc: int| !#[trigger] final(self).cached_in_class(a, cc),
            final(self).larges@ == old(self).larges@,
            final(self).next_large == old(self).next_large,
            final(self).fronts@ == old(self).fronts@,
            final(self).slabs@.len() == old(self).slabs@.len(),
            forall|t: int|
                0 <= t < old(self).slabs@.len() ==> (#[trigger] final(self).slabs@[t]).class
                    == old(self).slabs@[t].class,
    {
        let ghost orig = *self;
        let ghost cc0 = choose|cc: int| orig.cached_in_class(a, cc);
        let (s, c, i) = self.locate(a);
        proof {
            assert(c == cc0);
        }
        let slag = &mut self.slabs[s];
        slag.put_free(i);
        let ghost mid = *self;
        proof {
            lemma_frame_slot(orig, mid, s as int, i as int);
            assert(!orig.is_live(a)) by {
                assert(!orig.creek_live(a));
                if orig.large_live(a) {
                    let k = choose|k: int|
                        0 <= k < orig.larges@.len() && (#[trigger] orig.larges@[k]).base
                            + HEADER_SIZE == a;
                    assert(orig.larges@[k].base >= CREEK_END);
                    crate::slag::lemma_addr_roundtrip(s as int, c as int, i as int);
                    assert(false);
                }
            }
            assert(!mid.is_live(a)) by {
                assert(!mid.creek_live(a));
                if mid.large_live(a) {
                    let k = choose|k: int|
                        0 <= k < mid.larges@.len() && (#[trigger] mid.larges@[k]).base
                            + HEADER_SIZE == a;
                    assert(mid.larges@[k].base >= CREEK_END);
                    crate::slag::lemma_addr_roundtrip(s as int, c as int, i as int);
                    assert(false);
                }
            }
            assert(orig.same_view(mid)) by {
                assert forall|p: usize| !Set::<usize>::empty().contains(p) implies (orig.is_live(p)
                    <==> #[trigger] mid.is_live(p)) && (orig.is_live(p) ==> mid.data_at(p)
                    == orig.data_at(p)) by {
                    if p != a {
                        assert(!set![a].contains(p));
                        assert(orig.is_live(p) <==> mid.is_live(p));
                    }
                }
            }
            assert(mid.slabs_wf());
            assert(mid.pipes_wf()) by {
                assert forall|c0: int, k: int|
                    0 <= c0 < N_CLASSES && 0 <= k < mid.pipes@[c0].len() implies {
                    let t = #[trigger] mid.pipes@[c0]@[k];
                    &&& t < mid.slabs@.len()
                    &&& mid.slabs@[t as int].class == c0
                    &&& mid.slabs@[t as int].state == SlagState::Active
                    &&& mid.slabs@[t as int].pos == k
                } by {
                    let t = mid.pipes@[c0]@[k];
                    assert(orig.slabs@[t as int].state == SlagState::Active);
                }
            }
            assert(mid.free_wf()) by {
                assert forall|k: int| 0 <= k < mid.free_slabs@.len() implies {
                    let t = #[trigger] mid.free_slabs@[k];
                    &&& t < mid.slabs@.len()
                    &&& mid.slabs@[t as int].state == SlagState::Unassigned
                    &&& mid.slabs@[t as int].pos == k
                } by {
                    let t = mid.free_slabs@[k];
                    assert(orig.slabs@[t as int].state == SlagState::Unassigned);
                    assert(t != s);
                }
            }
            assert(mid.fronts_wf()) by {
                assert forall|h0: int, c0: int, k: int|
                    0 <= h0 < mid.fronts@.len() && 0 <= c0 < N_CLASSES && 0 <= k < mag_seq(mid.fronts@[h0]@[c0]).len() implies
                    mid.cached_in_class(#[trigger] mag_seq(mid.fronts@[h0]@[c0])[k], c0) by {
                    let e = mag_seq(mid.fronts@[h0]@[c0])[k];
                    assert(orig.cached_in_class(mag_seq(orig.fronts@[h0]@[c0])[k], c0));
                    assert(e != a);
                    assert(!set![a].contains(e));
                }
            }
            assert(mid.wf());
        }
        if self.slabs[s].state == SlagState::Full {
            proof {
                pipe_shorter_than_slabs(mid, c as int);
            }
            let plen = self.pipes[c].len();
            let slag = &mut self.slabs[s];
            slag.state = SlagState::Active;
            slag.pos = plen;
            let pv = &mut self.pipes[c];
            pv.push(s);
            proof {
                let post = *self;
                lemma_frame_meta(mid, post);
                lemma_view_trans(orig, mid, post, Set::empty(), Set::empty());
                lemma_cached_trans(orig, mid, post, set![a], Set::empty());
                assert(Set::<usize>::empty().union(Set::empty()) =~= Set::<usize>::empty());
                assert(set![a].union(Set::<usize>::empty()) =~= set![a]);
                assert(post.slabs_wf());
                assert(post.pipes_wf()) by {
                    assert forall|c0: int, k: int|
                        0 <= c0 < N_CLASSES && 0 <= k < post.pipes@[c0].len() implies {
                        let t = #[trigger] post.pipes@[c0]@[k];
                        &&& t < post.slabs@.len()
                        &&& post.slabs@[t as int].class == c0
                        &&& post.slabs@[t as int].state == SlagState::Active
                        &&& post.slabs@[t as int].pos == k
                    } by {
                        if c0 == c as int && k == plen {
                        } else {
                            assert(post.pipes@[c0]@[k] == mid.pipes@[c0]@[k]);
                            let t = mid.pipes@[c0]@[k];
                            assert(mid.slabs@[t as int].state == SlagState::Active);
                            assert(t != s);
                        }
                    }
                }
                assert(post.free_wf()) by {
                    assert forall|k: int| 0 <= k < post.free_slabs@.len() implies {
                        let t = #[trigger] post.free_slabs@[k];
                        &&& t < post.slabs@.len()
                        &&& post.slabs@[t as int].state == SlagState::Unassigned
                        &&& post.slabs@[t as int].pos == k
                    } by {
                        let t = post.free_slabs@[k];
                        assert(mid.slabs@[t as int].state == SlagState::Unassigned);
                        assert(t != s);
                    }
                }
                assert(post.fronts_wf()) by {
                    assert forall|h0: int, c0: int, k: int|
                        0 <= h0 < post.fronts@.len() && 0 <= c0 < N_CLASSES && 0 <= k < mag_seq(post.fronts@[h0]@[c0]).len() implies
                        post.cached_in_class(#[trigger] mag_seq(post.fronts@[h0]@[c0])[k], c0) by {
                        assert(mid.cached_in_class(mag_seq(mid.fronts@[h0]@[c0])[k], c0));
                    }
                }
            }
        }
        let ghost mid2 = *self;
        proof {
            lemma_view_trans(orig, mid, mid2, Set::empty(), Set::empty());
            lemma_cached_trans(orig, mid, mid2, set![a], Set::empty());
            assert(Set::<usize>::empty().union(Set::empty()) =~= Set::<usize>::empty());
            assert(set![a].union(Set::<usize>::empty()) =~= set![a]);
            assert(mid2.slabs@[s as int].st@ == mid.slabs@[s as int].st@);
            assert(mid2.slabs@[s as int].free_stack@ == mid.slabs@[s as int].free_stack@);
        }
        let cap = self.slabs[s].objs.len();
        let full_free = self.slabs[s].free_stack.len() == cap;
        proof {
            lemma_class_size_bounds(c as int);
            lemma_capacity(c as int);
        }
        let z = class_size(c);
        if full_free && 4 * z < USABLE_HINT && self.slabs[s].high_water >= 3 * cap / 5 {
            proof {
                lemma_count_all(mid2.slabs@[s as int].st@, ObjSt::Free);
            }
            let pos = self.slabs[s].pos;
            let pv = &mut self.pipes[c];
            let plen2 = pv.len();
            pv.swap_remove(pos);
            if pos + 1 < plen2 {
                let moved = self.pipes[c][pos];
                proof {
                    assert(moved == mid2.pipes@[c as int]@[plen2 - 1]);
                    assert(mid2.slabs@[moved as int].state == SlagState::Active);
                    assert(moved != s) by {
                        assert(mid2.slabs@[moved as int].pos == plen2 - 1);
                        assert(mid2.slabs@[s as int].pos == pos);
                    }
                }
                let ms = &mut self.slabs[moved];
                ms.pos = pos;
            }
            let flen = self.free_slabs.len();
            let slag = &mut self.slabs[s];
            slag.state = SlagState::Unassigned;
            slag.pos = flen;
            self.free_slabs.push(s);
            proof {
                let post = *self;
                assert(post.slabs@.len() == mid2.slabs@.len());
                assert forall|t: int| 0 <= t < mid2.slabs@.len() && t != s implies post.slabs@[t]
                    == mid2.slabs@[t] || (post.slabs@[t].st == mid2.slabs@[t].st
                    && post.slabs@[t].objs == mid2.slabs@[t].objs && post.slabs@[t].class
                    == mid2.slabs@[t].class && post.slabs@[t].state == mid2.slabs@[t].state) by {}
                // the view: nothing in slab s is held, and only position
                // words changed elsewhere
                lemma_frame_slab_revoke(mid2, post, s as int);
                lemma_view_trans(orig, mid2, post, Set::empty(), Set::empty());
                lemma_cached_trans(orig, mid2, post, set![a], Set::empty());
                assert(Set::<usize>::empty().union(Set::empty()) =~= Set::<usize>::empty());
                assert(set![a].union(Set::<usize>::empty()) =~= set![a]);
                assert(post.slabs_wf());
                assert(post.pipes_wf()) by {
                    assert forall|c0: int, k: int|
                        0 <= c0 < N_CLASSES && 0 <= k < post.pipes@[c0].len() implies {
                        let t = #[trigger] post.pipes@[c0]@[k];
                        &&& t < post.slabs@.len()
                        &&& post.slabs@[t as int].class == c0
                        &&& post.slabs@[t as int].state == SlagState::Active
                        &&& post.slabs@[t as int].pos == k
                    } by {
                        if c0 == c as int && k == pos && pos + 1 < plen2 {
                            let t = post.pipes@[c0]@[k];
                            assert(t == mid2.pipes@[c as int]@[plen2 - 1]);
                            assert(mid2.slabs@[t as int].state == SlagState::Active);
                            assert(t != s);
                        } else {
                            let t = post.pipes@[c0]@[k];
                            assert(t == mid2.pipes@[c0]@[k]);
                            assert(mid2.slabs@[t as int].state == SlagState::Active);
                            assert(mid2.slabs@[t as int].pos == k);
                            assert(t != s);
                            assert(t != mid2.pipes@[c as int]@[plen2 - 1] || (c0 == c as int && k
                                == plen2 - 1)) by {
                                let m = mid2.pipes@[c as int]@[plen2 - 1];
                                assert(mid2.slabs@[m as int].pos == plen2 - 1);
                                assert(mid2.slabs@[m as int].class == c);
                            }
                        }
                    }
                    assert forall|t: int|
                        0 <= t < post.slabs@.len() && (#[trigger] post.slabs@[t]).state
                            == SlagState::Active implies {
                        &&& post.slabs@[t].pos < post.pipes@[post.slabs@[t].class as int].len()
                        &&& post.pipes@[post.slabs@[t].class as int]@[post.slabs@[t].pos as int]
                            == t
                    } by {
                        assert(t != s);
                        assert(mid2.slabs@[t as int].state == SlagState::Active);
                        let m = mid2.pipes@[c as int]@[plen2 - 1];
                        if pos + 1 < plen2 && t == m {
                        } else {
                            assert(post.slabs@[t] == mid2.slabs@[t]);
                            assert(mid2.slabs@[t].pos != plen2 - 1 || mid2.slabs@[t].class != c
                                || t == m);
                            if mid2.slabs@[t].class == c as int {
                                assert(mid2.pipes@[c as int]@[mid2.slabs@[t].pos as int] == t);
                                assert(mid2.slabs@[t].pos != pos) by {
                                    if mid2.slabs@[t].pos == pos {
                                        assert(mid2.pipes@[c as int]@[pos as int] == s);
                                    }
                                }
                            }
                        }
                    }
                }
                assert(post.free_wf()) by {
                    assert forall|k: int| 0 <= k < post.free_slabs@.len() implies {
                        let t = #[trigger] post.free_slabs@[k];
                        &&& t < post.slabs@.len()
                        &&& post.slabs@[t as int].state == SlagState::Unassigned
                        &&& post.slabs@[t as int].pos == k
                    } by {
                        let t = post.free_slabs@[k];
                        if k < flen {
                            assert(t == mid2.free_slabs@[k]);
                            assert(mid2.slabs@[t as int].state == SlagState::Unassigned);
                            assert(t != s);
                            let m = mid2.pipes@[c as int]@[plen2 - 1];
                            assert(t != m) by {
                                assert(mid2.slabs@[m as int].state == SlagState::Active);
                            }
                        }
                    }
                }
                assert(post.fronts_wf()) by {
                    assert forall|h0: int, c0: int, k: int|
                        0 <= h0 < post.fronts@.len() && 0 <= c0 < N_CLASSES && 0 <= k < mag_seq(post.fronts@[h0]@[c0]).len() implies
                        post.cached_in_class(#[trigger] mag_seq(post.fronts@[h0]@[c0])[k], c0) by {
                        let e = mag_seq(post.fronts@[h0]@[c0])[k];
                        assert(mid2.cached_in_class(mag_seq(mid2.fronts@[h0]@[c0])[k], c0));
                        assert(!Set::<usize>::empty().contains(e));
                    }
                }
            }
        }
        proof {
            let fin = *self;
            assert forall|cc: int| !#[trigger] fin.cached_in_class(a, cc) by {
                if fin.cached_in_class(a, cc) {
                    let t = spec_slab_of(a as int);
                    assert(t == s);
                    if fin.slabs@[t].state != SlagState::Unassigned {
                        assert(fin.slabs@[t].st@[i as int] == mid.slabs@[s as int].st@[i as int]);
                    }
                }
            }
        }
    }
}

/// Frame for revocation: slab `s` holds only free slots and leaves
/// circulation; other slabs keep their class, slot states, object bytes
/// and circulation, though position words may move.
pub(crate) proof fn lemma_frame_slab_revoke(a: DynamicAllocator, b: DynamicAllocator, s: int)
    requires
        b.larges@ == a.larges@,
        b.slabs@.len() == a.slabs@.len(),
        0 <= s < a.slabs@.len(),
        forall|t: int|
            0 <= t < a.slabs@.len() && t != s ==> {
                &&& (#[trigger] b.slabs@[t]).st == a.slabs@[t].st
                &&& b.slabs@[t].objs == a.slabs@[t].objs
                &&& b.slabs@[t].class == a.slabs@[t].class
                &&& b.slabs@[t].state == a.slabs@[t].state
            },
        a.slabs@[s].state != SlagState::Unassigned ==> a.slabs@[s].wf() && forall|j: int|
            0 <= j < a.slabs@[s].st@.len() ==> #[trigger] a.slabs@[s].st@[j] == ObjSt::Free,
        b.slabs@[s].state != SlagState::Unassigned ==> b.slabs@[s].wf() && forall|j: int|
            0 <= j < b.slabs@[s].st@.len() ==> #[trigger] b.slabs@[s].st@[j] == ObjSt::Free,
    ensures
        a.same_view(b),
        a.same_cached_except(b, Set::empty()),
{
    assert forall|p: usize| !Set::<usize>::empty().contains(p) implies (a.is_live(p)
        <==> #[trigger] b.is_live(p)) && (a.is_live(p) ==> b.data_at(p) == a.data_at(p)) by {
        let t = spec_slab_of(p as int);
        if CREEK_BASE <= p && 0 <= t < a.slabs@.len() {
            if t == s {
                lemma_all_free_not_held(a, p);
                lemma_all_free_not_held(b, p);
            }
        }
        assert(a.creek_live(p) <==> b.creek_live(p));
        assert(a.large_live(p) <==> b.large_live(p));
        if a.is_live(p) {
            assert(b.data_at(p) == a.data_at(p));
        }
    }
    assert forall|p: usize, cc: int| !Set::<usize>::empty().contains(p) implies (a.cached_in_class(
        p,
        cc,
    ) <==> #[trigger] b.cached_in_class(p, cc)) by {
        let t = spec_slab_of(p as int);
        if CREEK_BASE <= p && 0 <= t < a.slabs@.len() {
            if t == s {
                lemma_all_free_not_held(a, p);
                lemma_all_free_not_held(b, p);
            }
        }
    }
}


/// Frame for changes that touch neither the slab table nor the large
/// table (magazines, pipes, the free list): the view and the cached map
/// do not move.
pub(crate) proof fn lemma_frame_outside_slabs(a: DynamicAllocator, b: DynamicAllocator)
    requires
        b.larges@ == a.larges@,
        b.slabs@ == a.slabs@,
        a.larges_wf(),
    ensures
        a.same_view(b),
        a.same_cached_except(b, Set::empty()),
{
    assert forall|p: usize| !Set::<usize>::empty().contains(p) implies (a.is_live(p)
        <==> #[trigger] b.is_live(p)) && (a.is_live(p) ==> b.data_at(p) == a.data_at(p)) by {
        assert(a.creek_live(p) <==> b.creek_live(p));
        if a.large_live(p) {
            let k = choose|k: int|
                0 <= k < a.larges@.len() && (#[trigger] a.larges@[k]).base + HEADER_SIZE == p;
            assert((b.larges@[k]).base + HEADER_SIZE == p);
            assert(b.large_live(p));
        }
        if b.large_live(p) {
            let k = choose|k: int|
                0 <= k < b.larges@.len() && (#[trigger] b.larges@[k]).base + HEADER_SIZE == p;
            assert((a.larges@[k]).base + HEADER_SIZE == p);
            assert(a.large_live(p));
        }
        if a.is_live(p) && !a.creek_live(p) {
            let ka = choose|k: int|
                0 <= k < a.larges@.len() && (#[trigger] a.larges@[k]).base + HEADER_SIZE == p;
            let kb = choose|k: int|
                0 <= k < b.larges@.len() && (#[trigger] b.larges@[k]).base + HEADER_SIZE == p;
            assert(a.larges@[ka].base == a.larges@[kb].base);
            if ka != kb {
                assert(false);
            }
            assert(b.data_at(p) == b.larges@[kb].bytes@);
            assert(a.data_at(p) == a.larges@[ka].bytes@);
        }
    }
    assert forall|p: usize, cc: int| !Set::<usize>::empty().contains(p) implies (a.cached_in_class(
        p,
        cc,
    ) <==> #[trigger] b.cached_in_class(p, cc)) by {}
}


/// States that agree outside one magazine: same slab and large tables,
/// same front rows, except class `c` of handle `h`.
pub(crate) open spec fn same_but_mag(a: DynamicAllocator, b: DynamicAllocator, h: int, c: int) -> bool {
    &&& b.slabs@ == a.slabs@
    &&& b.larges@ == a.larges@
    &&& b.fronts@.len() == a.fronts@.len()
    &&& b.fronts@[h]@.len() == a.fronts@[h]@.len()
    &&& forall|h0: int| 0 <= h0 < a.fronts@.len() && h0 != h ==> b.fronts@[h0] == a.fronts@[h0]
    &&& forall|c0: int|
        0 <= c0 < a.fronts@[h]@.len() && c0 != c ==> b.fronts@[h]@[c0] == a.fronts@[h]@[c0]
}


/// The structural half of the front-end invariant carries across a
/// single-magazine change whose two batches stay within bounds.
proof fn lemma_mag_shape(a: DynamicAllocator, b: DynamicAllocator, h: int, c: int)
    requires
        a.wf(),
        0 <= h < a.fronts@.len(),
        0 <= c < N_CLASSES,
        same_but_mag(a, b, h, c),
        b.fronts@[h]@[c].front@.len() <= MAG_CAP,
        b.fronts@[h]@[c].reserve@.len() <= MAG_CAP,
    ensures
        b.fronts@.len() >= 1,
        forall|h0: int| 0 <= h0 < b.fronts@.len() ==> (#[trigger] b.fronts@[h0])@.len()
            == N_CLASSES,
        forall|h0: int, c0: int|
            0 <= h0 < b.fronts@.len() && 0 <= c0 < N_CLASSES ==> (#[trigger] (
            b.fronts@[h0]@[c0])).front@.len() <= MAG_CAP && b.fronts@[h0]@[c0].reserve@.len()
                <= MAG_CAP,
{
    assert forall|h0: int| 0 <= h0 < b.fronts@.len() implies (#[trigger] b.fronts@[h0])@.len()
        == N_CLASSES by {
        if h0 != h {
            assert(b.fronts@[h0] == a.fronts@[h0]);
        }
        assert(a.fronts@[h0]@.len() == N_CLASSES);
    }
    assert forall|h0: int, c0: int|
        0 <= h0 < b.fronts@.len() && 0 <= c0 < N_CLASSES implies (#[trigger] (
    b.fronts@[h0]@[c0])).front@.len() <= MAG_CAP && b.fronts@[h0]@[c0].reserve@.len()
        <= MAG_CAP by {
        if h0 != h {
            assert(b.fronts@[h0] == a.fronts@[h0]);
            assert(a.fronts@[h0]@.len() == N_CLASSES);
        } else if c0 != c {
            assert(b.fronts@[h]@[c0] == a.fronts@[h]@[c0]);
        }
    }
}

/// Swapping the two batches of one magazine preserves the front-end
/// invariant.
proof fn lemma_swap_front_wf(a: DynamicAllocator, b: DynamicAllocator, h: int, c: int)
    requires
        a.wf(),
        0 <= h < a.fronts@.len(),
        0 <= c < N_CLASSES,
        same_but_mag(a, b, h, c),
        b.fronts@[h]@[c].front@ == a.fronts@[h]@[c].reserve@,
        b.fronts@[h]@[c].reserve@ == a.fronts@[h]@[c].front@,
    ensures
        b.fronts_wf(),
{
    lemma_mag_shape(a, b, h, c);
    let useq = a.fronts@[h]@[c].reserve@;
    let vseq = a.fronts@[h]@[c].front@;
    assert(mag_seq(a.fronts@[h]@[c]) == useq + vseq);
    assert(mag_seq(b.fronts@[h]@[c]) == vseq + useq);
    let ul = useq.len() as int;
    let vl = vseq.len() as int;
    assert forall|h0: int, c0: int, k: int|
        0 <= h0 < b.fronts@.len() && 0 <= c0 < N_CLASSES && 0 <= k < mag_seq(
            b.fronts@[h0]@[c0],
        ).len() implies b.cached_in_class(#[trigger] mag_seq(b.fronts@[h0]@[c0])[k], c0) by {
        if h0 == h && c0 == c {
            let j = if k < vl {
                ul + k
            } else {
                k - vl
            };
            assert((vseq + useq)[k] == (useq + vseq)[j]);
            assert(a.cached_in_class(mag_seq(a.fronts@[h0]@[c0])[j], c0));
        } else {
            assert(b.fronts@[h0]@[c0] == a.fronts@[h0]@[c0]);
            assert(a.cached_in_class(mag_seq(a.fronts@[h0]@[c0])[k], c0));
        }
        assert(b.cached_in_class(mag_seq(b.fronts@[h0]@[c0])[k], c0)) by {
            assert(b.slabs@ == a.slabs@);
        }
    }
    assert forall|h0: int, c0: int, k1: int, k2: int|
        0 <= h0 < b.fronts@.len() && 0 <= c0 < N_CLASSES && 0 <= k1 < k2 < mag_seq(
            b.fronts@[h0]@[c0],
        ).len() implies #[trigger] mag_seq(b.fronts@[h0]@[c0])[k1] != #[trigger] mag_seq(
        b.fronts@[h0]@[c0],
    )[k2] by {
        if h0 == h && c0 == c {
            let j1 = if k1 < vl {
                ul + k1
            } else {
                k1 - vl
            };
            let j2 = if k2 < vl {
                ul + k2
            } else {
                k2 - vl
            };
            assert((vseq + useq)[k1] == (useq + vseq)[j1]);
            assert((vseq + useq)[k2] == (useq + vseq)[j2]);
            assert(j1 != j2);
            if j1 < j2 {
                assert(mag_seq(a.fronts@[h0]@[c0])[j1] != mag_seq(a.fronts@[h0]@[c0])[j2]);
            } else {
                assert(mag_seq(a.fronts@[h0]@[c0])[j2] != mag_seq(a.fronts@[h0]@[c0])[j1]);
            }
        } else {
            assert(b.fronts@[h0]@[c0] == a.fronts@[h0]@[c0]);
            assert(mag_seq(a.fronts@[h0]@[c0])[k1] != mag_seq(a.fronts@[h0]@[c0])[k2]);
        }
    }
    assert forall|h1: int, h2: int, c0: int, k1: int, k2: int|
        0 <= h1 < h2 < b.fronts@.len() && 0 <= c0 < N_CLASSES && 0 <= k1 < mag_seq(
            b.fronts@[h1]@[c0],
        ).len() && 0 <= k2 < mag_seq(b.fronts@[h2]@[c0]).len() implies #[trigger] mag_seq(
        b.fronts@[h1]@[c0],
    )[k1] != #[trigger] mag_seq(b.fronts@[h2]@[c0])[k2] by {
        let j1 = if h1 == h && c0 == c {
            if k1 < vl {
                ul + k1
            } else {
                k1 - vl
            }
        } else {
            k1
        };
        let j2 = if h2 == h && c0 == c {
            if k2 < vl {
                ul + k2
            } else {
                k2 - vl
            }
        } else {
            k2
        };
        assert(mag_seq(b.fronts@[h1]@[c0])[k1] == mag_seq(a.fronts@[h1]@[c0])[j1]);
        assert(mag_seq(b.fronts@[h2]@[c0])[k2] == mag_seq(a.fronts@[h2]@[c0])[j2]);
        assert(mag_seq(a.fronts@[h1]@[c0])[j1] != mag_seq(a.fronts@[h2]@[c0])[j2]);
    }
}

/// Pushing onto one magazine's front a value cached in the current state
/// and absent from every magazine preserves the front-end invariant.
proof fn lemma_push_front_wf(a: DynamicAllocator, b: DynamicAllocator, h: int, c: int, x: usize)
    requires
        a.wf(),
        0 <= h < a.fronts@.len(),
        0 <= c < N_CLASSES,
        same_but_mag(a, b, h, c),
        a.fronts@[h]@[c].front@.len() < MAG_CAP,
        b.fronts@[h]@[c].front@ == a.fronts@[h]@[c].front@.push(x),
        b.fronts@[h]@[c].reserve@ == a.fronts@[h]@[c].reserve@,
        a.cached_in_class(x, c),
        forall|h0: int, c0: int, k: int|
            0 <= h0 < a.fronts@.len() && 0 <= c0 < N_CLASSES && 0 <= k < mag_seq(
                a.fronts@[h0]@[c0],
            ).len() ==> #[trigger] mag_seq(a.fronts@[h0]@[c0])[k] != x,
    ensures
        b.fronts_wf(),
{
    lemma_mag_shape(a, b, h, c);
    assert(mag_seq(b.fronts@[h]@[c]) == mag_seq(a.fronts@[h]@[c]).push(x));
    let newlen = mag_seq(b.fronts@[h]@[c]).len() as int;
    assert forall|h0: int, c0: int, k: int|
        0 <= h0 < b.fronts@.len() && 0 <= c0 < N_CLASSES && 0 <= k < mag_seq(
            b.fronts@[h0]@[c0],
        ).len() implies b.cached_in_class(#[trigger] mag_seq(b.fronts@[h0]@[c0])[k], c0) by {
        if h0 == h && c0 == c && k == newlen - 1 {
            assert(mag_seq(b.fronts@[h0]@[c0])[k] == x);
        } else {
            if h0 == h && c0 == c {
                assert(mag_seq(b.fronts@[h0]@[c0])[k] == mag_seq(a.fronts@[h0]@[c0])[k]);
            } else {
                assert(b.fronts@[h0]@[c0] == a.fronts@[h0]@[c0]);
            }
            assert(a.cached_in_class(mag_seq(a.fronts@[h0]@[c0])[k], c0));
        }
        assert(b.cached_in_class(mag_seq(b.fronts@[h0]@[c0])[k], c0)) by {
            assert(b.slabs@ == a.slabs@);
        }
    }
    assert forall|h0: int, c0: int, k1: int, k2: int|
        0 <= h0 < b.fronts@.len() && 0 <= c0 < N_CLASSES && 0 <= k1 < k2 < mag_seq(
            b.fronts@[h0]@[c0],
        ).len() implies #[trigger] mag_seq(b.fronts@[h0]@[c0])[k1] != #[trigger] mag_seq(
        b.fronts@[h0]@[c0],
    )[k2] by {
        if h0 == h && c0 == c && k2 == newlen - 1 {
            assert(mag_seq(b.fronts@[h0]@[c0])[k1] == mag_seq(a.fronts@[h0]@[c0])[k1]);
            assert(mag_seq(a.fronts@[h0]@[c0])[k1] != x);
        } else {
            if h0 == h && c0 == c {
                assert(mag_seq(b.fronts@[h0]@[c0])[k1] == mag_seq(a.fronts@[h0]@[c0])[k1]);
                assert(mag_seq(b.fronts@[h0]@[c0])[k2] == mag_seq(a.fronts@[h0]@[c0])[k2]);
            } else {
                assert(b.fronts@[h0]@[c0] == a.fronts@[h0]@[c0]);
            }
            assert(mag_seq(a.fronts@[h0]@[c0])[k1] != mag_seq(a.fronts@[h0]@[c0])[k2]);
        }
    }
    assert forall|h1: int, h2: int, c0: int, k1: int, k2: int|
        0 <= h1 < h2 < b.fronts@.len() && 0 <= c0 < N_CLASSES && 0 <= k1 < mag_seq(
            b.fronts@[h1]@[c0],
        ).len() && 0 <= k2 < mag_seq(b.fronts@[h2]@[c0]).len() implies #[trigger] mag_seq(
        b.fronts@[h1]@[c0],
    )[k1] != #[trigger] mag_seq(b.fronts@[h2]@[c0])[k2] by {
        let e1 = mag_seq(b.fronts@[h1]@[c0])[k1];
        let e2 = mag_seq(b.fronts@[h2]@[c0])[k2];
        if h1 == h && c0 == c && k1 == newlen - 1 {
            assert(e1 == x);
            assert(e2 == mag_seq(a.fronts@[h2]@[c0])[k2]);
        } else if h2 == h && c0 == c && k2 == newlen - 1 {
            assert(e2 == x);
            assert(e1 == mag_seq(a.fronts@[h1]@[c0])[k1]);
        } else {
            assert(e1 == mag_seq(a.fronts@[h1]@[c0])[k1]);
            assert(e2 == mag_seq(a.fronts@[h2]@[c0])[k2]);
            assert(mag_seq(a.fronts@[h1]@[c0])[k1] != mag_seq(a.fronts@[h2]@[c0])[k2]);
        }
    }
}

/// Popping one magazine's front preserves the front-end invariant, and
/// the popped value no longer sits in any magazine.
proof fn lemma_pop_front_wf(a: DynamicAllocator, b: DynamicAllocator, h: int, c: int)
    requires
        a.wf(),
        0 <= h < a.fronts@.len(),
        0 <= c < N_CLASSES,
        same_but_mag(a, b, h, c),
        a.fronts@[h]@[c].front@.len() > 0,
        b.fronts@[h]@[c].front@ == a.fronts@[h]@[c].front@.drop_last(),
        b.fronts@[h]@[c].reserve@ == a.fronts@[h]@[c].reserve@,
    ensures
        b.fronts_wf(),
        forall|h0: int, c0: int, k: int|
            0 <= h0 < b.fronts@.len() && 0 <= c0 < N_CLASSES && 0 <= k < mag_seq(
                b.fronts@[h0]@[c0],
            ).len() ==> #[trigger] mag_seq(b.fronts@[h0]@[c0])[k] != mag_seq(
                a.fronts@[h]@[c],
            ).last(),
{
    lemma_mag_shape(a, b, h, c);
    let seq0 = mag_seq(a.fronts@[h]@[c]);
    let x = seq0.last();
    assert(mag_seq(b.fronts@[h]@[c]) == seq0.drop_last());
    assert forall|h0: int, c0: int, k: int|
        0 <= h0 < b.fronts@.len() && 0 <= c0 < N_CLASSES && 0 <= k < mag_seq(
            b.fronts@[h0]@[c0],
        ).len() implies b.cached_in_class(#[trigger] mag_seq(b.fronts@[h0]@[c0])[k], c0)
        && mag_seq(b.fronts@[h0]@[c0])[k] != x by {
        let e = mag_seq(b.fronts@[h0]@[c0])[k];
        if h0 == h && c0 == c {
            assert(e == seq0[k]);
            assert(a.cached_in_class(seq0[k], c0));
            assert(seq0[k] != seq0[seq0.len() - 1]);
        } else {
            assert(b.fronts@[h0]@[c0] == a.fronts@[h0]@[c0]);
            assert(a.cached_in_class(e, c0));
            assert(e != x) by {
                if h0 != h {
                    if h0 < h {
                        assert(mag_seq(a.fronts@[h0]@[c0])[k] != mag_seq(
                            a.fronts@[h]@[c0],
                        )[seq0.len() - 1] || c0 != c);
                    } else {
                        assert(mag_seq(a.fronts@[h]@[c0])[seq0.len() - 1] != mag_seq(
                            a.fronts@[h0]@[c0],
                        )[k] || c0 != c);
                    }
                    if c0 != c {
                        assert(a.cached_in_class(x, c));
                    }
                } else {
                    assert(c0 != c);
                    assert(a.cached_in_class(x, c));
                }
            }
        }
        assert(b.cached_in_class(e, c0)) by {
            assert(b.slabs@ == a.slabs@);
        }
    }
    assert forall|h0: int, c0: int, k1: int, k2: int|
        0 <= h0 < b.fronts@.len() && 0 <= c0 < N_CLASSES && 0 <= k1 < k2 < mag_seq(
            b.fronts@[h0]@[c0],
        ).len() implies #[trigger] mag_seq(b.fronts@[h0]@[c0])[k1] != #[trigger] mag_seq(
        b.fronts@[h0]@[c0],
    )[k2] by {
        if h0 == h && c0 == c {
            assert(seq0[k1] != seq0[k2]);
        } else {
            assert(b.fronts@[h0]@[c0] == a.fronts@[h0]@[c0]);
            assert(mag_seq(a.fronts@[h0]@[c0])[k1] != mag_seq(a.fronts@[h0]@[c0])[k2]);
        }
    }
    assert forall|h1: int, h2: int, c0: int, k1: int, k2: int|
        0 <= h1 < h2 < b.fronts@.len() && 0 <= c0 < N_CLASSES && 0 <= k1 < mag_seq(
            b.fronts@[h1]@[c0],
        ).len() && 0 <= k2 < mag_seq(b.fronts@[h2]@[c0]).len() implies #[trigger] mag_seq(
        b.fronts@[h1]@[c0],
    )[k1] != #[trigger] mag_seq(b.fronts@[h2]@[c0])[k2] by {
        assert(mag_seq(b.fronts@[h1]@[c0])[k1] == mag_seq(a.fronts@[h1]@[c0])[k1]);
        assert(mag_seq(b.fronts@[h2]@[c0])[k2] == mag_seq(a.fronts@[h2]@[c0])[k2]);
        assert(mag_seq(a.fronts@[h1]@[c0])[k1] != mag_seq(a.fronts@[h2]@[c0])[k2]);
    }
}

impl DynamicAllocator {
    /// Pop the front of class `c`'s magazine and hand the object to the
    /// caller: the address becomes live.
    #[verifier::spinoff_prover]
    fn mag_pop_user(&mut self, h: usize, c: usize) -> (a: usize)
        requires
            old(self).wf(),
            (h as int) < old(self).fronts@.len(),
            c < N_CLASSES,
            old(self).fronts@[h as int]@[c as int].front@.len() > 0,
        ensures
            final(self).wf(),
            final(self).is_live(a),
            !old(self).is_live(a),
            old(self).same_view_except(*final(self), set![a]),
            final(self).data_at(a).len() == spec_class_size(c as int),
            CREEK_BASE <= a < CREEK_END,
            spec_obj_addr_valid(a as int, c as int),
            final(self).larges@ == old(self).larges@,
            final(self).next_large == old(self).next_large,
            final(self).fronts@.len() == old(self).fronts@.len(),
    {
        let ghost orig = *self;
        let fr = &mut self.fronts[h];
        let m = &mut fr[c];
        let a = m.front.pop().unwrap();
        proof {
            let seq0 = mag_seq(orig.fronts@[h as int]@[c as int]);
            assert(a == seq0[seq0.len() - 1]);
            assert(orig.cached_in_class(a, c as int));
            lemma_creek_live_range(orig, a);
        }
        let ghost mid = *self;
        let (s, c2, i) = self.locate(a);
        let slag = &mut self.slabs[s];
        slag.set_user(i);
        proof {
            let post = *self;
            let ghost seq0 = mag_seq(orig.fronts@[h as int]@[c as int]);
            lemma_frame_slot(orig, post, s as int, i as int);
            assert(!orig.is_live(a)) by {
                assert(!orig.creek_live(a));
                if orig.large_live(a) {
                    let k = choose|k: int|
                        0 <= k < orig.larges@.len() && (#[trigger] orig.larges@[k]).base
                            + HEADER_SIZE == a;
                    assert(orig.larges@[k].base >= CREEK_END);
                    assert(false);
                }
            }
            assert(post.creek_live(a)) by {
                assert(post.slabs@[s as int].st@[i as int] == ObjSt::User);
            }
            assert(post.data_at(a).len() == spec_class_size(c as int)) by {
                assert(post.data_at(a) == post.slabs@[s as int].objs@[i as int]@);
                assert(post.slabs@[s as int].wf());
            }
            assert(post.slabs_wf());
            assert(post.pipes_wf()) by {
                assert forall|c0: int, k: int|
                    0 <= c0 < N_CLASSES && 0 <= k < post.pipes@[c0].len() implies {
                    let t = #[trigger] post.pipes@[c0]@[k];
                    &&& t < post.slabs@.len()
                    &&& post.slabs@[t as int].class == c0
                    &&& post.slabs@[t as int].state == SlagState::Active
                    &&& post.slabs@[t as int].pos == k
                } by {
                    let t = post.pipes@[c0]@[k];
                    assert(orig.slabs@[t as int].state == SlagState::Active);
                }
            }
            assert(post.free_wf()) by {
                assert forall|k: int| 0 <= k < post.free_slabs@.len() implies {
                    let t = #[trigger] post.free_slabs@[k];
                    &&& t < post.slabs@.len()
                    &&& post.slabs@[t as int].state == SlagState::Unassigned
                    &&& post.slabs@[t as int].pos == k
                } by {
                    let t = post.free_slabs@[k];
                    assert(orig.slabs@[t as int].state == SlagState::Unassigned);
                    assert(t != s);
                }
            }
            lemma_pop_front_wf(orig, mid, h as int, c as int);
            assert(a == mag_seq(orig.fronts@[h as int]@[c as int]).last());
            assert(post.fronts_wf()) by {
                assert forall|h0: int, c0: int, k: int|
                    0 <= h0 < post.fronts@.len() && 0 <= c0 < N_CLASSES && 0 <= k < mag_seq(
                        post.fronts@[h0]@[c0],
                    ).len() implies post.cached_in_class(
                    #[trigger] mag_seq(post.fronts@[h0]@[c0])[k],
                    c0,
                ) by {
                    let e = mag_seq(post.fronts@[h0]@[c0])[k];
                    assert(mag_seq(mid.fronts@[h0]@[c0])[k] == e);
                    assert(mid.cached_in_class(e, c0));
                    assert(e != a);
                    assert(orig.cached_in_class(e, c0)) by {
                        assert(mid.slabs@ == orig.slabs@);
                    }
                    assert(!set![a].contains(e));
                }
                assert forall|h0: int, c0: int, k1: int, k2: int|
                    0 <= h0 < post.fronts@.len() && 0 <= c0 < N_CLASSES && 0 <= k1 < k2 < mag_seq(
                        post.fronts@[h0]@[c0],
                    ).len() implies #[trigger] mag_seq(post.fronts@[h0]@[c0])[k1]
                    != #[trigger] mag_seq(post.fronts@[h0]@[c0])[k2] by {
                    assert(mag_seq(mid.fronts@[h0]@[c0])[k1] != mag_seq(mid.fronts@[h0]@[c0])[k2]);
                }
                assert forall|h1: int, h2: int, c0: int, k1: int, k2: int|
                    0 <= h1 < h2 < post.fronts@.len() && 0 <= c0 < N_CLASSES && 0 <= k1 < mag_seq(
                        post.fronts@[h1]@[c0],
                    ).len() && 0 <= k2 < mag_seq(post.fronts@[h2]@[c0]).len() implies #[trigger]
                mag_seq(post.fronts@[h1]@[c0])[k1] != #[trigger] mag_seq(
                    post.fronts@[h2]@[c0],
                )[k2] by {
                    assert(mag_seq(mid.fronts@[h1]@[c0])[k1] != mag_seq(mid.fronts@[h2]@[c0])[k2]);
                }
            }
        }
        a
    }

    /// Allocate one object of class `c` through its magazine: pop the
    /// front, fall back to the reserve, and refill from the class's slabs
    /// when both batches are empty. Returns no address only once the
    /// creek is exhausted.
    #[verifier::spinoff_prover]
    pub(crate) fn alloc_small(&mut self, h: usize, c: usize) -> (r: Option<usize>)
        requires
            old(self).wf(),
            (h as int) < old(self).fronts@.len(),
            c < N_CLASSES,
        ensures
            final(self).wf(),
            final(self).larges@ == old(self).larges@,
            final(self).next_large == old(self).next_large,
            final(self).fronts@.len() == old(self).fronts@.len(),
            match r {
                Some(a) => {
                    &&& final(self).is_live(a)
                    &&& !old(self).is_live(a)
                    &&& old(self).same_view_except(*final(self), set![a])
                    &&& final(self).data_at(a).len() == spec_class_size(c as int)
                    &&& CREEK_BASE <= a < CREEK_END
                    &&& spec_obj_addr_valid(a as int, c as int)
                },
                None => old(self).same_view(*final(self)),
            },
    {
        let ghost orig = *self;
        if self.fronts[h][c].front.len() > 0 {
            let a = self.mag_pop_user(h, c);
            return Some(a);
        }
        if self.fronts[h][c].reserve.len() > 0 {
            let fr = &mut self.fronts[h];
            let m = &mut fr[c];
            core::mem::swap(&mut m.front, &mut m.reserve);
            proof {
                let mid = *self;
                lemma_swap_front_wf(orig, mid, h as int, c as int);
                assert(mid.wf());
                lemma_frame_outside_slabs(orig, mid);
            }
            let ghost mid = *self;
            let a = self.mag_pop_user(h, c);
            proof {
                lemma_view_trans(orig, mid, *self, Set::empty(), set![a]);
                assert(Set::<usize>::empty().union(set![a]) =~= set![a]);
                assert(!orig.is_live(a)) by {
                    assert(!Set::<usize>::empty().contains(a));
                }
            }
            return Some(a);
        }
        // both batches empty: refill the front from the class
        let mut k: usize = 0;
        let mut failed = false;
        while k < MAG_CAP && !failed
            invariant
                self.wf(),
                c < N_CLASSES,
                (h as int) < self.fronts@.len(),
                self.fronts@.len() == orig.fronts@.len(),
                orig.same_view(*self),
                self.larges@ == orig.larges@,
                self.next_large == orig.next_large,
                self.fronts@[h as int]@[c as int].front@.len() == k,
                self.fronts@[h as int]@[c as int].reserve@.len() == 0,
                k <= MAG_CAP,
            decreases MAG_CAP - k, (if failed { 0int } else { 1int }),
        {
            let ghost pre = *self;
            match self.class_take(c) {
                None => {
                    failed = true;
                    proof {
                        lemma_view_trans(orig, pre, *self, Set::empty(), Set::empty());
                        assert(Set::<usize>::empty().union(Set::empty())
                            =~= Set::<usize>::empty());
                    }
                },
                Some(a) => {
                    let ghost took = *self;
                    let fr = &mut self.fronts[h];
                    let m = &mut fr[c];
                    m.front.push(a);
                    proof {
                        let post = *self;
                        lemma_view_trans(orig, pre, took, Set::empty(), Set::empty());
                        assert(Set::<usize>::empty().union(Set::empty())
                            =~= Set::<usize>::empty());
                        lemma_frame_outside_slabs(took, post);
                        lemma_view_trans(orig, took, post, Set::empty(), Set::empty());
                        assert(orig.same_view(post));
                        assert(mag_seq(post.fronts@[h as int]@[c as int]) == mag_seq(took.fronts@[h as int]@[c as int]).push(
                            a,
                        ));
                        lemma_push_front_wf(took, post, h as int, c as int, a);
                        assert(post.wf());
                    }
                    k = k + 1;
                },
            }
        }
        if self.fronts[h][c].front.len() > 0 {
            let ghost pre2 = *self;
            let a = self.mag_pop_user(h, c);
            proof {
                lemma_view_trans(orig, pre2, *self, Set::empty(), set![a]);
                assert(Set::<usize>::empty().union(set![a]) =~= set![a]);
                assert(!orig.is_live(a));
            }
            Some(a)
        } else {
            None
        }
    }
}


impl DynamicAllocator {
    /// Swap the two batches of class `c`'s magazine.
    #[verifier::spinoff_prover]
    fn mag_swap(&mut self, h: usize, c: usize)
        requires
            old(self).wf(),
            (h as int) < old(self).fronts@.len(),
            c < N_CLASSES,
        ensures
            final(self).wf(),
            old(self).same_view(*final(self)),
            old(self).same_cached_except(*final(self), Set::empty()),
            final(self).slabs@ == old(self).slabs@,
            final(self).larges@ == old(self).larges@,
            final(self).next_large == old(self).next_large,
            final(self).fronts@[h as int]@[c as int].front@ == old(self).fronts@[h as int]@[c as int].reserve@,
            final(self).fronts@[h as int]@[c as int].reserve@ == old(self).fronts@[h as int]@[c as int].front@,
            final(self).fronts@.len() == old(self).fronts@.len(),
            forall|h0: int, c0: int|
                0 <= h0 < old(self).fronts@.len() && 0 <= c0 < N_CLASSES && (h0 != h as int || c0
                    != c as int) ==> final(self).fronts@[h0]@[c0] == old(self).fronts@[h0]@[c0],
    {
        let ghost orig = *self;
        let fr = &mut self.fronts[h];
        let m = &mut fr[c];
        core::mem::swap(&mut m.front, &mut m.reserve);
        proof {
            let mid = *self;
            lemma_swap_front_wf(orig, mid, h as int, c as int);
            assert(mid.wf());
            lemma_frame_outside_slabs(orig, mid);
        }
    }

    /// Pop the front of class `c`'s magazine without changing its slot:
    /// the popped address is cached and no longer referenced by any
    /// magazine.
    #[verifier::spinoff_prover]
    fn mag_pop_cached(&mut self, h: usize, c: usize) -> (a: usize)
        requires
            old(self).wf(),
            (h as int) < old(self).fronts@.len(),
            c < N_CLASSES,
            old(self).fronts@[h as int]@[c as int].front@.len() > 0,
        ensures
            final(self).wf(),
            final(self).slabs@ == old(self).slabs@,
            final(self).larges@ == old(self).larges@,
            final(self).next_large == old(self).next_large,
            final(self).cached_in_class(a, c as int),
            forall|h0: int, c0: int, k: int|
                0 <= h0 < final(self).fronts@.len() && 0 <= c0 < N_CLASSES && 0 <= k < mag_seq(final(self).fronts@[h0]@[c0]).len()
                    ==> #[trigger] mag_seq(final(self).fronts@[h0]@[c0])[k] != a,
            final(self).fronts@[h as int]@[c as int].front@ == old(self).fronts@[h as int]@[c as int].front@.drop_last(),
            final(self).fronts@[h as int]@[c as int].reserve@ == old(self).fronts@[h as int]@[c as int].reserve@,
            final(self).fronts@.len() == old(self).fronts@.len(),
            forall|h0: int, c0: int|
                0 <= h0 < old(self).fronts@.len() && 0 <= c0 < N_CLASSES && (h0 != h as int || c0
                    != c as int) ==> final(self).fronts@[h0]@[c0] == old(self).fronts@[h0]@[c0],
            old(self).same_view(*final(self)),
            old(self).same_cached_except(*final(self), Set::empty()),
    {
        let ghost orig = *self;
        let fr = &mut self.fronts[h];
        let m = &mut fr[c];
        let a = m.front.pop().unwrap();
        proof {
            let post = *self;
            let seq0 = mag_seq(orig.fronts@[h as int]@[c as int]);
            assert(a == seq0[seq0.len() - 1]);
            assert(orig.cached_in_class(a, c as int));
            lemma_pop_front_wf(orig, post, h as int, c as int);
            assert(a == seq0.last());
            assert(post.wf());
            lemma_frame_outside_slabs(orig, post);
        }
        a
    }

    /// Free the live creek object at `p` into its class's magazine: push
    /// onto the front, swapping in the reserve when the front fills, and
    /// flushing a full batch back to the slabs when both batches fill.
    #[verifier::spinoff_prover]
    pub(crate) fn free_small(&mut self, h: usize, p: usize)
        requires
            old(self).wf(),
            (h as int) < old(self).fronts@.len(),
            old(self).creek_live(p),
        ensures
            final(self).wf(),
            !final(self).is_live(p),
            old(self).same_view_except(*final(self), set![p]),
            final(self).larges@ == old(self).larges@,
            final(self).next_large == old(self).next_large,
            final(self).fronts@.len() == old(self).fronts@.len(),
    {
        let ghost orig = *self;
        let (s, c, i) = self.locate(p);
        proof {
            lemma_creek_live_range(orig, p);
        }
        if self.fronts[h][c].front.len() >= MAG_CAP {
            self.mag_swap(h, c);
        }
        let ghost preflush = *self;
        proof {
            lemma_view_trans(orig, orig, preflush, Set::empty(), Set::empty());
            assert(Set::<usize>::empty().union(Set::empty()) =~= Set::<usize>::empty());
            assert(orig.same_view(preflush));
        }
        if self.fronts[h][c].front.len() >= MAG_CAP {
            // both batches are full: flush the whole front batch back to
            // the slabs
            while self.fronts[h][c].front.len() > 0
                invariant
                    self.wf(),
                    c < N_CLASSES,
                    (h as int) < self.fronts@.len(),
                    self.fronts@.len() == orig.fronts@.len(),
                    orig.same_view(*self),
                    self.larges@ == orig.larges@,
                    self.next_large == orig.next_large,
                    self.creek_live(p),
                    spec_slab_of(p as int) == s,
                    self.slabs@[s as int].class == c,
                    i == spec_obj_of(p as int, c as int),
                decreases self.fronts@[h as int]@[c as int].front@.len(),
            {
                let ghost pre = *self;
                let a2 = self.mag_pop_cached(h, c);
                let ghost mid = *self;
                self.release_object(a2);
                proof {
                    let post = *self;
                    assert(Set::<usize>::empty().union(Set::empty()) =~= Set::<usize>::empty());
                    lemma_view_trans(orig, pre, mid, Set::empty(), Set::empty());
                    lemma_view_trans(orig, mid, post, Set::empty(), Set::empty());
                    assert(post.is_live(p)) by {
                        assert(!Set::<usize>::empty().contains(p));
                        assert(pre.is_live(p));
                        assert(pre.is_live(p) <==> mid.is_live(p));
                        assert(mid.is_live(p) <==> post.is_live(p));
                    }
                    assert(post.creek_live(p)) by {
                        if post.large_live(p) {
                            let k = choose|k: int|
                                0 <= k < post.larges@.len() && (#[trigger] post.larges@[k]).base
                                    + HEADER_SIZE == p;
                            assert(post.larges@[k].base >= CREEK_END);
                            assert(false);
                        }
                    }
                    assert(post.slabs@[s as int].class == c) by {
                        assert(mid.slabs@[s as int].class == pre.slabs@[s as int].class);
                        assert(post.slabs@[s as int].class == mid.slabs@[s as int].class);
                    }
                }
            }
        }
        let ghost prepush = *self;
        // mark the slot cached, then record it in the front batch
        let slag = &mut self.slabs[s];
        slag.set_cached(i);
        let ghost cached_state = *self;
        let fr = &mut self.fronts[h];
        let m = &mut fr[c];
        m.front.push(p);
        proof {
            let post = *self;
            lemma_frame_slot(prepush, cached_state, s as int, i as int);
            assert(p == spec_obj_addr(s as int, c as int, i as int)) by {
                lemma_decode_encode(p as int, c as int);
            }
            assert(!cached_state.is_live(p)) by {
                assert(!cached_state.creek_live(p));
                if cached_state.large_live(p) {
                    let k = choose|k: int|
                        0 <= k < cached_state.larges@.len() && (
                        #[trigger] cached_state.larges@[k]).base + HEADER_SIZE == p;
                    assert(cached_state.larges@[k].base >= CREEK_END);
                    assert(false);
                }
            }
            // magazines after the push
            assert(mag_seq(post.fronts@[h as int]@[c as int]) == mag_seq(cached_state.fronts@[h as int]@[c as int]).push(
                p,
            ));
            assert(cached_state.cached_in_class(p, c as int)) by {
                assert(cached_state.slabs@[s as int].st@[i as int] == ObjSt::Cached);
            }
            assert forall|h0: int, c0: int, k: int|
                0 <= h0 < cached_state.fronts@.len() && 0 <= c0 < N_CLASSES && 0 <= k < mag_seq(
                    cached_state.fronts@[h0]@[c0],
                ).len() implies #[trigger] mag_seq(cached_state.fronts@[h0]@[c0])[k] != p by {
                assert(prepush.cached_in_class(mag_seq(prepush.fronts@[h0]@[c0])[k], c0));
                assert(prepush.slabs@[s as int].st@[i as int] == ObjSt::User);
            }
            assert(cached_state.wf()) by {
                assert(cached_state.fronts_wf()) by {
                    assert forall|h0: int, c0: int, k: int|
                        0 <= h0 < cached_state.fronts@.len() && 0 <= c0 < N_CLASSES && 0 <= k
                            < mag_seq(cached_state.fronts@[h0]@[c0]).len() implies
                        cached_state.cached_in_class(
                        #[trigger] mag_seq(cached_state.fronts@[h0]@[c0])[k],
                        c0,
                    ) by {
                        let e = mag_seq(prepush.fronts@[h0]@[c0])[k];
                        assert(prepush.cached_in_class(e, c0));
                        assert(e != p) by {
                            assert(prepush.slabs@[s as int].st@[i as int] == ObjSt::User);
                        }
                        assert(!set![p].contains(e));
                    }
                }
            }
            lemma_push_front_wf(cached_state, post, h as int, c as int, p);
            assert(post.fronts_wf());
            assert(post.slabs_wf());
            assert(post.pipes_wf()) by {
                assert forall|c0: int, k: int|
                    0 <= c0 < N_CLASSES && 0 <= k < post.pipes@[c0].len() implies {
                    let t = #[trigger] post.pipes@[c0]@[k];
                    &&& t < post.slabs@.len()
                    &&& post.slabs@[t as int].class == c0
                    &&& post.slabs@[t as int].state == SlagState::Active
                    &&& post.slabs@[t as int].pos == k
                } by {
                    let t = post.pipes@[c0]@[k];
                    assert(prepush.slabs@[t as int].state == SlagState::Active);
                }
            }
            assert(post.free_wf()) by {
                assert forall|k: int| 0 <= k < post.free_slabs@.len() implies {
                    let t = #[trigger] post.free_slabs@[k];
                    &&& t < post.slabs@.len()
                    &&& post.slabs@[t as int].state == SlagState::Unassigned
                    &&& post.slabs@[t as int].pos == k
                } by {
                    let t = post.free_slabs@[k];
                    assert(prepush.slabs@[t as int].state == SlagState::Unassigned);
                    assert(t != s);
                }
            }
            assert(post.wf());
            // the view loses exactly `p`
            assert forall|p0: usize| !set![p].contains(p0) implies (orig.is_live(p0)
                <==> #[trigger] post.is_live(p0)) && (orig.is_live(p0) ==> post.data_at(p0)
                == orig.data_at(p0)) by {
                assert(!Set::<usize>::empty().contains(p0));
                assert(orig.is_live(p0) <==> prepush.is_live(p0));
                assert(prepush.is_live(p0) <==> cached_state.is_live(p0));
                assert(cached_state.is_live(p0) <==> post.is_live(p0)) by {
                    assert(cached_state.creek_live(p0) <==> post.creek_live(p0));
                    if cached_state.large_live(p0) {
                        let k = choose|k: int|
                            0 <= k < cached_state.larges@.len() && (
                            #[trigger] cached_state.larges@[k]).base + HEADER_SIZE == p0;
                        assert(post.larges@[k].base + HEADER_SIZE == p0);
                    }
                    if post.large_live(p0) {
                        let k = choose|k: int|
                            0 <= k < post.larges@.len() && (#[trigger] post.larges@[k]).base
                                + HEADER_SIZE == p0;
                        assert(cached_state.larges@[k].base + HEADER_SIZE == p0);
                    }
                }
                if orig.is_live(p0) {
                    assert(post.data_at(p0) == cached_state.data_at(p0)) by {
                        if cached_state.creek_live(p0) {
                        } else {
                            let ka = choose|k: int|
                                0 <= k < cached_state.larges@.len() && (
                                #[trigger] cached_state.larges@[k]).base + HEADER_SIZE == p0;
                            let kb = choose|k: int|
                                0 <= k < post.larges@.len() && (#[trigger] post.larges@[k]).base
                                    + HEADER_SIZE == p0;
                            assert(cached_state.larges@[ka].base == cached_state.larges@[kb].base);
                            if ka != kb {
                                assert(false);
                            }
                        }
                    }
                }
            }
            assert(!post.is_live(p)) by {
                assert(!post.creek_live(p));
                if post.large_live(p) {
                    let k = choose|k: int|
                        0 <= k < post.larges@.len() && (#[trigger] post.larges@[k]).base
                            + HEADER_SIZE == p;
                    assert(post.larges@[k].base >= CREEK_END);
                    assert(false);
                }
            }
            assert(orig.same_view_except(post, set![p]));
        }
    }
}


impl DynamicAllocator {
    /// Where the large path would map its next block.
    pub closed spec fn large_cursor(self) -> int {
        self.next_large as int
    }

    /// The large path can serve a request of `n` bytes: the padded,
    /// page-rounded mapping still fits below the top of the address
    /// space.
    pub open spec fn can_alloc_large(self, n: usize) -> bool {
        &&& n <= usize::MAX - HEADER_SIZE - 4095
    &&& self.large_cursor() + HEADER_SIZE + spec_round_page(n as int) <= usize::MAX
    }

    /// Map one large block: a header page then the page-rounded payload,
    /// placed at the bump cursor. Returns the payload address, or 0 when
    /// the mapping would overrun the address space.
    #[verifier::spinoff_prover]
    pub(crate) fn alloc_large(&mut self, n: usize) -> (r: usize)
        requires
            old(self).wf(),
        ensures
            final(self).wf(),
            final(self).slabs@ == old(self).slabs@,
            final(self).fronts@ == old(self).fronts@,
            old(self).same_cached_except(*final(self), Set::empty()),
            r == 0 ==> *final(self) == *old(self) && !old(self).can_alloc_large(n),
            old(self).can_alloc_large(n) ==> r != 0,
            r != 0 ==> final(self).large_cursor() == old(self).large_cursor() + HEADER_SIZE
                + spec_round_page(n as int),
            r != 0 ==> {
                &&& final(self).is_live(r)
                &&& !old(self).is_live(r)
                &&& old(self).same_view_except(*final(self), set![r])
                &&& final(self).data_at(r).len() == spec_round_page(n as int)
                &&& final(self).data_at(r).len() >= n
                &&& final(self).large_requested(r) == n
                &&& r % HEADER_SIZE == 0
                &&& r > CREEK_END
            },
    {
        let ghost orig = *self;
        proof {
            lemma_round_page(n as int);
        }
        if n > usize::MAX - HEADER_SIZE - 4095 {
            return 0;
        }
        let payload = ((n + 4095) / 4096) * 4096;
        if self.next_large > usize::MAX - HEADER_SIZE || usize::MAX - HEADER_SIZE - self.next_large
            < payload {
            return 0;
        }
        let base = self.next_large;
        let total = HEADER_SIZE + payload;
        self.next_large = base + total;
        self.larges.push(LargeBlock { base, total, requested: n, bytes: vec![0u8; payload] });
        proof {
            let post = *self;
            assert(payload % 4096 == 0) by {
                assert(payload == spec_round_page(n as int));
            }
            assert(post.larges@.last().base == base);
            assert forall|k: int| 0 <= k < orig.larges@.len() implies post.larges@[k]
                == orig.larges@[k] by {}
            lemma_frame_large_push(orig, post);
            assert(post.larges_wf()) by {
                assert forall|k: int| 0 <= k < post.larges@.len() implies {
                    let b = #[trigger] post.larges@[k];
                    &&& CREEK_END <= b.base
                    &&& b.base % HEADER_SIZE == 0
                    &&& b.total % HEADER_SIZE == 0
                    &&& HEADER_SIZE <= b.total
                    &&& b.base + b.total <= post.next_large
                    &&& b.bytes@.len() == b.total - HEADER_SIZE
                } by {
                    if k < orig.larges@.len() {
                        assert(post.larges@[k] == orig.larges@[k]);
                    }
                }
                assert forall|k1: int, k2: int|
                    0 <= k1 < k2 < post.larges@.len() implies (#[trigger] post.larges@[k1]).base
                    != (#[trigger] post.larges@[k2]).base by {
                    if k2 == post.larges@.len() - 1 {
                        assert(post.larges@[k1] == orig.larges@[k1]);
                        assert(orig.larges@[k1].base + orig.larges@[k1].total <= orig.next_large);
                    } else {
                        assert(post.larges@[k1] == orig.larges@[k1]);
                        assert(post.larges@[k2] == orig.larges@[k2]);
                    }
                }
            }
            assert(post.fronts_wf()) by {
                assert forall|h0: int, c0: int, k: int|
                    0 <= h0 < post.fronts@.len() && 0 <= c0 < N_CLASSES && 0 <= k < mag_seq(post.fronts@[h0]@[c0]).len() implies
                    post.cached_in_class(#[trigger] mag_seq(post.fronts@[h0]@[c0])[k], c0) by {
                    assert(orig.cached_in_class(mag_seq(orig.fronts@[h0]@[c0])[k], c0));
                }
            }
            assert(post.pipes_wf()) by {
                assert forall|c0: int, k: int|
                    0 <= c0 < N_CLASSES && 0 <= k < post.pipes@[c0].len() implies {
                    let t = #[trigger] post.pipes@[c0]@[k];
                    &&& t < post.slabs@.len()
                    &&& post.slabs@[t as int].class == c0
                    &&& post.slabs@[t as int].state == SlagState::Active
                    &&& post.slabs@[t as int].pos == k
                } by {
                    assert(orig.slabs@[post.pipes@[c0]@[k] as int].state == SlagState::Active);
                }
            }
            assert(post.data_at((base + HEADER_SIZE) as usize) == post.larges@.last().bytes@);
            assert(post.data_at((base + HEADER_SIZE) as usize).len() == payload) by {
                let blk = post.larges@.last();
                assert(blk.bytes@.len() == payload);
            }
        }
        base + HEADER_SIZE
    }

    /// Unmap the large block whose payload starts at `p`.
    #[verifier::spinoff_prover]
    pub(crate) fn free_large(&mut self, p: usize)
        requires
            old(self).wf(),
            old(self).large_live(p),
        ensures
            final(self).wf(),
            !final(self).is_live(p),
            old(self).same_view_except(*final(self), set![p]),
            final(self).slabs@ == old(self).slabs@,
            final(self).fronts@ == old(self).fronts@,
            final(self).next_large == old(self).next_large,
            final(self).large_cursor() == old(self).large_cursor(),
            old(self).same_cached_except(*final(self), Set::empty()),
    {
        let ghost orig = *self;
        let mut k: usize = 0;
        let n = self.larges.len();
        while k < n
            invariant
                *self == orig,
                orig == *old(self),
                orig.wf(),
                n == orig.larges@.len(),
                k <= n,
                orig.large_live(p),
                forall|j: int| 0 <= j < k ==> (#[trigger] orig.larges@[j]).base + HEADER_SIZE != p,
            decreases n - k,
        {
            if self.larges[k].base == p - HEADER_SIZE {
                proof {
                    assert(orig.larges@[k as int].base + HEADER_SIZE == p) by {
                        assert(orig.larges_wf());
                        let j = choose|j: int|
                            0 <= j < orig.larges@.len() && (#[trigger] orig.larges@[j]).base
                                + HEADER_SIZE == p;
                        assert(orig.larges@[j].base == p - HEADER_SIZE);
                        assert(p >= HEADER_SIZE);
                    }
                }
                self.larges.swap_remove(k);
                proof {
                    let post = *self;
                    lemma_frame_large_remove(orig, post, k as int);
                    assert forall|q: usize| !set![p].contains(q) implies (orig.is_live(q)
                        <==> #[trigger] post.is_live(q)) && (orig.is_live(q) ==> post.data_at(q)
                        == orig.data_at(q)) by {
                        assert(q != p);
                        assert(q != orig.larges@[k as int].base + HEADER_SIZE);
                    }
                    assert(orig.same_view_except(post, set![p]));
                    assert(post.larges_wf()) by {
                        let m = orig.larges@.len() as int;
                        assert forall|j: int| 0 <= j < post.larges@.len() implies {
                            let b = #[trigger] post.larges@[j];
                            &&& CREEK_END <= b.base
                            &&& b.base % HEADER_SIZE == 0
                            &&& b.total % HEADER_SIZE == 0
                            &&& HEADER_SIZE <= b.total
                            &&& b.base + b.total <= post.next_large
                            &&& b.bytes@.len() == b.total - HEADER_SIZE
                        } by {
                            if j == k as int {
                                assert(post.larges@[j] == orig.larges@[m - 1]);
                            } else {
                                assert(post.larges@[j] == orig.larges@[j]);
                            }
                        }
                        assert forall|j1: int, j2: int|
                            0 <= j1 < j2 < post.larges@.len() implies (
                        #[trigger] post.larges@[j1]).base != (#[trigger] post.larges@[j2]).base by {
                            let o1 = if j1 == k as int { m - 1 } else { j1 };
                            let o2 = if j2 == k as int { m - 1 } else { j2 };
                            assert(post.larges@[j1] == orig.larges@[o1]);
                            assert(post.larges@[j2] == orig.larges@[o2]);
                            assert(o1 != o2);
                        }
                    }
                    assert(post.fronts_wf()) by {
                        assert forall|h0: int, c0: int, kk: int|
                            0 <= h0 < post.fronts@.len() && 0 <= c0 < N_CLASSES && 0 <= kk < mag_seq(post.fronts@[h0]@[c0]).len() implies
                            post.cached_in_class(#[trigger] mag_seq(post.fronts@[h0]@[c0])[kk], c0) by {
                            assert(orig.cached_in_class(mag_seq(orig.fronts@[h0]@[c0])[kk], c0));
                        }
                    }
                    assert(post.pipes_wf()) by {
                        assert forall|c0: int, kk: int|
                            0 <= c0 < N_CLASSES && 0 <= kk < post.pipes@[c0].len() implies {
                            let t = #[trigger] post.pipes@[c0]@[kk];
                            &&& t < post.slabs@.len()
                            &&& post.slabs@[t as int].class == c0
                            &&& post.slabs@[t as int].state == SlagState::Active
                            &&& post.slabs@[t as int].pos == kk
                        } by {
                            assert(orig.slabs@[post.pipes@[c0]@[kk] as int].state
                                == SlagState::Active);
                        }
                    }
                }
                return ;
            }
            proof {
                assert(orig.larges@[k as int].base + HEADER_SIZE != p) by {
                    if orig.larges@[k as int].base + HEADER_SIZE == p {
                        assert(orig.larges_wf());
                        assert(orig.larges@[k as int].base == p - HEADER_SIZE);
                    }
                }
            }
            k = k + 1;
        }
        proof {
            let j = choose|j: int|
                0 <= j < orig.larges@.len() && (#[trigger] orig.larges@[j]).base + HEADER_SIZE
                    == p;
            assert(false);
        }
    }
}


/// Frame for rewriting the payload bytes of the large block at table
/// index `k` in place: liveness does not move, and only that payload's
/// bytes change.
pub(crate) proof fn lemma_frame_large_update(a: DynamicAllocator, b: DynamicAllocator, k: int)
    requires
        b.slabs@ == a.slabs@,
        a.slabs_wf(),
        a.larges_wf(),
        0 <= k < a.larges@.len(),
        b.larges@.len() == a.larges@.len(),
        forall|j: int| 0 <= j < a.larges@.len() && j != k ==> b.larges@[j] == a.larges@[j],
        b.larges@[k].base == a.larges@[k].base,
        b.larges@[k].total == a.larges@[k].total,
        b.larges@[k].requested == a.larges@[k].requested,
    ensures
        forall|q: usize| a.is_live(q) <==> #[trigger] b.is_live(q),
        forall|q: usize|
            q != a.larges@[k].base + HEADER_SIZE && #[trigger] a.is_live(q) ==> b.data_at(q)
                == a.data_at(q),
        a.same_cached_except(b, Set::empty()),
        b.data_at((a.larges@[k].base + HEADER_SIZE) as usize) == b.larges@[k].bytes@,
{
    let p0 = (a.larges@[k].base + HEADER_SIZE) as usize;
    assert forall|q: usize| (a.is_live(q) <==> #[trigger] b.is_live(q)) && (q != a.larges@[k].base
        + HEADER_SIZE && a.is_live(q) ==> b.data_at(q) == a.data_at(q)) by {
        assert(a.creek_live(q) <==> b.creek_live(q));
        if a.large_live(q) {
            let j = choose|j: int|
                0 <= j < a.larges@.len() && (#[trigger] a.larges@[j]).base + HEADER_SIZE == q;
            assert(b.larges@[j].base + HEADER_SIZE == q);
            assert(b.large_live(q));
        }
        if b.large_live(q) {
            let j = choose|j: int|
                0 <= j < b.larges@.len() && (#[trigger] b.larges@[j]).base + HEADER_SIZE == q;
            assert(a.larges@[j].base + HEADER_SIZE == q);
            assert(a.large_live(q));
        }
        if q != a.larges@[k].base + HEADER_SIZE && a.is_live(q) && !a.creek_live(q) {
            let ja = choose|j: int|
                0 <= j < a.larges@.len() && (#[trigger] a.larges@[j]).base + HEADER_SIZE == q;
            let jb = choose|j: int|
                0 <= j < b.larges@.len() && (#[trigger] b.larges@[j]).base + HEADER_SIZE == q;
            assert(a.larges@[ja].base == a.larges@[jb].base);
            if ja != jb {
                assert(false);
            }
            assert(ja != k);
            assert(b.data_at(q) == b.larges@[jb].bytes@);
            assert(a.data_at(q) == a.larges@[ja].bytes@);
        }
    }
    assert forall|q: usize, cc: int| !Set::<usize>::empty().contains(q) implies (a.cached_in_class(
        q,
        cc,
    ) <==> #[trigger] b.cached_in_class(q, cc)) by {}
    assert(b.large_live(p0)) by {
        assert(b.larges@[k].base + HEADER_SIZE == p0);
    }
    assert(!b.creek_live(p0)) by {
        if b.creek_live(p0) {
            assert(a.creek_live(p0));
            lemma_creek_live_range(a, p0);
        }
    }
    let jb = choose|j: int|
        0 <= j < b.larges@.len() && (#[trigger] b.larges@[j]).base + HEADER_SIZE == p0;
    if jb != k {
        assert(b.larges@[jb].base == a.larges@[jb].base);
        assert(a.larges@[jb].base == a.larges@[k].base);
        assert(false);
    }
}

impl DynamicAllocator {
    /// Whether `p` lies in the creek's address range.
    pub fn contains(&self, p: usize) -> (r: bool)
        ensures
            r == self.in_creek(p),
    {
        CREEK_BASE <= p && p < CREEK_END
    }

    /// Find the table index of the live large block whose payload starts
    /// at `p`.
    fn find_large(&self, p: usize) -> (k: usize)
        requires
            self.wf(),
            self.large_live(p),
        ensures
            (k as int) < self.larges@.len(),
            self.larges@[k as int].base + HEADER_SIZE == p,
            !self.creek_live(p),
            self.data_at(p) == self.larges@[k as int].bytes@,
            self.granted(p) == self.larges@[k as int].total - HEADER_SIZE,
            self.large_requested(p) == self.larges@[k as int].requested,
    {
        proof {
            lemma_large_creek_disjoint(*self, p);
        }
        let mut k: usize = 0;
        let n = self.larges.len();
        while k < n
            invariant
                self.wf(),
                self.large_live(p),
                n == self.larges@.len(),
                k <= n,
                forall|j: int| 0 <= j < k ==> (#[trigger] self.larges@[j]).base + HEADER_SIZE != p,
            decreases n - k,
        {
            if self.larges[k].base == p - HEADER_SIZE {
                proof {
                    assert(self.larges@[k as int].base + HEADER_SIZE == p) by {
                        let j = choose|j: int|
                            0 <= j < self.larges@.len() && (#[trigger] self.larges@[j]).base
                                + HEADER_SIZE == p;
                        assert(self.larges@[j].base == p - HEADER_SIZE);
                        assert(p >= HEADER_SIZE);
                    }
                    assert(!self.creek_live(p));
                    let j = choose|j: int|
                        0 <= j < self.larges@.len() && (#[trigger] self.larges@[j]).base
                            + HEADER_SIZE == p;
                    assert(self.larges@[j].base == self.larges@[k as int].base);
                    if j != k as int {
                        assert(false);
                    }
                    assert(self.data_at(p) == self.larges@[k as int].bytes@);
                    assert(self.large_requested(p) == self.larges@[j].requested as int);
                }
                return k;
            }
            proof {
                if self.larges@[k as int].base + HEADER_SIZE == p {
                    assert(self.larges@[k as int].base == p - HEADER_SIZE);
                }
            }
            k = k + 1;
        }
        proof {
            let j = choose|j: int|
                0 <= j < self.larges@.len() && (#[trigger] self.larges@[j]).base + HEADER_SIZE
                    == p;
            assert(false);
        }
        0
    }

    /// Number of bytes backing the live block at `p`, executable form.
    fn granted_len(&self, p: usize) -> (r: usize)
        requires
            self.wf(),
            self.is_live(p),
        ensures
            r == self.granted(p),
    {
        if CREEK_BASE <= p && p < CREEK_END {
            proof {
                if !self.creek_live(p) {
                    lemma_large_creek_disjoint(*self, p);
                    let j = choose|j: int|
                        0 <= j < self.larges@.len() && (#[trigger] self.larges@[j]).base
                            + HEADER_SIZE == p;
                    assert(self.larges@[j].base >= CREEK_END);
                    assert(false);
                }
            }
            let (s, c, i) = self.locate(p);
            proof {
                assert(self.slabs@[s as int].wf());
                assert(self.data_at(p) == self.slabs@[s as int].objs@[i as int]@);
            }
            crate::layout::class_size(c)
        } else {
            proof {
                if self.creek_live(p) {
                    lemma_creek_live_range(*self, p);
                }
            }
            let k = self.find_large(p);
            let lb = &self.larges[k];
            lb.bytes.len()
        }
    }

    /// Read the byte at offset `off` of the live block at `p`.
    pub fn read(&self, p: usize, off: usize) -> (b: u8)
        requires
            self.wf(),
            self.is_live(p),
            off < self.granted(p),
        ensures
            b == self.data_at(p)[off as int],
    {
        if CREEK_BASE <= p && p < CREEK_END {
            proof {
                if !self.creek_live(p) {
                    lemma_large_creek_disjoint(*self, p);
                    let j = choose|j: int|
                        0 <= j < self.larges@.len() && (#[trigger] self.larges@[j]).base
                            + HEADER_SIZE == p;
                    assert(self.larges@[j].base >= CREEK_END);
                    assert(false);
                }
            }
            let (s, c, i) = self.locate(p);
            proof {
                assert(self.slabs@[s as int].wf());
                assert(self.data_at(p) == self.slabs@[s as int].objs@[i as int]@);
            }
            let slab = &self.slabs[s];
            let ov = &slab.objs[i];
            ov[off]
        } else {
            proof {
                if self.creek_live(p) {
                    lemma_creek_live_range(*self, p);
                }
            }
            let k = self.find_large(p);
            let lb = &self.larges[k];
            lb.bytes[off]
        }
    }

    /// Write byte `b` at offset `off` of the live block at `p`. Only that
    /// block's bytes change; no block appears or disappears.
    #[verifier::spinoff_prover]
    pub fn write(&mut self, p: usize, off: usize, b: u8)
        requires
            old(self).wf(),
            old(self).is_live(p),
            off < old(self).granted(p),
        ensures
            final(self).wf(),
            final(self).is_live(p),
            final(self).data_at(p) == old(self).data_at(p).update(off as int, b),
            final(self).granted(p) == old(self).granted(p),
            old(self).same_view_except(*final(self), set![p]),
            forall|q: usize| old(self).is_live(q) <==> #[trigger] final(self).is_live(q),
            final(self).large_cursor() == old(self).large_cursor(),
    {
        let ghost orig = *self;
        if CREEK_BASE <= p && p < CREEK_END {
            proof {
                if !self.creek_live(p) {
                    lemma_large_creek_disjoint(*self, p);
                    let j = choose|j: int|
                        0 <= j < self.larges@.len() && (#[trigger] self.larges@[j]).base
                            + HEADER_SIZE == p;
                    assert(self.larges@[j].base >= CREEK_END);
                    assert(false);
                }
                assert(self.data_at(p) == self.slabs@[spec_slab_of(p as int) as int].objs@[
                    spec_obj_of(
                        p as int,
                        self.slabs@[spec_slab_of(p as int) as int].class as int,
                    )]@);
            }
            let (s, c, i) = self.locate(p);
            let slag = &mut self.slabs[s];
            let ov = &mut slag.objs[i];
            ov.set(off, b);
            proof {
                let post = *self;
                assert(post.slabs@[s as int].wf()) by {
                    assert forall|j: int|
                        0 <= j < post.slabs@[s as int].objs.len() implies (#[trigger] post.slabs@[
                        s as int].objs[j]).len() == spec_class_size(
                        post.slabs@[s as int].class as int,
                    ) by {
                        if j != i {
                            assert(post.slabs@[s as int].objs@[j] == orig.slabs@[s as int].objs@[
                                j]);
                        }
                    }
                }
                lemma_frame_slot(orig, post, s as int, i as int);
                assert(p == spec_obj_addr(s as int, c as int, i as int));
                assert(post.creek_live(p));
                assert(post.data_at(p) == post.slabs@[s as int].objs@[i as int]@);
                assert(post.data_at(p) == orig.data_at(p).update(off as int, b));
                assert(post.pipes_wf()) by {
                    assert forall|c0: int, k: int|
                        0 <= c0 < N_CLASSES && 0 <= k < post.pipes@[c0].len() implies {
                        let t = #[trigger] post.pipes@[c0]@[k];
                        &&& t < post.slabs@.len()
                        &&& post.slabs@[t as int].class == c0
                        &&& post.slabs@[t as int].state == SlagState::Active
                        &&& post.slabs@[t as int].pos == k
                    } by {
                        assert(orig.slabs@[post.pipes@[c0]@[k] as int].state == SlagState::Active);
                    }
                }
                assert(post.free_wf()) by {
                    assert forall|k: int| 0 <= k < post.free_slabs@.len() implies {
                        let t = #[trigger] post.free_slabs@[k];
                        &&& t < post.slabs@.len()
                        &&& post.slabs@[t as int].state == SlagState::Unassigned
                        &&& post.slabs@[t as int].pos == k
                    } by {
                        assert(orig.slabs@[post.free_slabs@[k] as int].state
                            == SlagState::Unassigned);
                    }
                }
                assert(post.fronts_wf()) by {
                    assert forall|h0: int, c0: int, k: int|
                        0 <= h0 < post.fronts@.len() && 0 <= c0 < N_CLASSES && 0 <= k < mag_seq(post.fronts@[h0]@[c0]).len() implies
                        post.cached_in_class(#[trigger] mag_seq(post.fronts@[h0]@[c0])[k], c0) by {
                        let e = mag_seq(post.fronts@[h0]@[c0])[k];
                        assert(orig.cached_in_class(e, c0));
                        assert(e != p) by {
                            assert(orig.slabs@[s as int].st@[i as int] == ObjSt::User);
                        }
                        assert(!set![p].contains(e));
                    }
                }
                assert forall|q: usize| orig.is_live(q) <==> #[trigger] post.is_live(q) by {
                    if q != p {
                        assert(!set![p].contains(q));
                    }
                }
            }
        } else {
            proof {
                if self.creek_live(p) {
                    lemma_creek_live_range(*self, p);
                }
            }
            let k = self.find_large(p);
            let lb = &mut self.larges[k];
            let bv = &mut lb.bytes;
            bv.set(off, b);
            proof {
                let post = *self;
                lemma_frame_large_update(orig, post, k as int);
                assert(post.larges_wf()) by {
                    assert forall|j: int| 0 <= j < post.larges@.len() implies {
                        let blk = #[trigger] post.larges@[j];
                        &&& CREEK_END <= blk.base
                        &&& blk.base % HEADER_SIZE == 0
                        &&& blk.total % HEADER_SIZE == 0
                        &&& HEADER_SIZE <= blk.total
                        &&& blk.base + blk.total <= post.next_large
                        &&& blk.bytes@.len() == blk.total - HEADER_SIZE
                    } by {
                        if j != k as int {
                            assert(post.larges@[j] == orig.larges@[j]);
                        }
                    }
                    assert forall|j1: int, j2: int|
                        0 <= j1 < j2 < post.larges@.len() implies (
                    #[trigger] post.larges@[j1]).base != (#[trigger] post.larges@[j2]).base by {
                        assert(post.larges@[j1].base == orig.larges@[j1].base);
                        assert(post.larges@[j2].base == orig.larges@[j2].base);
                    }
                }
                assert(post.fronts_wf()) by {
                    assert forall|h0: int, c0: int, kk: int|
                        0 <= h0 < post.fronts@.len() && 0 <= c0 < N_CLASSES && 0 <= kk < mag_seq(post.fronts@[h0]@[c0]).len() implies
                        post.cached_in_class(#[trigger] mag_seq(post.fronts@[h0]@[c0])[kk], c0) by {
                        assert(orig.cached_in_class(mag_seq(orig.fronts@[h0]@[c0])[kk], c0));
                    }
                }
                assert(post.pipes_wf()) by {
                    assert forall|c0: int, kk: int|
                        0 <= c0 < N_CLASSES && 0 <= kk < post.pipes@[c0].len() implies {
                        let t = #[trigger] post.pipes@[c0]@[kk];
                        &&& t < post.slabs@.len()
                        &&& post.slabs@[t as int].class == c0
                        &&& post.slabs@[t as int].state == SlagState::Active
                        &&& post.slabs@[t as int].pos == kk
                    } by {
                        assert(orig.slabs@[post.pipes@[c0]@[kk] as int].state
                            == SlagState::Active);
                    }
                }
                assert(post.data_at(p) == post.larges@[k as int].bytes@);
                assert(post.data_at(p) == orig.data_at(p).update(off as int, b));
                assert(post.is_live(p));
                assert forall|q: usize| !set![p].contains(q) implies (orig.is_live(q)
                    <==> #[trigger] post.is_live(q)) && (orig.is_live(q) ==> post.data_at(q)
                    == orig.data_at(q)) by {
                    assert(q != orig.larges@[k as int].base + HEADER_SIZE);
                }
            }
        }
    }

    /// Allocate `n` bytes through the front end of handle `h`: below
    /// `MAX_SIZE` through that handle's magazine for the request's size
    /// class, falling back to the large path once the creek is exhausted;
    /// at or above `MAX_SIZE` straight through the large path. Returns 0
    /// only when even the large path cannot map the block. The block
    /// becomes live for the whole allocator: any handle may free it.
    pub fn allocate_via(&mut self, h: usize, n: usize) -> (r: usize)
        requires
            old(self).wf(),
            (h as int) < old(self).n_handles(),
        ensures
            final(self).wf(),
            final(self).n_handles() == old(self).n_handles(),
            old(self).can_alloc_large(n) ==> r != 0,
            r == 0 ==> old(self).same_view(*final(self)) && !old(self).can_alloc_large(n),
            old(self).large_cursor() <= final(self).large_cursor() <= old(self).large_cursor()
                + HEADER_SIZE + spec_round_page(n as int),
            r != 0 && r < CREEK_END ==> final(self).large_cursor() == old(self).large_cursor(),
            r == 0 ==> final(self).large_cursor() == old(self).large_cursor(),
            r != 0 ==> {
                &&& final(self).is_live(r)
                &&& !old(self).is_live(r)
                &&& old(self).same_view_except(*final(self), set![r])
                &&& final(self).granted(r) >= n
                &&& (r as int) % spec_align_of(n as int) == 0
                &&& (r < CREEK_END ==> final(self).granted(r) == spec_class_size(
                    spec_class_of(n as int),
                ))
                &&& (r >= CREEK_END ==> final(self).granted(r) == spec_round_page(n as int)
                    && final(self).large_requested(r) == n)
            },
    {
        let ghost orig = *self;
        proof {
            lemma_round_page(n as int);
        }
        if n < MAX_SIZE {
            let c = class_of(n);
            match self.alloc_small(h, c) {
                Some(a) => {
                    proof {
                        lemma_class_of_fits(n as int);
                        lemma_decode_encode(a as int, c as int);
                        lemma_align_of(n as int);
                        lemma_aligned_sum(
                            a as int,
                            spec_slab_of(a as int),
                            spec_obj_of(a as int, c as int),
                            spec_class_size(c as int),
                            spec_align_of(n as int),
                        );
                    }
                    a
                },
                None => {
                    let ghost mid = *self;
                    let r = self.alloc_large(n);
                    proof {
                        lemma_align_of(n as int);
                        if r != 0 {
                            lemma_view_trans(orig, mid, *self, Set::empty(), set![r]);
                            assert(Set::<usize>::empty().union(set![r]) =~= set![r]);
                            assert(!orig.is_live(r)) by {
                                assert(!Set::<usize>::empty().contains(r));
                            }
                            lemma_round_page(n as int);
                            lemma_mod_divides(
                                r as int,
                                HEADER_SIZE as int,
                                spec_align_of(n as int),
                            );
                        } else {
                            lemma_view_trans(orig, mid, *self, Set::empty(), Set::empty());
                            assert(Set::<usize>::empty().union(Set::empty())
                                =~= Set::<usize>::empty());
                            assert(!orig.can_alloc_large(n)) by {
                                assert(mid.next_large == orig.next_large);
                            }
                        }
                    }
                    r
                },
            }
        } else {
            let r = self.alloc_large(n);
            proof {
                lemma_align_of(n as int);
                if r != 0 {
                    lemma_round_page(n as int);
                    lemma_mod_divides(r as int, HEADER_SIZE as int, spec_align_of(n as int));
                }
            }
            r
        }
    }

    /// Free the live block at `p` through the front end of handle `h`:
    /// creek blocks return through that handle's magazine for their
    /// class, large blocks are unmapped. Liveness belongs to the whole
    /// allocator, so the freeing handle need not be the one that
    /// allocated the block.
    pub fn free_via(&mut self, h: usize, p: usize)
        requires
            old(self).wf(),
            (h as int) < old(self).n_handles(),
            old(self).is_live(p),
        ensures
            final(self).wf(),
            final(self).n_handles() == old(self).n_handles(),
            !final(self).is_live(p),
            old(self).same_view_except(*final(self), set![p]),
            final(self).large_cursor() == old(self).large_cursor(),
    {
        if CREEK_BASE <= p && p < CREEK_END {
            proof {
                if !self.creek_live(p) {
                    lemma_large_creek_disjoint(*self, p);
                    let j = choose|j: int|
                        0 <= j < self.larges@.len() && (#[trigger] self.larges@[j]).base
                            + HEADER_SIZE == p;
                    assert(self.larges@[j].base >= CREEK_END);
                    assert(false);
                }
            }
            self.free_small(h, p);
        } else {
            proof {
                if self.creek_live(p) {
                    lemma_creek_live_range(*self, p);
                }
            }
            self.free_large(p);
        }
    }

    /// Allocate `n` bytes through the first handle's front end.
    pub fn allocate(&mut self, n: usize) -> (r: usize)
        requires
            old(self).wf(),
        ensures
            final(self).wf(),
            final(self).n_handles() == old(self).n_handles(),
            old(self).can_alloc_large(n) ==> r != 0,
            r == 0 ==> old(self).same_view(*final(self)) && !old(self).can_alloc_large(n),
            old(self).large_cursor() <= final(self).large_cursor() <= old(self).large_cursor()
                + HEADER_SIZE + spec_round_page(n as int),
            r != 0 && r < CREEK_END ==> final(self).large_cursor() == old(self).large_cursor(),
            r == 0 ==> final(self).large_cursor() == old(self).large_cursor(),
            r != 0 ==> {
                &&& final(self).is_live(r)
                &&& !old(self).is_live(r)
                &&& old(self).same_view_except(*final(self), set![r])
                &&& final(self).granted(r) >= n
                &&& (r as int) % spec_align_of(n as int) == 0
                &&& (r < CREEK_END ==> final(self).granted(r) == spec_class_size(
                    spec_class_of(n as int),
                ))
                &&& (r >= CREEK_END ==> final(self).granted(r) == spec_round_page(n as int)
                    && final(self).large_requested(r) == n)
            },
    {
        self.allocate_via(0, n)
    }

    /// Free the live block at `p` through the first handle's front end.
    pub fn free(&mut self, p: usize)
        requires
            old(self).wf(),
            old(self).is_live(p),
        ensures
            final(self).wf(),
            final(self).n_handles() == old(self).n_handles(),
            !final(self).is_live(p),
            old(self).same_view_except(*final(self), set![p]),
            final(self).large_cursor() == old(self).large_cursor(),
    {
        self.free_via(0, p)
    }

    /// Open a new handle on this allocator: a fresh, empty front end
    /// over the same shared back end. Blocks stay live for every handle;
    /// any handle may free what any other allocated.
    pub fn new_handle(&mut self) -> (h: usize)
        requires
            old(self).wf(),
        ensures
            final(self).wf(),
            (h as int) == old(self).n_handles(),
            final(self).n_handles() == old(self).n_handles() + 1,
            old(self).same_view(*final(self)),
            final(self).large_cursor() == old(self).large_cursor(),
    {
        let ghost orig = *self;
        let mut row: Vec<Magazine> = Vec::new();
        let mut c: usize = 0;
        while c < N_CLASSES
            invariant
                row@.len() == c,
                c <= N_CLASSES,
                forall|j: int|
                    0 <= j < c ==> (#[trigger] row@[j]).front@.len() == 0 && row@[j].reserve@.len()
                        == 0,
            decreases N_CLASSES - c,
        {
            row.push(Magazine { front: Vec::new(), reserve: Vec::new() });
            c = c + 1;
        }
        let h = self.fronts.len();
        self.fronts.push(row);
        proof {
            let post = *self;
            assert(post.fronts_wf()) by {
                assert forall|h0: int, c0: int, k: int|
                    0 <= h0 < post.fronts@.len() && 0 <= c0 < N_CLASSES && 0 <= k < mag_seq(
                        post.fronts@[h0]@[c0],
                    ).len() implies post.cached_in_class(
                    #[trigger] mag_seq(post.fronts@[h0]@[c0])[k],
                    c0,
                ) by {
                    if h0 < orig.fronts@.len() {
                        assert(orig.cached_in_class(mag_seq(orig.fronts@[h0]@[c0])[k], c0));
                    } else {
                        assert(mag_seq(post.fronts@[h0]@[c0]).len() == 0);
                    }
                }
                assert forall|h0: int, c0: int, k1: int, k2: int|
                    0 <= h0 < post.fronts@.len() && 0 <= c0 < N_CLASSES && 0 <= k1 < k2 < mag_seq(
                        post.fronts@[h0]@[c0],
                    ).len() implies #[trigger] mag_seq(post.fronts@[h0]@[c0])[k1]
                    != #[trigger] mag_seq(post.fronts@[h0]@[c0])[k2] by {
                    assert(h0 < orig.fronts@.len());
                    assert(mag_seq(orig.fronts@[h0]@[c0])[k1] != mag_seq(
                        orig.fronts@[h0]@[c0],
                    )[k2]);
                }
                assert forall|h1: int, h2: int, c0: int, k1: int, k2: int|
                    0 <= h1 < h2 < post.fronts@.len() && 0 <= c0 < N_CLASSES && 0 <= k1 < mag_seq(
                        post.fronts@[h1]@[c0],
                    ).len() && 0 <= k2 < mag_seq(post.fronts@[h2]@[c0]).len() implies #[trigger]
                mag_seq(post.fronts@[h1]@[c0])[k1] != #[trigger] mag_seq(
                    post.fronts@[h2]@[c0],
                )[k2] by {
                    assert(h2 < orig.fronts@.len() || mag_seq(post.fronts@[h2]@[c0]).len() == 0);
                    assert(mag_seq(orig.fronts@[h1]@[c0])[k1] != mag_seq(
                        orig.fronts@[h2]@[c0],
                    )[k2]);
                }
            }
            lemma_frame_outside_slabs(orig, post);
        }
        h
    }

    /// Number of handles opened on this allocator.
    pub closed spec fn n_handles(self) -> int {
        self.fronts@.len() as int
    }

    /// Length word and base of the large mapping behind `p`, as its
    /// header records them: the requested size plus the header page, and
    /// the address of the header page itself.
    pub fn get_commitment(&self, p: usize) -> (r: (usize, usize))
        requires
            self.wf(),
            self.is_live(p),
            !self.in_creek(p),
        ensures
            r.0 == self.large_requested(p) + HEADER_SIZE,
            r.1 == p - HEADER_SIZE,
    {
        proof {
            if self.creek_live(p) {
                lemma_creek_live_range(*self, p);
            }
            lemma_round_page(0);
        }
        let k = self.find_large(p);
        let lb = &self.larges[k];
        proof {
            lemma_round_page(lb.requested as int);
        }
        (lb.requested + HEADER_SIZE, lb.base)
    }
}


impl DynamicAllocator {
    /// Resize the block at `p` to at least `n` bytes, following the C
    /// contract: a null `p` allocates; a zero `n` frees and returns null;
    /// a block that already holds `n` bytes is returned unchanged; and
    /// otherwise a new block is allocated, the old bytes are copied, and
    /// the old block is freed.
    #[verifier::spinoff_prover]
    pub fn realloc(&mut self, p: usize, n: usize) -> (r: usize)
        requires
            old(self).wf(),
            p != 0 ==> old(self).is_live(p),
        ensures
            final(self).wf(),
            p == 0 && r == 0 ==> old(self).same_view(*final(self)) && !old(self).can_alloc_large(
                n,
            ),
            p == 0 && r != 0 ==> final(self).is_live(r) && !old(self).is_live(r) && old(
                self,
            ).same_view_except(*final(self), set![r]) && final(self).granted(r) >= n && (
            r as int) % spec_align_of(n as int) == 0,
            p != 0 && n == 0 ==> r == 0 && !final(self).is_live(p) && old(self).same_view_except(
                *final(self),
                set![p],
            ),
            p != 0 && n > 0 && old(self).granted(p) >= n ==> r == p && old(self).same_view(
                *final(self),
            ) && final(self).is_live(p),
            p != 0 && n > 0 && old(self).granted(p) < n ==> {
                &&& (r == 0 ==> old(self).same_view(*final(self)) && !old(self).can_alloc_large(
                    n,
                ))
                &&& (r != 0 ==> {
                    &&& final(self).is_live(r)
                    &&& r != p
                    &&& !old(self).is_live(r)
                    &&& !final(self).is_live(p)
                    &&& final(self).granted(r) >= n
                    &&& final(self).data_at(r).subrange(0, old(self).granted(p))
                        == old(self).data_at(p)
                    &&& old(self).same_view_except(*final(self), set![p, r])
                    &&& (r as int) % spec_align_of(n as int) == 0
                })
            },
            old(self).can_alloc_large(n) && n > 0 ==> r != 0,
            old(self).large_cursor() <= final(self).large_cursor() <= old(self).large_cursor()
                + HEADER_SIZE + spec_round_page(n as int),
    {
        let ghost orig = *self;
        proof {
            lemma_round_page(n as int);
        }
        if p == 0 {
            return self.allocate(n);
        }
        if n == 0 {
            self.free(p);
            return 0;
        }
        let old_len = self.granted_len(p);
        if old_len >= n {
            proof {
                assert(orig.same_view(*self));
            }
            return p;
        }
        let q = self.allocate(n);
        if q == 0 {
            return 0;
        }
        let ghost mid = *self;
        proof {
            assert(p != q) by {
                assert(!orig.is_live(q));
                assert(orig.is_live(p));
            }
            assert(mid.is_live(p) && mid.data_at(p) == orig.data_at(p)) by {
                assert(!set![q].contains(p));
            }
        }
        let ghost src_data = mid.data_at(p);
        let mut j: usize = 0;
        while j < old_len
            invariant
                self.wf(),
                mid.same_view_except(*self, set![q]),
                self.is_live(q),
                self.is_live(p),
                p != q,
                self.granted(q) == mid.granted(q),
                mid.granted(q) >= n,
                self.large_cursor() == mid.large_cursor(),
                old_len < n,
                self.granted(p) == old_len,
                old_len == src_data.len(),
                j <= old_len,
                forall|jj: int| 0 <= jj < j ==> self.data_at(q)[jj] == src_data[jj],
                self.data_at(p) == src_data,
            decreases old_len - j,
        {
            let b = self.read(p, j);
            let ghost pres = *self;
            self.write(q, j, b);
            proof {
                let post = *self;
                lemma_view_trans(mid, pres, post, set![q], set![q]);
                assert(set![q].union(set![q]) =~= set![q]);
                assert(post.is_live(p)) by {
                    assert(!set![q].contains(p));
                    assert(pres.is_live(p) <==> post.is_live(p));
                }
                assert(post.data_at(p) == src_data) by {
                    assert(!set![q].contains(p));
                    assert(pres.is_live(p) ==> post.data_at(p) == pres.data_at(p));
                }
                assert(post.data_at(q) == pres.data_at(q).update(j as int, b));
                assert forall|jj: int| 0 <= jj < j + 1 implies post.data_at(q)[jj] == src_data[
                    jj] by {
                    if jj < j {
                        assert(pres.data_at(q)[jj] == src_data[jj]);
                    } else {
                        assert(b == src_data[j as int]);
                    }
                }
                assert(post.granted(q) == pres.granted(q));
                assert(post.is_live(p)) by {
                    assert(pres.is_live(p) <==> post.is_live(p));
                }
                assert(post.granted(p) == old_len && post.data_at(p) == src_data) by {
                    assert(!set![q].contains(p));
                }
            }
            j = j + 1;
        }
        let ghost copied = *self;
        self.free(p);
        proof {
            let fin = *self;
            assert(fin.is_live(q) && fin.data_at(q) == copied.data_at(q)) by {
                assert(!set![p].contains(q));
            }
            assert(fin.data_at(q).subrange(0, old_len as int) =~= src_data);
            assert(src_data == orig.data_at(p));
            lemma_view_trans(orig, mid, copied, set![q], set![q]);
            assert(set![q].union(set![q]) =~= set![q]);
            lemma_view_trans(orig, copied, fin, set![q], set![p]);
            assert(set![q].union(set![p]) =~= set![p, q]);
            assert(orig.same_view_except(fin, set![p, q]));
            assert(fin.granted(q) >= n);
        }
        q
    }
}


impl DynamicAllocator {
    /// Number of slabs carved from the creek so far.
    pub closed spec fn n_slabs(self) -> int {
        self.slabs@.len() as int
    }

    /// Whether slab `s` is currently tied to a class.
    pub closed spec fn slab_in_circulation(self, s: int) -> bool {
        self.slabs@[s].state != SlagState::Unassigned
    }

    /// Owner states of slab `s`'s object slots.
    pub closed spec fn slab_states(self, s: int) -> Seq<ObjSt> {
        self.slabs@[s].st@
    }

    /// Number of slots of slab `s` not free inside its slag: objects held
    /// by callers plus objects cached in magazines.
    pub closed spec fn slab_allocated(self, s: int) -> int {
        self.slabs@[s].allocated()
    }

    /// Objects a slab of `s`'s class can hold.
    pub closed spec fn slab_capacity(self, s: int) -> int {
        spec_capacity(self.slabs@[s].class as int)
    }
}

/// In a well-formed allocator, the allocated count of every slab in
/// circulation lies between 0 and its class's capacity: a slab never
/// holds more objects than fit in it.
pub proof fn lemma_allocated_bounded(a: DynamicAllocator, s: int)
    requires
        a.wf(),
        0 <= s < a.n_slabs(),
        a.slab_in_circulation(s),
    ensures
        0 <= a.slab_allocated(s) <= a.slab_capacity(s),
{
    let st = a.slab_states(s);
    assert(a.slabs@[s].wf());
    crate::slag::lemma_count_bounds(st, crate::slag::ObjSt::User);
    crate::slag::lemma_count_bounds(st, crate::slag::ObjSt::Cached);
    crate::slag::lemma_count_bounds(st, crate::slag::ObjSt::Free);
    crate::slag::lemma_count_sum(st);
}


/// The well-formedness conjuncts, named for use outside this module.
pub(crate) proof fn lemma_wf_unfold(a: DynamicAllocator)
    requires
        a.wf(),
    ensures
        a.slabs_wf(),
        a.pipes_wf(),
        a.free_wf(),
        a.fronts_wf(),
        a.larges_wf(),
{
}

/// Liveness splits into the creek case and the large case.
pub(crate) proof fn lemma_is_live_cases(a: DynamicAllocator, p: usize)
    ensures
        a.is_live(p) <==> (a.creek_live(p) || a.large_live(p)),
        a.in_creek(p) <==> (CREEK_BASE <= p < CREEK_END),
{
}


impl Default for DynamicAllocator {
    /// A fresh allocator, as `new` builds it.
    fn default() -> (r: Self)
        ensures
            r.wf(),
            forall|p: usize| !r.is_live(p),
    {
        Self::new()
    }
}

} // verus!
