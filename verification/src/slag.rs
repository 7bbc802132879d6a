//! Slags: the bookkeeping for one slab of one size class.
//!
//! A slab is a `SLAB_SIZE` byte range of the creek. Its slag records the
//! class the slab serves, a stack of the object slots that are free inside
//! the slab, the bytes of every object, and a ghost map from each slot to
//! its current owner: free in the slag, held by the user, or cached in a
//! front-end magazine. The slag also remembers the highest occupancy the
//! slab ever reached, which gates whether an empty slab is worth returning
//! to the page allocator.

use vstd::prelude::*;
use vstd::pervasive::VecAdditionalExecFns;
use crate::layout::{
    CREEK_BASE, CREEK_END, CREEK_SLABS, HEADER_SIZE, N_CLASSES, SLAB_SIZE, class_size,
    lemma_capacity, lemma_class_size_bounds, spec_capacity, spec_class_size,
};

verus! {

/// Owner of one object slot of a slab.
pub enum ObjSt {
    /// The slot is free inside the slag, on its free stack.
    Free,
    /// The slot was handed to a caller and not yet freed.
    User,
    /// The slot sits in a front-end magazine.
    Cached,
}

/// Circulation state of a slab.
#[derive(PartialEq, Eq, Structural, Clone, Copy)]
pub enum SlagState {
    /// Not tied to a class; owned by the page allocator's free list.
    Unassigned,
    /// In circulation with free slots left; listed in its class's pipe.
    Active,
    /// In circulation with no free slot; off the pipe, discoverable only
    /// through its live objects.
    Full,
}

/// 1 if `x` equals `w`, else 0.
pub open spec fn count_one(x: ObjSt, w: ObjSt) -> int {
    if x == w {
        1
    } else {
        0
    }
}

/// Number of entries of `s` equal to `w`.
pub open spec fn count_of(s: Seq<ObjSt>, w: ObjSt) -> int
    decreases s.len(),
{
    if s.len() == 0 {
        0
    } else {
        count_of(s.drop_last(), w) + count_one(s.last(), w)
    }
}

/// Counts lie between 0 and the length.
pub proof fn lemma_count_bounds(s: Seq<ObjSt>, w: ObjSt)
    ensures
        0 <= count_of(s, w) <= s.len(),
    decreases s.len(),
{
    if s.len() > 0 {
        lemma_count_bounds(s.drop_last(), w);
    }
}

/// How a point update moves a count.
pub proof fn lemma_count_update(s: Seq<ObjSt>, i: int, v: ObjSt, w: ObjSt)
    requires
        0 <= i < s.len(),
    ensures
        count_of(s.update(i, v), w) == count_of(s, w) - count_one(s[i], w) + count_one(v, w),
    decreases s.len(),
{
    let t = s.update(i, v);
    assert(t.len() == s.len());
    if i == s.len() - 1 {
        assert(t.drop_last() =~= s.drop_last());
        assert(t.last() == v);
    } else {
        assert(t.drop_last() =~= s.drop_last().update(i, v));
        lemma_count_update(s.drop_last(), i, v, w);
        assert(t.last() == s.last());
    }
}

/// A full count means every entry is `w`.
pub proof fn lemma_count_all(s: Seq<ObjSt>, w: ObjSt)
    requires
        count_of(s, w) == s.len(),
    ensures
        forall|i: int| 0 <= i < s.len() ==> s[i] == w,
    decreases s.len(),
{
    if s.len() > 0 {
        lemma_count_bounds(s.drop_last(), w);
        assert(count_of(s.drop_last(), w) == s.drop_last().len());
        lemma_count_all(s.drop_last(), w);
        assert forall|i: int| 0 <= i < s.len() implies s[i] == w by {
            if i < s.len() - 1 {
                assert(s.drop_last()[i] == w);
            }
        }
    }
}

/// The three owners partition the slots.
pub proof fn lemma_count_sum(s: Seq<ObjSt>)
    ensures
        count_of(s, ObjSt::Free) + count_of(s, ObjSt::User) + count_of(s, ObjSt::Cached)
            == s.len(),
    decreases s.len(),
{
    if s.len() > 0 {
        lemma_count_sum(s.drop_last());
    }
}

/// The slag: per-slab state. Lives in the allocator's slab table; the
/// index in that table determines the slab's address range.
pub(crate) struct Slag {
    /// Size class this slab serves; meaningful unless `Unassigned`.
    pub class: usize,
    /// Circulation state.
    pub state: SlagState,
    /// Position of this slab in its class's pipe while `Active`, or in
    /// the page allocator's free list while `Unassigned`.
    pub pos: usize,
    /// Free object slots, each index at most the class capacity.
    pub free_stack: Vec<usize>,
    /// Bytes of every object slot of the slab.
    pub objs: Vec<Vec<u8>>,
    /// Highest number of simultaneously non-free slots this slab reached
    /// since it was assigned to its class.
    pub high_water: usize,
    /// Owner of each slot.
    pub st: Ghost<Seq<ObjSt>>,
}

impl Slag {
    /// Well-formedness of a slag that is in circulation.
    pub(crate) open spec fn wf(self) -> bool {
        self.state != SlagState::Unassigned ==> {
            &&& self.class < N_CLASSES
            &&& self.objs.len() == spec_capacity(self.class as int)
            &&& forall|i: int|
                0 <= i < self.objs.len() ==> (#[trigger] self.objs[i]).len()
                    == spec_class_size(self.class as int)
            &&& self.st@.len() == spec_capacity(self.class as int)
            &&& self.free_stack@.len() == count_of(self.st@, ObjSt::Free)
            &&& forall|k: int|
                0 <= k < self.free_stack@.len() ==> #[trigger] self.free_stack@[k]
                    < spec_capacity(self.class as int)
            &&& forall|k: int|
                0 <= k < self.free_stack@.len() ==> self.st@[#[trigger] self.free_stack@[k] as int]
                    == ObjSt::Free
            &&& forall|k1: int, k2: int|
                0 <= k1 < k2 < self.free_stack@.len() ==> #[trigger] self.free_stack@[k1]
                    != #[trigger] self.free_stack@[k2]
            &&& self.high_water <= spec_capacity(self.class as int)
        }
    }

    /// Number of non-free slots.
    pub(crate) open spec fn allocated(self) -> int {
        count_of(self.st@, ObjSt::User) + count_of(self.st@, ObjSt::Cached)
    }

    /// Build a fresh slag for class `c`: all slots free, stack holding
    /// every slot, every object of the class's object size.
    pub(crate) fn fresh(c: usize) -> (s: Slag)
        requires
            c < N_CLASSES,
        ensures
            s.wf(),
            s.class == c,
            s.state == SlagState::Active,
            s.free_stack@.len() == spec_capacity(c as int),
            s.allocated() == 0,
            s.high_water == 0,
            forall|i: int| 0 <= i < s.st@.len() ==> s.st@[i] == ObjSt::Free,
    {
        proof {
            lemma_capacity(c as int);
            lemma_class_size_bounds(c as int);
        }
        let z = class_size(c);
        let cap = (SLAB_SIZE - HEADER_SIZE) / z;
        let mut objs: Vec<Vec<u8>> = Vec::new();
        let mut free_stack: Vec<usize> = Vec::new();
        let mut i: usize = 0;
        while i < cap
            invariant
                i <= cap,
                cap == spec_capacity(c as int),
                z == spec_class_size(c as int),
                objs.len() == i,
                free_stack@.len() == i,
                forall|j: int| 0 <= j < i ==> (#[trigger] objs[j]).len() == z,
                forall|k: int| 0 <= k < i ==> #[trigger] free_stack@[k] == k,
            decreases cap - i,
        {
            objs.push(vec![0u8; z]);
            free_stack.push(i);
            i = i + 1;
        }
        let ghost st = Seq::new(cap as nat, |j: int| ObjSt::Free);
        proof {
            lemma_count_const_free(st);
            lemma_count_sum(st);
        }
        Slag {
            class: c,
            state: SlagState::Active,
            pos: 0,
            free_stack,
            objs,
            high_water: 0,
            st: Ghost(st),
        }
    }

    /// Pop a free slot and hand it to a magazine: the slot becomes cached.
    /// Raises the high-water mark past the new occupancy if needed.
    pub(crate) fn take_free(&mut self) -> (i: usize)
        requires
            old(self).wf(),
            old(self).state != SlagState::Unassigned,
            old(self).free_stack@.len() > 0,
        ensures
            final(self).wf(),
            i < spec_capacity(old(self).class as int),
            old(self).st@[i as int] == ObjSt::Free,
            final(self).st@ == old(self).st@.update(i as int, ObjSt::Cached),
            final(self).free_stack@ == old(self).free_stack@.drop_last(),
            final(self).class == old(self).class,
            final(self).state == old(self).state,
            final(self).pos == old(self).pos,
            final(self).objs == old(self).objs,
            final(self).allocated() == old(self).allocated() + 1,
    {
        let i = self.free_stack.pop().unwrap();
        proof {
            let s = self.st@;
            lemma_count_bounds(s, ObjSt::Free);
            lemma_count_update(s, i as int, ObjSt::Cached, ObjSt::Free);
            lemma_count_update(s, i as int, ObjSt::Cached, ObjSt::User);
            lemma_count_update(s, i as int, ObjSt::Cached, ObjSt::Cached);
        }
        self.st = Ghost(self.st@.update(i as int, ObjSt::Cached));
        let occupied = self.objs.len() - self.free_stack.len();
        if occupied > self.high_water {
            self.high_water = occupied;
        }
        proof {
            lemma_count_bounds(self.st@, ObjSt::Free);
            assert forall|k: int|
                0 <= k < self.free_stack@.len() implies self.st@[
                #[trigger] self.free_stack@[k] as int] == ObjSt::Free by {
                assert(old(self).free_stack@[k] != i as usize);
            }
        }
        i
    }

    /// Return a cached slot to the slag: the slot becomes free again.
    pub(crate) fn put_free(&mut self, i: usize)
        requires
            old(self).wf(),
            old(self).state != SlagState::Unassigned,
            i < spec_capacity(old(self).class as int),
            old(self).st@[i as int] == ObjSt::Cached,
        ensures
            final(self).wf(),
            final(self).st@ == old(self).st@.update(i as int, ObjSt::Free),
            final(self).free_stack@ == old(self).free_stack@.push(i),
            final(self).class == old(self).class,
            final(self).state == old(self).state,
            final(self).pos == old(self).pos,
            final(self).objs == old(self).objs,
            final(self).high_water == old(self).high_water,
            final(self).allocated() == old(self).allocated() - 1,
    {
        proof {
            let s = self.st@;
            lemma_count_update(s, i as int, ObjSt::Free, ObjSt::Free);
            lemma_count_update(s, i as int, ObjSt::Free, ObjSt::User);
            lemma_count_update(s, i as int, ObjSt::Free, ObjSt::Cached);
            lemma_count_bounds(s, ObjSt::Free);
        }
        self.free_stack.push(i);
        self.st = Ghost(self.st@.update(i as int, ObjSt::Free));
        proof {
            assert forall|k: int|
                0 <= k < self.free_stack@.len() implies self.st@[
                #[trigger] self.free_stack@[k] as int] == ObjSt::Free by {}
            assert forall|k1: int, k2: int|
                0 <= k1 < k2 < self.free_stack@.len() implies #[trigger] self.free_stack@[k1]
                != #[trigger] self.free_stack@[k2] by {
                if k2 == self.free_stack@.len() - 1 {
                    assert(old(self).st@[old(self).free_stack@[k1] as int] == ObjSt::Free);
                }
            }
        }
    }

    /// Mark a cached slot as handed out to the caller.
    pub(crate) fn set_user(&mut self, i: usize)
        requires
            old(self).wf(),
            old(self).state != SlagState::Unassigned,
            i < spec_capacity(old(self).class as int),
            old(self).st@[i as int] == ObjSt::Cached,
        ensures
            final(self).wf(),
            final(self).st@ == old(self).st@.update(i as int, ObjSt::User),
            *final(self) == (Slag { st: final(self).st, ..*old(self) }),
    {
        proof {
            let s = self.st@;
            lemma_count_update(s, i as int, ObjSt::User, ObjSt::Free);
            lemma_count_bounds(s, ObjSt::Free);
        }
        self.st = Ghost(self.st@.update(i as int, ObjSt::User));
        proof {
            assert forall|k: int|
                0 <= k < self.free_stack@.len() implies self.st@[
                #[trigger] self.free_stack@[k] as int] == ObjSt::Free by {
                assert(old(self).st@[old(self).free_stack@[k] as int] == ObjSt::Free);
            }
        }
    }

    /// Mark a slot freed by the caller as cached in a magazine.
    pub(crate) fn set_cached(&mut self, i: usize)
        requires
            old(self).wf(),
            old(self).state != SlagState::Unassigned,
            i < spec_capacity(old(self).class as int),
            old(self).st@[i as int] == ObjSt::User,
        ensures
            final(self).wf(),
            final(self).st@ == old(self).st@.update(i as int, ObjSt::Cached),
            *final(self) == (Slag { st: final(self).st, ..*old(self) }),
    {
        proof {
            let s = self.st@;
            lemma_count_update(s, i as int, ObjSt::Cached, ObjSt::Free);
            lemma_count_bounds(s, ObjSt::Free);
        }
        self.st = Ghost(self.st@.update(i as int, ObjSt::Cached));
        proof {
            assert forall|k: int|
                0 <= k < self.free_stack@.len() implies self.st@[
                #[trigger] self.free_stack@[k] as int] == ObjSt::Free by {
                assert(old(self).st@[old(self).free_stack@[k] as int] == ObjSt::Free);
            }
        }
    }
}

/// A constant-free sequence counts all free.
proof fn lemma_count_const_free(s: Seq<ObjSt>)
    requires
        forall|i: int| 0 <= i < s.len() ==> s[i] == ObjSt::Free,
    ensures
        count_of(s, ObjSt::Free) == s.len(),
        count_of(s, ObjSt::User) == 0,
        count_of(s, ObjSt::Cached) == 0,
    decreases s.len(),
{
    if s.len() > 0 {
        lemma_count_const_free(s.drop_last());
    }
}

/// Address of object `i` of the slab at index `s`, for class `c`.
pub open spec fn spec_obj_addr(s: int, c: int, i: int) -> int {
    CREEK_BASE + s * SLAB_SIZE + HEADER_SIZE + i * spec_class_size(c)
}

/// Slab index owning creek address `p`.
pub open spec fn spec_slab_of(p: int) -> int {
    (p - CREEK_BASE) / (SLAB_SIZE as int)
}

/// Offset of creek address `p` inside its slab.
pub open spec fn spec_off_of(p: int) -> int {
    (p - CREEK_BASE) % (SLAB_SIZE as int)
}

/// Object index of creek address `p` inside a slab of class `c`.
pub open spec fn spec_obj_of(p: int, c: int) -> int {
    (spec_off_of(p) - HEADER_SIZE) / spec_class_size(c)
}

/// Whether creek address `p` is exactly the address of an object slot of a
/// slab of class `c`.
pub open spec fn spec_obj_addr_valid(p: int, c: int) -> bool {
    &&& CREEK_BASE <= p
    &&& spec_off_of(p) >= HEADER_SIZE
    &&& (spec_off_of(p) - HEADER_SIZE) % spec_class_size(c) == 0
    &&& spec_obj_of(p, c) < spec_capacity(c)
}

/// Encoding an object slot and decoding the address agree.
pub proof fn lemma_addr_roundtrip(s: int, c: int, i: int)
    requires
        0 <= s < CREEK_SLABS,
        0 <= c < N_CLASSES,
        0 <= i < spec_capacity(c),
    ensures
        spec_slab_of(spec_obj_addr(s, c, i)) == s,
        spec_off_of(spec_obj_addr(s, c, i)) == HEADER_SIZE + i * spec_class_size(c),
        spec_obj_addr_valid(spec_obj_addr(s, c, i), c),
        spec_obj_of(spec_obj_addr(s, c, i), c) == i,
        CREEK_BASE <= spec_obj_addr(s, c, i) < CREEK_END,
{
    lemma_class_size_bounds(c);
    lemma_capacity(c);
    let z = spec_class_size(c);
    let cap = spec_capacity(c);
    let off = HEADER_SIZE + i * z;
    assert(0 <= i * z && i * z + z <= cap * z) by (nonlinear_arith)
        requires
            0 <= i < cap,
            z >= 1,
    {}
    assert(off < SLAB_SIZE);
    let p = spec_obj_addr(s, c, i);
    assert(p - CREEK_BASE == s * SLAB_SIZE + off);
    vstd::arithmetic::div_mod::lemma_fundamental_div_mod_converse(
        p - CREEK_BASE,
        SLAB_SIZE as int,
        s,
        off,
    );
    assert(spec_slab_of(p) == s);
    assert(spec_off_of(p) == off);
    vstd::arithmetic::div_mod::lemma_fundamental_div_mod_converse(off - HEADER_SIZE, z, i, 0);
    assert(spec_obj_of(p, c) == i);
    assert((off - HEADER_SIZE) % z == 0);
    assert(s * SLAB_SIZE + SLAB_SIZE <= CREEK_SLABS * SLAB_SIZE) by (nonlinear_arith)
        requires
            0 <= s < CREEK_SLABS,
    {}
}

/// Address of object `i` of the slab at index `s` of class `c`,
/// executable form.
pub(crate) fn obj_addr(s: usize, c: usize, i: usize) -> (p: usize)
    requires
        s < CREEK_SLABS,
        c < N_CLASSES,
        i < spec_capacity(c as int),
    ensures
        p == spec_obj_addr(s as int, c as int, i as int),
        CREEK_BASE <= p < CREEK_END,
{
    proof {
        lemma_addr_roundtrip(s as int, c as int, i as int);
    }
    let z = class_size(c);
    CREEK_BASE + s * SLAB_SIZE + HEADER_SIZE + i * z
}

} // verus!
