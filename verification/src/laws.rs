//! Laws of the allocator: properties that relate several operations or
//! hold of every state, stated over the same views the operations'
//! contracts use.

use vstd::prelude::*;
use crate::general::DynamicAllocator;
use crate::layout::{
    MAX_SIZE, lemma_align_of, lemma_medium_in_range, lemma_mod_divides, lemma_pow2_increases,
    lemma_pow2_pos, lemma_pow2_values, spec_align_of, spec_class_of, spec_medium_class, spec_npot,
    spec_pow2,
};

verus! {

/// Two allocations with no intervening free return distinct addresses:
/// each allocation's address was dead before the call and live after it,
/// and an allocation keeps every other live address live. So after two
/// back-to-back allocations both addresses are live and different.
pub proof fn lemma_distinct_allocations(
    s0: DynamicAllocator,
    s1: DynamicAllocator,
    s2: DynamicAllocator,
    pa: usize,
    pb: usize,
)
    requires
        s1.is_live(pa),
        !s0.is_live(pa),
        s0.same_view_except(s1, set![pa]),
        s2.is_live(pb),
        !s1.is_live(pb),
        s1.same_view_except(s2, set![pb]),
    ensures
        pa != pb,
        s2.is_live(pa),
        s2.is_live(pb),
{
    assert(pa != pb) by {
        if pa == pb {
            assert(s1.is_live(pb));
        }
    }
    assert(s2.is_live(pa)) by {
        assert(!set![pb].contains(pa));
    }
}

/// A freed address stays dead across any operation that only preserves
/// the view elsewhere: it can come back only through an allocation that
/// returns it anew.
pub proof fn lemma_freed_stays_dead(
    s0: DynamicAllocator,
    s1: DynamicAllocator,
    p: usize,
    ps: Set<usize>,
)
    requires
        !s0.is_live(p),
        s0.same_view_except(s1, ps),
        !ps.contains(p),
    ensures
        !s1.is_live(p),
{
}

/// The least power of two at or above `n` is at least `n` and positive.
pub proof fn lemma_npot_ge(n: int)
    ensures
        spec_npot(n) >= n,
        spec_npot(n) >= 1,
    decreases n,
{
    if n > 1 {
        lemma_npot_ge((n + 1) / 2);
    }
}

/// When `n` lies in the half-open doubling window below a power of two,
/// that power is exactly the least power of two at or above `n`.
proof fn lemma_npot_exact(n: int, k: int)
    requires
        0 <= k,
        spec_pow2(k - 1) < n || k == 0,
        n <= spec_pow2(k),
        1 <= n,
    ensures
        spec_npot(n) == spec_pow2(k),
    decreases k,
{
    if k == 0 {
        assert(n == 1);
    } else if n == 1 {
        lemma_pow2_pos(k - 1);
        assert(false);
    } else {
        let m = (n + 1) / 2;
        assert(spec_pow2(k) == 2 * spec_pow2(k - 1));
        assert(m <= spec_pow2(k - 1));
        if k == 1 {
            assert(spec_pow2(0) == 1);
            assert(m == 1);
            lemma_npot_exact(m, 0);
        } else {
            assert(spec_pow2(k - 1) == 2 * spec_pow2(k - 2));
            assert(m > spec_pow2(k - 2)) by {
                lemma_pow2_pos(k - 2);
            }
            lemma_npot_exact(m, k - 1);
        }
        assert(spec_npot(n) == 2 * spec_npot(m));
    }
}

/// Above the small tier, the guaranteed alignment is exactly the least
/// power of two covering the request, capped at one page. Together with
/// the alignment clause of `allocate`, every returned address there is
/// aligned to `min(next power of two of n, page size)`. In the small
/// tier the guarantee is the tier's 8- or 16-byte alignment instead.
pub proof fn lemma_align_matches_npot(n: usize)
    requires
        192 < n,
    ensures
        spec_align_of(n as int) == if spec_npot(n as int) <= 4096 {
            spec_npot(n as int)
        } else {
            4096int
        },
{
    lemma_pow2_values();
    if n < MAX_SIZE {
        let c = spec_medium_class(n as int);
        lemma_medium_in_range(n as int);
        let z = spec_pow2(c - 5);
        assert(spec_npot(n as int) == z) by {
            assert(n as int <= spec_pow2(c - 5));
            assert(spec_pow2(c - 5 - 1) < n || c == 13) by {
                if c > 13 {
                    lemma_medium_window(n as int, c);
                }
            }
            if c == 13 {
                assert(spec_pow2(7) == 128) by {
                    lemma_pow2_values();
                    assert(spec_pow2(8) == 2 * spec_pow2(7));
                }
                assert(spec_pow2(7) < n as int);
            }
            lemma_npot_exact(n as int, c - 5);
        }
        lemma_pow2_increases(8, c - 5);
        if z <= 4096 {
        } else {
        }
    } else {
        assert(spec_npot(n as int) >= n as int) by {
            lemma_npot_ge(n as int);
        }
    }
}

/// A request in the medium tier exceeds the size of the class below its
/// own.
proof fn lemma_medium_window(n: int, c: int)
    requires
        spec_medium_class(n) == c,
        c > 13,
        n > 192,
    ensures
        n > spec_pow2(c - 6),
    decreases n,
{
    lemma_pow2_values();
    if n <= 256 {
        assert(false);
    } else {
        let m = (n + 1) / 2;
        assert(spec_medium_class(m) == c - 1);
        if c - 1 > 13 {
            if m <= 192 {
                lemma_medium_at_least(m);
                assert(false);
            }
            lemma_medium_window(m, c - 1);
            assert(m > spec_pow2(c - 7));
            assert(n >= 2 * m - 1);
            assert(spec_pow2(c - 6) == 2 * spec_pow2(c - 7));
            assert(n > spec_pow2(c - 6)) by {
                lemma_pow2_pos(c - 7);
            }
        } else {
            assert(n > 256);
            assert(spec_pow2(c - 6) == 256);
        }
    }
}

/// Small requests map to the base medium class.
proof fn lemma_medium_at_least(n: int)
    requires
        n <= 256,
    ensures
        spec_medium_class(n) == 13,
{
}


/// The alignment a request of `n` bytes asks for on its own terms: the
/// least power of two covering `n`, capped at one page.
pub open spec fn spec_request_align(n: int) -> int {
    if spec_npot(n) <= 4096 {
        spec_npot(n)
    } else {
        4096int
    }
}

/// Every address `allocate` returns is aligned to the request's own
/// covering power of two, capped at one page — for requests of at most
/// 16 bytes, for all requests above the small tier, and inside the small
/// tier exactly when that power of two divides the class stride's
/// guaranteed alignment. (It does not, for example, for a request of 33
/// bytes, whose 48-byte class strides only guarantee 16-byte alignment.)
pub proof fn lemma_request_alignment(n: usize, r: usize)
    requires
        n <= 16 || 192 < n || spec_align_of(n as int) % spec_request_align(n as int) == 0,
        (r as int) % spec_align_of(n as int) == 0,
    ensures
        (r as int) % spec_request_align(n as int) == 0,
{
    lemma_align_of(n as int);
    lemma_npot_ge(n as int);
    let al = spec_align_of(n as int);
    let pa = spec_request_align(n as int);
    assert(pa >= 1);
    if n <= 16 {
        reveal_with_fuel(spec_npot, 8);
        if n <= 1 {
            assert(spec_npot(n as int) == 1);
            assert(al == 8 && pa == 1);
            assert(8int % 1int == 0);
        } else if n == 2 {
            assert(spec_npot(2) == 2);
            assert(al == 8 && pa == 2);
            assert(8int % 2int == 0);
        } else if n <= 4 {
            assert(spec_npot(n as int) == 4);
            assert(al == 8 && pa == 4);
            assert(8int % 4int == 0);
        } else if n <= 8 {
            assert(spec_npot(n as int) == 8);
            assert(al == 8 && pa == 8);
            assert(8int % 8int == 0);
        } else {
            lemma_npot_nine_to_sixteen(n as int);
            assert(spec_class_of(n as int) == 1);
            assert(al == 16 && pa == 16);
            assert(16int % 16int == 0);
        }
        assert(al % pa == 0);
    } else if 192 < n {
        lemma_align_matches_npot(n);
        assert(al == pa);
        vstd::arithmetic::div_mod::lemma_mod_self_0(al);
    }
    lemma_mod_divides(r as int, al, pa);
}

/// Requests from 9 to 16 bytes are covered by 16.
proof fn lemma_npot_nine_to_sixteen(n: int)
    requires
        9 <= n <= 16,
    ensures
        spec_npot(n) == 16,
{
    reveal_with_fuel(spec_pow2, 6);
    lemma_npot_exact(n, 4);
}


/// Inside the small tier, three windows of request sizes land in classes
/// whose stride alignment equals their covering power of two: requests
/// covered by 32, 64 and 128 bytes. For them the guaranteed alignment
/// satisfies the request's own, so `lemma_request_alignment` applies.
pub proof fn lemma_small_tier_covered(n: usize)
    requires
        16 < n <= 32 || 48 < n <= 64 || 112 < n <= 128,
    ensures
        spec_align_of(n as int) % spec_request_align(n as int) == 0,
{
    reveal_with_fuel(spec_pow2, 9);
    if n <= 32 {
        assert(spec_class_of(n as int) == 2);
        assert(spec_align_of(n as int) == 32);
        lemma_npot_exact(n as int, 5);
        assert(spec_request_align(n as int) == 32);
        assert(32int % 32int == 0);
    } else if n <= 64 {
        assert(spec_class_of(n as int) == 4);
        assert(spec_align_of(n as int) == 64);
        lemma_npot_exact(n as int, 6);
        assert(spec_request_align(n as int) == 64);
        assert(64int % 64int == 0);
    } else {
        assert(spec_class_of(n as int) == 8);
        assert(spec_align_of(n as int) == 128);
        lemma_npot_exact(n as int, 7);
        assert(spec_request_align(n as int) == 128);
        assert(128int % 128int == 0);
    }
}

} // verus!
