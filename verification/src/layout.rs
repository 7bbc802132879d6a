//! Size-class layout: the tiered map from a request size to its class, the
//! per-class object size and slab capacity, and the alignment each class
//! guarantees.
//!
//! Classes come in three tiers, as in the scalloc and tcmalloc families:
//! a dedicated word class for requests of at most 8 bytes, twelve small
//! classes that are the multiples of 16 from 16 to 192, and thirteen medium
//! classes that are the powers of two from 256 up to the largest class.
//! Requests at or above `MAX_SIZE` bypass the classes entirely.

use vstd::prelude::*;

verus! {

/// Size of one slab carved from the creek: 2 MiB.
pub const SLAB_SIZE: usize = 2097152;

/// Size of the header page at the start of each slab; also the page size
/// the large-allocation path aligns to.
pub const HEADER_SIZE: usize = 4096;

/// Lowest address of the creek. Slab-aligned and nonzero, so a null
/// pointer is never inside the creek.
pub const CREEK_BASE: usize = 2097152;

/// Number of slabs the creek can hand out before it is exhausted.
pub const CREEK_SLABS: usize = 512;

/// First address past the creek: `CREEK_BASE + CREEK_SLABS * SLAB_SIZE`.
pub const CREEK_END: usize = 1075838976;

/// Requests of this many bytes or more go to the large-allocation path.
/// It equals the size of the largest class: 1 MiB.
pub const MAX_SIZE: usize = 1048576;

/// Number of size classes: the word class, twelve multiples of 16, and
/// thirteen powers of two.
pub const N_CLASSES: usize = 26;

/// Hint for how many bytes of a slab one class should treat as usable when
/// deciding whether its slabs are worth returning to the page allocator.
pub const USABLE_HINT: usize = 131072;

/// Capacity of each half of a front-end magazine.
pub const MAG_CAP: usize = 8;

/// The least multiple of 16 that is at least `n`.
pub open spec fn spec_round_up16(n: int) -> int {
    ((n + 15) / 16) * 16
}

/// Round `n` up to the closest multiple of 16 greater than or equal to `n`.
pub fn round_up(n: usize) -> (r: usize)
    requires
        n <= usize::MAX - 15,
    ensures
        r == spec_round_up16(n as int),
{
    ((n + 15) / 16) * 16
}

/// 2 to the power `k` (1 for nonpositive `k`).
pub open spec fn spec_pow2(k: int) -> int
    decreases k,
{
    if k <= 0 {
        1
    } else {
        2 * spec_pow2(k - 1)
    }
}

/// The least power of two that is at least `n`.
pub open spec fn spec_npot(n: int) -> int
    decreases n,
{
    if n <= 1 {
        1
    } else {
        2 * spec_npot((n + 1) / 2)
    }
}

/// Index of the medium class for a request of `n` bytes: 13 for sizes up
/// to 256, one more for each doubling after that.
pub open spec fn spec_medium_class(n: int) -> int
    decreases n,
{
    if n <= 256 {
        13
    } else {
        1 + spec_medium_class((n + 1) / 2)
    }
}

/// The class index serving a request of `n` bytes, for `n < MAX_SIZE`.
pub open spec fn spec_class_of(n: int) -> int {
    if n <= 8 {
        0
    } else if n <= 192 {
        (n + 15) / 16
    } else {
        spec_medium_class(n)
    }
}

/// Object size of class `c`.
pub open spec fn spec_class_size(c: int) -> int {
    if c == 0 {
        8
    } else if c <= 12 {
        16 * c
    } else {
        spec_pow2(c - 5)
    }
}

/// Objects per slab of class `c`: whatever fits after the header page.
pub open spec fn spec_capacity(c: int) -> int {
    (SLAB_SIZE - HEADER_SIZE) / spec_class_size(c)
}

/// Largest power of two dividing the small class `c`'s object size
/// `16 * c`: the alignment the small tier's object stride guarantees.
pub open spec fn spec_small_align(c: int) -> int {
    if c == 2 || c == 6 || c == 10 {
        32
    } else if c == 4 || c == 12 {
        64
    } else if c == 8 {
        128
    } else {
        16
    }
}

/// Alignment guaranteed for a request of `n` bytes: the word class aligns
/// to 8, the small tier to the largest power of two dividing its object
/// stride, the medium tier to its full object size up to one page, and
/// the large path to one page.
pub open spec fn spec_align_of(n: int) -> int {
    if n <= 8 {
        8
    } else if n <= 192 {
        spec_small_align(spec_class_of(n))
    } else if n < MAX_SIZE {
        if spec_class_size(spec_class_of(n)) <= HEADER_SIZE {
            spec_class_size(spec_class_of(n))
        } else {
            HEADER_SIZE as int
        }
    } else {
        HEADER_SIZE as int
    }
}

/// Values of the powers of two that appear as medium class sizes.
pub proof fn lemma_pow2_values()
    ensures
        spec_pow2(8) == 256,
        spec_pow2(9) == 512,
        spec_pow2(10) == 1024,
        spec_pow2(11) == 2048,
        spec_pow2(12) == 4096,
        spec_pow2(13) == 8192,
        spec_pow2(14) == 16384,
        spec_pow2(15) == 32768,
        spec_pow2(16) == 65536,
        spec_pow2(17) == 131072,
        spec_pow2(18) == 262144,
        spec_pow2(19) == 524288,
        spec_pow2(20) == 1048576,
{
    reveal_with_fuel(spec_pow2, 22);
    assert(spec_pow2(8) == 256);
    assert(spec_pow2(20) == 1048576);
}

/// Powers of two are at least 1.
pub proof fn lemma_pow2_pos(k: int)
    ensures
        spec_pow2(k) >= 1,
    decreases k,
{
    if k > 0 {
        lemma_pow2_pos(k - 1);
    }
}

/// Powers of two are monotone in the exponent.
pub proof fn lemma_pow2_increases(a: int, b: int)
    requires
        a <= b,
    ensures
        spec_pow2(a) <= spec_pow2(b),
    decreases b - a,
{
    lemma_pow2_pos(a);
    if a < b {
        lemma_pow2_increases(a, b - 1);
        lemma_pow2_pos(b - 1);
    }
}

/// The medium class for `n` is the `k` whose size is the first power of
/// two at or above `n`.
proof fn lemma_medium_class(n: int, k: int)
    requires
        13 <= k <= 25,
        n <= spec_pow2(k - 5),
        k == 13 || n > spec_pow2(k - 6),
    ensures
        spec_medium_class(n) == k,
    decreases k,
{
    if k == 13 {
        lemma_pow2_values();
    } else {
        assert(spec_pow2(k - 6) >= 256) by {
            lemma_pow2_increases(8, k - 6);
            lemma_pow2_values();
        }
        assert(n > 256);
        let m = (n + 1) / 2;
        assert(spec_pow2(k - 5) == 2 * spec_pow2(k - 6));
        assert(m <= spec_pow2(k - 1 - 5));
        assert(m > spec_pow2(k - 1 - 6) || k - 1 == 13);
        lemma_medium_class(m, k - 1);
        assert(spec_medium_class(n) == 1 + spec_medium_class(m));
    }
}

/// A request that fits in the size of class `k` never maps past class `k`.
proof fn lemma_medium_at_most(n: int, k: int)
    requires
        n <= spec_pow2(k - 5),
        13 <= k,
    ensures
        spec_medium_class(n) <= k,
    decreases n,
{
    if n <= 256 {
    } else {
        let m = (n + 1) / 2;
        assert(k >= 14) by {
            if k == 13 {
                lemma_pow2_values();
            }
        }
        assert(m <= spec_pow2(k - 1 - 5));
        lemma_medium_at_most(m, k - 1);
    }
}

/// For any request below the largest class, the medium tier offers a class
/// whose size (a power of two) is at least the request.
pub proof fn lemma_medium_in_range(n: int)
    requires
        n < MAX_SIZE,
    ensures
        13 <= spec_medium_class(n) <= 25,
        spec_pow2(spec_medium_class(n) - 5) >= n,
    decreases n,
{
    lemma_pow2_values();
    if n <= 256 {
    } else {
        let m = (n + 1) / 2;
        lemma_medium_in_range(m);
        let k = spec_medium_class(m);
        assert(spec_medium_class(n) == k + 1);
        assert(spec_pow2(k + 1 - 5) == 2 * spec_pow2(k - 5));
        assert(2 * spec_pow2(k - 5) >= 2 * m >= n);
        assert(k + 1 <= 25) by {
            lemma_medium_at_most(n as int, 25);
        }
    }
}

/// Object size of class `c`, executable form.
pub fn class_size(c: usize) -> (z: usize)
    requires
        c < N_CLASSES,
    ensures
        z == spec_class_size(c as int),
{
    proof {
        lemma_pow2_values();
    }
    if c == 0 {
        8
    } else if c <= 12 {
        16 * c
    } else if c == 13 {
        256
    } else if c == 14 {
        512
    } else if c == 15 {
        1024
    } else if c == 16 {
        2048
    } else if c == 17 {
        4096
    } else if c == 18 {
        8192
    } else if c == 19 {
        16384
    } else if c == 20 {
        32768
    } else if c == 21 {
        65536
    } else if c == 22 {
        131072
    } else if c == 23 {
        262144
    } else if c == 24 {
        524288
    } else {
        1048576
    }
}

/// Class index for a request of `n` bytes, executable form.
pub fn class_of(n: usize) -> (c: usize)
    requires
        n < MAX_SIZE,
    ensures
        c == spec_class_of(n as int),
        c < N_CLASSES,
{
    if n <= 8 {
        0
    } else if n <= 192 {
        (n + 15) / 16
    } else {
        let mut k: usize = 13;
        let mut sz: usize = 256;
        proof {
            lemma_pow2_values();
        }
        while sz < n
            invariant
                13 <= k <= 25,
                sz == spec_pow2(k as int - 5),
                k == 13 || n > spec_pow2(k as int - 6),
                192 < n < MAX_SIZE,
            decreases MAX_SIZE - sz,
        {
            proof {
                lemma_pow2_values();
                if k == 25 {
                    assert(sz == 1048576);
                    assert(false);
                }
                lemma_pow2_pos(k as int - 5);
                lemma_pow2_increases(k as int - 5, 19);
            }
            sz = sz * 2;
            k = k + 1;
        }
        proof {
            lemma_medium_class(n as int, k as int);
            lemma_medium_in_range(n as int);
        }
        k
    }
}

/// Class sizes lie between 8 bytes and the largest class.
pub proof fn lemma_class_size_bounds(c: int)
    requires
        0 <= c < N_CLASSES,
    ensures
        8 <= spec_class_size(c) <= MAX_SIZE,
{
    lemma_pow2_values();
    if 13 <= c <= 25 {
        lemma_pow2_increases(8, c - 5);
        lemma_pow2_increases(c - 5, 20);
    }
}

/// The class chosen for a request can hold it: its object size is at least
/// the request, and at least the word size.
pub proof fn lemma_class_of_fits(n: int)
    requires
        0 <= n < MAX_SIZE,
    ensures
        0 <= spec_class_of(n) < N_CLASSES,
        spec_class_size(spec_class_of(n)) >= n,
        8 <= spec_class_size(spec_class_of(n)) <= MAX_SIZE,
{
    if n <= 8 {
    } else if n <= 192 {
        let c = (n + 15) / 16;
        assert(1 <= c <= 12 && 16 * c >= n) by (nonlinear_arith)
            requires
                c == (n + 15) / 16,
                8 < n <= 192,
        {}
    } else {
        lemma_medium_in_range(n);
    }
    lemma_class_size_bounds(spec_class_of(n));
}

/// Capacity facts: every class fits at least one object in a slab, and all
/// its objects fit between the header page and the end of the slab.
pub proof fn lemma_capacity(c: int)
    requires
        0 <= c < N_CLASSES,
    ensures
        1 <= spec_capacity(c),
        spec_capacity(c) * spec_class_size(c) <= SLAB_SIZE - HEADER_SIZE,
        spec_capacity(c) <= SLAB_SIZE,
{
    lemma_class_size_bounds(c);
    let z = spec_class_size(c);
    let u = (SLAB_SIZE - HEADER_SIZE) as int;
    assert(1 <= u / z && (u / z) * z <= u && u / z <= u) by (nonlinear_arith)
        requires
            8 <= z <= 1048576,
            u == 2093056,
    {}
}


/// The least multiple of the page size that is at least `n`.
pub open spec fn spec_round_page(n: int) -> int {
    ((n + 4095) / 4096) * 4096
}

/// Bounds of page rounding.
pub proof fn lemma_round_page(n: int)
    requires
        0 <= n,
    ensures
        n <= spec_round_page(n) <= n + 4095,
        spec_round_page(n) % 4096 == 0,
{
    let q = (n + 4095) / 4096;
    assert(n <= q * 4096 <= n + 4095) by (nonlinear_arith)
        requires
            q == (n + 4095) / 4096,
            0 <= n,
    {}
    assert((q * 4096) % 4096 == 0) by (nonlinear_arith);
}

/// An address assembled from a slab index and an object slot is divisible
/// by `a` whenever the object stride and the page size are.
pub proof fn lemma_aligned_sum(p: int, s: int, i: int, z: int, a: int)
    requires
        p == CREEK_BASE + s * SLAB_SIZE + HEADER_SIZE + i * z,
        1 <= a,
        z % a == 0,
        4096int % a == 0,
        0 <= s,
        0 <= i,
    ensures
        p % a == 0,
{
    let qz = z / a;
    let q4 = 4096int / a;
    assert(z == a * qz && 4096int == a * q4) by (nonlinear_arith)
        requires
            z % a == 0,
            4096int % a == 0,
            1 <= a,
            qz == z / a,
            q4 == 4096int / a,
    {}
    let m = 512 * q4 + s * 512 * q4 + q4 + i * qz;
    assert(p == m * a) by (nonlinear_arith)
        requires
            p == 2097152 + s * 2097152 + 4096 + i * z,
            z == a * qz,
            4096int == a * q4,
            m == 512 * q4 + s * 512 * q4 + q4 + i * qz,
    {}
    vstd::arithmetic::div_mod::lemma_mod_multiples_basic(m, a);
}

/// The guaranteed alignment divides both the page size and, below the
/// large threshold, the chosen class's object size.
pub proof fn lemma_align_of(n: int)
    requires
        0 <= n,
    ensures
        1 <= spec_align_of(n) <= 4096,
        4096int % spec_align_of(n) == 0,
        n < MAX_SIZE ==> spec_class_size(spec_class_of(n)) % spec_align_of(n) == 0,
{
    lemma_pow2_values();
    if n <= 8 {
    } else if n <= 192 {
        let c = spec_class_of(n);
        lemma_class_of_fits(n);
        assert(1 <= c <= 12);
        if c == 2 {
            assert(spec_class_size(c) == 32 && spec_align_of(n) == 32);
            assert(4096int % 32int == 0);
            assert(32int % 32int == 0);
            assert(spec_class_size(spec_class_of(n)) % spec_align_of(n) == 0);
        } else if c == 6 {
            assert(spec_class_size(c) == 96 && spec_align_of(n) == 32);
            assert(4096int % 32int == 0);
            assert(96int % 32int == 0);
            assert(spec_class_size(spec_class_of(n)) % spec_align_of(n) == 0);
            assert(96int % 32 == 0);
        } else if c == 10 {
            assert(spec_class_size(c) == 160 && spec_align_of(n) == 32);
            assert(4096int % 32int == 0);
            assert(160int % 32int == 0);
            assert(spec_class_size(spec_class_of(n)) % spec_align_of(n) == 0);
            assert(160int % 32 == 0);
        } else if c == 4 {
            assert(spec_class_size(c) == 64 && spec_align_of(n) == 64);
            assert(4096int % 64int == 0);
            assert(64int % 64int == 0);
            assert(spec_class_size(spec_class_of(n)) % spec_align_of(n) == 0);
        } else if c == 12 {
            assert(spec_class_size(c) == 192 && spec_align_of(n) == 64);
            assert(4096int % 64int == 0);
            assert(192int % 64int == 0);
            assert(spec_class_size(spec_class_of(n)) % spec_align_of(n) == 0);
            assert(192int % 64 == 0);
        } else if c == 8 {
            assert(spec_class_size(c) == 128 && spec_align_of(n) == 128);
            assert(4096int % 128int == 0);
            assert(128int % 128int == 0);
            assert(spec_class_size(spec_class_of(n)) % spec_align_of(n) == 0);
        } else {
            assert(spec_align_of(n) == 16);
            assert(4096int % 16int == 0);
            assert(spec_class_size(c) == 16 * c);
            assert((16 * c) % 16 == 0) by (nonlinear_arith);
            assert(spec_class_size(spec_class_of(n)) % spec_align_of(n) == 0);
        }
    } else if n < MAX_SIZE {
        let c = spec_medium_class(n);
        lemma_medium_in_range(n);
        let z = spec_pow2(c - 5);
        if c == 13 {
            assert(z == 256);
            assert(spec_class_of(n) == c);
            assert(spec_align_of(n) == 256);
            assert(4096int % 256int == 0);
            assert(z % 256int == 0);
        } else if c == 14 {
            assert(z == 512);
            assert(spec_class_of(n) == c);
            assert(spec_align_of(n) == 512);
            assert(4096int % 512int == 0);
            assert(z % 512int == 0);
        } else if c == 15 {
            assert(z == 1024);
            assert(spec_class_of(n) == c);
            assert(spec_align_of(n) == 1024);
            assert(4096int % 1024int == 0);
            assert(z % 1024int == 0);
        } else if c == 16 {
            assert(z == 2048);
            assert(spec_class_of(n) == c);
            assert(spec_align_of(n) == 2048);
            assert(4096int % 2048int == 0);
            assert(z % 2048int == 0);
        } else if c == 17 {
            assert(z == 4096);
            assert(spec_class_of(n) == c);
            assert(spec_align_of(n) == 4096);
            assert(4096int % 4096int == 0);
            assert(z % 4096int == 0);
        } else if c == 18 {
            assert(z == 8192);
            assert(spec_class_of(n) == c);
            assert(spec_align_of(n) == 4096);
            assert(z % 4096int == 0) by (nonlinear_arith)
                requires
                    z == 8192,
            {}
        } else if c == 19 {
            assert(z == 16384);
            assert(spec_class_of(n) == c);
            assert(spec_align_of(n) == 4096);
            assert(z % 4096int == 0) by (nonlinear_arith)
                requires
                    z == 16384,
            {}
        } else if c == 20 {
            assert(z == 32768);
            assert(spec_class_of(n) == c);
            assert(spec_align_of(n) == 4096);
            assert(z % 4096int == 0) by (nonlinear_arith)
                requires
                    z == 32768,
            {}
        } else if c == 21 {
            assert(z == 65536);
            assert(spec_class_of(n) == c);
            assert(spec_align_of(n) == 4096);
            assert(z % 4096int == 0) by (nonlinear_arith)
                requires
                    z == 65536,
            {}
        } else if c == 22 {
            assert(z == 131072);
            assert(spec_class_of(n) == c);
            assert(spec_align_of(n) == 4096);
            assert(z % 4096int == 0) by (nonlinear_arith)
                requires
                    z == 131072,
            {}
        } else if c == 23 {
            assert(z == 262144);
            assert(spec_class_of(n) == c);
            assert(spec_align_of(n) == 4096);
            assert(z % 4096int == 0) by (nonlinear_arith)
                requires
                    z == 262144,
            {}
        } else if c == 24 {
            assert(z == 524288);
            assert(spec_class_of(n) == c);
            assert(spec_align_of(n) == 4096);
            assert(z % 4096int == 0) by (nonlinear_arith)
                requires
                    z == 524288,
            {}
        } else {
            assert(z == 1048576);
            assert(spec_class_of(n) == c);
            assert(spec_align_of(n) == 4096);
            assert(z % 4096int == 0) by (nonlinear_arith)
                requires
                    z == 1048576,
            {}
        }
    } else {
    }
}


/// Divisibility is transitive through a common divisor.
pub proof fn lemma_mod_divides(x: int, d: int, a: int)
    requires
        x % d == 0,
        d % a == 0,
        1 <= a,
        1 <= d,
        0 <= x,
    ensures
        x % a == 0,
{
    let q = x / d;
    let t = d / a;
    assert(x == d * q && d == a * t) by (nonlinear_arith)
        requires
            x % d == 0,
            d % a == 0,
            1 <= a,
            1 <= d,
            0 <= x,
            q == x / d,
            t == d / a,
    {}
    let m = q * t;
    assert(x == m * a) by (nonlinear_arith)
        requires
            x == d * q,
            d == a * t,
            m == q * t,
    {}
    vstd::arithmetic::div_mod::lemma_mod_multiples_basic(m, a);
}

} // verus!
