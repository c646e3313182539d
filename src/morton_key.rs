//! Morton (Z-order) keys: the bits of two 16-bit coordinates interleaved
//! into one 32-bit word.
use vstd::prelude::*;

verus! {

/// Moves bit `i` of the low 16 bits of `n` to bit `2i`.
pub open spec fn spread(n: u32) -> u32 {
    (n & 0x1) | ((n & 0x2) << 1u32) | ((n & 0x4) << 2u32) | ((n & 0x8) << 3u32)
        | ((n & 0x10) << 4u32) | ((n & 0x20) << 5u32) | ((n & 0x40) << 6u32) | ((n & 0x80) << 7u32)
        | ((n & 0x100) << 8u32) | ((n & 0x200) << 9u32) | ((n & 0x400) << 10u32) | ((n & 0x800)
        << 11u32) | ((n & 0x1000) << 12u32) | ((n & 0x2000) << 13u32) | ((n & 0x4000) << 14u32)
        | ((n & 0x8000) << 15u32)
}

/// Moves bit `2i` of `n` to bit `i`, for `i < 16`; the odd bits are dropped.
pub open spec fn gather(n: u32) -> u32 {
    (n & 0x1) | ((n >> 1u32) & 0x2) | ((n >> 2u32) & 0x4) | ((n >> 3u32) & 0x8) | ((n >> 4u32)
        & 0x10) | ((n >> 5u32) & 0x20) | ((n >> 6u32) & 0x40) | ((n >> 7u32) & 0x80) | ((n
        >> 8u32) & 0x100) | ((n >> 9u32) & 0x200) | ((n >> 10u32) & 0x400) | ((n >> 11u32)
        & 0x800) | ((n >> 12u32) & 0x1000) | ((n >> 13u32) & 0x2000) | ((n >> 14u32) & 0x4000)
        | ((n >> 15u32) & 0x8000)
}

/// The Morton key of `(x, y)`: bit `2i` is bit `i` of `x`, bit `2i + 1` is bit `i` of `y`.
pub open spec fn morton_code(x: u32, y: u32) -> u32 {
    spread(x) | (spread(y) << 1u32)
}

/// The x coordinate encoded in key `k`.
pub open spec fn key_x(k: u32) -> u32 {
    gather(k)
}

/// The y coordinate encoded in key `k`.
pub open spec fn key_y(k: u32) -> u32 {
    gather(k >> 1u32)
}

/// A location code on the Z-order curve. Keys are ordered as unsigned integers.
#[derive(Debug, Clone, Copy, Hash, Eq, PartialEq, Structural, PartialOrd, Ord, Default)]
pub struct MortonKey(pub u32);

impl MortonKey {
    /// The key of the point `(x, y)`.
    pub fn new(x: u16, y: u16) -> (r: Self)
        ensures
            r.0 == morton_code(x as u32, y as u32),
    {
        Self(Self::morton2(x as u32, y as u32))
    }

    /// The key of the point `(x, y)`, given as two 32-bit words that fit in 16 bits.
    pub fn new_u32(x: u32, y: u32) -> (r: Self)
        requires
            x < 0x10000,
            y < 0x10000,
        ensures
            r.0 == morton_code(x, y),
    {
        Self(Self::morton2(x, y))
    }

    fn morton2(x: u32, y: u32) -> (r: u32)
        requires
            x < 0x10000,
            y < 0x10000,
        ensures
            r == morton_code(x, y),
    {
        let sx = Self::partition(x);
        let sy = Self::partition(y);
        assert(sx + (sy << 1u32) == sx | (sy << 1u32) && sx + (sy << 1u32) <= u32::MAX) by (
        bit_vector)
            requires
                sx == spread(x),
                sy == spread(y),
        ;
        sx + (sy << 1u32)
    }

    fn partition(n: u32) -> (r: u32)
        requires
            n < 0x10000,
        ensures
            r == spread(n),
    {
        // n = ----------------fedcba9876543210 : bits initially
        // n = --------fedcba98--------76543210 : after (1)
        // n = ----fedc----ba98----7654----3210 : after (2)
        // n = --fe--dc--ba--98--76--54--32--10 : after (3)
        // n = -f-e-d-c-b-a-9-8-7-6-5-4-3-2-1-0 : after (4)
        let a = (n ^ (n << 8u32)) & 0x00ff00ff;  // (1)
        let b = (a ^ (a << 4u32)) & 0x0f0f0f0f;  // (2)
        let c = (b ^ (b << 2u32)) & 0x33333333;  // (3)
        let r = (c ^ (c << 1u32)) & 0x55555555;  // (4)
        assert(r == spread(n)) by (bit_vector)
            requires
                n < 0x10000,
                a == (n ^ (n << 8u32)) & 0x00ff00ff,
                b == (a ^ (a << 4u32)) & 0x0f0f0f0f,
                c == (b ^ (b << 2u32)) & 0x33333333,
                r == (c ^ (c << 1u32)) & 0x55555555,
        ;
        r
    }

    /// The point `[x, y]` whose key this is.
    pub fn as_point(&self) -> (r: [u32; 2])
        ensures
            r[0] == key_x(self.0),
            r[1] == key_y(self.0),
            r[0] < 0x10000,
            r[1] < 0x10000,
    {
        let x = Self::reconstruct(self.0);
        let y = Self::reconstruct(self.0 >> 1u32);
        [x, y]
    }

    fn reconstruct(n: u32) -> (r: u32)
        ensures
            r == gather(n),
            r < 0x10000,
    {
        // -f-e-d-c-b-a-9-8-7-6-5-4-3-2-1-0 : after (1)
        // -ffeeddccbbaa9988776655443322110 : after (2)
        // --fe--dc--ba--98--76--54--32--10 : after (3)
        // --fefedcdcbaba989876765454323210 : after (4)
        // ----fedc----ba98----7654----3210 : after (5)
        // ----fedcfedcba98ba98765476543210 : after (6)
        // --------fedcba98--------76543210 : after (7)
        // --------fedcba98fedcba9876543210 : after (8)
        // ----------------fedcba9876543210 : after (9)
        let a = n & 0x55555555;  // (1)
        let b = a | (a >> 1u32);  // (2)
        let c = b & 0x33333333;  // (3)
        let d = c | (c >> 2u32);  // (4)
        let e = d & 0x0f0f0f0f;  // (5)
        let f = e | (e >> 4u32);  // (6)
        let g = f & 0x00ff00ff;  // (7)
        let h = g | (g >> 8u32);  // (8)
        let r = h & 0x0000ffff;  // (9)
        assert(r == gather(n) && r < 0x10000) by (bit_vector)
            requires
                a == n & 0x55555555,
                b == a | (a >> 1u32),
                c == b & 0x33333333,
                d == c | (c >> 2u32),
                e == d & 0x0f0f0f0f,
                f == e | (e >> 4u32),
                g == f & 0x00ff00ff,
                h == g | (g >> 8u32),
                r == h & 0x0000ffff,
        ;
        r
    }
}

/// Decoding the key of a point gives the point back.
pub proof fn lemma_decode_encode(x: u32, y: u32)
    requires
        x < 0x10000,
        y < 0x10000,
    ensures
        key_x(morton_code(x, y)) == x,
        key_y(morton_code(x, y)) == y,
{
    assert(gather(spread(x) | (spread(y) << 1u32)) == x && gather(
        (spread(x) | (spread(y) << 1u32)) >> 1u32,
    ) == y) by (bit_vector)
        requires
            x < 0x10000,
            y < 0x10000,
    ;
}

/// Every 32-bit word is the key of the point it decodes to.
pub proof fn lemma_encode_decode(k: u32)
    ensures
        morton_code(key_x(k), key_y(k)) == k,
        key_x(k) < 0x10000,
        key_y(k) < 0x10000,
{
    assert(spread(gather(k)) | (spread(gather(k >> 1u32)) << 1u32) == k && gather(k) < 0x10000
        && gather(k >> 1u32) < 0x10000) by (bit_vector);
}

/// Keys of distinct points are distinct.
pub proof fn lemma_morton_injective(x1: u32, y1: u32, x2: u32, y2: u32)
    requires
        x1 < 0x10000,
        y1 < 0x10000,
        x2 < 0x10000,
        y2 < 0x10000,
        morton_code(x1, y1) == morton_code(x2, y2),
    ensures
        x1 == x2,
        y1 == y2,
{
    lemma_decode_encode(x1, y1);
    lemma_decode_encode(x2, y2);
}

/// The key grows with each coordinate.
pub proof fn lemma_morton_monotone(x1: u32, y1: u32, x2: u32, y2: u32)
    requires
        x1 <= x2 < 0x10000,
        y1 <= y2 < 0x10000,
    ensures
        morton_code(x1, y1) <= morton_code(x2, y2),
{
    assert(spread(x1) <= spread(x2)) by (bit_vector)
        requires
            x1 <= x2 < 0x10000,
    ;
    assert(spread(y1) <= spread(y2)) by (bit_vector)
        requires
            y1 <= y2 < 0x10000,
    ;
    let (a1, a2, b1, b2) = (spread(x1), spread(x2), spread(y1), spread(y2));
    assert(forall|n: u32| #[trigger] spread(n) & 0xaaaaaaaa == 0) by (bit_vector);
    assert(a1 | (b1 << 1u32) <= a2 | (b2 << 1u32)) by (bit_vector)
        requires
            a1 <= a2,
            b1 <= b2,
            a1 & 0xaaaaaaaa == 0,
            a2 & 0xaaaaaaaa == 0,
            b1 & 0xaaaaaaaa == 0,
            b2 & 0xaaaaaaaa == 0,
    ;
}

/// Bit `2i` of the key of `(x, y)` is bit `i` of `x`, and bit `2i + 1` is bit `i` of `y`.
pub proof fn lemma_morton_bits(x: u32, y: u32, i: u32)
    requires
        i < 16,
    ensures
        (morton_code(x, y) >> (2 * i)) & 1 == (x >> i) & 1,
        (morton_code(x, y) >> (2 * i + 1)) & 1 == (y >> i) & 1,
{
    assert((morton_code(x, y) >> (2 * i)) & 1 == (x >> i) & 1) by (bit_vector)
        requires
            i < 16,
    ;
    assert((morton_code(x, y) >> (2 * i + 1)) & 1 == (y >> i) & 1) by (bit_vector)
        requires
            i < 16,
    ;
}

} // verus!
