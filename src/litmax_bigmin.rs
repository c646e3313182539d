//! Splitting a Z-order interval at the most significant bit where its ends differ.
use vstd::prelude::*;

use crate::morton_key::{
    MortonKey,
    gather,
    key_x,
    key_y,
    lemma_decode_encode,
    lemma_encode_decode,
    lemma_morton_monotone,
    morton_code,
    spread,
};

verus! {

/// `(x, y)` lies in the axis-aligned box with corners `(x1, y1)` and `(x2, y2)`.
pub open spec fn in_aabb(x: u32, y: u32, x1: u32, y1: u32, x2: u32, y2: u32) -> bool {
    x1 <= x && x <= x2 && y1 <= y && y <= y2
}

/// `v` does not lie strictly between `lit` and `big`.
pub open spec fn avoids_gap(v: u32, lit: u32, big: u32) -> bool {
    v <= lit || big <= v
}

/// `a` with every bit below `j` set, bit `j` cleared, and the bits above `j` kept.
pub open spec fn low_side(a: u32, j: u32) -> u32 {
    ((a >> (j + 1)) << (j + 1)) | (((1u32 << j) - 1) as u32)
}

/// `a` with every bit below `j` cleared, bit `j` set, and the bits above `j` kept.
pub open spec fn high_side(a: u32, j: u32) -> u32 {
    ((a >> (j + 1)) << (j + 1)) | (1u32 << j)
}

/// The index of the most significant set bit of `v`.
pub open spec fn msb_index(v: u32) -> u32 {
    choose|r: u32| is_msb(v, r)
}

/// `r` is the index of the most significant set bit of `v`.
pub open spec fn is_msb(v: u32, r: u32) -> bool {
    r < 32 && v >> r == 1
}

/// The index of the most significant set bit of a non-zero word.
fn msb_de_bruijn(v: u32) -> (r: u32)
    requires
        v != 0,
    ensures
        is_msb(v, r),
        r == msb_index(v),
{
    let de_bruijn_bit_pos: [u32; 32] = [
        0, 9, 1, 10, 13, 21, 2, 29, 11, 14, 16, 18, 22, 25, 3, 30, 8, 12, 20, 28, 15, 17, 24, 7,
        19, 27, 23, 6, 26, 5, 4, 31,
    ];
    // first round up to one less than a power of 2
    let s1 = v | (v >> 1u32);
    let s2 = s1 | (s1 >> 2u32);
    let s3 = s2 | (s2 >> 4u32);
    let s4 = s3 | (s3 >> 8u32);
    let s = s4 | (s4 >> 16u32);
    let prod: u64 = (s as u64) * 0x07c4acdd;
    let ind = (prod as u32) >> 27u32;
    assert({
        ||| (ind == 0 && v >> 0u32 == 1)
        ||| (ind == 2 && v >> 1u32 == 1)
        ||| (ind == 6 && v >> 2u32 == 1)
        ||| (ind == 14 && v >> 3u32 == 1)
        ||| (ind == 30 && v >> 4u32 == 1)
        ||| (ind == 29 && v >> 5u32 == 1)
        ||| (ind == 27 && v >> 6u32 == 1)
        ||| (ind == 23 && v >> 7u32 == 1)
        ||| (ind == 16 && v >> 8u32 == 1)
        ||| (ind == 1 && v >> 9u32 == 1)
        ||| (ind == 3 && v >> 10u32 == 1)
        ||| (ind == 8 && v >> 11u32 == 1)
        ||| (ind == 17 && v >> 12u32 == 1)
        ||| (ind == 4 && v >> 13u32 == 1)
        ||| (ind == 9 && v >> 14u32 == 1)
        ||| (ind == 20 && v >> 15u32 == 1)
        ||| (ind == 10 && v >> 16u32 == 1)
        ||| (ind == 21 && v >> 17u32 == 1)
        ||| (ind == 11 && v >> 18u32 == 1)
        ||| (ind == 24 && v >> 19u32 == 1)
        ||| (ind == 18 && v >> 20u32 == 1)
        ||| (ind == 5 && v >> 21u32 == 1)
        ||| (ind == 12 && v >> 22u32 == 1)
        ||| (ind == 26 && v >> 23u32 == 1)
        ||| (ind == 22 && v >> 24u32 == 1)
        ||| (ind == 13 && v >> 25u32 == 1)
        ||| (ind == 28 && v >> 26u32 == 1)
        ||| (ind == 25 && v >> 27u32 == 1)
        ||| (ind == 19 && v >> 28u32 == 1)
        ||| (ind == 7 && v >> 29u32 == 1)
        ||| (ind == 15 && v >> 30u32 == 1)
        ||| (ind == 31 && v >> 31u32 == 1)
    }) by (bit_vector)
        requires
            v != 0,
            s1 == v | (v >> 1u32),
            s2 == s1 | (s1 >> 2u32),
            s3 == s2 | (s2 >> 4u32),
            s4 == s3 | (s3 >> 8u32),
            s == s4 | (s4 >> 16u32),
            prod == (s as u64) * 0x07c4acdd,
            ind == (prod as u32) >> 27u32,
    ;
    let r = de_bruijn_bit_pos[ind as usize];
    proof {
        assert(is_msb(v, r));
        let m = msb_index(v);
        assert(is_msb(v, m));
        assert(m == r) by (bit_vector)
            requires
                m < 32 && v >> m == 1,
                r < 32 && v >> r == 1,
        ;
    }
    r
}

/// Splits the coordinate interval `[a, b]` at bit `diff_msb`, the most significant bit in which
/// `a` and `b` differ: `litmax` keeps the common prefix and sets every bit below `diff_msb`,
/// `bigmin` keeps the prefix, sets bit `diff_msb` and clears the bits below it.
fn impl_litmax_bigmin(a: u32, b: u32, diff_msb: u32) -> (r: [u32; 2])
    requires
        a < 0x10000,
        b < 0x10000,
        diff_msb < 16,
        (a ^ b) >> (diff_msb + 1) == 0,
        (a >> diff_msb) & 1 == 0,
        (b >> diff_msb) & 1 == 1,
    ensures
        a <= r[0] < r[1] <= b,
        r[0] == low_side(a, diff_msb),
        r[1] == high_side(a, diff_msb),
        r[0] | a == r[0],
        (r[0] ^ a) >> (diff_msb + 1) == 0,
        (r[1] ^ a) >> (diff_msb + 1) == 0,
        (r[0] >> diff_msb) & 1 == 0,
        (r[1] >> diff_msb) & 1 == 1,
        forall|v: u32| a <= v <= b ==> #[trigger] avoids_gap(v, r[0], r[1]),
{
    let prefix2: u32 = 1u32 << diff_msb;
    assert(prefix2 >= 1) by (bit_vector)
        requires
            diff_msb < 16,
            prefix2 == 1u32 << diff_msb,
    ;
    let prefix1: u32 = prefix2 - 1;
    // the common most significant bits, aka. the prefix
    let mask = !(!prefix2 & prefix1);
    let z = (a & b) & mask;
    // append the suffixes
    let litmax = z | prefix1;
    let bigmin = z | prefix2;
    assert(a <= litmax < bigmin <= b && litmax == low_side(a, diff_msb) && bigmin == high_side(
        a,
        diff_msb,
    ) && litmax | a == litmax && (litmax ^ a) >> (diff_msb + 1) == 0
        && (bigmin ^ a) >> (diff_msb + 1) == 0 && (litmax >> diff_msb) & 1 == 0 && (bigmin
        >> diff_msb) & 1 == 1) by (bit_vector)
        requires
            diff_msb < 16,
            (a ^ b) >> (diff_msb + 1) == 0,
            (a >> diff_msb) & 1 == 0,
            (b >> diff_msb) & 1 == 1,
            prefix2 == 1u32 << diff_msb,
            prefix1 == (prefix2 - 1) as u32,
            mask == !(!prefix2 & prefix1),
            z == (a & b) & mask,
            litmax == z | prefix1,
            bigmin == z | prefix2,
    ;
    assert forall|v: u32| a <= v <= b implies #[trigger] avoids_gap(v, litmax, bigmin) by {
        assert(v <= litmax || bigmin <= v) by (bit_vector)
            requires
                a <= v <= b,
                diff_msb < 16,
                (a ^ b) >> (diff_msb + 1) == 0,
                (a >> diff_msb) & 1 == 0,
                (b >> diff_msb) & 1 == 1,
                litmax == ((a & b) & !(!(1u32 << diff_msb) & ((1u32 << diff_msb) - 1) as u32)) | ((1u32 << diff_msb) - 1) as u32,
                bigmin == ((a & b) & !(!(1u32 << diff_msb) & ((1u32 << diff_msb) - 1) as u32)) | (1u32
                    << diff_msb),
        ;
    }
    [litmax, bigmin]
}

/// Two keys whose x coordinates first differ at bit `j`, where the first has a 0, and whose
/// y coordinates agree from bit `j` up, are ordered as their x coordinates.
proof fn lemma_key_order_x(xa: u32, ya: u32, xb: u32, yb: u32, j: u32)
    requires
        xa < 0x10000,
        ya < 0x10000,
        xb < 0x10000,
        yb < 0x10000,
        j < 16,
        (xa ^ xb) >> (j + 1) == 0,
        (xa >> j) & 1 == 0,
        (xb >> j) & 1 == 1,
        (ya ^ yb) >> j == 0,
    ensures
        morton_code(xa, ya) < morton_code(xb, yb),
{
    assert(spread(xa) | (spread(ya) << 1u32) < spread(xb) | (spread(yb) << 1u32)) by (bit_vector)
        requires
            xa < 0x10000,
            ya < 0x10000,
            xb < 0x10000,
            yb < 0x10000,
            j < 16,
            (xa ^ xb) >> (j + 1) == 0,
            (xa >> j) & 1 == 0,
            (xb >> j) & 1 == 1,
            (ya ^ yb) >> j == 0,
    ;
}

/// Two keys whose y coordinates first differ at bit `j`, where the first has a 0, and whose
/// x coordinates agree above bit `j`, are ordered as their y coordinates.
proof fn lemma_key_order_y(xa: u32, ya: u32, xb: u32, yb: u32, j: u32)
    requires
        xa < 0x10000,
        ya < 0x10000,
        xb < 0x10000,
        yb < 0x10000,
        j < 16,
        (ya ^ yb) >> (j + 1) == 0,
        (ya >> j) & 1 == 0,
        (yb >> j) & 1 == 1,
        (xa ^ xb) >> (j + 1) == 0,
    ensures
        morton_code(xa, ya) < morton_code(xb, yb),
{
    assert(spread(xa) | (spread(ya) << 1u32) < spread(xb) | (spread(yb) << 1u32)) by (bit_vector)
        requires
            xa < 0x10000,
            ya < 0x10000,
            xb < 0x10000,
            yb < 0x10000,
            j < 16,
            (ya ^ yb) >> (j + 1) == 0,
            (ya >> j) & 1 == 0,
            (yb >> j) & 1 == 1,
            (xa ^ xb) >> (j + 1) == 0,
    ;
}

/// Splits the Z-order interval `[mortonmin, mortonmax]` in two.
///
/// `p1` and `p2` are the points of `mortonmin` and `mortonmax`, the lower and the upper corner
/// of an axis-aligned box. The result `[litmax, bigmin]` satisfies
/// `mortonmin <= litmax < bigmin <= mortonmax`; the box is covered by the box from `p1` to the
/// point of `litmax` and the box from the point of `bigmin` to `p2`, and every key of
/// `[mortonmin, mortonmax]` whose point lies in the box is at most `litmax` or at least `bigmin`.
pub fn litmax_bigmin(mortonmin: u32, p1: [u32; 2], mortonmax: u32, p2: [u32; 2]) -> (r: [MortonKey; 2])
    requires
        mortonmin < mortonmax,
        p1[0] == key_x(mortonmin),
        p1[1] == key_y(mortonmin),
        p2[0] == key_x(mortonmax),
        p2[1] == key_y(mortonmax),
        p1[0] <= p2[0],
        p1[1] <= p2[1],
    ensures
        mortonmin <= r[0].0 < r[1].0 <= mortonmax,
        msb_index(mortonmin ^ mortonmax) % 2 == 0 ==> {
            let j = msb_index(mortonmin ^ mortonmax) / 2;
            &&& r[0].0 == morton_code(low_side(p1[0], j), p2[1])
            &&& r[1].0 == morton_code(high_side(p1[0], j), p1[1])
        },
        msb_index(mortonmin ^ mortonmax) % 2 == 1 ==> {
            let j = msb_index(mortonmin ^ mortonmax) / 2;
            &&& r[0].0 == morton_code(p2[0], low_side(p1[1], j))
            &&& r[1].0 == morton_code(p1[0], high_side(p1[1], j))
        },
        in_aabb(key_x(r[0].0), key_y(r[0].0), p1[0], p1[1], p2[0], p2[1]),
        in_aabb(key_x(r[1].0), key_y(r[1].0), p1[0], p1[1], p2[0], p2[1]),
        p1[0] <= key_x(r[0].0),
        p1[1] <= key_y(r[0].0),
        key_x(r[1].0) <= p2[0],
        key_y(r[1].0) <= p2[1],
        forall|x: u32, y: u32|
            #[trigger] in_aabb(x, y, p1[0], p1[1], p2[0], p2[1]) ==> in_aabb(
                x,
                y,
                p1[0],
                p1[1],
                key_x(r[0].0),
                key_y(r[0].0),
            ) || in_aabb(x, y, key_x(r[1].0), key_y(r[1].0), p2[0], p2[1]),
        forall|k: u32|
            mortonmin <= k <= mortonmax && in_aabb(key_x(k), key_y(k), p1[0], p1[1], p2[0], p2[1])
                ==> #[trigger] avoids_gap(k, r[0].0, r[1].0),
{
    let x1 = p1[0];
    let y1 = p1[1];
    let x2 = p2[0];
    let y2 = p2[1];
    proof {
        lemma_encode_decode(mortonmin);
        lemma_encode_decode(mortonmax);
    }
    // find the most significant bit that differs
    let diff = mortonmin ^ mortonmax;
    assert(diff != 0) by (bit_vector)
        requires
            mortonmin < mortonmax,
            diff == mortonmin ^ mortonmax,
    ;
    let diff_msb = msb_de_bruijn(diff);
    let j = diff_msb / 2;
    assert(diff_msb & 1 == diff_msb % 2) by (bit_vector);

    // split along the axis of that bit: an even bit belongs to the x axis
    let r = if diff_msb & 1 == 0 {
        assert((x1 ^ x2) >> (j + 1) == 0 && (x1 >> j) & 1 == 0 && (x2 >> j) & 1 == 1 && (y2 ^ y1)
            >> j == 0) by (bit_vector)
            requires
                mortonmin < mortonmax,
                (mortonmin ^ mortonmax) >> diff_msb == 1,
                diff_msb < 32,
                diff_msb & 1 == 0,
                j == diff_msb / 2,
                x1 == gather(mortonmin),
                y1 == gather(mortonmin >> 1u32),
                x2 == gather(mortonmax),
                y2 == gather(mortonmax >> 1u32),
        ;
        let s = impl_litmax_bigmin(x1, x2, j);
        let xlit = s[0];
        let xbig = s[1];
        assert((xlit ^ xbig) >> (j + 1) == 0) by (bit_vector)
            requires
                (xlit ^ x1) >> (j + 1) == 0,
                (xbig ^ x1) >> (j + 1) == 0,
        ;
        let litmax = MortonKey::new_u32(xlit, y2);
        let bigmin = MortonKey::new_u32(xbig, y1);
        proof {
            lemma_decode_encode(xlit, y2);
            lemma_decode_encode(xbig, y1);
            lemma_morton_monotone(x1, y1, xlit, y2);
            lemma_morton_monotone(xbig, y1, x2, y2);
            lemma_key_order_x(xlit, y2, xbig, y1, j);
            assert forall|x: u32, y: u32| #[trigger] in_aabb(x, y, x1, y1, x2, y2) implies in_aabb(
                x,
                y,
                x1,
                y1,
                xlit,
                y2,
            ) || in_aabb(x, y, xbig, y1, x2, y2) by {
                assert(avoids_gap(x, xlit, xbig));
            }
        }
        [litmax, bigmin]
    } else {
        assert((y1 ^ y2) >> (j + 1) == 0 && (y1 >> j) & 1 == 0 && (y2 >> j) & 1 == 1 && (x2 ^ x1)
            >> (j + 1) == 0) by (bit_vector)
            requires
                mortonmin < mortonmax,
                (mortonmin ^ mortonmax) >> diff_msb == 1,
                diff_msb < 32,
                diff_msb & 1 != 0,
                j == diff_msb / 2,
                x1 == gather(mortonmin),
                y1 == gather(mortonmin >> 1u32),
                x2 == gather(mortonmax),
                y2 == gather(mortonmax >> 1u32),
        ;
        let s = impl_litmax_bigmin(y1, y2, j);
        // keep the bits of y1 below the split
        let ylit = s[0] | y1;
        let ybig = s[1];
        assert((ylit ^ ybig) >> (j + 1) == 0) by (bit_vector)
            requires
                (ylit ^ y1) >> (j + 1) == 0,
                (ybig ^ y1) >> (j + 1) == 0,
        ;
        let litmax = MortonKey::new_u32(x2, ylit);
        let bigmin = MortonKey::new_u32(x1, ybig);
        proof {
            lemma_decode_encode(x2, ylit);
            lemma_decode_encode(x1, ybig);
            lemma_morton_monotone(x1, y1, x2, ylit);
            lemma_morton_monotone(x1, ybig, x2, y2);
            lemma_key_order_y(x2, ylit, x1, ybig, j);
            assert forall|x: u32, y: u32| #[trigger] in_aabb(x, y, x1, y1, x2, y2) implies in_aabb(
                x,
                y,
                x1,
                y1,
                x2,
                ylit,
            ) || in_aabb(x, y, x1, ybig, x2, y2) by {
                assert(avoids_gap(y, ylit, ybig));
            }
        }
        [litmax, bigmin]
    };
    proof {
        let lit = r[0].0;
        let big = r[1].0;
        assert forall|k: u32|
            mortonmin <= k <= mortonmax && in_aabb(
                key_x(k),
                key_y(k),
                x1,
                y1,
                x2,
                y2,
            ) implies #[trigger] avoids_gap(k, lit, big) by {
            lemma_encode_decode(k);
            lemma_encode_decode(lit);
            lemma_encode_decode(big);
            if in_aabb(key_x(k), key_y(k), x1, y1, key_x(lit), key_y(lit)) {
                lemma_morton_monotone(key_x(k), key_y(k), key_x(lit), key_y(lit));
            } else {
                lemma_morton_monotone(key_x(big), key_y(big), key_x(k), key_y(k));
            }
        }
    }
    r
}

} // verus!
