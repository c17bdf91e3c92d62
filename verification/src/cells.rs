//! The mathematical model of the byte image: little-endian decoding of a
//! 32-bit cell from four bytes, and the effect of a byte or cell store that
//! may extend the image with zero bytes.
use vstd::prelude::*;

verus! {

/// Byte `k` (0..3) of the little-endian encoding of `v`.
pub open spec fn byte_of(v: u32, k: int) -> u8 {
    if k == 0 {
        (v % 256) as u8
    } else if k == 1 {
        ((v / 256) % 256) as u8
    } else if k == 2 {
        ((v / 65536) % 256) as u8
    } else {
        ((v / 16777216) % 256) as u8
    }
}

/// The little-endian decoding of the four bytes at `a .. a + 4`.
pub open spec fn le32_at(m: Seq<u8>, a: int) -> u32 {
    (m[a] + m[a + 1] * 256 + m[a + 2] * 65536 + m[a + 3] * 16777216) as u32
}

/// The image after storing byte `v` at `a`: indices past the old length up to
/// `a` are filled with zero.
pub open spec fn store8(m: Seq<u8>, a: int, v: u8) -> Seq<u8> {
    Seq::new(
        if a + 1 > m.len() {
            (a + 1) as nat
        } else {
            m.len()
        },
        |i: int|
            if i == a {
                v
            } else if i < m.len() {
                m[i]
            } else {
                0u8
            },
    )
}

/// The image after storing the cell `v` little-endian at `a .. a + 4`:
/// indices past the old length up to `a` are filled with zero.
pub open spec fn store32(m: Seq<u8>, a: int, v: u32) -> Seq<u8> {
    Seq::new(
        if a + 4 > m.len() {
            (a + 4) as nat
        } else {
            m.len()
        },
        |i: int|
            if a <= i < a + 4 {
                byte_of(v, i - a)
            } else if i < m.len() {
                m[i]
            } else {
                0u8
            },
    )
}

/// The image with the bytes `bs` laid over it at `a`, nothing else moved;
/// meaningful when the region lies inside the image.
pub open spec fn splice(m: Seq<u8>, a: int, bs: Seq<u8>) -> Seq<u8> {
    Seq::new(
        m.len(),
        |i: int|
            if a <= i < a + bs.len() {
                bs[i - a]
            } else {
                m[i]
            },
    )
}

/// Storing a cell and decoding it back gives the cell: the little-endian
/// round trip.
pub proof fn lemma_store32_le32(m: Seq<u8>, a: int, v: u32)
    requires
        0 <= a,
    ensures
        le32_at(store32(m, a, v), a) == v,
{
    let s = store32(m, a, v);
    assert(s[a] == byte_of(v, 0));
    assert(s[a + 1] == byte_of(v, 1));
    assert(s[a + 2] == byte_of(v, 2));
    assert(s[a + 3] == byte_of(v, 3));
    let x = v as int;
    assert(x == 256 * (x / 256) + x % 256);
    assert(x / 256 == 256 * (x / 256 / 256) + (x / 256) % 256);
    assert(x / 256 / 256 == 256 * (x / 256 / 256 / 256) + (x / 256 / 256) % 256);
    assert(x / 256 / 256 == x / 65536) by {
        vstd::arithmetic::div_mod::lemma_div_denominator(x, 256, 256);
    }
    assert(x / 65536 / 256 == x / 16777216) by {
        vstd::arithmetic::div_mod::lemma_div_denominator(x, 65536, 256);
    }
    assert(x / 16777216 % 256 == x / 16777216) by {
        assert(x / 16777216 < 256);
        assert(x / 16777216 >= 0);
    }
}

/// Decoding reads only the four bytes of the cell: equal bytes there give
/// equal cells.
pub proof fn lemma_le32_congruence(m1: Seq<u8>, m2: Seq<u8>, a: int)
    requires
        forall|i: int| a <= i < a + 4 ==> 0 <= i < m1.len() && 0 <= i < m2.len() && m1[i] == m2[i],
    ensures
        le32_at(m1, a) == le32_at(m2, a),
{
}

} // verus!
