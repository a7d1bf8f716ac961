//! Packing numbers to sign bits, and back to signs.

use crate::binary32;
use crate::model;
use vstd::prelude::*;

verus! {

/// What setting one bit of a byte does to every bit of it.
proof fn lemma_set_bit(b: u8, v: u8, j: u8, k: u8)
    requires
        j < 8,
        k < 8,
        v <= 1,
        !model::bit(b, j as int),
    ensures
        model::bit(b | (v << ((7 - j) as u8)), k as int) == if k == j {
            v == 1
        } else {
            model::bit(b, k as int)
        },
{
    let s = (7 - j) as u8;
    let t = (7 - k) as u8;
    assert(((b | (v << s)) >> t) & 1u8 == if t == s {
        v
    } else {
        (b >> t) & 1u8
    }) by (bit_vector)
        requires
            s < 8,
            t < 8,
            v <= 1,
            (b >> s) & 1u8 != 1u8,
    ;
}

/// Bytes with the same bits are the same.
pub proof fn lemma_bits_determine(a: u8, b: u8)
    requires
        forall|j: int| 0 <= j < 8 ==> model::bit(a, j) == model::bit(b, j),
    ensures
        a == b,
{
    assert(model::bit(a, 0) == model::bit(b, 0));
    assert(model::bit(a, 1) == model::bit(b, 1));
    assert(model::bit(a, 2) == model::bit(b, 2));
    assert(model::bit(a, 3) == model::bit(b, 3));
    assert(model::bit(a, 4) == model::bit(b, 4));
    assert(model::bit(a, 5) == model::bit(b, 5));
    assert(model::bit(a, 6) == model::bit(b, 6));
    assert(model::bit(a, 7) == model::bit(b, 7));
    assert(a == b) by (bit_vector)
        requires
            ((a >> 7u8) & 1u8 == 1u8) == ((b >> 7u8) & 1u8 == 1u8),
            ((a >> 6u8) & 1u8 == 1u8) == ((b >> 6u8) & 1u8 == 1u8),
            ((a >> 5u8) & 1u8 == 1u8) == ((b >> 5u8) & 1u8 == 1u8),
            ((a >> 4u8) & 1u8 == 1u8) == ((b >> 4u8) & 1u8 == 1u8),
            ((a >> 3u8) & 1u8 == 1u8) == ((b >> 3u8) & 1u8 == 1u8),
            ((a >> 2u8) & 1u8 == 1u8) == ((b >> 2u8) & 1u8 == 1u8),
            ((a >> 1u8) & 1u8 == 1u8) == ((b >> 1u8) & 1u8 == 1u8),
            ((a >> 0u8) & 1u8 == 1u8) == ((b >> 0u8) & 1u8 == 1u8),
    ;
}

/// `bits` holds one sign bit for each number of `x`, set where the number is
/// above zero.
pub open spec fn is_binarized(x: Seq<u32>, bits: Seq<u8>) -> bool {
    &&& x.len() == 8 * bits.len()
    &&& forall|d: int|
        0 <= d < x.len() ==> model::bit_at(bits, d) == binary32::is_positive(#[trigger] x[d])
}

/// Packs the sign bits of eight numbers from `at` on, most significant first.
fn pack_byte(x: &[u32], at: usize) -> (b: u8)
    requires
        at + 8 <= x@.len(),
    ensures
        forall|j: int|
            0 <= j < 8 ==> #[trigger] model::bit(b, j) == binary32::is_positive(x@[at + j]),
{
    let mut b: u8 = 0;
    let mut j: u8 = 0;
    proof {
        assert forall|k: int| 0 <= k < 8 implies !(#[trigger] model::bit(0u8, k)) by {
            let t = (7 - k) as u8;
            assert((0u8 >> t) & 1u8 == 0u8) by (bit_vector);
        }
    }
    while j < 8
        invariant
            j <= 8,
            at + 8 <= x.len(),
            forall|k: int|
                0 <= k < j ==> #[trigger] model::bit(b, k) == binary32::is_positive(x@[at + k]),
            forall|k: int| j <= k < 8 ==> !(#[trigger] model::bit(b, k)),
        decreases 8 - j,
    {
        let v: u8 = if binary32::positive(x[at + j as usize]) {
            1
        } else {
            0
        };
        let ghost before = b;
        b = b | (v << (7 - j));
        proof {
            assert forall|k: int| 0 <= k < 8 implies #[trigger] model::bit(b, k) == if k == j {
                v == 1
            } else {
                model::bit(before, k)
            } by {
                lemma_set_bit(before, v, j, k as u8);
            }
        }
        j = j + 1;
    }
    b
}

/// Packs the sign bits of rows of binary32 patterns, most significant bit
/// first: a bit is set where its number is above zero.
pub fn binarize(x: &[u32], dim: usize) -> (bits: Vec<u8>)
    requires
        dim % 8 == 0,
        if dim == 0 {
            x@.len() == 0
        } else {
            x@.len() % dim as nat == 0
        },
    ensures
        is_binarized(x@, bits@),
{
    let n: usize = x.len() / 8;
    proof {
        if dim > 0 {
            vstd::arithmetic::div_mod::lemma_mod_mod(x@.len() as int, 8, dim as int / 8);
            assert(8 * (dim as int / 8) == dim);
        }
    }
    let mut bits: Vec<u8> = Vec::with_capacity(n);
    let mut k: usize = 0;
    while k < n
        invariant
            k <= n,
            x@.len() == 8 * n,
            x.len() == 8 * n,
            bits@.len() == k,
            forall|d: int|
                0 <= d < 8 * k ==> model::bit_at(bits@, d) == binary32::is_positive(
                    #[trigger] x@[d],
                ),
        decreases n - k,
    {
        let b: u8 = pack_byte(x, 8 * k);
        let ghost before = bits@;
        bits.push(b);
        proof {
            assert forall|d: int| 0 <= d < 8 * (k + 1) implies model::bit_at(bits@, d)
                == binary32::is_positive(#[trigger] x@[d]) by {
                if d < 8 * k {
                    assert(bits@[d / 8] == before[d / 8]);
                    assert(model::bit_at(before, d) == binary32::is_positive(x@[d]));
                } else {
                    assert(d / 8 == k);
                    assert(model::bit(b, d % 8) == binary32::is_positive(x@[8 * k + d % 8]));
                }
            }
        }
        k = k + 1;
    }
    bits
}

/// Unpacks the sign bits of the whole rows of a packed document to signs: +1
/// for a set bit, -1 for a clear one.
pub fn signs_pm1(bits: &[u8], dim: usize) -> (signs: Vec<i8>)
    requires
        dim > 0,
        dim % 8 == 0,
        8 * bits@.len() <= usize::MAX,
    ensures
        signs@.len() == (bits@.len() / (dim as nat / 8)) * dim,
        forall|d: int|
            0 <= d < signs@.len() ==> #[trigger] signs@[d] == model::sign_at(bits@, d),
{
    let pd: usize = dim / 8;
    let nd: usize = bits.len() / pd;
    proof {
        model::lemma_whole_rows(bits@.len() as int, pd as int);
        assert(nd * dim == 8 * (nd * pd)) by (nonlinear_arith)
            requires
                dim == 8 * pd,
        ;
    }
    let n: usize = nd * dim;
    let mut signs: Vec<i8> = Vec::with_capacity(n);
    let mut d: usize = 0;
    while d < n
        invariant
            d <= n,
            n <= 8 * bits@.len(),
            signs@.len() == d,
            forall|k: int| 0 <= k < d ==> #[trigger] signs@[k] == model::sign_at(bits@, k),
        decreases n - d,
    {
        let byte: u8 = bits[d / 8];
        let j: u8 = (d % 8) as u8;
        if (byte >> (7 - j)) & 1 == 1 {
            signs.push(1);
        } else {
            signs.push(-1);
        }
        d = d + 1;
    }
    signs
}

} // verus!
