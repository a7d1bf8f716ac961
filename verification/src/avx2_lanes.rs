//! The 256-bit vector operations of the AVX2 kernels, lane by lane.

use crate::sums;
use vstd::prelude::*;

verus! {

/// Thirty-two bytes from `at` on.
pub fn load_u8(s: &[u8], at: usize) -> (r: [u8; 32])
    requires
        at + 32 <= s@.len(),
    ensures
        forall|i: int| 0 <= i < 32 ==> #[trigger] r[i] == s@[at + i],
{
    let mut r: [u8; 32] = [0u8;32];
    let mut i: usize = 0;
    while i < 32
        invariant
            i <= 32,
            at + 32 <= s.len(),
            forall|k: int| 0 <= k < i ==> #[trigger] r[k] == s@[at + k],
        decreases 32 - i,
    {
        r[i] = s[at + i];
        i = i + 1;
    }
    r
}

/// Thirty-two signed bytes from `at` on.
pub fn load_i8(s: &[i8], at: usize) -> (r: [i8; 32])
    requires
        at + 32 <= s@.len(),
    ensures
        forall|i: int| 0 <= i < 32 ==> #[trigger] r[i] == s@[at + i],
{
    let mut r: [i8; 32] = [0i8;32];
    let mut i: usize = 0;
    while i < 32
        invariant
            i <= 32,
            at + 32 <= s.len(),
            forall|k: int| 0 <= k < i ==> #[trigger] r[k] == s@[at + k],
        decreases 32 - i,
    {
        r[i] = s[at + i];
        i = i + 1;
    }
    r
}

/// The four bytes from `at` on, eight times.
pub fn broadcast_word(s: &[u8], at: usize) -> (r: [u8; 32])
    requires
        at + 4 <= s@.len(),
    ensures
        forall|i: int| 0 <= i < 32 ==> #[trigger] r[i] == s@[at + i % 4],
{
    let mut r: [u8; 32] = [0u8;32];
    let mut i: usize = 0;
    while i < 32
        invariant
            i <= 32,
            at + 4 <= s.len(),
            forall|k: int| 0 <= k < i ==> #[trigger] r[k] == s@[at + k % 4],
        decreases 32 - i,
    {
        r[i] = s[at + i % 4];
        i = i + 1;
    }
    r
}

/// A sixteen-entry table, once in each half.
pub fn broadcast_table(t: &[i8; 16]) -> (r: [i8; 32])
    ensures
        forall|i: int| 0 <= i < 32 ==> #[trigger] r[i] == t[i % 16],
{
    let mut r: [i8; 32] = [0i8;32];
    let mut i: usize = 0;
    while i < 32
        invariant
            i <= 32,
            forall|k: int| 0 <= k < i ==> #[trigger] r[k] == t[k % 16],
        decreases 32 - i,
    {
        r[i] = t[i % 16];
        i = i + 1;
    }
    r
}

/// Picks bytes of `v` by index, each half within itself; an index with its top
/// bit set gives zero.
pub fn shuffle(v: [u8; 32], index: [u8; 32]) -> (r: [u8; 32])
    ensures
        forall|i: int| 0 <= i < 32 ==> #[trigger] r[i] == if index[i] >= 128 {
            0
        } else {
            v[(i / 16) * 16 + index[i] % 16] as int
        },
{
    let mut r: [u8; 32] = [0u8;32];
    let mut i: usize = 0;
    while i < 32
        invariant
            i <= 32,
            forall|k: int| 0 <= k < i ==> #[trigger] r[k] == if index[k] >= 128 {
                0
            } else {
                v[(k / 16) * 16 + index[k] % 16] as int
            },
        decreases 32 - i,
    {
        if index[i] >= 128 {
            r[i] = 0;
        } else {
            let at: usize = (i / 16) * 16 + (index[i] % 16) as usize;
            r[i] = v[at];
        }
        i = i + 1;
    }
    r
}

/// Picks signed bytes of `v` by index, each half within itself; an index with
/// its top bit set gives zero.
pub fn shuffle_signed(v: [i8; 32], index: [u8; 32]) -> (r: [i8; 32])
    ensures
        forall|i: int| 0 <= i < 32 ==> #[trigger] r[i] == if index[i] >= 128 {
            0
        } else {
            v[(i / 16) * 16 + index[i] % 16] as int
        },
{
    let mut r: [i8; 32] = [0i8;32];
    let mut i: usize = 0;
    while i < 32
        invariant
            i <= 32,
            forall|k: int| 0 <= k < i ==> #[trigger] r[k] == if index[k] >= 128 {
                0
            } else {
                v[(k / 16) * 16 + index[k] % 16] as int
            },
        decreases 32 - i,
    {
        if index[i] >= 128 {
            r[i] = 0;
        } else {
            let at: usize = (i / 16) * 16 + (index[i] % 16) as usize;
            r[i] = v[at];
        }
        i = i + 1;
    }
    r
}

/// Index that spreads four bytes over eight places each.
pub fn byte_spread() -> (r: [u8; 32])
    ensures
        forall|i: int| 0 <= i < 32 ==> #[trigger] r[i] == i / 8,
{
    let mut r: [u8; 32] = [0u8;32];
    let mut i: usize = 0;
    while i < 32
        invariant
            i <= 32,
            forall|k: int| 0 <= k < i ==> #[trigger] r[k] == k / 8,
        decreases 32 - i,
    {
        r[i] = (i / 8) as u8;
        i = i + 1;
    }
    r
}

/// The bits of a byte from the most significant down, once for each byte.
pub fn bit_selector() -> (r: [u8; 32])
    ensures
        forall|i: int| 0 <= i < 32 ==> #[trigger] r[i] == 0x80u8 >> ((i % 8) as u8),
{
    let mut r: [u8; 32] = [0u8;32];
    let mut i: usize = 0;
    while i < 32
        invariant
            i <= 32,
            forall|k: int| 0 <= k < i ==> #[trigger] r[k] == 0x80u8 >> ((k % 8) as u8),
        decreases 32 - i,
    {
        let j: u8 = (i % 8) as u8;
        r[i] = 0x80u8 >> j;
        i = i + 1;
    }
    r
}

/// Byte-wise and.
pub fn and_bytes(a: [u8; 32], b: [u8; 32]) -> (r: [u8; 32])
    ensures
        forall|i: int| 0 <= i < 32 ==> #[trigger] r[i] == a[i] & b[i],
{
    let mut r: [u8; 32] = [0u8;32];
    let mut i: usize = 0;
    while i < 32
        invariant
            i <= 32,
            forall|k: int| 0 <= k < i ==> #[trigger] r[k] == a[k] & b[k],
        decreases 32 - i,
    {
        r[i] = a[i] & b[i];
        i = i + 1;
    }
    r
}

/// Each byte masked by `m`.
pub fn and_all(a: [u8; 32], m: u8) -> (r: [u8; 32])
    ensures
        forall|i: int| 0 <= i < 32 ==> #[trigger] r[i] == a[i] & m,
{
    let mut r: [u8; 32] = [0u8;32];
    let mut i: usize = 0;
    while i < 32
        invariant
            i <= 32,
            forall|k: int| 0 <= k < i ==> #[trigger] r[k] == a[k] & m,
        decreases 32 - i,
    {
        r[i] = a[i] & m;
        i = i + 1;
    }
    r
}

/// All ones where two bytes are equal, zero elsewhere.
pub fn equal_bytes(a: [u8; 32], b: [u8; 32]) -> (r: [u8; 32])
    ensures
        forall|i: int| 0 <= i < 32 ==> #[trigger] r[i] == if a[i] == b[i] {
            255int
        } else {
            0int
        },
{
    let mut r: [u8; 32] = [0u8;32];
    let mut i: usize = 0;
    while i < 32
        invariant
            i <= 32,
            forall|k: int| 0 <= k < i ==> #[trigger] r[k] == if a[k] == b[k] {
                255int
            } else {
                0int
            },
        decreases 32 - i,
    {
        if a[i] == b[i] {
            r[i] = 255;
        } else {
            r[i] = 0;
        }
        i = i + 1;
    }
    r
}

/// Each 16-bit word shifted right by four bits: a high byte's low nibble moves
/// into the byte below.
pub fn shift_words_right_4(v: [u8; 32]) -> (r: [u8; 32])
    ensures
        forall|i: int| 0 <= i < 32 ==> #[trigger] r[i] == if i % 2 == 0 {
            (v[i] >> 4u8) | (v[i + 1] << 4u8)
        } else {
            v[i] >> 4u8
        },
{
    let mut r: [u8; 32] = [0u8;32];
    let mut i: usize = 0;
    while i < 32
        invariant
            i <= 32,
            forall|k: int| 0 <= k < i ==> #[trigger] r[k] == if k % 2 == 0 {
                (v[k] >> 4u8) | (v[k + 1] << 4u8)
            } else {
                v[k] >> 4u8
            },
        decreases 32 - i,
    {
        if i % 2 == 0 {
            r[i] = (v[i] >> 4u8) | (v[i + 1] << 4u8);
        } else {
            r[i] = v[i] >> 4u8;
        }
        i = i + 1;
    }
    r
}

/// `a` with the sign of `b`: negated where `b` is negative, zero where it is
/// zero. The negation of -128 is -128.
pub fn sign_bytes(a: [i8; 32], b: [i8; 32]) -> (r: [i8; 32])
    ensures
        forall|i: int| 0 <= i < 32 ==> #[trigger] r[i] == if b[i] < 0 {
            if a[i] == -128 {
                -128int
            } else {
                -a[i]
            }
        } else if b[i] == 0 {
            0int
        } else {
            a[i] as int
        },
{
    let mut r: [i8; 32] = [0i8;32];
    let mut i: usize = 0;
    while i < 32
        invariant
            i <= 32,
            forall|k: int| 0 <= k < i ==> #[trigger] r[k] == if b[k] < 0 {
                if a[k] == -128 {
                    -128int
                } else {
                    -a[k]
                }
            } else if b[k] == 0 {
                0int
            } else {
                a[k] as int
            },
        decreases 32 - i,
    {
        if b[i] < 0 {
            r[i] = if a[i] == -128 {
                -128
            } else {
                -a[i]
            };
        } else if b[i] == 0 {
            r[i] = 0;
        } else {
            r[i] = a[i];
        }
        i = i + 1;
    }
    r
}

/// The nearest value that an `i16` holds.
pub open spec fn saturated(x: int) -> int {
    if x > 32767 {
        32767
    } else if x < -32768 {
        -32768
    } else {
        x
    }
}

/// The product of an unsigned and a signed byte.
fn mixed_product(a: u8, b: i8) -> (p: i32)
    ensures
        p == a * b,
        -32640 <= p <= 32385,
{
    proof {
        assert(-32640 <= a * b <= 32385) by (nonlinear_arith)
            requires
                0 <= a <= 255,
                -128 <= b <= 127,
        ;
    }
    a as i32 * b as i32
}

/// Sums of two adjacent products of unsigned and signed bytes, each saturated
/// to 16 bits.
pub fn multiply_add_bytes(a: [u8; 32], b: [i8; 32]) -> (r: [i16; 16])
    ensures
        forall|i: int|
            0 <= i < 16 ==> #[trigger] r[i] == saturated(
                a[2 * i] * b[2 * i] + a[2 * i + 1] * b[2 * i + 1],
            ),
{
    let mut r: [i16; 16] = [0i16;16];
    let mut i: usize = 0;
    while i < 16
        invariant
            i <= 16,
            forall|k: int|
                0 <= k < i ==> #[trigger] r[k] == saturated(
                    a[2 * k] * b[2 * k] + a[2 * k + 1] * b[2 * k + 1],
                ),
        decreases 16 - i,
    {
        let x: i32 = mixed_product(a[2 * i], b[2 * i]) + mixed_product(
            a[2 * i + 1],
            b[2 * i + 1],
        );
        r[i] = if x > 32767 {
            32767
        } else if x < -32768 {
            -32768
        } else {
            x as i16
        };
        i = i + 1;
    }
    r
}

/// Sums of adjacent 16-bit lanes.
pub fn pair_sums(p: [i16; 16]) -> (r: [i32; 8])
    ensures
        forall|i: int| 0 <= i < 8 ==> #[trigger] r[i] == p[2 * i] + p[2 * i + 1],
{
    let mut r: [i32; 8] = [0i32;8];
    let mut i: usize = 0;
    while i < 8
        invariant
            i <= 8,
            forall|k: int| 0 <= k < i ==> #[trigger] r[k] == p[2 * k] + p[2 * k + 1],
        decreases 8 - i,
    {
        r[i] = p[2 * i] as i32 + p[2 * i + 1] as i32;
        i = i + 1;
    }
    r
}

/// No lane of an accumulator is near the ends of its range.
pub open spec fn within(v: [i32; 8], m: int) -> bool {
    forall|l: int| 0 <= l < 8 ==> -m <= #[trigger] v[l] <= m
}

/// The sum of eight lanes.
pub open spec fn lane_total(v: [i32; 8]) -> int {
    v[0] + v[1] + v[2] + v[3] + v[4] + v[5] + v[6] + v[7]
}

/// Lane-wise sum.
pub fn add_lanes(a: [i32; 8], b: [i32; 8]) -> (r: [i32; 8])
    requires
        within(a, 0x3fff_ffff),
        within(b, 0x3fff_ffff),
    ensures
        forall|l: int| 0 <= l < 8 ==> #[trigger] r[l] == a[l] + b[l],
        lane_total(r) == lane_total(a) + lane_total(b),
{
    [
        a[0] + b[0],
        a[1] + b[1],
        a[2] + b[2],
        a[3] + b[3],
        a[4] + b[4],
        a[5] + b[5],
        a[6] + b[6],
        a[7] + b[7],
    ]
}

/// The sum of eight lanes: the two halves, then the two halves of that, then
/// the last two lanes.
pub fn add_across(v: [i32; 8]) -> (t: i32)
    requires
        within(v, 0x0fff_ffff),
    ensures
        t == lane_total(v),
{
    let x: [i32; 4] = [v[0] + v[4], v[1] + v[5], v[2] + v[6], v[3] + v[7]];
    let y: [i32; 2] = [x[0] + x[2], x[1] + x[3]];
    y[0] + y[1]
}

/// The bytes of a vector, as terms of a sum.
pub open spec fn bytes_of(v: Seq<u8>) -> spec_fn(int) -> int {
    |i: int| v[i] as int
}

/// The sum of four 64-bit lanes.
pub open spec fn wide_total(v: [u64; 4]) -> int {
    v[0] + v[1] + v[2] + v[3]
}

/// Each of four 64-bit lanes is the sum of its eight bytes.
pub fn sad(v: [u8; 32]) -> (r: [u64; 4])
    ensures
        wide_total(r) == sums::sum(32, bytes_of(v@)),
        forall|l: int| 0 <= l < 4 ==> #[trigger] r[l] <= 2040,
{
    let mut r: [u64; 4] = [0u64;4];
    let mut l: usize = 0;
    while l < 4
        invariant
            l <= 4,
            wide_total(r) == sums::sum(8 * l, bytes_of(v@)),
            forall|k: int| 0 <= k < 4 ==> #[trigger] r[k] <= 2040,
            forall|k: int| l <= k < 4 ==> #[trigger] r[k] == 0,
        decreases 4 - l,
    {
        let mut t: u64 = 0;
        let mut j: usize = 0;
        while j < 8
            invariant
                l < 4,
                j <= 8,
                t + sums::sum(8 * l, bytes_of(v@)) == sums::sum(8 * l + j, bytes_of(v@)),
                t <= 255 * j,
            decreases 8 - j,
        {
            t = t + v[8 * l + j] as u64;
            j = j + 1;
        }
        assert(r[l as int] == 0);
        let ghost before = r;
        r[l] = t;
        assert(wide_total(r) == wide_total(before) + t);
        l = l + 1;
    }
    r
}

/// Lane-wise sum of 64-bit lanes.
pub fn add_wide(a: [u64; 4], b: [u64; 4]) -> (r: [u64; 4])
    requires
        forall|l: int| 0 <= l < 4 ==> #[trigger] a[l] <= 0xffff_ffff,
        forall|l: int| 0 <= l < 4 ==> #[trigger] b[l] <= 0xffff_ffff,
    ensures
        forall|l: int| 0 <= l < 4 ==> #[trigger] r[l] == a[l] + b[l],
        wide_total(r) == wide_total(a) + wide_total(b),
{
    [a[0] + b[0], a[1] + b[1], a[2] + b[2], a[3] + b[3]]
}

/// The sum of four 64-bit lanes: the two halves, then the two lanes of that.
pub fn add_across_wide(v: [u64; 4]) -> (t: u64)
    requires
        forall|l: int| 0 <= l < 4 ==> #[trigger] v[l] <= 0xffff_ffff,
    ensures
        t == wide_total(v),
{
    let x: [u64; 2] = [v[0] + v[2], v[1] + v[3]];
    x[0] + x[1]
}

} // verus!
