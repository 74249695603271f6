//! Allocation bitmaps: one bit per resource, set while the resource is in
//! use. A bitmap fills one block; allocation takes the lowest clear bit.

use vstd::prelude::*;
use crate::layout::{Block, BLOCK_SIZE};

verus! {

/// Number of bits in one bitmap block.
pub const BITS_PER_BLOCK: u32 = 32768;

/// Bit `j` of byte `b`, counted from the low end.
pub open spec fn bit_of(b: u8, j: u8) -> bool {
    b & (1u8 << j) != 0
}

/// Byte `b` with bit `j` set to `v`.
pub open spec fn byte_with_bit(b: u8, j: u8, v: bool) -> u8 {
    if v {
        b | (1u8 << j)
    } else {
        b & !(1u8 << j)
    }
}

/// Bit `k` of a bitmap: bit `k % 8` of byte `k / 8`.
pub open spec fn bit_at(s: Seq<u8>, k: int) -> bool {
    bit_of(s[k / 8], (k % 8) as u8)
}

/// The bitmap with bit `k` set to `v`.
pub open spec fn with_bit(s: Seq<u8>, k: int, v: bool) -> Seq<u8> {
    s.update(k / 8, byte_with_bit(s[k / 8], (k % 8) as u8, v))
}

/// `k` is the lowest clear bit of the bitmap.
pub open spec fn is_first_free(s: Seq<u8>, k: int) -> bool {
    &&& 0 <= k < 8 * s.len()
    &&& !bit_at(s, k)
    &&& forall|i: int| 0 <= i < k ==> bit_at(s, i)
}

/// The lowest clear bit of the bitmap, if it has a clear bit.
pub open spec fn first_free(s: Seq<u8>) -> Option<int> {
    if exists|k: int| is_first_free(s, k) {
        Some(choose|k: int| is_first_free(s, k))
    } else {
        None
    }
}

/// Setting a bit of a byte changes that bit and no other.
pub proof fn lemma_byte_with_bit(b: u8, j: u8, v: bool, i: u8)
    requires
        j < 8,
        i < 8,
    ensures
        bit_of(byte_with_bit(b, j, v), i) == (if i == j {
            v
        } else {
            bit_of(b, i)
        }),
{
    assert(((b | (1u8 << j)) & (1u8 << i) != 0) == (i == j || b & (1u8 << i) != 0))
        by (bit_vector)
        requires
            j < 8,
            i < 8,
    ;
    assert(((b & !(1u8 << j)) & (1u8 << i) != 0) == (i != j && b & (1u8 << i) != 0))
        by (bit_vector)
        requires
            j < 8,
            i < 8,
    ;
}

/// A byte is `0xFF` exactly when all of its bits are set.
pub proof fn lemma_full_byte(b: u8)
    ensures
        b == 0xFF <==> forall|j: u8| j < 8 ==> bit_of(b, j),
{
    if b == 0xFF {
        assert forall|j: u8| j < 8 implies bit_of(b, j) by {
            assert(0xFFu8 & (1u8 << j) != 0) by (bit_vector)
                requires
                    j < 8,
            ;
        }
    } else {
        assert(b != 0xFF ==> (b & (1u8 << 0u8) == 0 || b & (1u8 << 1u8) == 0 || b & (1u8 << 2u8)
            == 0 || b & (1u8 << 3u8) == 0 || b & (1u8 << 4u8) == 0 || b & (1u8 << 5u8) == 0 || b & (
        1u8 << 6u8) == 0 || b & (1u8 << 7u8) == 0)) by (bit_vector);
        assert(!bit_of(b, 0) || !bit_of(b, 1) || !bit_of(b, 2) || !bit_of(b, 3) || !bit_of(b, 4)
            || !bit_of(b, 5) || !bit_of(b, 6) || !bit_of(b, 7));
    }
}

/// A zero byte has no bit set.
pub proof fn lemma_zero_byte(j: u8)
    requires
        j < 8,
    ensures
        !bit_of(0, j),
{
    assert(0u8 & (1u8 << j) == 0) by (bit_vector)
        requires
            j < 8,
    ;
}

/// Setting a bit of a bitmap changes that bit and no other.
pub proof fn lemma_with_bit(s: Seq<u8>, k: int, v: bool, i: int)
    requires
        0 <= k < 8 * s.len(),
        0 <= i < 8 * s.len(),
    ensures
        with_bit(s, k, v).len() == s.len(),
        bit_at(with_bit(s, k, v), i) == (if i == k {
            v
        } else {
            bit_at(s, i)
        }),
{
    if i / 8 == k / 8 {
        lemma_byte_with_bit(s[k / 8], (k % 8) as u8, v, (i % 8) as u8);
    }
}

/// A bitmap has at most one lowest clear bit, and `first_free` names it.
pub proof fn lemma_first_free_is(s: Seq<u8>, k: int)
    requires
        is_first_free(s, k),
    ensures
        first_free(s) == Some(k),
{
    let c = choose|c: int| is_first_free(s, c);
    if c < k {
        assert(bit_at(s, c));
    } else if k < c {
        assert(bit_at(s, k));
    }
}

/// `first_free` is `None` exactly when every bit is set.
pub proof fn lemma_first_free_none(s: Seq<u8>)
    ensures
        first_free(s) is None <==> forall|i: int| 0 <= i < 8 * s.len() ==> bit_at(s, i),
{
    if first_free(s) is None {
        assert forall|i: int| 0 <= i < 8 * s.len() implies bit_at(s, i) by {
            lemma_prefix_set(s, i);
        }
    }
}

/// Where no bit is the lowest clear one, every bit is set.
proof fn lemma_prefix_set(s: Seq<u8>, n: int)
    requires
        0 <= n < 8 * s.len(),
        first_free(s) is None,
    ensures
        forall|i: int| 0 <= i <= n ==> bit_at(s, i),
    decreases n,
{
    if n > 0 {
        lemma_prefix_set(s, n - 1);
    }
    if !bit_at(s, n) {
        assert(is_first_free(s, n));
    }
}

/// First fit: after bit `f` was released, the next allocation takes `f`,
/// unless a lower bit was free already, which it then takes.
pub proof fn law_released_bit_is_next(s: Seq<u8>, f: int)
    requires
        0 <= f < 8 * s.len(),
    ensures
        first_free(with_bit(s, f, false)) == Some(
            match first_free(s) {
                Some(k) => if k < f {
                    k
                } else {
                    f
                },
                None => f,
            },
        ),
{
    let t = with_bit(s, f, false);
    assert forall|i: int| 0 <= i < 8 * s.len() implies bit_at(t, i) == (i != f && bit_at(s, i)) by {
        lemma_with_bit(s, f, false, i);
    }
    lemma_with_bit(s, f, false, f);
    lemma_first_free_none(s);
    match first_free(s) {
        Some(k) => {
            if k < f {
                lemma_first_free_is(t, k);
            } else {
                lemma_first_free_is(t, f);
            }
        },
        None => {
            lemma_first_free_is(t, f);
        },
    }
}

/// The bitmap after `n` allocations, each of which took the lowest clear
/// bit that it found.
pub open spec fn after_taking(s: Seq<u8>, n: nat) -> Seq<u8>
    decreases n,
{
    if n == 0 {
        s
    } else {
        match first_free(after_taking(s, (n - 1) as nat)) {
            Some(k) => with_bit(after_taking(s, (n - 1) as nat), k, true),
            None => after_taking(s, (n - 1) as nat),
        }
    }
}

/// The bit that allocation number `i` took, counting from 0.
pub open spec fn taken(s: Seq<u8>, i: nat) -> Option<int> {
    first_free(after_taking(s, i))
}

/// After `n` allocations that all succeeded, every bit up to the last one
/// taken is set, and each allocation took a bit no higher than the last.
proof fn lemma_taken_prefix_set(s: Seq<u8>, n: nat, j: nat)
    requires
        j < n,
        taken(s, (n - 1) as nat) is Some,
    ensures
        after_taking(s, n).len() == s.len(),
        taken(s, j) is Some,
        0 <= taken(s, j).unwrap() <= taken(s, (n - 1) as nat).unwrap() < 8 * s.len(),
        forall|i: int| 0 <= i <= taken(s, (n - 1) as nat).unwrap() ==> bit_at(after_taking(s, n), i),
    decreases n,
{
    let prev = after_taking(s, (n - 1) as nat);
    let last = taken(s, (n - 1) as nat).unwrap();
    if n > 1 {
        lemma_taken_prefix_set(s, (n - 1) as nat, if j < n - 1 {
            j
        } else {
            0
        });
    }
    assert forall|i: int| 0 <= i <= last implies bit_at(after_taking(s, n), i) by {
        lemma_with_bit(prev, last, true, i);
    }
    lemma_with_bit(prev, last, true, last);
}

/// First fit across a run of allocations: after `n` allocations, releasing
/// the bit that any one of them took makes that bit the next one taken,
/// before any higher bit.
pub proof fn law_released_bit_is_reused(s: Seq<u8>, n: nat, j: nat)
    requires
        j < n,
        taken(s, (n - 1) as nat) is Some,
    ensures
        taken(s, j) is Some,
        first_free(with_bit(after_taking(s, n), taken(s, j).unwrap(), false)) == taken(s, j),
{
    lemma_taken_prefix_set(s, n, j);
    let t = after_taking(s, n);
    let f = taken(s, j).unwrap();
    law_released_bit_is_next(t, f);
    match first_free(t) {
        Some(k) => {
        },
        None => {},
    }
}

/// Reads bit `k`.
pub fn get_bit(bitmap: &Block, k: u32) -> (set: bool)
    requires
        k < BITS_PER_BLOCK,
    ensures
        set == bit_at(bitmap@, k as int),
{
    let byte: u8 = bitmap[(k / 8) as usize];
    let j: u8 = (k % 8) as u8;
    byte & (1u8 << j) != 0
}

/// Sets bit `k` to `v`.
pub fn put_bit(bitmap: &mut Block, k: u32, v: bool)
    requires
        k < BITS_PER_BLOCK,
    ensures
        final(bitmap)@ == with_bit(old(bitmap)@, k as int, v),
{
    let pos: usize = (k / 8) as usize;
    let j: u8 = (k % 8) as u8;
    let byte: u8 = bitmap[pos];
    if v {
        bitmap[pos] = byte | (1u8 << j);
    } else {
        bitmap[pos] = byte & !(1u8 << j);
    }
}

/// Finds the lowest clear bit.
pub fn find_free(bitmap: &Block) -> (found: Option<u32>)
    ensures
        first_free(bitmap@) == match found {
            Some(k) => Some(k as int),
            None => None,
        },
{
    let mut i: usize = 0;
    while i < BLOCK_SIZE
        invariant
            i <= BLOCK_SIZE,
            forall|k: int| 0 <= k < 8 * i ==> bit_at(bitmap@, k),
        decreases BLOCK_SIZE - i,
    {
        let byte: u8 = bitmap[i];
        if byte != 0xFF {
            let mut j: u8 = 0;
            while j < 8
                invariant
                    j <= 8,
                    i < BLOCK_SIZE,
                    byte == bitmap@[i as int],
                    forall|k: int| 0 <= k < 8 * i ==> bit_at(bitmap@, k),
                    forall|t: u8| t < j ==> bit_of(byte, t),
                decreases 8 - j,
            {
                if byte & (1u8 << j) == 0 {
                    let k: u32 = (i * 8 + j as usize) as u32;
                    proof {
                        assert forall|a: int| 0 <= a < k implies bit_at(bitmap@, a) by {
                        }
                        lemma_first_free_is(bitmap@, k as int);
                    }
                    return Some(k);
                }
                j += 1;
            }
        } else {
            proof {
                lemma_full_byte(byte);
            }
        }
        proof {
            assert forall|k: int| 0 <= k < 8 * (i + 1) implies bit_at(bitmap@, k) by {
            }
        }
        i += 1;
    }
    proof {
        lemma_first_free_none(bitmap@);
    }
    None
}

} // verus!
