//! The variable-length encoding of lengths that frames everything a
//! transcript absorbs.

use vstd::arithmetic::power2::{lemma2_to64, lemma_pow2_adds, pow2};
use vstd::prelude::*;

verus! {

/// The number of bytes that the encoding of any 64-bit length fits in.
pub const MAX_ENCODED_LEN: usize = 10;

/// The encoding of `len`: its base-128 digits, least significant first, with
/// the high bit set on every byte but the last.
pub open spec fn encoding(len: nat) -> Seq<u8>
    decreases len,
{
    if len < 128 {
        seq![len as u8]
    } else {
        seq![(len % 128 + 128) as u8] + encoding(len / 128)
    }
}

/// Encodes `len` into a buffer of `MAX_ENCODED_LEN` bytes and says how many
/// of them are significant. The bytes past those are zero.
pub fn serialize_len(len: usize) -> (res: ([u8; MAX_ENCODED_LEN], usize))
    ensures
        1 <= res.1 <= MAX_ENCODED_LEN,
        res.1 == encoding(len as nat).len(),
        res.0@.subrange(0, res.1 as int) == encoding(len as nat),
        forall|i: int| res.1 <= i < MAX_ENCODED_LEN ==> res.0@[i] == 0,
{
    let mut rest: u64 = len as u64;
    let mut out: [u8; MAX_ENCODED_LEN] = [0u8; MAX_ENCODED_LEN];
    let mut size: usize = 0;
    assert(out@.subrange(0, 0) + encoding(rest as nat) == encoding(len as nat));
    assert(rest as nat * pow128(0) == rest as nat) by {
        assert(pow128(0) == 1);
    }
    while rest >= 128
        invariant
            size < MAX_ENCODED_LEN,
            rest as nat * pow128(size as nat) <= u64::MAX,
            out@.subrange(0, size as int) + encoding(rest as nat) == encoding(len as nat),
            forall|i: int| size <= i < MAX_ENCODED_LEN ==> out@[i] == 0,
        decreases rest,
    {
        assert(rest & 0x7F == rest % 128) by (bit_vector);
        let low: u8 = (rest & 0x7F) as u8;
        assert(rest >> 7 == rest / 128) by (bit_vector);
        assert(low | 0x80 == low + 128) by (bit_vector)
            requires
                low < 128,
        ;
        proof {
            lemma_pow128_step(size as nat);
            assert(size < 9) by {
                if size == 9 {
                    lemma_pow128_nine();
                }
            }
            assert((rest / 128) as nat * pow128((size + 1) as nat) <= rest as nat * pow128(
                size as nat,
            )) by (nonlinear_arith)
                requires
                    pow128((size + 1) as nat) == 128 * pow128(size as nat),
            ;
        }
        let ghost before = out@;
        out[size] = low | 0x80;
        assert(out@.subrange(0, size + 1) == before.subrange(0, size as int) + seq![
            (rest % 128 + 128) as u8,
        ]);
        rest = rest >> 7;
        size = size + 1;
    }
    let ghost before = out@;
    out[size] = rest as u8;
    assert(out@.subrange(0, size + 1) == before.subrange(0, size as int) + seq![rest as u8]);
    (out, size + 1)
}

/// 128 to the power `k`.
pub open spec fn pow128(k: nat) -> nat
    decreases k,
{
    if k == 0 {
        1
    } else {
        128 * pow128((k - 1) as nat)
    }
}

proof fn lemma_pow128_step(k: nat)
    ensures
        pow128(k + 1) == 128 * pow128(k),
        pow128(k) >= 1,
    decreases k,
{
    if k > 0 {
        lemma_pow128_step((k - 1) as nat);
    }
}

proof fn lemma_pow128_nine()
    ensures
        pow128(9) == 0x8000_0000_0000_0000,
{
    reveal_with_fuel(pow128, 10);
}

/// An encoding is never empty; each of its bytes but the last has the high
/// bit set, and the last has it clear.
pub proof fn lemma_encoding_shape(len: nat)
    ensures
        encoding(len).len() >= 1,
        forall|i: int| 0 <= i < encoding(len).len() - 1 ==> encoding(len)[i] >= 128,
        encoding(len).last() < 128,
    decreases len,
{
    if len >= 128 {
        lemma_encoding_shape(len / 128);
        let head = seq![(len % 128 + 128) as u8];
        let tail = encoding(len / 128);
        assert forall|i: int| 0 <= i < encoding(len).len() - 1 implies encoding(len)[i] >= 128 by {
            if i > 0 {
                assert((head + tail)[i] == tail[i - 1]);
            }
        }
        assert((head + tail).last() == tail.last());
    }
}

/// The low seven bits of the byte at `i` are the digit of `len` at `i`, in
/// base 128.
pub proof fn lemma_encoding_digits(len: nat, i: nat)
    requires
        i < encoding(len).len(),
    ensures
        encoding(len)[i as int] % 128 == (len / pow128(i)) % 128,
    decreases i,
{
    if i == 0 {
        assert(len / 1 == len);
    } else {
        let head = seq![(len % 128 + 128) as u8];
        let tail = encoding(len / 128);
        assert((head + tail)[i as int] == tail[i - 1]);
        lemma_encoding_digits(len / 128, (i - 1) as nat);
        lemma_pow128_step((i - 1) as nat);
        assert((len / 128) / pow128((i - 1) as nat) == len / pow128(i)) by (nonlinear_arith)
            requires
                pow128(i) == 128 * pow128((i - 1) as nat),
                pow128((i - 1) as nat) >= 1,
        ;
    }
}

/// A length below 128 to the power `k` takes at most `k` bytes, and any
/// other length takes more.
pub proof fn lemma_encoding_len(len: nat, k: nat)
    requires
        k >= 1,
    ensures
        encoding(len).len() <= k <==> len < pow128(k),
    decreases k,
{
    lemma_pow128_step((k - 1) as nat);
    if k == 1 {
        assert(pow128(1) == 128);
        if len >= 128 {
            lemma_encoding_shape(len / 128);
        }
    } else {
        if len >= 128 {
            lemma_encoding_len(len / 128, (k - 1) as nat);
        } else {
            assert(pow128(k) >= 128);
        }
    }
}

/// An encoding says where it ends: if two encodings, each followed by any
/// bytes at all, give the same bytes, then they encode the same length and
/// are followed by the same bytes. So no encoding is a prefix of another,
/// and no two lengths share one.
pub proof fn lemma_encoding_delimits_itself(a: nat, b: nat, after_a: Seq<u8>, after_b: Seq<u8>)
    requires
        encoding(a) + after_a == encoding(b) + after_b,
    ensures
        a == b,
        after_a == after_b,
    decreases a,
{
    let left = encoding(a) + after_a;
    let right = encoding(b) + after_b;
    assert(left[0] == encoding(a)[0]);
    assert(right[0] == encoding(b)[0]);
    if a < 128 {
        assert(b < 128);
        assert(left.skip(1) == after_a);
        assert(right.skip(1) == after_b);
    } else {
        assert(b >= 128);
        assert(left.skip(1) == encoding(a / 128) + after_a);
        assert(right.skip(1) == encoding(b / 128) + after_b);
        lemma_encoding_delimits_itself(a / 128, b / 128, after_a, after_b);
    }
}

/// The length whose `k` digits are all ones, 2 to the power `7 * k` less
/// one, takes `k` bytes: `k - 1` of them `0xFF`, and then `0x7F`.
pub proof fn lemma_encoding_all_ones(k: nat)
    requires
        k >= 1,
    ensures
        encoding((pow2(7 * k) - 1) as nat) == Seq::new(
            k,
            |i: int|
                if i < k - 1 {
                    0xFFu8
                } else {
                    0x7Fu8
                },
        ),
    decreases k,
{
    let len = (pow128(k) - 1) as nat;
    lemma_pow128_is_pow2(k);
    lemma_pow128_is_pow2((k - 1) as nat);
    lemma_pow128_step((k - 1) as nat);
    if k == 1 {
        assert(pow128(1) == 128);
    } else {
        let lower = (pow128((k - 1) as nat) - 1) as nat;
        assert(len == 128 * lower + 127);
        assert(len / 128 == lower);
        assert(len % 128 == 127);
        lemma_encoding_all_ones((k - 1) as nat);
    }
}

/// 128 to the power `k` is 2 to the power `7 * k`.
pub proof fn lemma_pow128_is_pow2(k: nat)
    ensures
        pow128(k) == pow2(7 * k),
    decreases k,
{
    lemma2_to64();
    if k > 0 {
        lemma_pow128_is_pow2((k - 1) as nat);
        lemma_pow2_adds(7, (7 * (k - 1)) as nat);
        assert(7 + 7 * (k - 1) == 7 * k);
    }
}

} // verus!
