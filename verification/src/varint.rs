//! The mathematics of the wire's integer encoding: zig-zag folding of the
//! sign and self-terminating little-endian base-128 ("varint") byte
//! sequences, seven payload bits and one continuation bit per byte.

use vstd::prelude::*;

use vstd::arithmetic::div_mod::{
    lemma_div_is_ordered_by_denominator, lemma_fundamental_div_mod, lemma_small_mod,
};
use vstd::arithmetic::mul::lemma_mul_inequality;
use vstd::arithmetic::power2::{lemma2_to64, lemma2_to64_rest, lemma_pow2_adds, lemma_pow2_pos};
use vstd::arithmetic::power2::pow2;

verus! {

/// Folds a signed integer onto an unsigned one so that small magnitudes of
/// either sign stay small: `n >= 0` maps to `2n`, `n < 0` to `-2n - 1`.
pub open spec fn zigzag(n: int) -> nat
    recommends
        -0x8000_0000_0000_0000 <= n < 0x8000_0000_0000_0000,
{
    if n >= 0 {
        (2 * n) as nat
    } else {
        (-2 * n - 1) as nat
    }
}

/// The inverse of `zigzag`: even values unfold to `r / 2`, odd ones to
/// `-(r / 2) - 1`.
pub open spec fn unzigzag(r: nat) -> int {
    if r % 2 == 0 {
        (r / 2) as int
    } else {
        -((r / 2) as int) - 1
    }
}

/// Unfolding the fold gives the integer back, and the fold of an `i64`
/// fits in sixty-four bits.
pub proof fn lemma_zigzag_roundtrip(n: int)
    requires
        -0x8000_0000_0000_0000 <= n < 0x8000_0000_0000_0000,
    ensures
        zigzag(n) < 0x1_0000_0000_0000_0000,
        unzigzag(zigzag(n)) == n,
{
}

/// The varint byte sequence of an unsigned value: seven bits per byte,
/// least-significant group first, the high bit set on every byte except
/// the last.
pub open spec fn varint_enc(x: nat) -> Seq<u8>
    decreases x,
{
    if x < 128 {
        seq![x as u8]
    } else {
        seq![((x % 128) + 128) as u8] + varint_enc(x / 128)
    }
}

/// What reading a varint from the front of a byte sequence yields.
pub enum VarintOutcome {
    /// The decoded value and the count of bytes it occupied.
    Num(nat, int),
    /// The bytes ran out before a terminating byte appeared.
    Short,
    /// The running shift passed sixty-four bits.
    TooLong,
}

/// Reads a varint whose next group lands at bit `shl`: each group
/// contributes its seven payload bits shifted by `shl`, truncated to
/// sixty-four bits; a group byte below 128 terminates. A missing byte is a
/// short read; a shift at sixty-four or more bits is an overlong varint.
pub open spec fn varint_dec_at(bytes: Seq<u8>, shl: nat) -> VarintOutcome
    decreases bytes.len(),
{
    if bytes.len() == 0 {
        VarintOutcome::Short
    } else if shl >= 64 {
        VarintOutcome::TooLong
    } else {
        let g = (bytes[0] % 128) as nat;
        let part = (g * pow2(shl)) % 0x1_0000_0000_0000_0000;
        if bytes[0] < 128 {
            VarintOutcome::Num(part, 1)
        } else {
            match varint_dec_at(bytes.skip(1), shl + 7) {
                VarintOutcome::Num(v, c) => VarintOutcome::Num((part + v) as nat, 1 + c),
                VarintOutcome::Short => VarintOutcome::Short,
                VarintOutcome::TooLong => VarintOutcome::TooLong,
            }
        }
    }
}

/// Reads a varint from the front of a byte sequence.
pub open spec fn varint_dec(bytes: Seq<u8>) -> VarintOutcome {
    varint_dec_at(bytes, 0)
}

/// A varint takes at least one byte, and a sixty-four-bit value at most
/// ten.
pub proof fn lemma_varint_enc_len(x: nat)
    ensures
        1 <= varint_enc(x).len(),
        x < 0x1_0000_0000_0000_0000 ==> varint_enc(x).len() <= 10,
    decreases x,
{
    if x >= 128 {
        lemma_varint_enc_len(x / 128);
        if x < 0x1_0000_0000_0000_0000 {
            lemma_varint_len_64(x);
        }
    }
}

/// A value below `2^(7 k)` encodes in at most `k` bytes.
proof fn lemma_varint_enc_len_bounded(x: nat, k: nat)
    requires
        k >= 1,
        x < pow2(7 * k),
    ensures
        varint_enc(x).len() <= k,
    decreases x,
{
    if x < 128 {
    } else {
        assert(k >= 2) by {
            if k == 1 {
                assert(pow2(7) == 128) by {
                    lemma2_to64();
                }
            }
        }
        assert(x / 128 < pow2((7 * (k - 1)) as nat)) by {
            lemma_pow2_adds((7 * (k - 1)) as nat, 7);
            assert(pow2(7) == 128) by {
                lemma2_to64();
            }
            lemma_div_is_ordered_by_denominator(x as int, 1, 128);
            assert(x / 128 * 128 <= x) by {
                lemma_fundamental_div_mod(x as int, 128);
            }
            assert(pow2((7 * (k - 1)) as nat) * 128 == pow2(7 * k));
            if x / 128 >= pow2((7 * (k - 1)) as nat) {
                lemma_mul_inequality(pow2((7 * (k - 1)) as nat) as int, (x / 128) as int, 128);
                assert(pow2(7 * k) <= x / 128 * 128);
            }
        }
        lemma_varint_enc_len_bounded(x / 128, (k - 1) as nat);
    }
}

/// Overall helper: `x < 2^64` encodes in at most ten bytes.
proof fn lemma_varint_len_64(x: nat)
    requires
        x < 0x1_0000_0000_0000_0000,
    ensures
        varint_enc(x).len() <= 10,
{
    assert(x < pow2(70)) by {
        lemma2_to64_rest();
        assert(pow2(64) == 0x1_0000_0000_0000_0000) by {
            lemma2_to64_rest();
        }
        vstd::arithmetic::power2::lemma_pow2_strictly_increases(64, 70);
    }
    lemma_varint_enc_len_bounded(x, 10);
}

/// Reading an encoded value back: the varint bytes of `x`, placed before
/// any suffix and read with the next group landing at bit `shl`, yield
/// exactly `x` shifted by `shl`, consuming exactly the encoded bytes.
pub proof fn lemma_varint_dec_enc_at(x: nat, rest: Seq<u8>, shl: nat)
    requires
        shl <= 63,
        x * pow2(shl) < 0x1_0000_0000_0000_0000,
    ensures
        varint_dec_at(varint_enc(x) + rest, shl) == VarintOutcome::Num(
            x * pow2(shl),
            varint_enc(x).len() as int,
        ),
    decreases x,
{
    lemma_pow2_pos(shl);
    let bytes = varint_enc(x) + rest;
    if x < 128 {
        assert(bytes[0] == x as u8);
        assert((bytes[0] % 128) as nat == x);
        assert(x * pow2(shl) % 0x1_0000_0000_0000_0000 == x * pow2(shl)) by {
            lemma_small_mod(x * pow2(shl), 0x1_0000_0000_0000_0000);
        }
    } else {
        let g = x % 128;
        let y = x / 128;
        assert(bytes[0] == (g + 128) as u8);
        assert(bytes[0] >= 128);
        assert((bytes[0] % 128) as nat == g);
        assert(bytes.skip(1) =~= varint_enc(y) + rest);
        assert(x == 128 * y + g) by {
            lemma_fundamental_div_mod(x as int, 128);
        }
        // The tail's contribution lands seven bits higher.
        assert(y * pow2(shl + 7) == 128 * y * pow2(shl)) by {
            lemma_pow2_adds(shl, 7);
            assert(pow2(7) == 128) by {
                lemma2_to64();
            }
            assert(y * (pow2(shl) * 128) == 128 * y * pow2(shl)) by (nonlinear_arith);
        }
        assert(x * pow2(shl) == g * pow2(shl) + y * pow2(shl + 7)) by {
            assert((128 * y + g) * pow2(shl) == 128 * y * pow2(shl) + g * pow2(shl))
                by (nonlinear_arith);
        }
        assert(y * pow2(shl + 7) <= x * pow2(shl)) by {
            assert(g * pow2(shl) >= 0) by (nonlinear_arith);
        }
        assert(shl + 7 <= 63) by {
            if shl + 7 > 63 {
                assert(pow2(64) <= pow2(shl + 7)) by {
                    if shl + 7 > 64 {
                        vstd::arithmetic::power2::lemma_pow2_strictly_increases(64, shl + 7);
                    }
                }
                assert(pow2(shl + 7) <= y * pow2(shl + 7)) by {
                    lemma_pow2_pos(shl + 7);
                    assert(y >= 1);
                    lemma_mul_inequality(1, y as int, pow2(shl + 7) as int);
                }
                assert(pow2(64) == 0x1_0000_0000_0000_0000) by {
                    lemma2_to64_rest();
                }
            }
        }
        lemma_varint_dec_enc_at(y, rest, shl + 7);
        assert(g * pow2(shl) % 0x1_0000_0000_0000_0000 == g * pow2(shl)) by {
            lemma_small_mod(g * pow2(shl), 0x1_0000_0000_0000_0000);
        }
        assert(varint_enc(x).len() == 1 + varint_enc(y).len());
    }
}

/// Round trip at the start of a byte stream: the varint bytes of a
/// sixty-four-bit value, before any suffix, read back as that value.
pub proof fn lemma_varint_dec_enc(x: nat, rest: Seq<u8>)
    requires
        x < 0x1_0000_0000_0000_0000,
    ensures
        varint_dec(varint_enc(x) + rest) == VarintOutcome::Num(x, varint_enc(x).len() as int),
        1 <= varint_enc(x).len() <= 10,
{
    lemma_pow2_pos(0);
    assert(pow2(0) == 1) by {
        lemma2_to64();
    }
    lemma_varint_dec_enc_at(x, rest, 0);
    lemma_varint_enc_len(x);
    lemma_varint_len_64(x);
}


/// A successful varint read consumes at least one byte and no more than
/// there are.
pub proof fn lemma_varint_dec_at_bounds(bytes: Seq<u8>, shl: nat)
    ensures
        varint_dec_at(bytes, shl) matches VarintOutcome::Num(x, c) ==> 1 <= c <= bytes.len(),
    decreases bytes.len(),
{
    if bytes.len() > 0 && shl < 64 && bytes[0] >= 128 {
        lemma_varint_dec_at_bounds(bytes.skip(1), shl + 7);
    }
}

/// A successful varint read consumes at least one byte and no more than
/// there are.
pub proof fn lemma_varint_dec_bounds(bytes: Seq<u8>)
    ensures
        varint_dec(bytes) matches VarintOutcome::Num(x, c) ==> 1 <= c <= bytes.len(),
{
    lemma_varint_dec_at_bounds(bytes, 0);
}
} // verus!
