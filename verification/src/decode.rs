//! The decoder: mirrors the encoder exactly. One tag byte selects the
//! payload reader; string-index references resolve against the buffer's
//! string table; arrays and maps recurse. Any short read fails, and an
//! unknown tag is a type mismatch.

use vstd::prelude::*;

use crate::buffer::{spec_add_str, Buffer};
use crate::values::{
    ErrorKind, RpError, RpResult, Value, ValueView, TYPE_ARR, TYPE_BOOL, TYPE_DOUBLE, TYPE_FLOAT,
    TYPE_I16, TYPE_I32, TYPE_I64, TYPE_I8, TYPE_MAP, TYPE_NIL, TYPE_RAW, TYPE_STR, TYPE_STR_IDX,
    TYPE_U16, TYPE_U32, TYPE_U64, TYPE_U8, TYPE_VARINT,
};
use crate::values::value_view;
use crate::varint::{unzigzag, varint_dec, varint_dec_at, VarintOutcome};
use vstd::arithmetic::power2::pow2;
use vstd::utf8::{decode_utf8, valid_utf8};

verus! {

/// What reading one piece of the wire yields: a value and the count of
/// bytes it occupied, or the error kind the read fails with.
pub enum DecOutcome {
    Val(ValueView, nat),
    Fail(ErrorKind),
}

/// A varint reduced to sixteen bits, as the length and count fields are.
pub open spec fn trunc_u16(v: int) -> nat {
    (v % 65536) as nat
}

/// A varint truncated to a signed thirty-two-bit value, as the float
/// payload is.
pub open spec fn trunc_i32(v: int) -> int {
    let m = v % 0x1_0000_0000;
    if m >= 0x8000_0000 {
        m - 0x1_0000_0000
    } else {
        m
    }
}

/// The signed reading of a wire byte.
pub open spec fn i8_of_byte(b: u8) -> i8 {
    if b < 128 {
        b as i8
    } else {
        ((b as int) - 256) as i8
    }
}

/// The unsigned value of little-endian bytes.
pub open spec fn le_val(bytes: Seq<u8>) -> nat
    decreases bytes.len(),
{
    if bytes.len() == 0 {
        0
    } else {
        (bytes[0] + 256 * le_val(bytes.skip(1))) as nat
    }
}

/// The signed reading of a sixteen-bit value.
pub open spec fn i16_of(v: nat) -> i16
    recommends
        v < 0x1_0000,
{
    if v < 0x8000 {
        v as i16
    } else {
        ((v as int) - 0x1_0000) as i16
    }
}

/// The signed reading of a thirty-two-bit value.
pub open spec fn i32_of(v: nat) -> i32
    recommends
        v < 0x1_0000_0000,
{
    if v < 0x8000_0000 {
        v as i32
    } else {
        ((v as int) - 0x1_0000_0000) as i32
    }
}

/// The signed reading of a sixty-four-bit value.
pub open spec fn i64_of(v: nat) -> i64
    recommends
        v < 0x1_0000_0000_0000_0000,
{
    if v < 0x8000_0000_0000_0000 {
        v as i64
    } else {
        ((v as int) - 0x1_0000_0000_0000_0000) as i64
    }
}

/// Reads a zig-zag varint from the front: the signed value and the bytes
/// consumed, or the error its shape fails with.
pub open spec fn dec_varint(bytes: Seq<u8>) -> DecOutcome {
    match varint_dec(bytes) {
        VarintOutcome::Num(x, c) => DecOutcome::Val(ValueView::Varint(unzigzag(x) as i64), c as nat),
        VarintOutcome::Short => DecOutcome::Fail(ErrorKind::NoLeftSpaceError),
        VarintOutcome::TooLong => DecOutcome::Fail(ErrorKind::ParseError),
    }
}

/// Reads a length-prefixed byte payload: a varint length reduced to
/// sixteen bits, then that many bytes.
pub open spec fn dec_lp(bytes: Seq<u8>) -> DecOutcome {
    match dec_varint(bytes) {
        DecOutcome::Val(v, c) => {
            let len = trunc_u16(v->Varint_0 as int);
            if len == 0 {
                DecOutcome::Val(ValueView::Raw(Seq::<u8>::empty()), c)
            } else if bytes.len() - c < len {
                DecOutcome::Fail(ErrorKind::NoLeftSpaceError)
            } else {
                DecOutcome::Val(ValueView::Raw(bytes.subrange(c as int, c + len as int)), (c + len) as nat)
            }
        },
        DecOutcome::Fail(k) => DecOutcome::Fail(k),
    }
}

/// Reads a string or byte-sequence payload: the length-prefixed bytes,
/// decoded as UTF-8 when a string is asked for.
pub open spec fn dec_str_raw(bytes: Seq<u8>, pattern: u8) -> DecOutcome {
    match dec_lp(bytes) {
        DecOutcome::Val(v, c) => {
            let payload = v->Raw_0;
            if pattern == TYPE_STR {
                if valid_utf8(payload) {
                    DecOutcome::Val(ValueView::Str(decode_utf8(payload)), c)
                } else {
                    DecOutcome::Fail(ErrorKind::StringFormatError)
                }
            } else {
                DecOutcome::Val(ValueView::Raw(payload), c)
            }
        },
        DecOutcome::Fail(k) => DecOutcome::Fail(k),
    }
}

/// Reads one field: a tag byte, then the payload it selects.
pub open spec fn dec_field(bytes: Seq<u8>, tbl: Seq<Seq<char>>) -> DecOutcome
    decreases bytes.len(), 0int,
{
    if bytes.len() == 0 {
        DecOutcome::Fail(ErrorKind::NoLeftSpaceError)
    } else {
        let tag = bytes[0];
        let rest = bytes.skip(1);
        if tag == TYPE_NIL {
            DecOutcome::Val(ValueView::Nil, 1)
        } else if tag == TYPE_BOOL {
            if rest.len() < 1 {
                DecOutcome::Fail(ErrorKind::NoLeftSpaceError)
            } else {
                DecOutcome::Val(ValueView::Bool(rest[0] == 1), 2)
            }
        } else if tag == TYPE_U8 {
            if rest.len() < 1 {
                DecOutcome::Fail(ErrorKind::NoLeftSpaceError)
            } else {
                DecOutcome::Val(ValueView::U8(rest[0]), 2)
            }
        } else if tag == TYPE_I8 {
            if rest.len() < 1 {
                DecOutcome::Fail(ErrorKind::NoLeftSpaceError)
            } else {
                DecOutcome::Val(ValueView::I8(i8_of_byte(rest[0])), 2)
            }
        } else if tag == TYPE_U16 {
            if rest.len() < 2 {
                DecOutcome::Fail(ErrorKind::NoLeftSpaceError)
            } else {
                DecOutcome::Val(ValueView::U16(le_val(rest.take(2)) as u16), 3)
            }
        } else if tag == TYPE_I16 {
            if rest.len() < 2 {
                DecOutcome::Fail(ErrorKind::NoLeftSpaceError)
            } else {
                DecOutcome::Val(ValueView::I16(i16_of(le_val(rest.take(2)))), 3)
            }
        } else if tag == TYPE_U32 {
            if rest.len() < 4 {
                DecOutcome::Fail(ErrorKind::NoLeftSpaceError)
            } else {
                DecOutcome::Val(ValueView::U32(le_val(rest.take(4)) as u32), 5)
            }
        } else if tag == TYPE_I32 {
            if rest.len() < 4 {
                DecOutcome::Fail(ErrorKind::NoLeftSpaceError)
            } else {
                DecOutcome::Val(ValueView::I32(i32_of(le_val(rest.take(4)))), 5)
            }
        } else if tag == TYPE_FLOAT {
            match dec_varint(rest) {
                DecOutcome::Val(v, c) => DecOutcome::Val(
                    ValueView::Float(trunc_i32(v->Varint_0 as int) as i32),
                    1 + c,
                ),
                DecOutcome::Fail(k) => DecOutcome::Fail(k),
            }
        } else if tag == TYPE_DOUBLE {
            match dec_varint(rest) {
                DecOutcome::Val(v, c) => DecOutcome::Val(ValueView::Double(v->Varint_0), 1 + c),
                DecOutcome::Fail(k) => DecOutcome::Fail(k),
            }
        } else if tag == TYPE_VARINT {
            match dec_varint(rest) {
                DecOutcome::Val(v, c) => DecOutcome::Val(v, 1 + c),
                DecOutcome::Fail(k) => DecOutcome::Fail(k),
            }
        } else if tag == TYPE_STR || tag == TYPE_RAW {
            match dec_str_raw(rest, tag) {
                DecOutcome::Val(v, c) => DecOutcome::Val(v, 1 + c),
                DecOutcome::Fail(k) => DecOutcome::Fail(k),
            }
        } else if tag == TYPE_STR_IDX {
            match dec_varint(rest) {
                DecOutcome::Val(v, c) => {
                    let idx = trunc_u16(v->Varint_0 as int);
                    if idx < tbl.len() {
                        DecOutcome::Val(ValueView::Str(tbl[idx as int]), 1 + c)
                    } else {
                        DecOutcome::Fail(ErrorKind::BufferOverMaxError)
                    }
                },
                DecOutcome::Fail(k) => DecOutcome::Fail(k),
            }
        } else if tag == TYPE_ARR {
            match dec_varint(rest) {
                DecOutcome::Val(v, c) => {
                    let n = trunc_u16(v->Varint_0 as int);
                    let body = if c <= rest.len() {
                        rest.skip(c as int)
                    } else {
                        Seq::<u8>::empty()
                    };
                    match dec_list(body, tbl, n) {
                        ListOutcome::Vals(vs, c2) => DecOutcome::Val(
                            ValueView::Arr(vs),
                            1 + c + c2,
                        ),
                        ListOutcome::ListFail(k) => DecOutcome::Fail(k),
                    }
                },
                DecOutcome::Fail(k) => DecOutcome::Fail(k),
            }
        } else if tag == TYPE_MAP {
            match dec_varint(rest) {
                DecOutcome::Val(v, c) => {
                    let n = trunc_u16(v->Varint_0 as int);
                    let body = if c <= rest.len() {
                        rest.skip(c as int)
                    } else {
                        Seq::<u8>::empty()
                    };
                    match dec_pairs(body, tbl, n) {
                        PairsOutcome::Pairs(ps, c2) => DecOutcome::Val(
                            ValueView::Dict(ps),
                            1 + c + c2,
                        ),
                        PairsOutcome::PairsFail(k) => DecOutcome::Fail(k),
                    }
                },
                DecOutcome::Fail(k) => DecOutcome::Fail(k),
            }
        } else {
            DecOutcome::Fail(ErrorKind::TypeNotMatchError)
        }
    }
}

/// What reading a run of fields yields.
pub enum ListOutcome {
    Vals(Seq<ValueView>, nat),
    ListFail(ErrorKind),
}

/// Reads `n` fields one after another.
pub open spec fn dec_list(bytes: Seq<u8>, tbl: Seq<Seq<char>>, n: nat) -> ListOutcome
    decreases bytes.len(), n,
{
    if n == 0 {
        ListOutcome::Vals(Seq::<ValueView>::empty(), 0)
    } else {
        match dec_field(bytes, tbl) {
            DecOutcome::Val(v, c) => {
                let rest = if c <= bytes.len() {
                    bytes.skip(c as int)
                } else {
                    Seq::<u8>::empty()
                };
                match dec_list(rest, tbl, (n - 1) as nat) {
                    ListOutcome::Vals(vs, c2) => ListOutcome::Vals(
                        seq![v] + vs,
                        c + c2,
                    ),
                    ListOutcome::ListFail(k) => ListOutcome::ListFail(k),
                }
            },
            DecOutcome::Fail(k) => ListOutcome::ListFail(k),
        }
    }
}

/// What reading a run of key/value pairs yields.
pub enum PairsOutcome {
    Pairs(Seq<(ValueView, ValueView)>, nat),
    PairsFail(ErrorKind),
}

/// Reads `n` key/value pairs one after another: each key, then its value.
pub open spec fn dec_pairs(bytes: Seq<u8>, tbl: Seq<Seq<char>>, n: nat) -> PairsOutcome
    decreases bytes.len(), n,
{
    if n == 0 {
        PairsOutcome::Pairs(Seq::<(ValueView, ValueView)>::empty(), 0)
    } else {
        match dec_field(bytes, tbl) {
            DecOutcome::Val(k, c) => {
                let rest = if c <= bytes.len() {
                    bytes.skip(c as int)
                } else {
                    Seq::<u8>::empty()
                };
                match dec_field(rest, tbl) {
                    DecOutcome::Val(v, c2) => {
                        let rest2 = if c2 <= rest.len() {
                            rest.skip(c2 as int)
                        } else {
                            Seq::<u8>::empty()
                        };
                        match dec_pairs(rest2, tbl, (n - 1) as nat) {
                            PairsOutcome::Pairs(ps, c3) => PairsOutcome::Pairs(
                                seq![(k, v)] + ps,
                                c + c2 + c3,
                            ),
                            PairsOutcome::PairsFail(e) => PairsOutcome::PairsFail(e),
                        }
                    },
                    DecOutcome::Fail(e) => PairsOutcome::PairsFail(e),
                }
            },
            DecOutcome::Fail(e) => PairsOutcome::PairsFail(e),
        }
    }
}


/// A successful field read consumes at least the tag byte and no more
/// than there is.
pub proof fn lemma_dec_field_bounds(bytes: Seq<u8>, tbl: Seq<Seq<char>>)
    ensures
        dec_field(bytes, tbl) matches DecOutcome::Val(v, c) ==> 1 <= c <= bytes.len(),
    decreases bytes.len(), 0int,
{
    if bytes.len() > 0 {
        let tag = bytes[0];
        let rest = bytes.skip(1);
        crate::varint::lemma_varint_dec_bounds(rest);
        if tag == TYPE_ARR || tag == TYPE_MAP {
            match dec_varint(rest) {
                DecOutcome::Val(v, c) => {
                    let n = trunc_u16(v->Varint_0 as int);
                    let body = if c <= rest.len() {
                        rest.skip(c as int)
                    } else {
                        Seq::<u8>::empty()
                    };
                    if tag == TYPE_ARR {
                        lemma_dec_list_bounds(body, tbl, n);
                    } else {
                        lemma_dec_pairs_bounds(body, tbl, n);
                    }
                },
                _ => {},
            }
        } else if tag == TYPE_STR || tag == TYPE_RAW {
            crate::varint::lemma_varint_dec_bounds(rest);
        }
    }
}

/// A successful run of field reads yields as many values as asked and
/// stays inside the bytes.
pub proof fn lemma_dec_list_bounds(bytes: Seq<u8>, tbl: Seq<Seq<char>>, n: nat)
    ensures
        dec_list(bytes, tbl, n) matches ListOutcome::Vals(vs, c) ==> vs.len() == n && c
            <= bytes.len(),
    decreases bytes.len(), n,
{
    if n > 0 {
        match dec_field(bytes, tbl) {
            DecOutcome::Val(v, c) => {
                lemma_dec_field_bounds(bytes, tbl);
                let rest = if c <= bytes.len() {
                    bytes.skip(c as int)
                } else {
                    Seq::<u8>::empty()
                };
                lemma_dec_list_bounds(rest, tbl, (n - 1) as nat);
            },
            _ => {},
        }
    }
}

/// A successful run of pair reads yields as many pairs as asked and stays
/// inside the bytes.
pub proof fn lemma_dec_pairs_bounds(bytes: Seq<u8>, tbl: Seq<Seq<char>>, n: nat)
    ensures
        dec_pairs(bytes, tbl, n) matches PairsOutcome::Pairs(ps, c) ==> ps.len() == n && c
            <= bytes.len(),
    decreases bytes.len(), n,
{
    if n > 0 {
        match dec_field(bytes, tbl) {
            DecOutcome::Val(k, c) => {
                lemma_dec_field_bounds(bytes, tbl);
                let rest = if c <= bytes.len() {
                    bytes.skip(c as int)
                } else {
                    Seq::<u8>::empty()
                };
                match dec_field(rest, tbl) {
                    DecOutcome::Val(v, c2) => {
                        lemma_dec_field_bounds(rest, tbl);
                        let rest2 = if c2 <= rest.len() {
                            rest.skip(c2 as int)
                        } else {
                            Seq::<u8>::empty()
                        };
                        lemma_dec_pairs_bounds(rest2, tbl, (n - 1) as nat);
                    },
                    _ => {},
                }
            },
            _ => {},
        }
    }
}

/// Relies on `String::from_utf8`: it succeeds exactly on valid UTF-8 and
/// returns the character sequence those bytes encode.
#[verifier::external_body]
fn string_from_utf8(bytes: Vec<u8>) -> (r: Result<String, ()>)
    ensures
        match r {
            Ok(s) => valid_utf8(bytes@) && s@ == decode_utf8(bytes@),
            Err(_) => !valid_utf8(bytes@),
        },
{
    match String::from_utf8(bytes) {
        Ok(s) => Ok(s),
        Err(_) => Err(()),
    }
}

/// Reads the one-byte type tag of the next field.
pub fn decode_type(buffer: &mut Buffer) -> (r: RpResult<Value>)
    requires
        old(buffer).wf(),
    ensures
        final(buffer).wf(),
        final(buffer).spec_wpos() == old(buffer).spec_wpos(),
        final(buffer).spec_data() == old(buffer).spec_data(),
        final(buffer).table() == old(buffer).table(),
        match r {
            Ok(v) => old(buffer).live().len() > 0 && v@ == ValueView::U8(old(buffer).live()[0])
                && final(buffer).spec_rpos() == old(buffer).spec_rpos() + 1,
            Err(e) => old(buffer).live().len() == 0 && e.spec_kind()
                == ErrorKind::NoLeftSpaceError && final(buffer).spec_rpos() == old(
                buffer,
            ).spec_rpos(),
        },
{
    match buffer.read_byte() {
        Some(b) => Ok(Value::U8(b)),
        None => Err(
            RpError::with_description(ErrorKind::NoLeftSpaceError, "must left space to read "),
        ),
    }
}

/// Reads the one-byte payload of a boolean.
pub fn decode_bool(buffer: &mut Buffer, pattern: u8) -> (r: RpResult<Value>)
    requires
        old(buffer).wf(),
        pattern == TYPE_BOOL,
    ensures
        final(buffer).wf(),
        final(buffer).spec_wpos() == old(buffer).spec_wpos(),
        final(buffer).spec_data() == old(buffer).spec_data(),
        final(buffer).table() == old(buffer).table(),
        match r {
            Ok(v) => old(buffer).live().len() > 0 && v@ == ValueView::Bool(
                old(buffer).live()[0] == 1,
            ) && final(buffer).spec_rpos() == old(buffer).spec_rpos() + 1,
            Err(e) => old(buffer).live().len() == 0 && e.spec_kind()
                == ErrorKind::NoLeftSpaceError && final(buffer).spec_rpos() == old(
                buffer,
            ).spec_rpos(),
        },
{
    match buffer.read_byte() {
        Some(b) => Ok(Value::Bool(b == 1)),
        None => Err(
            RpError::with_description(ErrorKind::NoLeftSpaceError, "must left space to read "),
        ),
    }
}

/// Reads a zig-zag varint payload as a generic integer value.
pub fn decode_varint(buffer: &mut Buffer) -> (r: RpResult<Value>)
    requires
        old(buffer).wf(),
    ensures
        final(buffer).wf(),
        final(buffer).spec_wpos() == old(buffer).spec_wpos(),
        final(buffer).spec_data() == old(buffer).spec_data(),
        final(buffer).table() == old(buffer).table(),
        final(buffer).spec_rpos() >= old(buffer).spec_rpos(),
        match r {
            Ok(v) => dec_varint(old(buffer).live()) == DecOutcome::Val(
                v@,
                (final(buffer).spec_rpos() - old(buffer).spec_rpos()) as nat,
            ) && v@ is Varint,
            Err(e) => dec_varint(old(buffer).live()) is Fail && e.spec_kind() == dec_varint(
                old(buffer).live(),
            )->Fail_0,
        },
{
    let ghost pre = *old(buffer);
    proof {
        crate::varint::lemma_varint_dec_bounds(pre.live());
    }
    let mut acc: u64 = 0;
    let mut shl: u32 = 0;
    let mut mult: u64 = 1;
    let ghost mut consumed: nat = 0;
    proof {
        vstd::arithmetic::power2::lemma2_to64();
    }
    loop
        invariant
            pre == *old(buffer),
            buffer.wf(),
            buffer.spec_wpos() == pre.spec_wpos(),
            buffer.spec_data() == pre.spec_data(),
            buffer.table() == pre.table(),
            buffer.spec_rpos() == pre.spec_rpos() + consumed,
            buffer.live() == pre.live().skip(consumed as int),
            consumed <= pre.live().len(),
            pre.wf(),
            shl % 7 == 0,
            shl <= 70,
            shl <= 63 ==> mult == pow2(shl as nat),
            shl <= 63 ==> (acc as nat) < pow2(shl as nat),
            ({
                let tail_out = varint_dec_at(buffer.live(), shl as nat);
                match tail_out {
                    VarintOutcome::Num(v, c) => varint_dec(pre.live())
                        == VarintOutcome::Num((acc + v) as nat, consumed + c),
                    VarintOutcome::Short => varint_dec(pre.live()) is Short,
                    VarintOutcome::TooLong => varint_dec(pre.live()) is TooLong,
                }
            }),
        decreases buffer.live().len(),
    {
        let ghost live0 = buffer.live();
        let b = match buffer.read_byte() {
            Some(b) => b,
            None => {
                return Err(
                    RpError::with_description(
                        ErrorKind::NoLeftSpaceError,
                        "must left space to read ",
                    ),
                );
            },
        };
        if shl >= 64 {
            return Err(RpError::with_description(ErrorKind::ParseError, "too big varint"));
        }
        let g = b % 128;
        proof {
            lemma_pow2_facts();
            assert(shl <= 63);
            if shl == 63 {
                assert(mult == pow2(63));
                vstd::arithmetic::mul::lemma_mul_inequality(
                    (g % 2) as int,
                    1,
                    pow2(63) as int,
                );
            } else {
                assert(shl <= 56) by {
                    assert(shl % 7 == 0 && shl < 64);
                }
                assert(mult == pow2(shl as nat));
                vstd::arithmetic::power2::lemma_pow2_pos(shl as nat);
                vstd::arithmetic::mul::lemma_mul_inequality(
                    g as int,
                    127,
                    pow2(shl as nat) as int,
                );
                assert(127 * pow2(shl as nat) < pow2(64)) by {
                    assert(127 * pow2(shl as nat) < 128 * pow2(shl as nat));
                    assert(128 * pow2(shl as nat) == pow2((shl + 7) as nat));
                    if shl + 7 < 64 {
                        vstd::arithmetic::power2::lemma_pow2_strictly_increases(
                            (shl + 7) as nat,
                            64,
                        );
                    }
                }
            }
        }
        let part: u64 = if shl == 63 {
            (g % 2) as u64 * mult
        } else {
            g as u64 * mult
        };
        proof {
            lemma_pow2_facts();
            assert(shl <= 63);
            if shl == 63 {
                assert(mult == pow2(63));
                lemma_part_63(g, mult);
            } else {
                assert(shl <= 56) by {
                    assert(shl % 7 == 0 && shl < 64);
                }
                assert(mult == pow2(shl as nat));
                assert(g as nat * pow2(shl as nat) < pow2(63)) by {
                    assert(g < 128);
                    vstd::arithmetic::power2::lemma_pow2_adds(shl as nat, 7);
                    vstd::arithmetic::power2::lemma_pow2_pos(shl as nat);
                    vstd::arithmetic::mul::lemma_mul_strict_inequality(
                        g as int,
                        128,
                        pow2(shl as nat) as int,
                    );
                    assert(g as nat * pow2(shl as nat) < 128 * pow2(shl as nat));
                    assert(128 * pow2(shl as nat) == pow2((shl + 7) as nat)) by {
                        vstd::arithmetic::power2::lemma_pow2_adds(shl as nat, 7);
                        lemma_pow2_facts();
                    }
                    if shl + 7 < 63 {
                        vstd::arithmetic::power2::lemma_pow2_strictly_increases(
                            (shl + 7) as nat,
                            63,
                        );
                    }
                }
                assert(pow2(63) < 0x1_0000_0000_0000_0000) by {
                    lemma_pow2_facts();
                }
                vstd::arithmetic::div_mod::lemma_small_mod(
                    (g as nat * pow2(shl as nat)) as nat,
                    0x1_0000_0000_0000_0000,
                );
            }
            assert(part as nat == (((b % 128) as nat) * pow2(shl as nat))
                % 0x1_0000_0000_0000_0000);
        }
        let ghost accpre = acc;
        acc = acc + part;
        proof {
            consumed = consumed + 1;
            assert(buffer.live() =~= pre.live().skip(consumed as int));
        }
        if b < 128 {
            let val: i64 = if acc % 2 == 1 {
                -((acc / 2) as i64) - 1
            } else {
                (acc / 2) as i64
            };
            proof {
                assert(varint_dec_at(live0, shl as nat) == VarintOutcome::Num(
                    part as nat,
                    1,
                ));
                assert(varint_dec(pre.live()) == VarintOutcome::Num(acc as nat, consumed as int));
                assert(val as int == unzigzag(acc as nat));
            }
            return Ok(Value::Varint(val));
        }
        proof {
            assert(b >= 128);
            assert(varint_dec_at(live0, shl as nat) == (match varint_dec_at(
                buffer.live(),
                (shl + 7) as nat,
            ) {
                VarintOutcome::Num(v, c) => VarintOutcome::Num((part + v) as nat, 1 + c),
                VarintOutcome::Short => VarintOutcome::Short,
                VarintOutcome::TooLong => VarintOutcome::TooLong,
            }));
        }
        if shl <= 56 {
            proof {
                lemma_pow2_facts();
                assert(mult == pow2(shl as nat));
                assert(mult * 128 == pow2((shl + 7) as nat));
                if shl + 7 < 64 {
                    vstd::arithmetic::power2::lemma_pow2_strictly_increases((shl + 7) as nat, 64);
                }
            }
            mult = mult * 128;
        }
        shl = shl + 7;
        proof {
            if shl <= 63 {
                assert(mult == pow2(shl as nat));
                assert((acc as nat) < pow2(shl as nat)) by {
                    assert((accpre as nat) < pow2((shl - 7) as nat));
                    assert(part as nat <= 127 * pow2((shl - 7) as nat)) by {
                        assert(((b % 128) as nat) <= 127);
                        assert(((b % 128) as nat) * pow2((shl - 7) as nat) <= 127 * pow2(
                            (shl - 7) as nat,
                        )) by (nonlinear_arith);
                        vstd::arithmetic::div_mod::lemma_small_mod(
                            (((b % 128) as nat) * pow2((shl - 7) as nat)) as nat,
                            0x1_0000_0000_0000_0000,
                        );
                        assert(127 * pow2((shl - 7) as nat) < pow2(shl as nat)) by {
                            vstd::arithmetic::power2::lemma_pow2_adds((shl - 7) as nat, 7);
                            assert(128 * pow2((shl - 7) as nat) == pow2(shl as nat)) by {
                                lemma_pow2_facts();
                            }
                            vstd::arithmetic::power2::lemma_pow2_pos((shl - 7) as nat);
                        }
                    }
                    assert(accpre + part < pow2((shl - 7) as nat) + 127 * pow2((shl - 7) as nat));
                    assert(pow2((shl - 7) as nat) + 127 * pow2((shl - 7) as nat) == 128 * pow2(
                        (shl - 7) as nat,
                    ));
                    assert(128 * pow2((shl - 7) as nat) == pow2(shl as nat)) by {
                        vstd::arithmetic::power2::lemma_pow2_adds((shl - 7) as nat, 7);
                        lemma_pow2_facts();
                    }
                }
            }
        }
    }
}

/// The powers of two the varint reader leans on.
proof fn lemma_pow2_facts()
    ensures
        pow2(7) == 128,
        pow2(63) == 0x8000_0000_0000_0000,
        pow2(64) == 0x1_0000_0000_0000_0000,
        forall|a: nat, b: nat| #[trigger] pow2(a + b) == pow2(a) * pow2(b),
{
    vstd::arithmetic::power2::lemma2_to64();
    vstd::arithmetic::power2::lemma2_to64_rest();
    assert forall|a: nat, b: nat| #[trigger] pow2(a + b) == pow2(a) * pow2(b) by {
        vstd::arithmetic::power2::lemma_pow2_adds(a, b);
    }
}

/// A payload group landing at bit sixty-three keeps only its lowest bit.
proof fn lemma_part_63(g: u8, mult: u64)
    requires
        g < 128,
        mult == pow2(63),
    ensures
        ((g % 2) as u64 * mult) as nat == ((g as nat) * pow2(63)) % 0x1_0000_0000_0000_0000,
{
    lemma_pow2_facts();
    let q = (g / 2) as nat;
    let r = (g % 2) as nat;
    assert(g as nat == 2 * q + r);
    assert((g as nat) * pow2(63) == q * pow2(64) + r * pow2(63)) by {
        assert((2 * q + r) * pow2(63) == 2 * q * pow2(63) + r * pow2(63)) by (nonlinear_arith);
        assert(2 * q * pow2(63) == q * (2 * pow2(63))) by (nonlinear_arith);
        assert(2 * pow2(63) == pow2(64));
    }
    assert((q * pow2(64) + r * pow2(63)) % 0x1_0000_0000_0000_0000 == (r * pow2(63))
        % 0x1_0000_0000_0000_0000) by {
        vstd::arithmetic::div_mod::lemma_mod_multiples_vanish(
            q as int,
            (r * pow2(63)) as int,
            0x1_0000_0000_0000_0000,
        );
    }
    assert(r * pow2(63) < 0x1_0000_0000_0000_0000) by {
        assert(r <= 1);
        vstd::arithmetic::mul::lemma_mul_inequality(r as int, 1, pow2(63) as int);
        assert(r * pow2(63) <= pow2(63));
    }
    vstd::arithmetic::div_mod::lemma_small_mod(
        (r * pow2(63)) as nat,
        0x1_0000_0000_0000_0000,
    );
}

/// The fixed-width payload reader of the pre-wire format: each sized
/// integer read at its own width, little-endian, floats at their
/// fixed-point scale; the varint pattern delegates to the varint reader.
pub open spec fn dec_number(bytes: Seq<u8>, pattern: u8) -> DecOutcome {
    if pattern == TYPE_U8 {
        if bytes.len() < 1 {
            DecOutcome::Fail(ErrorKind::NoLeftSpaceError)
        } else {
            DecOutcome::Val(ValueView::U8(bytes[0]), 1)
        }
    } else if pattern == TYPE_I8 {
        if bytes.len() < 1 {
            DecOutcome::Fail(ErrorKind::NoLeftSpaceError)
        } else {
            DecOutcome::Val(ValueView::I8(i8_of_byte(bytes[0])), 1)
        }
    } else if pattern == TYPE_U16 {
        if bytes.len() < 2 {
            DecOutcome::Fail(ErrorKind::NoLeftSpaceError)
        } else {
            DecOutcome::Val(ValueView::U16(le_val(bytes.take(2)) as u16), 2)
        }
    } else if pattern == TYPE_I16 {
        if bytes.len() < 2 {
            DecOutcome::Fail(ErrorKind::NoLeftSpaceError)
        } else {
            DecOutcome::Val(ValueView::I16(i16_of(le_val(bytes.take(2)))), 2)
        }
    } else if pattern == TYPE_U32 {
        if bytes.len() < 4 {
            DecOutcome::Fail(ErrorKind::NoLeftSpaceError)
        } else {
            DecOutcome::Val(ValueView::U32(le_val(bytes.take(4)) as u32), 4)
        }
    } else if pattern == TYPE_I32 {
        if bytes.len() < 4 {
            DecOutcome::Fail(ErrorKind::NoLeftSpaceError)
        } else {
            DecOutcome::Val(ValueView::I32(i32_of(le_val(bytes.take(4)))), 4)
        }
    } else if pattern == TYPE_U64 {
        if bytes.len() < 8 {
            DecOutcome::Fail(ErrorKind::NoLeftSpaceError)
        } else {
            DecOutcome::Val(ValueView::U64(le_val(bytes.take(8)) as u64), 8)
        }
    } else if pattern == TYPE_I64 {
        if bytes.len() < 8 {
            DecOutcome::Fail(ErrorKind::NoLeftSpaceError)
        } else {
            DecOutcome::Val(ValueView::I64(i64_of(le_val(bytes.take(8)))), 8)
        }
    } else if pattern == TYPE_VARINT {
        dec_varint(bytes)
    } else if pattern == TYPE_FLOAT {
        if bytes.len() < 4 {
            DecOutcome::Fail(ErrorKind::NoLeftSpaceError)
        } else {
            DecOutcome::Val(ValueView::Float(i32_of(le_val(bytes.take(4)))), 4)
        }
    } else if pattern == TYPE_DOUBLE {
        if bytes.len() < 8 {
            DecOutcome::Fail(ErrorKind::NoLeftSpaceError)
        } else {
            DecOutcome::Val(ValueView::Double(i64_of(le_val(bytes.take(8)))), 8)
        }
    } else {
        DecOutcome::Fail(ErrorKind::TypeNotMatchError)
    }
}

/// Little-endian bytes hold a value below two to the eight times their
/// count.
pub proof fn lemma_le_val_bound(s: Seq<u8>)
    ensures
        le_val(s) < pow2(8 * s.len()),
    decreases s.len(),
{
    vstd::arithmetic::power2::lemma_pow2_adds((8 * (s.len() - 1)) as nat, 8);
    vstd::arithmetic::power2::lemma2_to64();
    if s.len() == 0 {
    } else {
        lemma_le_val_bound(s.skip(1));
        let r = le_val(s.skip(1));
        let p = pow2((8 * (s.len() - 1)) as nat);
        assert(256 * r <= 256 * (p - 1)) by {
            vstd::arithmetic::mul::lemma_mul_inequality(r as int, (p - 1) as int, 256);
        }
        assert(256 * p == pow2(8 * s.len()));
    }
}

/// The unsigned value of little-endian bytes, computed.
fn le_to_u64(v: &Vec<u8>) -> (r: u64)
    requires
        v@.len() <= 8,
    ensures
        r as nat == le_val(v@),
{
    proof {
        lemma_le_val_bound(v@);
        vstd::arithmetic::power2::lemma2_to64();
        vstd::arithmetic::power2::lemma2_to64_rest();
        if 8 * v@.len() < 64 {
            vstd::arithmetic::power2::lemma_pow2_strictly_increases(8 * v@.len(), 64);
        }
    }
    let mut acc: u64 = 0;
    let mut mult: u64 = 1;
    let n = v.len();
    let mut i: usize = 0;
    proof {
        assert(v@.skip(0) =~= v@);
        vstd::arithmetic::power2::lemma2_to64();
    }
    while i < n
        invariant
            n == v@.len() <= 8,
            i <= n,
            i < n ==> mult as nat == pow2((8 * i) as nat),
            acc + mult * le_val(v@.skip(i as int)) == le_val(v@),
            le_val(v@) < 0x1_0000_0000_0000_0000,
        decreases n - i,
    {
        let ghost s_i = v@.skip(i as int);
        let ghost m0 = mult as nat;
        let ghost a0 = acc as nat;
        let ghost tailv = le_val(s_i.skip(1));
        proof {
            assert(s_i.len() > 0);
            assert(s_i[0] == v@[i as int]);
            assert(s_i.skip(1) =~= v@.skip(i as int + 1));
            assert(le_val(s_i) == s_i[0] + 256 * tailv);
            assert(m0 * le_val(s_i) == m0 * s_i[0] + (m0 * 256) * tailv) by (nonlinear_arith)
                requires
                    le_val(s_i) == s_i[0] + 256 * tailv,
            ;
            assert(m0 * s_i[0] <= m0 * le_val(s_i)) by (nonlinear_arith)
                requires
                    s_i[0] <= le_val(s_i),
                    m0 >= 0,
            ;
            assert(a0 + m0 * s_i[0] <= le_val(v@));
            assert((v@[i as int] as nat) * m0 == m0 * s_i[0]) by (nonlinear_arith)
                requires
                    v@[i as int] == s_i[0],
            ;
            assert(a0 + (v@[i as int] as nat) * m0 < 0x1_0000_0000_0000_0000);
        }
        acc = acc + (v[i] as u64) * mult;
        proof {
            assert(acc as nat == a0 + m0 * s_i[0]);
        }
        if i + 1 < n {
            proof {
                vstd::arithmetic::power2::lemma_pow2_adds((8 * i) as nat, 8);
                vstd::arithmetic::power2::lemma2_to64();
                vstd::arithmetic::power2::lemma2_to64_rest();
                assert(m0 * 256 == pow2((8 * (i + 1)) as nat));
                vstd::arithmetic::power2::lemma_pow2_strictly_increases((8 * (i + 1)) as nat, 64);
                assert(pow2((8 * (i + 1)) as nat) < 0x1_0000_0000_0000_0000);
            }
            mult = mult * 256;
        }
        i += 1;
        proof {
            assert(v@.skip(i as int) =~= s_i.skip(1));
            if i < n {
                assert(mult as nat == m0 * 256);
                assert(acc + mult * tailv == a0 + m0 * s_i[0] + (m0 * 256) * tailv);
                assert(acc + mult * le_val(v@.skip(i as int)) == le_val(v@));
            } else {
                assert(v@.skip(i as int) =~= Seq::<u8>::empty());
                assert(le_val(v@.skip(i as int)) == 0);
                assert(tailv == 0);
                assert(acc as nat == a0 + m0 * le_val(s_i)) by {
                    assert(m0 * le_val(s_i) == m0 * s_i[0] + (m0 * 256) * 0) by (nonlinear_arith)
                        requires
                            tailv == 0,
                            le_val(s_i) == s_i[0] + 256 * tailv,
                    ;
                }
                assert(acc + mult * le_val(v@.skip(i as int)) == le_val(v@));
            }
        }
    }
    proof {
        assert(v@.skip(n as int) =~= Seq::<u8>::empty());
        assert(le_val(Seq::<u8>::empty()) == 0);
        assert(mult * le_val(v@.skip(n as int)) == 0) by (nonlinear_arith)
            requires
                le_val(v@.skip(n as int)) == 0,
        ;
    }
    acc
}

/// The sixteen-bit truncation of a decoded varint, as the wire's length
/// and count fields are read.
fn varint_to_u16(x: i64) -> (r: u16)
    ensures
        r as nat == trunc_u16(x as int),
{
    let w: u64 = if x >= 0 {
        x as u64
    } else {
        ((x + 1 + 0x7fff_ffff_ffff_ffff) as u64) + 0x8000_0000_0000_0000
    };
    proof {
        if x < 0 {
            assert(w == x + 0x1_0000_0000_0000_0000);
            vstd::arithmetic::div_mod::lemma_mod_multiples_vanish(
                0x1_0000_0000_0000,
                x as int,
                65536,
            );
        }
    }
    (w % 65536) as u16
}

/// The thirty-two-bit truncation of a decoded varint, as the float
/// payload is read.
fn varint_to_i32(x: i64) -> (r: i32)
    ensures
        r as int == trunc_i32(x as int),
{
    let w: u64 = if x >= 0 {
        x as u64
    } else {
        ((x + 1 + 0x7fff_ffff_ffff_ffff) as u64) + 0x8000_0000_0000_0000
    };
    proof {
        if x < 0 {
            assert(w == x + 0x1_0000_0000_0000_0000);
            vstd::arithmetic::div_mod::lemma_mod_multiples_vanish(
                0x1_0000_0000,
                x as int,
                0x1_0000_0000,
            );
        }
    }
    let m = w % 0x1_0000_0000;
    if m >= 0x8000_0000 {
        ((m as i64) - 0x1_0000_0000) as i32
    } else {
        m as i32
    }
}

/// Reads a fixed-width numeric payload at the width the pattern names.
pub fn decode_number(buffer: &mut Buffer, pattern: u8) -> (r: RpResult<Value>)
    requires
        old(buffer).wf(),
        pattern == TYPE_U8 || pattern == TYPE_I8 || pattern == TYPE_U16 || pattern == TYPE_I16
            || pattern == TYPE_U32 || pattern == TYPE_I32 || pattern == TYPE_U64 || pattern
            == TYPE_I64 || pattern == TYPE_VARINT || pattern == TYPE_FLOAT || pattern
            == TYPE_DOUBLE,
    ensures
        final(buffer).wf(),
        final(buffer).spec_wpos() == old(buffer).spec_wpos(),
        final(buffer).spec_data() == old(buffer).spec_data(),
        final(buffer).table() == old(buffer).table(),
        final(buffer).spec_rpos() >= old(buffer).spec_rpos(),
        match r {
            Ok(v) => dec_number(old(buffer).live(), pattern) == DecOutcome::Val(
                v@,
                (final(buffer).spec_rpos() - old(buffer).spec_rpos()) as nat,
            ),
            Err(e) => dec_number(old(buffer).live(), pattern) is Fail && e.spec_kind()
                == dec_number(old(buffer).live(), pattern)->Fail_0,
        },
{
    let ghost pre = *old(buffer);
    if pattern == TYPE_VARINT {
        return decode_varint(buffer);
    }
    let width: usize = if pattern == TYPE_U8 || pattern == TYPE_I8 {
        1
    } else if pattern == TYPE_U16 || pattern == TYPE_I16 {
        2
    } else if pattern == TYPE_U32 || pattern == TYPE_I32 || pattern == TYPE_FLOAT {
        4
    } else {
        8
    };
    let bytes = match buffer.read_exact(width) {
        Some(b) => b,
        None => {
            return Err(
                RpError::with_description(ErrorKind::NoLeftSpaceError, "must left space to read "),
            );
        },
    };
    proof {
        assert(bytes@ == pre.live().take(width as int));
        lemma_le_val_bound(bytes@);
        vstd::arithmetic::power2::lemma2_to64();
        vstd::arithmetic::power2::lemma2_to64_rest();
    }
    let w = le_to_u64(&bytes);
    if pattern == TYPE_U8 {
        proof {
            assert(bytes@ =~= seq![pre.live()[0]]);
            assert(le_val(bytes@) == pre.live()[0]);
        }
        Ok(Value::U8(w as u8))
    } else if pattern == TYPE_I8 {
        proof {
            assert(bytes@ =~= seq![pre.live()[0]]);
            assert(le_val(bytes@) == pre.live()[0]);
        }
        let b = w as u8;
        Ok(
            Value::I8(
                if b < 128 {
                    b as i8
                } else {
                    ((b as i16) - 256) as i8
                },
            ),
        )
    } else if pattern == TYPE_U16 {
        Ok(Value::U16(w as u16))
    } else if pattern == TYPE_I16 {
        Ok(
            Value::I16(
                if w < 0x8000 {
                    w as i16
                } else {
                    ((w as i64) - 0x1_0000) as i16
                },
            ),
        )
    } else if pattern == TYPE_U32 {
        Ok(Value::U32(w as u32))
    } else if pattern == TYPE_I32 {
        Ok(
            Value::I32(
                if w < 0x8000_0000 {
                    w as i32
                } else {
                    ((w as i64) - 0x1_0000_0000) as i32
                },
            ),
        )
    } else if pattern == TYPE_FLOAT {
        Ok(
            Value::Float(
                if w < 0x8000_0000 {
                    w as i32
                } else {
                    ((w as i64) - 0x1_0000_0000) as i32
                },
            ),
        )
    } else if pattern == TYPE_U64 {
        Ok(Value::U64(w))
    } else if pattern == TYPE_I64 {
        Ok(
            Value::I64(
                if w < 0x8000_0000_0000_0000 {
                    w as i64
                } else {
                    -((0xffff_ffff_ffff_ffff - w) as i64) - 1
                },
            ),
        )
    } else {
        Ok(
            Value::Double(
                if w < 0x8000_0000_0000_0000 {
                    w as i64
                } else {
                    -((0xffff_ffff_ffff_ffff - w) as i64) - 1
                },
            ),
        )
    }
}

/// Reads a string or byte-sequence payload: a varint length, then the
/// bytes, decoded as UTF-8 when a string is asked for.
pub fn decode_str_raw(buffer: &mut Buffer, pattern: u8) -> (r: RpResult<Value>)
    requires
        old(buffer).wf(),
        pattern == TYPE_STR || pattern == TYPE_RAW,
    ensures
        final(buffer).wf(),
        final(buffer).spec_wpos() == old(buffer).spec_wpos(),
        final(buffer).spec_data() == old(buffer).spec_data(),
        final(buffer).table() == old(buffer).table(),
        final(buffer).spec_rpos() >= old(buffer).spec_rpos(),
        match r {
            Ok(v) => dec_str_raw(old(buffer).live(), pattern) == DecOutcome::Val(
                v@,
                (final(buffer).spec_rpos() - old(buffer).spec_rpos()) as nat,
            ),
            Err(e) => dec_str_raw(old(buffer).live(), pattern) is Fail && e.spec_kind()
                == dec_str_raw(old(buffer).live(), pattern)->Fail_0,
        },
{
    let ghost pre = *old(buffer);
    proof {
        crate::varint::lemma_varint_dec_bounds(pre.live());
    }
    let lenv = decode_varint(buffer)?;
    let len: u16 = match lenv {
        Value::Varint(x) => varint_to_u16(x),
        _ => unreached(),
    };
    let ghost c1 = buffer.spec_rpos() - pre.spec_rpos();
    proof {
        assert(dec_lp(pre.live()) matches DecOutcome::Val(v0, c0) ==> c0 >= c1);
        assert(buffer.live() =~= pre.live().skip(c1 as int));
    }
    if len == 0 {
        if pattern == TYPE_STR {
            let s = String::new();
            proof {
                assert(valid_utf8(Seq::<u8>::empty()));
                assert(decode_utf8(Seq::<u8>::empty()) =~= Seq::<char>::empty());
            }
            return Ok(Value::Str(s));
        } else {
            let empty_vec: Vec<u8> = Vec::new();
            return Ok(Value::Raw(empty_vec));
        }
    }
    let bytes = match buffer.read_exact(len as usize) {
        Some(b) => b,
        None => {
            return Err(
                RpError::with_description(ErrorKind::NoLeftSpaceError, "must left space to read "),
            );
        },
    };
    proof {
        assert(bytes@ == pre.live().skip(c1 as int).take(len as int));
        assert(bytes@ =~= pre.live().subrange(c1 as int, c1 + len as int));
    }
    if pattern == TYPE_STR {
        match string_from_utf8(bytes) {
            Ok(s) => Ok(Value::Str(s)),
            Err(_) => Err(
                RpError::with_description(ErrorKind::StringFormatError, "string format error"),
            ),
        }
    } else {
        Ok(Value::Raw(bytes))
    }
}

/// Reads an array payload: a varint count, then that many fields. The
/// tag byte is the caller's.
pub fn decode_arr(buffer: &mut Buffer) -> (r: RpResult<Value>)
    requires
        old(buffer).wf(),
    ensures
        final(buffer).wf(),
        final(buffer).spec_wpos() == old(buffer).spec_wpos(),
        final(buffer).spec_data() == old(buffer).spec_data(),
        final(buffer).table() == old(buffer).table(),
        final(buffer).spec_rpos() >= old(buffer).spec_rpos(),
        match r {
            Ok(v) => dec_field(seq![TYPE_ARR] + old(buffer).live(), old(buffer).table())
                == DecOutcome::Val(
                v@,
                (1 + final(buffer).spec_rpos() - old(buffer).spec_rpos()) as nat,
            ),
            Err(e) => dec_field(seq![TYPE_ARR] + old(buffer).live(), old(buffer).table()) is Fail
                && e.spec_kind() == dec_field(
                seq![TYPE_ARR] + old(buffer).live(),
                old(buffer).table(),
            )->Fail_0,
        },
    decreases old(buffer).live().len(), 1int,
{
    let ghost pre = *old(buffer);
    let ghost tbl = pre.table();
    let ghost tagged = seq![TYPE_ARR] + pre.live();
    proof {
        assert(tagged[0] == TYPE_ARR);
        assert(tagged.skip(1) =~= pre.live());
        crate::varint::lemma_varint_dec_bounds(pre.live());
    }
    let lenv = decode_varint(buffer)?;
    let n16: u16 = match lenv {
        Value::Varint(x) => varint_to_u16(x),
        _ => unreached(),
    };
    let ghost c1 = (buffer.spec_rpos() - pre.spec_rpos()) as nat;
    let ghost body0 = buffer.live();
    proof {
        assert(1 <= c1 <= pre.live().len());
        assert(body0 =~= pre.live().skip(c1 as int));
    }
    let n = n16 as usize;
    let mut arr: Vec<Value> = Vec::new();
    let ghost mut cb: nat = 0;
    proof {
        assert(crate::values::views_of(arr@) =~= Seq::<ValueView>::empty());
        assert(body0.skip(0) =~= body0);
        assert(tagged.skip(1) == pre.live());
        assert(match dec_list(body0, tbl, n as nat) {
            ListOutcome::Vals(vs, c2) => dec_field(tagged, tbl) == DecOutcome::Val(
                ValueView::Arr(vs),
                (1 + c1 + c2) as nat,
            ),
            ListOutcome::ListFail(k) => dec_field(tagged, tbl) == DecOutcome::Fail(k),
        });
    }
    let mut i: usize = 0;
    while i < n
        invariant
            pre == *old(buffer),
            pre.wf(),
            buffer.wf(),
            buffer.spec_wpos() == pre.spec_wpos(),
            buffer.spec_data() == pre.spec_data(),
            buffer.table() == tbl,
            tbl == pre.table(),
            tagged == seq![TYPE_ARR] + pre.live(),
            1 <= c1,
            body0.len() + c1 == pre.live().len(),
            i <= n,
            crate::values::views_of(arr@).len() == i,
            buffer.spec_rpos() == pre.spec_rpos() + c1 + cb,
            cb <= body0.len(),
            buffer.live() == body0.skip(cb as int),
            ({
                match dec_list(buffer.live(), tbl, (n - i) as nat) {
                    ListOutcome::Vals(vs, c2) => dec_list(body0, tbl, n as nat)
                        == ListOutcome::Vals(crate::values::views_of(arr@) + vs, (cb + c2) as nat),
                    ListOutcome::ListFail(k) => dec_list(body0, tbl, n as nat)
                        == ListOutcome::ListFail(k),
                }
            }),
            ({
                match dec_list(body0, tbl, n as nat) {
                    ListOutcome::Vals(vs, c2) => dec_field(tagged, tbl) == DecOutcome::Val(
                        ValueView::Arr(vs),
                        (1 + c1 + c2) as nat,
                    ),
                    ListOutcome::ListFail(k) => dec_field(tagged, tbl) == DecOutcome::Fail(k),
                }
            }),
        decreases n - i,
    {
        let ghost live_a = buffer.live();
        let ghost arr0 = arr@;
        let v = match decode_field(buffer) {
            Ok(v) => v,
            Err(e) => {
                proof {
                    assert(dec_list(live_a, tbl, (n - i) as nat) is ListFail);
                }
                return Err(e);
            },
        };
        let ghost cf = (buffer.spec_rpos() - pre.spec_rpos() - c1 - cb) as nat;
        proof {
            assert(dec_field(live_a, tbl) == DecOutcome::Val(v@, cf));
            lemma_dec_field_bounds(live_a, tbl);
            assert(1 <= cf <= live_a.len());
            assert(buffer.live() =~= live_a.skip(cf as int));
            cb = cb + cf;
            assert(buffer.live() =~= body0.skip(cb as int));
        }
        arr.push(v);
        proof {
            assert(crate::values::views_of(arr@) =~= crate::values::views_of(arr0).push(v@));
            assert forall|vs2: Seq<ValueView>|
                crate::values::views_of(arr0) + (seq![v@] + vs2) =~= crate::values::views_of(
                    arr@,
                ) + vs2 by {}
        }
        i += 1;
    }
    proof {
        assert(dec_list(buffer.live(), tbl, 0) == ListOutcome::Vals(Seq::<ValueView>::empty(), 0));
        assert(crate::values::views_of(arr@) + Seq::<ValueView>::empty() =~= crate::values::views_of(
            arr@,
        ));
        assert(dec_list(body0, tbl, n as nat) == ListOutcome::Vals(
            crate::values::views_of(arr@),
            cb,
        ));
        assert(value_view(Value::Arr(arr)) == ValueView::Arr(crate::values::views_of(arr@))) by {
            assert(ValueView::Arr(crate::values::views_of(arr@))->Arr_0 =~= value_view(
                Value::Arr(arr),
            )->Arr_0);
        }
    }
    Ok(Value::Arr(arr))
}

/// Reads a map payload: a varint count, then that many key/value pairs,
/// each key before its value. The tag byte is the caller's.
pub fn decode_map(buffer: &mut Buffer) -> (r: RpResult<Value>)
    requires
        old(buffer).wf(),
    ensures
        final(buffer).wf(),
        final(buffer).spec_wpos() == old(buffer).spec_wpos(),
        final(buffer).spec_data() == old(buffer).spec_data(),
        final(buffer).table() == old(buffer).table(),
        final(buffer).spec_rpos() >= old(buffer).spec_rpos(),
        match r {
            Ok(v) => dec_field(seq![TYPE_MAP] + old(buffer).live(), old(buffer).table())
                == DecOutcome::Val(
                v@,
                (1 + final(buffer).spec_rpos() - old(buffer).spec_rpos()) as nat,
            ),
            Err(e) => dec_field(seq![TYPE_MAP] + old(buffer).live(), old(buffer).table()) is Fail
                && e.spec_kind() == dec_field(
                seq![TYPE_MAP] + old(buffer).live(),
                old(buffer).table(),
            )->Fail_0,
        },
    decreases old(buffer).live().len(), 1int,
{
    let ghost pre = *old(buffer);
    let ghost tbl = pre.table();
    let ghost tagged = seq![TYPE_MAP] + pre.live();
    proof {
        assert(tagged[0] == TYPE_MAP);
        assert(tagged.skip(1) =~= pre.live());
        crate::varint::lemma_varint_dec_bounds(pre.live());
    }
    let lenv = decode_varint(buffer)?;
    let n16: u16 = match lenv {
        Value::Varint(x) => varint_to_u16(x),
        _ => unreached(),
    };
    let ghost c1 = (buffer.spec_rpos() - pre.spec_rpos()) as nat;
    let ghost body0 = buffer.live();
    proof {
        assert(1 <= c1 <= pre.live().len());
        assert(body0 =~= pre.live().skip(c1 as int));
    }
    let n = n16 as usize;
    let mut pairs: Vec<(Value, Value)> = Vec::new();
    let ghost mut cb: nat = 0;
    proof {
        assert(crate::values::pair_views_of(pairs@) =~= Seq::<(ValueView, ValueView)>::empty());
        assert(body0.skip(0) =~= body0);
        assert(tagged.skip(1) == pre.live());
        assert(match dec_pairs(body0, tbl, n as nat) {
            PairsOutcome::Pairs(ps, c2) => dec_field(tagged, tbl) == DecOutcome::Val(
                ValueView::Dict(ps),
                (1 + c1 + c2) as nat,
            ),
            PairsOutcome::PairsFail(k) => dec_field(tagged, tbl) == DecOutcome::Fail(k),
        });
    }
    let mut i: usize = 0;
    while i < n
        invariant
            pre == *old(buffer),
            pre.wf(),
            buffer.wf(),
            buffer.spec_wpos() == pre.spec_wpos(),
            buffer.spec_data() == pre.spec_data(),
            buffer.table() == tbl,
            tbl == pre.table(),
            tagged == seq![TYPE_MAP] + pre.live(),
            1 <= c1,
            body0.len() + c1 == pre.live().len(),
            i <= n,
            crate::values::pair_views_of(pairs@).len() == i,
            buffer.spec_rpos() == pre.spec_rpos() + c1 + cb,
            cb <= body0.len(),
            buffer.live() == body0.skip(cb as int),
            ({
                match dec_pairs(buffer.live(), tbl, (n - i) as nat) {
                    PairsOutcome::Pairs(ps, c2) => dec_pairs(body0, tbl, n as nat)
                        == PairsOutcome::Pairs(
                        crate::values::pair_views_of(pairs@) + ps,
                        (cb + c2) as nat,
                    ),
                    PairsOutcome::PairsFail(k) => dec_pairs(body0, tbl, n as nat)
                        == PairsOutcome::PairsFail(k),
                }
            }),
            ({
                match dec_pairs(body0, tbl, n as nat) {
                    PairsOutcome::Pairs(ps, c2) => dec_field(tagged, tbl) == DecOutcome::Val(
                        ValueView::Dict(ps),
                        (1 + c1 + c2) as nat,
                    ),
                    PairsOutcome::PairsFail(k) => dec_field(tagged, tbl) == DecOutcome::Fail(k),
                }
            }),
        decreases n - i,
    {
        let ghost live_a = buffer.live();
        let ghost pairs0 = pairs@;
        let key = match decode_field(buffer) {
            Ok(v) => v,
            Err(e) => {
                proof {
                    assert(dec_pairs(live_a, tbl, (n - i) as nat) is PairsFail);
                }
                return Err(e);
            },
        };
        let ghost ck = (buffer.spec_rpos() - pre.spec_rpos() - c1 - cb) as nat;
        let ghost live_b = buffer.live();
        proof {
            assert(dec_field(live_a, tbl) == DecOutcome::Val(key@, ck));
            lemma_dec_field_bounds(live_a, tbl);
            assert(1 <= ck <= live_a.len());
            assert(live_b =~= live_a.skip(ck as int));
        }
        let sub_value = match decode_field(buffer) {
            Ok(v) => v,
            Err(e) => {
                proof {
                    assert(dec_pairs(live_a, tbl, (n - i) as nat) is PairsFail);
                }
                return Err(e);
            },
        };
        let ghost cv = (buffer.spec_rpos() - pre.spec_rpos() - c1 - cb - ck) as nat;
        proof {
            assert(dec_field(live_b, tbl) == DecOutcome::Val(sub_value@, cv));
            lemma_dec_field_bounds(live_b, tbl);
            assert(1 <= cv <= live_b.len());
            assert(buffer.live() =~= live_b.skip(cv as int));
            cb = cb + ck + cv;
            assert(buffer.live() =~= body0.skip(cb as int));
        }
        pairs.push((key, sub_value));
        proof {
            assert(crate::values::pair_views_of(pairs@) =~= crate::values::pair_views_of(
                pairs0,
            ).push((key@, sub_value@)));
            assert forall|ps2: Seq<(ValueView, ValueView)>|
                crate::values::pair_views_of(pairs0) + (seq![(key@, sub_value@)] + ps2)
                    =~= crate::values::pair_views_of(pairs@) + ps2 by {}
        }
        i += 1;
    }
    proof {
        assert(dec_pairs(buffer.live(), tbl, 0) == PairsOutcome::Pairs(
            Seq::<(ValueView, ValueView)>::empty(),
            0,
        ));
        assert(crate::values::pair_views_of(pairs@) + Seq::<(ValueView, ValueView)>::empty()
            =~= crate::values::pair_views_of(pairs@));
        assert(dec_pairs(body0, tbl, n as nat) == PairsOutcome::Pairs(
            crate::values::pair_views_of(pairs@),
            cb,
        ));
        assert(value_view(Value::Dict(pairs)) == ValueView::Dict(
            crate::values::pair_views_of(pairs@),
        )) by {
            assert(ValueView::Dict(crate::values::pair_views_of(pairs@))->Dict_0 =~= value_view(
                Value::Dict(pairs),
            )->Dict_0);
        }
    }
    Ok(Value::Dict(pairs))
}

/// Dispatches on a tag byte already read, reading the payload it names.
fn decode_by_pattern(buffer: &mut Buffer, pattern: u8) -> (r: RpResult<Value>)
    requires
        old(buffer).wf(),
    ensures
        final(buffer).wf(),
        final(buffer).spec_wpos() == old(buffer).spec_wpos(),
        final(buffer).spec_data() == old(buffer).spec_data(),
        final(buffer).table() == old(buffer).table(),
        final(buffer).spec_rpos() >= old(buffer).spec_rpos(),
        match r {
            Ok(v) => dec_field(seq![pattern] + old(buffer).live(), old(buffer).table())
                == DecOutcome::Val(
                v@,
                (1 + final(buffer).spec_rpos() - old(buffer).spec_rpos()) as nat,
            ),
            Err(e) => dec_field(seq![pattern] + old(buffer).live(), old(buffer).table()) is Fail
                && e.spec_kind() == dec_field(
                seq![pattern] + old(buffer).live(),
                old(buffer).table(),
            )->Fail_0,
        },
    decreases old(buffer).live().len(), 2int,
{
    let ghost pre = *old(buffer);
    let ghost tagged = seq![pattern] + pre.live();
    proof {
        assert(tagged[0] == pattern);
        assert(tagged.skip(1) =~= pre.live());
    }
    if pattern == TYPE_BOOL {
        let r = decode_bool(buffer, pattern);
        r
    } else if pattern == TYPE_U8 || pattern == TYPE_I8 || pattern == TYPE_U16 || pattern
        == TYPE_I16 || pattern == TYPE_U32 || pattern == TYPE_I32 {
        let r = decode_number(buffer, pattern);
        proof {
            if pattern == TYPE_U16 || pattern == TYPE_I16 {
                assert(pre.live().take(2) =~= tagged.skip(1).take(2));
            }
            if pattern == TYPE_U32 || pattern == TYPE_I32 {
                assert(pre.live().take(4) =~= tagged.skip(1).take(4));
            }
        }
        r
    } else if pattern == TYPE_FLOAT {
        let v = match decode_varint(buffer) {
            Ok(v) => v,
            Err(e) => {
                proof {
                    assert(dec_field(tagged, pre.table()) is Fail);
                }
                return Err(e);
            },
        };
        match v {
            Value::Varint(x) => Ok(Value::Float(varint_to_i32(x))),
            _ => unreached(),
        }
    } else if pattern == TYPE_DOUBLE {
        let v = match decode_varint(buffer) {
            Ok(v) => v,
            Err(e) => {
                proof {
                    assert(dec_field(tagged, pre.table()) is Fail);
                }
                return Err(e);
            },
        };
        match v {
            Value::Varint(x) => Ok(Value::Double(x)),
            _ => unreached(),
        }
    } else if pattern == TYPE_VARINT {
        decode_varint(buffer)
    } else if pattern == TYPE_STR || pattern == TYPE_RAW {
        decode_str_raw(buffer, pattern)
    } else if pattern == TYPE_MAP {
        decode_map(buffer)
    } else if pattern == TYPE_ARR {
        decode_arr(buffer)
    } else if pattern == TYPE_STR_IDX {
        let v = match decode_varint(buffer) {
            Ok(v) => v,
            Err(e) => {
                proof {
                    assert(dec_field(tagged, pre.table()) is Fail);
                }
                return Err(e);
            },
        };
        match v {
            Value::Varint(x) => {
                let idx = varint_to_u16(x);
                match buffer.get_str(idx) {
                    Ok(s) => Ok(Value::Str(s)),
                    Err(e) => Err(e),
                }
            },
            _ => unreached(),
        }
    } else if pattern == TYPE_NIL {
        Ok(Value::Nil)
    } else {
        Err(RpError::with_description(ErrorKind::TypeNotMatchError, "must match type"))
    }
}

/// Reads one field: its tag byte, then the payload the tag selects.
pub fn decode_field(buffer: &mut Buffer) -> (r: RpResult<Value>)
    requires
        old(buffer).wf(),
    ensures
        final(buffer).wf(),
        final(buffer).spec_wpos() == old(buffer).spec_wpos(),
        final(buffer).spec_data() == old(buffer).spec_data(),
        final(buffer).table() == old(buffer).table(),
        final(buffer).spec_rpos() >= old(buffer).spec_rpos(),
        match r {
            Ok(v) => dec_field(old(buffer).live(), old(buffer).table()) == DecOutcome::Val(
                v@,
                (final(buffer).spec_rpos() - old(buffer).spec_rpos()) as nat,
            ),
            Err(e) => dec_field(old(buffer).live(), old(buffer).table()) is Fail && e.spec_kind()
                == dec_field(old(buffer).live(), old(buffer).table())->Fail_0,
        },
    decreases old(buffer).live().len(), 3int,
{
    let ghost pre = *old(buffer);
    let tagv = decode_type(buffer)?;
    let pattern: u8 = match tagv {
        Value::U8(t) => t,
        _ => unreached(),
    };
    proof {
        assert(seq![pattern] + buffer.live() =~= pre.live());
    }
    decode_by_pattern(buffer, pattern)
}

/// What reading the string table's wire entries yields: the table after
/// interning them in order, and the bytes consumed.
pub enum TblOutcome {
    Tbl(Seq<Seq<char>>, nat),
    TblFail(ErrorKind),
}

/// Reads `n` length-prefixed strings, interning each into the table.
pub open spec fn dec_tbl(bytes: Seq<u8>, tbl: Seq<Seq<char>>, n: nat) -> TblOutcome
    decreases n,
{
    if n == 0 {
        TblOutcome::Tbl(tbl, 0)
    } else {
        match dec_str_raw(bytes, TYPE_STR) {
            DecOutcome::Val(v, c) => {
                let tbl2 = spec_add_str(tbl, v->Str_0).0;
                let rest = if c <= bytes.len() {
                    bytes.skip(c as int)
                } else {
                    Seq::<u8>::empty()
                };
                match dec_tbl(rest, tbl2, (n - 1) as nat) {
                    TblOutcome::Tbl(t, c2) => TblOutcome::Tbl(t, (c + c2) as nat),
                    TblOutcome::TblFail(k) => TblOutcome::TblFail(k),
                }
            },
            DecOutcome::Fail(k) => TblOutcome::TblFail(k),
        }
    }
}

/// What reading a whole message yields: its name, its value list, the
/// table the wire carried, and the bytes consumed; or the error kind.
pub enum ProtoOutcome {
    Msg(Seq<char>, Seq<ValueView>, Seq<Seq<char>>, nat),
    ProtoFail(ErrorKind),
}

/// Reads a whole message: the length-prefixed name, a varint table size,
/// that many table entries, then the body, which must decode to an array.
pub open spec fn dec_proto(bytes: Seq<u8>, tbl0: Seq<Seq<char>>) -> ProtoOutcome {
    match dec_str_raw(bytes, TYPE_STR) {
        DecOutcome::Val(namev, c1) => {
            let rest1 = if c1 <= bytes.len() {
                bytes.skip(c1 as int)
            } else {
                Seq::<u8>::empty()
            };
            match dec_varint(rest1) {
                DecOutcome::Val(countv, c2) => {
                    let n = trunc_u16(countv->Varint_0 as int);
                    let rest2 = if c2 <= rest1.len() {
                        rest1.skip(c2 as int)
                    } else {
                        Seq::<u8>::empty()
                    };
                    match dec_tbl(rest2, tbl0, n) {
                        TblOutcome::Tbl(tbl, c3) => {
                            let rest3 = if c3 <= rest2.len() {
                                rest2.skip(c3 as int)
                            } else {
                                Seq::<u8>::empty()
                            };
                            match dec_field(rest3, tbl) {
                                DecOutcome::Val(v, c4) => if v is Arr {
                                    ProtoOutcome::Msg(
                                        namev->Str_0,
                                        v->Arr_0,
                                        tbl,
                                        (c1 + c2 + c3 + c4) as nat,
                                    )
                                } else {
                                    ProtoOutcome::ProtoFail(ErrorKind::ExtensionError)
                                },
                                DecOutcome::Fail(k) => ProtoOutcome::ProtoFail(k),
                            }
                        },
                        TblOutcome::TblFail(k) => ProtoOutcome::ProtoFail(k),
                    }
                },
                DecOutcome::Fail(k) => ProtoOutcome::ProtoFail(k),
            }
        },
        DecOutcome::Fail(k) => ProtoOutcome::ProtoFail(k),
    }
}

/// Reads a whole message: its name and its value list. The wire's string
/// table is interned into the buffer on the way; a body whose top-level
/// field is not an array is a framing-contract violation.
#[verifier::rlimit(100)]
#[verifier::spinoff_prover]
pub fn decode_proto(buffer: &mut Buffer) -> (r: RpResult<(String, Vec<Value>)>)
    requires
        old(buffer).wf(),
    ensures
        final(buffer).wf(),
        final(buffer).spec_wpos() == old(buffer).spec_wpos(),
        final(buffer).spec_data() == old(buffer).spec_data(),
        final(buffer).spec_rpos() >= old(buffer).spec_rpos(),
        match r {
            Ok(msg) => ({
                &&& dec_proto(old(buffer).live(), old(buffer).table()) matches ProtoOutcome::Msg(
                    nm,
                    vals,
                    tbl,
                    c,
                ) && msg.0@ == nm && crate::values::views_of(msg.1@) == vals
                    && final(buffer).table() == tbl
                    && final(buffer).spec_rpos() == old(buffer).spec_rpos() + c
            }),
            Err(e) => dec_proto(old(buffer).live(), old(buffer).table()) is ProtoFail
                && e.spec_kind() == dec_proto(
                old(buffer).live(),
                old(buffer).table(),
            )->ProtoFail_0,
        },
{
    let ghost pre = *old(buffer);
    let ghost tbl0 = pre.table();
    let namev = decode_str_raw(buffer, TYPE_STR)?;
    let name: String = match namev {
        Value::Str(s) => s,
        _ => unreached(),
    };
    let ghost c1 = (buffer.spec_rpos() - pre.spec_rpos()) as nat;
    let ghost rest1 = buffer.live();
    proof {
        assert(dec_str_raw(pre.live(), TYPE_STR) == DecOutcome::Val(ValueView::Str(name@), c1));
        assert(c1 <= pre.live().len());
        assert(rest1 =~= pre.live().skip(c1 as int));
    }
    let countv = match decode_varint(buffer) {
        Ok(v) => v,
        Err(e) => {
            return Err(e);
        },
    };
    let str_len: u16 = match countv {
        Value::Varint(x) => varint_to_u16(x),
        _ => unreached(),
    };
    let ghost c2 = (buffer.spec_rpos() - pre.spec_rpos() - c1) as nat;
    let ghost rest2 = buffer.live();
    proof {
        crate::varint::lemma_varint_dec_bounds(rest1);
        assert(c2 <= rest1.len());
        assert(rest2 =~= rest1.skip(c2 as int));
    }
    let n = str_len as usize;
    let ghost mut ct: nat = 0;
    let mut i: usize = 0;
    while i < n
        invariant
            pre == *old(buffer),
            pre.wf(),
            buffer.wf(),
            buffer.spec_wpos() == pre.spec_wpos(),
            buffer.spec_data() == pre.spec_data(),
            i <= n,
            tbl0 == pre.table(),
            dec_str_raw(pre.live(), TYPE_STR) == DecOutcome::Val(ValueView::Str(name@), c1),
            c1 <= pre.live().len(),
            rest1 == pre.live().skip(c1 as int),
            dec_varint(rest1) matches DecOutcome::Val(cv, cc) && cc == c2 && trunc_u16(
                cv->Varint_0 as int,
            ) == n as nat,
            c2 <= rest1.len(),
            rest2 == rest1.skip(c2 as int),
            buffer.spec_rpos() == pre.spec_rpos() + c1 + c2 + ct,
            ct <= rest2.len(),
            buffer.live() == rest2.skip(ct as int),
            ({
                match dec_tbl(buffer.live(), buffer.table(), (n - i) as nat) {
                    TblOutcome::Tbl(t, c3) => dec_tbl(rest2, tbl0, n as nat) == TblOutcome::Tbl(
                        t,
                        (ct + c3) as nat,
                    ),
                    TblOutcome::TblFail(k) => dec_tbl(rest2, tbl0, n as nat)
                        == TblOutcome::TblFail(k),
                }
            }),
        decreases n - i,
    {
        let ghost live_a = buffer.live();
        let ghost tbl_a = buffer.table();
        let entry = match decode_str_raw(buffer, TYPE_STR) {
            Ok(v) => v,
            Err(e) => {
                proof {
                    assert(dec_tbl(live_a, tbl_a, (n - i) as nat) is TblFail);
                }
                return Err(e);
            },
        };
        let s: String = match entry {
            Value::Str(s) => s,
            _ => unreached(),
        };
        let ghost ce = (buffer.spec_rpos() - pre.spec_rpos() - c1 - c2 - ct) as nat;
        proof {
            assert(dec_str_raw(live_a, TYPE_STR) == DecOutcome::Val(ValueView::Str(s@), ce));
            assert(ce <= live_a.len());
            assert(buffer.live() =~= live_a.skip(ce as int));
            ct = ct + ce;
            assert(buffer.live() =~= rest2.skip(ct as int));
        }
        let _ = buffer.add_str(s);
        i += 1;
    }
    let ghost tblf = buffer.table();
    let ghost c3 = ct;
    let ghost rest3 = buffer.live();
    proof {
        assert(dec_tbl(buffer.live(), buffer.table(), 0) == TblOutcome::Tbl(tblf, 0));
        assert(dec_tbl(rest2, tbl0, n as nat) == TblOutcome::Tbl(tblf, c3));
    }
    let sub_value = match decode_field(buffer) {
        Ok(v) => v,
        Err(e) => {
            return Err(e);
        },
    };
    match sub_value {
        Value::Arr(val) => {
            proof {
                assert(value_view(Value::Arr(val)) == ValueView::Arr(
                    crate::values::views_of(val@),
                )) by {
                    assert(value_view(Value::Arr(val))->Arr_0 =~= crate::values::views_of(val@));
                }
            }
            Ok((name, val))
        },
        _ => {
            proof {
                assert(!(sub_value@ is Arr));
            }
            Err(crate::values::make_extension_error("proto is not array", None))
        },
    }
}
} // verus!
