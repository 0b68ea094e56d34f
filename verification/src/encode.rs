//! The encoder: serializes a `Value` tree into a `Buffer`, one tag byte
//! before each payload. All integer widths share the varint path on the
//! wire; strings are interned into the buffer's table and written as a
//! back-reference; arrays and maps recurse.

use vstd::prelude::*;

use crate::buffer::{spec_add_str, Buffer};
use crate::values::{
    spec_type_of, Value, ValueView, TYPE_ARR, TYPE_BOOL, TYPE_DOUBLE, TYPE_FLOAT, TYPE_I8,
    TYPE_MAP, TYPE_NIL, TYPE_RAW, TYPE_STR_IDX, TYPE_U8, TYPE_VARINT,
};
use crate::values::RpResult;
use crate::varint::{varint_enc, zigzag};
use vstd::utf8::encode_utf8;

verus! {

/// The wire byte of an `i8` payload: its two's-complement image.
pub open spec fn wire_byte_of_i8(x: i8) -> u8 {
    if x >= 0 {
        x as u8
    } else {
        (x + 256) as u8
    }
}

/// True of the variants whose payload the varint path can carry.
pub open spec fn is_varint_value(v: ValueView) -> bool {
    match v {
        ValueView::U8(_) => true,
        ValueView::I8(_) => true,
        ValueView::U16(_) => true,
        ValueView::I16(_) => true,
        ValueView::U32(_) => true,
        ValueView::I32(_) => true,
        ValueView::U64(_) => true,
        ValueView::I64(_) => true,
        ValueView::Varint(_) => true,
        ValueView::Float(_) => true,
        ValueView::Double(_) => true,
        _ => false,
    }
}

/// The signed integer that the varint path transmits for a numeric value.
/// A `u64` beyond the signed range wraps, as a plain cast would.
pub open spec fn varint_payload(v: ValueView) -> int {
    match v {
        ValueView::U8(x) => x as int,
        ValueView::I8(x) => x as int,
        ValueView::U16(x) => x as int,
        ValueView::I16(x) => x as int,
        ValueView::U32(x) => x as int,
        ValueView::I32(x) => x as int,
        ValueView::U64(x) => if x <= 0x7fff_ffff_ffff_ffff {
            x as int
        } else {
            x - 0x1_0000_0000_0000_0000
        },
        ValueView::I64(x) => x as int,
        ValueView::Varint(x) => x as int,
        ValueView::Float(m) => m as int,
        ValueView::Double(d) => d as int,
        _ => 0,
    }
}

/// A length as the wire carries it: reduced to sixteen bits.
pub open spec fn len16(n: nat) -> int {
    (n % 65536) as int
}

/// Length-prefixed bytes: a varint of the sixteen-bit length, then the
/// bytes themselves.
pub open spec fn enc_lp_bytes(b: Seq<u8>) -> Seq<u8> {
    varint_enc(zigzag(len16(b.len()))) + b
}

/// What encoding one value appends to the wire, and what it does to the
/// string table.
pub open spec fn enc_one(v: ValueView, tbl: Seq<Seq<char>>) -> (Seq<u8>, Seq<Seq<char>>)
    decreases v, 0int, 0int,
    via enc_one_decreases
{
    match v {
        ValueView::Nil => (seq![TYPE_NIL], tbl),
        ValueView::Bool(b) => (
            seq![TYPE_BOOL, if b {
                    1 as u8
                } else {
                    0 as u8
                }],
            tbl,
        ),
        ValueView::U8(x) => (seq![TYPE_U8, x], tbl),
        ValueView::I8(x) => (seq![TYPE_I8, wire_byte_of_i8(x)], tbl),
        ValueView::Float(m) => (seq![TYPE_FLOAT] + varint_enc(zigzag(m as int)), tbl),
        ValueView::Double(d) => (seq![TYPE_DOUBLE] + varint_enc(zigzag(d as int)), tbl),
        ValueView::Str(s) => (
            seq![TYPE_STR_IDX] + varint_enc(zigzag(spec_add_str(tbl, s).1)),
            spec_add_str(tbl, s).0,
        ),
        ValueView::Raw(b) => (seq![TYPE_RAW] + enc_lp_bytes(b), tbl),
        ValueView::Arr(elems) => (
            seq![TYPE_ARR] + varint_enc(zigzag(len16(elems.len()))) + enc_list(elems, 0, tbl).0,
            enc_list(elems, 0, tbl).1,
        ),
        ValueView::Dict(pairs) => (
            seq![TYPE_MAP] + varint_enc(zigzag(len16(pairs.len()))) + enc_pairs(pairs, 0, tbl).0,
            enc_pairs(pairs, 0, tbl).1,
        ),
        _ => (seq![TYPE_VARINT] + varint_enc(zigzag(varint_payload(v))), tbl),
    }
}

#[via_fn]
proof fn enc_one_decreases(v: ValueView, tbl: Seq<Seq<char>>) {
    match v {
        ValueView::Arr(elems) => {
            assert(decreases_to!(v => elems));
        },
        ValueView::Dict(pairs) => {
            assert(decreases_to!(v => pairs));
        },
        _ => {},
    }
}

/// What encoding the elements of `vs` from index `i` on appends to the
/// wire, threading the string table left to right.
pub open spec fn enc_list(vs: Seq<ValueView>, i: int, tbl: Seq<Seq<char>>) -> (
    Seq<u8>,
    Seq<Seq<char>>,
)
    decreases vs, vs.len() - i + 1, 0int,
    via enc_list_decreases
{
    if 0 <= i < vs.len() {
        let (b1, t1) = enc_one(vs[i], tbl);
        let (b2, t2) = enc_list(vs, i + 1, t1);
        (b1 + b2, t2)
    } else {
        (Seq::<u8>::empty(), tbl)
    }
}

#[via_fn]
proof fn enc_list_decreases(vs: Seq<ValueView>, i: int, tbl: Seq<Seq<char>>) {
    if 0 <= i < vs.len() {
        assert(decreases_to!(vs => vs[i]));
    }
}

/// What encoding the key/value pairs of a map from index `i` on appends
/// to the wire: each key, then its value.
pub open spec fn enc_pairs(ps: Seq<(ValueView, ValueView)>, i: int, tbl: Seq<Seq<char>>) -> (
    Seq<u8>,
    Seq<Seq<char>>,
)
    decreases ps, ps.len() - i + 1, 1int,
    via enc_pairs_decreases
{
    if 0 <= i < ps.len() {
        let (bk, tk) = enc_one(ps[i].0, tbl);
        let (bv, tv) = enc_one(ps[i].1, tk);
        let (b2, t2) = enc_pairs(ps, i + 1, tv);
        (bk + bv + b2, t2)
    } else {
        (Seq::<u8>::empty(), tbl)
    }
}

#[via_fn]
proof fn enc_pairs_decreases(ps: Seq<(ValueView, ValueView)>, i: int, tbl: Seq<Seq<char>>) {
    if 0 <= i < ps.len() {
        assert(decreases_to!(ps => ps[i]));
        assert(decreases_to!(ps[i] => ps[i].0));
        assert(decreases_to!(ps[i] => ps[i].1));
        assert(decreases_to!(ps, ps.len() - i + 1, 1int => ps[i].0, 0int, 0int));
        assert(decreases_to!(ps, ps.len() - i + 1, 1int => ps[i].1, 0int, 0int));
    }
}

/// True of values the wire can carry exactly: every string, byte payload,
/// array and map fits the sixteen-bit length the wire writes.
pub open spec fn encodable(v: ValueView) -> bool
    decreases v, 0int,
    via encodable_decreases
{
    match v {
        ValueView::Str(s) => encode_utf8(s).len() <= 65535,
        ValueView::Raw(b) => b.len() <= 65535,
        ValueView::Arr(elems) => elems.len() <= 65535 && (forall|i: int|
            if 0 <= i < elems.len() {
                encodable(elems[i])
            } else {
                true
            }),
        ValueView::Dict(pairs) => pairs.len() <= 65535 && (forall|i: int|
            if 0 <= i < pairs.len() {
                encodable(pairs[i].0) && encodable(pairs[i].1)
            } else {
                true
            }),
        _ => true,
    }
}

/// True of the variants that carry a fixed-width numeric payload.
pub open spec fn is_number_value(v: ValueView) -> bool {
    match v {
        ValueView::U8(_) => true,
        ValueView::I8(_) => true,
        ValueView::U16(_) => true,
        ValueView::I16(_) => true,
        ValueView::U32(_) => true,
        ValueView::I32(_) => true,
        ValueView::U64(_) => true,
        ValueView::I64(_) => true,
        ValueView::Float(_) => true,
        ValueView::Double(_) => true,
        _ => false,
    }
}

/// The little-endian bytes of `x`, `k` bytes wide.
pub open spec fn le_bytes(x: nat, k: nat) -> Seq<u8>
    decreases k,
{
    if k == 0 {
        Seq::<u8>::empty()
    } else {
        seq![(x % 256) as u8] + le_bytes(x / 256, (k - 1) as nat)
    }
}

/// The two's-complement image of an `i16`.
pub open spec fn wrap16(x: i16) -> nat {
    if x >= 0 {
        x as nat
    } else {
        (x + 0x1_0000) as nat
    }
}

/// The two's-complement image of an `i32`.
pub open spec fn wrap32(x: i32) -> nat {
    if x >= 0 {
        x as nat
    } else {
        (x + 0x1_0000_0000) as nat
    }
}

/// The two's-complement image of an `i64`.
pub open spec fn wrap64(x: i64) -> nat {
    if x >= 0 {
        x as nat
    } else {
        (x + 0x1_0000_0000_0000_0000) as nat
    }
}

/// The fixed-width little-endian payload of a numeric value, as the
/// pre-wire representation kept it: one byte for the eight-bit widths, two,
/// four or eight bytes for the wider ones, floats at their fixed-point
/// integer scale.
pub open spec fn fixed_bytes(v: ValueView) -> Seq<u8> {
    match v {
        ValueView::U8(x) => seq![x],
        ValueView::I8(x) => seq![wire_byte_of_i8(x)],
        ValueView::U16(x) => le_bytes(x as nat, 2),
        ValueView::I16(x) => le_bytes(wrap16(x), 2),
        ValueView::U32(x) => le_bytes(x as nat, 4),
        ValueView::I32(x) => le_bytes(wrap32(x), 4),
        ValueView::U64(x) => le_bytes(x as nat, 8),
        ValueView::I64(x) => le_bytes(wrap64(x), 8),
        ValueView::Float(m) => le_bytes(wrap32(m), 4),
        ValueView::Double(d) => le_bytes(wrap64(d), 8),
        _ => Seq::<u8>::empty(),
    }
}

#[via_fn]
proof fn encodable_decreases(v: ValueView) {
    match v {
        ValueView::Arr(elems) => {
            assert forall|i: int| 0 <= i < elems.len() implies (decreases_to!(
                v, 0int => #[trigger] elems[i], 0int
            )) by {
                assert(decreases_to!(v => elems));
                assert(decreases_to!(elems => elems[i]));
            }
        },
        ValueView::Dict(pairs) => {
            assert forall|i: int| 0 <= i < pairs.len() implies (decreases_to!(
                v, 0int => (#[trigger] pairs[i]).0, 0int
            )) && (decreases_to!(v, 0int => pairs[i].1, 0int)) by {
                assert(decreases_to!(v => pairs));
                assert(decreases_to!(pairs => pairs[i]));
                assert(decreases_to!(pairs[i] => pairs[i].0));
                assert(decreases_to!(pairs[i] => pairs[i].1));
            }
        },
        _ => {},
    }
}


/// The little-endian bytes of `x`, `k` bytes wide, as a vector.
fn le_vec(x: u64, k: usize) -> (r: Vec<u8>)
    ensures
        r@ == le_bytes(x as nat, k as nat),
        r@.len() == k,
{
    let mut out: Vec<u8> = Vec::new();
    let mut cur = x;
    let mut i: usize = 0;
    while i < k
        invariant
            i <= k,
            out@.len() == i,
            out@ + le_bytes(cur as nat, (k - i) as nat) == le_bytes(x as nat, k as nat),
        decreases k - i,
    {
        let ghost c0 = cur as nat;
        out.push((cur % 256) as u8);
        cur = cur / 256;
        proof {
            assert(le_bytes(c0, (k - i) as nat) == seq![(c0 % 256) as u8] + le_bytes(
                c0 / 256,
                (k - i - 1) as nat,
            ));
            assert(out@ + le_bytes(cur as nat, (k - i - 1) as nat) =~= le_bytes(
                x as nat,
                k as nat,
            ));
        }
        i += 1;
    }
    proof {
        assert(le_bytes(cur as nat, 0) =~= Seq::<u8>::empty());
        assert(out@ =~= out@ + le_bytes(cur as nat, 0));
        lemma_le_bytes_len(x as nat, k as nat);
    }
    out
}

/// `le_bytes` is as wide as asked.
pub proof fn lemma_le_bytes_len(x: nat, k: nat)
    ensures
        le_bytes(x, k).len() == k,
    decreases k,
{
    if k > 0 {
        lemma_le_bytes_len(x / 256, (k - 1) as nat);
    }
}

/// Writes the one-byte type tag given.
pub fn encode_sure_type(buffer: &mut Buffer, value: u8) -> (r: RpResult<()>)
    requires
        old(buffer).wf(),
        old(buffer).spec_wpos() + 1 <= usize::MAX / 2,
    ensures
        r is Ok,
        final(buffer).wf(),
        final(buffer).spec_rpos() == old(buffer).spec_rpos(),
        final(buffer).spec_wpos() == old(buffer).spec_wpos() + 1,
        final(buffer).table() == old(buffer).table(),
        final(buffer).live() == old(buffer).live().push(value),
{
    buffer.write_byte(value);
    Ok(())
}

/// Writes the type tag of the given value.
pub fn encode_type(buffer: &mut Buffer, value: &Value) -> (r: RpResult<()>)
    requires
        old(buffer).wf(),
        old(buffer).spec_wpos() + 1 <= usize::MAX / 2,
    ensures
        r is Ok,
        final(buffer).wf(),
        final(buffer).spec_rpos() == old(buffer).spec_rpos(),
        final(buffer).spec_wpos() == old(buffer).spec_wpos() + 1,
        final(buffer).table() == old(buffer).table(),
        final(buffer).live() == old(buffer).live().push(spec_type_of(value@)),
{
    let t = crate::values::get_type_by_value(value);
    buffer.write_byte(t);
    Ok(())
}

/// Writes the single payload byte of a boolean: one for true, zero for
/// false.
pub fn encode_bool(buffer: &mut Buffer, value: &Value) -> (r: RpResult<()>)
    requires
        old(buffer).wf(),
        old(buffer).spec_wpos() + 1 <= usize::MAX / 2,
        value@ is Bool,
    ensures
        r is Ok,
        final(buffer).wf(),
        final(buffer).spec_rpos() == old(buffer).spec_rpos(),
        final(buffer).table() == old(buffer).table(),
        final(buffer).live() == old(buffer).live().push(
            if value@->Bool_0 {
                1 as u8
            } else {
                0 as u8
            },
        ),
        final(buffer).spec_wpos() == old(buffer).spec_wpos() + 1,
{
    match value {
        Value::Bool(val) => {
            buffer.write_byte(if *val {
                1
            } else {
                0
            });
        },
        _ => {
            proof {
                assert(false);
            }
        },
    }
    Ok(())
}

/// Writes the fixed-width little-endian payload of a numeric value, the
/// pre-wire representation of the sized integer widths.
pub fn encode_number(buffer: &mut Buffer, value: &Value) -> (r: RpResult<()>)
    requires
        old(buffer).wf(),
        old(buffer).spec_wpos() + 8 <= usize::MAX / 2,
        is_number_value(value@),
    ensures
        r is Ok,
        final(buffer).wf(),
        final(buffer).spec_rpos() == old(buffer).spec_rpos(),
        final(buffer).table() == old(buffer).table(),
        final(buffer).live() == old(buffer).live() + fixed_bytes(value@),
        final(buffer).spec_wpos() == old(buffer).spec_wpos() + fixed_bytes(value@).len(),
{
    let ghost pre = *old(buffer);
    let bytes: Vec<u8> = match value {
        Value::U8(x) => le_vec(*x as u64, 1),
        Value::I8(x) => {
            let w: u64 = if *x >= 0 {
                *x as u64
            } else {
                (*x as i64 + 256) as u64
            };
            le_vec(w, 1)
        },
        Value::U16(x) => le_vec(*x as u64, 2),
        Value::I16(x) => {
            let w: u64 = if *x >= 0 {
                *x as u64
            } else {
                (*x as i64 + 0x1_0000) as u64
            };
            le_vec(w, 2)
        },
        Value::U32(x) => le_vec(*x as u64, 4),
        Value::I32(x) => {
            let w: u64 = if *x >= 0 {
                *x as u64
            } else {
                (*x as i64 + 0x1_0000_0000) as u64
            };
            le_vec(w, 4)
        },
        Value::U64(x) => le_vec(*x, 8),
        Value::I64(x) => {
            let w: u64 = if *x >= 0 {
                *x as u64
            } else {
                ((*x + 1 + 0x7fff_ffff_ffff_ffff) as u64) + 0x8000_0000_0000_0000
            };
            le_vec(w, 8)
        },
        Value::Float(m) => {
            let w: u64 = if *m >= 0 {
                *m as u64
            } else {
                (*m as i64 + 0x1_0000_0000) as u64
            };
            le_vec(w, 4)
        },
        Value::Double(d) => {
            let w: u64 = if *d >= 0 {
                *d as u64
            } else {
                ((*d + 1 + 0x7fff_ffff_ffff_ffff) as u64) + 0x8000_0000_0000_0000
            };
            le_vec(w, 8)
        },
        _ => unreached(),
    };
    proof {
        if value@ is U8 {
            assert(bytes@ =~= fixed_bytes(value@));
        }
        if value@ is I8 {
            assert(bytes@ =~= fixed_bytes(value@));
        }
        assert(bytes@ == fixed_bytes(value@));
        assert(bytes@.len() <= 8);
    }
    let res = buffer.write(bytes.as_slice());
    proof {
        assert(final(buffer).live() == pre.live() + fixed_bytes(value@));
    }
    match res {
        Ok(_) => Ok(()),
        Err(e) => Err(e),
    }
}

/// Writes the zig-zag varint payload of a numeric value. Every sized
/// integer width funnels through here on the wire.
pub fn encode_varint(buffer: &mut Buffer, value: &Value) -> (r: RpResult<()>)
    requires
        old(buffer).wf(),
        is_varint_value(value@),
        old(buffer).spec_wpos() + 10 <= usize::MAX / 2,
    ensures
        r is Ok,
        final(buffer).wf(),
        final(buffer).spec_rpos() == old(buffer).spec_rpos(),
        final(buffer).table() == old(buffer).table(),
        final(buffer).live() == old(buffer).live() + varint_enc(
            zigzag(varint_payload(value@)),
        ),
        final(buffer).spec_wpos() == old(buffer).spec_wpos() + varint_enc(
            zigzag(varint_payload(value@)),
        ).len(),
{
    let ghost pre = *old(buffer);
    let val: i64 = match value {
        Value::U8(v) => *v as i64,
        Value::I8(v) => *v as i64,
        Value::U16(v) => *v as i64,
        Value::I16(v) => *v as i64,
        Value::U32(v) => *v as i64,
        Value::I32(v) => *v as i64,
        Value::U64(v) => {
            if *v <= 0x7fff_ffff_ffff_ffff {
                *v as i64
            } else {
                -((0xffff_ffff_ffff_ffff - *v) as i64) - 1
            }
        },
        Value::I64(v) => *v,
        Value::Varint(v) => *v,
        Value::Float(m) => *m as i64,
        Value::Double(d) => *d,
        _ => unreached(),
    };
    proof {
        assert(val as int == varint_payload(value@));
    }
    let mut folded: u64 = if val < 0 {
        ((-(val + 1)) as u64) * 2 + 1
    } else {
        (val as u64) * 2
    };
    proof {
        assert(folded as nat == zigzag(val as int));
        crate::varint::lemma_zigzag_roundtrip(val as int);
        crate::varint::lemma_varint_enc_len(folded as nat);
    }
    let ghost total = varint_enc(zigzag(varint_payload(value@)));
    let ghost mut emitted: Seq<u8> = Seq::<u8>::empty();
    while folded >= 128
        invariant
            buffer.wf(),
            buffer.spec_rpos() == pre.spec_rpos(),
            buffer.table() == pre.table(),
            buffer.live() == pre.live() + emitted,
            buffer.spec_wpos() == pre.spec_wpos() + emitted.len(),
            pre.spec_wpos() + 10 <= usize::MAX / 2,
            emitted + varint_enc(folded as nat) == total,
            emitted.len() + varint_enc(folded as nat).len() <= 10,
        decreases folded,
    {
        let ghost r0 = folded as nat;
        let data = (folded % 128) as u8 + 128;
        buffer.write_byte(data);
        folded = folded / 128;
        proof {
            crate::varint::lemma_varint_enc_len(folded as nat);
            emitted = emitted.push(data);
            assert(varint_enc(r0) == seq![((r0 % 128) + 128) as u8] + varint_enc(r0 / 128));
            assert(emitted + varint_enc(folded as nat) =~= total);
            assert(buffer.live() =~= pre.live() + emitted);
        }
    }
    let ghost r0 = folded as nat;
    buffer.write_byte(folded as u8);
    proof {
        emitted = emitted.push(folded as u8);
        assert(varint_enc(r0) =~= seq![r0 as u8]);
        assert(emitted =~= total);
        assert(buffer.live() =~= pre.live() + total);
    }
    Ok(())
}

/// Interns the string into the buffer's table and writes a string-index
/// reference: the back-reference tag, then the varint of the slot index.
pub fn encode_str_idx(buffer: &mut Buffer, pattern: &str) -> (r: RpResult<()>)
    requires
        old(buffer).wf(),
        spec_add_str(old(buffer).table(), pattern@).0.len() <= 65536,
        old(buffer).spec_wpos() + 11 <= usize::MAX / 2,
    ensures
        r is Ok,
        final(buffer).wf(),
        final(buffer).spec_rpos() == old(buffer).spec_rpos(),
        final(buffer).table() == spec_add_str(old(buffer).table(), pattern@).0,
        final(buffer).live() == old(buffer).live() + seq![TYPE_STR_IDX] + varint_enc(
            zigzag(spec_add_str(old(buffer).table(), pattern@).1),
        ),
        final(buffer).spec_wpos() == old(buffer).spec_wpos() + 1 + varint_enc(
            zigzag(spec_add_str(old(buffer).table(), pattern@).1),
        ).len(),
{
    let ghost pre = *old(buffer);
    let idx = buffer.add_str(pattern.to_owned());
    encode_sure_type(buffer, TYPE_STR_IDX)?;
    let res = encode_varint(buffer, &Value::U16(idx));
    proof {
        assert(idx as int == spec_add_str(pre.table(), pattern@).1) by {
            if crate::buffer::tbl_contains(pre.table(), pattern@) {
                crate::buffer::lemma_tbl_index_of(pre.table(), pattern@);
            }
            assert(0 <= spec_add_str(pre.table(), pattern@).1 < 65536);
        }
        assert(final(buffer).live() =~= pre.live() + seq![TYPE_STR_IDX] + varint_enc(
            zigzag(spec_add_str(pre.table(), pattern@).1),
        ));
    }
    res
}

/// The raw bytes that a string or byte-sequence value writes inline.
pub open spec fn lp_payload(v: ValueView) -> Seq<u8> {
    match v {
        ValueView::Str(s) => encode_utf8(s),
        ValueView::Raw(b) => b,
        _ => Seq::<u8>::empty(),
    }
}

/// Writes a string or byte-sequence payload inline: a varint of its
/// sixteen-bit length, then the bytes, with no tag and no padding.
pub fn encode_str_raw(buffer: &mut Buffer, value: &Value) -> (r: RpResult<()>)
    requires
        old(buffer).wf(),
        value@ is Str || value@ is Raw,
        old(buffer).spec_wpos() + 10 + lp_payload(value@).len() <= usize::MAX / 2,
    ensures
        r is Ok,
        final(buffer).wf(),
        final(buffer).spec_rpos() == old(buffer).spec_rpos(),
        final(buffer).table() == old(buffer).table(),
        final(buffer).live() == old(buffer).live() + enc_lp_bytes(lp_payload(value@)),
        final(buffer).spec_wpos() == old(buffer).spec_wpos() + enc_lp_bytes(
            lp_payload(value@),
        ).len(),
{
    let ghost pre = *old(buffer);
    let bytes: Vec<u8> = match value {
        Value::Str(s) => s.as_str().as_bytes_vec(),
        Value::Raw(b) => {
            let mut copy: Vec<u8> = Vec::new();
            let mut i: usize = 0;
            while i < b.len()
                invariant
                    i <= b@.len(),
                    copy@ == b@.subrange(0, i as int),
                decreases b@.len() - i,
            {
                copy.push(b[i]);
                proof {
                    assert(copy@ =~= b@.subrange(0, i + 1));
                }
                i += 1;
            }
            proof {
                assert(copy@ =~= b@);
            }
            copy
        },
        _ => unreached(),
    };
    proof {
        assert(bytes@ == lp_payload(value@));
    }
    let len16v: u16 = (bytes.len() % 65536) as u16;
    encode_varint(buffer, &Value::U16(len16v))?;
    proof {
        crate::varint::lemma_varint_enc_len(zigzag(len16v as int));
    }
    let res = buffer.write(bytes.as_slice());
    proof {
        assert(len16v as int == len16(lp_payload(value@).len()));
        assert(final(buffer).live() =~= pre.live() + enc_lp_bytes(lp_payload(value@)));
    }
    match res {
        Ok(_) => Ok(()),
        Err(e) => Err(e),
    }
}


/// `t2` begins with `t1`: encoding only ever appends to the table.
pub open spec fn tbl_extends(t2: Seq<Seq<char>>, t1: Seq<Seq<char>>) -> bool {
    t1.len() <= t2.len() && t2.take(t1.len() as int) == t1
}

/// Extension is transitive.
pub proof fn lemma_tbl_extends_trans(t3: Seq<Seq<char>>, t2: Seq<Seq<char>>, t1: Seq<Seq<char>>)
    requires
        tbl_extends(t3, t2),
        tbl_extends(t2, t1),
    ensures
        tbl_extends(t3, t1),
{
    assert forall|j: int| 0 <= j < t1.len() implies t3[j] == t1[j] by {
        assert(t2.take(t1.len() as int)[j] == t2[j]);
        assert(t3.take(t2.len() as int)[j] == t3[j]);
    }
    assert(t3.take(t1.len() as int) =~= t1);
}

/// Interning extends the table.
pub proof fn lemma_add_str_extends(tbl: Seq<Seq<char>>, s: Seq<char>)
    ensures
        tbl_extends(spec_add_str(tbl, s).0, tbl),
{
    let t2 = spec_add_str(tbl, s).0;
    assert(t2.take(tbl.len() as int) =~= tbl);
}

/// Encoding one value only appends to the table.
pub proof fn lemma_enc_one_tbl(v: ValueView, tbl: Seq<Seq<char>>)
    ensures
        tbl_extends(enc_one(v, tbl).1, tbl),
    decreases v, 0int, 0int,
{
    match v {
        ValueView::Str(s) => {
            lemma_add_str_extends(tbl, s);
        },
        ValueView::Arr(elems) => {
            assert(decreases_to!(v => elems));
            lemma_enc_list_tbl(elems, 0, tbl);
        },
        ValueView::Dict(pairs) => {
            assert(decreases_to!(v => pairs));
            lemma_enc_pairs_tbl(pairs, 0, tbl);
        },
        _ => {
            assert(enc_one(v, tbl).1.take(tbl.len() as int) =~= tbl);
        },
    }
}

/// Encoding a run of values only appends to the table.
pub proof fn lemma_enc_list_tbl(vs: Seq<ValueView>, i: int, tbl: Seq<Seq<char>>)
    ensures
        tbl_extends(enc_list(vs, i, tbl).1, tbl),
    decreases vs, vs.len() - i + 1, 0int,
{
    if 0 <= i < vs.len() {
        assert(decreases_to!(vs => vs[i]));
        let t1 = enc_one(vs[i], tbl).1;
        lemma_enc_one_tbl(vs[i], tbl);
        lemma_enc_list_tbl(vs, i + 1, t1);
        lemma_tbl_extends_trans(enc_list(vs, i + 1, t1).1, t1, tbl);
    } else {
        assert(enc_list(vs, i, tbl).1.take(tbl.len() as int) =~= tbl);
    }
}

/// Encoding a run of key/value pairs only appends to the table.
pub proof fn lemma_enc_pairs_tbl(ps: Seq<(ValueView, ValueView)>, i: int, tbl: Seq<Seq<char>>)
    ensures
        tbl_extends(enc_pairs(ps, i, tbl).1, tbl),
    decreases ps, ps.len() - i + 1, 1int,
{
    if 0 <= i < ps.len() {
        assert(decreases_to!(ps => ps[i]));
        assert(decreases_to!(ps[i] => ps[i].0));
        assert(decreases_to!(ps[i] => ps[i].1));
        assert(decreases_to!(ps, ps.len() - i + 1, 1int => ps[i].0, 0int, 0int));
        assert(decreases_to!(ps, ps.len() - i + 1, 1int => ps[i].1, 0int, 0int));
        let tk = enc_one(ps[i].0, tbl).1;
        let tv = enc_one(ps[i].1, tk).1;
        lemma_enc_one_tbl(ps[i].0, tbl);
        lemma_enc_one_tbl(ps[i].1, tk);
        lemma_enc_pairs_tbl(ps, i + 1, tv);
        lemma_tbl_extends_trans(tv, tk, tbl);
        lemma_tbl_extends_trans(enc_pairs(ps, i + 1, tv).1, tv, tbl);
    } else {
        assert(enc_pairs(ps, i, tbl).1.take(tbl.len() as int) =~= tbl);
    }
}

/// Writes a map payload: a varint of the entry count, then each key and
/// its value encoded recursively, in order. The tag byte is the caller's.
#[verifier::rlimit(80)]
pub fn encode_map(buffer: &mut Buffer, value: &Value) -> (r: RpResult<()>)
    requires
        old(buffer).wf(),
        value@ is Dict,
        encodable(value@),
        enc_pairs(value@->Dict_0, 0, old(buffer).table()).1.len() <= 65536,
        old(buffer).spec_wpos() + varint_enc(zigzag(len16(value@->Dict_0.len()))).len()
            + enc_pairs(value@->Dict_0, 0, old(buffer).table()).0.len() + 16 <= usize::MAX / 2,
    ensures
        r is Ok,
        final(buffer).wf(),
        final(buffer).spec_rpos() == old(buffer).spec_rpos(),
        final(buffer).table() == enc_pairs(value@->Dict_0, 0, old(buffer).table()).1,
        final(buffer).live() == old(buffer).live() + varint_enc(
            zigzag(len16(value@->Dict_0.len())),
        ) + enc_pairs(value@->Dict_0, 0, old(buffer).table()).0,
    decreases *value, 0int,
{
    let ghost pre = *old(buffer);
    match value {
        Value::Dict(val) => {
            let ghost ps = value@->Dict_0;
            let ghost tbl0 = pre.table();
            let count: u16 = (val.len() % 65536) as u16;
            proof {
                assert(ps.len() == val@.len());
                assert(count as int == len16(ps.len()));
            }
            encode_varint(buffer, &Value::U16(count))?;
            proof {
                crate::varint::lemma_varint_enc_len(zigzag(count as int));
            }
            let ghost header = varint_enc(zigzag(len16(ps.len())));
            let n = val.len();
            let mut i: usize = 0;
            while i < n
                invariant
                    buffer.wf(),
                    n == val@.len(),
                    n == ps.len(),
                    i <= n,
                    *value == Value::Dict(*val),
                    value@ is Dict,
                    value@->Dict_0 == ps,
                    val@.len() == ps.len(),
                    forall|j: int|
                        0 <= j < ps.len() ==> ps[j] == (#[trigger] val@[j].0@, val@[j].1@),
                    encodable(value@),
                    buffer.spec_rpos() == pre.spec_rpos(),
                    buffer.live() + enc_pairs(ps, i as int, buffer.table()).0 == pre.live()
                        + header + enc_pairs(ps, 0, tbl0).0,
                    enc_pairs(ps, i as int, buffer.table()).1 == enc_pairs(ps, 0, tbl0).1,
                    enc_pairs(ps, 0, tbl0).1.len() <= 65536,
                    buffer.spec_wpos() + enc_pairs(ps, i as int, buffer.table()).0.len() + 16
                        <= usize::MAX / 2,
                decreases n - i,
            {
                let ghost t_i = buffer.table();
                let ghost bufpre = *buffer;
                proof {
                    assert(decreases_to!(*value => *val));
                    assert(decreases_to!(*val => val@));
                    assert(decreases_to!(val@ => val@[i as int]));
                    assert(decreases_to!(val@[i as int] => val@[i as int].0));
                    assert(decreases_to!(val@[i as int] => val@[i as int].1));
                    assert(ps[i as int] == (val@[i as int].0@, val@[i as int].1@));
                    assert(encodable(ps[i as int].0) && encodable(ps[i as int].1)) by {
                        assert(encodable(value@));
                    }
                    let tk = enc_one(ps[i as int].0, t_i).1;
                    let tv = enc_one(ps[i as int].1, tk).1;
                    lemma_enc_one_tbl(ps[i as int].0, t_i);
                    lemma_enc_one_tbl(ps[i as int].1, tk);
                    lemma_enc_pairs_tbl(ps, i as int + 1, tv);
                    assert(enc_pairs(ps, i as int, t_i).1 == enc_pairs(ps, i as int + 1, tv).1);
                }
                encode_field(buffer, &val[i].0)?;
                let ghost t_k = buffer.table();
                proof {
                    let tv = enc_one(ps[i as int].1, t_k).1;
                    lemma_enc_one_tbl(ps[i as int].1, t_k);
                    lemma_enc_pairs_tbl(ps, i as int + 1, tv);
                    assert(t_k == enc_one(ps[i as int].0, t_i).1);
                    assert(enc_pairs(ps, i as int, t_i).0 == enc_one(ps[i as int].0, t_i).0
                        + enc_one(ps[i as int].1, t_k).0 + enc_pairs(ps, i as int + 1, tv).0);
                    assert(buffer.live().len() == bufpre.live().len() + enc_one(
                        ps[i as int].0,
                        t_i,
                    ).0.len());
                }
                encode_field(buffer, &val[i].1)?;
                proof {
                    assert(buffer.live() + enc_pairs(ps, i as int + 1, buffer.table()).0
                        =~= pre.live() + header + enc_pairs(ps, 0, tbl0).0);
                }
                i += 1;
            }
            proof {
                assert(enc_pairs(ps, n as int, buffer.table()).0 =~= Seq::<u8>::empty());
                assert(buffer.live() =~= buffer.live() + Seq::<u8>::empty());
                assert(buffer.live() =~= pre.live() + header + enc_pairs(ps, 0, tbl0).0);
                assert(buffer.table() == enc_pairs(ps, 0, tbl0).1);
            }
            Ok(())
        },
        _ => unreached(),
    }
}

/// Encodes one value: its tag byte, then its payload, recursing into
/// arrays and maps and interning strings into the buffer's table.
#[verifier::rlimit(80)]
pub fn encode_field(buffer: &mut Buffer, value: &Value) -> (r: RpResult<()>)
    requires
        old(buffer).wf(),
        encodable(value@),
        enc_one(value@, old(buffer).table()).1.len() <= 65536,
        old(buffer).spec_wpos() + enc_one(value@, old(buffer).table()).0.len() + 16 <= usize::MAX
            / 2,
    ensures
        r is Ok,
        final(buffer).wf(),
        final(buffer).spec_rpos() == old(buffer).spec_rpos(),
        final(buffer).table() == enc_one(value@, old(buffer).table()).1,
        final(buffer).live() == old(buffer).live() + enc_one(value@, old(buffer).table()).0,
    decreases *value, 1int,
{
    let ghost pre = *old(buffer);
    let ghost tbl0 = pre.table();
    match value {
        Value::Bool(_) => {
            encode_type(buffer, value)?;
            encode_bool(buffer, value)?;
            proof {
                assert(final(buffer).live() =~= pre.live() + enc_one(value@, tbl0).0);
            }
            Ok(())
        },
        Value::U8(_) => {
            encode_type(buffer, value)?;
            encode_number(buffer, value)?;
            proof {
                assert(fixed_bytes(value@) =~= seq![value@->U8_0]);
                assert(final(buffer).live() =~= pre.live() + enc_one(value@, tbl0).0);
            }
            Ok(())
        },
        Value::I8(_) => {
            encode_type(buffer, value)?;
            encode_number(buffer, value)?;
            proof {
                assert(fixed_bytes(value@) =~= seq![wire_byte_of_i8(value@->I8_0)]);
                assert(final(buffer).live() =~= pre.live() + enc_one(value@, tbl0).0);
            }
            Ok(())
        },
        Value::U16(_) | Value::I16(_) | Value::U32(_) | Value::I32(_) | Value::U64(_)
            | Value::I64(_) | Value::Varint(_) => {
            encode_sure_type(buffer, TYPE_VARINT)?;
            encode_varint(buffer, value)?;
            proof {
                assert(final(buffer).live() =~= pre.live() + enc_one(value@, tbl0).0);
            }
            Ok(())
        },
        Value::Float(_) => {
            encode_sure_type(buffer, TYPE_FLOAT)?;
            encode_varint(buffer, value)?;
            proof {
                assert(final(buffer).live() =~= pre.live() + enc_one(value@, tbl0).0);
            }
            Ok(())
        },
        Value::Double(_) => {
            encode_sure_type(buffer, TYPE_DOUBLE)?;
            encode_varint(buffer, value)?;
            proof {
                assert(final(buffer).live() =~= pre.live() + enc_one(value@, tbl0).0);
            }
            Ok(())
        },
        Value::Str(pattern) => {
            let res = encode_str_idx(buffer, pattern.as_str());
            proof {
                assert(final(buffer).live() =~= pre.live() + enc_one(value@, tbl0).0);
            }
            res
        },
        Value::Raw(_) => {
            encode_type(buffer, value)?;
            let res = encode_str_raw(buffer, value);
            proof {
                assert(final(buffer).live() =~= pre.live() + enc_one(value@, tbl0).0);
            }
            res
        },
        Value::Arr(val) => {
            let ghost es = value@->Arr_0;
            encode_type(buffer, value)?;
            let count: u16 = (val.len() % 65536) as u16;
            proof {
                assert(es.len() == val@.len());
                assert(count as int == len16(es.len()));
            }
            encode_varint(buffer, &Value::U16(count))?;
            proof {
                crate::varint::lemma_varint_enc_len(zigzag(count as int));
            }
            let ghost header = seq![TYPE_ARR] + varint_enc(zigzag(len16(es.len())));
            let ghost live1 = buffer.live();
            proof {
                assert(live1 =~= pre.live() + header);
            }
            let n = val.len();
            let mut i: usize = 0;
            while i < n
                invariant
                    buffer.wf(),
                    n == val@.len(),
                    n == es.len(),
                    i <= n,
                    *value == Value::Arr(*val),
                    value@ is Arr,
                    value@->Arr_0 == es,
                    forall|j: int| 0 <= j < es.len() ==> es[j] == (#[trigger] val@[j])@,
                    encodable(value@),
                    buffer.spec_rpos() == pre.spec_rpos(),
                    buffer.live() + enc_list(es, i as int, buffer.table()).0 == pre.live()
                        + header + enc_list(es, 0, tbl0).0,
                    enc_list(es, i as int, buffer.table()).1 == enc_list(es, 0, tbl0).1,
                    enc_list(es, 0, tbl0).1.len() <= 65536,
                    buffer.spec_wpos() + enc_list(es, i as int, buffer.table()).0.len() + 16
                        <= usize::MAX / 2,
                decreases n - i,
            {
                let ghost t_i = buffer.table();
                proof {
                    assert(decreases_to!(*value => *val));
                    assert(decreases_to!(*val => val@));
                    assert(decreases_to!(val@ => val@[i as int]));
                    assert(es[i as int] == val@[i as int]@);
                    assert(encodable(es[i as int])) by {
                        assert(encodable(value@));
                    }
                    let t1 = enc_one(es[i as int], t_i).1;
                    lemma_enc_one_tbl(es[i as int], t_i);
                    lemma_enc_list_tbl(es, i as int + 1, t1);
                    assert(enc_list(es, i as int, t_i).1 == enc_list(es, i as int + 1, t1).1);
                }
                encode_field(buffer, &val[i])?;
                proof {
                    assert(buffer.live() + enc_list(es, i as int + 1, buffer.table()).0
                        =~= pre.live() + header + enc_list(es, 0, tbl0).0);
                }
                i += 1;
            }
            proof {
                assert(enc_list(es, n as int, buffer.table()).0 =~= Seq::<u8>::empty());
                assert(buffer.live() =~= buffer.live() + Seq::<u8>::empty());
                assert(buffer.live() =~= pre.live() + enc_one(value@, tbl0).0);
                assert(buffer.table() == enc_one(value@, tbl0).1);
            }
            Ok(())
        },
        Value::Dict(_) => {
            let ghost ps = value@->Dict_0;
            encode_type(buffer, value)?;
            proof {
                assert(decreases_to!(*value, 1int => *value, 0int));
            }
            let res = encode_map(buffer, value);
            proof {
                assert(final(buffer).live() =~= pre.live() + enc_one(value@, tbl0).0);
            }
            res
        },
        Value::Nil => {
            encode_type(buffer, value)?;
            proof {
                assert(final(buffer).live() =~= pre.live() + enc_one(value@, tbl0).0);
            }
            Ok(())
        },
    }
}

/// The wire bytes of the string table: each entry length-prefixed, in
/// order, from index `i` on.
pub open spec fn enc_tbl_bytes(tbl: Seq<Seq<char>>, i: int) -> Seq<u8>
    decreases tbl.len() - i,
{
    if 0 <= i < tbl.len() {
        enc_lp_bytes(encode_utf8(tbl[i])) + enc_tbl_bytes(tbl, i + 1)
    } else {
        Seq::<u8>::empty()
    }
}

/// The wire bytes of a whole message: the length-prefixed name, a varint
/// of the string-table size, the table entries, then the body — the value
/// list encoded as one array against an initially empty table.
pub open spec fn enc_proto_bytes(name: Seq<char>, infos: Seq<ValueView>) -> Seq<u8> {
    let bt = enc_one(ValueView::Arr(infos), Seq::<Seq<char>>::empty());
    enc_lp_bytes(encode_utf8(name)) + varint_enc(zigzag(len16(bt.1.len()))) + enc_tbl_bytes(
        bt.1,
        0,
    ) + bt.0
}

/// Encodes a named message: the body is encoded first into a scratch
/// buffer (filling its string table), then the name, the table and the
/// body bytes are written to the destination in wire order.
#[verifier::rlimit(80)]
pub fn encode_proto(buffer: &mut Buffer, name: &String, infos: Vec<Value>) -> (r: RpResult<()>)
    requires
        old(buffer).wf(),
        encodable(ValueView::Arr(crate::values::views_of(infos@))),
        enc_one(ValueView::Arr(crate::values::views_of(infos@)), Seq::<Seq<char>>::empty()).1.len()
            <= 65536,
        old(buffer).spec_wpos() + enc_proto_bytes(name@, crate::values::views_of(infos@)).len()
            + 64 <= usize::MAX / 2,
        enc_one(ValueView::Arr(crate::values::views_of(infos@)), Seq::<Seq<char>>::empty()).0.len()
            + 16 <= usize::MAX / 2,
    ensures
        r is Ok,
        final(buffer).wf(),
        final(buffer).spec_rpos() == old(buffer).spec_rpos(),
        final(buffer).table() == old(buffer).table(),
        final(buffer).live() == old(buffer).live() + enc_proto_bytes(
            name@,
            crate::values::views_of(infos@),
        ),
{
    let ghost pre = *old(buffer);
    let ghost vs = crate::values::views_of(infos@);
    let ghost bt = enc_one(ValueView::Arr(vs), Seq::<Seq<char>>::empty());
    let mut sub_buffer = Buffer::new();
    let arr = Value::Arr(infos);
    proof {
        assert(arr@->Arr_0 =~= vs);
        assert(arr@ == ValueView::Arr(vs));
    }
    encode_field(&mut sub_buffer, &arr)?;
    proof {
        assert(sub_buffer.live() =~= bt.0);
        assert(sub_buffer.table() == bt.1);
    }
    encode_str_raw(buffer, &Value::Str(name.clone()))?;
    let ghost name_bytes = enc_lp_bytes(encode_utf8(name@));
    let size = sub_buffer.table_size();
    let size16: u16 = (size % 65536) as u16;
    proof {
        assert(size16 as int == len16(bt.1.len()));
    }
    encode_varint(buffer, &Value::U16(size16))?;
    let ghost count_bytes = varint_enc(zigzag(len16(bt.1.len())));
    proof {
        crate::varint::lemma_varint_enc_len(zigzag(size16 as int));
        assert(buffer.live() =~= pre.live() + name_bytes + count_bytes);
    }
    let mut i: usize = 0;
    while i < size
        invariant
            buffer.wf(),
            size == bt.1.len(),
            size <= 65536,
            i <= size,
            sub_buffer.wf(),
            sub_buffer.table() == bt.1,
            sub_buffer.live() == bt.0,
            buffer.spec_rpos() == pre.spec_rpos(),
            buffer.table() == pre.table(),
            buffer.live() + enc_tbl_bytes(bt.1, i as int) == pre.live() + name_bytes + count_bytes
                + enc_tbl_bytes(bt.1, 0),
            buffer.spec_wpos() + enc_tbl_bytes(bt.1, i as int).len() + bt.0.len() + 32
                <= usize::MAX / 2,
        decreases size - i,
    {
        let entry = match sub_buffer.get_str(i as u16) {
            Ok(s) => s,
            Err(_) => unreached(),
        };
        proof {
            assert(entry@ == bt.1[i as int]);
            assert(enc_tbl_bytes(bt.1, i as int) == enc_lp_bytes(encode_utf8(bt.1[i as int]))
                + enc_tbl_bytes(bt.1, i as int + 1));
        }
        encode_str_raw(buffer, &Value::Str(entry))?;
        proof {
            assert(buffer.live() + enc_tbl_bytes(bt.1, i as int + 1) =~= pre.live() + name_bytes
                + count_bytes + enc_tbl_bytes(bt.1, 0));
        }
        i += 1;
    }
    proof {
        assert(enc_tbl_bytes(bt.1, size as int) =~= Seq::<u8>::empty());
        assert(buffer.live() =~= buffer.live() + Seq::<u8>::empty());
        assert(buffer.live() =~= pre.live() + name_bytes + count_bytes + enc_tbl_bytes(bt.1, 0));
    }
    let res = buffer.extend(&sub_buffer);
    proof {
        assert(buffer.live() =~= pre.live() + enc_proto_bytes(name@, vs));
    }
    match res {
        Ok(_) => Ok(()),
        Err(e) => Err(e),
    }
}
} // verus!
