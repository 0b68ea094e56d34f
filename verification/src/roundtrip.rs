//! The laws that tie the encoder and the decoder together: decoding an
//! encoded value gives the value back, up to the wire's documented
//! normalization (all sized integer widths collapse to the generic
//! varint value), and interning the same string twice yields one table
//! slot referenced twice.

use vstd::prelude::*;

use crate::buffer::{lemma_tbl_index_of, lemma_tbl_index_of_found, spec_add_str, tbl_contains};
use crate::decode::{
    dec_field, dec_list, dec_pairs, dec_str_raw, dec_varint, DecOutcome, ListOutcome,
    PairsOutcome,
};
use crate::encode::{
    enc_list, enc_lp_bytes, enc_one, enc_pairs, encodable, lemma_enc_list_tbl, lemma_enc_one_tbl,
    lemma_enc_pairs_tbl, lemma_tbl_extends_trans, tbl_extends, varint_payload,
};
use crate::values::{ValueView, TYPE_VARINT};
use crate::varint::{lemma_varint_dec_enc, lemma_zigzag_roundtrip, varint_enc, zigzag};
use vstd::utf8::{decode_utf8, encode_utf8};

verus! {

/// What a value looks like after one trip over the wire: every sized
/// integer width collapses to the generic varint value; everything else
/// keeps its shape.
pub open spec fn normalize(v: ValueView) -> ValueView
    decreases v, 0int,
    via normalize_decreases
{
    match v {
        ValueView::U16(x) => ValueView::Varint(x as i64),
        ValueView::I16(x) => ValueView::Varint(x as i64),
        ValueView::U32(x) => ValueView::Varint(x as i64),
        ValueView::I32(x) => ValueView::Varint(x as i64),
        ValueView::U64(_) => ValueView::Varint(varint_payload(v) as i64),
        ValueView::I64(x) => ValueView::Varint(x),
        ValueView::Arr(es) => ValueView::Arr(
            Seq::new(
                es.len(),
                |i: int|
                    if 0 <= i < es.len() {
                        normalize(es[i])
                    } else {
                        ValueView::Nil
                    },
            ),
        ),
        ValueView::Dict(ps) => ValueView::Dict(
            Seq::new(
                ps.len(),
                |i: int|
                    if 0 <= i < ps.len() {
                        (normalize(ps[i].0), normalize(ps[i].1))
                    } else {
                        (ValueView::Nil, ValueView::Nil)
                    },
            ),
        ),
        _ => v,
    }
}

#[via_fn]
proof fn normalize_decreases(v: ValueView) {
    match v {
        ValueView::Arr(es) => {
            assert forall|i: int| 0 <= i < es.len() implies (decreases_to!(
                v, 0int => #[trigger] es[i], 0int
            )) by {
                assert(decreases_to!(v => es));
                assert(decreases_to!(es => es[i]));
            }
        },
        ValueView::Dict(ps) => {
            assert forall|i: int| 0 <= i < ps.len() implies (decreases_to!(
                v, 0int => (#[trigger] ps[i]).0, 0int
            )) && (decreases_to!(v, 0int => ps[i].1, 0int)) by {
                assert(decreases_to!(v => ps));
                assert(decreases_to!(ps => ps[i]));
                assert(decreases_to!(ps[i] => ps[i].0));
                assert(decreases_to!(ps[i] => ps[i].1));
            }
        },
        _ => {},
    }
}

/// The normalized images of the values from index `i` on.
pub open spec fn normalize_seq(vs: Seq<ValueView>, i: int) -> Seq<ValueView> {
    Seq::new(
        (vs.len() - i) as nat,
        |j: int|
            if 0 <= j < vs.len() - i {
                normalize(vs[i + j])
            } else {
                ValueView::Nil
            },
    )
}

/// The normalized images of the pairs from index `i` on.
pub open spec fn normalize_pairs(ps: Seq<(ValueView, ValueView)>, i: int) -> Seq<
    (ValueView, ValueView),
> {
    Seq::new(
        (ps.len() - i) as nat,
        |j: int|
            if 0 <= j < ps.len() - i {
                (normalize(ps[i + j].0), normalize(ps[i + j].1))
            } else {
                (ValueView::Nil, ValueView::Nil)
            },
    )
}

/// Reading back one encoded varint payload.
proof fn lemma_varint_piece(p: int, rest: Seq<u8>)
    requires
        -0x8000_0000_0000_0000 <= p < 0x8000_0000_0000_0000,
    ensures
        dec_varint(varint_enc(zigzag(p)) + rest) == DecOutcome::Val(
            ValueView::Varint(p as i64),
            varint_enc(zigzag(p)).len() as nat,
        ),
{
    lemma_zigzag_roundtrip(p);
    lemma_varint_dec_enc(zigzag(p), rest);
}

/// Round trip for one value: the bytes that encoding appended, placed
/// before any suffix and decoded against any table that extends the
/// table encoding produced, give back the value's normalized image and
/// consume exactly the encoded bytes.
///
/// This is the round-trip law: for every encodable value (maps included,
/// since this model keeps map entries in order), decoding inverts
/// encoding up to integer-width normalization.
#[verifier::rlimit(100)]
pub proof fn lemma_dec_enc_one(v: ValueView, tbl: Seq<Seq<char>>, big: Seq<Seq<char>>, rest: Seq<u8>)
    requires
        encodable(v),
        enc_one(v, tbl).1.len() <= 65536,
        tbl_extends(big, enc_one(v, tbl).1),
    ensures
        dec_field(enc_one(v, tbl).0 + rest, big) == DecOutcome::Val(
            normalize(v),
            enc_one(v, tbl).0.len() as nat,
        ),
    decreases v, 0int, 0int,
{
    let bytes = enc_one(v, tbl).0 + rest;
    match v {
        ValueView::Nil => {
            assert(bytes[0] == crate::values::TYPE_NIL);
        },
        ValueView::Bool(b) => {
            assert(bytes[0] == crate::values::TYPE_BOOL);
            assert(bytes.skip(1)[0] == (if b {
                1 as u8
            } else {
                0 as u8
            }));
        },
        ValueView::U8(x) => {
            assert(bytes[0] == crate::values::TYPE_U8);
            assert(bytes.skip(1)[0] == x);
        },
        ValueView::I8(x) => {
            assert(bytes[0] == crate::values::TYPE_I8);
            assert(bytes.skip(1)[0] == crate::encode::wire_byte_of_i8(x));
        },
        ValueView::Float(m) => {
            assert(bytes[0] == crate::values::TYPE_FLOAT);
            assert(bytes.skip(1) =~= varint_enc(zigzag(m as int)) + rest);
            lemma_varint_piece(m as int, rest);
            assert(crate::decode::trunc_i32(m as int) == m as int) by {
                if m < 0 {
                    vstd::arithmetic::div_mod::lemma_mod_multiples_vanish(
                        1,
                        m as int,
                        0x1_0000_0000,
                    );
                    vstd::arithmetic::div_mod::lemma_small_mod(
                        (m + 0x1_0000_0000) as nat,
                        0x1_0000_0000,
                    );
                } else {
                    vstd::arithmetic::div_mod::lemma_small_mod(m as nat, 0x1_0000_0000);
                }
            }
        },
        ValueView::Double(d) => {
            assert(bytes[0] == crate::values::TYPE_DOUBLE);
            assert(bytes.skip(1) =~= varint_enc(zigzag(d as int)) + rest);
            lemma_varint_piece(d as int, rest);
        },
        ValueView::Str(s) => {
            assert(bytes[0] == crate::values::TYPE_STR_IDX);
            let idx = spec_add_str(tbl, s).1;
            let tbl2 = spec_add_str(tbl, s).0;
            assert(0 <= idx < tbl2.len()) by {
                if tbl_contains(tbl, s) {
                    lemma_tbl_index_of(tbl, s);
                }
            }
            assert(tbl2[idx] == s) by {
                if tbl_contains(tbl, s) {
                    lemma_tbl_index_of(tbl, s);
                }
            }
            assert(bytes.skip(1) =~= varint_enc(zigzag(idx)) + rest);
            lemma_varint_piece(idx, rest);
            assert(crate::decode::trunc_u16(idx) == idx) by {
                vstd::arithmetic::div_mod::lemma_small_mod(idx as nat, 65536);
            }
            assert(big[idx] == s) by {
                assert(big.take(tbl2.len() as int)[idx] == big[idx]);
            }
        },
        ValueView::Raw(b) => {
            assert(bytes[0] == crate::values::TYPE_RAW);
            let lenb = varint_enc(zigzag(b.len() as int));
            assert(crate::encode::len16(b.len()) == b.len() as int) by {
                vstd::arithmetic::div_mod::lemma_small_mod(b.len(), 65536);
            }
            assert(enc_lp_bytes(b) == lenb + b);
            assert(bytes.skip(1) =~= lenb + (b + rest));
            lemma_varint_piece(b.len() as int, b + rest);
            assert(crate::decode::trunc_u16(b.len() as int) == b.len()) by {
                vstd::arithmetic::div_mod::lemma_small_mod(b.len(), 65536);
            }
            let c = lenb.len() as nat;
            if b.len() == 0 {
                assert(dec_str_raw(bytes.skip(1), crate::values::TYPE_RAW) == DecOutcome::Val(
                    ValueView::Raw(Seq::<u8>::empty()),
                    c,
                ));
                assert(ValueView::Raw(Seq::<u8>::empty()) == v) by {
                    assert(b =~= Seq::<u8>::empty());
                }
            } else {
                assert(bytes.skip(1).len() - c >= b.len());
                assert(bytes.skip(1).subrange(c as int, c + b.len() as int) =~= b);
            }
        },
        ValueView::Arr(es) => {
            assert(bytes[0] == crate::values::TYPE_ARR);
            let n = es.len();
            let lenb = varint_enc(zigzag(n as int));
            assert(crate::encode::len16(n) == n as int) by {
                vstd::arithmetic::div_mod::lemma_small_mod(n, 65536);
            }
            let body = enc_list(es, 0, tbl).0;
            assert(bytes.skip(1) =~= lenb + (body + rest));
            lemma_varint_piece(n as int, body + rest);
            assert(crate::decode::trunc_u16(n as int) == n) by {
                vstd::arithmetic::div_mod::lemma_small_mod(n, 65536);
            }
            let c = lenb.len();
            assert(bytes.skip(1).skip(c as int) =~= body + rest);
            assert(decreases_to!(v => es));
            assert(forall|j: int| 0 <= j < es.len() ==> encodable(#[trigger] es[j])) by {
                assert(encodable(v));
            }
            lemma_dec_enc_list(es, 0, tbl, big, rest);
            assert(normalize(v)->Arr_0 =~= normalize_seq(es, 0));
        },
        ValueView::Dict(ps) => {
            assert(bytes[0] == crate::values::TYPE_MAP);
            let n = ps.len();
            let lenb = varint_enc(zigzag(n as int));
            assert(crate::encode::len16(n) == n as int) by {
                vstd::arithmetic::div_mod::lemma_small_mod(n, 65536);
            }
            let body = enc_pairs(ps, 0, tbl).0;
            assert(bytes.skip(1) =~= lenb + (body + rest));
            lemma_varint_piece(n as int, body + rest);
            assert(crate::decode::trunc_u16(n as int) == n) by {
                vstd::arithmetic::div_mod::lemma_small_mod(n, 65536);
            }
            let c = lenb.len();
            assert(bytes.skip(1).skip(c as int) =~= body + rest);
            assert(decreases_to!(v => ps));
            assert(forall|j: int|
                0 <= j < ps.len() ==> encodable((#[trigger] ps[j]).0) && encodable(ps[j].1)) by {
                assert(encodable(v));
            }
            lemma_dec_enc_pairs(ps, 0, tbl, big, rest);
            assert(normalize(v)->Dict_0 =~= normalize_pairs(ps, 0));
        },
        ValueView::U16(x) => {
            assert(bytes[0] == TYPE_VARINT);
            assert(bytes.skip(1) =~= varint_enc(zigzag(varint_payload(v))) + rest);
            lemma_varint_piece(varint_payload(v), rest);
        },
        ValueView::I16(x) => {
            assert(bytes[0] == TYPE_VARINT);
            assert(bytes.skip(1) =~= varint_enc(zigzag(varint_payload(v))) + rest);
            lemma_varint_piece(varint_payload(v), rest);
        },
        ValueView::U32(x) => {
            assert(bytes[0] == TYPE_VARINT);
            assert(bytes.skip(1) =~= varint_enc(zigzag(varint_payload(v))) + rest);
            lemma_varint_piece(varint_payload(v), rest);
        },
        ValueView::I32(x) => {
            assert(bytes[0] == TYPE_VARINT);
            assert(bytes.skip(1) =~= varint_enc(zigzag(varint_payload(v))) + rest);
            lemma_varint_piece(varint_payload(v), rest);
        },
        ValueView::U64(x) => {
            assert(bytes[0] == TYPE_VARINT);
            assert(bytes.skip(1) =~= varint_enc(zigzag(varint_payload(v))) + rest);
            lemma_varint_piece(varint_payload(v), rest);
        },
        ValueView::I64(x) => {
            assert(bytes[0] == TYPE_VARINT);
            assert(bytes.skip(1) =~= varint_enc(zigzag(varint_payload(v))) + rest);
            lemma_varint_piece(varint_payload(v), rest);
        },
        ValueView::Varint(x) => {
            assert(bytes[0] == TYPE_VARINT);
            assert(bytes.skip(1) =~= varint_enc(zigzag(varint_payload(v))) + rest);
            lemma_varint_piece(varint_payload(v), rest);
        },
    }
}

/// Round trip for a run of values encoded left to right.
#[verifier::rlimit(100)]
pub proof fn lemma_dec_enc_list(
    vs: Seq<ValueView>,
    i: int,
    tbl: Seq<Seq<char>>,
    big: Seq<Seq<char>>,
    rest: Seq<u8>,
)
    requires
        0 <= i <= vs.len(),
        forall|j: int| i <= j < vs.len() ==> encodable(#[trigger] vs[j]),
        enc_list(vs, i, tbl).1.len() <= 65536,
        tbl_extends(big, enc_list(vs, i, tbl).1),
    ensures
        dec_list(enc_list(vs, i, tbl).0 + rest, big, (vs.len() - i) as nat) == ListOutcome::Vals(
            normalize_seq(vs, i),
            enc_list(vs, i, tbl).0.len() as nat,
        ),
    decreases vs, vs.len() - i + 1, 0int,
{
    if i == vs.len() {
        assert(enc_list(vs, i, tbl).0 =~= Seq::<u8>::empty());
        assert(normalize_seq(vs, i) =~= Seq::<ValueView>::empty());
        assert(enc_list(vs, i, tbl).0 + rest =~= rest);
    } else {
        assert(decreases_to!(vs => vs[i]));
        let b1 = enc_one(vs[i], tbl).0;
        let t1 = enc_one(vs[i], tbl).1;
        let b2 = enc_list(vs, i + 1, t1).0;
        assert(enc_list(vs, i, tbl).0 == b1 + b2);
        assert(enc_list(vs, i, tbl).1 == enc_list(vs, i + 1, t1).1);
        lemma_enc_one_tbl(vs[i], tbl);
        lemma_enc_list_tbl(vs, i + 1, t1);
        assert(t1.len() <= enc_list(vs, i + 1, t1).1.len());
        lemma_tbl_extends_trans(big, enc_list(vs, i + 1, t1).1, t1);
        assert((b1 + b2) + rest =~= b1 + (b2 + rest));
        lemma_dec_enc_one(vs[i], tbl, big, b2 + rest);
        let c1 = b1.len() as nat;
        assert((b1 + (b2 + rest)).skip(c1 as int) =~= b2 + rest);
        lemma_dec_enc_list(vs, i + 1, t1, big, rest);
        assert(seq![normalize(vs[i])] + normalize_seq(vs, i + 1) =~= normalize_seq(vs, i));
    }
}

/// Round trip for a run of key/value pairs encoded left to right.
#[verifier::rlimit(100)]
pub proof fn lemma_dec_enc_pairs(
    ps: Seq<(ValueView, ValueView)>,
    i: int,
    tbl: Seq<Seq<char>>,
    big: Seq<Seq<char>>,
    rest: Seq<u8>,
)
    requires
        0 <= i <= ps.len(),
        forall|j: int| i <= j < ps.len() ==> encodable((#[trigger] ps[j]).0) && encodable(ps[j].1),
        enc_pairs(ps, i, tbl).1.len() <= 65536,
        tbl_extends(big, enc_pairs(ps, i, tbl).1),
    ensures
        dec_pairs(enc_pairs(ps, i, tbl).0 + rest, big, (ps.len() - i) as nat)
            == PairsOutcome::Pairs(
            normalize_pairs(ps, i),
            enc_pairs(ps, i, tbl).0.len() as nat,
        ),
    decreases ps, ps.len() - i + 1, 1int,
{
    if i == ps.len() {
        assert(enc_pairs(ps, i, tbl).0 =~= Seq::<u8>::empty());
        assert(normalize_pairs(ps, i) =~= Seq::<(ValueView, ValueView)>::empty());
        assert(enc_pairs(ps, i, tbl).0 + rest =~= rest);
    } else {
        assert(decreases_to!(ps => ps[i]));
        assert(decreases_to!(ps[i] => ps[i].0));
        assert(decreases_to!(ps[i] => ps[i].1));
        assert(decreases_to!(ps, ps.len() - i + 1, 1int => ps[i].0, 0int, 0int));
        assert(decreases_to!(ps, ps.len() - i + 1, 1int => ps[i].1, 0int, 0int));
        let bk = enc_one(ps[i].0, tbl).0;
        let tk = enc_one(ps[i].0, tbl).1;
        let bv = enc_one(ps[i].1, tk).0;
        let tv = enc_one(ps[i].1, tk).1;
        let b2 = enc_pairs(ps, i + 1, tv).0;
        assert(enc_pairs(ps, i, tbl).0 == bk + bv + b2);
        assert(enc_pairs(ps, i, tbl).1 == enc_pairs(ps, i + 1, tv).1);
        lemma_enc_one_tbl(ps[i].0, tbl);
        lemma_enc_one_tbl(ps[i].1, tk);
        lemma_enc_pairs_tbl(ps, i + 1, tv);
        lemma_tbl_extends_trans(big, enc_pairs(ps, i + 1, tv).1, tv);
        lemma_tbl_extends_trans(big, tv, tk);
        assert((bk + bv + b2) + rest =~= bk + ((bv + (b2 + rest))));
        lemma_dec_enc_one(ps[i].0, tbl, big, bv + (b2 + rest));
        let ck = bk.len() as nat;
        assert((bk + (bv + (b2 + rest))).skip(ck as int) =~= bv + (b2 + rest));
        lemma_dec_enc_one(ps[i].1, tk, big, b2 + rest);
        let cv = bv.len() as nat;
        assert((bv + (b2 + rest)).skip(cv as int) =~= b2 + rest);
        lemma_dec_enc_pairs(ps, i + 1, tv, big, rest);
        assert(seq![(normalize(ps[i].0), normalize(ps[i].1))] + normalize_pairs(ps, i + 1)
            =~= normalize_pairs(ps, i));
    }
}

/// Round trip at the top: for every encodable value, with a table small
/// enough for the wire's sixteen-bit indices, decoding the encoded bytes
/// against the table encoding ends with gives back the normalized value.
pub proof fn lemma_round_trip(v: ValueView, tbl: Seq<Seq<char>>)
    requires
        encodable(v),
        enc_one(v, tbl).1.len() <= 65536,
    ensures
        dec_field(enc_one(v, tbl).0, enc_one(v, tbl).1) == DecOutcome::Val(
            normalize(v),
            enc_one(v, tbl).0.len() as nat,
        ),
{
    let tbl2 = enc_one(v, tbl).1;
    assert(tbl_extends(tbl2, tbl2)) by {
        assert(tbl2.take(tbl2.len() as int) =~= tbl2);
    }
    lemma_dec_enc_one(v, tbl, tbl2, Seq::<u8>::empty());
    assert(enc_one(v, tbl).0 + Seq::<u8>::empty() =~= enc_one(v, tbl).0);
}

/// String dedup: encoding the same string twice in one message writes the
/// identical back-reference twice, pointing at one table slot that holds
/// the string, and the second encoding adds nothing to the table.
pub proof fn lemma_string_dedup(s: Seq<char>, tbl: Seq<Seq<char>>)
    ensures
        enc_one(ValueView::Str(s), enc_one(ValueView::Str(s), tbl).1).1 == enc_one(
            ValueView::Str(s),
            tbl,
        ).1,
        enc_one(ValueView::Str(s), enc_one(ValueView::Str(s), tbl).1).0 == enc_one(
            ValueView::Str(s),
            tbl,
        ).0,
        0 <= spec_add_str(tbl, s).1 < enc_one(ValueView::Str(s), tbl).1.len(),
        enc_one(ValueView::Str(s), tbl).1[spec_add_str(tbl, s).1] == s,
{
    let t1 = spec_add_str(tbl, s).0;
    let idx = spec_add_str(tbl, s).1;
    if tbl_contains(tbl, s) {
        lemma_tbl_index_of(tbl, s);
    } else {
        assert(t1[tbl.len() as int] == s);
        assert(forall|j: int| 0 <= j < tbl.len() ==> t1[j] == tbl[j] && t1[j] != s);
        lemma_tbl_index_of_found(t1, s, tbl.len() as int);
    }
    assert(tbl_contains(t1, s)) by {
        assert(t1[idx] == s);
    }
    assert(crate::buffer::tbl_index_of(t1, s) == idx);
}

/// The table never holds the same string twice, as long as it is only
/// grown by interning.
pub proof fn lemma_enc_tbl_nodup(v: ValueView, tbl: Seq<Seq<char>>)
    requires
        tbl.no_duplicates(),
    ensures
        enc_one(v, tbl).1.no_duplicates(),
    decreases v, 0int, 0int,
{
    match v {
        ValueView::Str(s) => {
            if !tbl_contains(tbl, s) {
                assert(enc_one(v, tbl).1 == tbl.push(s));
                assert forall|j: int, k: int|
                    0 <= j < k < tbl.push(s).len() implies tbl.push(s)[j] != tbl.push(s)[k] by {
                    if k == tbl.len() {
                        assert(tbl.push(s)[j] == tbl[j]);
                        assert(!tbl_contains(tbl, s));
                        assert(tbl[j] != s);
                    }
                }
            }
        },
        ValueView::Arr(es) => {
            assert(decreases_to!(v => es));
            lemma_enc_list_nodup(es, 0, tbl);
        },
        ValueView::Dict(ps) => {
            assert(decreases_to!(v => ps));
            lemma_enc_pairs_nodup(ps, 0, tbl);
        },
        _ => {},
    }
}

/// Deduplication across a run of values.
pub proof fn lemma_enc_list_nodup(vs: Seq<ValueView>, i: int, tbl: Seq<Seq<char>>)
    requires
        tbl.no_duplicates(),
    ensures
        enc_list(vs, i, tbl).1.no_duplicates(),
    decreases vs, vs.len() - i + 1, 0int,
{
    if 0 <= i < vs.len() {
        assert(decreases_to!(vs => vs[i]));
        lemma_enc_one_nodup_step(vs[i], tbl);
        lemma_enc_list_nodup(vs, i + 1, enc_one(vs[i], tbl).1);
    }
}

/// Deduplication across a run of key/value pairs.
pub proof fn lemma_enc_pairs_nodup(ps: Seq<(ValueView, ValueView)>, i: int, tbl: Seq<Seq<char>>)
    requires
        tbl.no_duplicates(),
    ensures
        enc_pairs(ps, i, tbl).1.no_duplicates(),
    decreases ps, ps.len() - i + 1, 1int,
{
    if 0 <= i < ps.len() {
        assert(decreases_to!(ps => ps[i]));
        assert(decreases_to!(ps[i] => ps[i].0));
        assert(decreases_to!(ps[i] => ps[i].1));
        assert(decreases_to!(ps, ps.len() - i + 1, 1int => ps[i].0, 0int, 0int));
        assert(decreases_to!(ps, ps.len() - i + 1, 1int => ps[i].1, 0int, 0int));
        lemma_enc_one_nodup_step(ps[i].0, tbl);
        lemma_enc_one_nodup_step(ps[i].1, enc_one(ps[i].0, tbl).1);
        lemma_enc_pairs_nodup(ps, i + 1, enc_one(ps[i].1, enc_one(ps[i].0, tbl).1).1);
    }
}

/// One encoding step preserves deduplication.
proof fn lemma_enc_one_nodup_step(v: ValueView, tbl: Seq<Seq<char>>)
    requires
        tbl.no_duplicates(),
    ensures
        enc_one(v, tbl).1.no_duplicates(),
    decreases v, 1int, 0int,
{
    lemma_enc_tbl_nodup(v, tbl);
}


/// The set of strings a value carries, at any depth.
pub open spec fn str_set(v: ValueView) -> Set<Seq<char>>
    decreases v, 0int, 0int,
    via str_set_decreases
{
    match v {
        ValueView::Str(s) => Set::<Seq<char>>::empty().insert(s),
        ValueView::Arr(es) => str_set_list(es, 0),
        ValueView::Dict(ps) => str_set_pairs(ps, 0),
        _ => Set::<Seq<char>>::empty(),
    }
}

#[via_fn]
proof fn str_set_decreases(v: ValueView) {
    match v {
        ValueView::Arr(es) => {
            assert(decreases_to!(v => es));
        },
        ValueView::Dict(ps) => {
            assert(decreases_to!(v => ps));
        },
        _ => {},
    }
}

/// The strings carried by the values from index `i` on.
pub open spec fn str_set_list(vs: Seq<ValueView>, i: int) -> Set<Seq<char>>
    decreases vs, vs.len() - i + 1, 0int,
    via str_set_list_decreases
{
    if 0 <= i < vs.len() {
        str_set(vs[i]).union(str_set_list(vs, i + 1))
    } else {
        Set::<Seq<char>>::empty()
    }
}

#[via_fn]
proof fn str_set_list_decreases(vs: Seq<ValueView>, i: int) {
    if 0 <= i < vs.len() {
        assert(decreases_to!(vs => vs[i]));
    }
}

/// The strings carried by the pairs from index `i` on.
pub open spec fn str_set_pairs(ps: Seq<(ValueView, ValueView)>, i: int) -> Set<Seq<char>>
    decreases ps, ps.len() - i + 1, 1int,
    via str_set_pairs_decreases
{
    if 0 <= i < ps.len() {
        str_set(ps[i].0).union(str_set(ps[i].1)).union(str_set_pairs(ps, i + 1))
    } else {
        Set::<Seq<char>>::empty()
    }
}

#[via_fn]
proof fn str_set_pairs_decreases(ps: Seq<(ValueView, ValueView)>, i: int) {
    if 0 <= i < ps.len() {
        assert(decreases_to!(ps => ps[i]));
        assert(decreases_to!(ps[i] => ps[i].0));
        assert(decreases_to!(ps[i] => ps[i].1));
        assert(decreases_to!(ps, ps.len() - i + 1, 1int => ps[i].0, 0int, 0int));
        assert(decreases_to!(ps, ps.len() - i + 1, 1int => ps[i].1, 0int, 0int));
    }
}

/// Interning adds exactly the string to the table's set of entries.
proof fn lemma_add_str_set(tbl: Seq<Seq<char>>, s: Seq<char>)
    ensures
        spec_add_str(tbl, s).0.to_set() == tbl.to_set().insert(s),
{
    let t1 = spec_add_str(tbl, s).0;
    if tbl_contains(tbl, s) {
        assert(tbl.to_set().contains(s)) by {
            let i = choose|i: int| 0 <= i < tbl.len() && tbl[i] == s;
            assert(tbl.contains(s)) by {
                assert(tbl[i] == s);
            }
        }
        assert(t1.to_set() =~= tbl.to_set().insert(s));
    } else {
        assert forall|x: Seq<char>| #[trigger] t1.to_set().contains(x) implies tbl.to_set().insert(
            s,
        ).contains(x) by {
            let i = choose|i: int| 0 <= i < t1.len() && t1[i] == x;
            if i < tbl.len() {
                assert(tbl[i] == x);
                assert(tbl.contains(x));
            }
        }
        assert forall|x: Seq<char>| tbl.to_set().insert(s).contains(x) implies #[trigger] t1.to_set()
            .contains(x) by {
            if x == s {
                assert(t1[tbl.len() as int] == s);
                assert(t1.contains(x));
            } else {
                let i = choose|i: int| 0 <= i < tbl.len() && tbl[i] == x;
                assert(t1[i] == x);
                assert(t1.contains(x));
            }
        }
        assert(t1.to_set() =~= tbl.to_set().insert(s));
    }
}

/// Encoding one value adds exactly the value's strings to the table's
/// set of entries.
pub proof fn lemma_enc_tbl_set(v: ValueView, tbl: Seq<Seq<char>>)
    ensures
        enc_one(v, tbl).1.to_set() == tbl.to_set().union(str_set(v)),
    decreases v, 0int, 0int,
{
    match v {
        ValueView::Str(s) => {
            lemma_add_str_set(tbl, s);
            assert(tbl.to_set().insert(s) =~= tbl.to_set().union(
                Set::<Seq<char>>::empty().insert(s),
            ));
        },
        ValueView::Arr(es) => {
            assert(decreases_to!(v => es));
            lemma_enc_list_set(es, 0, tbl);
        },
        ValueView::Dict(ps) => {
            assert(decreases_to!(v => ps));
            lemma_enc_pairs_set(ps, 0, tbl);
        },
        _ => {
            assert(enc_one(v, tbl).1.to_set() =~= tbl.to_set().union(str_set(v)));
        },
    }
}

/// Encoding a run of values adds exactly their strings to the table's
/// set of entries.
pub proof fn lemma_enc_list_set(vs: Seq<ValueView>, i: int, tbl: Seq<Seq<char>>)
    ensures
        enc_list(vs, i, tbl).1.to_set() == tbl.to_set().union(str_set_list(vs, i)),
    decreases vs, vs.len() - i + 1, 0int,
{
    if 0 <= i < vs.len() {
        assert(decreases_to!(vs => vs[i]));
        let t1 = enc_one(vs[i], tbl).1;
        lemma_enc_one_set_step(vs[i], tbl);
        lemma_enc_list_set(vs, i + 1, t1);
        assert(tbl.to_set().union(str_set(vs[i])).union(str_set_list(vs, i + 1)) =~= tbl.to_set()
            .union(str_set_list(vs, i)));
    } else {
        assert(enc_list(vs, i, tbl).1.to_set() =~= tbl.to_set().union(str_set_list(vs, i)));
    }
}

/// Encoding a run of pairs adds exactly their strings to the table's set
/// of entries.
pub proof fn lemma_enc_pairs_set(ps: Seq<(ValueView, ValueView)>, i: int, tbl: Seq<Seq<char>>)
    ensures
        enc_pairs(ps, i, tbl).1.to_set() == tbl.to_set().union(str_set_pairs(ps, i)),
    decreases ps, ps.len() - i + 1, 1int,
{
    if 0 <= i < ps.len() {
        assert(decreases_to!(ps => ps[i]));
        assert(decreases_to!(ps[i] => ps[i].0));
        assert(decreases_to!(ps[i] => ps[i].1));
        assert(decreases_to!(ps, ps.len() - i + 1, 1int => ps[i].0, 0int, 0int));
        assert(decreases_to!(ps, ps.len() - i + 1, 1int => ps[i].1, 0int, 0int));
        let tk = enc_one(ps[i].0, tbl).1;
        let tv = enc_one(ps[i].1, tk).1;
        lemma_enc_one_set_step(ps[i].0, tbl);
        lemma_enc_one_set_step(ps[i].1, tk);
        lemma_enc_pairs_set(ps, i + 1, tv);
        assert(tbl.to_set().union(str_set(ps[i].0)).union(str_set(ps[i].1)).union(
            str_set_pairs(ps, i + 1),
        ) =~= tbl.to_set().union(str_set_pairs(ps, i)));
    } else {
        assert(enc_pairs(ps, i, tbl).1.to_set() =~= tbl.to_set().union(str_set_pairs(ps, i)));
    }
}

/// One encoding step, at a loose measure.
proof fn lemma_enc_one_set_step(v: ValueView, tbl: Seq<Seq<char>>)
    ensures
        enc_one(v, tbl).1.to_set() == tbl.to_set().union(str_set(v)),
    decreases v, 1int, 0int,
{
    lemma_enc_tbl_set(v, tbl);
}

/// String dedup, counted: encoding a value against a fresh table leaves a
/// table without duplicates whose entries are exactly the distinct
/// strings the value carries — its length is their number.
pub proof fn lemma_table_counts_distinct(v: ValueView)
    ensures
        enc_one(v, Seq::<Seq<char>>::empty()).1.no_duplicates(),
        enc_one(v, Seq::<Seq<char>>::empty()).1.to_set() == str_set(v),
        enc_one(v, Seq::<Seq<char>>::empty()).1.len() == str_set(v).len(),
{
    let tbl0 = Seq::<Seq<char>>::empty();
    lemma_enc_tbl_nodup(v, tbl0);
    lemma_enc_tbl_set(v, tbl0);
    assert(tbl0.to_set().union(str_set(v)) =~= str_set(v));
    enc_one(v, tbl0).1.unique_seq_to_set();
}

/// Reading back one length-prefixed string payload.
proof fn lemma_lp_str_roundtrip(s: Seq<char>, rest: Seq<u8>)
    requires
        encode_utf8(s).len() <= 65535,
    ensures
        dec_str_raw(enc_lp_bytes(encode_utf8(s)) + rest, crate::values::TYPE_STR)
            == DecOutcome::Val(
            ValueView::Str(s),
            enc_lp_bytes(encode_utf8(s)).len() as nat,
        ),
{
    let b = encode_utf8(s);
    let lenb = varint_enc(zigzag(b.len() as int));
    assert(crate::encode::len16(b.len()) == b.len() as int) by {
        vstd::arithmetic::div_mod::lemma_small_mod(b.len(), 65536);
    }
    assert(enc_lp_bytes(b) + rest =~= lenb + (b + rest));
    lemma_varint_piece(b.len() as int, b + rest);
    assert(crate::decode::trunc_u16(b.len() as int) == b.len()) by {
        vstd::arithmetic::div_mod::lemma_small_mod(b.len(), 65536);
    }
    vstd::utf8::encode_utf8_valid_utf8(s);
    vstd::utf8::encode_utf8_decode_utf8(s);
    let c = lenb.len() as nat;
    if b.len() == 0 {
        assert(decode_utf8(Seq::<u8>::empty()) =~= Seq::<char>::empty());
        assert(b =~= Seq::<u8>::empty());
        assert(s == decode_utf8(b));
    } else {
        assert((lenb + (b + rest)).subrange(c as int, c + b.len() as int) =~= b);
    }
}

/// Every string an encodable value carries fits the wire's sixteen-bit
/// length prefix.
proof fn lemma_encodable_strs(v: ValueView)
    requires
        encodable(v),
    ensures
        forall|s: Seq<char>| str_set(v).contains(s) ==> #[trigger] encode_utf8(s).len() <= 65535,
    decreases v, 0int, 0int,
{
    match v {
        ValueView::Arr(es) => {
            assert(decreases_to!(v => es));
            assert(forall|j: int| 0 <= j < es.len() ==> encodable(#[trigger] es[j]));
            lemma_encodable_strs_list(es, 0);
        },
        ValueView::Dict(ps) => {
            assert(decreases_to!(v => ps));
            assert(forall|j: int|
                0 <= j < ps.len() ==> encodable((#[trigger] ps[j]).0) && encodable(ps[j].1));
            lemma_encodable_strs_pairs(ps, 0);
        },
        _ => {},
    }
}

/// Bounded strings, across a run of values.
proof fn lemma_encodable_strs_list(vs: Seq<ValueView>, i: int)
    requires
        forall|j: int| 0 <= j < vs.len() ==> encodable(#[trigger] vs[j]),
    ensures
        forall|s: Seq<char>|
            str_set_list(vs, i).contains(s) ==> #[trigger] encode_utf8(s).len() <= 65535,
    decreases vs, vs.len() - i + 1, 0int,
{
    if 0 <= i < vs.len() {
        assert(decreases_to!(vs => vs[i]));
        lemma_encodable_strs(vs[i]);
        lemma_encodable_strs_list(vs, i + 1);
    }
}

/// Bounded strings, across a run of pairs.
proof fn lemma_encodable_strs_pairs(ps: Seq<(ValueView, ValueView)>, i: int)
    requires
        forall|j: int| 0 <= j < ps.len() ==> encodable((#[trigger] ps[j]).0) && encodable(ps[j].1),
    ensures
        forall|s: Seq<char>|
            str_set_pairs(ps, i).contains(s) ==> #[trigger] encode_utf8(s).len() <= 65535,
    decreases ps, ps.len() - i + 1, 1int,
{
    if 0 <= i < ps.len() {
        assert(decreases_to!(ps => ps[i]));
        assert(decreases_to!(ps[i] => ps[i].0));
        assert(decreases_to!(ps[i] => ps[i].1));
        assert(decreases_to!(ps, ps.len() - i + 1, 1int => ps[i].0, 0int, 0int));
        assert(decreases_to!(ps, ps.len() - i + 1, 1int => ps[i].1, 0int, 0int));
        lemma_encodable_strs_step(ps[i].0);
        lemma_encodable_strs_step(ps[i].1);
        lemma_encodable_strs_pairs(ps, i + 1);
    }
}

/// One value's bounded strings, at a loose measure.
proof fn lemma_encodable_strs_step(v: ValueView)
    requires
        encodable(v),
    ensures
        forall|s: Seq<char>| str_set(v).contains(s) ==> #[trigger] encode_utf8(s).len() <= 65535,
    decreases v, 1int, 0int,
{
    lemma_encodable_strs(v);
}

/// Reading back the wire's string table: decoding the entries of a
/// duplicate-free table from index `i` on, into the table's own prefix,
/// rebuilds the table exactly.
proof fn lemma_dec_tbl_roundtrip(tblf: Seq<Seq<char>>, i: int, rest: Seq<u8>)
    requires
        0 <= i <= tblf.len(),
        tblf.no_duplicates(),
        forall|j: int| 0 <= j < tblf.len() ==> #[trigger] encode_utf8(tblf[j]).len() <= 65535,
    ensures
        crate::decode::dec_tbl(
            crate::encode::enc_tbl_bytes(tblf, i) + rest,
            tblf.take(i),
            (tblf.len() - i) as nat,
        ) == crate::decode::TblOutcome::Tbl(
            tblf,
            crate::encode::enc_tbl_bytes(tblf, i).len() as nat,
        ),
    decreases tblf.len() - i,
{
    if i == tblf.len() {
        assert(crate::encode::enc_tbl_bytes(tblf, i) =~= Seq::<u8>::empty());
        assert(tblf.take(i) =~= tblf);
        assert(crate::encode::enc_tbl_bytes(tblf, i) + rest =~= rest);
    } else {
        let entry = enc_lp_bytes(encode_utf8(tblf[i]));
        let b2 = crate::encode::enc_tbl_bytes(tblf, i + 1);
        assert(crate::encode::enc_tbl_bytes(tblf, i) == entry + b2);
        assert((entry + b2) + rest =~= entry + (b2 + rest));
        lemma_lp_str_roundtrip(tblf[i], b2 + rest);
        let c = entry.len() as nat;
        assert((entry + (b2 + rest)).skip(c as int) =~= b2 + rest);
        assert(!tbl_contains(tblf.take(i), tblf[i])) by {
            if tbl_contains(tblf.take(i), tblf[i]) {
                let j = choose|j: int| 0 <= j < i && tblf.take(i)[j] == tblf[i];
                assert(tblf[j] == tblf[i]);
            }
        }
        assert(spec_add_str(tblf.take(i), tblf[i]).0 =~= tblf.take(i + 1));
        lemma_dec_tbl_roundtrip(tblf, i + 1, rest);
    }
}

/// Framing round trip: a whole message written against a fresh scratch
/// table and decoded into a fresh buffer gives back its name and the
/// normalized images of its values, consuming all of its bytes. The
/// message's string count must fit the wire's sixteen-bit table size.
pub proof fn lemma_proto_round_trip(name: Seq<char>, infos: Seq<ValueView>, rest: Seq<u8>)
    requires
        encodable(ValueView::Arr(infos)),
        encode_utf8(name).len() <= 65535,
        enc_one(ValueView::Arr(infos), Seq::<Seq<char>>::empty()).1.len() <= 65535,
    ensures
        crate::decode::dec_proto(
            crate::encode::enc_proto_bytes(name, infos) + rest,
            Seq::<Seq<char>>::empty(),
        ) == crate::decode::ProtoOutcome::Msg(
            name,
            normalize_seq(infos, 0),
            enc_one(ValueView::Arr(infos), Seq::<Seq<char>>::empty()).1,
            crate::encode::enc_proto_bytes(name, infos).len() as nat,
        ),
{
    let v = ValueView::Arr(infos);
    let tbl0 = Seq::<Seq<char>>::empty();
    let body = enc_one(v, tbl0).0;
    let tblf = enc_one(v, tbl0).1;
    let nameb = enc_lp_bytes(encode_utf8(name));
    let countb = varint_enc(zigzag(crate::encode::len16(tblf.len())));
    let tblb = crate::encode::enc_tbl_bytes(tblf, 0);
    let whole = crate::encode::enc_proto_bytes(name, infos);
    assert(whole == nameb + countb + tblb + body);

    // the name
    assert(whole + rest =~= nameb + (countb + (tblb + (body + rest))));
    lemma_lp_str_roundtrip(name, countb + (tblb + (body + rest)));
    let c1 = nameb.len() as nat;
    assert((nameb + (countb + (tblb + (body + rest)))).skip(c1 as int) =~= countb + (tblb + (body
        + rest)));

    // the table size
    assert(crate::encode::len16(tblf.len()) == tblf.len() as int) by {
        vstd::arithmetic::div_mod::lemma_small_mod(tblf.len(), 65536);
    }
    lemma_varint_piece(tblf.len() as int, tblb + (body + rest));
    assert(crate::decode::trunc_u16(tblf.len() as int) == tblf.len()) by {
        vstd::arithmetic::div_mod::lemma_small_mod(tblf.len(), 65536);
    }
    let c2 = countb.len() as nat;
    assert((countb + (tblb + (body + rest))).skip(c2 as int) =~= tblb + (body + rest));

    // the table entries
    lemma_enc_tbl_nodup(v, tbl0);
    lemma_enc_tbl_set(v, tbl0);
    assert(tbl0.to_set().union(str_set(v)) =~= str_set(v));
    lemma_encodable_strs(v);
    assert(forall|j: int| 0 <= j < tblf.len() ==> #[trigger] encode_utf8(tblf[j]).len() <= 65535)
        by {
        assert forall|j: int| 0 <= j < tblf.len() implies #[trigger] encode_utf8(tblf[j]).len()
            <= 65535 by {
            assert(tblf.contains(tblf[j]));
            assert(tblf.to_set().contains(tblf[j]));
            assert(str_set(v).contains(tblf[j]));
        }
    }
    assert(tblf.take(0) =~= tbl0);
    lemma_dec_tbl_roundtrip(tblf, 0, body + rest);
    let c3 = tblb.len() as nat;
    assert((tblb + (body + rest)).skip(c3 as int) =~= body + rest);

    // the body
    assert(tbl_extends(tblf, tblf)) by {
        assert(tblf.take(tblf.len() as int) =~= tblf);
    }
    lemma_dec_enc_one(v, tbl0, tblf, rest);
    assert(normalize(v)->Arr_0 =~= normalize_seq(infos, 0));
    assert(whole.len() == c1 + c2 + c3 + body.len());
}
} // verus!
