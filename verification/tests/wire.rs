use tunm_proto::{
    decode_field, decode_number, decode_proto, decode_type, decode_varint, encode_field,
    encode_number, encode_proto, encode_str_idx, encode_sure_type, encode_varint,
    get_name_by_type, get_type_by_name, get_type_by_value, make_extension_error, Buffer,
    ErrorKind, StrConfig, Value, TYPE_MAP, TYPE_NIL, TYPE_STR_IDX, TYPE_U16, TYPE_U64, TYPE_U8,
    TYPE_VARINT,
};

#[test]
fn varint_minus_one_is_one_byte() {
    let mut buffer = Buffer::new();
    encode_varint(&mut buffer, &Value::I64(-1)).unwrap();
    assert_eq!(buffer.get_write_data(), [0x01]);
}

#[test]
fn varint_round_trip_exact() {
    let mut buffer = Buffer::new();
    encode_varint(&mut buffer, &Value::I64(0x1234)).unwrap();
    let read = decode_varint(&mut buffer).unwrap();
    assert_eq!(read, Value::Varint(0x1234));
}

#[test]
fn varint_extremes_round_trip() {
    let mut buffer = Buffer::new();
    encode_varint(&mut buffer, &Value::I64(i64::MIN)).unwrap();
    encode_varint(&mut buffer, &Value::I64(i64::MAX)).unwrap();
    // a u64 beyond the signed range wraps onto the negative integers
    encode_varint(&mut buffer, &Value::U64(u64::MAX)).unwrap();
    assert_eq!(decode_varint(&mut buffer).unwrap(), Value::Varint(i64::MIN));
    assert_eq!(decode_varint(&mut buffer).unwrap(), Value::Varint(i64::MAX));
    assert_eq!(decode_varint(&mut buffer).unwrap(), Value::Varint(-1));
}

#[test]
fn varint_too_long_is_parse_error() {
    let mut buffer = Buffer::new();
    let bytes = [0x80u8; 11];
    buffer.write(&bytes).unwrap();
    let err = decode_varint(&mut buffer).unwrap_err();
    assert_eq!(err.kind(), ErrorKind::ParseError);
}

#[test]
fn short_read_is_no_left_space() {
    let mut buffer = Buffer::new();
    let err = decode_field(&mut buffer).unwrap_err();
    assert_eq!(err.kind(), ErrorKind::NoLeftSpaceError);
    assert_eq!(err.category(), "no left space error");
}

#[test]
fn unknown_tag_is_type_mismatch() {
    let mut buffer = Buffer::new();
    buffer.write(&[99u8]).unwrap();
    let err = decode_field(&mut buffer).unwrap_err();
    assert_eq!(err.kind(), ErrorKind::TypeNotMatchError);
}

#[test]
fn stale_string_index_is_over_max() {
    let mut buffer = Buffer::new();
    encode_sure_type(&mut buffer, TYPE_STR_IDX).unwrap();
    encode_varint(&mut buffer, &Value::U16(7)).unwrap();
    let err = decode_field(&mut buffer).unwrap_err();
    assert_eq!(err.kind(), ErrorKind::BufferOverMaxError);
}

#[test]
fn invalid_utf8_is_string_format_error() {
    let mut buffer = Buffer::new();
    // a length-prefixed string payload of two invalid UTF-8 bytes
    encode_varint(&mut buffer, &Value::U16(2)).unwrap();
    buffer.write(&[0xff, 0xfe]).unwrap();
    let err = tunm_proto::decode_str_raw(&mut buffer, tunm_proto::TYPE_STR).unwrap_err();
    assert_eq!(err.kind(), ErrorKind::StringFormatError);
}

#[test]
fn string_dedup_shares_one_slot() {
    let mut buffer = Buffer::new();
    encode_str_idx(&mut buffer, "hello").unwrap();
    let first = buffer.get_write_data();
    encode_str_idx(&mut buffer, "hello").unwrap();
    let both = buffer.get_write_data();
    // two identical back-references, one table slot
    assert_eq!(both.len(), 2 * first.len());
    assert_eq!(&both[..first.len()], &both[first.len()..]);
    assert_eq!(buffer.table_size(), 1);
    assert_eq!(buffer.get_str(0).unwrap(), "hello");
    assert_eq!(buffer.get_str(1).unwrap_err().kind(), ErrorKind::BufferOverMaxError);
}

#[test]
fn distinct_strings_fill_distinct_slots() {
    let mut buffer = Buffer::new();
    let values = vec![
        Value::Str("alpha".to_string()),
        Value::Str("beta".to_string()),
        Value::Str("alpha".to_string()),
    ];
    encode_field(&mut buffer, &Value::Arr(values)).unwrap();
    // the table holds each distinct string once
    assert_eq!(buffer.table_size(), 2);
    assert_eq!(buffer.get_str(0).unwrap(), "alpha");
    assert_eq!(buffer.get_str(1).unwrap(), "beta");
}

#[test]
fn compaction_moves_live_span_down() {
    let mut buffer = Buffer::new();
    let mut payload = Vec::new();
    for i in 0..1500usize {
        payload.push((i % 256) as u8);
    }
    buffer.write(payload.as_slice()).unwrap();
    // a read advances the read cursor past half of the backing store
    let mut scratch = vec![0u8; 1100];
    let got = buffer.read(&mut scratch);
    assert_eq!(got, 1100);
    assert!(buffer.get_rpos() > buffer.len() / 2);
    let before = buffer.get_write_data();
    // the next operation relocates the unread span to offset zero
    buffer.read_offset(0);
    assert_eq!(buffer.get_rpos(), 0);
    assert_eq!(buffer.get_wpos(), 400);
    assert_eq!(buffer.get_write_data(), before);
}

#[test]
fn full_read_resets_cursors() {
    let mut buffer = Buffer::new();
    buffer.write(&[1, 2, 3]).unwrap();
    let mut scratch = vec![0u8; 3];
    buffer.read(&mut scratch);
    assert_eq!(scratch, [1, 2, 3]);
    let emptied = buffer.read_offset(0);
    assert!(emptied);
    assert_eq!(buffer.get_rpos(), 0);
    assert_eq!(buffer.get_wpos(), 0);
}

#[test]
fn drain_removes_prefix() {
    let mut buffer = Buffer::new();
    buffer.write(&[10, 20, 30, 40]).unwrap();
    buffer.set_rpos(2);
    let removed = buffer.drain_collect(2);
    assert_eq!(removed, [10, 20]);
    assert_eq!(buffer.get_rpos(), 0);
    assert_eq!(buffer.get_wpos(), 2);
    assert_eq!(buffer.get_write_data(), [30, 40]);
}

#[test]
fn drain_all_collect_takes_live_span() {
    let mut buffer = Buffer::new();
    buffer.write(&[7, 8, 9]).unwrap();
    buffer.set_rpos(1);
    let taken = buffer.drain_all_collect();
    assert_eq!(taken, [8, 9]);
    assert_eq!(buffer.get_rpos(), 0);
    assert_eq!(buffer.get_wpos(), 0);
}

#[test]
fn buffer_basics() {
    let mut buffer = Buffer::new();
    assert_eq!(buffer.len(), 2048);
    assert_eq!(buffer.data_len(), 0);
    buffer.write(&[5, 6]).unwrap();
    assert_eq!(buffer.data_len(), 2);
    assert_eq!(buffer.get_data()[0], 5);
    buffer.set_wpos(1);
    assert_eq!(buffer.get_wpos(), 1);
    buffer.clear();
    assert_eq!(buffer.get_rpos(), 0);
    assert_eq!(buffer.get_wpos(), 0);
    let scratch = buffer.get_read_array(8);
    assert_eq!(scratch.len(), 7);
    buffer.write_offset(3);
    assert_eq!(buffer.get_wpos(), 3);
}

#[test]
fn extend_appends_live_bytes() {
    let mut a = Buffer::new();
    a.write(&[1, 2]).unwrap();
    let mut b = Buffer::new();
    b.write(&[3, 4]).unwrap();
    let n = a.extend(&b).unwrap();
    assert_eq!(n, 2);
    assert_eq!(a.get_write_data(), [1, 2, 3, 4]);
}

#[test]
fn nil_bool_i8_raw_round_trip() {
    let mut buffer = Buffer::new();
    encode_field(&mut buffer, &Value::Nil).unwrap();
    encode_field(&mut buffer, &Value::Bool(true)).unwrap();
    encode_field(&mut buffer, &Value::Bool(false)).unwrap();
    encode_field(&mut buffer, &Value::I8(-5)).unwrap();
    encode_field(&mut buffer, &Value::Raw(vec![9, 8, 7])).unwrap();
    assert_eq!(decode_field(&mut buffer).unwrap(), Value::Nil);
    assert_eq!(decode_field(&mut buffer).unwrap(), Value::Bool(true));
    assert_eq!(decode_field(&mut buffer).unwrap(), Value::Bool(false));
    assert_eq!(decode_field(&mut buffer).unwrap(), Value::I8(-5));
    assert_eq!(decode_field(&mut buffer).unwrap(), Value::Raw(vec![9, 8, 7]));
}

#[test]
fn double_round_trip_at_micros() {
    let mut buffer = Buffer::new();
    let value = Value::Double((1.5f64 * 1000000.0) as i64);
    encode_field(&mut buffer, &value).unwrap();
    match decode_field(&mut buffer).unwrap() {
        Value::Double(val) => {
            assert_eq!(val, 1500000);
            assert_eq!(val as f64 / 1000000.0, 1.5);
        },
        _ => unreachable!("it will not read"),
    }
}

#[test]
fn number_fixed_widths_round_trip() {
    let mut buffer = Buffer::new();
    encode_number(&mut buffer, &Value::U16(0xabcd)).unwrap();
    encode_number(&mut buffer, &Value::I32(-123456)).unwrap();
    encode_number(&mut buffer, &Value::U64(0x1122_3344_5566_7788)).unwrap();
    assert_eq!(decode_number(&mut buffer, TYPE_U16).unwrap(), Value::U16(0xabcd));
    assert_eq!(
        decode_number(&mut buffer, tunm_proto::TYPE_I32).unwrap(),
        Value::I32(-123456)
    );
    assert_eq!(
        decode_number(&mut buffer, TYPE_U64).unwrap(),
        Value::U64(0x1122_3344_5566_7788)
    );
}

#[test]
fn decode_type_reads_tag_byte() {
    let mut buffer = Buffer::new();
    buffer.write(&[TYPE_VARINT]).unwrap();
    assert_eq!(decode_type(&mut buffer).unwrap(), Value::U8(TYPE_VARINT));
}

#[test]
fn nested_containers_round_trip() {
    let inner = Value::Arr(vec![Value::U8(1), Value::Str("x".to_string())]);
    let map = Value::Dict(vec![(Value::Str("k".to_string()), inner)]);
    let outer = Value::Arr(vec![map, Value::Nil]);
    let mut buffer = Buffer::new();
    encode_field(&mut buffer, &outer).unwrap();
    let read = decode_field(&mut buffer).unwrap();
    assert_eq!(
        read,
        Value::Arr(vec![
            Value::Dict(vec![(
                Value::Str("k".to_string()),
                Value::Arr(vec![Value::U8(1), Value::Str("x".to_string())])
            )]),
            Value::Nil
        ])
    );
}

#[test]
fn proto_with_map_body_is_framing_error() {
    let mut buffer = Buffer::new();
    // the name, an empty table, then a body whose top-level field is a map
    tunm_proto::encode_str_raw(&mut buffer, &Value::Str("cmd".to_string())).unwrap();
    encode_varint(&mut buffer, &Value::U16(0)).unwrap();
    encode_field(
        &mut buffer,
        &Value::Dict(vec![(Value::Str("a".to_string()), Value::U8(1))]),
    )
    .unwrap();
    let err = decode_proto(&mut buffer).unwrap_err();
    assert_eq!(err.kind(), ErrorKind::ExtensionError);
    assert_eq!(err.extension_error_code(), Some("proto is not array"));
    assert!(!err.is_io_error());
}

#[test]
fn proto_reuses_interned_name_strings() {
    let mut buffer = Buffer::new();
    let values = vec![
        Value::Dict(vec![(Value::Str("name".to_string()), Value::Str("a".to_string()))]),
        Value::Dict(vec![(Value::Str("name".to_string()), Value::Str("b".to_string()))]),
    ];
    encode_proto(&mut buffer, &"op".to_string(), values).unwrap();
    let (name, vals) = decode_proto(&mut buffer).unwrap();
    assert_eq!(name, "op");
    assert_eq!(vals.len(), 2);
    // the repeated field name resolved to one interned slot
    assert_eq!(buffer.table_size(), 3);
}

#[test]
fn type_tables_are_mirrors() {
    assert_eq!(get_type_by_name("nil"), TYPE_NIL);
    assert_eq!(get_type_by_name("u8"), TYPE_U8);
    assert_eq!(get_type_by_name("map"), TYPE_MAP);
    assert_eq!(get_type_by_name("something else"), TYPE_NIL);
    assert_eq!(get_name_by_type(TYPE_MAP), "map");
    assert_eq!(get_name_by_type(TYPE_VARINT), "varint");
    assert_eq!(get_name_by_type(200), "nil");
    assert_eq!(get_type_by_value(&Value::U8(3)), TYPE_U8);
    assert_eq!(get_type_by_value(&Value::Nil), TYPE_NIL);
}

#[test]
fn str_config_interns_like_the_buffer() {
    let mut config = StrConfig::new();
    assert_eq!(config.add_str("one".to_string()), 0);
    assert_eq!(config.add_str("two".to_string()), 1);
    assert_eq!(config.add_str("one".to_string()), 0);
    assert_eq!(config.get_str(1).unwrap(), "two");
    let err = config.get_str(9).unwrap_err();
    assert_eq!(err.kind(), ErrorKind::ExtensionError);
    assert_eq!(err.extension_error_code(), Some("too big index"));
}

#[test]
fn extension_error_carries_detail() {
    let err = make_extension_error("code word", Some("more detail"));
    assert_eq!(err.kind(), ErrorKind::ExtensionError);
    assert_eq!(err.extension_error_code(), Some("code word"));
    assert_eq!(err.extension_error_detail(), Some("more detail"));
    assert_eq!(err.category(), "extension error");
}
