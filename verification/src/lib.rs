//! A compact, self-describing binary serialization engine for dynamically
//! typed values: a growable byte buffer with read/write cursors and a
//! per-message string-interning table, a zig-zag varint codec, a tagged
//! value model, recursive encode/decode, and message framing.

pub mod buffer;
pub mod config;
pub mod decode;
pub mod encode;
pub mod roundtrip;
pub mod values;
pub mod varint;

pub use buffer::Buffer;
pub use config::StrConfig;
pub use decode::{
    decode_arr, decode_bool, decode_field, decode_map, decode_number, decode_proto,
    decode_str_raw, decode_type, decode_varint,
};
pub use encode::{
    encode_bool, encode_field, encode_map, encode_number, encode_proto, encode_str_idx,
    encode_str_raw, encode_sure_type, encode_type, encode_varint,
};
pub use values::{
    get_name_by_type, get_type_by_name, get_type_by_value, make_extension_error, spec_type_of,
    ErrorKind, RpError, RpResult, Value, ValueView, STR_TYPE_ARR, STR_TYPE_BOOL, STR_TYPE_DOUBLE,
    STR_TYPE_FLOAT, STR_TYPE_I16, STR_TYPE_I32, STR_TYPE_I64, STR_TYPE_I8, STR_TYPE_MAP,
    STR_TYPE_NIL, STR_TYPE_RAW, STR_TYPE_STR, STR_TYPE_STR_IDX, STR_TYPE_U16, STR_TYPE_U32,
    STR_TYPE_U64, STR_TYPE_U8, STR_TYPE_VARINT, TYPE_ARR, TYPE_BOOL, TYPE_DOUBLE, TYPE_FLOAT,
    TYPE_I16, TYPE_I32, TYPE_I64, TYPE_I8, TYPE_MAP, TYPE_NIL, TYPE_RAW, TYPE_STR, TYPE_STR_IDX,
    TYPE_U16, TYPE_U32, TYPE_U64, TYPE_U8, TYPE_VARINT,
};
