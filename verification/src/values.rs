//! The tagged value model: every decodable datum is a `Value`, each variant
//! paired with a one-byte wire tag. Floating-point payloads travel as
//! fixed-point integers (millesimals for `Float`, millionths for `Double`),
//! so the model stores those integers directly.

use vstd::prelude::*;
use vstd::string::StringSliceAdditionalSpecFns;

verus! {

pub const TYPE_NIL: u8 = 0;

pub const TYPE_U8: u8 = 1;

pub const TYPE_I8: u8 = 2;

pub const TYPE_U16: u8 = 3;

pub const TYPE_I16: u8 = 4;

pub const TYPE_U32: u8 = 5;

pub const TYPE_I32: u8 = 6;

pub const TYPE_U64: u8 = 7;

pub const TYPE_I64: u8 = 8;

pub const TYPE_BOOL: u8 = 9;

pub const TYPE_VARINT: u8 = 10;

pub const TYPE_FLOAT: u8 = 11;

pub const TYPE_DOUBLE: u8 = 12;

pub const TYPE_STR: u8 = 13;

pub const TYPE_STR_IDX: u8 = 14;

pub const TYPE_RAW: u8 = 15;

pub const TYPE_ARR: u8 = 16;

pub const TYPE_MAP: u8 = 17;

/// An in-memory decodable value.
///
/// `Float` carries the number of thousandths (the wire transmits floats at
/// millesimal fixed point); `Double` carries the number of millionths.
/// `Map` keeps its entries as a sequence of key/value pairs in insertion
/// order; the wire format attaches no meaning to that order.
#[derive(Debug, PartialEq)]
pub enum Value {
    Nil,
    Bool(bool),
    U8(u8),
    I8(i8),
    U16(u16),
    I16(i16),
    U32(u32),
    I32(i32),
    U64(u64),
    I64(i64),
    Varint(i64),
    Float(i32),
    Double(i64),
    Str(String),
    Raw(Vec<u8>),
    Arr(Vec<Value>),
    Dict(Vec<(Value, Value)>),
}

/// The mathematical shape of a `Value`: strings become character sequences,
/// vectors become sequences.
pub enum ValueView {
    Nil,
    Bool(bool),
    U8(u8),
    I8(i8),
    U16(u16),
    I16(i16),
    U32(u32),
    I32(i32),
    U64(u64),
    I64(i64),
    Varint(i64),
    Float(i32),
    Double(i64),
    Str(Seq<char>),
    Raw(Seq<u8>),
    Arr(Seq<ValueView>),
    Dict(Seq<(ValueView, ValueView)>),
}

/// The mathematical value that a `Value` stands for.
pub open spec fn value_view(v: Value) -> ValueView
    decreases v,
    via value_view_decreases
{
    match v {
        Value::Nil => ValueView::Nil,
        Value::Bool(b) => ValueView::Bool(b),
        Value::U8(x) => ValueView::U8(x),
        Value::I8(x) => ValueView::I8(x),
        Value::U16(x) => ValueView::U16(x),
        Value::I16(x) => ValueView::I16(x),
        Value::U32(x) => ValueView::U32(x),
        Value::I32(x) => ValueView::I32(x),
        Value::U64(x) => ValueView::U64(x),
        Value::I64(x) => ValueView::I64(x),
        Value::Varint(x) => ValueView::Varint(x),
        Value::Float(x) => ValueView::Float(x),
        Value::Double(x) => ValueView::Double(x),
        Value::Str(s) => ValueView::Str(s@),
        Value::Raw(b) => ValueView::Raw(b@),
        Value::Arr(elems) => ValueView::Arr(
            Seq::new(
                elems@.len(),
                |i: int|
                    if 0 <= i < elems@.len() {
                        value_view(elems@[i])
                    } else {
                        ValueView::Nil
                    },
            ),
        ),
        Value::Dict(pairs) => ValueView::Dict(
            Seq::new(
                pairs@.len(),
                |i: int|
                    if 0 <= i < pairs@.len() {
                        (value_view(pairs@[i].0), value_view(pairs@[i].1))
                    } else {
                        (ValueView::Nil, ValueView::Nil)
                    },
            ),
        ),
    }
}

#[via_fn]
proof fn value_view_decreases(v: Value) {
    match v {
        Value::Arr(elems) => {
            assert forall|i: int| 0 <= i < elems@.len() implies #[trigger] (decreases_to!(
                v => elems@[i]
            )) by {
                assert(decreases_to!(v => elems));
                assert(decreases_to!(elems => elems@));
                assert(decreases_to!(elems@ => elems@[i]));
            }
        },
        Value::Dict(pairs) => {
            assert forall|i: int| 0 <= i < pairs@.len() implies #[trigger] (decreases_to!(
                v => pairs@[i].0
            )) && (decreases_to!(v => pairs@[i].1)) by {
                assert(decreases_to!(v => pairs));
                assert(decreases_to!(pairs => pairs@));
                assert(decreases_to!(pairs@ => pairs@[i]));
                assert(decreases_to!(pairs@[i] => pairs@[i].0));
                assert(decreases_to!(pairs@[i] => pairs@[i].1));
            }
        },
        _ => {},
    }
}

impl View for Value {
    type V = ValueView;

    open spec fn view(&self) -> ValueView {
        value_view(*self)
    }
}

impl Clone for Value {
    /// A deep copy: the clone stands for the same mathematical value.
    fn clone(&self) -> (r: Value)
        ensures
            r@ == self@,
        decreases *self,
    {
        match self {
            Value::Nil => Value::Nil,
            Value::Bool(b) => Value::Bool(*b),
            Value::U8(x) => Value::U8(*x),
            Value::I8(x) => Value::I8(*x),
            Value::U16(x) => Value::U16(*x),
            Value::I16(x) => Value::I16(*x),
            Value::U32(x) => Value::U32(*x),
            Value::I32(x) => Value::I32(*x),
            Value::U64(x) => Value::U64(*x),
            Value::I64(x) => Value::I64(*x),
            Value::Varint(x) => Value::Varint(*x),
            Value::Float(x) => Value::Float(*x),
            Value::Double(x) => Value::Double(*x),
            Value::Str(s) => Value::Str(s.clone()),
            Value::Raw(b) => {
                let mut out: Vec<u8> = Vec::new();
                let n = b.len();
                let mut i: usize = 0;
                while i < n
                    invariant
                        n == b@.len(),
                        i <= n,
                        out@ == b@.subrange(0, i as int),
                    decreases n - i,
                {
                    out.push(b[i]);
                    proof {
                        assert(out@ =~= b@.subrange(0, i + 1));
                    }
                    i += 1;
                }
                proof {
                    assert(out@ =~= b@);
                }
                Value::Raw(out)
            },
            Value::Arr(elems) => {
                let mut out: Vec<Value> = Vec::new();
                let n = elems.len();
                let mut i: usize = 0;
                while i < n
                    invariant
                        *self == Value::Arr(*elems),
                        n == elems@.len(),
                        i <= n,
                        out@.len() == i,
                        forall|j: int| 0 <= j < i ==> (#[trigger] out@[j])@ == elems@[j]@,
                    decreases n - i,
                {
                    proof {
                        assert(*elems == (*self)->Arr_0);
                        assert(decreases_to!(*self => (*self)->Arr_0));
                        assert(decreases_to!(*elems => elems@));
                        assert(decreases_to!(elems@ => elems@[i as int]));
                    }
                    out.push(elems[i].clone());
                    i += 1;
                }
                let r = Value::Arr(out);
                proof {
                    assert(r@->Arr_0 =~= self@->Arr_0);
                }
                r
            },
            Value::Dict(pairs) => {
                let mut out: Vec<(Value, Value)> = Vec::new();
                let n = pairs.len();
                let mut i: usize = 0;
                while i < n
                    invariant
                        *self == Value::Dict(*pairs),
                        n == pairs@.len(),
                        i <= n,
                        out@.len() == i,
                        forall|j: int|
                            0 <= j < i ==> (#[trigger] out@[j]).0@ == pairs@[j].0@ && out@[j].1@
                                == pairs@[j].1@,
                    decreases n - i,
                {
                    proof {
                        assert(*pairs == (*self)->Dict_0);
                        assert(decreases_to!(*self => (*self)->Dict_0));
                        assert(decreases_to!(*pairs => pairs@));
                        assert(decreases_to!(pairs@ => pairs@[i as int]));
                        assert(decreases_to!(pairs@[i as int] => pairs@[i as int].0));
                        assert(decreases_to!(pairs@[i as int] => pairs@[i as int].1));
                    }
                    let k = pairs[i].0.clone();
                    let v = pairs[i].1.clone();
                    out.push((k, v));
                    i += 1;
                }
                let r = Value::Dict(out);
                proof {
                    assert(r@->Dict_0 =~= self@->Dict_0);
                }
                r
            },
        }
    }
}

/// The wire tag that `encode_type` writes for this value.
pub open spec fn spec_type_of(v: ValueView) -> u8 {
    match v {
        ValueView::Nil => TYPE_NIL,
        ValueView::Bool(_) => TYPE_BOOL,
        ValueView::U8(_) => TYPE_U8,
        ValueView::I8(_) => TYPE_I8,
        ValueView::U16(_) => TYPE_U16,
        ValueView::I16(_) => TYPE_I16,
        ValueView::U32(_) => TYPE_U32,
        ValueView::I32(_) => TYPE_I32,
        ValueView::U64(_) => TYPE_U64,
        ValueView::I64(_) => TYPE_I64,
        ValueView::Varint(_) => TYPE_VARINT,
        ValueView::Float(_) => TYPE_FLOAT,
        ValueView::Double(_) => TYPE_DOUBLE,
        ValueView::Str(_) => TYPE_STR,
        ValueView::Raw(_) => TYPE_RAW,
        ValueView::Arr(_) => TYPE_ARR,
        ValueView::Dict(_) => TYPE_MAP,
    }
}

/// The tag byte a value is dispatched on.
pub fn get_type_by_value(value: &Value) -> (t: u8)
    ensures
        t == spec_type_of(value@),
{
    match value {
        Value::Nil => TYPE_NIL,
        Value::Bool(_) => TYPE_BOOL,
        Value::U8(_) => TYPE_U8,
        Value::I8(_) => TYPE_I8,
        Value::U16(_) => TYPE_U16,
        Value::I16(_) => TYPE_I16,
        Value::U32(_) => TYPE_U32,
        Value::I32(_) => TYPE_I32,
        Value::U64(_) => TYPE_U64,
        Value::I64(_) => TYPE_I64,
        Value::Varint(_) => TYPE_VARINT,
        Value::Float(_) => TYPE_FLOAT,
        Value::Double(_) => TYPE_DOUBLE,
        Value::Str(_) => TYPE_STR,
        Value::Raw(_) => TYPE_RAW,
        Value::Arr(_) => TYPE_ARR,
        Value::Dict(_) => TYPE_MAP,
    }
}

/// An enum of all error kinds.
#[derive(PartialEq, Eq, Copy, Clone, Debug, Structural)]
pub enum ErrorKind {
    /// A read asked for more bytes than are left.
    NoLeftSpaceError,
    /// An index ran past the end of the string table.
    BufferOverMaxError,
    /// A tag byte matched no known type.
    TypeNotMatchError,
    /// The bytes cannot be parsed as the expected shape.
    ParseError,
    /// A required piece of data is absent.
    MissingError,
    /// String payloads must be valid UTF-8.
    StringFormatError,
    /// A failure raised by the transport, not by this library.
    IoError,
    /// A contract violation reported by the peer or the framing layer.
    ExtensionError,
}

#[derive(Debug)]
enum ErrorRepr {
    WithDescription(ErrorKind, &'static str),
    WithDescriptionAndDetail(ErrorKind, &'static str, String),
    ExtensionError(String, String),
    IoError,
}

/// A failure in encoding or decoding, carrying its kind and a description.
#[derive(Debug)]
pub struct RpError {
    repr: ErrorRepr,
}

/// Library generic result type.
pub type RpResult<T> = Result<T, RpError>;

impl RpError {
    /// The kind of the error.
    pub closed spec fn spec_kind(&self) -> ErrorKind {
        match self.repr {
            ErrorRepr::WithDescription(kind, _) => kind,
            ErrorRepr::WithDescriptionAndDetail(kind, _, _) => kind,
            ErrorRepr::ExtensionError(_, _) => ErrorKind::ExtensionError,
            ErrorRepr::IoError => ErrorKind::IoError,
        }
    }

    /// The extension error code, if this is an extension error.
    pub closed spec fn spec_extension_code(&self) -> Option<Seq<char>> {
        match self.repr {
            ErrorRepr::ExtensionError(ref code, _) => Some(code@),
            _ => None,
        }
    }

    /// Builds an error of the given kind with a static description.
    pub fn with_description(kind: ErrorKind, desc: &'static str) -> (r: RpError)
        ensures
            r.spec_kind() == kind,
            r.spec_extension_code() is None,
    {
        RpError { repr: ErrorRepr::WithDescription(kind, desc) }
    }

    /// Returns the kind of the error.
    pub fn kind(&self) -> (r: ErrorKind)
        ensures
            r == self.spec_kind(),
    {
        match self.repr {
            ErrorRepr::WithDescription(kind, _) => kind,
            ErrorRepr::WithDescriptionAndDetail(kind, _, _) => kind,
            ErrorRepr::ExtensionError(_, _) => ErrorKind::ExtensionError,
            ErrorRepr::IoError => ErrorKind::IoError,
        }
    }

    /// Returns the name of the error category for display purposes.
    pub fn category(&self) -> (r: &'static str)
        ensures
            r@ == spec_category(self.spec_kind()),
    {
        match self.kind() {
            ErrorKind::NoLeftSpaceError => "no left space error",
            ErrorKind::BufferOverMaxError => "buffer over max error",
            ErrorKind::TypeNotMatchError => "type not match error",
            ErrorKind::ParseError => "parse error",
            ErrorKind::MissingError => "missing error",
            ErrorKind::StringFormatError => "string format error",
            ErrorKind::IoError => "I/O error",
            ErrorKind::ExtensionError => "extension error",
        }
    }

    /// Indicates that this failure is an IO failure.
    pub fn is_io_error(&self) -> (r: bool)
        ensures
            r == (self.spec_kind() == ErrorKind::IoError),
    {
        match self.kind() {
            ErrorKind::IoError => true,
            _ => false,
        }
    }

    /// Returns the extension error code.
    pub fn extension_error_code(&self) -> (r: Option<&str>)
        ensures
            match r {
                Some(code) => self.spec_extension_code() == Some(code@),
                None => self.spec_extension_code() is None,
            },
    {
        match &self.repr {
            ErrorRepr::ExtensionError(code, _) => Some(code.as_str()),
            _ => None,
        }
    }

    /// Returns the extension error detail.
    pub fn extension_error_detail(&self) -> (r: Option<&str>) {
        match &self.repr {
            ErrorRepr::ExtensionError(_, detail) => Some(detail.as_str()),
            ErrorRepr::WithDescriptionAndDetail(_, _, detail) => Some(detail.as_str()),
            _ => None,
        }
    }
}

/// The display name of each error kind.
pub open spec fn spec_category(kind: ErrorKind) -> Seq<char> {
    match kind {
        ErrorKind::NoLeftSpaceError => "no left space error"@,
        ErrorKind::BufferOverMaxError => "buffer over max error"@,
        ErrorKind::TypeNotMatchError => "type not match error"@,
        ErrorKind::ParseError => "parse error"@,
        ErrorKind::MissingError => "missing error"@,
        ErrorKind::StringFormatError => "string format error"@,
        ErrorKind::IoError => "I/O error"@,
        ErrorKind::ExtensionError => "extension error"@,
    }
}

/// Builds an extension error from a code and an optional detail.
pub fn make_extension_error(code: &str, detail: Option<&str>) -> (r: RpError)
    ensures
        r.spec_kind() == ErrorKind::ExtensionError,
        r.spec_extension_code() == Some(code@),
{
    RpError {
        repr: ErrorRepr::ExtensionError(
            code.to_owned(),
            match detail {
                Some(x) => x.to_owned(),
                None => "Unknown extension error encountered".to_owned(),
            },
        ),
    }
}


/// The mathematical values that a sequence of `Value`s stands for.
pub open spec fn views_of(vs: Seq<Value>) -> Seq<ValueView> {
    Seq::new(vs.len(), |i: int| value_view(vs[i]))
}


/// The mathematical pairs that a sequence of key/value `Value` pairs
/// stands for.
pub open spec fn pair_views_of(ps: Seq<(Value, Value)>) -> Seq<(ValueView, ValueView)> {
    Seq::new(ps.len(), |i: int| (value_view(ps[i].0), value_view(ps[i].1)))
}


pub const STR_TYPE_NIL: &'static str = "nil";

pub const STR_TYPE_BOOL: &'static str = "bool";

pub const STR_TYPE_U8: &'static str = "u8";

pub const STR_TYPE_I8: &'static str = "i8";

pub const STR_TYPE_U16: &'static str = "u16";

pub const STR_TYPE_I16: &'static str = "i16";

pub const STR_TYPE_U32: &'static str = "u32";

pub const STR_TYPE_I32: &'static str = "i32";

pub const STR_TYPE_U64: &'static str = "u64";

pub const STR_TYPE_I64: &'static str = "i64";

pub const STR_TYPE_VARINT: &'static str = "varint";

pub const STR_TYPE_FLOAT: &'static str = "float";

pub const STR_TYPE_DOUBLE: &'static str = "double";

pub const STR_TYPE_STR: &'static str = "str";

pub const STR_TYPE_STR_IDX: &'static str = "str_idx";

pub const STR_TYPE_RAW: &'static str = "raw";

pub const STR_TYPE_ARR: &'static str = "arr";

pub const STR_TYPE_MAP: &'static str = "map";

/// True exactly when the two strings hold the same characters.
fn str_eq(a: &str, b: &str) -> (r: bool)
    ensures
        r == (a@ == b@),
{
    let ab = a.as_bytes();
    let bb = b.as_bytes();
    proof {
        vstd::utf8::encode_utf8_decode_utf8(a@);
        vstd::utf8::encode_utf8_decode_utf8(b@);
    }
    if ab.len() != bb.len() {
        return false;
    }
    let n = ab.len();
    let mut i: usize = 0;
    while i < n
        invariant
            n == ab@.len() == bb@.len(),
            i <= n,
            ab@ == a.spec_bytes(),
            bb@ == b.spec_bytes(),
            forall|j: int| 0 <= j < i ==> ab@[j] == bb@[j],
        decreases n - i,
    {
        if ab[i] != bb[i] {
            proof {
                if a@ == b@ {
                    assert(a.spec_bytes() == b.spec_bytes());
                }
            }
            return false;
        }
        i += 1;
    }
    proof {
        assert(a.spec_bytes() =~= b.spec_bytes());
        vstd::utf8::encode_utf8_decode_utf8(a@);
        vstd::utf8::encode_utf8_decode_utf8(b@);
    }
    true
}

/// The tag a type name denotes; unknown names fall back to the nil tag.
pub open spec fn spec_type_by_name(name: Seq<char>) -> u8 {
    if name == STR_TYPE_NIL@ {
        TYPE_NIL
    } else if name == STR_TYPE_BOOL@ {
        TYPE_BOOL
    } else if name == STR_TYPE_U8@ {
        TYPE_U8
    } else if name == STR_TYPE_I8@ {
        TYPE_I8
    } else if name == STR_TYPE_U16@ {
        TYPE_U16
    } else if name == STR_TYPE_I16@ {
        TYPE_I16
    } else if name == STR_TYPE_U32@ {
        TYPE_U32
    } else if name == STR_TYPE_I32@ {
        TYPE_I32
    } else if name == STR_TYPE_U64@ {
        TYPE_U64
    } else if name == STR_TYPE_I64@ {
        TYPE_I64
    } else if name == STR_TYPE_VARINT@ {
        TYPE_VARINT
    } else if name == STR_TYPE_FLOAT@ {
        TYPE_FLOAT
    } else if name == STR_TYPE_DOUBLE@ {
        TYPE_DOUBLE
    } else if name == STR_TYPE_STR@ {
        TYPE_STR
    } else if name == STR_TYPE_STR_IDX@ {
        TYPE_STR_IDX
    } else if name == STR_TYPE_RAW@ {
        TYPE_RAW
    } else if name == STR_TYPE_ARR@ {
        TYPE_ARR
    } else if name == STR_TYPE_MAP@ {
        TYPE_MAP
    } else {
        TYPE_NIL
    }
}

/// Looks a tag up by its type name; unknown names give the nil tag.
pub fn get_type_by_name(name: &str) -> (t: u8)
    ensures
        t == spec_type_by_name(name@),
{
    if str_eq(name, STR_TYPE_NIL) {
        TYPE_NIL
    } else if str_eq(name, STR_TYPE_BOOL) {
        TYPE_BOOL
    } else if str_eq(name, STR_TYPE_U8) {
        TYPE_U8
    } else if str_eq(name, STR_TYPE_I8) {
        TYPE_I8
    } else if str_eq(name, STR_TYPE_U16) {
        TYPE_U16
    } else if str_eq(name, STR_TYPE_I16) {
        TYPE_I16
    } else if str_eq(name, STR_TYPE_U32) {
        TYPE_U32
    } else if str_eq(name, STR_TYPE_I32) {
        TYPE_I32
    } else if str_eq(name, STR_TYPE_U64) {
        TYPE_U64
    } else if str_eq(name, STR_TYPE_I64) {
        TYPE_I64
    } else if str_eq(name, STR_TYPE_VARINT) {
        TYPE_VARINT
    } else if str_eq(name, STR_TYPE_FLOAT) {
        TYPE_FLOAT
    } else if str_eq(name, STR_TYPE_DOUBLE) {
        TYPE_DOUBLE
    } else if str_eq(name, STR_TYPE_STR) {
        TYPE_STR
    } else if str_eq(name, STR_TYPE_STR_IDX) {
        TYPE_STR_IDX
    } else if str_eq(name, STR_TYPE_RAW) {
        TYPE_RAW
    } else if str_eq(name, STR_TYPE_ARR) {
        TYPE_ARR
    } else if str_eq(name, STR_TYPE_MAP) {
        TYPE_MAP
    } else {
        TYPE_NIL
    }
}

/// The type name a tag denotes; unknown tags fall back to the nil name.
pub open spec fn spec_name_by_type(index: u8) -> Seq<char> {
    if index == TYPE_NIL {
        STR_TYPE_NIL@
    } else if index == TYPE_BOOL {
        STR_TYPE_BOOL@
    } else if index == TYPE_U8 {
        STR_TYPE_U8@
    } else if index == TYPE_I8 {
        STR_TYPE_I8@
    } else if index == TYPE_U16 {
        STR_TYPE_U16@
    } else if index == TYPE_I16 {
        STR_TYPE_I16@
    } else if index == TYPE_U32 {
        STR_TYPE_U32@
    } else if index == TYPE_I32 {
        STR_TYPE_I32@
    } else if index == TYPE_U64 {
        STR_TYPE_U64@
    } else if index == TYPE_I64 {
        STR_TYPE_I64@
    } else if index == TYPE_VARINT {
        STR_TYPE_VARINT@
    } else if index == TYPE_FLOAT {
        STR_TYPE_FLOAT@
    } else if index == TYPE_DOUBLE {
        STR_TYPE_DOUBLE@
    } else if index == TYPE_STR {
        STR_TYPE_STR@
    } else if index == TYPE_STR_IDX {
        STR_TYPE_STR_IDX@
    } else if index == TYPE_RAW {
        STR_TYPE_RAW@
    } else if index == TYPE_ARR {
        STR_TYPE_ARR@
    } else if index == TYPE_MAP {
        STR_TYPE_MAP@
    } else {
        STR_TYPE_NIL@
    }
}

/// Looks a type name up by its tag; unknown tags give the nil name.
pub fn get_name_by_type(index: u8) -> (r: &'static str)
    ensures
        r@ == spec_name_by_type(index),
{
    if index == TYPE_NIL {
        STR_TYPE_NIL
    } else if index == TYPE_BOOL {
        STR_TYPE_BOOL
    } else if index == TYPE_U8 {
        STR_TYPE_U8
    } else if index == TYPE_I8 {
        STR_TYPE_I8
    } else if index == TYPE_U16 {
        STR_TYPE_U16
    } else if index == TYPE_I16 {
        STR_TYPE_I16
    } else if index == TYPE_U32 {
        STR_TYPE_U32
    } else if index == TYPE_I32 {
        STR_TYPE_I32
    } else if index == TYPE_U64 {
        STR_TYPE_U64
    } else if index == TYPE_I64 {
        STR_TYPE_I64
    } else if index == TYPE_VARINT {
        STR_TYPE_VARINT
    } else if index == TYPE_FLOAT {
        STR_TYPE_FLOAT
    } else if index == TYPE_DOUBLE {
        STR_TYPE_DOUBLE
    } else if index == TYPE_STR {
        STR_TYPE_STR
    } else if index == TYPE_STR_IDX {
        STR_TYPE_STR_IDX
    } else if index == TYPE_RAW {
        STR_TYPE_RAW
    } else if index == TYPE_ARR {
        STR_TYPE_ARR
    } else if index == TYPE_MAP {
        STR_TYPE_MAP
    } else {
        STR_TYPE_NIL
    }
}
} // verus!
