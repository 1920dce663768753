//! Decoded field values.
use vstd::prelude::*;

verus! {

/// A floating-point field, held as the exact integer that the log stores.
#[derive(Debug, Clone, Copy, PartialEq, Eq)]
pub enum FloatValue {
    /// A single-precision `f` field: its IEEE-754 bit pattern.
    Single(u32),
    /// A double-precision `d` field: its IEEE-754 bit pattern.
    Double(u64),
    /// A scaled `c`, `C`, `e` or `E` field: the stored integer, which is the value times 100.
    Hundredths(i64),
}

/// A decoded field value from a DataFlash log entry.
#[derive(Debug, Clone, PartialEq)]
pub enum FieldValue {
    /// Integer values (b, B, h, H, i, I, q, M, L)
    Int(i64),
    /// Unsigned 64-bit integer (Q), kept apart because it can exceed the `i64` range
    Uint(u64),
    /// Floating-point values (f, d) and pre-scaled values (c, C, e, E)
    Float(FloatValue),
    /// String values (n, N, Z), cut at the first NUL byte, trailing whitespace trimmed
    String(String),
    /// Array of i16 values (a)
    Array(Vec<i16>),
}

/// What a field value is, in mathematical terms.
pub enum ValueModel {
    Int(int),
    Uint(nat),
    Float(FloatValue),
    Text(Seq<char>),
    Array(Seq<i16>),
}

impl View for FieldValue {
    type V = ValueModel;

    open spec fn view(&self) -> ValueModel {
        match self {
            FieldValue::Int(v) => ValueModel::Int(*v as int),
            FieldValue::Uint(v) => ValueModel::Uint(*v as nat),
            FieldValue::Float(f) => ValueModel::Float(*f),
            FieldValue::String(s) => ValueModel::Text(s@),
            FieldValue::Array(a) => ValueModel::Array(a@),
        }
    }
}

/// The integer of an `Int` value, if it is one.
pub open spec fn model_as_int(v: ValueModel) -> Option<int> {
    match v {
        ValueModel::Int(i) => Some(i),
        _ => None,
    }
}

/// The integer of a `Uint` value, if it is one.
pub open spec fn model_as_uint(v: ValueModel) -> Option<nat> {
    match v {
        ValueModel::Uint(u) => Some(u),
        _ => None,
    }
}

/// The text of a `String` value, if it is one.
pub open spec fn model_as_text(v: ValueModel) -> Option<Seq<char>> {
    match v {
        ValueModel::Text(t) => Some(t),
        _ => None,
    }
}

impl FieldValue {
    /// Convert to i64. Returns None for non-integer variants.
    pub fn as_i64(&self) -> (r: Option<i64>)
        ensures
            match r {
                Some(v) => model_as_int(self@) == Some(v as int),
                None => model_as_int(self@) is None,
            },
            r is Some <==> self is Int,
            *self matches FieldValue::Int(v) ==> r == Some(v),
    {
        match self {
            FieldValue::Int(v) => Some(*v),
            _ => None,
        }
    }

    /// Convert to u64. Returns None for non-Uint variants.
    pub fn as_u64(&self) -> (r: Option<u64>)
        ensures
            match r {
                Some(v) => model_as_uint(self@) == Some(v as nat),
                None => model_as_uint(self@) is None,
            },
            r is Some <==> self is Uint,
            *self matches FieldValue::Uint(v) ==> r == Some(v),
    {
        match self {
            FieldValue::Uint(v) => Some(*v),
            _ => None,
        }
    }

    /// Get string reference. Returns None for non-string variants.
    pub fn as_str(&self) -> (r: Option<&str>)
        ensures
            match r {
                Some(s) => model_as_text(self@) == Some(s@),
                None => model_as_text(self@) is None,
            },
            r is Some <==> self is String,
            *self matches FieldValue::String(t) ==> r is Some && r->0@ == t@,
    {
        match self {
            FieldValue::String(s) => Some(s.as_str()),
            _ => None,
        }
    }

    /// A copy of this value.
    pub(crate) fn duplicate(&self) -> (r: FieldValue)
        ensures
            r@ == self@,
    {
        match self {
            FieldValue::Int(v) => FieldValue::Int(*v),
            FieldValue::Uint(v) => FieldValue::Uint(*v),
            FieldValue::Float(f) => FieldValue::Float(*f),
            FieldValue::String(s) => FieldValue::String(s.clone()),
            FieldValue::Array(a) => {
                let c = a.clone();
                assert(c@ =~= a@);
                FieldValue::Array(c)
            },
        }
    }
}

} // verus!
