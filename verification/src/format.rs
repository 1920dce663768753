//! Message schemas, as FMT messages define them, and the decoding of the
//! fields of a message by its schema.
use vstd::prelude::*;

use crate::endian::{byte_pow, le_bytes, le_int, le_uint, lemma_byte_pow_values, lemma_le_uint_bound, read_le, read_le_signed};
use crate::error::BinlogError;
pub use crate::text::decode_string;
use crate::text::{
    trim_end,
    lemma_pad_labels_len, pad_label_list, pad_labels, padded_text,
    split_at_commas, split_commas, texts,
};
use crate::value::{FieldValue, FloatValue, ValueModel};

verus! {

/// Schema definition for a DataFlash message type, parsed from a FMT message.
#[derive(Debug, Clone)]
pub struct MessageFormat {
    /// Message type ID (0–255)
    pub msg_type: u8,
    /// Total message length in bytes (including 3-byte header)
    pub msg_len: u8,
    /// Message name (e.g. "ATT", "GPS", "IMU")
    pub name: String,
    /// Raw format string (e.g. "QccccCCCC")
    pub format: String,
    /// Field labels in order (e.g. ["TimeUS", "Roll", "Pitch", ...]).
    pub labels: Vec<String>,
}

/// What a message format is, in mathematical terms.
pub struct FormatModel {
    pub msg_type: u8,
    pub msg_len: u8,
    pub name: Seq<char>,
    pub format: Seq<char>,
    pub labels: Seq<Seq<char>>,
}

impl View for MessageFormat {
    type V = FormatModel;

    open spec fn view(&self) -> FormatModel {
        FormatModel {
            msg_type: self.msg_type,
            msg_len: self.msg_len,
            name: self.name@,
            format: self.format@,
            labels: texts(self.labels@),
        }
    }
}

/// The byte size of a field of type `c`, or `None` if `c` names no field type.
pub open spec fn field_width(c: char) -> Option<nat> {
    if c == 'b' || c == 'B' || c == 'M' {
        Some(1)
    } else if c == 'h' || c == 'H' || c == 'c' || c == 'C' {
        Some(2)
    } else if c == 'i' || c == 'I' || c == 'e' || c == 'E' || c == 'f' || c == 'L' || c == 'n' {
        Some(4)
    } else if c == 'q' || c == 'Q' || c == 'd' {
        Some(8)
    } else if c == 'N' {
        Some(16)
    } else if c == 'a' || c == 'Z' {
        Some(64)
    } else {
        None
    }
}

/// The sum of the field sizes of `fmt`, where characters that name no field type count 0.
pub open spec fn payload_width(fmt: Seq<char>) -> nat
    decreases fmt.len(),
{
    if fmt.len() == 0 {
        0
    } else {
        let w = match field_width(fmt[0]) {
            Some(w) => w,
            None => 0,
        };
        w + payload_width(fmt.drop_first())
    }
}

/// The fewest bytes that the decoding of a field of type `c` reads without checking.
pub open spec fn unchecked_width(c: char) -> nat {
    if c == 'b' || c == 'B' || c == 'M' {
        1
    } else if c == 'h' || c == 'H' || c == 'c' || c == 'C' {
        2
    } else {
        0
    }
}

/// The signed value of the first `n` bytes.
pub open spec fn int_at(b: Seq<u8>, n: int) -> int {
    le_int(b.take(n))
}

/// The unsigned value of the first `n` bytes.
pub open spec fn uint_at(b: Seq<u8>, n: int) -> nat {
    le_uint(b.take(n))
}

/// The value of a field of type `c` whose bytes start `b`, or `None` where
/// the bytes are too few or `c` names no field type.
pub open spec fn field_value(c: char, b: Seq<u8>) -> Option<ValueModel> {
    if c == 'b' {
        Some(ValueModel::Int(int_at(b, 1)))
    } else if c == 'B' || c == 'M' {
        Some(ValueModel::Int(uint_at(b, 1) as int))
    } else if c == 'h' {
        Some(ValueModel::Int(int_at(b, 2)))
    } else if c == 'H' {
        Some(ValueModel::Int(uint_at(b, 2) as int))
    } else if c == 'c' {
        Some(ValueModel::Float(FloatValue::Hundredths(int_at(b, 2) as i64)))
    } else if c == 'C' {
        Some(ValueModel::Float(FloatValue::Hundredths(uint_at(b, 2) as i64)))
    } else if c == 'n' || c == 'N' || c == 'Z' {
        Some(ValueModel::Text(padded_text(b)))
    } else if c == 'a' {
        let k = if b.len() / 2 < 32 {
            b.len() / 2
        } else {
            32
        };
        Some(ValueModel::Array(Seq::new(k, |i: int| le_int(b.subrange(2 * i, 2 * i + 2)) as i16)))
    } else if c == 'i' || c == 'L' || c == 'I' || c == 'f' || c == 'e' || c == 'E' {
        if b.len() < 4 {
            None
        } else if c == 'I' {
            Some(ValueModel::Int(uint_at(b, 4) as int))
        } else if c == 'f' {
            Some(ValueModel::Float(FloatValue::Single(uint_at(b, 4) as u32)))
        } else if c == 'e' {
            Some(ValueModel::Float(FloatValue::Hundredths(int_at(b, 4) as i64)))
        } else if c == 'E' {
            Some(ValueModel::Float(FloatValue::Hundredths(uint_at(b, 4) as i64)))
        } else {
            Some(ValueModel::Int(int_at(b, 4)))
        }
    } else if c == 'q' || c == 'Q' || c == 'd' {
        if b.len() < 8 {
            None
        } else if c == 'q' {
            Some(ValueModel::Int(int_at(b, 8)))
        } else if c == 'Q' {
            Some(ValueModel::Uint(uint_at(b, 8)))
        } else {
            Some(ValueModel::Float(FloatValue::Double(uint_at(b, 8) as u64)))
        }
    } else {
        None
    }
}

/// Why the fields of a payload cannot be decoded.
pub enum DecodeFailure {
    /// The format holds a character that names no field type.
    BadChar(char),
    /// The payload ends before the fields do.
    Short,
}

/// The values of the fields that `fmt` describes, read in order from the start of `p`.
pub open spec fn decode_all(fmt: Seq<char>, p: Seq<u8>) -> Result<Seq<ValueModel>, DecodeFailure>
    decreases fmt.len(),
{
    if fmt.len() == 0 {
        Ok(Seq::empty())
    } else {
        let c = fmt[0];
        match field_width(c) {
            None => Err(DecodeFailure::BadChar(c)),
            Some(w) => if w > p.len() {
                Err(DecodeFailure::Short)
            } else {
                match decode_all(fmt.drop_first(), p.skip(w as int)) {
                    Ok(rest) => Ok(seq![field_value(c, p.take(w as int)).unwrap()] + rest),
                    Err(e) => Err(e),
                }
            },
        }
    }
}

/// `r` with `pre` put before its values.
pub open spec fn prepend(pre: Seq<ValueModel>, r: Result<Seq<ValueModel>, DecodeFailure>) -> Result<Seq<ValueModel>, DecodeFailure> {
    match r {
        Ok(rest) => Ok(pre + rest),
        Err(e) => Err(e),
    }
}

/// The models of a list of values.
pub open spec fn models(v: Seq<FieldValue>) -> Seq<ValueModel> {
    v.map_values(|x: FieldValue| x@)
}

/// Whether a label names a time field.
pub open spec fn is_time_label(l: Seq<char>) -> bool {
    l == seq!['T', 'i', 'm', 'e', 'M', 'S'] || l == seq!['T', 'i', 'm', 'e', 'U', 'S']
}

/// The timestamp, in microseconds, that the payload `p` of a message of format `f` carries:
/// the first 8 bytes where the format starts with `Q`, the first 4 bytes times 1000 where it
/// starts with `I` and the first label is `TimeMS` or `TimeUS`, and none otherwise.
pub open spec fn timestamp_of(f: FormatModel, p: Seq<u8>) -> Option<nat> {
    if f.format.len() > 0 && f.format[0] == 'Q' && p.len() >= 8 {
        Some(uint_at(p, 8))
    } else if f.format.len() > 0 && f.format[0] == 'I' && p.len() >= 4 && f.labels.len() > 0
        && is_time_label(f.labels[0]) {
        Some(uint_at(p, 4) * 1000)
    } else {
        None
    }
}

/// The format that the payload `p` of a FMT message defines.
pub open spec fn format_of_payload(p: Seq<u8>) -> FormatModel {
    let format = padded_text(p.subrange(6, 22));
    FormatModel {
        msg_type: p[0],
        msg_len: p[1],
        name: padded_text(p.subrange(2, 6)),
        format: format,
        labels: pad_labels(split_commas(padded_text(p.subrange(22, 86))), format.len()),
    }
}

/// Return the byte size of a single format character.
pub fn field_size(c: char) -> (r: Result<usize, BinlogError>)
    ensures
        match r {
            Ok(n) => field_width(c) == Some(n as nat),
            Err(e) => field_width(c) is None && (e matches BinlogError::InvalidFormat(x) && x == c),
        },
{
    if c == 'b' || c == 'B' || c == 'M' {
        Ok(1)
    } else if c == 'h' || c == 'H' || c == 'c' || c == 'C' {
        Ok(2)
    } else if c == 'i' || c == 'I' || c == 'e' || c == 'E' || c == 'f' || c == 'L' || c == 'n' {
        Ok(4)
    } else if c == 'q' || c == 'Q' || c == 'd' {
        Ok(8)
    } else if c == 'N' {
        Ok(16)
    } else if c == 'a' || c == 'Z' {
        Ok(64)
    } else {
        Err(BinlogError::InvalidFormat(c))
    }
}

/// Decodes the `i16` array of an `a` field: at most 32 values, two bytes each.
fn decode_array(bytes: &[u8]) -> (r: Vec<i16>)
    ensures
        field_value('a', bytes@) == Some(ValueModel::Array(r@)),
{
    let k: usize = if bytes.len() / 2 < 32 {
        bytes.len() / 2
    } else {
        32
    };
    let mut out: Vec<i16> = Vec::new();
    let mut i: usize = 0;
    while i < k
        invariant
            i <= k,
            k <= bytes@.len() / 2,
            k <= 32,
            out@.len() == i,
            forall|j: int|
                0 <= j < i ==> out@[j] == le_int(bytes@.subrange(2 * j, 2 * j + 2)) as i16,
        decreases k - i,
    {
        let v = read_le_signed(bytes, 2 * i, 2);
        proof {
            lemma_byte_pow_values();
            lemma_le_uint_bound(bytes@.subrange(2 * i as int, 2 * i + 2));
        }
        out.push(v as i16);
        i = i + 1;
    }
    let ghost want = Seq::new(k as nat, |j: int| le_int(bytes@.subrange(2 * j, 2 * j + 2)) as i16);
    assert(out@ =~= want);
    out
}

/// Decode a single field from its raw bytes given the format character.
pub fn decode_field(c: char, bytes: &[u8]) -> (r: Result<FieldValue, BinlogError>)
    requires
        bytes@.len() >= unchecked_width(c),
    ensures
        match r {
            Ok(v) => field_value(c, bytes@) == Some(v@),
            Err(e) => {
                &&& field_value(c, bytes@) is None
                &&& field_width(c) is Some ==> e is PayloadTooShort
                &&& field_width(c) is None ==> (e matches BinlogError::InvalidFormat(x) && x == c)
            },
        },
{
    proof {
        lemma_byte_pow_values();
        lemma_le_uint_bound(bytes@.take(1));
        lemma_le_uint_bound(bytes@.take(2));
        lemma_le_uint_bound(bytes@.take(4));
        lemma_le_uint_bound(bytes@.take(8));
        assert(bytes@.subrange(0, 1) =~= bytes@.take(1));
        assert(bytes@.subrange(0, 2) =~= bytes@.take(2));
        assert(bytes@.subrange(0, 4) =~= bytes@.take(4));
        assert(bytes@.subrange(0, 8) =~= bytes@.take(8));
    }
    if c == 'b' {
        Ok(FieldValue::Int(read_le_signed(bytes, 0, 1)))
    } else if c == 'B' || c == 'M' {
        Ok(FieldValue::Int(read_le(bytes, 0, 1) as i64))
    } else if c == 'h' {
        Ok(FieldValue::Int(read_le_signed(bytes, 0, 2)))
    } else if c == 'H' {
        Ok(FieldValue::Int(read_le(bytes, 0, 2) as i64))
    } else if c == 'c' {
        Ok(FieldValue::Float(FloatValue::Hundredths(read_le_signed(bytes, 0, 2))))
    } else if c == 'C' {
        Ok(FieldValue::Float(FloatValue::Hundredths(read_le(bytes, 0, 2) as i64)))
    } else if c == 'n' || c == 'N' || c == 'Z' {
        Ok(FieldValue::String(decode_string(bytes)))
    } else if c == 'a' {
        Ok(FieldValue::Array(decode_array(bytes)))
    } else if c == 'i' || c == 'L' || c == 'I' || c == 'f' || c == 'e' || c == 'E' {
        if bytes.len() < 4 {
            Err(BinlogError::PayloadTooShort)
        } else if c == 'I' {
            Ok(FieldValue::Int(read_le(bytes, 0, 4) as i64))
        } else if c == 'f' {
            Ok(FieldValue::Float(FloatValue::Single(read_le(bytes, 0, 4) as u32)))
        } else if c == 'e' {
            Ok(FieldValue::Float(FloatValue::Hundredths(read_le_signed(bytes, 0, 4))))
        } else if c == 'E' {
            Ok(FieldValue::Float(FloatValue::Hundredths(read_le(bytes, 0, 4) as i64)))
        } else {
            Ok(FieldValue::Int(read_le_signed(bytes, 0, 4)))
        }
    } else if c == 'q' || c == 'Q' || c == 'd' {
        if bytes.len() < 8 {
            Err(BinlogError::PayloadTooShort)
        } else if c == 'q' {
            Ok(FieldValue::Int(read_le_signed(bytes, 0, 8)))
        } else if c == 'Q' {
            Ok(FieldValue::Uint(read_le(bytes, 0, 8)))
        } else {
            Ok(FieldValue::Float(FloatValue::Double(read_le(bytes, 0, 8))))
        }
    } else {
        Err(BinlogError::InvalidFormat(c))
    }
}

/// Whether `s` holds the text `lit`.
fn text_is(s: &String, lit: &str) -> (r: bool)
    ensures
        r == (s@ == lit@),
{
    let t = String::from_str(lit);
    *s == t
}

impl MessageFormat {
    /// A copy of this format.
    pub(crate) fn duplicate(&self) -> (r: MessageFormat)
        ensures
            r@ == self@,
    {
        let labels = self.labels.clone();
        assert(labels@ =~= self.labels@);
        MessageFormat {
            msg_type: self.msg_type,
            msg_len: self.msg_len,
            name: self.name.clone(),
            format: self.format.clone(),
            labels,
        }
    }

    /// Return the computed payload size from the format string (sum of field
    /// sizes), or `usize::MAX` where that sum does not fit.
    pub fn payload_size(&self) -> (r: usize)
        ensures
            r as nat == if payload_width(self.format@) <= usize::MAX {
                payload_width(self.format@)
            } else {
                usize::MAX as nat
            },
    {
        let fmt = self.format.as_str();
        let n = fmt.unicode_len();
        let mut total: usize = 0;
        let ghost mut exact: nat = 0;
        let mut i: usize = 0;
        assert(fmt@.skip(0) =~= fmt@);
        while i < n
            invariant
                i <= n,
                n == fmt@.len(),
                fmt@ == self.format@,
                payload_width(fmt@) == exact + payload_width(fmt@.skip(i as int)),
                total as nat == if exact <= usize::MAX {
                    exact
                } else {
                    usize::MAX as nat
                },
            decreases n - i,
        {
            let c = fmt.get_char(i);
            assert(fmt@.skip(i as int).drop_first() =~= fmt@.skip(i + 1));
            match field_size(c) {
                Ok(w) => {
                    proof {
                        exact = exact + w as nat;
                    }
                    if w > usize::MAX - total {
                        total = usize::MAX;
                    } else {
                        total = total + w;
                    }
                },
                Err(_) => {},
            }
            i = i + 1;
        }
        assert(fmt@.skip(n as int) =~= Seq::<char>::empty());
        total
    }

    /// Extract a microsecond timestamp from the raw payload bytes, if present.
    ///
    /// - Format char `'Q'`: first 8 bytes as `u64` (already microseconds).
    /// - Format char `'I'` with first label `"TimeMS"` or `"TimeUS"`: first 4 bytes
    ///   as `u32`, multiplied by 1000 to convert milliseconds to microseconds.
    /// - Otherwise returns `None`.
    pub fn extract_timestamp(&self, payload: &[u8]) -> (r: Option<u64>)
        ensures
            match r {
                Some(t) => timestamp_of(self@, payload@) == Some(t as nat),
                None => timestamp_of(self@, payload@) is None,
            },
    {
        proof {
            lemma_byte_pow_values();
            lemma_le_uint_bound(payload@.take(4));
            assert(payload@.subrange(0, 4) =~= payload@.take(4));
            assert(payload@.subrange(0, 8) =~= payload@.take(8));
        }
        let fmt = self.format.as_str();
        if fmt.unicode_len() == 0 {
            return None;
        }
        let first = fmt.get_char(0);
        if first == 'Q' && payload.len() >= 8 {
            Some(read_le(payload, 0, 8))
        } else if first == 'I' && payload.len() >= 4 {
            let is_time_label = self.labels.len() > 0 && (text_is(&self.labels[0], "TimeMS")
                || text_is(&self.labels[0], "TimeUS"));
            proof {
                reveal_strlit("TimeMS");
                reveal_strlit("TimeUS");
                if self.labels.len() > 0 {
                    assert(texts(self.labels@)[0] == self.labels@[0]@);
                }
                assert("TimeMS"@ =~= seq!['T', 'i', 'm', 'e', 'M', 'S']);
                assert("TimeUS"@ =~= seq!['T', 'i', 'm', 'e', 'U', 'S']);
            }
            if is_time_label {
                Some(read_le(payload, 0, 4) * 1000)
            } else {
                None
            }
        } else {
            None
        }
    }

    /// Decode a raw payload buffer into field values using this format's type string.
    #[verifier::rlimit(40)]
    pub fn decode_fields(&self, payload: &[u8]) -> (r: Result<Vec<FieldValue>, BinlogError>)
        ensures
            match r {
                Ok(v) => decode_all(self.format@, payload@) == Ok::<Seq<ValueModel>, DecodeFailure>(models(v@)),
                Err(e) => match decode_all(self.format@, payload@) {
                    Ok(_) => false,
                    Err(DecodeFailure::BadChar(c)) => e matches BinlogError::InvalidFormat(x) && x == c,
                    Err(DecodeFailure::Short) => e is UnexpectedEof,
                },
            },
    {
        let fmt = self.format.as_str();
        let n = fmt.unicode_len();
        let mut values: Vec<FieldValue> = Vec::new();
        let mut offset: usize = 0;
        let mut i: usize = 0;
        assert(fmt@.skip(0) =~= fmt@);
        assert(payload@.skip(0) =~= payload@);
        assert(models(values@) + Seq::<ValueModel>::empty() =~= Seq::<ValueModel>::empty());
        while i < n
            invariant
                i <= n,
                n == fmt@.len(),
                fmt@ == self.format@,
                offset <= payload@.len(),
                decode_all(fmt@, payload@) == prepend(
                    models(values@),
                    decode_all(fmt@.skip(i as int), payload@.skip(offset as int)),
                ),
            decreases n - i,
        {
            let c = fmt.get_char(i);
            let ghost rest_fmt = fmt@.skip(i as int);
            let ghost rest_p = payload@.skip(offset as int);
            assert(rest_fmt.drop_first() =~= fmt@.skip(i + 1));
            assert(rest_fmt[0] == c);
            let size = match field_size(c) {
                Ok(w) => w,
                Err(e) => {
                    return Err(e);
                },
            };
            if size > payload.len() - offset {
                return Err(BinlogError::UnexpectedEof);
            }
            let bytes = vstd::slice::slice_subrange(payload, offset, offset + size);
            assert(bytes@ =~= rest_p.take(size as int));
            assert(rest_p.skip(size as int) =~= payload@.skip(offset + size));
            let v = match decode_field(c, bytes) {
                Ok(v) => v,
                Err(e) => {
                    return Err(e);
                },
            };
            let ghost before = models(values@);
            values.push(v);
            assert(models(values@) =~= before.push(v@));
            proof {
                match decode_all(fmt@.skip(i + 1), payload@.skip(offset + size)) {
                    Ok(tail) => {
                        assert(before + (seq![v@] + tail) =~= before.push(v@) + tail);
                    },
                    Err(_) => {},
                }
            }
            offset = offset + size;
            i = i + 1;
        }
        assert(fmt@.skip(n as int) =~= Seq::<char>::empty());
        assert(models(values@) + Seq::<ValueModel>::empty() =~= models(values@));
        Ok(values)
    }
}

/// Parse an 86-byte FMT payload into a MessageFormat.
pub fn parse_fmt_payload(payload: &[u8]) -> (r: Result<MessageFormat, BinlogError>)
    ensures
        match r {
            Ok(f) => payload@.len() >= 86 && f@ == format_of_payload(payload@),
            Err(e) => payload@.len() < 86 && e is UnexpectedEof,
        },
{
    if payload.len() < 86 {
        return Err(BinlogError::UnexpectedEof);
    }
    let msg_type = payload[0];
    let msg_len = payload[1];
    let name = decode_string(vstd::slice::slice_subrange(payload, 2, 6));
    let format = decode_string(vstd::slice::slice_subrange(payload, 6, 22));
    let labels_raw = decode_string(vstd::slice::slice_subrange(payload, 22, 86));
    let mut labels = split_at_commas(labels_raw.as_str());
    let format_len = format.as_str().unicode_len();
    pad_label_list(&mut labels, format_len);
    let f = MessageFormat { msg_type, msg_len, name, format, labels };
    Ok(f)
}

/// A successful decoding yields one value per format character.
pub proof fn lemma_decode_all_len(fmt: Seq<char>, p: Seq<u8>)
    ensures
        decode_all(fmt, p) matches Ok(vs) ==> vs.len() == fmt.len(),
    decreases fmt.len(),
{
    if fmt.len() > 0 {
        if let Some(w) = field_width(fmt[0]) {
            if w <= p.len() {
                lemma_decode_all_len(fmt.drop_first(), p.skip(w as int));
            }
        }
    }
}

/// Whether every character of `fmt` names a field type.
pub open spec fn all_valid(fmt: Seq<char>) -> bool {
    forall|i: int| 0 <= i < fmt.len() ==> #[trigger] field_width(fmt[i]) is Some
}

/// For a format whose every character names a field type, decoding a payload
/// succeeds exactly when the payload holds at least `payload_size` bytes, and
/// then gives one value per field.
pub proof fn law_decode_succeeds_iff_payload_fits(fmt: Seq<char>, p: Seq<u8>)
    requires
        all_valid(fmt),
    ensures
        (decode_all(fmt, p) is Ok) == (p.len() >= payload_width(fmt)),
        decode_all(fmt, p) matches Ok(vs) ==> vs.len() == fmt.len(),
    decreases fmt.len(),
{
    lemma_decode_all_len(fmt, p);
    if fmt.len() > 0 {
        let c = fmt[0];
        assert(field_width(fmt[0]) is Some);
        let w = field_width(c).unwrap();
        assert forall|i: int| 0 <= i < fmt.drop_first().len() implies #[trigger] field_width(
            fmt.drop_first()[i],
        ) is Some by {
            assert(fmt.drop_first()[i] == fmt[i + 1]);
        }
        law_decode_succeeds_iff_payload_fits(fmt.drop_first(), p.skip(w as int));
    }
}

/// The timestamp that the first decoded value gives: a `Q` field as it is,
/// an `I` field labelled `TimeMS` or `TimeUS` times 1000.
pub open spec fn timestamp_from_values(f: FormatModel, vs: Seq<ValueModel>) -> Option<nat> {
    if f.format.len() > 0 && f.format[0] == 'Q' && vs.len() > 0 {
        match vs[0] {
            ValueModel::Uint(u) => Some(u),
            _ => None,
        }
    } else if f.format.len() > 0 && f.format[0] == 'I' && vs.len() > 0 && f.labels.len() > 0
        && is_time_label(f.labels[0]) {
        match vs[0] {
            ValueModel::Int(i) => if i >= 0 {
                Some((i * 1000) as nat)
            } else {
                None
            },
            _ => None,
        }
    } else {
        None
    }
}

/// The timestamp read from a payload's bytes is the one that its first
/// decoded field gives.
pub proof fn law_timestamp_matches_first_field(f: FormatModel, p: Seq<u8>)
    requires
        decode_all(f.format, p) is Ok,
    ensures
        timestamp_of(f, p) == timestamp_from_values(f, decode_all(f.format, p)->Ok_0),
{
    if f.format.len() > 0 {
        let c = f.format[0];
        if c == 'Q' {
            assert(p.take(8).take(8) =~= p.take(8));
        } else if c == 'I' {
            assert(p.take(4).take(4) =~= p.take(4));
        }
    }
}

/// A format parsed from a FMT payload has a label for every field, and keeps
/// the labels that the payload lists, in order, before the synthetic ones.
pub proof fn law_parsed_format_labels_every_field(p: Seq<u8>)
    requires
        p.len() >= 86,
    ensures
        format_of_payload(p).labels.len() >= format_of_payload(p).format.len(),
        format_of_payload(p).labels.take(split_commas(padded_text(p.subrange(22, 86))).len() as int)
            == split_commas(padded_text(p.subrange(22, 86))),
{
    let l = split_commas(padded_text(p.subrange(22, 86)));
    lemma_pad_labels_len(l, format_of_payload(p).format.len());
    crate::text::lemma_pad_labels_prefix(l, format_of_payload(p).format.len());
}

/// The payload width of two format strings one after the other is the sum
/// of their widths.
pub proof fn law_payload_width_additive(a: Seq<char>, b: Seq<char>)
    ensures
        payload_width(a + b) == payload_width(a) + payload_width(b),
    decreases a.len(),
{
    if a.len() == 0 {
        assert(a + b =~= b);
    } else {
        assert((a + b).drop_first() =~= a.drop_first() + b);
        assert((a + b)[0] == a[0]);
        law_payload_width_additive(a.drop_first(), b);
    }
}

/// Whether bytes `start .. start + size` of `p` hold the ASCII text `cs`
/// without NUL characters, padded with NUL bytes.
pub open spec fn holds_text(p: Seq<u8>, start: int, size: int, cs: Seq<char>) -> bool {
    &&& 0 <= start
    &&& start + size <= p.len()
    &&& cs.len() <= size
    &&& vstd::utf8::is_ascii_chars(cs)
    &&& forall|i: int| 0 <= i < cs.len() ==> cs[i] != '\0'
    &&& forall|i: int| 0 <= i < cs.len() ==> p[start + i] == #[trigger] cs[i] as u8
    &&& forall|i: int| #![trigger p[start + i]] cs.len() <= i < size ==> p[start + i] == 0
}

/// A field holding ASCII text padded with NULs reads back as that text,
/// without trailing whitespace.
pub proof fn lemma_field_holds_text(p: Seq<u8>, start: int, size: int, cs: Seq<char>)
    requires
        holds_text(p, start, size, cs),
    ensures
        padded_text(p.subrange(start, start + size)) == trim_end(cs),
{
    let pad = (size - cs.len()) as nat;
    crate::text::law_ascii_field_text(cs, pad);
    let e = vstd::utf8::encode_utf8(cs);
    let stored = e + crate::text::zeros(pad);
    assert forall|i: int| 0 <= i < size implies p.subrange(start, start + size)[i] == stored[i] by {
        if i < cs.len() {
            assert(e[i] == cs[i] as u8);
            assert(p[start + i] == cs[i] as u8);
        } else {
            assert(p[start + i] == 0);
        }
    }
    assert(p.subrange(start, start + size) =~= stored);
}

/// The layout of an FMT payload: byte 0 is the type it defines, byte 1 the
/// message length, bytes 2 to 5 the name, bytes 6 to 21 the format string and
/// bytes 22 to 85 the comma-separated labels, each text NUL-padded; the
/// format has a label for every field, the listed labels first.
pub proof fn law_fmt_payload_layout(
    p: Seq<u8>,
    name: Seq<char>,
    format: Seq<char>,
    labels: Seq<char>,
)
    requires
        p.len() >= 86,
        holds_text(p, 2, 4, name),
        holds_text(p, 6, 16, format),
        holds_text(p, 22, 64, labels),
    ensures
        format_of_payload(p).msg_type == p[0],
        format_of_payload(p).msg_len == p[1],
        format_of_payload(p).name == trim_end(name),
        format_of_payload(p).format == trim_end(format),
        format_of_payload(p).labels.len() >= trim_end(format).len(),
        format_of_payload(p).labels.take(split_commas(trim_end(labels)).len() as int)
            == split_commas(trim_end(labels)),
{
    lemma_field_holds_text(p, 2, 4, name);
    lemma_field_holds_text(p, 6, 16, format);
    lemma_field_holds_text(p, 22, 64, labels);
    law_parsed_format_labels_every_field(p);
}

/// The name of a format parsed from an FMT payload is the text of all four
/// name bytes: four ASCII characters other than NUL there give that name,
/// without trailing whitespace.
pub proof fn law_fmt_name_is_its_four_bytes(p: Seq<u8>, cs: Seq<char>)
    requires
        p.len() >= 86,
        cs.len() == 4,
        vstd::utf8::is_ascii_chars(cs),
        forall|i: int| 0 <= i < 4 ==> cs[i] != '\0',
        forall|i: int| 0 <= i < 4 ==> p[2 + i] == cs[i] as u8,
    ensures
        format_of_payload(p).name == trim_end(cs),
{
    lemma_field_holds_text(p, 2, 4, cs);
}

/// The offset of field `k` of `fmt` in a payload: the widths of the fields before it.
pub open spec fn field_offset(fmt: Seq<char>, k: int) -> nat {
    payload_width(fmt.take(k))
}

/// Each decoded value depends only on its own field's bytes: when decoding
/// succeeds, the payload holds all fields, and value `k` is what field `k`'s
/// type makes of the `field_width` bytes at its offset, the sum of the
/// widths before it.
pub proof fn law_decoded_values_come_from_their_own_bytes(fmt: Seq<char>, p: Seq<u8>)
    requires
        decode_all(fmt, p) is Ok,
    ensures
        all_valid(fmt),
        p.len() >= payload_width(fmt),
        decode_all(fmt, p)->Ok_0.len() == fmt.len(),
        forall|k: int|
            0 <= k < fmt.len() ==> {
                let o = field_offset(fmt, k) as int;
                let w = field_width(#[trigger] fmt[k]).unwrap() as int;
                &&& o + w <= p.len()
                &&& decode_all(fmt, p)->Ok_0[k] == field_value(fmt[k], p.subrange(o, o + w)).unwrap()
            },
    decreases fmt.len(),
{
    lemma_decode_all_len(fmt, p);
    if fmt.len() > 0 {
        let c = fmt[0];
        let w = field_width(c).unwrap();
        let rest_f = fmt.drop_first();
        let rest_p = p.skip(w as int);
        law_decoded_values_come_from_their_own_bytes(rest_f, rest_p);
        let vs = decode_all(fmt, p)->Ok_0;
        let rs = decode_all(rest_f, rest_p)->Ok_0;
        assert forall|i: int| 0 <= i < fmt.len() implies #[trigger] field_width(fmt[i]) is Some by {
            if i > 0 {
                assert(fmt[i] == rest_f[i - 1]);
            }
        }
        assert forall|k: int| 0 <= k < fmt.len() implies {
            let o = field_offset(fmt, k) as int;
            let w = field_width(#[trigger] fmt[k]).unwrap() as int;
            &&& o + w <= p.len()
            &&& vs[k] == field_value(fmt[k], p.subrange(o, o + w)).unwrap()
        } by {
            if k == 0 {
                assert(fmt.take(0) =~= Seq::<char>::empty());
                assert(p.subrange(0, w as int) =~= p.take(w as int));
            } else {
                assert(fmt[k] == rest_f[k - 1]);
                assert(fmt.take(k).drop_first() =~= rest_f.take(k - 1));
                assert(fmt.take(k)[0] == c);
                let o1 = field_offset(rest_f, k - 1) as int;
                let wk = field_width(rest_f[k - 1]).unwrap() as int;
                assert(field_offset(fmt, k) == w + o1);
                assert(rest_p.subrange(o1, o1 + wk) =~= p.subrange(w + o1, w + o1 + wk));
                assert(vs[k] == rs[k - 1]);
            }
        }
    }
}

/// Integer fields read back what was written: for every value that the
/// field's type holds, decoding the field from the little-endian bytes of
/// the value (its two's complement for the signed types `b`, `h`, `i`, `L`,
/// `q`) gives that value.
pub proof fn law_integer_fields_read_back(c: char, v: int)
    requires
        field_width(c) is Some,
        ({
            let n = field_width(c).unwrap();
            ||| (c == 'b' || c == 'h' || c == 'i' || c == 'L' || c == 'q') && -(byte_pow(n) as int)
                <= 2 * v < byte_pow(n)
            ||| (c == 'B' || c == 'M' || c == 'H' || c == 'I' || c == 'Q') && 0 <= v < byte_pow(n)
        }),
    ensures
        ({
            let n = field_width(c).unwrap();
            let b = le_bytes((if v < 0 { v + byte_pow(n) } else { v }) as nat, n);
            &&& b.len() == n
            &&& field_value(c, b) == if c == 'Q' {
                Some(ValueModel::Uint(v as nat))
            } else {
                Some(ValueModel::Int(v))
            }
        }),
{
    let n = field_width(c).unwrap();
    let u = (if v < 0 { v + byte_pow(n) } else { v }) as nat;
    let b = le_bytes(u, n);
    lemma_byte_pow_values();
    crate::endian::law_le_uint_reads_back(u, n);
    assert(b.take(n as int) =~= b);
    if c == 'b' || c == 'h' || c == 'i' || c == 'L' || c == 'q' {
        crate::endian::law_le_int_reads_back(v, n);
    }
}

/// A latitude or longitude (`L`, degrees times 10^7) is signed like an `i`
/// field: for every `i32` value, the field decodes from the value's four
/// little-endian bytes to the value itself.
pub proof fn law_lat_lon_fields_are_signed(v: i32)
    ensures
        ({
            let b = le_bytes((if v < 0 { v + 0x1_0000_0000 } else { v as int }) as nat, 4);
            &&& field_value('L', b) == Some(ValueModel::Int(v as int))
            &&& field_value('i', b) == Some(ValueModel::Int(v as int))
        }),
{
    lemma_byte_pow_values();
    law_integer_fields_read_back('L', v as int);
    law_integer_fields_read_back('i', v as int);
}

/// Scaled and floating-point fields keep the stored integer: for every value
/// that the field's type holds, decoding the field from the value's
/// little-endian bytes gives that value, as hundredths for `c`, `e`
/// (signed) and `C`, `E` (unsigned), and as the bit pattern for `f` and `d`.
pub proof fn law_stored_number_fields_read_back(c: char, v: int)
    requires
        c == 'c' || c == 'C' || c == 'e' || c == 'E' || c == 'f' || c == 'd',
        ({
            let n = field_width(c).unwrap();
            ||| (c == 'c' || c == 'e') && -(byte_pow(n) as int) <= 2 * v < byte_pow(n)
            ||| (c == 'C' || c == 'E' || c == 'f' || c == 'd') && 0 <= v < byte_pow(n)
        }),
    ensures
        ({
            let n = field_width(c).unwrap();
            let b = le_bytes((if v < 0 { v + byte_pow(n) } else { v }) as nat, n);
            &&& b.len() == n
            &&& field_value(c, b) == Some(ValueModel::Float(
                if c == 'f' {
                    FloatValue::Single(v as u32)
                } else if c == 'd' {
                    FloatValue::Double(v as u64)
                } else {
                    FloatValue::Hundredths(v as i64)
                },
            ))
        }),
{
    let n = field_width(c).unwrap();
    let u = (if v < 0 { v + byte_pow(n) } else { v }) as nat;
    let b = le_bytes(u, n);
    lemma_byte_pow_values();
    crate::endian::law_le_uint_reads_back(u, n);
    assert(b.take(n as int) =~= b);
    if c == 'c' || c == 'e' {
        crate::endian::law_le_int_reads_back(v, n);
    }
}

/// The two's-complement little-endian bytes of a 16-bit value.
pub open spec fn i16_bytes(x: i16) -> Seq<u8> {
    le_bytes((if x < 0 { x + 0x1_0000 } else { x as int }) as nat, 2)
}

/// An array field reads back what was written: 32 `i16` values stored one
/// after another, each as its two little-endian bytes, decode to those
/// values in order.
pub proof fn law_array_fields_read_back(xs: Seq<i16>)
    requires
        xs.len() == 32,
    ensures
        ({
            let b = Seq::new(64, |j: int| i16_bytes(xs[j / 2])[j % 2]);
            &&& field_width('a') == Some(b.len())
            &&& field_value('a', b) == Some(ValueModel::Array(xs))
        }),
{
    let b = Seq::new(64, |j: int| i16_bytes(xs[j / 2])[j % 2]);
    lemma_byte_pow_values();
    let ys = Seq::new(32, |i: int| le_int(b.subrange(2 * i, 2 * i + 2)) as i16);
    assert forall|i: int| 0 <= i < 32 implies ys[i] == xs[i] by {
        let x = xs[i];
        let u = (if x < 0 { x + 0x1_0000 } else { x as int }) as nat;
        crate::endian::law_le_uint_reads_back(u, 2);
        crate::endian::law_le_int_reads_back(x as int, 2);
        assert((2 * i) / 2 == i && (2 * i) % 2 == 0 && (2 * i + 1) / 2 == i && (2 * i + 1) % 2 == 1);
        assert(b.subrange(2 * i, 2 * i + 2) =~= i16_bytes(x));
    }
    assert(ys =~= xs);
}

/// The FMT message decodes to the format it registers: with the field types
/// `B`, `B`, `n`, `N`, `Z` its body is 86 bytes, and the values of the FMT
/// entry are the type, the length, the name, the format string and the
/// label text of the format that the same payload defines.
pub proof fn law_fmt_entry_values_match_its_format(p: Seq<u8>)
    requires
        p.len() >= 86,
    ensures
        ({
            let fmt = seq!['B', 'B', 'n', 'N', 'Z'];
            let nf = format_of_payload(p);
            &&& payload_width(fmt) == 86
            &&& decode_all(fmt, p) == Ok::<Seq<ValueModel>, DecodeFailure>(
                seq![
                    ValueModel::Int(nf.msg_type as int),
                    ValueModel::Int(nf.msg_len as int),
                    ValueModel::Text(nf.name),
                    ValueModel::Text(nf.format),
                    ValueModel::Text(padded_text(p.subrange(22, 86))),
                ],
            )
        }),
{
    let fmt = seq!['B', 'B', 'n', 'N', 'Z'];
    assert(fmt.drop_first() =~= seq!['B', 'n', 'N', 'Z']);
    assert(fmt.drop_first().drop_first() =~= seq!['n', 'N', 'Z']);
    assert(seq!['n', 'N', 'Z'].drop_first() =~= seq!['N', 'Z']);
    assert(seq!['N', 'Z'].drop_first() =~= seq!['Z']);
    assert(seq!['Z'].drop_first() =~= Seq::<char>::empty());
    reveal_with_fuel(payload_width, 6);
    reveal_with_fuel(decode_all, 6);
    lemma_byte_pow_values();
    let p1 = p.skip(1);
    let p2 = p1.skip(1);
    let p3 = p2.skip(4);
    let p4 = p3.skip(16);
    let p5 = p4.skip(64);
    assert(p.take(1) =~= seq![p[0]]);
    assert(p1.take(1) =~= seq![p[1]]);
    assert(seq![p[0]].take(1) =~= seq![p[0]]);
    assert(seq![p[1]].take(1) =~= seq![p[1]]);
    assert(seq![p[0]].drop_first() =~= Seq::<u8>::empty());
    assert(seq![p[1]].drop_first() =~= Seq::<u8>::empty());
    assert(le_uint(seq![p[0]]) == p[0] as nat + 256 * le_uint(Seq::<u8>::empty()));
    assert(le_uint(seq![p[1]]) == p[1] as nat + 256 * le_uint(Seq::<u8>::empty()));
    assert(p2.take(4) =~= p.subrange(2, 6));
    assert(p3.take(16) =~= p.subrange(6, 22));
    assert(p4.take(64) =~= p.subrange(22, 86));
    assert(decode_all(Seq::<char>::empty(), p5) == Ok::<Seq<ValueModel>, DecodeFailure>(Seq::empty()));
    assert(decode_all(fmt, p)->Ok_0 =~= seq![
        ValueModel::Int(p[0] as int),
        ValueModel::Int(p[1] as int),
        ValueModel::Text(padded_text(p.subrange(2, 6))),
        ValueModel::Text(padded_text(p.subrange(6, 22))),
        ValueModel::Text(padded_text(p.subrange(22, 86))),
    ]);
}

} // verus!
