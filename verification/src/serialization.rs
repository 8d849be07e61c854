//! Serializing and deserializing rows.
//!
//! Every type has a fixed width: `Char(n)` takes `n` bytes (the string's UTF-8
//! bytes, padded with zero bytes), `BigInt` 8, `Int` 4 and `SmallInt` 2. The
//! integers are stored big-endian with one bit flipped (bit 31, 15 and 7).
use vstd::prelude::*;
use vstd::string::StringSliceAdditionalSpecFns;
use vstd::utf8::{
    decode_utf8, encode_scalar, encode_utf8, encode_utf8_decode_utf8, encode_utf8_valid_utf8,
    is_char_boundary, is_char_boundary_iff_is_leading_byte, is_char_boundary_start_end_of_seq,
    valid_utf8, valid_utf8_concat, valid_utf8_split,
};

use crate::codec::{
    lemma_u16_roundtrip, lemma_u32_roundtrip, lemma_u64_roundtrip, read_u16, read_u32, read_u64,
    u16_at, u16_be, u16_to_be, u32_at, u32_be, u32_to_be, u64_at, u64_be, u64_to_be,
};

verus! {

/// Errors while deserializing data.
#[derive(Debug, PartialEq, PartialOrd)]
pub enum DeserializationError {
    /// The bytes of a string are not UTF-8 (the message describes why).
    StringDeserializeError(String),
    /// The bytes of an integer could not be read.
    IntDeserializeError(String),
    /// The buffer ended before the value.
    BufferUnexpectedEnd,
}

/// Errors while serializing data.
#[derive(Debug, PartialEq)]
pub enum SerializationError {
    /// Any other serialization failure.
    SerializtionError(String),
    /// A string longer than its type allows: the maximum, then the length.
    StringOverflow(usize, usize),
    /// A value that does not have the given type.
    TypeMismatch(DataType, DataValue),
    /// The buffer ended before the value.
    BufferUnexpectedEnd,
}

/// A value of a table column.
#[derive(Debug, PartialEq, Clone, PartialOrd)]
pub enum DataValue {
    Char(String),
    BigInt(i64),
    Int(i32),
    SmallInt(i16),
}

/// A column value, with a string seen as its characters.
pub enum ValueView {
    Char(Seq<char>),
    BigInt(i64),
    Int(i32),
    SmallInt(i16),
}

impl View for DataValue {
    type V = ValueView;

    open spec fn view(&self) -> ValueView {
        match self {
            DataValue::Char(s) => ValueView::Char(s@),
            DataValue::BigInt(x) => ValueView::BigInt(*x),
            DataValue::Int(x) => ValueView::Int(*x),
            DataValue::SmallInt(x) => ValueView::SmallInt(*x),
        }
    }
}

/// The type of a table column.
#[derive(Debug, PartialEq, Eq, Clone, Copy, Structural)]
pub enum DataType {
    /// Fixed-size characters: at most this many UTF-8 bytes.
    Char(usize),
    /// Big int corresponds to i64, using 8 bytes.
    BigInt,
    /// Int corresponds to i32, using 4 bytes.
    Int,
    /// Small int corresponds to i16, using 2 bytes.
    SmallInt,
}

/// A serialization error, with values seen through their views.
pub enum SerializationErrorView {
    SerializtionError(Seq<char>),
    StringOverflow(usize, usize),
    TypeMismatch(DataType, ValueView),
    BufferUnexpectedEnd,
}

impl View for SerializationError {
    type V = SerializationErrorView;

    open spec fn view(&self) -> SerializationErrorView {
        match self {
            SerializationError::SerializtionError(s) => SerializationErrorView::SerializtionError(s@),
            SerializationError::StringOverflow(a, b) => SerializationErrorView::StringOverflow(*a, *b),
            SerializationError::TypeMismatch(t, v) => SerializationErrorView::TypeMismatch(*t, v@),
            SerializationError::BufferUnexpectedEnd => SerializationErrorView::BufferUnexpectedEnd,
        }
    }
}

/* The encoding. */

/// Width in bytes of a value of type `t`.
pub open spec fn type_size(t: DataType) -> nat {
    match t {
        DataType::Char(n) => n as nat,
        DataType::BigInt => 8,
        DataType::Int => 4,
        DataType::SmallInt => 2,
    }
}

/// Total width of a row of the types `ts`.
pub open spec fn sizes_sum(ts: Seq<DataType>) -> nat
    decreases ts.len(),
{
    if ts.len() == 0 {
        0
    } else {
        sizes_sum(ts.drop_last()) + type_size(ts.last())
    }
}

/// Each field the reading of a row of types `ts` from `data` at `pos`
/// reaches ends at a position a `usize` holds: every field read while the
/// fields before it all succeed.
pub open spec fn reads_fit(ts: Seq<DataType>, data: Seq<u8>, pos: int) -> bool {
    forall|i: int|
        0 <= i < ts.len() && (#[trigger] decode_fields(ts.take(i), data, pos)).0 is Values ==> decode_fields(
            ts.take(i),
            data,
            pos,
        ).1 + type_size(ts[i]) <= usize::MAX
}

/// A row read that succeeds ends after all the row's fields.
pub proof fn lemma_decode_values_end(ts: Seq<DataType>, data: Seq<u8>, pos: int)
    ensures
        decode_fields(ts, data, pos).0 is Values ==> decode_fields(ts, data, pos).1 == pos + sizes_sum(ts),
    decreases ts.len(),
{
    if ts.len() > 0 {
        lemma_decode_values_end(ts.drop_last(), data, pos);
    }
}

/// Every field of a row that ends where a `usize` holds can be reached.
pub proof fn lemma_reads_fit_small(ts: Seq<DataType>, data: Seq<u8>, pos: int)
    requires
        pos + sizes_sum(ts) <= usize::MAX,
    ensures
        reads_fit(ts, data, pos),
{
    assert forall|i: int|
        0 <= i < ts.len() && (#[trigger] decode_fields(ts.take(i), data, pos)).0 is Values implies decode_fields(
            ts.take(i),
            data,
            pos,
        ).1 + type_size(ts[i]) <= usize::MAX by {
        lemma_decode_values_end(ts.take(i), data, pos);
        lemma_sizes_sum_take(ts, i);
    }
}

/// `n` zero bytes.
pub open spec fn zeros(n: nat) -> Seq<u8> {
    Seq::new(n, |i: int| 0u8)
}

/// The bytes a value is written as, before any padding.
pub open spec fn value_bytes(v: ValueView) -> Seq<u8> {
    match v {
        ValueView::Char(s) => encode_utf8(s),
        ValueView::BigInt(x) => u64_be((x as u64) ^ 0x8000_0000u64),
        ValueView::Int(x) => u32_be((x as u32) ^ 0x8000u32),
        ValueView::SmallInt(x) => u16_be((x as u16) ^ 0x80u16),
    }
}

/// The field written for `v` as a value of type `t`, or why it cannot be.
pub open spec fn field_result(t: DataType, v: ValueView) -> Result<Seq<u8>, SerializationErrorView> {
    match (t, v) {
        (DataType::BigInt, ValueView::BigInt(_)) => Ok(value_bytes(v)),
        (DataType::Int, ValueView::Int(_)) => Ok(value_bytes(v)),
        (DataType::SmallInt, ValueView::SmallInt(_)) => Ok(value_bytes(v)),
        (DataType::Char(n), ValueView::Char(s)) => if encode_utf8(s).len() > n {
            Err(SerializationErrorView::StringOverflow(n, encode_utf8(s).len() as usize))
        } else {
            Ok(encode_utf8(s) + zeros((n - encode_utf8(s).len()) as nat))
        },
        _ => Err(SerializationErrorView::TypeMismatch(t, v)),
    }
}

/// The row written for values `vs` of types `ts` (equally many), or the first error.
pub open spec fn serialize_fields(ts: Seq<DataType>, vs: Seq<ValueView>) -> Result<
    Seq<u8>,
    SerializationErrorView,
>
    decreases ts.len(),
{
    if ts.len() == 0 || vs.len() == 0 {
        Ok(Seq::empty())
    } else {
        match serialize_fields(ts.drop_last(), vs.drop_last()) {
            Err(e) => Err(e),
            Ok(p) => match field_result(ts.last(), vs.last()) {
                Err(e) => Err(e),
                Ok(b) => Ok(p + b),
            },
        }
    }
}

/// `b` without its trailing zero bytes.
pub open spec fn trim_zeros(b: Seq<u8>) -> Seq<u8>
    decreases b.len(),
{
    if b.len() > 0 && b.last() == 0 {
        trim_zeros(b.drop_last())
    } else {
        b
    }
}

/// The value read from field bytes `b` of type `t`; `None` when a string is not UTF-8.
pub open spec fn decode_field(t: DataType, b: Seq<u8>) -> Option<ValueView> {
    match t {
        DataType::Char(_) => if valid_utf8(b) {
            Some(ValueView::Char(decode_utf8(trim_zeros(b))))
        } else {
            None
        },
        DataType::BigInt => Some(ValueView::BigInt((u64_at(b, 0) ^ 0x8000_0000u64) as i64)),
        DataType::Int => Some(ValueView::Int((u32_at(b, 0) ^ 0x8000u32) as i32)),
        DataType::SmallInt => Some(ValueView::SmallInt((u16_at(b, 0) ^ 0x80u16) as i16)),
    }
}

/// What reading a row of types `ts` from `data` at `pos` gives.
pub enum RowRead {
    /// The values read.
    Values(Seq<ValueView>),
    /// The data ended before a field.
    EndOfBuffer,
    /// A string field is not UTF-8.
    BadString,
}

/// Reads a row of types `ts` from `data` starting at `pos`: the outcome and the
/// position after the last field read (a failed read still advances).
pub open spec fn decode_fields(ts: Seq<DataType>, data: Seq<u8>, pos: int) -> (RowRead, int)
    decreases ts.len(),
{
    if ts.len() == 0 {
        (RowRead::Values(Seq::empty()), pos)
    } else {
        let (prefix, p) = decode_fields(ts.drop_last(), data, pos);
        match prefix {
            RowRead::Values(vs) => {
                let t = ts.last();
                let end = p + type_size(t);
                if end > data.len() {
                    (RowRead::EndOfBuffer, end)
                } else {
                    match decode_field(t, data.subrange(p, end)) {
                        Some(v) => (RowRead::Values(vs.push(v)), end),
                        None => (RowRead::BadString, end),
                    }
                }
            },
            other => (other, p),
        }
    }
}

/// A row of values that reads back as itself: each value has its column's type,
/// and each string fits its width and does not end with a NUL character.
pub open spec fn row_well_typed(ts: Seq<DataType>, vs: Seq<ValueView>) -> bool {
    &&& ts.len() == vs.len()
    &&& forall|i: int|
        0 <= i < ts.len() ==> (#[trigger] field_result(ts[i], vs[i])) is Ok && (vs[i] matches ValueView::Char(s) ==> (s.len() == 0 || s.last() != '\0'))
}

/// Stream of bytes written by the serializer.
#[derive(Debug)]
pub struct WriteByteStream {
    buffer: Vec<u8>,
    position: usize,
    length: usize,
}

impl WriteByteStream {
    /// The stream's recorded length is its buffer's.
    pub closed spec fn wf(&self) -> bool {
        self.length == self.buffer@.len()
    }

    /// The bytes written so far (unwritten bytes are zero).
    pub closed spec fn spec_buffer(&self) -> Seq<u8> {
        self.buffer@
    }

    /// Where the next write goes.
    pub closed spec fn spec_position(&self) -> int {
        self.position as int
    }

    fn new(size: usize) -> (r: Self)
        ensures
            r.wf(),
            r.spec_buffer() == zeros(size as nat),
            r.spec_position() == 0,
    {
        let mut buffer: Vec<u8> = Vec::with_capacity(size);
        let mut i: usize = 0;
        while i < size
            invariant
                0 <= i <= size,
                buffer@ == zeros(i as nat),
            decreases size - i,
        {
            buffer.push(0u8);
            i = i + 1;
            assert(buffer@ =~= zeros(i as nat));
        }
        WriteByteStream { buffer, position: 0, length: size }
    }

    /// Writes `bytes` at the position and moves past them; fails, moving past
    /// them all the same, when they do not fit.
    fn write(&mut self, bytes: &[u8]) -> (r: Result<(), SerializationError>)
        requires
            old(self).wf(),
            old(self).spec_position() + bytes@.len() <= usize::MAX,
        ensures
            final(self).wf(),
            final(self).spec_position() == old(self).spec_position() + bytes@.len(),
            old(self).spec_position() + bytes@.len() <= old(self).spec_buffer().len() ==> {
                &&& r is Ok
                &&& final(self).spec_buffer() == old(self).spec_buffer().take(
                    old(self).spec_position(),
                ) + bytes@ + old(self).spec_buffer().skip(
                    old(self).spec_position() + bytes@.len(),
                )
            },
            old(self).spec_position() + bytes@.len() > old(self).spec_buffer().len() ==> {
                &&& r matches Err(SerializationError::BufferUnexpectedEnd)
                &&& final(self).spec_buffer() == old(self).spec_buffer()
            },
    {
        let start = self.position;
        let end = start + bytes.len();
        self.position = self.position + bytes.len();
        if end > self.length {
            Err(SerializationError::BufferUnexpectedEnd)
        } else {
            let ghost b0 = self.buffer@;
            let mut k: usize = 0;
            while k < bytes.len()
                invariant
                    0 <= k <= bytes@.len(),
                    end == start + bytes@.len(),
                    end <= self.buffer@.len(),
                    self.buffer@.len() == b0.len(),
                    self.length == b0.len(),
                    self.position == end,
                    forall|i: int|
                        0 <= i < b0.len() ==> #[trigger] self.buffer@[i] == if start <= i < start
                            + k {
                            bytes@[i - start]
                        } else {
                            b0[i]
                        },
                decreases bytes@.len() - k,
            {
                self.buffer.set(start + k, bytes[k]);
                k = k + 1;
            }
            assert(self.buffer@ =~= b0.take(start as int) + bytes@ + b0.skip(end as int));
            Ok(())
        }
    }

    /// Moves the position `padding` bytes on; fails when that passes the end.
    fn pad(&mut self, padding: usize) -> (r: Result<(), SerializationError>)
        requires
            old(self).wf(),
            old(self).spec_position() + padding <= usize::MAX,
        ensures
            final(self).wf(),
            final(self).spec_position() == old(self).spec_position() + padding,
            final(self).spec_buffer() == old(self).spec_buffer(),
            r is Ok <==> old(self).spec_position() + padding <= old(self).spec_buffer().len(),
            r is Err ==> r matches Err(SerializationError::BufferUnexpectedEnd),
    {
        self.position = self.position + padding;
        if self.position > self.length {
            Err(SerializationError::BufferUnexpectedEnd)
        } else {
            Ok(())
        }
    }

    /// The stream's bytes.
    fn into_buffer(self) -> (r: Vec<u8>)
        ensures
            r@ == self.spec_buffer(),
    {
        self.buffer
    }
}

/// Stream of bytes read by the deserializer.
#[derive(Debug)]
pub struct ReadByteStream<'a> {
    bytes: &'a [u8],
    position: usize,
    length: usize,
}

impl<'a> ReadByteStream<'a> {
    #[verifier::type_invariant]
    spec fn inv(self) -> bool {
        self.length == self.bytes@.len()
    }

    /// The bytes being read.
    pub closed spec fn spec_data(&self) -> Seq<u8> {
        self.bytes@
    }

    /// Where the next read starts.
    pub closed spec fn spec_position(&self) -> int {
        self.position as int
    }

    /// Reads the next `len` bytes and moves past them; fails with
    /// `BufferUnexpectedEnd`, moving past them all the same, when the data ends first.
    pub fn read(&mut self, len: usize) -> (r: Result<&'a [u8], DeserializationError>)
        requires
            old(self).spec_position() + len <= usize::MAX,
        ensures
            final(self).spec_data() == old(self).spec_data(),
            final(self).spec_position() == old(self).spec_position() + len,
            old(self).spec_position() + len <= old(self).spec_data().len() ==> (r matches Ok(
                b,
            ) && b@ == old(self).spec_data().subrange(
                old(self).spec_position(),
                old(self).spec_position() + len,
            )),
            old(self).spec_position() + len > old(self).spec_data().len() ==> r matches Err(
                DeserializationError::BufferUnexpectedEnd,
            ),
    {
        proof {
            use_type_invariant(&*self);
        }
        let start = self.position;
        let end = start + len;
        self.position = self.position + len;
        if end > self.length {
            Err(DeserializationError::BufferUnexpectedEnd)
        } else {
            let bytes: &'a [u8] = self.bytes;
            Ok(&bytes[start..end])
        }
    }

    /// A stream reading `bytes` from the start.
    pub fn new(bytes: &'a [u8]) -> (r: Self)
        ensures
            r.spec_data() == bytes@,
            r.spec_position() == 0,
    {
        ReadByteStream { bytes, position: 0, length: bytes.len() }
    }

    /// Reads the next row of types `dtypes`.
    pub fn next(&mut self, dtypes: &[DataType]) -> (r: Result<Vec<DataValue>, DeserializationError>)
        requires
            reads_fit(dtypes@, old(self).spec_data(), old(self).spec_position()),
        ensures
            row_read_matches(
                decode_fields(dtypes@, old(self).spec_data(), old(self).spec_position()),
                r,
            ),
            final(self).spec_data() == old(self).spec_data(),
            final(self).spec_position() == decode_fields(
                dtypes@,
                old(self).spec_data(),
                old(self).spec_position(),
            ).1,
    {
        Deserializer::deserialize(self, dtypes)
    }
}

/// A row read ends as the expected outcome `spec` says (the values, a
/// `BufferUnexpectedEnd` or a
/// `StringDeserializeError`).
pub open spec fn row_read_matches(
    spec: (RowRead, int),
    r: Result<Vec<DataValue>, DeserializationError>,
) -> bool {
    match spec.0 {
        RowRead::Values(vs) => r matches Ok(v) && v@.len() == vs.len() && forall|i: int|
            0 <= i < vs.len() ==> #[trigger] v@[i]@ == vs[i],
        RowRead::EndOfBuffer => r matches Err(DeserializationError::BufferUnexpectedEnd),
        RowRead::BadString => r matches Err(DeserializationError::StringDeserializeError(_)),
    }
}

impl DataValue {
    /// The number of bytes the value takes before any padding: the UTF-8
    /// length of a string, the width of an integer.
    pub fn size(&self) -> (r: usize)
        ensures
            r == value_bytes(self@).len(),
    {
        match self {
            DataValue::Char(s) => s.as_str().as_bytes().len(),
            DataValue::BigInt(_) => 8,
            DataValue::Int(_) => 4,
            DataValue::SmallInt(_) => 2,
        }
    }

    /// A copy of the value.
    fn duplicate(&self) -> (r: DataValue)
        ensures
            r@ == self@,
    {
        match self {
            DataValue::Char(s) => DataValue::Char(s.clone()),
            DataValue::BigInt(x) => DataValue::BigInt(*x),
            DataValue::Int(x) => DataValue::Int(*x),
            DataValue::SmallInt(x) => DataValue::SmallInt(*x),
        }
    }
}

/// `src` written over `b` at `at`.
pub open spec fn splice(b: Seq<u8>, at: int, src: Seq<u8>) -> Seq<u8> {
    b.take(at) + src + b.skip(at + src.len())
}

/// Reading a field of type `t` from `data` at `pos` ends as `decode_field` says, or
/// with `BufferUnexpectedEnd` when the field runs past the data.
pub open spec fn field_read_matches(
    t: DataType,
    data: Seq<u8>,
    pos: int,
    r: Result<DataValue, DeserializationError>,
) -> bool {
    if pos + type_size(t) > data.len() {
        r matches Err(DeserializationError::BufferUnexpectedEnd)
    } else {
        match decode_field(t, data.subrange(pos, pos + type_size(t))) {
            Some(v) => r matches Ok(x) && x@ == v,
            None => r matches Err(DeserializationError::StringDeserializeError(_)),
        }
    }
}

/// `v` is a value of the variant that type `t` reads as.
pub open spec fn value_of_type(t: DataType, v: ValueView) -> bool {
    match (t, v) {
        (DataType::Char(_), ValueView::Char(_)) => true,
        (DataType::BigInt, ValueView::BigInt(_)) => true,
        (DataType::Int, ValueView::Int(_)) => true,
        (DataType::SmallInt, ValueView::SmallInt(_)) => true,
        _ => false,
    }
}

/// A row read that succeeds yields one value per column, each of its column's
/// variant, and ends exactly as many bytes on as the row is wide; a read from
/// data too short for the row does not succeed. The read starts inside the
/// data.
pub proof fn lemma_row_read_shape(ts: Seq<DataType>, data: Seq<u8>, pos: int)
    requires
        0 <= pos <= data.len(),
    ensures
        decode_fields(ts, data, pos).0 matches RowRead::Values(vs) ==> {
            &&& vs.len() == ts.len()
            &&& forall|i: int| 0 <= i < ts.len() ==> #[trigger] value_of_type(ts[i], vs[i])
            &&& decode_fields(ts, data, pos).1 == pos + sizes_sum(ts)
            &&& pos + sizes_sum(ts) <= data.len()
        },
        pos + sizes_sum(ts) > data.len() ==> !(decode_fields(ts, data, pos).0 is Values),
    decreases ts.len(),
{
    if ts.len() > 0 {
        let init = ts.drop_last();
        let t = ts.last();
        lemma_row_read_shape(init, data, pos);
        let prefix = decode_fields(init, data, pos).0;
        let p = decode_fields(init, data, pos).1;
        let end = p + type_size(t);
        assert(sizes_sum(ts) == sizes_sum(init) + type_size(t));
        if let RowRead::Values(ws) = prefix {
            assert(p == pos + sizes_sum(init));
            if end <= data.len() {
                if let Some(v) = decode_field(t, data.subrange(p, end)) {
                    assert(decode_fields(ts, data, pos) == (RowRead::Values(ws.push(v)), end));
                    assert(value_of_type(t, v));
                    assert forall|i: int| 0 <= i < ts.len() implies #[trigger] value_of_type(ts[i], ws.push(v)[i]) by {
                        if i < ts.len() - 1 {
                            assert(ts[i] == init[i]);
                            assert(value_of_type(init[i], ws[i]));
                        }
                    }
                } else {
                    assert(decode_fields(ts, data, pos).0 == RowRead::BadString);
                }
            } else {
                assert(decode_fields(ts, data, pos).0 == RowRead::EndOfBuffer);
            }
        } else {
            assert(decode_fields(ts, data, pos).0 == prefix);
        }
    }
}

/// Reading a row at `pos` of `data` gives what reading it from the start of
/// the bytes from `pos` on gives, and ends as many bytes further on.
pub proof fn lemma_read_at_offset(ts: Seq<DataType>, data: Seq<u8>, pos: int)
    requires
        0 <= pos <= data.len(),
    ensures
        decode_fields(ts, data, pos).0 == decode_fields(ts, data.skip(pos), 0).0,
        decode_fields(ts, data, pos).1 == decode_fields(ts, data.skip(pos), 0).1 + pos,
    decreases ts.len(),
{
    if ts.len() > 0 {
        let init = ts.drop_last();
        lemma_read_at_offset(init, data, pos);
        lemma_row_read_shape(init, data, pos);
        let prefix = decode_fields(init, data, pos).0;
        let p = decode_fields(init, data, pos).1;
        let q = p - pos;
        let end = p + type_size(ts.last());
        if prefix is Values && end <= data.len() {
            assert(data.subrange(p, end) =~= data.skip(pos).subrange(q, q + type_size(ts.last())));
        }
    }
}

/// The views of a sequence of values.
pub open spec fn value_views(vs: Seq<DataValue>) -> Seq<ValueView> {
    vs.map_values(|v: DataValue| v@)
}

/// Declares `Utf8Error`, the error `from_utf8` gives for bytes that are not UTF-8.
#[verifier::external_type_specification]
#[verifier::external_body]
pub struct ExUtf8Error(core::str::Utf8Error);

/// Calls `core::str::from_utf8`, which borrows `v` as a string exactly when
/// `v` is valid UTF-8 (no overlong forms, no surrogates, nothing past U+10FFFF);
/// the string then holds the characters `v` encodes.
#[verifier::external_body]
fn str_from_utf8(v: &[u8]) -> (r: Result<&str, core::str::Utf8Error>)
    ensures
        r is Ok <==> valid_utf8(v@),
        r matches Ok(s) ==> s@ == decode_utf8(v@),
{
    core::str::from_utf8(v)
}

/// The string `s` without the NUL characters that end it, where `bytes` are its UTF-8 bytes.
fn trim_trailing_nul(bytes: &[u8], s: &str) -> (r: String)
    requires
        valid_utf8(bytes@),
        s@ == decode_utf8(bytes@),
    ensures
        r@ == decode_utf8(trim_zeros(bytes@)),
{
    let mut k = bytes.len();
    assert(bytes@.take(k as int) =~= bytes@);
    while k > 0 && bytes[k - 1] == 0
        invariant
            k <= bytes@.len(),
            trim_zeros(bytes@) == trim_zeros(bytes@.take(k as int)),
            forall|j: int| k <= j < bytes@.len() ==> bytes@[j] == 0,
        decreases k,
    {
        assert(bytes@.take(k as int).drop_last() =~= bytes@.take(k - 1));
        k = k - 1;
    }
    proof {
        vstd::utf8::decode_utf8_encode_utf8(bytes@);
        assert(s.spec_bytes() == bytes@);
        if k == bytes@.len() {
            is_char_boundary_start_end_of_seq(bytes@);
        } else {
            is_char_boundary_iff_is_leading_byte(bytes@, k as int);
            assert(vstd::utf8::is_leading_byte_width_1(bytes@[k as int]));
        }
        assert(trim_zeros(bytes@.take(k as int)) == bytes@.take(k as int));
    }
    let (left, _) = s.split_at(k);
    proof {
        assert(left.spec_bytes() =~= bytes@.subrange(0, k as int));
        encode_utf8_decode_utf8(left@);
        assert(bytes@.take(k as int) =~= bytes@.subrange(0, k as int));
    }
    left.to_owned()
}

impl DataType {
    /// Reads a value of this type from the stream, moving past its width.
    ///
    /// Fails with `BufferUnexpectedEnd` when the stream ends first and with
    /// `StringDeserializeError` when a string's bytes are not UTF-8. A string
    /// loses its trailing NUL characters.
    pub fn deserialize(&self, stream: &mut ReadByteStream) -> (r: Result<DataValue, DeserializationError>)
        requires
            old(stream).spec_position() + type_size(*self) <= usize::MAX,
        ensures
            final(stream).spec_data() == old(stream).spec_data(),
            final(stream).spec_position() == old(stream).spec_position() + type_size(*self),
            field_read_matches(*self, old(stream).spec_data(), old(stream).spec_position(), r),
    {
        let bytes = match stream.read(self.size()) {
            Ok(b) => b,
            Err(e) => return Err(e),
        };
        match self {
            DataType::Char(_) => match str_from_utf8(bytes) {
                Ok(s) => Ok(DataValue::Char(trim_trailing_nul(bytes, s))),
                Err(e) => Err(DeserializationError::StringDeserializeError(e.to_string())),
            },
            DataType::BigInt => Ok(
                DataValue::BigInt((read_u64(bytes, 0) ^ 0x8000_0000u64) as i64),
            ),
            DataType::Int => Ok(DataValue::Int((read_u32(bytes, 0) ^ 0x8000u32) as i32)),
            DataType::SmallInt => Ok(DataValue::SmallInt((read_u16(bytes, 0) ^ 0x80u16) as i16)),
        }
    }

    /// Writes `data_value` as a value of this type at the stream's position.
    ///
    /// Fails with `TypeMismatch` (nothing written) when the value has another
    /// type, with `StringOverflow` (nothing written) when a string is longer
    /// than the type allows, and with `BufferUnexpectedEnd` when the stream
    /// ends first. A string's padding bytes are skipped, not written.
    pub fn serialize(&self, stream: &mut WriteByteStream, data_value: &DataValue) -> (r: Result<
        (),
        SerializationError,
    >)
        requires
            old(stream).wf(),
            old(stream).spec_position() + type_size(*self) <= usize::MAX,
        ensures
            final(stream).wf(),
            ({
                let p = old(stream).spec_position();
                let b = old(stream).spec_buffer();
                let content = value_bytes(data_value@);
                match field_result(*self, data_value@) {
                    Err(e) => r matches Err(err) && err@ == e && final(stream).spec_buffer() == b
                        && final(stream).spec_position() == p,
                    Ok(_) => {
                        &&& final(stream).spec_position() == if p + content.len() <= b.len() {
                            p + type_size(*self)
                        } else {
                            p + content.len()
                        }
                        &&& p + content.len() <= b.len() ==> final(stream).spec_buffer() == splice(
                            b,
                            p,
                            content,
                        )
                        &&& p + content.len() > b.len() ==> final(stream).spec_buffer() == b
                        &&& (r is Ok <==> p + type_size(*self) <= b.len())
                        &&& r is Err ==> r matches Err(SerializationError::BufferUnexpectedEnd)
                    },
                }
            }),
    {
        match (self, data_value) {
            (DataType::BigInt, DataValue::BigInt(x)) => {
                let bytes = u64_to_be((*x as u64) ^ 0x8000_0000u64);
                stream.write(bytes.as_slice())
            },
            (DataType::Int, DataValue::Int(x)) => {
                let bytes = u32_to_be((*x as u32) ^ 0x8000u32);
                stream.write(bytes.as_slice())
            },
            (DataType::SmallInt, DataValue::SmallInt(x)) => {
                let bytes = u16_to_be((*x as u16) ^ 0x80u16);
                stream.write(bytes.as_slice())
            },
            (DataType::Char(size), DataValue::Char(s)) => {
                let b = s.as_str().as_bytes();
                if b.len() > *size {
                    Err(SerializationError::StringOverflow(*size, b.len()))
                } else {
                    match stream.write(b) {
                        Ok(()) => {},
                        Err(e) => return Err(e),
                    }
                    stream.pad(*size - b.len())
                }
            },
            (data_type, data_value) => Err(
                SerializationError::TypeMismatch(*data_type, data_value.duplicate()),
            ),
        }
    }

    /// The width of a value of this type, in bytes.
    pub fn size(&self) -> (r: usize)
        ensures
            r == type_size(*self),
    {
        match self {
            DataType::Char(n) => *n,
            DataType::BigInt => 8,
            DataType::Int => 4,
            DataType::SmallInt => 2,
        }
    }
}

/// The sum of a row's widths grows with each type and bounds every prefix.
pub proof fn lemma_sizes_sum_take(ts: Seq<DataType>, i: int)
    requires
        0 <= i < ts.len(),
    ensures
        sizes_sum(ts.take(i + 1)) == sizes_sum(ts.take(i)) + type_size(ts[i]),
        sizes_sum(ts.take(i + 1)) <= sizes_sum(ts),
    decreases ts.len() - i,
{
    assert(ts.take(i + 1).drop_last() =~= ts.take(i));
    if i + 1 == ts.len() {
        assert(ts.take(i + 1) =~= ts);
    } else {
        lemma_sizes_sum_take(ts, i + 1);
    }
}

/// A successful field has its type's width.
pub proof fn lemma_field_len(t: DataType, v: ValueView)
    requires
        field_result(t, v) is Ok,
    ensures
        field_result(t, v)->Ok_0.len() == type_size(t),
        value_bytes(v).len() <= type_size(t),
{
}

/// An error in a prefix of a row is the row's error.
pub proof fn lemma_serialize_error_propagates(
    ts: Seq<DataType>,
    vs: Seq<ValueView>,
    j: int,
    k: int,
)
    requires
        0 <= j <= k <= ts.len(),
        k <= vs.len(),
        serialize_fields(ts.take(j), vs.take(j)) is Err,
    ensures
        serialize_fields(ts.take(k), vs.take(k)) == serialize_fields(ts.take(j), vs.take(j)),
    decreases k - j,
{
    if j < k {
        lemma_serialize_error_propagates(ts, vs, j, k - 1);
        assert(ts.take(k).drop_last() =~= ts.take(k - 1));
        assert(vs.take(k).drop_last() =~= vs.take(k - 1));
    }
}

/// A failed read in a prefix of a row is the row's outcome.
pub proof fn lemma_decode_error_propagates(ts: Seq<DataType>, data: Seq<u8>, pos: int, j: int, k: int)
    requires
        0 <= j <= k <= ts.len(),
        !(decode_fields(ts.take(j), data, pos).0 is Values),
    ensures
        decode_fields(ts.take(k), data, pos) == decode_fields(ts.take(j), data, pos),
    decreases k - j,
{
    if j < k {
        lemma_decode_error_propagates(ts, data, pos, j, k - 1);
        assert(ts.take(k).drop_last() =~= ts.take(k - 1));
    }
}


/* Reading back what was written. */

/// Zero bytes are valid UTF-8 (each is a NUL character).
pub proof fn lemma_zeros_valid_utf8(n: nat)
    ensures
        valid_utf8(zeros(n)),
    decreases n,
{
    if n > 0 {
        lemma_zeros_valid_utf8((n - 1) as nat);
        assert(vstd::utf8::pop_first_scalar(zeros(n)) =~= zeros((n - 1) as nat));
    }
}

/// Trailing zero padding is what trimming removes.
pub proof fn lemma_trim_zeros_padding(x: Seq<u8>, n: nat)
    ensures
        trim_zeros(x + zeros(n)) == trim_zeros(x),
    decreases n,
{
    if n == 0 {
        assert(x + zeros(0) =~= x);
    } else {
        assert((x + zeros(n)).drop_last() =~= x + zeros((n - 1) as nat));
        lemma_trim_zeros_padding(x, (n - 1) as nat);
    }
}

/// The UTF-8 bytes of a string with one more character.
pub proof fn lemma_encode_utf8_push(s: Seq<char>, c: char)
    ensures
        encode_utf8(s.push(c)) == encode_utf8(s) + encode_scalar(c as u32),
    decreases s.len(),
{
    if s.len() == 0 {
        assert(s.push(c).drop_first() =~= Seq::<char>::empty());
        assert(encode_utf8(s.push(c)) =~= encode_scalar(c as u32) + encode_utf8(Seq::<char>::empty()));
        assert(encode_utf8(s) + encode_scalar(c as u32) =~= encode_scalar(c as u32));
    } else {
        lemma_encode_utf8_push(s.drop_first(), c);
        assert(s.push(c).drop_first() =~= s.drop_first().push(c));
        assert(encode_utf8(s.push(c)) =~= encode_scalar(s[0] as u32) + encode_utf8(
            s.drop_first().push(c),
        ));
    }
}

/// The last UTF-8 byte of a string that does not end with NUL is not zero.
pub proof fn lemma_encode_utf8_last_nonzero(s: Seq<char>)
    requires
        s.len() > 0,
        s.last() != '\0',
    ensures
        encode_utf8(s).len() > 0,
        encode_utf8(s).last() != 0,
{
    let c = s.last();
    lemma_encode_utf8_push(s.drop_last(), c);
    assert(s.drop_last().push(c) =~= s);
    vstd::utf8::char_is_scalar(c);
    let v = c as u32;
    if v == 0 {
        vstd::utf8::char_u32_cast(c, v);
        vstd::utf8::char_u32_cast('\0', 0u32);
    }
    assert(v != 0);
    if vstd::utf8::has_width_1_encoding(v) {
        assert((v & 0x7Fu32) as u8 != 0) by (bit_vector)
            requires
                v <= 0x7F,
                v != 0,
        ;
    } else {
        assert((0x80u8 | (v & 0x3Fu32) as u8) != 0) by (bit_vector);
    }
}

/// A field reads back as the value written.
pub proof fn lemma_field_roundtrip(t: DataType, v: ValueView)
    requires
        field_result(t, v) is Ok,
        v matches ValueView::Char(s) ==> (s.len() == 0 || s.last() != '\0'),
    ensures
        decode_field(t, field_result(t, v)->Ok_0) == Some(v),
{
    match v {
        ValueView::BigInt(x) => {
            let y = (x as u64) ^ 0x8000_0000u64;
            lemma_u64_roundtrip(y);
            assert(((y ^ 0x8000_0000u64) as i64) == x) by (bit_vector)
                requires
                    y == (x as u64) ^ 0x8000_0000u64,
            ;
        },
        ValueView::Int(x) => {
            let y = (x as u32) ^ 0x8000u32;
            lemma_u32_roundtrip(y);
            assert(((y ^ 0x8000u32) as i32) == x) by (bit_vector)
                requires
                    y == (x as u32) ^ 0x8000u32,
            ;
        },
        ValueView::SmallInt(x) => {
            let y = (x as u16) ^ 0x80u16;
            lemma_u16_roundtrip(y);
            assert(((y ^ 0x80u16) as i16) == x) by (bit_vector)
                requires
                    y == (x as u16) ^ 0x80u16,
            ;
        },
        ValueView::Char(s) => {
            if let DataType::Char(n) = t {
                let e = encode_utf8(s);
                let pad = zeros((n - e.len()) as nat);
                encode_utf8_valid_utf8(s);
                lemma_zeros_valid_utf8((n - e.len()) as nat);
                valid_utf8_concat(e, pad);
                lemma_trim_zeros_padding(e, (n - e.len()) as nat);
                if s.len() > 0 {
                    lemma_encode_utf8_last_nonzero(s);
                } else {
                    assert(e =~= Seq::<u8>::empty());
                }
                assert(trim_zeros(e) == e);
                encode_utf8_decode_utf8(s);
            }
        },
    }
}

/// Reading a row does not look past its width.
pub proof fn lemma_decode_fields_extend(ts: Seq<DataType>, d1: Seq<u8>, d2: Seq<u8>, pos: int)
    requires
        0 <= pos,
        pos + sizes_sum(ts) <= d1.len(),
    ensures
        decode_fields(ts, d1 + d2, pos) == decode_fields(ts, d1, pos),
        decode_fields(ts, d1, pos).0 is Values ==> decode_fields(ts, d1, pos).1 == pos + sizes_sum(ts),
    decreases ts.len(),
{
    if ts.len() > 0 {
        lemma_decode_fields_extend(ts.drop_last(), d1, d2, pos);
        let (prefix, p) = decode_fields(ts.drop_last(), d1, pos);
        if prefix is Values {
            let end = p + type_size(ts.last());
            assert((d1 + d2).subrange(p, end) =~= d1.subrange(p, end));
        }
    }
}

/// A well-typed row reads back as itself: its bytes are as wide as its types,
/// and reading them gives the same values and ends at their end.
pub proof fn lemma_row_roundtrip(ts: Seq<DataType>, vs: Seq<ValueView>)
    requires
        row_well_typed(ts, vs),
    ensures
        serialize_fields(ts, vs) is Ok,
        serialize_fields(ts, vs)->Ok_0.len() == sizes_sum(ts),
        decode_fields(ts, serialize_fields(ts, vs)->Ok_0, 0) == (
        RowRead::Values(vs),
        sizes_sum(ts) as int,
        ),
    decreases ts.len(),
{
    if ts.len() == 0 {
        assert(vs =~= Seq::<ValueView>::empty());
    } else {
        let ts0 = ts.drop_last();
        let vs0 = vs.drop_last();
        assert forall|i: int| 0 <= i < ts0.len() implies (#[trigger] field_result(ts0[i], vs0[i])) is Ok
            && (vs0[i] matches ValueView::Char(s) ==> (s.len() == 0 || s.last() != '\0')) by {
            assert(ts0[i] == ts[i] && vs0[i] == vs[i]);
            assert(field_result(ts[i], vs[i]) is Ok);
        }
        lemma_row_roundtrip(ts0, vs0);
        let p = serialize_fields(ts0, vs0)->Ok_0;
        let t = ts.last();
        let v = vs.last();
        assert(field_result(ts[ts.len() - 1], vs[ts.len() - 1]) is Ok);
        let fb = field_result(t, v)->Ok_0;
        lemma_field_len(t, v);
        lemma_field_roundtrip(t, v);
        lemma_decode_fields_extend(ts0, p, fb, 0);
        assert((p + fb).subrange(p.len() as int, (p + fb).len() as int) =~= fb);
        assert(vs0.push(v) =~= vs);
    }
}

impl Serializer {
    /// A serializer.
    pub fn new() -> (r: Self)
        ensures
            r == (Serializer {}),
    {
        Serializer {}
    }

    /// The bytes of one value of type `dtype`, padded to the type's width.
    pub fn serialize_single(dtype: &DataType, value: &DataValue) -> (r: Result<Vec<u8>, SerializationError>)
        ensures
            match field_result(*dtype, value@) {
                Ok(b) => r matches Ok(out) && out@ == b,
                Err(e) => r matches Err(err) && err@ == e,
            },
    {
        let mut write_stream = WriteByteStream::new(dtype.size());
        match dtype.serialize(&mut write_stream, value) {
            Ok(()) => {},
            Err(e) => return Err(e),
        }
        proof {
            if let Ok(b) = field_result(*dtype, value@) {
                let content = value_bytes(value@);
                assert(write_stream.spec_buffer() =~= b);
            }
        }
        Ok(write_stream.into_buffer())
    }

    /// The bytes of a row: value `i` written as type `i`, for as many pairs as
    /// both slices hold, in a buffer as wide as all the types together; or the
    /// first value's error.
    pub fn serialize(dtypes: &[DataType], values: &[DataValue]) -> (r: Result<Vec<u8>, SerializationError>)
        requires
            sizes_sum(dtypes@) <= usize::MAX,
        ensures
            ({
                let k = if dtypes@.len() <= values@.len() {
                    dtypes@.len() as int
                } else {
                    values@.len() as int
                };
                match serialize_fields(dtypes@.take(k), value_views(values@).take(k)) {
                    Ok(b) => r matches Ok(out) && out@ == b + zeros((sizes_sum(dtypes@) - b.len()) as nat),
                    Err(e) => r matches Err(err) && err@ == e,
                }
            }),
    {
        let ghost ts = dtypes@;
        let ghost vs = value_views(values@);
        let mut capacity: usize = 0;
        let mut i: usize = 0;
        assert(ts.take(0) =~= Seq::<DataType>::empty());
        while i < dtypes.len()
            invariant
                0 <= i <= ts.len(),
                ts == dtypes@,
                sizes_sum(ts) <= usize::MAX,
                capacity == sizes_sum(ts.take(i as int)),
            decreases ts.len() - i,
        {
            proof {
                lemma_sizes_sum_take(ts, i as int);
            }
            capacity = capacity + dtypes[i].size();
            i = i + 1;
        }
        assert(ts.take(ts.len() as int) =~= ts);
        let k = if dtypes.len() <= values.len() {
            dtypes.len()
        } else {
            values.len()
        };
        let mut write_stream = WriteByteStream::new(capacity);
        let mut i: usize = 0;
        assert(vs.take(0) =~= Seq::<ValueView>::empty());
        assert(zeros(capacity as nat) =~= Seq::<u8>::empty() + zeros((capacity - 0) as nat));
        while i < k
            invariant
                0 <= i <= k,
                k <= ts.len(),
                k <= vs.len(),
                k == if dtypes@.len() <= values@.len() {
                    dtypes@.len()
                } else {
                    values@.len()
                },
                ts == dtypes@,
                vs == value_views(values@),
                capacity == sizes_sum(ts),
                sizes_sum(ts) <= usize::MAX,
                write_stream.wf(),
                write_stream.spec_position() == sizes_sum(ts.take(i as int)),
                serialize_fields(ts.take(i as int), vs.take(i as int)) matches Ok(p) && p.len()
                    == sizes_sum(ts.take(i as int)) && write_stream.spec_buffer() == p + zeros(
                    (capacity - p.len()) as nat,
                ),
            decreases k - i,
        {
            proof {
                lemma_sizes_sum_take(ts, i as int);
                assert(ts.take(i + 1).drop_last() =~= ts.take(i as int));
                assert(vs.take(i + 1).drop_last() =~= vs.take(i as int));
                assert(vs[i as int] == values@[i as int]@);
            }
            let ghost before = write_stream.spec_buffer();
            let ghost p = serialize_fields(ts.take(i as int), vs.take(i as int))->Ok_0;
            assert(before.len() == capacity);
            assert(ts[i as int] == dtypes[i as int]);
            match dtypes[i].serialize(&mut write_stream, &values[i]) {
                Ok(()) => {},
                Err(e) => {
                    proof {
                        assert(ts.take(i + 1).last() == ts[i as int]);
                        assert(vs.take(i + 1).last() == vs[i as int]);
                        assert(field_result(ts[i as int], vs[i as int]) is Err);
                        assert(serialize_fields(ts.take(i + 1), vs.take(i + 1)) == field_result(
                            ts[i as int],
                            vs[i as int],
                        ));
                        lemma_serialize_error_propagates(ts, vs, i + 1, k as int);
                        assert(e@ == field_result(ts[i as int], vs[i as int])->Err_0);
                        assert(serialize_fields(ts.take(k as int), vs.take(k as int)) == Err::<Seq<u8>, SerializationErrorView>(e@));
                    }
                    return Err(e);
                },
            }
            proof {
                let fb = field_result(ts[i as int], vs[i as int])->Ok_0;
                lemma_field_len(ts[i as int], vs[i as int]);
                let content = value_bytes(vs[i as int]);
                assert(write_stream.spec_buffer() =~= (p + fb) + zeros(
                    (capacity - (p + fb).len()) as nat,
                ));
            }
            i = i + 1;
        }
        proof {
            if k == ts.len() {
                assert(ts.take(k as int) =~= ts);
            }
            lemma_sizes_sum_take_le(ts, k as int);
        }
        Ok(write_stream.into_buffer())
    }
}

/// Every prefix of a row is at most as wide as the row.
pub proof fn lemma_sizes_sum_take_le(ts: Seq<DataType>, k: int)
    requires
        0 <= k <= ts.len(),
    ensures
        sizes_sum(ts.take(k)) <= sizes_sum(ts),
{
    if k < ts.len() {
        lemma_sizes_sum_take(ts, k);
    } else {
        assert(ts.take(k) =~= ts);
    }
}

/// Turns rows into bytes.
#[derive(Debug)]
pub struct Serializer {}

impl Default for Serializer {
    fn default() -> (r: Self)
        ensures
            r == (Serializer {}),
    {
        Serializer {}
    }
}

/// Turns bytes into rows.
#[derive(Debug)]
pub struct Deserializer {}

impl Default for Deserializer {
    fn default() -> (r: Self)
        ensures
            r == (Deserializer {}),
    {
        Deserializer {}
    }
}

impl Deserializer {
    /// Reads a row of types `dtypes` from the start of `bytes`.
    pub fn deserialize_from_bytes(bytes: &[u8], dtypes: &[DataType]) -> (r: Result<
        Vec<DataValue>,
        DeserializationError,
    >)
        requires
            reads_fit(dtypes@, bytes@, 0),
        ensures
            row_read_matches(decode_fields(dtypes@, bytes@, 0), r),
    {
        let mut stream = ReadByteStream::new(bytes);
        Deserializer::deserialize(&mut stream, dtypes)
    }

    /// Reads a row of types `dtypes` from the bytes of `bytes` that start at
    /// `start` and are as many as the row is wide.
    pub fn deserialize_from_start(bytes: &[u8], start: usize, dtypes: &[DataType]) -> (r: Result<
        Vec<DataValue>,
        DeserializationError,
    >)
        requires
            start + sizes_sum(dtypes@) <= bytes@.len(),
        ensures
            row_read_matches(
                decode_fields(
                    dtypes@,
                    bytes@.subrange(start as int, start + sizes_sum(dtypes@)),
                    0,
                ),
                r,
            ),
    {
        let ghost ts = dtypes@;
        let mut size: usize = 0;
        let mut i: usize = 0;
        let blen = bytes.len();
        assert(ts.take(0) =~= Seq::<DataType>::empty());
        while i < dtypes.len()
            invariant
                0 <= i <= ts.len(),
                ts == dtypes@,
                blen == bytes@.len(),
                start + sizes_sum(ts) <= bytes@.len(),
                size == sizes_sum(ts.take(i as int)),
            decreases ts.len() - i,
        {
            proof {
                lemma_sizes_sum_take(ts, i as int);
            }
            size = size + dtypes[i].size();
            i = i + 1;
        }
        assert(ts.take(ts.len() as int) =~= ts);
        let mut stream = ReadByteStream::new(&bytes[start..start + size]);
        proof {
            lemma_reads_fit_small(ts, stream.spec_data(), 0);
        }
        Deserializer::deserialize(&mut stream, dtypes)
    }

    /// Reads a row of types `dtypes` from the stream, stopping at the first
    /// field that fails.
    pub fn deserialize(stream: &mut ReadByteStream, dtypes: &[DataType]) -> (r: Result<
        Vec<DataValue>,
        DeserializationError,
    >)
        requires
            reads_fit(dtypes@, old(stream).spec_data(), old(stream).spec_position()),
        ensures
            row_read_matches(
                decode_fields(dtypes@, old(stream).spec_data(), old(stream).spec_position()),
                r,
            ),
            final(stream).spec_data() == old(stream).spec_data(),
            final(stream).spec_position() == decode_fields(
                dtypes@,
                old(stream).spec_data(),
                old(stream).spec_position(),
            ).1,
    {
        let ghost ts = dtypes@;
        let ghost data = stream.spec_data();
        let ghost pos0 = stream.spec_position();
        let mut out: Vec<DataValue> = Vec::new();
        let mut i: usize = 0;
        assert(ts.take(0) =~= Seq::<DataType>::empty());
        while i < dtypes.len()
            invariant
                0 <= i <= ts.len(),
                ts == dtypes@,
                reads_fit(ts, data, pos0),
                data == old(stream).spec_data(),
                pos0 == old(stream).spec_position(),
                stream.spec_data() == data,
                stream.spec_position() == pos0 + sizes_sum(ts.take(i as int)),
                decode_fields(ts.take(i as int), data, pos0) matches (RowRead::Values(vs), p) && p
                    == stream.spec_position() && vs.len() == out@.len() && forall|j: int|
                    0 <= j < vs.len() ==> #[trigger] out@[j]@ == vs[j],
            decreases ts.len() - i,
        {
            proof {
                lemma_sizes_sum_take(ts, i as int);
                lemma_sizes_sum_take_le(ts, i + 1);
                assert(ts.take(i + 1).drop_last() =~= ts.take(i as int));
                assert(ts.take(i + 1).last() == ts[i as int]);
            }
            match dtypes[i].deserialize(stream) {
                Ok(v) => {
                    out.push(v);
                },
                Err(e) => {
                    proof {
                        assert(!(decode_fields(ts.take(i + 1), data, pos0).0 is Values));
                        lemma_decode_error_propagates(ts, data, pos0, i + 1, ts.len() as int);
                        assert(ts.take(ts.len() as int) =~= ts);

                    }
                    return Err(e);
                },
            }
            i = i + 1;
        }
        assert(ts.take(ts.len() as int) =~= ts);
        Ok(out)
    }

    /// Reads one value of type `dtype` from the stream.
    pub fn deserialize_next(stream: &mut ReadByteStream, dtype: DataType) -> (r: Result<
        DataValue,
        DeserializationError,
    >)
        requires
            old(stream).spec_position() + type_size(dtype) <= usize::MAX,
        ensures
            final(stream).spec_data() == old(stream).spec_data(),
            final(stream).spec_position() == old(stream).spec_position() + type_size(dtype),
            field_read_matches(dtype, old(stream).spec_data(), old(stream).spec_position(), r),
    {
        dtype.deserialize(stream)
    }
}

} // verus!
