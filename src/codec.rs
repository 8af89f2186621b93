//! Per-type encoding rules, chosen by a value's static type, and their
//! decoders.
use vstd::prelude::*;
use crate::buffer::Data;
use crate::varint::{
    DecodeError, le_bytes, lemma_var_width_round_trip, lemma_varint_width, parse_var32, parse_var64, varint_bytes,
};
use vstd::utf8::{decode_utf8, encode_utf8, encode_utf8_decode_utf8, encode_utf8_valid_utf8, valid_utf8};
use crate::zigzag::{
    ZigZagDecode16, ZigZagDecode32, ZigZagDecode64, ZigZagEncode16, ZigZagEncode32,
    ZigZagEncode64, lemma_zigzag_round_trip, unzigzag, zigzag,
};

verus! {

/// A type written as raw fixed-width bytes, with no length prefix.
pub trait FixedWriter {
    /// The bytes that stand for this value.
    spec fn fixed_bytes(&self) -> Seq<u8>;

    /// Appends `fixed_bytes()` to `d`.
    fn WriteTo(&self, d: &mut Data)
        requires
            old(d).wf(),
        ensures
            final(d).wf(),
            final(d).bytes() == old(d).bytes() + self.fixed_bytes(),
            final(d).pos() == old(d).pos(),
    ;
}

impl FixedWriter for u8 {
    open spec fn fixed_bytes(&self) -> Seq<u8> {
        seq![*self]
    }

    fn WriteTo(&self, d: &mut Data) {
        d.WriteByte(*self);
        assert(d.bytes() =~= old(d).bytes() + self.fixed_bytes());
    }
}

impl FixedWriter for i8 {
    open spec fn fixed_bytes(&self) -> Seq<u8> {
        seq![*self as u8]
    }

    fn WriteTo(&self, d: &mut Data) {
        d.WriteByte(*self as u8);
        assert(d.bytes() =~= old(d).bytes() + self.fixed_bytes());
    }
}

impl FixedWriter for bool {
    open spec fn fixed_bytes(&self) -> Seq<u8> {
        seq![if *self { 1u8 } else { 0u8 }]
    }

    fn WriteTo(&self, d: &mut Data) {
        if *self {
            d.WriteByte(1);
        } else {
            d.WriteByte(0);
        }
        assert(d.bytes() =~= old(d).bytes() + self.fixed_bytes());
    }
}

impl FixedWriter for u16 {
    open spec fn fixed_bytes(&self) -> Seq<u8> {
        le_bytes(*self as nat, 2)
    }

    fn WriteTo(&self, d: &mut Data) {
        d.WriteLe(*self as u64, 2);
    }
}

impl FixedWriter for u32 {
    open spec fn fixed_bytes(&self) -> Seq<u8> {
        le_bytes(*self as nat, 4)
    }

    fn WriteTo(&self, d: &mut Data) {
        d.WriteLe(*self as u64, 4);
    }
}

impl FixedWriter for u64 {
    open spec fn fixed_bytes(&self) -> Seq<u8> {
        le_bytes(*self as nat, 8)
    }

    fn WriteTo(&self, d: &mut Data) {
        d.WriteLe(*self, 8);
    }
}

impl FixedWriter for i16 {
    open spec fn fixed_bytes(&self) -> Seq<u8> {
        le_bytes((*self as u16) as nat, 2)
    }

    fn WriteTo(&self, d: &mut Data) {
        d.WriteLe((*self as u16) as u64, 2);
    }
}

impl FixedWriter for i32 {
    open spec fn fixed_bytes(&self) -> Seq<u8> {
        le_bytes((*self as u32) as nat, 4)
    }

    fn WriteTo(&self, d: &mut Data) {
        d.WriteLe((*self as u32) as u64, 4);
    }
}

impl FixedWriter for i64 {
    open spec fn fixed_bytes(&self) -> Seq<u8> {
        le_bytes((*self as u64) as nat, 8)
    }

    fn WriteTo(&self, d: &mut Data) {
        d.WriteLe(*self as u64, 8);
    }
}

/// Written at 64 bits on every platform, so that the bytes do not depend on
/// the pointer width.
impl FixedWriter for isize {
    open spec fn fixed_bytes(&self) -> Seq<u8> {
        le_bytes(((*self as i64) as u64) as nat, 8)
    }

    fn WriteTo(&self, d: &mut Data) {
        d.WriteLe((*self as i64) as u64, 8);
    }
}

/// Written at 64 bits on every platform, so that the bytes do not depend on
/// the pointer width.
impl FixedWriter for usize {
    open spec fn fixed_bytes(&self) -> Seq<u8> {
        le_bytes(*self as nat, 8)
    }

    fn WriteTo(&self, d: &mut Data) {
        d.WriteLe(*self as u64, 8);
    }
}

/// A type with an encoding rule of its own, chosen by its static type.
pub trait Writer: DeepView {
    /// The bytes that stand for a value whose model is `m`.
    spec fn encode(m: Self::V) -> Seq<u8>;

    /// Appends the encoding of this value to `d`.
    fn WriteTo(&self, d: &mut Data)
        requires
            old(d).wf(),
        ensures
            final(d).wf(),
            final(d).bytes() == old(d).bytes() + Self::encode(self.deep_view()),
            final(d).pos() == old(d).pos(),
    ;

    /// Every value takes at least one byte.
    proof fn lemma_encode_nonempty(m: Self::V)
        ensures
            Self::encode(m).len() >= 1,
    ;
}

/// Text: its byte length as a variable-length integer, then its UTF-8 bytes.
pub open spec fn text_bytes(m: Seq<char>) -> Seq<u8> {
    varint_bytes(encode_utf8(m).len()) + encode_utf8(m)
}

/// The encodings of the items of `ms`, one after another.
pub open spec fn encode_items<T: Writer>(ms: Seq<T::V>) -> Seq<u8>
    decreases ms.len(),
{
    if ms.len() == 0 {
        seq![]
    } else {
        T::encode(ms[0]) + encode_items::<T>(ms.drop_first())
    }
}

/// Each item takes at least one byte.
pub proof fn lemma_encode_items_len<T: Writer>(ms: Seq<T::V>)
    ensures
        encode_items::<T>(ms).len() >= ms.len(),
    decreases ms.len(),
{
    if ms.len() > 0 {
        T::lemma_encode_nonempty(ms[0]);
        lemma_encode_items_len::<T>(ms.drop_first());
    }
}

/// A sequence: its length as a variable-length integer, then each item.
pub open spec fn sequence_bytes<T: Writer>(ms: Seq<T::V>) -> Seq<u8> {
    varint_bytes(ms.len()) + encode_items::<T>(ms)
}

/// Encoding one more item appends its encoding.
pub proof fn lemma_encode_items_push<T: Writer>(ms: Seq<T::V>, m: T::V)
    ensures
        encode_items::<T>(ms.push(m)) == encode_items::<T>(ms) + T::encode(m),
    decreases ms.len(),
{
    if ms.len() == 0 {
        assert(ms.push(m).drop_first() =~= ms);
        assert(encode_items::<T>(ms.push(m)) =~= encode_items::<T>(ms) + T::encode(m));
    } else {
        lemma_encode_items_push::<T>(ms.drop_first(), m);
        assert(ms.push(m).drop_first() =~= ms.drop_first().push(m));
        assert(encode_items::<T>(ms.push(m)) =~= encode_items::<T>(ms) + T::encode(m));
    }
}

impl Data {
    /// Appends the fixed-width bytes of `writer`.
    pub fn WriteFixed<T: FixedWriter>(&mut self, writer: &T)
        requires
            old(self).wf(),
        ensures
            final(self).wf(),
            final(self).bytes() == old(self).bytes() + writer.fixed_bytes(),
            final(self).pos() == old(self).pos(),
    {
        writer.WriteTo(self)
    }

    /// Appends the encoding of `writer` by its type's rule.
    pub fn Write<T: Writer>(&mut self, writer: &T)
        requires
            old(self).wf(),
        ensures
            final(self).wf(),
            final(self).bytes() == old(self).bytes() + T::encode(writer.deep_view()),
            final(self).pos() == old(self).pos(),
    {
        writer.WriteTo(self)
    }

    /// Resets the buffer, then encodes `value` into it: the bytes depend on
    /// the value alone, not on what the buffer held or reserved before.
    pub fn Encode<T: Writer>(&mut self, value: &T)
        ensures
            final(self).wf(),
            final(self).bytes() == T::encode(value.deep_view()),
            final(self).pos() == 0,
    {
        self.Clear();
        self.Write(value);
        assert(self.bytes() =~= T::encode(value.deep_view()));
    }
}

impl Writer for u8 {
    open spec fn encode(m: u8) -> Seq<u8> {
        seq![m]
    }

    fn WriteTo(&self, d: &mut Data) {
        d.WriteFixed(self);
    }

    proof fn lemma_encode_nonempty(m: Self::V) {
    }
}

impl Writer for i8 {
    open spec fn encode(m: i8) -> Seq<u8> {
        seq![m as u8]
    }

    fn WriteTo(&self, d: &mut Data) {
        d.WriteFixed(self);
    }

    proof fn lemma_encode_nonempty(m: Self::V) {
    }
}

impl Writer for bool {
    open spec fn encode(m: bool) -> Seq<u8> {
        seq![if m { 1u8 } else { 0u8 }]
    }

    fn WriteTo(&self, d: &mut Data) {
        d.WriteFixed(self);
    }

    proof fn lemma_encode_nonempty(m: Self::V) {
    }
}

impl Writer for u16 {
    open spec fn encode(m: u16) -> Seq<u8> {
        varint_bytes(m as nat)
    }

    fn WriteTo(&self, d: &mut Data) {
        d.WriteVar32(*self as u32);
    }

    proof fn lemma_encode_nonempty(m: Self::V) {
        lemma_varint_width(m as nat);
    }
}

impl Writer for u32 {
    open spec fn encode(m: u32) -> Seq<u8> {
        varint_bytes(m as nat)
    }

    fn WriteTo(&self, d: &mut Data) {
        d.WriteVar32(*self);
    }

    proof fn lemma_encode_nonempty(m: Self::V) {
        lemma_varint_width(m as nat);
    }
}

impl Writer for u64 {
    open spec fn encode(m: u64) -> Seq<u8> {
        varint_bytes(m as nat)
    }

    fn WriteTo(&self, d: &mut Data) {
        d.WriteVar64(*self);
    }

    proof fn lemma_encode_nonempty(m: Self::V) {
        lemma_varint_width(m as nat);
    }
}

/// The 64-bit groups of a value that fits 32 bits are the 32-bit groups, so
/// the bytes are those of the platform's own width.
impl Writer for usize {
    open spec fn encode(m: usize) -> Seq<u8> {
        varint_bytes(m as nat)
    }

    fn WriteTo(&self, d: &mut Data) {
        d.WriteVar64(*self as u64);
    }

    proof fn lemma_encode_nonempty(m: Self::V) {
        lemma_varint_width(m as nat);
    }
}

impl Writer for i16 {
    open spec fn encode(m: i16) -> Seq<u8> {
        varint_bytes(zigzag(m as int) as nat)
    }

    fn WriteTo(&self, d: &mut Data) {
        d.WriteVar32(ZigZagEncode16(self) as u32);
    }

    proof fn lemma_encode_nonempty(m: Self::V) {
        lemma_varint_width(zigzag(m as int) as nat);
    }
}

impl Writer for i32 {
    open spec fn encode(m: i32) -> Seq<u8> {
        varint_bytes(zigzag(m as int) as nat)
    }

    fn WriteTo(&self, d: &mut Data) {
        d.WriteVar32(ZigZagEncode32(self));
    }

    proof fn lemma_encode_nonempty(m: Self::V) {
        lemma_varint_width(zigzag(m as int) as nat);
    }
}

impl Writer for i64 {
    open spec fn encode(m: i64) -> Seq<u8> {
        varint_bytes(zigzag(m as int) as nat)
    }

    fn WriteTo(&self, d: &mut Data) {
        d.WriteVar64(ZigZagEncode64(self));
    }

    proof fn lemma_encode_nonempty(m: Self::V) {
        lemma_varint_width(zigzag(m as int) as nat);
    }
}

/// The zigzag image of a value does not depend on the width it is taken at,
/// so the bytes are those of the platform's own width.
impl Writer for isize {
    open spec fn encode(m: isize) -> Seq<u8> {
        varint_bytes(zigzag(m as int) as nat)
    }

    fn WriteTo(&self, d: &mut Data) {
        d.WriteVar64(ZigZagEncode64(&(*self as i64)));
    }

    proof fn lemma_encode_nonempty(m: Self::V) {
        lemma_varint_width(zigzag(m as int) as nat);
    }
}

impl<'a> Writer for &'a str {
    open spec fn encode(m: Seq<char>) -> Seq<u8> {
        text_bytes(m)
    }

    fn WriteTo(&self, d: &mut Data) {
        let bytes = self.as_bytes();
        let len = bytes.len();
        d.Write(&len);
        d.WriteBytes(bytes);
        assert(d.bytes() =~= old(d).bytes() + text_bytes(self.deep_view()));
    }

    proof fn lemma_encode_nonempty(m: Self::V) {
        lemma_varint_width(encode_utf8(m).len());
    }
}

impl Writer for String {
    open spec fn encode(m: Seq<char>) -> Seq<u8> {
        text_bytes(m)
    }

    fn WriteTo(&self, d: &mut Data) {
        let bytes = self.as_str().as_bytes();
        let len = bytes.len();
        d.Write(&len);
        d.WriteBytes(bytes);
        assert(d.bytes() =~= old(d).bytes() + text_bytes(self.deep_view()));
    }

    proof fn lemma_encode_nonempty(m: Self::V) {
        lemma_varint_width(encode_utf8(m).len());
    }
}

impl<T: Writer> Writer for Vec<T> {
    open spec fn encode(ms: Seq<T::V>) -> Seq<u8> {
        sequence_bytes::<T>(ms)
    }

    fn WriteTo(&self, d: &mut Data) {
        let len = self.len();
        d.Write(&len);
        let ghost ms = self.deep_view();
        let ghost head = d.bytes();
        let mut i: usize = 0;
        assert(ms.take(0) =~= Seq::<T::V>::empty());
        assert(head =~= head + encode_items::<T>(ms.take(0)));
        while i < len
            invariant
                len == self@.len(),
                ms == self.deep_view(),
                i <= len,
                d.wf(),
                d.pos() == old(d).pos(),
                head == old(d).bytes() + varint_bytes(len as nat),
                d.bytes() == head + encode_items::<T>(ms.take(i as int)),
            decreases len - i,
        {
            d.Write(&self[i]);
            proof {
                lemma_encode_items_push::<T>(ms.take(i as int), ms[i as int]);
                assert(ms.take(i as int).push(ms[i as int]) =~= ms.take(i + 1));
            }
            i = i + 1;
        }
        assert(ms.take(len as int) =~= ms);
        assert(d.bytes() =~= old(d).bytes() + sequence_bytes::<T>(ms));
    }

    proof fn lemma_encode_nonempty(ms: Seq<T::V>) {
        lemma_varint_width(ms.len());
    }
}

/// Relies on `String::from_utf8`: it takes the bytes as they are when they are
/// valid UTF-8, and fails otherwise.
#[verifier::external_body]
fn string_from_utf8(bytes: Vec<u8>) -> (r: Option<String>)
    ensures
        match r {
            Some(t) => valid_utf8(bytes@) && t@ == decode_utf8(bytes@),
            None => !valid_utf8(bytes@),
        },
{
    String::from_utf8(bytes).ok()
}

/// A type that can be read back from the bytes its encoding rule writes.
pub trait Reader: Writer + Sized {
    /// Reads a value's model from the front of `s`; on success gives the
    /// model and the number of bytes read.
    spec fn parse(s: Seq<u8>) -> Result<(Self::V, nat), DecodeError>;

    /// Reads a value at the cursor of `d`. On failure the cursor stays where
    /// it was.
    fn ReadFrom(d: &mut Data) -> (r: Result<Self, DecodeError>)
        requires
            old(d).wf(),
        ensures
            final(d).wf(),
            final(d).bytes() == old(d).bytes(),
            match Self::parse(old(d).unread()) {
                Ok((m, n)) => r is Ok && r->Ok_0.deep_view() == m && final(d).pos() == old(d).pos()
                    + n,
                Err(e) => r == Err::<Self, DecodeError>(e) && final(d).pos() == old(d).pos(),
            },
    ;

    /// Decoding undoes encoding: the encoding of `m`, whatever follows it,
    /// reads back as `m`, consuming exactly the encoding.
    proof fn lemma_round_trip(m: Self::V, rest: Seq<u8>)
        requires
            Self::encode(m).len() + rest.len() <= usize::MAX,
        ensures
            Self::parse(Self::encode(m) + rest) == Ok::<(Self::V, nat), DecodeError>(
                (m, Self::encode(m).len()),
            ),
    ;
}

/// Reads text: a 64-bit length, then that many bytes of UTF-8.
pub open spec fn parse_text(s: Seq<u8>) -> Result<(Seq<char>, nat), DecodeError> {
    match parse_var64(s) {
        Ok((len, k)) => if k + len > s.len() {
            Err(DecodeError::Truncated)
        } else if valid_utf8(s.subrange(k as int, (k + len) as int)) {
            Ok((decode_utf8(s.subrange(k as int, (k + len) as int)), k + len))
        } else {
            Err(DecodeError::InvalidValue)
        },
        Err(e) => Err(e),
    }
}

/// Reads `count` items one after another.
pub open spec fn parse_items<T: Reader>(s: Seq<u8>, count: nat) -> Result<
    (Seq<T::V>, nat),
    DecodeError,
>
    decreases count,
{
    if count == 0 {
        Ok((seq![], 0))
    } else {
        match T::parse(s) {
            Ok((m, n)) => match parse_items::<T>(s.subrange(n as int, s.len() as int), (count - 1) as nat) {
                Ok((ms, k)) => Ok((seq![m] + ms, n + k)),
                Err(e) => Err(e),
            },
            Err(e) => Err(e),
        }
    }
}

/// Reads a sequence: a 64-bit item count, then the items.
pub open spec fn parse_sequence<T: Reader>(s: Seq<u8>) -> Result<(Seq<T::V>, nat), DecodeError> {
    match parse_var64(s) {
        Ok((count, k)) => match parse_items::<T>(s.subrange(k as int, s.len() as int), count) {
            Ok((ms, n)) => Ok((ms, k + n)),
            Err(e) => Err(e),
        },
        Err(e) => Err(e),
    }
}

/// Items read back as they were written, whatever follows them.
pub proof fn lemma_items_round_trip<T: Reader>(ms: Seq<T::V>, rest: Seq<u8>)
    requires
        encode_items::<T>(ms).len() + rest.len() <= usize::MAX,
    ensures
        parse_items::<T>(encode_items::<T>(ms) + rest, ms.len()) == Ok::<
            (Seq<T::V>, nat),
            DecodeError,
        >((ms, encode_items::<T>(ms).len())),
    decreases ms.len(),
{
    if ms.len() == 0 {
        assert(ms =~= seq![]);
    } else {
        let tail = ms.drop_first();
        let after = encode_items::<T>(tail) + rest;
        let s = encode_items::<T>(ms) + rest;
        assert(s =~= T::encode(ms[0]) + after);
        T::lemma_round_trip(ms[0], after);
        let n = T::encode(ms[0]).len();
        assert(s.subrange(n as int, s.len() as int) =~= after);
        lemma_items_round_trip::<T>(tail, rest);
        assert(seq![ms[0]] + tail =~= ms);
    }
}

impl Data {
    /// Reads a value of `reader`'s type at the cursor into `reader`. On
    /// failure neither `reader` nor the cursor changes.
    pub fn ReadFixed<T: Reader>(&mut self, reader: &mut T) -> (r: Result<(), DecodeError>)
        requires
            old(self).wf(),
        ensures
            final(self).wf(),
            final(self).bytes() == old(self).bytes(),
            match T::parse(old(self).unread()) {
                Ok((m, n)) => r is Ok && final(reader).deep_view() == m && final(self).pos()
                    == old(self).pos() + n,
                Err(e) => r == Err::<(), DecodeError>(e) && *final(reader) == *old(reader)
                    && final(self).pos() == old(self).pos(),
            },
    {
        match T::ReadFrom(self) {
            Ok(v) => {
                *reader = v;
                Ok(())
            },
            Err(e) => Err(e),
        }
    }

    /// Reads a value of type `T` at the cursor.
    pub fn Read<T: Reader>(&mut self) -> (r: Result<T, DecodeError>)
        requires
            old(self).wf(),
        ensures
            final(self).wf(),
            final(self).bytes() == old(self).bytes(),
            match T::parse(old(self).unread()) {
                Ok((m, n)) => r is Ok && r->Ok_0.deep_view() == m && final(self).pos()
                    == old(self).pos() + n,
                Err(e) => r == Err::<T, DecodeError>(e) && final(self).pos() == old(self).pos(),
            },
    {
        T::ReadFrom(self)
    }
}

impl Reader for u8 {
    open spec fn parse(s: Seq<u8>) -> Result<(u8, nat), DecodeError> {
        if s.len() == 0 {
            Err(DecodeError::Truncated)
        } else {
            Ok((s[0], 1))
        }
    }

    fn ReadFrom(d: &mut Data) -> (r: Result<u8, DecodeError>) {
        d.ReadByte()
    }

    proof fn lemma_round_trip(m: u8, rest: Seq<u8>) {
        assert((seq![m] + rest)[0] == m);
    }
}

impl Reader for i8 {
    open spec fn parse(s: Seq<u8>) -> Result<(i8, nat), DecodeError> {
        if s.len() == 0 {
            Err(DecodeError::Truncated)
        } else {
            Ok((s[0] as i8, 1))
        }
    }

    fn ReadFrom(d: &mut Data) -> (r: Result<i8, DecodeError>) {
        match d.ReadByte() {
            Ok(b) => Ok(b as i8),
            Err(e) => Err(e),
        }
    }

    proof fn lemma_round_trip(m: i8, rest: Seq<u8>) {
        assert((seq![m as u8] + rest)[0] == m as u8);
        assert((m as u8) as i8 == m) by (bit_vector);
    }
}

impl Reader for bool {
    open spec fn parse(s: Seq<u8>) -> Result<(bool, nat), DecodeError> {
        if s.len() == 0 {
            Err(DecodeError::Truncated)
        } else if s[0] == 0 {
            Ok((false, 1))
        } else if s[0] == 1 {
            Ok((true, 1))
        } else {
            Err(DecodeError::InvalidValue)
        }
    }

    fn ReadFrom(d: &mut Data) -> (r: Result<bool, DecodeError>) {
        let start = d.read_pos();
        match d.ReadByte() {
            Ok(0) => Ok(false),
            Ok(1) => Ok(true),
            Ok(_) => {
                d.Rewind(start);
                Err(DecodeError::InvalidValue)
            },
            Err(e) => Err(e),
        }
    }

    proof fn lemma_round_trip(m: bool, rest: Seq<u8>) {
        assert((Self::encode(m) + rest)[0] == if m { 1u8 } else { 0u8 });
    }
}

impl Reader for u16 {
    open spec fn parse(s: Seq<u8>) -> Result<(u16, nat), DecodeError> {
        match parse_var32(s) {
            Ok((v, n)) => if v <= u16::MAX {
                Ok((v as u16, n))
            } else {
                Err(DecodeError::MalformedVarint)
            },
            Err(e) => Err(e),
        }
    }

    fn ReadFrom(d: &mut Data) -> (r: Result<u16, DecodeError>) {
        let start = d.read_pos();
        match d.ReadVar32() {
            Ok(v) => if v <= u16::MAX as u32 {
                Ok(v as u16)
            } else {
                d.Rewind(start);
                Err(DecodeError::MalformedVarint)
            },
            Err(e) => Err(e),
        }
    }

    proof fn lemma_round_trip(m: u16, rest: Seq<u8>) {
        lemma_var_width_round_trip(m as nat, rest);
    }
}

impl Reader for u32 {
    open spec fn parse(s: Seq<u8>) -> Result<(u32, nat), DecodeError> {
        match parse_var32(s) {
            Ok((v, n)) => Ok((v as u32, n)),
            Err(e) => Err(e),
        }
    }

    fn ReadFrom(d: &mut Data) -> (r: Result<u32, DecodeError>) {
        d.ReadVar32()
    }

    proof fn lemma_round_trip(m: u32, rest: Seq<u8>) {
        lemma_var_width_round_trip(m as nat, rest);
    }
}

impl Reader for u64 {
    open spec fn parse(s: Seq<u8>) -> Result<(u64, nat), DecodeError> {
        match parse_var64(s) {
            Ok((v, n)) => Ok((v as u64, n)),
            Err(e) => Err(e),
        }
    }

    fn ReadFrom(d: &mut Data) -> (r: Result<u64, DecodeError>) {
        d.ReadVar64()
    }

    proof fn lemma_round_trip(m: u64, rest: Seq<u8>) {
        lemma_var_width_round_trip(m as nat, rest);
    }
}

impl Reader for usize {
    open spec fn parse(s: Seq<u8>) -> Result<(usize, nat), DecodeError> {
        match parse_var64(s) {
            Ok((v, n)) => if v <= usize::MAX {
                Ok((v as usize, n))
            } else {
                Err(DecodeError::MalformedVarint)
            },
            Err(e) => Err(e),
        }
    }

    fn ReadFrom(d: &mut Data) -> (r: Result<usize, DecodeError>) {
        let start = d.read_pos();
        match d.ReadVar64() {
            Ok(v) => if v <= usize::MAX as u64 {
                Ok(v as usize)
            } else {
                d.Rewind(start);
                Err(DecodeError::MalformedVarint)
            },
            Err(e) => Err(e),
        }
    }

    proof fn lemma_round_trip(m: usize, rest: Seq<u8>) {
        lemma_var_width_round_trip(m as nat, rest);
    }
}

impl Reader for i16 {
    open spec fn parse(s: Seq<u8>) -> Result<(i16, nat), DecodeError> {
        match parse_var32(s) {
            Ok((v, n)) => if v <= u16::MAX {
                Ok((unzigzag(v as int) as i16, n))
            } else {
                Err(DecodeError::MalformedVarint)
            },
            Err(e) => Err(e),
        }
    }

    fn ReadFrom(d: &mut Data) -> (r: Result<i16, DecodeError>) {
        let start = d.read_pos();
        match d.ReadVar32() {
            Ok(v) => if v <= u16::MAX as u32 {
                Ok(ZigZagDecode16(v as u16))
            } else {
                d.Rewind(start);
                Err(DecodeError::MalformedVarint)
            },
            Err(e) => Err(e),
        }
    }

    proof fn lemma_round_trip(m: i16, rest: Seq<u8>) {
        lemma_zigzag_round_trip(m as int, 0);
        lemma_var_width_round_trip(zigzag(m as int) as nat, rest);
    }
}

impl Reader for i32 {
    open spec fn parse(s: Seq<u8>) -> Result<(i32, nat), DecodeError> {
        match parse_var32(s) {
            Ok((v, n)) => Ok((unzigzag(v as int) as i32, n)),
            Err(e) => Err(e),
        }
    }

    fn ReadFrom(d: &mut Data) -> (r: Result<i32, DecodeError>) {
        match d.ReadVar32() {
            Ok(v) => Ok(ZigZagDecode32(v)),
            Err(e) => Err(e),
        }
    }

    proof fn lemma_round_trip(m: i32, rest: Seq<u8>) {
        lemma_zigzag_round_trip(m as int, 0);
        lemma_var_width_round_trip(zigzag(m as int) as nat, rest);
    }
}

impl Reader for i64 {
    open spec fn parse(s: Seq<u8>) -> Result<(i64, nat), DecodeError> {
        match parse_var64(s) {
            Ok((v, n)) => Ok((unzigzag(v as int) as i64, n)),
            Err(e) => Err(e),
        }
    }

    fn ReadFrom(d: &mut Data) -> (r: Result<i64, DecodeError>) {
        match d.ReadVar64() {
            Ok(v) => Ok(ZigZagDecode64(v)),
            Err(e) => Err(e),
        }
    }

    proof fn lemma_round_trip(m: i64, rest: Seq<u8>) {
        lemma_zigzag_round_trip(m as int, 0);
        lemma_var_width_round_trip(zigzag(m as int) as nat, rest);
    }
}

impl Reader for isize {
    open spec fn parse(s: Seq<u8>) -> Result<(isize, nat), DecodeError> {
        match parse_var64(s) {
            Ok((v, n)) => if isize::MIN <= unzigzag(v as int) <= isize::MAX {
                Ok((unzigzag(v as int) as isize, n))
            } else {
                Err(DecodeError::MalformedVarint)
            },
            Err(e) => Err(e),
        }
    }

    fn ReadFrom(d: &mut Data) -> (r: Result<isize, DecodeError>) {
        let start = d.read_pos();
        match d.ReadVar64() {
            Ok(v) => {
                let x = ZigZagDecode64(v);
                if isize::MIN as i64 <= x && x <= isize::MAX as i64 {
                    Ok(x as isize)
                } else {
                    d.Rewind(start);
                    Err(DecodeError::MalformedVarint)
                }
            },
            Err(e) => Err(e),
        }
    }

    proof fn lemma_round_trip(m: isize, rest: Seq<u8>) {
        lemma_zigzag_round_trip(m as int, 0);
        lemma_var_width_round_trip(zigzag(m as int) as nat, rest);
    }
}

/// Reads text at the cursor of `d`, leaving the cursor where it was on failure.
fn read_text(d: &mut Data) -> (r: Result<String, DecodeError>)
    requires
        old(d).wf(),
    ensures
        final(d).wf(),
        final(d).bytes() == old(d).bytes(),
        match parse_text(old(d).unread()) {
            Ok((m, n)) => r is Ok && r->Ok_0@ == m && final(d).pos() == old(d).pos() + n,
            Err(e) => r == Err::<String, DecodeError>(e) && final(d).pos() == old(d).pos(),
        },
{
    let start = d.read_pos();
    let len = match d.ReadVar64() {
        Ok(v) => v,
        Err(e) => return Err(e),
    };
    let left = d.len() - d.read_pos();
    if len > left as u64 {
        d.Rewind(start);
        return Err(DecodeError::Truncated);
    }
    let ghost s = old(d).unread();
    let ghost k = d.pos() - old(d).pos();
    let bytes = match d.ReadBytes(len as usize) {
        Ok(b) => b,
        Err(e) => {
            d.Rewind(start);
            return Err(e);
        },
    };
    assert(bytes@ =~= s.subrange(k, k + len));
    match string_from_utf8(bytes) {
        Some(t) => Ok(t),
        None => {
            d.Rewind(start);
            Err(DecodeError::InvalidValue)
        },
    }
}

/// Text read back as it was written, whatever follows it.
pub proof fn lemma_text_round_trip(m: Seq<char>, rest: Seq<u8>)
    requires
        text_bytes(m).len() + rest.len() <= usize::MAX,
    ensures
        parse_text(text_bytes(m) + rest) == Ok::<(Seq<char>, nat), DecodeError>(
            (m, text_bytes(m).len()),
        ),
{
    broadcast use encode_utf8_valid_utf8, encode_utf8_decode_utf8;

    let b = encode_utf8(m);
    let len = b.len();
    let s = text_bytes(m) + rest;
    assert(s =~= varint_bytes(len) + (b + rest));
    lemma_var_width_round_trip(len, b + rest);
    let k = varint_bytes(len).len();
    assert(s.subrange(k as int, (k + len) as int) =~= b);
}

impl Reader for String {
    open spec fn parse(s: Seq<u8>) -> Result<(Seq<char>, nat), DecodeError> {
        parse_text(s)
    }

    fn ReadFrom(d: &mut Data) -> (r: Result<String, DecodeError>) {
        read_text(d)
    }

    proof fn lemma_round_trip(m: Seq<char>, rest: Seq<u8>) {
        lemma_text_round_trip(m, rest);
    }
}

/// A read result of the bytes after some items, seen from where the items
/// began: `pre` was read already, in `off` bytes.
spec fn prefixed<V>(r: Result<(Seq<V>, nat), DecodeError>, pre: Seq<V>, off: nat) -> Result<
    (Seq<V>, nat),
    DecodeError,
> {
    match r {
        Ok((ms, n)) => Ok((pre + ms, off + n)),
        Err(e) => Err(e),
    }
}

impl<T: Reader> Reader for Vec<T> {
    open spec fn parse(s: Seq<u8>) -> Result<(Seq<T::V>, nat), DecodeError> {
        parse_sequence::<T>(s)
    }

    fn ReadFrom(d: &mut Data) -> (r: Result<Vec<T>, DecodeError>) {
        let start = d.read_pos();
        let count = match d.ReadVar64() {
            Ok(v) => v,
            Err(e) => return Err(e),
        };
        let ghost items_at = d.pos();
        let ghost s1 = d.unread();
        assert(parse_var64(old(d).unread()) == Ok::<(nat, nat), DecodeError>(
            (count as nat, (items_at - start) as nat),
        ));
        let mut out: Vec<T> = Vec::new();
        let mut i: u64 = 0;
        assert(out.deep_view() =~= Seq::<T::V>::empty());
        proof {
            if let Ok((ms, k)) = parse_items::<T>(s1, count as nat) {
                assert(seq![] + ms =~= ms);
            }
        }
        while i < count
            invariant
                d.wf(),
                d.bytes() == old(d).bytes(),
                start == old(d).pos(),
                start <= items_at <= d.pos(),
                parse_var64(old(d).unread()) == Ok::<(nat, nat), DecodeError>(
                    (count as nat, (items_at - start) as nat),
                ),
                i <= count,
                s1 == old(d).bytes().subrange(items_at as int, old(d).bytes().len() as int),
                parse_items::<T>(s1, count as nat) == prefixed(
                    parse_items::<T>(d.unread(), (count - i) as nat),
                    out.deep_view(),
                    (d.pos() - items_at) as nat,
                ),
            decreases count - i,
        {
            let ghost u = d.unread();
            let ghost before = out.deep_view();
            let ghost here = d.pos();
            match T::ReadFrom(d) {
                Ok(v) => {
                    out.push(v);
                    proof {
                        let n = (d.pos() - here) as nat;
                        assert(d.unread() =~= u.subrange(n as int, u.len() as int));
                        assert(out.deep_view() =~= before.push(v.deep_view()));
                        let rest = parse_items::<T>(d.unread(), (count - i - 1) as nat);
                        if let Ok((ms, k)) = rest {
                            assert(before + (seq![v.deep_view()] + ms) =~= out.deep_view() + ms);
                        }
                    }
                },
                Err(e) => {
                    proof {
                        let s0 = old(d).unread();
                        assert(s1 =~= s0.subrange((items_at - start) as int, s0.len() as int));
                        assert(parse_items::<T>(u, (count - i) as nat) == Err::<
                            (Seq<T::V>, nat),
                            DecodeError,
                        >(e));
                        assert(parse_items::<T>(s1, count as nat) == Err::<
                            (Seq<T::V>, nat),
                            DecodeError,
                        >(e));
                    }
                    d.Rewind(start);
                    return Err(e);
                },
            }
            i = i + 1;
        }
        proof {
            let s0 = old(d).unread();
            assert(s1 =~= s0.subrange((items_at - start) as int, s0.len() as int));
            assert(out.deep_view() + seq![] =~= out.deep_view());
        }
        Ok(out)
    }

    proof fn lemma_round_trip(ms: Seq<T::V>, rest: Seq<u8>) {
        lemma_encode_items_len::<T>(ms);
        let s = sequence_bytes::<T>(ms) + rest;
        let after = encode_items::<T>(ms) + rest;
        assert(s =~= varint_bytes(ms.len()) + after);
        lemma_var_width_round_trip(ms.len(), after);
        let k = varint_bytes(ms.len()).len();
        assert(s.subrange(k as int, s.len() as int) =~= after);
        lemma_items_round_trip::<T>(ms, rest);
    }
}

} // verus!
