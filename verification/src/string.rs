//! The length-prefixed string: a 16-bit length, then exactly that many
//! bytes of UTF-8 text, with nothing in between and nothing after.
use vstd::prelude::*;
use vstd::utf8::*;
use crate::error::Error;
use crate::message_builder::{lemma_padding, MessageBuilder};
use crate::wire::{
    copy_into, lemma_u16_round_trip, read_u16, u16_from_le, u16_le, write_u16, FIELD_MAX,
    FIELD_SIZE,
};

verus! {

/// The bytes that encode a string with the given payload.
pub open spec fn encoded(payload: Seq<u8>) -> Seq<u8> {
    u16_le(payload.len() as int) + payload
}

/// The payload length that the length field of `range` declares.
pub open spec fn declared_len(range: Seq<u8>) -> int {
    u16_from_le(range)
}

/// True when `range` holds a whole string: a length field, and at least
/// as many bytes after it as the field declares.
pub open spec fn framed(range: Seq<u8>) -> bool {
    range.len() >= 2 && range.len() >= 2 + declared_len(range)
}

/// The bytes at the start of `range` that make up the string it holds.
pub open spec fn frame(range: Seq<u8>) -> Seq<u8> {
    range.subrange(0, 2 + declared_len(range))
}

/// The payload of the string that `range` holds.
pub open spec fn payload_of(range: Seq<u8>) -> Seq<u8> {
    range.subrange(2, 2 + declared_len(range))
}

/// What was encoded can be read back: the encoding of a payload that fits
/// the length field is a whole string, it declares the payload's length,
/// and its payload is the one that was encoded. Bytes that follow the
/// encoding in the same range change none of this.
pub proof fn lemma_encoded_round_trip(payload: Seq<u8>, rest: Seq<u8>)
    requires
        payload.len() <= FIELD_MAX,
    ensures
        framed(encoded(payload) + rest),
        declared_len(encoded(payload) + rest) == payload.len(),
        frame(encoded(payload) + rest) == encoded(payload),
        payload_of(encoded(payload) + rest) == payload,
        payload_of(frame(encoded(payload) + rest)) == payload,
{
    let range = encoded(payload) + rest;
    lemma_u16_round_trip(payload.len() as int);
    assert(declared_len(range) == payload.len());
    assert(frame(range) =~= encoded(payload));
    assert(payload_of(range) =~= payload);
    assert(declared_len(frame(range)) == payload.len());
    assert(payload_of(frame(range)) =~= payload);
}

/// Text that was encoded can be read back: for every text whose UTF-8 form
/// fits the length field, the payload found in its encoding is well-formed
/// UTF-8 and decodes to the same text.
pub proof fn lemma_text_round_trip(text: Seq<char>)
    requires
        encode_utf8(text).len() <= FIELD_MAX,
    ensures
        framed(encoded(encode_utf8(text))),
        valid_utf8(payload_of(frame(encoded(encode_utf8(text))))),
        decode_utf8(payload_of(frame(encoded(encode_utf8(text))))) == text,
{
    lemma_encoded_round_trip(encode_utf8(text), Seq::empty());
    assert(encoded(encode_utf8(text)) + Seq::<u8>::empty() =~= encoded(encode_utf8(text)));
    encode_utf8_valid_utf8(text);
    encode_utf8_decode_utf8(text);
}

/// A range cut short holds no string: whatever `range` declares, none of
/// its prefixes that is shorter than the length field plus the declared
/// payload is a whole string.
pub proof fn lemma_short_range_not_framed(range: Seq<u8>, n: int)
    requires
        0 <= n <= range.len(),
        n < 2 || n < 2 + declared_len(range),
    ensures
        !framed(range.subrange(0, n)),
{
    if n >= 2 {
        assert(declared_len(range.subrange(0, n)) == declared_len(range));
    }
}

/// The view `core::str::from_utf8` gives of `bytes`, if it gives one.
///
/// Trusted: `core::str::from_utf8` succeeds exactly on well-formed UTF-8,
/// and the text it returns occupies the very bytes it was given.
#[verifier::external_body]
fn text_of<'b>(bytes: &'b [u8]) -> (r: Option<&'b str>)
    ensures
        r is Some <==> valid_utf8(bytes@),
        r matches Some(s) ==> encode_utf8(s@) == bytes@,
{
    match core::str::from_utf8(bytes) {
        Ok(s) => Some(s),
        Err(_) => None,
    }
}

/// Ends a mutable borrow by turning it into a shared one.
fn freeze<'b>(bytes: &'b mut [u8]) -> (r: &'b [u8])
    ensures
        r@ == old(bytes)@,
        final(bytes)@ == old(bytes)@,
{
    &*bytes
}

/// A read-only view of one encoded string inside a buffer.
///
/// The view owns nothing: it borrows the bytes it was made over.
#[derive(Clone, Copy, Debug)]
pub struct String<'a> {
    bytes: &'a [u8],
}

impl<'a> View for String<'a> {
    type V = Seq<u8>;

    /// The bytes under the view: length field and payload.
    closed spec fn view(&self) -> Seq<u8> {
        self.bytes@
    }
}

impl<'a> String<'a> {
    /// The view covers a length field and exactly the payload that the
    /// field declares. This holds of every view.
    #[verifier::type_invariant]
    pub open spec fn well_formed(&self) -> bool {
        framed(self@) && self@.len() == 2 + declared_len(self@)
    }

    /// The payload bytes.
    pub open spec fn payload(&self) -> Seq<u8> {
        payload_of(self@)
    }

    /// Interprets the start of `range` as an encoded string.
    ///
    /// Fails with `Truncated` when `range` is too short for a length field
    /// or for the payload that its length field declares. Nothing is copied.
    pub fn from_buffer(range: &'a [u8]) -> (r: Result<String<'a>, Error>)
        ensures
            r is Ok <==> framed(range@),
            r matches Err(e) ==> e == Error::Truncated,
            r matches Ok(s) ==> s@ == frame(range@),
    {
        if range.len() < FIELD_SIZE {
            return Err(Error::Truncated);
        }
        let len = read_u16(range) as usize;
        if range.len() - FIELD_SIZE < len {
            return Err(Error::Truncated);
        }
        let bytes = vstd::slice::slice_subrange(range, 0, FIELD_SIZE + len);
        assert(u16_from_le(bytes@) == u16_from_le(range@));
        Ok(String { bytes })
    }

    /// Encodes `value` into bytes reserved from `mb`.
    ///
    /// Fails with `ValueTooLarge`, before anything is reserved, when the
    /// text is longer than the length field can say, and with `OutOfSpace`
    /// when the arena cannot hold the encoding. Either way the arena is as
    /// it was.
    pub fn new<'b>(mb: &'b mut MessageBuilder<'_>, value: &str) -> (r: Result<String<'b>, Error>)
        ensures
            final(mb).capacity() == old(mb).capacity(),
            final(mb).cursor() <= final(mb).capacity(),
            r is Ok <==> encode_utf8(value@).len() <= FIELD_MAX && old(mb).cursor() + 2
                + encode_utf8(value@).len() <= old(mb).capacity(),
            r matches Err(e) ==> {
                &&& e == if encode_utf8(value@).len() > FIELD_MAX {
                    Error::ValueTooLarge
                } else {
                    Error::OutOfSpace
                }
                &&& final(mb).cursor() == old(mb).cursor()
                &&& final(mb).contents() == old(mb).contents()
            },
            r matches Ok(s) ==> {
                let start = old(mb).cursor() as int;
                let end = start + 2 + encode_utf8(value@).len();
                &&& s@ == encoded(encode_utf8(value@))
                &&& s.payload() == encode_utf8(value@)
                &&& final(mb).cursor() == end
                &&& final(mb).contents() == old(mb).contents().subrange(0, start) + encoded(
                    encode_utf8(value@),
                ) + old(mb).contents().subrange(end, old(mb).capacity() as int)
            },
    {
        proof {
            use_type_invariant(&*mb);
        }
        let payload = value.as_bytes();
        let len = payload.len();
        if len > FIELD_MAX {
            return Err(Error::ValueTooLarge);
        }
        proof {
            lemma_padding(mb.cursor() as int, 1);
        }
        match mb.allocate(FIELD_SIZE + len, 1) {
            Err(e) => Err(e),
            Ok(range) => {
                write_u16(range, len as u16);
                copy_into(range, FIELD_SIZE, payload);
                let bytes = freeze(range);
                assert(bytes@ =~= encoded(payload@));
                proof {
                    lemma_encoded_round_trip(payload@, Seq::empty());
                    assert(encoded(payload@) + Seq::<u8>::empty() =~= encoded(payload@));
                }
                Ok(String { bytes })
            },
        }
    }

    /// The declared payload length, read from the length field alone.
    pub fn size(&self) -> (n: u16)
        ensures
            n == declared_len(self@),
            n == self.payload().len(),
    {
        proof {
            use_type_invariant(self);
        }
        read_u16(self.bytes)
    }

    /// The bytes under the view: length field and payload.
    pub fn as_bytes(&self) -> (bytes: &'a [u8])
        ensures
            bytes@ == self@,
    {
        self.bytes
    }

    /// The payload as text.
    ///
    /// Fails with `InvalidEncoding` when the payload is not well-formed
    /// UTF-8.
    pub fn get(&self) -> (r: Result<&'a str, Error>)
        ensures
            r is Ok <==> valid_utf8(self.payload()),
            r matches Err(e) ==> e == Error::InvalidEncoding,
            r matches Ok(text) ==> encode_utf8(text@) == self.payload() && text@ == decode_utf8(
                self.payload(),
            ),
    {
        proof {
            use_type_invariant(self);
        }
        let payload = vstd::slice::slice_subrange(self.bytes, FIELD_SIZE, self.bytes.len());
        match text_of(payload) {
            Some(text) => {
                proof {
                    encode_utf8_decode_utf8(text@);
                }
                Ok(text)
            },
            None => Err(Error::InvalidEncoding),
        }
    }
}

} // verus!
