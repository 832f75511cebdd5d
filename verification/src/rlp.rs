//! A minimal, strict RLP reader.
//!
//! Only what decoding a transaction needs: walk a list, pull byte strings and
//! integers out of it, and know where in the buffer you stopped. Encodings
//! that are not canonical, such as a leading zero in an integer or a short
//! string written in the long form, are rejected rather than accepted quietly,
//! because the sequencer never emits them and accepting them would let a
//! malformed payload decode into a transaction whose hash is not its hash.

use vstd::prelude::*;
use vstd::slice::slice_subrange;
use vstd::string::*;

use crate::num;
use crate::types::{read_be, Address, B256, U256};

verus! {

/// Why an RLP payload could not be read.
#[derive(Debug, Clone, Copy, PartialEq, Eq, Structural)]
pub enum RlpError {
    /// The buffer ended in the middle of an item.
    Truncated,
    /// The item is validly framed but not in its canonical encoding.
    NonCanonical,
    /// A list was found where a byte string was expected.
    ExpectedString,
    /// A byte string was found where a list was expected.
    ExpectedList,
    /// An integer item was wider than the type it was read into.
    IntegerTooWide,
    /// A fixed-width field (an address, a hash) had the wrong length.
    BadLength,
    /// The list held more items than the transaction layout allows.
    TrailingItems,
}

impl RlpError {
    /// What is wrong, in words.
    pub open spec fn text(self) -> Seq<char> {
        match self {
            Self::Truncated => "RLP input ended mid-item"@,
            Self::NonCanonical => "RLP item is not canonically encoded"@,
            Self::ExpectedString => "expected an RLP byte string, found a list"@,
            Self::ExpectedList => "expected an RLP list, found a byte string"@,
            Self::IntegerTooWide => "RLP integer is too wide for its field"@,
            Self::BadLength => "RLP item has the wrong length for a fixed-width field"@,
            Self::TrailingItems => "RLP list has trailing items"@,
        }
    }

    /// What is wrong, in words.
    #[must_use]
    pub fn to_string(&self) -> (out: String)
        ensures
            out@ == self.text(),
    {
        let text = match self {
            Self::Truncated => "RLP input ended mid-item",
            Self::NonCanonical => "RLP item is not canonically encoded",
            Self::ExpectedString => "expected an RLP byte string, found a list",
            Self::ExpectedList => "expected an RLP list, found a byte string",
            Self::IntegerTooWide => "RLP integer is too wide for its field",
            Self::BadLength => "RLP item has the wrong length for a fixed-width field",
            Self::TrailingItems => "RLP list has trailing items",
        };
        text.to_owned()
    }
}

/// How the item at the front of a buffer announces itself.
pub struct Framing {
    pub is_list: bool,
    /// Bytes of header before the payload.
    pub header: nat,
    /// Bytes of payload.
    pub len: nat,
}

/// One item: whether it is a list, and what it holds.
pub struct Item {
    pub is_list: bool,
    pub payload: Seq<u8>,
}

/// The framing of a long-form item, whose header says in how many bytes its
/// length is written. That length must not start with a zero, and must be one
/// the short form cannot express.
pub open spec fn long_framing(s: Seq<u8>, is_list: bool, len_of_len: nat) -> Result<
    Framing,
    RlpError,
> {
    let len_bytes = s.subrange(1, 1 + len_of_len as int);
    if s.len() < 1 + len_of_len {
        Err(RlpError::Truncated)
    } else if len_bytes[0] == 0 || num::be_value(len_bytes) < 56 {
        Err(RlpError::NonCanonical)
    } else {
        Ok(Framing { is_list, header: 1 + len_of_len, len: num::be_value(len_bytes) })
    }
}

/// The framing of the item at the front of `s`, as its first byte gives it.
pub open spec fn framing(s: Seq<u8>) -> Result<Framing, RlpError> {
    if s.len() == 0 {
        Err(RlpError::Truncated)
    } else if s[0] < 0x80 {
        // A byte below 0x80 encodes itself; there is no header.
        Ok(Framing { is_list: false, header: 0, len: 1 })
    } else if s[0] < 0xb8 {
        Ok(Framing { is_list: false, header: 1, len: (s[0] - 0x80) as nat })
    } else if s[0] < 0xc0 {
        long_framing(s, false, (s[0] - 0xb7) as nat)
    } else if s[0] < 0xf8 {
        Ok(Framing { is_list: true, header: 1, len: (s[0] - 0xc0) as nat })
    } else {
        long_framing(s, true, (s[0] - 0xf7) as nat)
    }
}

/// The item at the front of `s`. Its payload must be there in full, and a
/// lone byte below 0x80 must not carry a header.
#[verifier::opaque]
pub open spec fn read_item(s: Seq<u8>) -> Result<Item, RlpError> {
    match framing(s) {
        Err(e) => Err(e),
        Ok(f) => {
            let payload = s.subrange(f.header as int, (f.header + f.len) as int);
            if s.len() < f.header + f.len {
                Err(RlpError::Truncated)
            } else if !f.is_list && f.header == 1 && f.len == 1 && payload[0] < 0x80 {
                Err(RlpError::NonCanonical)
            } else {
                Ok(Item { is_list: f.is_list, payload })
            }
        },
    }
}

/// How many bytes reading the item at the front of `s` uses up. An item that
/// is cut short uses up only as much of its header as there is.
#[verifier::opaque]
pub open spec fn item_len(s: Seq<u8>) -> nat {
    match framing(s) {
        Ok(f) => if s.len() < f.header + f.len {
            f.header
        } else {
            f.header + f.len
        },
        Err(_) => {
            let len_of_len: nat = if s[0] < 0xc0 {
                (s[0] - 0xb7) as nat
            } else {
                (s[0] - 0xf7) as nat
            };
            if s.len() == 0 {
                0
            } else if s.len() < 1 + len_of_len {
                1
            } else {
                1 + len_of_len
            }
        },
    }
}

/// What follows the item at the front of `s`.
pub open spec fn after_item(s: Seq<u8>) -> Seq<u8> {
    s.skip(item_len(s) as int)
}

/// What follows the first `n` items of `s`.
pub open spec fn after_items(s: Seq<u8>, n: nat) -> Seq<u8>
    decreases n,
{
    if n == 0 {
        s
    } else {
        after_item(after_items(s, (n - 1) as nat))
    }
}

/// The item at the front of `s`, which must be a byte string.
pub open spec fn read_bytes(s: Seq<u8>) -> Result<Seq<u8>, RlpError> {
    match read_item(s) {
        Err(e) => Err(e),
        Ok(item) => if item.is_list {
            Err(RlpError::ExpectedString)
        } else {
            Ok(item.payload)
        },
    }
}

/// The contents of the item at the front of `s`, which must be a list.
pub open spec fn read_list(s: Seq<u8>) -> Result<Seq<u8>, RlpError> {
    match read_item(s) {
        Err(e) => Err(e),
        Ok(item) => if item.is_list {
            Ok(item.payload)
        } else {
            Err(RlpError::ExpectedList)
        },
    }
}

/// The integer at the front of `s`, of at most `max_bytes` bytes and without
/// the leading zeros that would make two encodings of one number possible.
pub open spec fn read_uint(s: Seq<u8>, max_bytes: nat) -> Result<nat, RlpError> {
    match read_bytes(s) {
        Err(e) => Err(e),
        Ok(bytes) => if bytes.len() > 0 && bytes[0] == 0 {
            Err(RlpError::NonCanonical)
        } else if bytes.len() > max_bytes {
            Err(RlpError::IntegerTooWide)
        } else {
            Ok(num::be_value(bytes))
        },
    }
}

/// The byte string at the front of `s`, which must be `width` bytes long.
pub open spec fn read_fixed(s: Seq<u8>, width: nat) -> Result<Seq<u8>, RlpError> {
    match read_bytes(s) {
        Err(e) => Err(e),
        Ok(bytes) => if bytes.len() == width {
            Ok(bytes)
        } else {
            Err(RlpError::BadLength)
        },
    }
}

/// The address at the front of `s`, where the empty string stands for none.
pub open spec fn read_address_opt(s: Seq<u8>) -> Result<Option<Seq<u8>>, RlpError> {
    match read_bytes(s) {
        Err(e) => Err(e),
        Ok(bytes) => if bytes.len() == 0 {
            Ok(None)
        } else if bytes.len() == 20 {
            Ok(Some(bytes))
        } else {
            Err(RlpError::BadLength)
        },
    }
}

/// A buffer that has been read to its end, or an error.
pub open spec fn read_end(s: Seq<u8>) -> Result<(), RlpError> {
    if s.len() == 0 {
        Ok(())
    } else {
        Err(RlpError::TrailingItems)
    }
}

/// A cursor over one RLP payload.
#[derive(Debug)]
pub struct Rlp<'a> {
    buf: &'a [u8],
    pos: usize,
}

impl<'a> Clone for Rlp<'a> {
    fn clone(&self) -> (out: Self)
        ensures
            out.bytes() == self.bytes(),
            out.position() == self.position(),
    {
        proof {
            use_type_invariant(self);
        }
        Self { buf: self.buf, pos: self.pos }
    }
}

impl<'a> Rlp<'a> {
    /// The bytes this cursor walks over.
    pub closed spec fn bytes(&self) -> Seq<u8> {
        self.buf@
    }

    /// How many of them have been read.
    pub closed spec fn position(&self) -> nat {
        self.pos as nat
    }

    /// The bytes still ahead.
    pub open spec fn rest(&self) -> Seq<u8> {
        self.bytes().skip(self.position() as int)
    }

    #[verifier::type_invariant]
    spec fn inv(self) -> bool {
        self.pos <= self.buf@.len()
    }

    /// Whether `after` is this cursor moved past the item at its front.
    pub open spec fn moved_to(&self, after: &Self) -> bool {
        &&& after.bytes() == self.bytes()
        &&& after.position() == self.position() + item_len(self.rest())
        &&& after.rest() == after_item(self.rest())
    }

    pub fn new(buf: &'a [u8]) -> (out: Self)
        ensures
            out.bytes() == buf@,
            out.position() == 0,
            out.rest() == buf@,
    {
        assert(buf@.skip(0) =~= buf@);
        Self { buf, pos: 0 }
    }

    /// The bytes this cursor walks over.
    pub fn buf(&self) -> (out: &'a [u8])
        ensures
            out@ == self.bytes(),
    {
        self.buf
    }

    /// How far into [`Self::buf`] the cursor has read.
    pub fn consumed(&self) -> (out: usize)
        ensures
            out == self.position(),
            out <= self.bytes().len(),
    {
        proof {
            use_type_invariant(self);
        }
        self.pos
    }

    pub fn is_empty(&self) -> (out: bool)
        ensures
            out == (self.rest().len() == 0),
    {
        proof {
            use_type_invariant(self);
        }
        self.pos >= self.buf.len()
    }

    /// Error out unless every item has been read.
    pub fn finish(&self) -> (out: Result<(), RlpError>)
        ensures
            out == read_end(self.rest()),
    {
        if self.is_empty() {
            Ok(())
        } else {
            Err(RlpError::TrailingItems)
        }
    }

    /// Read one item, returning whether it was a list and its payload.
    fn next_item(&mut self) -> (out: Result<(bool, &'a [u8]), RlpError>)
        ensures
            old(self).moved_to(final(self)),
            match out {
                Ok((is_list, payload)) => read_item(old(self).rest()) == Ok::<Item, RlpError>(
                    Item { is_list, payload: payload@ },
                ),
                Err(e) => read_item(old(self).rest()) == Err::<Item, RlpError>(e),
            },
    {
        proof {
            use_type_invariant(&*self);
            reveal(read_item);
            reveal(item_len);
        }
        let ghost s = self.rest();
        let start = self.pos;
        let (is_list, len) = match self.read_framing() {
            Ok(framed) => framed,
            Err(e) => {
                proof {
                    use_type_invariant(&*self);
                    assert(self.buf.len() <= usize::MAX);
                    assert(self.rest() =~= s.skip(item_len(s) as int));
                }
                return Err(e);
            },
        };
        proof {
            use_type_invariant(&*self);
        }

        let payload_at = self.pos;
        if self.buf.len() - payload_at < len {
            assert(self.rest() =~= s.skip(item_len(s) as int));
            return Err(RlpError::Truncated);
        }
        let end = payload_at + len;
        let payload = slice_subrange(self.buf, payload_at, end);
        self.pos = end;
        assert(payload@ =~= s.subrange(payload_at - start, end - start));
        assert(self.rest() =~= s.skip(item_len(s) as int));

        // A lone byte below 0x80 must use the one-byte form, not 0x81 0xNN.
        if !is_list && payload_at > start && len == 1 && payload[0] < 0x80 {
            return Err(RlpError::NonCanonical);
        }
        Ok((is_list, payload))
    }

    /// Read the header of an item, if it has one: whether the item is a list,
    /// and how long its payload is.
    fn read_framing(&mut self) -> (out: Result<(bool, usize), RlpError>)
        ensures
            final(self).bytes() == old(self).bytes(),
            match framing(old(self).rest()) {
                Ok(f) => {
                    &&& final(self).position() == old(self).position() + f.header
                    &&& f.len <= usize::MAX ==> out == Ok::<(bool, usize), RlpError>(
                        (f.is_list, f.len as usize),
                    )
                    &&& f.len > usize::MAX ==> out == Err::<(bool, usize), RlpError>(
                        RlpError::Truncated,
                    )
                },
                Err(e) => {
                    &&& final(self).position() == old(self).position() + item_len(old(self).rest())
                    &&& out == Err::<(bool, usize), RlpError>(e)
                },
            },
    {
        proof {
            use_type_invariant(&*self);
            reveal(item_len);
        }
        let ghost s = self.rest();
        let start = self.pos;
        if start >= self.buf.len() {
            return Err(RlpError::Truncated);
        }
        let first = self.buf[start];
        assert(first == s[0]);
        if first < 0x80 {
            // A byte below 0x80 encodes itself; there is no header to skip.
            return Ok((false, 1));
        }
        self.pos = start + 1;
        assert(self.rest() =~= s.skip(1));

        if first < 0xb8 {
            Ok((false, (first - 0x80) as usize))
        } else if first < 0xc0 {
            let len_of_len: usize = (first - 0xb7) as usize;
            assert(s.len() >= 1 + len_of_len ==> s.skip(1).take(len_of_len as int)
                =~= s.subrange(1, 1 + len_of_len as int));
            match self.read_long_len(len_of_len) {
                Ok(len) => Ok((false, len)),
                Err(e) => Err(e),
            }
        } else if first < 0xf8 {
            Ok((true, (first - 0xc0) as usize))
        } else {
            let len_of_len: usize = (first - 0xf7) as usize;
            assert(s.len() >= 1 + len_of_len ==> s.skip(1).take(len_of_len as int)
                =~= s.subrange(1, 1 + len_of_len as int));
            match self.read_long_len(len_of_len) {
                Ok(len) => Ok((true, len)),
                Err(e) => Err(e),
            }
        }
    }

    /// Read the length that follows a long-form header byte.
    fn read_long_len(&mut self, len_of_len: usize) -> (out: Result<usize, RlpError>)
        requires
            0 < len_of_len <= 8,
        ensures
            final(self).bytes() == old(self).bytes(),
            ({
                let s = old(self).rest();
                let len_bytes = s.take(len_of_len as int);
                if s.len() < len_of_len {
                    &&& out == Err::<usize, RlpError>(RlpError::Truncated)
                    &&& final(self).position() == old(self).position()
                } else {
                    &&& final(self).position() == old(self).position() + len_of_len
                    &&& if len_bytes[0] == 0 || num::be_value(len_bytes) < 56 {
                        out == Err::<usize, RlpError>(RlpError::NonCanonical)
                    } else if num::be_value(len_bytes) > usize::MAX {
                        out == Err::<usize, RlpError>(RlpError::Truncated)
                    } else {
                        out == Ok::<usize, RlpError>(num::be_value(len_bytes) as usize)
                    }
                }
            }),
    {
        proof {
            use_type_invariant(&*self);
        }
        let start = self.pos;
        if self.buf.len() - start < len_of_len {
            return Err(RlpError::Truncated);
        }
        let end = start + len_of_len;
        let bytes = slice_subrange(self.buf, start, end);
        assert(bytes@ =~= self.rest().take(len_of_len as int));
        self.pos = end;

        if bytes[0] == 0 {
            return Err(RlpError::NonCanonical);
        }
        let len: u128 = read_be(bytes);
        // Lengths below 56 have a short form and must use it.
        if len < 56 {
            return Err(RlpError::NonCanonical);
        }
        if len > usize::MAX as u128 {
            return Err(RlpError::Truncated);
        }
        Ok(len as usize)
    }

    /// Read a byte string item.
    pub fn next_bytes(&mut self) -> (out: Result<&'a [u8], RlpError>)
        ensures
            old(self).moved_to(final(self)),
            match out {
                Ok(bytes) => read_bytes(old(self).rest()) == Ok::<Seq<u8>, RlpError>(bytes@),
                Err(e) => read_bytes(old(self).rest()) == Err::<Seq<u8>, RlpError>(e),
            },
    {
        match self.next_item() {
            Ok((is_list, payload)) => if is_list {
                Err(RlpError::ExpectedString)
            } else {
                Ok(payload)
            },
            Err(e) => Err(e),
        }
    }

    /// Read a list item, returning a cursor over its contents.
    pub fn next_list(&mut self) -> (out: Result<Self, RlpError>)
        ensures
            old(self).moved_to(final(self)),
            match out {
                Ok(list) => {
                    &&& read_list(old(self).rest()) == Ok::<Seq<u8>, RlpError>(list.bytes())
                    &&& list.position() == 0
                    &&& list.rest() == list.bytes()
                },
                Err(e) => read_list(old(self).rest()) == Err::<Seq<u8>, RlpError>(e),
            },
    {
        match self.next_item() {
            Ok((is_list, payload)) => if is_list {
                Ok(Self::new(payload))
            } else {
                Err(RlpError::ExpectedList)
            },
            Err(e) => Err(e),
        }
    }

    /// Read an integer item, rejecting the leading zeros that would make two
    /// encodings of the same number possible.
    fn next_int(&mut self, max_bytes: usize) -> (out: Result<&'a [u8], RlpError>)
        ensures
            old(self).moved_to(final(self)),
            match out {
                Ok(bytes) => {
                    &&& read_uint(old(self).rest(), max_bytes as nat) == Ok::<nat, RlpError>(
                        num::be_value(bytes@),
                    )
                    &&& bytes@.len() <= max_bytes
                },
                Err(e) => read_uint(old(self).rest(), max_bytes as nat) == Err::<nat, RlpError>(e),
            },
    {
        let bytes = match self.next_bytes() {
            Ok(bytes) => bytes,
            Err(e) => {
                return Err(e);
            },
        };
        if bytes.len() > 0 && bytes[0] == 0 {
            return Err(RlpError::NonCanonical);
        }
        if bytes.len() > max_bytes {
            return Err(RlpError::IntegerTooWide);
        }
        Ok(bytes)
    }

    /// Read a 64-bit integer.
    pub fn next_u64(&mut self) -> (out: Result<u64, RlpError>)
        ensures
            old(self).moved_to(final(self)),
            match out {
                Ok(n) => read_uint(old(self).rest(), 8) == Ok::<nat, RlpError>(n as nat),
                Err(e) => read_uint(old(self).rest(), 8) == Err::<nat, RlpError>(e),
            },
    {
        match self.next_int(8) {
            Ok(bytes) => {
                proof {
                    num::lemma_be_value_bound(bytes@);
                    num::lemma_pow256_monotonic(bytes@.len(), 8);
                    num::lemma_pow256_values();
                }
                Ok(read_be(bytes) as u64)
            },
            Err(e) => Err(e),
        }
    }

    /// Read a 128-bit integer.
    pub fn next_u128(&mut self) -> (out: Result<u128, RlpError>)
        ensures
            old(self).moved_to(final(self)),
            match out {
                Ok(n) => read_uint(old(self).rest(), 16) == Ok::<nat, RlpError>(n as nat),
                Err(e) => read_uint(old(self).rest(), 16) == Err::<nat, RlpError>(e),
            },
    {
        match self.next_int(16) {
            Ok(bytes) => Ok(read_be(bytes)),
            Err(e) => Err(e),
        }
    }

    /// Read a 256-bit integer.
    pub fn next_u256(&mut self) -> (out: Result<U256, RlpError>)
        ensures
            old(self).moved_to(final(self)),
            match out {
                Ok(n) => read_uint(old(self).rest(), 32) == Ok::<nat, RlpError>(n@),
                Err(e) => read_uint(old(self).rest(), 32) == Err::<nat, RlpError>(e),
            },
    {
        match self.next_int(32) {
            Ok(bytes) => match U256::from_be_slice(bytes) {
                Some(n) => Ok(n),
                None => Err(RlpError::IntegerTooWide),
            },
            Err(e) => Err(e),
        }
    }

    /// Read a 32-byte hash.
    pub fn next_b256(&mut self) -> (out: Result<B256, RlpError>)
        ensures
            old(self).moved_to(final(self)),
            match out {
                Ok(hash) => read_fixed(old(self).rest(), 32) == Ok::<Seq<u8>, RlpError>(hash@),
                Err(e) => read_fixed(old(self).rest(), 32) == Err::<Seq<u8>, RlpError>(e),
            },
    {
        match self.next_bytes() {
            Ok(bytes) => match B256::from_slice(bytes) {
                Some(hash) => Ok(hash),
                None => Err(RlpError::BadLength),
            },
            Err(e) => Err(e),
        }
    }

    /// Read an address, where the empty string means contract creation.
    pub fn next_address_opt(&mut self) -> (out: Result<Option<Address>, RlpError>)
        ensures
            old(self).moved_to(final(self)),
            match out {
                Ok(Some(to)) => read_address_opt(old(self).rest()) == Ok::<
                    Option<Seq<u8>>,
                    RlpError,
                >(Some(to@)),
                Ok(None) => read_address_opt(old(self).rest()) == Ok::<Option<Seq<u8>>, RlpError>(
                    None,
                ),
                Err(e) => read_address_opt(old(self).rest()) == Err::<Option<Seq<u8>>, RlpError>(e),
            },
    {
        let bytes = match self.next_bytes() {
            Ok(bytes) => bytes,
            Err(e) => {
                return Err(e);
            },
        };
        if bytes.len() == 0 {
            return Ok(None);
        }
        match Address::from_slice(bytes) {
            Some(to) => Ok(Some(to)),
            None => Err(RlpError::BadLength),
        }
    }

    /// Read an address that must be present.
    pub fn next_address(&mut self) -> (out: Result<Address, RlpError>)
        ensures
            old(self).moved_to(final(self)),
            match out {
                Ok(to) => read_fixed(old(self).rest(), 20) == Ok::<Seq<u8>, RlpError>(to@),
                Err(e) => read_fixed(old(self).rest(), 20) == Err::<Seq<u8>, RlpError>(e),
            },
    {
        match self.next_bytes() {
            Ok(bytes) => match Address::from_slice(bytes) {
                Some(to) => Ok(to),
                None => Err(RlpError::BadLength),
            },
            Err(e) => Err(e),
        }
    }
}

/// The header in front of a payload of `len` bytes, where `short` is the first
/// byte that stands for an empty payload: 0x80 for strings, 0xc0 for lists.
pub open spec fn length_prefix(short: nat, len: nat) -> Seq<u8> {
    if len < 56 {
        seq![(short + len) as u8]
    } else {
        seq![(short + 55 + num::be_bytes(len).len()) as u8] + num::be_bytes(len)
    }
}

/// The canonical encoding of a byte string.
pub open spec fn encode_bytes(s: Seq<u8>) -> Seq<u8> {
    if s.len() == 1 && s[0] < 0x80 {
        s
    } else {
        length_prefix(0x80, s.len()) + s
    }
}

/// The canonical encoding of a list whose items are already encoded.
pub open spec fn encode_list(payload: Seq<u8>) -> Seq<u8> {
    length_prefix(0xc0, payload.len()) + payload
}

/// The canonical encoding of an integer.
pub open spec fn encode_uint(n: nat) -> Seq<u8> {
    encode_bytes(num::be_bytes(n))
}

/// The canonical encoding of an item.
pub open spec fn encode_item(item: Item) -> Seq<u8> {
    if item.is_list {
        encode_list(item.payload)
    } else {
        encode_bytes(item.payload)
    }
}

/// Append the shortest big-endian form of a number.
fn push_be(out: &mut Vec<u8>, n: u64)
    ensures
        final(out)@ == old(out)@ + num::be_bytes(n as nat),
    decreases n,
{
    if n > 0 {
        push_be(out, n / 256);
        out.push((n % 256) as u8);
    }
    assert(out@ =~= old(out)@ + num::be_bytes(n as nat));
}

/// How many bytes the shortest big-endian form of a number takes.
fn be_len(n: u64) -> (out: u8)
    ensures
        out == num::be_bytes(n as nat).len(),
        out <= 8,
    decreases n,
{
    proof {
        num::lemma_pow256_values();
        num::lemma_be_bytes_len(n as nat, 8);
    }
    if n == 0 {
        0
    } else {
        be_len(n / 256) + 1
    }
}

/// Write the header for a list whose payload is `len` bytes.
pub fn encode_list_header(len: usize, out: &mut Vec<u8>)
    ensures
        final(out)@ == old(out)@ + length_prefix(0xc0, len as nat),
{
    if len < 56 {
        // `len` is below 56, so the sum stays inside a byte.
        out.push(0xc0 + len as u8);
    } else {
        out.push(0xf7 + be_len(len as u64));
        push_be(out, len as u64);
    }
    assert(out@ =~= old(out)@ + length_prefix(0xc0, len as nat));
}

/// Write an integer as a canonical RLP item.
pub fn encode_u64(value: u64, out: &mut Vec<u8>)
    ensures
        final(out)@ == old(out)@ + encode_uint(value as nat),
{
    if 0 < value && value < 0x80 {
        out.push(value as u8);
        proof {
            reveal_with_fuel(num::be_bytes, 2);
            assert(num::be_bytes(value as nat) =~= seq![value as u8]);
        }
    } else {
        out.push(0x80 + be_len(value));
        push_be(out, value);
        proof {
            let bytes = num::be_bytes(value as nat);
            if bytes.len() == 1 && bytes[0] < 0x80 {
                num::lemma_be_bytes_value(value as nat);
                num::lemma_be_value_single(bytes[0]);
                assert(bytes =~= seq![bytes[0]]);
            }
        }
    }
    assert(out@ =~= old(out)@ + encode_uint(value as nat));
}

/// A canonical encoding reads back as what was encoded, whatever follows it,
/// and exactly the encoding is used up.
pub proof fn encoded_item_reads_back(item: Item, tail: Seq<u8>)
    requires
        item.payload.len() < num::pow256(8),
    ensures
        read_item(encode_item(item) + tail) == Ok::<Item, RlpError>(item),
        item_len(encode_item(item) + tail) == encode_item(item).len(),
        after_item(encode_item(item) + tail) == tail,
{
    reveal(read_item);
    reveal(item_len);
    let p = item.payload;
    let n = p.len();
    let e = encode_item(item);
    let s = e + tail;
    let short: nat = if item.is_list {
        0xc0
    } else {
        0x80
    };
    if !item.is_list && n == 1 && p[0] < 0x80 {
        assert(s[0] == p[0]);
        assert(s.subrange(0, 1) =~= p);
    } else {
        let h = length_prefix(short, n);
        assert(e == h + p);
        assert(s[0] == h[0]);
        if n < 56 {
            assert(s.subrange(1, 1 + n as int) =~= p);
            if n == 1 {
                assert(p[0] == s.subrange(1, 2)[0]);
            }
        } else {
            let b = num::be_bytes(n);
            num::lemma_be_bytes_value(n);
            num::lemma_be_bytes_len(n, 8);
            assert(h.len() == 1 + b.len());
            assert(s.subrange(1, 1 + b.len() as int) =~= b);
            assert(s.subrange((1 + b.len()) as int, (1 + b.len() + n) as int) =~= p);
        }
    }
    assert(s.skip(e.len() as int) =~= tail);
}

/// Whatever reads as an item was its canonical encoding: there is no second
/// way to write it.
pub proof fn read_item_is_canonical(s: Seq<u8>)
    requires
        read_item(s) is Ok,
    ensures
        s == encode_item(read_item(s)->Ok_0) + after_item(s),
        0 < item_len(s) <= s.len(),
        read_item(s)->Ok_0.payload.len() < num::pow256(8),
{
    reveal(read_item);
    reveal(item_len);
    let item = read_item(s)->Ok_0;
    let f = framing(s)->Ok_0;
    let p = item.payload;
    num::lemma_pow256_values();
    if s[0] >= 0x80 {
        if f.len >= 56 {
            let b = s.subrange(1, f.header as int);
            num::lemma_be_value_bytes(b);
            num::lemma_be_value_bound(b);
            num::lemma_pow256_monotonic(b.len(), 8);
            assert(num::be_bytes(p.len()) == b);
        }
        assert(s =~= encode_item(item) + after_item(s));
    } else {
        assert(s =~= p + after_item(s));
    }
}

/// Reading an item never uses up more than there is, and uses up something
/// whenever it succeeds.
pub proof fn item_len_bound(s: Seq<u8>)
    ensures
        item_len(s) <= s.len(),
        read_item(s) is Ok ==> item_len(s) > 0,
{
    reveal(read_item);
    reveal(item_len);
}

/// A number is written in no fewer bytes than a smaller one.
pub proof fn encode_uint_len_monotonic(a: nat, b: nat)
    requires
        a <= b < num::pow256(8),
    ensures
        encode_uint(a).len() <= encode_uint(b).len() <= 9,
{
    num::lemma_be_bytes_len_monotonic(a, b);
    num::lemma_be_bytes_len(b, 8);
    let sa = num::be_bytes(a);
    let sb = num::be_bytes(b);
    num::lemma_be_bytes_value(a);
    num::lemma_be_bytes_value(b);
    if sb.len() == 1 && sa.len() == 1 {
        assert(sa =~= seq![sa[0]] && sb =~= seq![sb[0]]);
        num::lemma_be_value_single(sa[0]);
        num::lemma_be_value_single(sb[0]);
    }
}

/// An integer that was read was written as the canonical encoding of its
/// value.
pub proof fn read_uint_is_canonical(s: Seq<u8>, max_bytes: nat)
    requires
        read_uint(s, max_bytes) is Ok,
    ensures
        s == encode_uint(read_uint(s, max_bytes)->Ok_0) + after_item(s),
        item_len(s) == encode_uint(read_uint(s, max_bytes)->Ok_0).len(),
        read_uint(s, max_bytes)->Ok_0 < num::pow256(max_bytes),
{
    read_item_is_canonical(s);
    let bytes = read_bytes(s)->Ok_0;
    num::lemma_be_value_bytes(bytes);
    num::lemma_be_value_bound(bytes);
    num::lemma_pow256_monotonic(bytes.len(), max_bytes);
}

/// The canonical encoding of a number reads back as that number, whatever
/// follows it, if it is read at a width the number fits.
pub proof fn encoded_uint_reads_back(n: nat, max_bytes: nat, tail: Seq<u8>)
    requires
        n < num::pow256(max_bytes),
        max_bytes <= 32,
    ensures
        read_uint(encode_uint(n) + tail, max_bytes) == Ok::<nat, RlpError>(n),
        after_item(encode_uint(n) + tail) == tail,
{
    let bytes = num::be_bytes(n);
    num::lemma_be_bytes_value(n);
    num::lemma_be_bytes_len(n, max_bytes);
    num::lemma_pow256_values();
    encoded_item_reads_back(Item { is_list: false, payload: bytes }, tail);
}

/// Encodings have the standard form. A byte below 0x80 stands for itself. Up to
/// 55 bytes, one byte in front says how many there are, counted from 0x80 for a
/// byte string and from 0xc0 for a list. From 56 on, it says how many bytes the
/// length takes, counted from 0xb7 and 0xf7, and the length follows it in big
/// endian without leading zeros.
pub proof fn encodings_have_the_standard_form(payload: Seq<u8>, is_list: bool, n: nat)
    requires
        payload.len() < num::pow256(8),
    ensures
        ({
            let e = encode_item(Item { is_list, payload });
            let len = payload.len();
            let h = e.len() - len;
            let base: int = if is_list {
                0xc0
            } else {
                0x80
            };
            &&& !is_list && len == 1 && payload[0] < 0x80 ==> e == payload
            &&& is_list || len != 1 || payload[0] >= 0x80 ==> {
                &&& e.skip(h) == payload
                &&& len < 56 ==> h == 1 && e[0] == base + len
                &&& len >= 56 ==> {
                    &&& 2 <= h <= 9
                    &&& e[0] == base + 55 + (h - 1)
                    &&& e[1] != 0
                    &&& num::be_value(e.subrange(1, h)) == len
                }
            }
        }),
        encode_uint(n) == encode_item(Item { is_list: false, payload: num::be_bytes(n) }),
{
    let item = Item { is_list, payload };
    let e = encode_item(item);
    let len = payload.len();
    let short: nat = if is_list {
        0xc0
    } else {
        0x80
    };
    if is_list || len != 1 || payload[0] >= 0x80 {
        let front = length_prefix(short, len);
        assert(e == front + payload);
        assert(e.skip(front.len() as int) =~= payload);
        if len >= 56 {
            let b = num::be_bytes(len);
            num::lemma_be_bytes_value(len);
            num::lemma_be_bytes_len(len, 8);
            assert(b.len() >= 1);
            assert(e.subrange(1, (1 + b.len()) as int) =~= b);
            assert(e[1] == b[0]);
        }
    }
}

/// An encoding that is cut short anywhere is said to be, and so is nothing at
/// all.
pub proof fn cut_short_is_truncated(item: Item, len: int)
    requires
        item.payload.len() < num::pow256(8),
        0 <= len < encode_item(item).len(),
    ensures
        read_item(encode_item(item).take(len)) == Err::<Item, RlpError>(RlpError::Truncated),
{
    reveal(read_item);
    let e = encode_item(item);
    let s = e.take(len);
    let p = item.payload;
    let n = p.len();
    let short: nat = if item.is_list {
        0xc0
    } else {
        0x80
    };
    if len > 0 {
        assert(s[0] == e[0]);
        if !(!item.is_list && n == 1 && p[0] < 0x80) {
            let h = length_prefix(short, n);
            assert(e == h + p);
            assert(e[0] == h[0]);
            if n >= 56 {
                let b = num::be_bytes(n);
                num::lemma_be_bytes_value(n);
                num::lemma_be_bytes_len(n, 8);
                if len >= 1 + b.len() {
                    assert(s.subrange(1, 1 + b.len() as int) =~= b);
                }
            }
        }
    }
}

/// What could have been written shorter is refused: a byte below 0x80 behind a
/// header, and a length that starts with a zero or that one byte could say.
pub proof fn longer_forms_are_refused(byte: u8, first: u8, length: Seq<u8>, tail: Seq<u8>)
    requires
        byte < 0x80,
        0xb8 <= first <= 0xbf || 0xf8 <= first,
        first < 0xc0 ==> length.len() == first - 0xb7,
        first >= 0xc0 ==> length.len() == first - 0xf7,
        length[0] == 0 || num::be_value(length) < 56,
    ensures
        read_item(seq![0x81u8, byte] + tail) == Err::<Item, RlpError>(RlpError::NonCanonical),
        read_item(seq![first] + length + tail) == Err::<Item, RlpError>(RlpError::NonCanonical),
{
    reveal(read_item);
    let a = seq![0x81u8, byte] + tail;
    assert(a.subrange(1, 2)[0] == byte);
    let s = seq![first] + length + tail;
    assert(s.subrange(1, 1 + length.len() as int) =~= length);
}

/// A list is not taken for a byte string, nor a byte string for a list.
pub proof fn lists_and_strings_are_told_apart(payload: Seq<u8>, tail: Seq<u8>)
    requires
        payload.len() < num::pow256(8),
    ensures
        read_bytes(encode_bytes(payload) + tail) == Ok::<Seq<u8>, RlpError>(payload),
        read_list(encode_list(payload) + tail) == Ok::<Seq<u8>, RlpError>(payload),
        read_bytes(encode_list(payload) + tail) == Err::<Seq<u8>, RlpError>(
            RlpError::ExpectedString,
        ),
        read_list(encode_bytes(payload) + tail) == Err::<Seq<u8>, RlpError>(
            RlpError::ExpectedList,
        ),
{
    encoded_item_reads_back(Item { is_list: false, payload }, tail);
    encoded_item_reads_back(Item { is_list: true, payload }, tail);
}

/// A number is refused if it is written with a leading zero or in more bytes
/// than its field has, and a field of fixed width if it has another. An
/// optional address is an address or nothing.
pub proof fn fields_have_their_widths(bytes: Seq<u8>, width: nat, tail: Seq<u8>)
    requires
        bytes.len() < num::pow256(8),
    ensures
        bytes.len() > 0 && bytes[0] == 0 ==> read_uint(encode_bytes(bytes) + tail, width) == Err::<
            nat,
            RlpError,
        >(RlpError::NonCanonical),
        bytes.len() > width && bytes[0] != 0 ==> read_uint(encode_bytes(bytes) + tail, width)
            == Err::<nat, RlpError>(RlpError::IntegerTooWide),
        bytes.len() == width ==> read_fixed(encode_bytes(bytes) + tail, width) == Ok::<
            Seq<u8>,
            RlpError,
        >(bytes),
        bytes.len() != width ==> read_fixed(encode_bytes(bytes) + tail, width) == Err::<
            Seq<u8>,
            RlpError,
        >(RlpError::BadLength),
        bytes.len() == 0 ==> read_address_opt(encode_bytes(bytes) + tail) == Ok::<
            Option<Seq<u8>>,
            RlpError,
        >(None),
        bytes.len() == 20 ==> read_address_opt(encode_bytes(bytes) + tail) == Ok::<
            Option<Seq<u8>>,
            RlpError,
        >(Some(bytes)),
        bytes.len() != 0 && bytes.len() != 20 ==> read_address_opt(encode_bytes(bytes) + tail)
            == Err::<Option<Seq<u8>>, RlpError>(RlpError::BadLength),
{
    encoded_item_reads_back(Item { is_list: false, payload: bytes }, tail);
}

/// A cursor is at its end exactly when nothing is left, and finishing anywhere
/// else is refused.
pub proof fn cursors_end_where_they_say(cursor: &Rlp<'_>, empty: bool, out: Result<(), RlpError>)
    requires
        call_ensures(Rlp::is_empty, (cursor,), empty),
        call_ensures(Rlp::finish, (cursor,), out),
    ensures
        empty <==> cursor.rest().len() == 0,
        empty ==> out is Ok,
        !empty ==> out == Err::<(), RlpError>(RlpError::TrailingItems),
{
}

/// A cursor in front of what was encoded reads just that, at the width it is
/// asked for, and stands right behind it.
pub proof fn cursors_read_what_was_encoded(
    cursor: &mut Rlp<'_>,
    n: nat,
    bytes: Seq<u8>,
    tail: Seq<u8>,
    small: Result<u64, RlpError>,
    wide: Result<u128, RlpError>,
    full: Result<U256, RlpError>,
    hash: Result<B256, RlpError>,
    address: Result<Address, RlpError>,
    recipient: Result<Option<Address>, RlpError>,
)
    requires
        bytes.len() < num::pow256(8),
    ensures
        old(cursor).rest() == encode_uint(n) + tail && n < num::pow256(8) && call_ensures(
            Rlp::next_u64,
            (cursor,),
            small,
        ) ==> (small matches Ok(read) && read == n) && final(cursor).rest() == tail,
        old(cursor).rest() == encode_uint(n) + tail && n < num::pow256(16) && call_ensures(
            Rlp::next_u128,
            (cursor,),
            wide,
        ) ==> (wide matches Ok(read) && read == n) && final(cursor).rest() == tail,
        old(cursor).rest() == encode_uint(n) + tail && n < num::pow256(32) && call_ensures(
            Rlp::next_u256,
            (cursor,),
            full,
        ) ==> (full matches Ok(read) && read@ == n) && final(cursor).rest() == tail,
        old(cursor).rest() == encode_bytes(bytes) + tail && bytes.len() == 32 && call_ensures(
            Rlp::next_b256,
            (cursor,),
            hash,
        ) ==> (hash matches Ok(read) && read@ == bytes) && final(cursor).rest() == tail,
        old(cursor).rest() == encode_bytes(bytes) + tail && bytes.len() == 20 && call_ensures(
            Rlp::next_address,
            (cursor,),
            address,
        ) ==> (address matches Ok(read) && read@ == bytes) && final(cursor).rest() == tail,
        old(cursor).rest() == encode_bytes(bytes) + tail && bytes.len() == 20 && call_ensures(
            Rlp::next_address_opt,
            (cursor,),
            recipient,
        ) ==> (recipient matches Ok(Some(read)) && read@ == bytes) && final(cursor).rest() == tail,
        old(cursor).rest() == encode_bytes(bytes) + tail && bytes.len() == 0 && call_ensures(
            Rlp::next_address_opt,
            (cursor,),
            recipient,
        ) ==> (recipient matches Ok(None)) && final(cursor).rest() == tail,
{
    encoded_item_reads_back(Item { is_list: false, payload: bytes }, tail);
    if n < num::pow256(32) {
        encoded_uint_reads_back(n, 32, tail);
    }
    if n < num::pow256(16) {
        encoded_uint_reads_back(n, 16, tail);
    }
    if n < num::pow256(8) {
        encoded_uint_reads_back(n, 8, tail);
    }
}

} // verus!
