//! Writing a cache, and reading one, a value at a time.

use vstd::prelude::*;
use vstd::slice::{slice_subrange, slice_to_vec};
use vstd::utf8::{decode_utf8, encode_utf8, valid_utf8};

use crate::cache::error::CacheError;
use crate::cache::numbers;
use crate::cache::numbers::{from_zigzag, read_number, to_zigzag, write_number, Outcome};
use crate::text::text_of;

verus! {

/// The bytes of a name, at most. No name on any filesystem comes close; this
/// bounds the allocation a corrupt length could ask for.
pub const LONGEST_NAME: usize = 65_536;

/// `text` with the number of its bytes before them.
pub open spec fn framed(text: Seq<char>) -> Seq<u8> {
    numbers::leb(encode_utf8(text).len()) + encode_utf8(text)
}

/// The text that stands at `at`.
pub open spec fn text_at(bytes: Seq<u8>, at: int) -> Outcome<Seq<char>> {
    match numbers::number_at(bytes, at) {
        Ok((length, next)) => {
            if length > usize::MAX {
                Err(CacheError::NameLongerThanMemory)
            } else if length > LONGEST_NAME {
                Err(CacheError::NameTooLong)
            } else if next + length > bytes.len() {
                Err(CacheError::Truncated)
            } else if valid_utf8(bytes.subrange(next, next + length)) {
                Ok((decode_utf8(bytes.subrange(next, next + length)), next + length))
            } else {
                Err(CacheError::NameNotUtf8)
            }
        },
        Err(error) => Err(error),
    }
}

/// The byte that stands at `at`.
pub open spec fn byte_at(bytes: Seq<u8>, at: int) -> Outcome<u8> {
    if at < bytes.len() {
        Ok((bytes[at], at + 1))
    } else {
        Err(CacheError::Truncated)
    }
}

/// What is written of a cache so far.
#[derive(Debug)]
pub struct Writer {
    bytes: Vec<u8>,
}

impl View for Writer {
    type V = Seq<u8>;

    closed spec fn view(&self) -> Seq<u8> {
        self.bytes@
    }
}

impl Writer {
    /// Nothing written yet.
    pub fn new() -> (writer: Self)
        ensures
            writer@.len() == 0,
    {
        Writer { bytes: Vec::new() }
    }

    /// What is written.
    pub fn into_bytes(self) -> (bytes: Vec<u8>)
        ensures
            bytes@ == self@,
    {
        self.bytes
    }

    /// One byte.
    pub fn byte(&mut self, byte: u8)
        ensures
            final(self)@ == old(self)@.push(byte),
    {
        self.bytes.push(byte);
    }

    /// LEB128: most sizes and counts fit in one to four bytes.
    pub fn varint(&mut self, value: u64)
        ensures
            final(self)@ == old(self)@ + numbers::leb(value as nat),
    {
        write_number(&mut self.bytes, value);
    }

    pub fn signed(&mut self, value: i64)
        ensures
            final(self)@ == old(self)@ + numbers::leb(numbers::zigzag(value)),
    {
        // Zigzag, so small negative times stay short.
        self.varint(to_zigzag(value));
    }

    pub fn string(&mut self, value: &str)
        ensures
            final(self)@ == old(self)@ + framed(value@),
    {
        let ghost before = self@;
        let text = value.as_bytes();
        self.varint(text.len() as u64);
        self.bytes.extend_from_slice(text);
        assert(self@ =~= before + framed(value@));
    }
}

/// A cache, and how far it is read.
#[derive(Debug)]
pub struct Reader<'a> {
    bytes: &'a [u8],
    position: usize,
}

impl<'a> Reader<'a> {
    /// The cache.
    pub closed spec fn all(self) -> Seq<u8> {
        self.bytes@
    }

    /// How much of it is read.
    pub closed spec fn at(self) -> int {
        self.position as int
    }

    /// Nothing read yet.
    pub fn new(bytes: &'a [u8]) -> (reader: Self)
        ensures
            reader.all() == bytes@,
            reader.at() == 0,
    {
        Reader { bytes, position: 0 }
    }

    /// Whether reading from `old` on came to `outcome`: then this is behind
    /// what was read, or an error says what is off.
    pub open spec fn read<T, U>(
        self,
        old: Self,
        outcome: Outcome<T>,
        result: Result<U, CacheError>,
        view: spec_fn(U) -> T,
    ) -> bool {
        &&& self.all() == old.all()
        &&& match result {
            Ok(value) => outcome == Ok::<_, CacheError>((view(value), self.at())),
            Err(error) => outcome == Err::<(T, int), _>(error),
        }
    }

    /// One byte.
    pub fn byte(&mut self) -> (result: Result<u8, CacheError>)
        ensures
            final(self).read(
                *old(self),
                byte_at(old(self).all(), old(self).at()),
                result,
                |byte: u8| byte,
            ),
    {
        if self.position >= self.bytes.len() {
            return Err(CacheError::Truncated);
        }
        let byte: u8 = self.bytes[self.position];
        self.position = self.position + 1;
        Ok(byte)
    }

    pub fn varint(&mut self) -> (result: Result<u64, CacheError>)
        ensures
            final(self).read(
                *old(self),
                numbers::number_at(old(self).all(), old(self).at()),
                result,
                |value: u64| value as nat,
            ),
    {
        match read_number(self.bytes, self.position) {
            Ok((value, next)) => {
                self.position = next;
                Ok(value)
            },
            Err(error) => Err(error),
        }
    }

    pub fn signed(&mut self) -> (result: Result<i64, CacheError>)
        ensures
            final(self).read(
                *old(self),
                numbers::signed_at(old(self).all(), old(self).at()),
                result,
                |value: i64| value,
            ),
    {
        match self.varint() {
            Ok(raw) => Ok(from_zigzag(raw)),
            Err(error) => Err(error),
        }
    }

    pub fn string(&mut self) -> (result: Result<String, CacheError>)
        ensures
            final(self).read(
                *old(self),
                text_at(old(self).all(), old(self).at()),
                result,
                |text: String| text@,
            ),
    {
        let ghost before = *self;
        let length: u64 = match self.varint() {
            Ok(length) => length,
            Err(error) => return Err(error),
        };
        proof {
            numbers::lemma_number_from(before.all(), before.at(), 0);
        }
        if length > usize::MAX as u64 {
            return Err(CacheError::NameLongerThanMemory);
        }
        let length: usize = length as usize;
        // No name on any filesystem comes close; this bounds the allocation
        // a corrupt length could ask for.
        if length > LONGEST_NAME {
            return Err(CacheError::NameTooLong);
        }
        if length > self.bytes.len() - self.position {
            return Err(CacheError::Truncated);
        }
        let end: usize = self.position + length;
        let bytes = slice_to_vec(slice_subrange(self.bytes, self.position, end));
        proof {
            assert(bytes@ =~= before.all().subrange(self.at(), self.at() + length));
        }
        match text_of(bytes) {
            Some(text) => {
                proof {
                    vstd::utf8::encode_utf8_decode_utf8(text@);
                }
                self.position = end;
                Ok(text)
            },
            None => Err(CacheError::NameNotUtf8),
        }
    }
}

} // verus!
