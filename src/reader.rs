use vstd::prelude::*;

use crate::error::Error;

verus! {

/// A source of bytes that can hand out the bytes it reads.
pub trait Reader<'de> {
    /// The bytes the source still holds.
    spec fn source_bytes(&self) -> Seq<u8>;

    /// Reads exactly `length` bytes.
    ///
    /// If the reader can lend the bytes from its source, it returns
    /// [`BufferedBytes::Data`]. Otherwise the bytes are read into `scratch`
    /// and [`BufferedBytes::Scratch`] is returned. When fewer than `length`
    /// bytes remain, it fails with `Eof`.
    fn buffered_read_bytes(&mut self, length: usize, scratch: &mut Vec<u8>) -> (r: Result<
        BufferedBytes<'de>,
        Error,
    >)
        ensures
            length <= old(self).source_bytes().len() ==> r is Ok && r->Ok_0.resolve(
                final(scratch)@,
            ) == old(self).source_bytes().take(length as int) && final(self).source_bytes()
                == old(self).source_bytes().skip(length as int),
            length > old(self).source_bytes().len() ==> r == Err::<BufferedBytes<'de>, Error>(
                Error::Eof,
            ),
    ;
}

/// Bytes that have been read into a buffer.
#[derive(Debug)]
pub enum BufferedBytes<'de> {
    /// The bytes that have been read can be borrowed from the source.
    Data(&'de [u8]),
    /// The bytes that have been read have been stored in the scratch buffer
    /// passed to the function reading bytes.
    Scratch,
}

impl<'de> BufferedBytes<'de> {
    /// The bytes these stand for, given the scratch buffer they were read with.
    pub open spec fn resolve(self, scratch: Seq<u8>) -> Seq<u8> {
        match self {
            BufferedBytes::Data(data) => data@,
            BufferedBytes::Scratch => scratch,
        }
    }

    /// Resolves the bytes to a byte slice.
    pub fn as_slice<'a>(&'a self, scratch: &'a [u8]) -> (r: &'a [u8])
        ensures
            r@ == self.resolve(scratch@),
    {
        match self {
            BufferedBytes::Data(data) => data,
            BufferedBytes::Scratch => scratch,
        }
    }
}

/// Reads data from a slice; its view is the bytes not read yet.
pub struct SliceReader<'a> {
    pub(crate) data: &'a [u8],
}

impl<'a> View for SliceReader<'a> {
    type V = Seq<u8>;

    closed spec fn view(&self) -> Seq<u8> {
        self.data@
    }
}

impl<'a> SliceReader<'a> {
    /// Returns a reader over `data`.
    pub fn new(data: &'a [u8]) -> (r: SliceReader<'a>)
        ensures
            r@ == data@,
    {
        SliceReader { data }
    }

    /// Returns the remaining bytes to read.
    pub fn len(&self) -> (r: usize)
        ensures
            r == self@.len(),
    {
        self.data.len()
    }

    /// Returns `true` if there are no bytes remaining to read.
    pub fn is_empty(&self) -> (r: bool)
        ensures
            r == (self@.len() == 0),
    {
        self.data.len() == 0
    }

    /// Returns the bytes not read yet.
    pub fn remaining(&self) -> (r: &'a [u8])
        ensures
            r@ == self@,
    {
        self.data
    }

    /// Reads one byte.
    pub fn read_u8(&mut self) -> (r: Result<u8, Error>)
        ensures
            old(self)@.len() == 0 ==> r == Err::<u8, Error>(Error::Eof),
            old(self)@.len() == 0 ==> final(self)@ == old(self)@,
            old(self)@.len() > 0 ==> r == Ok::<u8, Error>(old(self)@[0]),
            old(self)@.len() > 0 ==> final(self)@ == old(self)@.drop_first(),
    {
        if self.data.len() == 0 {
            Err(Error::Eof)
        } else {
            let byte = self.data[0];
            let (_, rest) = self.data.split_at(1);
            self.data = rest;
            proof {
                assert(rest@ =~= old(self)@.drop_first());
            }
            Ok(byte)
        }
    }

    /// Reads exactly `length` bytes, lent from the source. When fewer
    /// remain, everything left is consumed and `Eof` is returned.
    pub fn read_bytes(&mut self, length: usize) -> (r: Result<&'a [u8], Error>)
        ensures
            length > old(self)@.len() ==> r == Err::<&'a [u8], Error>(Error::Eof),
            length > old(self)@.len() ==> final(self)@.len() == 0,
            length <= old(self)@.len() ==> r is Ok,
            length <= old(self)@.len() ==> r->Ok_0@ == old(self)@.take(length as int),
            length <= old(self)@.len() ==> final(self)@ == old(self)@.skip(length as int),
    {
        if length > self.data.len() {
            let (_, rest) = self.data.split_at(self.data.len());
            self.data = rest;
            Err(Error::Eof)
        } else {
            let (start, rest) = self.data.split_at(length);
            self.data = rest;
            proof {
                assert(start@ =~= old(self)@.take(length as int));
                assert(rest@ =~= old(self)@.skip(length as int));
            }
            Ok(start)
        }
    }
}

impl<'de> Reader<'de> for SliceReader<'de> {
    open spec fn source_bytes(&self) -> Seq<u8> {
        self@
    }

    /// Lends the next `length` bytes from the slice, or fails with `Eof`
    /// when fewer remain.
    fn buffered_read_bytes(&mut self, length: usize, _scratch: &mut Vec<u8>) -> (r: Result<
        BufferedBytes<'de>,
        Error,
    >)
        ensures
            length <= old(self)@.len() ==> (r matches Ok(BufferedBytes::Data(b)) && b@ == old(
                self,
            )@.take(length as int) && final(self)@ == old(self)@.skip(length as int)),
            length > old(self)@.len() ==> r == Err::<BufferedBytes<'de>, Error>(Error::Eof),
    {
        match self.read_bytes(length) {
            Ok(bytes) => Ok(BufferedBytes::Data(bytes)),
            Err(e) => Err(e),
        }
    }
}

impl<'a> From<&'a [u8]> for SliceReader<'a> {
    fn from(data: &'a [u8]) -> (r: SliceReader<'a>)
        ensures
            r@ == data@,
    {
        SliceReader { data }
    }
}

impl<'a> vstd::std_specs::convert::FromSpecImpl<&'a [u8]> for SliceReader<'a> {
    open spec fn obeys_from_spec() -> bool {
        true
    }

    closed spec fn from_spec(v: &'a [u8]) -> SliceReader<'a> {
        SliceReader { data: v }
    }
}

} // verus!
