use vstd::prelude::*;
use crate::error::{DecodeError, EncodeError};

verus! {

/// The largest buffer an encoder fills: the size of a DNS message.
pub const MAX_MESSAGE_SIZE: usize = 65535;

/// A 16-bit value in network byte order.
pub open spec fn be16(v: u16) -> Seq<u8> {
    seq![(v / 256) as u8, (v % 256) as u8]
}

/// The 16-bit value that two bytes in network byte order stand for.
pub open spec fn from_be16(hi: u8, lo: u8) -> u16 {
    (hi as int * 256 + lo as int) as u16
}

/// A cursor over a byte buffer.
pub struct BinDecoder {
    buffer: Vec<u8>,
    index: usize,
}

impl BinDecoder {
    /// The whole buffer being read.
    pub closed spec fn buf(&self) -> Seq<u8> {
        self.buffer@
    }

    /// The position of the next byte to read.
    pub closed spec fn pos(&self) -> int {
        self.index as int
    }

    pub closed spec fn wf(&self) -> bool {
        self.index <= self.buffer.len()
    }

    /// The cursor of a well-formed decoder stands within its buffer.
    pub proof fn lemma_pos_in_buf(&self)
        requires
            self.wf(),
        ensures
            0 <= self.pos() <= self.buf().len(),
    {
    }

    pub fn new(buffer: Vec<u8>) -> (r: BinDecoder)
        ensures
            r.wf(),
            r.buf() == buffer@,
            r.pos() == 0,
    {
        BinDecoder { buffer, index: 0 }
    }

    pub fn index(&self) -> (r: usize)
        ensures
            r == self.pos(),
            self.wf() ==> r <= self.buf().len(),
    {
        self.index
    }

    pub fn len(&self) -> (r: usize)
        ensures
            r == self.buf().len(),
    {
        self.buffer.len()
    }

    /// The byte at `i`, wherever the cursor stands.
    pub fn peek_at(&self, i: usize) -> (r: u8)
        requires
            i < self.buf().len(),
        ensures
            r == self.buf()[i as int],
    {
        self.buffer[i]
    }

    /// Moves the cursor to `i`.
    pub fn seek(&mut self, i: usize)
        requires
            i <= old(self).buf().len(),
        ensures
            final(self).wf(),
            final(self).buf() == old(self).buf(),
            final(self).pos() == i,
    {
        self.index = i;
    }

    pub fn read_u8(&mut self) -> (r: Result<u8, DecodeError>)
        requires
            old(self).wf(),
        ensures
            final(self).wf(),
            final(self).buf() == old(self).buf(),
            old(self).pos() < old(self).buf().len() ==> r == Ok::<u8, DecodeError>(
                old(self).buf()[old(self).pos()],
            ) && final(self).pos() == old(self).pos() + 1,
            old(self).pos() >= old(self).buf().len() ==> r == Err::<u8, DecodeError>(
                DecodeError::InsufficientData,
            ) && final(self).pos() == old(self).pos(),
    {
        if self.index < self.buffer.len() {
            let b = self.buffer[self.index];
            self.index = self.index + 1;
            Ok(b)
        } else {
            Err(DecodeError::InsufficientData)
        }
    }

    pub fn read_u16(&mut self) -> (r: Result<u16, DecodeError>)
        requires
            old(self).wf(),
        ensures
            final(self).wf(),
            final(self).buf() == old(self).buf(),
            old(self).pos() + 2 <= old(self).buf().len() ==> r == Ok::<u16, DecodeError>(
                from_be16(old(self).buf()[old(self).pos()], old(self).buf()[old(self).pos() + 1]),
            ) && final(self).pos() == old(self).pos() + 2,
            old(self).pos() + 2 > old(self).buf().len() ==> r == Err::<u16, DecodeError>(
                DecodeError::InsufficientData,
            ) && final(self).pos() == old(self).pos(),
    {
        if self.buffer.len() - self.index >= 2 {
            let hi = self.buffer[self.index];
            let lo = self.buffer[self.index + 1];
            self.index = self.index + 2;
            Ok((hi as u16) * 256 + lo as u16)
        } else {
            Err(DecodeError::InsufficientData)
        }
    }
}

/// An append-only byte sink with a size limit and a canonical-names mode.
pub struct BinEncoder {
    buffer: Vec<u8>,
    max_size: usize,
    canonical_names: bool,
}

impl BinEncoder {
    /// What has been written so far.
    pub closed spec fn bytes(&self) -> Seq<u8> {
        self.buffer@
    }

    pub closed spec fn limit(&self) -> nat {
        self.max_size as nat
    }

    pub closed spec fn canonical(&self) -> bool {
        self.canonical_names
    }

    /// An empty encoder for ordinary messages: names keep their case.
    pub fn new() -> (r: BinEncoder)
        ensures
            r.bytes() == Seq::<u8>::empty(),
            r.limit() == MAX_MESSAGE_SIZE,
            !r.canonical(),
    {
        BinEncoder { buffer: Vec::new(), max_size: MAX_MESSAGE_SIZE, canonical_names: false }
    }

    /// An empty encoder whose mode is fixed at construction: with `canonical_names`
    /// set, names in record data are written lower-cased, as signing needs.
    pub fn with_canonical_names(canonical_names: bool) -> (r: BinEncoder)
        ensures
            r.bytes() == Seq::<u8>::empty(),
            r.limit() == MAX_MESSAGE_SIZE,
            r.canonical() == canonical_names,
    {
        BinEncoder { buffer: Vec::new(), max_size: MAX_MESSAGE_SIZE, canonical_names }
    }

    pub fn is_canonical_names(&self) -> (r: bool)
        ensures
            r == self.canonical(),
    {
        self.canonical_names
    }

    pub fn as_bytes(&self) -> (r: &Vec<u8>)
        ensures
            r@ == self.bytes(),
    {
        &self.buffer
    }

    pub fn into_bytes(self) -> (r: Vec<u8>)
        ensures
            r@ == self.bytes(),
    {
        self.buffer
    }

    /// Appends `bytes` whole, or nothing when the limit would be passed.
    pub fn emit_vec(&mut self, bytes: &Vec<u8>) -> (r: Result<(), EncodeError>)
        ensures
            final(self).limit() == old(self).limit(),
            final(self).canonical() == old(self).canonical(),
            old(self).bytes().len() + bytes@.len() <= old(self).limit() ==> r is Ok
                && final(self).bytes() == old(self).bytes() + bytes@,
            old(self).bytes().len() + bytes@.len() > old(self).limit() ==> r
                == Err::<(), EncodeError>(EncodeError::MaxBufferSizeExceeded(old(self).limit() as usize))
                && final(self).bytes() == old(self).bytes(),
    {
        if self.buffer.len() <= self.max_size && bytes.len() <= self.max_size - self.buffer.len() {
            let mut i: usize = 0;
            while i < bytes.len()
                invariant
                    i <= bytes@.len(),
                    self.max_size == old(self).max_size,
                    self.canonical_names == old(self).canonical_names,
                    self.buffer@ == old(self).buffer@ + bytes@.subrange(0, i as int),
                decreases bytes@.len() - i,
            {
                self.buffer.push(bytes[i]);
                i = i + 1;
            }
            assert(bytes@.subrange(0, bytes@.len() as int) == bytes@);
            Ok(())
        } else {
            Err(EncodeError::MaxBufferSizeExceeded(self.max_size))
        }
    }

    pub fn emit_u16(&mut self, v: u16) -> (r: Result<(), EncodeError>)
        ensures
            final(self).limit() == old(self).limit(),
            final(self).canonical() == old(self).canonical(),
            old(self).bytes().len() + 2 <= old(self).limit() ==> r is Ok
                && final(self).bytes() == old(self).bytes() + be16(v),
            old(self).bytes().len() + 2 > old(self).limit() ==> r
                == Err::<(), EncodeError>(EncodeError::MaxBufferSizeExceeded(old(self).limit() as usize))
                && final(self).bytes() == old(self).bytes(),
    {
        let b: Vec<u8> = vec![(v / 256) as u8, (v % 256) as u8];
        assert(b@ == be16(v));
        self.emit_vec(&b)
    }
}

} // verus!
