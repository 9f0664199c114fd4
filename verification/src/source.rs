//! Bytes in memory, read from a movable position.

use vstd::prelude::*;

use crate::error::ReadError;
use crate::hash::{HASH_SIZE, HEADER_SIZE, PARENT_SIZE};

verus! {

/// Some bytes and a position, which may lie past their end.
#[verifier::ext_equal]
pub struct SourceView {
    pub bytes: Seq<u8>,
    pub position: int,
}

impl SourceView {
    /// Whether `count` more bytes can be read.
    pub open spec fn has(self, count: int) -> bool {
        count == 0 || self.position + count <= self.bytes.len()
    }

    /// The next `count` bytes.
    pub open spec fn next(self, count: int) -> Seq<u8> {
        if count == 0 {
            Seq::empty()
        } else {
            self.bytes.subrange(self.position, self.position + count)
        }
    }

    /// The position `count` bytes further on.
    pub open spec fn advance(self, count: int) -> SourceView {
        SourceView { position: self.position + count, ..self }
    }
}

/// A reader of bytes in memory that can seek.
#[derive(Clone, Copy, Debug)]
pub struct Cursor<'a> {
    bytes: &'a [u8],
    position: u64,
}

impl<'a> View for Cursor<'a> {
    type V = SourceView;

    closed spec fn view(&self) -> SourceView {
        SourceView { bytes: self.bytes@, position: self.position as int }
    }
}

impl<'a> Cursor<'a> {
    /// A reader at the start of `bytes`.
    pub fn new(bytes: &'a [u8]) -> (cursor: Self)
        ensures
            cursor@ == (SourceView { bytes: bytes@, position: 0 }),
    {
        Cursor { bytes, position: 0 }
    }

    pub proof fn lemma_position(&self)
        ensures
            0 <= self@.position,
    {
    }

    /// Where the next byte is read.
    pub fn position(&self) -> (position: u64)
        ensures
            position == self@.position,
    {
        self.position
    }

    /// Moves to `position`, which may lie past the end.
    pub fn seek(&mut self, position: u64)
        ensures
            final(self)@ == (SourceView { position: position as int, ..old(self)@ }),
    {
        self.position = position;
    }

    /// Reads exactly `count` bytes. If there are fewer, none is read.
    pub fn read_exact(&mut self, count: usize) -> (result: Result<&'a [u8], ReadError>)
        ensures
            old(self)@.has(count as int) ==> {
                &&& result is Ok
                &&& result->Ok_0@ == old(self)@.next(count as int)
                &&& final(self)@ == old(self)@.advance(count as int)
            },
            !old(self)@.has(count as int) ==> {
                &&& result == Err::<&'a [u8], ReadError>(ReadError::UnexpectedEof)
                &&& final(self)@ == old(self)@
            },
    {
        let bytes: &'a [u8] = self.bytes;
        let len: usize = bytes.len();
        if count == 0 {
            let nothing: &'a [u8] = &bytes[0..0];
            assert(nothing@ =~= Seq::<u8>::empty());
            return Ok(nothing);
        }
        if self.position > len as u64 || count > len - self.position as usize {
            return Err(ReadError::UnexpectedEof);
        }
        let start: usize = self.position as usize;
        self.position = self.position + count as u64;
        Ok(&bytes[start..start + count])
    }

    /// Reads a header.
    pub fn read_header(&mut self) -> (result: Result<[u8; HEADER_SIZE], ReadError>)
        ensures
            old(self)@.has(HEADER_SIZE as int) ==> {
                &&& result is Ok
                &&& result->Ok_0@ == old(self)@.next(HEADER_SIZE as int)
                &&& final(self)@ == old(self)@.advance(HEADER_SIZE as int)
            },
            !old(self)@.has(HEADER_SIZE as int) ==> {
                &&& result == Err::<[u8; HEADER_SIZE], ReadError>(ReadError::UnexpectedEof)
                &&& final(self)@ == old(self)@
            },
    {
        match self.read_exact(HEADER_SIZE) {
            Ok(bytes) => {
                let mut header: [u8; HEADER_SIZE] = [0u8; 8];
                copy_array(&mut header, bytes);
                Ok(header)
            },
            Err(error) => Err(error),
        }
    }

    /// Reads a parent node.
    pub fn read_parent(&mut self) -> (result: Result<[u8; PARENT_SIZE], ReadError>)
        ensures
            old(self)@.has(PARENT_SIZE as int) ==> {
                &&& result is Ok
                &&& result->Ok_0@ == old(self)@.next(PARENT_SIZE as int)
                &&& final(self)@ == old(self)@.advance(PARENT_SIZE as int)
            },
            !old(self)@.has(PARENT_SIZE as int) ==> {
                &&& result == Err::<[u8; PARENT_SIZE], ReadError>(ReadError::UnexpectedEof)
                &&& final(self)@ == old(self)@
            },
    {
        match self.read_exact(PARENT_SIZE) {
            Ok(bytes) => {
                let mut parent: [u8; PARENT_SIZE] = [0u8; 64];
                copy_array(&mut parent, bytes);
                Ok(parent)
            },
            Err(error) => Err(error),
        }
    }
}

/// Fills an array from a slice of the same length.
pub fn copy_array<const N: usize>(array: &mut [u8; N], bytes: &[u8])
    requires
        bytes@.len() == N,
    ensures
        final(array)@ == bytes@,
{
    let mut i: usize = 0;
    while i < N
        invariant
            i <= N,
            bytes@.len() == N,
            array@.len() == N,
            array@.take(i as int) == bytes@.take(i as int),
        decreases N - i,
    {
        let ghost before = array@;
        array[i] = bytes[i];
        assert(array@.take(i + 1) =~= before.take(i as int).push(bytes@[i as int]));
        assert(bytes@.take(i + 1) =~= bytes@.take(i as int).push(bytes@[i as int]));
        i += 1;
    }
    assert(array@ =~= array@.take(N as int));
    assert(bytes@ =~= bytes@.take(N as int));
}

/// Copies `bytes` to the front of `buf`.
pub fn copy_front(buf: &mut [u8], bytes: &[u8])
    requires
        bytes@.len() <= old(buf)@.len(),
    ensures
        final(buf)@ == bytes@ + old(buf)@.skip(bytes@.len() as int),
{
    let mut i: usize = 0;
    while i < bytes.len()
        invariant
            i <= bytes@.len() <= buf@.len(),
            buf@.len() == old(buf)@.len(),
            buf@ =~= bytes@.take(i as int) + old(buf)@.skip(i as int),
        decreases bytes.len() - i,
    {
        buf[i] = bytes[i];
        i += 1;
    }
    assert(bytes@.take(i as int) =~= bytes@);
}

/// `bytes` with the first `count` of them set to zero.
pub open spec fn zeroed(bytes: Seq<u8>, count: int) -> Seq<u8> {
    Seq::new(
        bytes.len(),
        |i: int|
            if i < count {
                0u8
            } else {
                bytes[i]
            },
    )
}

/// Sets the first `count` bytes of `buf` to zero.
pub fn zero_front(buf: &mut [u8], count: usize)
    requires
        count <= old(buf)@.len(),
    ensures
        final(buf)@ == zeroed(old(buf)@, count as int),
{
    let mut i: usize = 0;
    assert(buf@ =~= zeroed(old(buf)@, 0));
    while i < count
        invariant
            i <= count <= buf@.len(),
            buf@ == zeroed(old(buf)@, i as int),
        decreases count - i,
    {
        buf[i] = 0;
        i += 1;
        assert(buf@ =~= zeroed(old(buf)@, i as int));
    }
}

/// The two hashes in a parent node.
pub fn split_parent(parent: &[u8; PARENT_SIZE]) -> (children: (
    [u8; HASH_SIZE],
    [u8; HASH_SIZE],
))
    ensures
        children.0@ == parent@.take(HASH_SIZE as int),
        children.1@ == parent@.skip(HASH_SIZE as int),
{
    let bytes: &[u8] = parent.as_slice();
    let mut left: [u8; HASH_SIZE] = [0u8; 32];
    let mut right: [u8; HASH_SIZE] = [0u8; 32];
    copy_array(&mut left, &bytes[0..HASH_SIZE]);
    copy_array(&mut right, &bytes[HASH_SIZE..PARENT_SIZE]);
    (left, right)
}

} // verus!
