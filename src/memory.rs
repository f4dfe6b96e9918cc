use vstd::prelude::*;


pub mod header;
pub mod word;

use crate::chain::{hdr, lemma_hdr_written};
use header::{header_len, Header};

verus! {

/// `s` with the bytes `b` written over it, starting at `addr`.
pub open spec fn overwrite(s: Seq<u8>, addr: int, b: Seq<u8>) -> Seq<u8> {
    Seq::new(s.len(), |i: int| if addr <= i < addr + b.len() { b[i - addr] } else { s[i] })
}

/// A memory store seen as a sink of bytes: a byte can be written to, or
/// read from, any address below its length.
pub trait Mem {
    /// The bytes of the store, indexed by address.
    spec fn space(&self) -> Seq<u8>;

    /// Writes `datum` at `addr`.
    fn write(&mut self, addr: usize, datum: u8)
        requires
            addr < old(self).space().len(),
        ensures
            final(self).space() == old(self).space().update(addr as int, datum),
    ;

    /// Reads the byte at `addr`.
    fn read(&self, addr: usize) -> (r: u8)
        requires
            addr < self.space().len(),
        ensures
            r == self.space()[addr as int],
    ;

    /// The number of bytes in the store.
    fn len(&self) -> (r: usize)
        ensures
            r == self.space().len(),
    ;
}

/// A value that can be read back from a sink of bytes, from a fixed
/// number of bytes.
pub trait MemRead: Sized {
    /// How many bytes a value occupies.
    spec fn encoded_len() -> nat;

    /// The value that the bytes `b` (of length `encoded_len()`) encode.
    spec fn from_bytes(b: Seq<u8>) -> Self;

    fn read<M: Mem>(mem: &M, addr: usize) -> (r: Self)
        requires
            addr + Self::encoded_len() <= mem.space().len() <= usize::MAX,
        ensures
            r == Self::from_bytes(
                mem.space().subrange(addr as int, addr + Self::encoded_len()),
            ),
    ;
}

/// A value that can be written to a sink of bytes.
pub trait MemWrite {
    /// The bytes that represent `self`.
    spec fn to_bytes(&self) -> Seq<u8>;

    /// Writes the bytes of `self` at `addr`, and nothing else.
    fn write<M: Mem>(&self, mem: &mut M, addr: usize)
        requires
            addr + self.to_bytes().len() <= old(mem).space().len() <= usize::MAX,
        ensures
            final(mem).space() == overwrite(old(mem).space(), addr as int, self.to_bytes()),
    ;

    /// The number of bytes that `write` writes.
    fn size(&self) -> (r: usize)
        ensures
            r == self.to_bytes().len(),
    ;
}

/// A plain byte buffer, the simplest sink of bytes.
impl Mem for Vec<u8> {
    open spec fn space(&self) -> Seq<u8> {
        self@
    }

    fn write(&mut self, addr: usize, datum: u8) {
        self.set(addr, datum);
    }

    fn read(&self, addr: usize) -> (r: u8) {
        self[addr]
    }

    fn len(&self) -> (r: usize) {
        self.len()
    }
}

/// A zeroed store of bytes.
pub struct Memory {
    space: Vec<u8>,
}

impl Mem for Memory {
    closed spec fn space(&self) -> Seq<u8> {
        self.space@
    }

    fn write(&mut self, addr: usize, datum: u8) {
        self.space.set(addr, datum);
    }

    fn read(&self, addr: usize) -> (r: u8) {
        self.space[addr]
    }

    fn len(&self) -> (r: usize) {
        self.space.len()
    }
}

impl Memory {
    /// A zeroed store of `size` bytes, with a single free block over all
    /// of it.
    pub fn new(size: usize) -> (r: Memory)
        requires
            size >= header_len(),
        ensures
            r.space().len() == size,
            forall|k: int| header_len() <= k < size ==> r.space()[k] == 0,
            hdr(r.space(), 0) == (Header {
                next: 0,
                size: (size - header_len()) as usize,
                allocd: false,
                marked: false,
            }),
    {
        let space = vec![0u8; size];
        let mut mem = Memory { space };

        let mut header = Header::new(0, size, false);
        let header_size = header.size();
        header.set_size(size - header_size);
        let ghost s0 = mem.space@;
        header.write(&mut mem.space, 0);
        proof {
            lemma_hdr_written(s0, 0, header);
        }
        mem
    }
}

} // verus!
