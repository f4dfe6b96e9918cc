use vstd::prelude::*;

use super::word::{le_bytes, le_value, lemma_le_round_trip, lemma_word_len, word_len, word_size};
use super::{Mem, MemRead, MemWrite};

verus! {

/// The header of a block of memory: the address of the next block's header
/// (`next`, `0` for none), the size of the block's payload (`size`), whether
/// the block has been handed out (`allocd`), and whether it was reached
/// during a marking phase (`marked`).
#[derive(Debug, Clone, Copy, PartialEq, Eq, Structural)]
pub struct Header {
    pub next: usize,
    pub size: usize,
    pub allocd: bool,
    pub marked: bool,
}

/// The number of bytes a header occupies: two words and a byte of flags.
pub open spec fn header_len() -> nat {
    2 * word_len() + 1
}

/// The byte of flags: `allocd` at bit 7, `marked` at bit 6.
pub open spec fn flag_byte(allocd: bool, marked: bool) -> u8 {
    (if allocd {
        0x80u8
    } else {
        0u8
    }) | (if marked {
        0x40u8
    } else {
        0u8
    })
}

/// The number of bytes a header occupies.
pub fn header_size() -> (r: usize)
    ensures
        r == header_len(),
        r == 9 || r == 17,
{
    2 * word_size() + 1
}

impl Header {
    /// Creates a header for a block, not yet marked.
    pub fn new(next: usize, size: usize, allocd: bool) -> (r: Header)
        ensures
            r == (Header { next, size, allocd, marked: false }),
    {
        Header { next, size, allocd, marked: false }
    }

    pub fn set_size(&mut self, size: usize)
        ensures
            *final(self) == (Header { size, ..*old(self) }),
    {
        self.size = size;
    }
}

proof fn lemma_flags(allocd: bool, marked: bool)
    ensures
        (flag_byte(allocd, marked) & 0x80u8 > 0) == allocd,
        (flag_byte(allocd, marked) & 0x40u8 > 0) == marked,
{
    if allocd && marked {
        assert((0x80u8 | 0x40u8) & 0x80u8 > 0 && (0x80u8 | 0x40u8) & 0x40u8 > 0) by (bit_vector);
    } else if allocd {
        assert((0x80u8 | 0u8) & 0x80u8 > 0 && (0x80u8 | 0u8) & 0x40u8 == 0) by (bit_vector);
    } else if marked {
        assert((0u8 | 0x40u8) & 0x80u8 == 0 && (0u8 | 0x40u8) & 0x40u8 > 0) by (bit_vector);
    } else {
        assert((0u8 | 0u8) & 0x80u8 == 0 && (0u8 | 0u8) & 0x40u8 == 0) by (bit_vector);
    }
}

/// Reading back the bytes of a header gives the same header.
pub proof fn lemma_header_round_trip(h: Header)
    ensures
        Header::from_bytes(h.to_bytes()) == h,
        h.to_bytes().len() == header_len(),
{
    let w = word_len();
    let b = h.to_bytes();
    lemma_word_len();
    assert(b.subrange(0, w as int) =~= le_bytes(h.next as nat, w));
    assert(b.subrange(w as int, 2 * w as int) =~= le_bytes(h.size as nat, w));
    lemma_le_round_trip(h.next as nat, w);
    lemma_le_round_trip(h.size as nat, w);
    lemma_flags(h.allocd, h.marked);
}

impl MemRead for Header {
    open spec fn encoded_len() -> nat {
        header_len()
    }

    open spec fn from_bytes(b: Seq<u8>) -> Header {
        let w = word_len() as int;
        Header {
            next: le_value(b.subrange(0, w)) as usize,
            size: le_value(b.subrange(w, 2 * w)) as usize,
            allocd: b[2 * w] & 0x80u8 > 0,
            marked: b[2 * w] & 0x40u8 > 0,
        }
    }

    fn read<M: Mem>(mem: &M, addr: usize) -> (r: Header) {
        let w = word_size();
        let ghost b = mem.space().subrange(addr as int, addr + header_len());
        let next = usize::read(mem, addr);
        let size = usize::read(mem, addr + w);
        let flags = mem.read(addr + 2 * w);

        let allocd = flags & 0b1000_0000 > 0;
        let marked = flags & 0b0100_0000 > 0;
        proof {
            assert(b.subrange(0, w as int) =~= mem.space().subrange(addr as int, addr + w));
            assert(b.subrange(w as int, 2 * w) =~= mem.space().subrange(addr + w, addr + 2 * w));
        }
        Header { next, size, allocd, marked }
    }
}

impl MemWrite for Header {
    open spec fn to_bytes(&self) -> Seq<u8> {
        le_bytes(self.next as nat, word_len()) + le_bytes(self.size as nat, word_len()) + seq![
            flag_byte(self.allocd, self.marked),
        ]
    }

    fn write<M: Mem>(&self, mem: &mut M, addr: usize) {
        let w = word_size();
        let ghost s0 = mem.space();
        self.next.write(mem, addr);
        self.size.write(mem, addr + w);

        let allocd_flag: u8 = if self.allocd { 0b1000_0000 } else { 0 };
        let marked_flag: u8 = if self.marked { 0b0100_0000 } else { 0 };
        let flags = allocd_flag | marked_flag;

        mem.write(addr + 2 * w, flags);
        proof {
            assert(mem.space() =~= super::overwrite(s0, addr as int, self.to_bytes()));
        }
    }

    fn size(&self) -> (r: usize) {
        header_size()
    }
}

} // verus!
