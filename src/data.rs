use vstd::prelude::*;

use crate::error::HeapError;
use crate::memory::word::{le_bytes, le_value, lemma_le_round_trip, lemma_word_len, word_len, word_size};
use crate::memory::{overwrite, Mem, MemRead, MemWrite};

verus! {

/// A value that can be written to and read from the heap. Such values carry
/// no meaning of their own: a pair may be a list cell, part of a closure, or
/// part of an environment.
#[derive(Debug)]
pub enum SchemeObj {
    Nil,
    Bool(bool),
    Number(isize),
    Symbol(usize),
    Pair { car: Box<SchemeObj>, cdr: Box<SchemeObj> },
}

/// The word stored at address `a` of `s`.
pub open spec fn word_at(s: Seq<u8>, a: int) -> usize {
    le_value(s.subrange(a, a + word_len())) as usize
}

/// The bytes a tag and a word take: the size of every object but a pair,
/// and of each of a pair's two slots.
pub open spec fn slot_len() -> nat {
    1 + word_len()
}

/// The bytes a pair takes: a tag and two slots.
pub open spec fn pair_len() -> nat {
    1 + 2 * slot_len()
}

/// The number of bytes that `o` takes in its own block.
pub open spec fn obj_size(o: SchemeObj) -> nat {
    match o {
        SchemeObj::Pair { .. } => pair_len(),
        _ => slot_len(),
    }
}

/// The tag byte of `o`.
pub open spec fn obj_tag(o: SchemeObj) -> u8 {
    match o {
        SchemeObj::Nil => tag_byte(Tag::Nil),
        SchemeObj::Bool(_) => tag_byte(Tag::Bool),
        SchemeObj::Number(_) => tag_byte(Tag::Number),
        SchemeObj::Symbol(_) => tag_byte(Tag::Symbol),
        SchemeObj::Pair { .. } => tag_byte(Tag::Pair),
    }
}

/// The word stored after the tag of an object that is not a pair: `0` for
/// nil, `0` or `1` for a boolean, a number's two's-complement bits, a
/// symbol's index.
pub open spec fn prim_word(o: SchemeObj) -> usize {
    match o {
        SchemeObj::Bool(b) => if b {
            1usize
        } else {
            0usize
        },
        SchemeObj::Number(n) => n as usize,
        SchemeObj::Symbol(i) => i,
        _ => 0usize,
    }
}

/// A slot: a tag byte followed by a word.
pub open spec fn slot_bytes(tag: u8, w: usize) -> Seq<u8> {
    seq![tag] + le_bytes(w as nat, word_len())
}

/// The slot that holds `o` inside a pair: the object itself, or for a
/// pair a box with the address `ptr` of the block that holds it.
pub open spec fn child_slot(o: SchemeObj, ptr: usize) -> Seq<u8> {
    if o is Pair {
        slot_bytes(tag_byte(Tag::Box), ptr)
    } else {
        slot_bytes(obj_tag(o), prim_word(o))
    }
}

/// The bytes of `o` in its own block, where `car_ptr` and `cdr_ptr` are
/// the addresses of the blocks that hold those of its children that are
/// pairs.
pub open spec fn encoding(o: SchemeObj, car_ptr: usize, cdr_ptr: usize) -> Seq<u8> {
    match o {
        SchemeObj::Pair { car, cdr } => seq![tag_byte(Tag::Pair)] + child_slot(*car, car_ptr)
            + child_slot(*cdr, cdr_ptr),
        _ => slot_bytes(obj_tag(o), prim_word(o)),
    }
}

/// No child of `o` is a pair: all of `o` is stored in one block.
pub open spec fn inline_only(o: SchemeObj) -> bool {
    match o {
        SchemeObj::Pair { car, cdr } => !(*car is Pair) && !(*cdr is Pair),
        _ => true,
    }
}

/// The object that a tag byte of neither a box nor a pair, and the word
/// after it, stand for.
pub open spec fn prim_of(tag: u8, w: usize) -> SchemeObj {
    if tag == tag_byte(Tag::Bool) {
        SchemeObj::Bool(w != 0)
    } else if tag == tag_byte(Tag::Number) {
        SchemeObj::Number(w as isize)
    } else if tag == tag_byte(Tag::Symbol) {
        SchemeObj::Symbol(w)
    } else {
        SchemeObj::Nil
    }
}

/// The object stored at payload address `a` of `s`, following at most
/// `fuel` boxes from one pair to the next.
pub open spec fn decode(s: Seq<u8>, a: int, fuel: nat) -> Result<SchemeObj, HeapError>
    decreases fuel, 1nat,
{
    if !(0 <= a < s.len()) {
        Err(HeapError::AddressOutOfRange)
    } else if s[a] > 5 {
        Err(HeapError::UnknownTag)
    } else if s[a] == tag_byte(Tag::Box) {
        Err(HeapError::InvalidTag)
    } else if s[a] == tag_byte(Tag::Nil) {
        Ok(SchemeObj::Nil)
    } else if s[a] == tag_byte(Tag::Pair) {
        if a + pair_len() > s.len() {
            Err(HeapError::AddressOutOfRange)
        } else {
            match decode_slot(s, a + 1, fuel) {
                Err(e) => Err(e),
                Ok(x) => match decode_slot(s, a + 1 + slot_len(), fuel) {
                    Err(e) => Err(e),
                    Ok(y) => Ok(SchemeObj::Pair { car: Box::new(x), cdr: Box::new(y) }),
                },
            }
        }
    } else if a + slot_len() > s.len() {
        Err(HeapError::AddressOutOfRange)
    } else {
        Ok(prim_of(s[a], word_at(s, a + 1)))
    }
}

/// The object held by the slot of a pair at address `a` of `s`: in place,
/// or behind a box.
pub open spec fn decode_slot(s: Seq<u8>, a: int, fuel: nat) -> Result<SchemeObj, HeapError>
    decreases fuel, 0nat,
{
    if !(0 <= a && a + slot_len() <= s.len()) {
        Err(HeapError::AddressOutOfRange)
    } else if s[a] > 5 {
        Err(HeapError::UnknownTag)
    } else if s[a] == tag_byte(Tag::Box) {
        if fuel == 0 {
            Err(HeapError::TooDeep)
        } else {
            decode(s, word_at(s, a + 1) as int, (fuel - 1) as nat)
        }
    } else if s[a] == tag_byte(Tag::Pair) {
        Err(HeapError::InvalidTag)
    } else if s[a] == tag_byte(Tag::Nil) {
        Ok(SchemeObj::Nil)
    } else {
        Ok(prim_of(s[a], word_at(s, a + 1)))
    }
}

/// `s` holds `v` at payload address `a`: in the layout of `encoding`, with
/// each child that is a pair boxed and held, in turn, at the address in
/// its box, at most `fuel` boxes deep.
pub open spec fn stores(s: Seq<u8>, a: int, v: SchemeObj, fuel: nat) -> bool
    decreases v, 0nat,
{
    &&& 0 <= a
    &&& a + obj_size(v) <= s.len()
    &&& match v {
        SchemeObj::Pair { car, cdr } => {
            &&& s[a] == tag_byte(Tag::Pair)
            &&& slot_stores(s, a + 1, *car, fuel)
            &&& slot_stores(s, a + 1 + slot_len(), *cdr, fuel)
        },
        _ => s.subrange(a, a + slot_len()) == slot_bytes(obj_tag(v), prim_word(v)),
    }
}

/// The slot of a pair at address `a` of `s` holds `v`.
pub open spec fn slot_stores(s: Seq<u8>, a: int, v: SchemeObj, fuel: nat) -> bool
    decreases v, 1nat,
{
    &&& 0 <= a
    &&& a + slot_len() <= s.len()
    &&& if v is Pair {
        &&& fuel > 0
        &&& s[a] == tag_byte(Tag::Box)
        &&& stores(s, word_at(s, a + 1) as int, v, (fuel - 1) as nat)
    } else {
        s.subrange(a, a + slot_len()) == slot_bytes(obj_tag(v), prim_word(v))
    }
}

/// The kind of object that the bytes after a tag byte represent.
#[derive(Debug, Clone, Copy, PartialEq, Eq, Structural)]
pub enum Tag {
    Box,
    Nil,
    Bool,
    Number,
    Symbol,
    Pair,
}

/// The byte that stands for `t` in memory.
pub open spec fn tag_byte(t: Tag) -> u8 {
    match t {
        Tag::Box => 0,
        Tag::Nil => 1,
        Tag::Bool => 2,
        Tag::Number => 3,
        Tag::Symbol => 4,
        Tag::Pair => 5,
    }
}

/// The tag that byte `b` stands for, if any.
pub open spec fn tag_of(b: u8) -> Option<Tag> {
    if b == 0 {
        Some(Tag::Box)
    } else if b == 1 {
        Some(Tag::Nil)
    } else if b == 2 {
        Some(Tag::Bool)
    } else if b == 3 {
        Some(Tag::Number)
    } else if b == 4 {
        Some(Tag::Symbol)
    } else if b == 5 {
        Some(Tag::Pair)
    } else {
        None
    }
}

impl Tag {
    /// The tag that `byte` stands for, or `None` for a byte above `5`.
    pub fn from_byte(byte: u8) -> (r: Option<Tag>)
        ensures
            r == tag_of(byte),
    {
        match byte {
            0 => Some(Tag::Box),
            1 => Some(Tag::Nil),
            2 => Some(Tag::Bool),
            3 => Some(Tag::Number),
            4 => Some(Tag::Symbol),
            5 => Some(Tag::Pair),
            _ => None,
        }
    }
}

impl From<Tag> for u8 {
    fn from(tag: Tag) -> (r: u8) {
        match tag {
            Tag::Box => 0,
            Tag::Nil => 1,
            Tag::Bool => 2,
            Tag::Number => 3,
            Tag::Symbol => 4,
            Tag::Pair => 5,
        }
    }
}

impl vstd::std_specs::convert::FromSpecImpl<Tag> for u8 {
    open spec fn obeys_from_spec() -> bool {
        true
    }

    open spec fn from_spec(tag: Tag) -> u8 {
        tag_byte(tag)
    }
}

/// Writing `x` and then `y` right after it is writing `x + y`.
pub proof fn lemma_overwrite_concat(s: Seq<u8>, a: int, x: Seq<u8>, y: Seq<u8>)
    requires
        0 <= a,
        a + x.len() + y.len() <= s.len(),
    ensures
        overwrite(overwrite(s, a, x), a + x.len(), y) == overwrite(s, a, x + y),
{
    assert(overwrite(overwrite(s, a, x), a + x.len(), y) =~= overwrite(s, a, x + y));
}

/// The bytes of an object fill exactly the size it reports.
pub proof fn lemma_encoding_len(o: SchemeObj, car_ptr: usize, cdr_ptr: usize)
    ensures
        encoding(o, car_ptr, cdr_ptr).len() == obj_size(o),
{
}

/// A slot that holds `v` in place gives back its tag, its word, and `v`.
pub proof fn lemma_prim_round_trip(s: Seq<u8>, a: int, v: SchemeObj)
    requires
        !(v is Pair),
        0 <= a,
        a + slot_len() <= s.len(),
        s.subrange(a, a + slot_len()) == slot_bytes(obj_tag(v), prim_word(v)),
    ensures
        s[a] == obj_tag(v),
        word_at(s, a + 1) == prim_word(v),
        v is Nil || prim_of(obj_tag(v), prim_word(v)) == v,
{
    let b = slot_bytes(obj_tag(v), prim_word(v));
    let sub = s.subrange(a, a + slot_len());
    assert(s[a] == sub[0]);
    assert forall|i: int| 0 <= i < word_len() implies s.subrange(a + 1, a + 1 + word_len())[i]
        == le_bytes(prim_word(v) as nat, word_len())[i] by {
        assert(sub[i + 1] == b[i + 1]);
    }
    assert(s.subrange(a + 1, a + 1 + word_len()) =~= le_bytes(prim_word(v) as nat, word_len()));
    lemma_word_len();
    lemma_le_round_trip(prim_word(v) as nat, word_len());
    if let SchemeObj::Number(n) = v {
        assert((n as usize) as isize == n) by (bit_vector);
    }
}

/// Reading back an object that `s` holds gives that object.
pub proof fn lemma_round_trip(s: Seq<u8>, a: int, v: SchemeObj, fuel: nat)
    requires
        stores(s, a, v, fuel),
    ensures
        decode(s, a, fuel) == Ok::<SchemeObj, HeapError>(v),
    decreases v, 0nat,
{
    match v {
        SchemeObj::Pair { car, cdr } => {
            lemma_slot_round_trip(s, a + 1, *car, fuel);
            lemma_slot_round_trip(s, a + 1 + slot_len(), *cdr, fuel);
        },
        _ => {
            lemma_prim_round_trip(s, a, v);
        },
    }
}

/// Reading back the slot of a pair that holds `v` gives `v`.
pub proof fn lemma_slot_round_trip(s: Seq<u8>, a: int, v: SchemeObj, fuel: nat)
    requires
        slot_stores(s, a, v, fuel),
    ensures
        decode_slot(s, a, fuel) == Ok::<SchemeObj, HeapError>(v),
    decreases v, 1nat,
{
    if v is Pair {
        let p = word_at(s, a + 1) as int;
        lemma_round_trip(s, p, v, (fuel - 1) as nat);
    } else {
        lemma_prim_round_trip(s, a, v);
    }
}

/// Decoding the bytes of `v`, written at `a`, gives `v` back, when each
/// child of `v` that is a pair is held at the address in its box.
pub proof fn lemma_encode_decode(
    s: Seq<u8>,
    a: int,
    v: SchemeObj,
    car_ptr: usize,
    cdr_ptr: usize,
    fuel: nat,
)
    requires
        0 <= a,
        a + obj_size(v) <= s.len(),
        s.subrange(a, a + obj_size(v)) == encoding(v, car_ptr, cdr_ptr),
        v matches SchemeObj::Pair { car, cdr } ==> {
            &&& *car is Pair ==> fuel > 0 && stores(s, car_ptr as int, *car, (fuel - 1) as nat)
            &&& *cdr is Pair ==> fuel > 0 && stores(s, cdr_ptr as int, *cdr, (fuel - 1) as nat)
        },
    ensures
        decode(s, a, fuel) == Ok::<SchemeObj, HeapError>(v),
{
    let e = encoding(v, car_ptr, cdr_ptr);
    let w = slot_len() as int;
    if let SchemeObj::Pair { car, cdr } = v {
        let sub = s.subrange(a, a + obj_size(v));
        let x = child_slot(*car, car_ptr);
        let y = child_slot(*cdr, cdr_ptr);
        assert(s[a] == sub[0]);
        assert forall|i: int| 0 <= i < w implies s.subrange(a + 1, a + 1 + w)[i] == x[i] by {
            assert(sub[1 + i] == e[1 + i]);
        }
        assert forall|i: int| 0 <= i < w implies s.subrange(a + 1 + w, a + 1 + 2 * w)[i] == y[i] by {
            assert(sub[1 + w + i] == e[1 + w + i]);
        }
        assert(s.subrange(a + 1, a + 1 + w) =~= x);
        assert(s.subrange(a + 1 + w, a + 1 + 2 * w) =~= y);
        if *car is Pair {
            lemma_prim_word(s, a + 1, car_ptr);
        }
        if *cdr is Pair {
            lemma_prim_word(s, a + 1 + w, cdr_ptr);
        }
        assert(slot_stores(s, a + 1, *car, fuel));
        assert(slot_stores(s, a + 1 + w, *cdr, fuel));
    }
    lemma_round_trip(s, a, v, fuel);
}

/// The word of a slot `tag, w` is `w`.
pub proof fn lemma_prim_word(s: Seq<u8>, a: int, w: usize)
    requires
        0 <= a,
        a + slot_len() <= s.len(),
        s.subrange(a, a + slot_len()) == slot_bytes(tag_byte(Tag::Box), w),
    ensures
        s[a] == tag_byte(Tag::Box),
        word_at(s, a + 1) == w,
{
    let b = slot_bytes(tag_byte(Tag::Box), w);
    let sub = s.subrange(a, a + slot_len());
    assert(s[a] == sub[0]);
    assert forall|i: int| 0 <= i < word_len() implies s.subrange(a + 1, a + 1 + word_len())[i]
        == le_bytes(w as nat, word_len())[i] by {
        assert(sub[i + 1] == b[i + 1]);
    }
    assert(s.subrange(a + 1, a + 1 + word_len()) =~= le_bytes(w as nat, word_len()));
    lemma_word_len();
    lemma_le_round_trip(w as nat, word_len());
}

/// Writes a slot: the tag byte `tag`, then the word `w`.
fn write_slot<M: Mem>(mem: &mut M, addr: usize, tag: u8, w: usize)
    requires
        addr + slot_len() <= old(mem).space().len() <= usize::MAX,
    ensures
        final(mem).space() == overwrite(old(mem).space(), addr as int, slot_bytes(tag, w)),
{
    let ghost s0 = mem.space();
    mem.write(addr, tag);
    w.write(mem, addr + 1);
    proof {
        assert(mem.space() =~= overwrite(s0, addr as int, slot_bytes(tag, w)));
    }
}

/// The object that a tag byte of neither a box nor a pair, and the word
/// after it, stand for.
fn prim_from(tag: u8, w: usize) -> (r: SchemeObj)
    ensures
        r == prim_of(tag, w),
{
    if tag == u8::from(Tag::Bool) {
        SchemeObj::Bool(w != 0)
    } else if tag == u8::from(Tag::Number) {
        SchemeObj::Number(w as isize)
    } else if tag == u8::from(Tag::Symbol) {
        SchemeObj::Symbol(w)
    } else {
        SchemeObj::Nil
    }
}

impl SchemeObj {
    /// The number of bytes the object takes in its own block: a tag and a
    /// word, or for a pair a tag and two slots of that size.
    pub fn size(&self) -> (r: usize)
        ensures
            r == obj_size(*self),
    {
        let prim_size = 1 + word_size();
        match self {
            SchemeObj::Pair { .. } => 1 + 2 * prim_size,
            _ => prim_size,
        }
    }

    fn tag(&self) -> (r: u8)
        ensures
            r == obj_tag(*self),
    {
        match self {
            SchemeObj::Nil => u8::from(Tag::Nil),
            SchemeObj::Bool(_) => u8::from(Tag::Bool),
            SchemeObj::Number(_) => u8::from(Tag::Number),
            SchemeObj::Symbol(_) => u8::from(Tag::Symbol),
            SchemeObj::Pair { .. } => u8::from(Tag::Pair),
        }
    }

    fn word(&self) -> (r: usize)
        ensures
            r == prim_word(*self),
    {
        match self {
            SchemeObj::Bool(b) => if *b {
                1
            } else {
                0
            },
            SchemeObj::Number(n) => *n as usize,
            SchemeObj::Symbol(i) => *i,
            _ => 0,
        }
    }

    /// Writes the slot that holds `self` inside a pair: in place, or as a
    /// box holding `ptr`.
    fn write_child<M: Mem>(&self, mem: &mut M, addr: usize, ptr: usize)
        requires
            addr + slot_len() <= old(mem).space().len() <= usize::MAX,
        ensures
            final(mem).space() == overwrite(old(mem).space(), addr as int, child_slot(*self, ptr)),
    {
        match self {
            SchemeObj::Pair { .. } => write_slot(mem, addr, u8::from(Tag::Box), ptr),
            _ => write_slot(mem, addr, self.tag(), self.word()),
        }
    }

    /// Writes the object at `addr`, its children that are pairs as boxes
    /// holding `car_ptr` and `cdr_ptr`. Exactly `self.size()` bytes are
    /// written.
    pub fn write<M: Mem>(&self, mem: &mut M, addr: usize, car_ptr: usize, cdr_ptr: usize)
        requires
            addr + obj_size(*self) <= old(mem).space().len() <= usize::MAX,
        ensures
            final(mem).space() == overwrite(
                old(mem).space(),
                addr as int,
                encoding(*self, car_ptr, cdr_ptr),
            ),
            encoding(*self, car_ptr, cdr_ptr).len() == obj_size(*self),
    {
        match self {
            SchemeObj::Pair { car, cdr } => {
                let ghost s0 = mem.space();
                let slot = 1 + word_size();
                mem.write(addr, u8::from(Tag::Pair));
                let ghost s1 = mem.space();
                car.write_child(mem, addr + 1, car_ptr);
                let ghost s2 = mem.space();
                cdr.write_child(mem, addr + 1 + slot, cdr_ptr);
                proof {
                    let t = seq![tag_byte(Tag::Pair)];
                    let x = child_slot(**car, car_ptr);
                    let y = child_slot(**cdr, cdr_ptr);
                    assert(s1 =~= overwrite(s0, addr as int, t));
                    lemma_overwrite_concat(s0, addr as int, t, x);
                    lemma_overwrite_concat(s0, addr as int, t + x, y);
                }
            },
            _ => write_slot(mem, addr, self.tag(), self.word()),
        }
    }

    /// Reads the object at payload address `addr`, following at most
    /// `fuel` boxes from pair to pair.
    pub fn read<M: Mem>(mem: &M, addr: usize, fuel: usize) -> (r: Result<SchemeObj, HeapError>)
        ensures
            r == decode(mem.space(), addr as int, fuel as nat),
        decreases fuel, 1nat,
    {
        let len = mem.len();
        if addr >= len {
            return Err(HeapError::AddressOutOfRange);
        }
        let tag = mem.read(addr);
        let slot = 1 + word_size();
        match Tag::from_byte(tag) {
            None => Err(HeapError::UnknownTag),
            Some(Tag::Box) => Err(HeapError::InvalidTag),
            Some(Tag::Nil) => Ok(SchemeObj::Nil),
            Some(Tag::Pair) => {
                if len - addr < 1 + 2 * slot {
                    return Err(HeapError::AddressOutOfRange);
                }
                let car = match Self::read_slot(mem, addr + 1, fuel) {
                    Ok(x) => x,
                    Err(e) => return Err(e),
                };
                let cdr = match Self::read_slot(mem, addr + 1 + slot, fuel) {
                    Ok(x) => x,
                    Err(e) => return Err(e),
                };
                Ok(SchemeObj::Pair { car: Box::new(car), cdr: Box::new(cdr) })
            },
            Some(_) => {
                if len - addr < slot {
                    return Err(HeapError::AddressOutOfRange);
                }
                let w = usize::read(mem, addr + 1);
                Ok(prim_from(tag, w))
            },
        }
    }

    /// Reads the object held by the slot of a pair at `addr`: in place, or
    /// behind a box.
    fn read_slot<M: Mem>(mem: &M, addr: usize, fuel: usize) -> (r: Result<SchemeObj, HeapError>)
        requires
            addr + slot_len() <= mem.space().len() <= usize::MAX,
        ensures
            r == decode_slot(mem.space(), addr as int, fuel as nat),
        decreases fuel, 0nat,
    {
        let tag = mem.read(addr);
        match Tag::from_byte(tag) {
            None => Err(HeapError::UnknownTag),
            Some(Tag::Box) => {
                if fuel == 0 {
                    return Err(HeapError::TooDeep);
                }
                let ptr = usize::read(mem, addr + 1);
                Self::read(mem, ptr, fuel - 1)
            },
            Some(Tag::Pair) => Err(HeapError::InvalidTag),
            Some(Tag::Nil) => Ok(SchemeObj::Nil),
            Some(_) => {
                let w = usize::read(mem, addr + 1);
                Ok(prim_from(tag, w))
            },
        }
    }
}

} // verus!
