use vstd::prelude::*;

use super::{overwrite, Mem, MemRead, MemWrite};
use vstd::arithmetic::div_mod::{lemma_div_denominator, lemma_fundamental_div_mod};
use vstd::arithmetic::power::pow;

verus! {

broadcast use vstd::layout::layout_of_primitives;

/// The width of a machine word in bytes.
pub open spec fn word_len() -> nat {
    vstd::layout::size_of::<usize>()
}

/// `256` to the power `n`.
pub open spec fn pow256(n: nat) -> nat
    decreases n,
{
    if n == 0 {
        1
    } else {
        256 * pow256((n - 1) as nat)
    }
}

/// The `n` low-order bytes of `v`, least significant first.
pub open spec fn le_bytes(v: nat, n: nat) -> Seq<u8> {
    Seq::new(n, |i: int| ((v / pow256(i as nat)) % 256) as u8)
}

/// The number that the bytes `b` spell, least significant first.
pub open spec fn le_value(b: Seq<u8>) -> nat
    decreases b.len(),
{
    if b.len() == 0 {
        0
    } else {
        (b[0] + 256 * le_value(b.drop_first())) as nat
    }
}

proof fn lemma_pow256_is_pow(n: nat)
    ensures
        pow256(n) == pow(256, n),
    decreases n,
{
    reveal(pow);
    if n > 0 {
        lemma_pow256_is_pow((n - 1) as nat);
    }
}

/// `pow256` grows with its exponent.
pub proof fn lemma_pow256_mono(a: nat, b: nat)
    requires
        a <= b,
    ensures
        1 <= pow256(a) <= pow256(b),
    decreases b,
{
    if b > 0 {
        if a < b {
            lemma_pow256_mono(a, (b - 1) as nat);
        } else {
            lemma_pow256_mono((a - 1) as nat, (b - 1) as nat);
        }
    }
}

/// A word is four or eight bytes, and all its values are the numbers
/// below `256` to the power of its width.
pub proof fn lemma_word_len()
    ensures
        word_len() == 4 || word_len() == 8,
        pow256(word_len()) == usize::MAX + 1,
{
    vstd::layout::unsigned_int_max_values();
    lemma_pow256_is_pow(word_len());
}

/// Decoding the `n` low-order bytes of `v` gives `v` back, when `v` fits.
pub proof fn lemma_le_round_trip(v: nat, n: nat)
    requires
        v < pow256(n),
    ensures
        le_value(le_bytes(v, n)) == v,
    decreases n,
{
    let b = le_bytes(v, n);
    if n > 0 {
        let m = (n - 1) as nat;
        let q = v / 256;
        assert forall|i: int| 0 <= i < m implies #[trigger] b.drop_first()[i] == le_bytes(
            q,
            m,
        )[i] by {
            lemma_pow256_mono(0, i as nat);
            lemma_div_denominator(v as int, 256, pow256(i as nat) as int);
        }
        assert(b.drop_first() =~= le_bytes(q, m));
        lemma_fundamental_div_mod(v as int, 256);
        assert(q < pow256(m)) by (nonlinear_arith)
            requires
                v < 256 * pow256(m),
                q == v / 256,
        ;
        lemma_le_round_trip(q, m);
        assert(pow256(0) == 1);
        assert(v / 1 == v);
        assert(b[0] == v % 256);
    }
}

/// The width of a machine word in bytes.
pub fn word_size() -> (r: usize)
    ensures
        r == word_len(),
        r == 4 || r == 8,
{
    proof {
        lemma_word_len();
    }
    core::mem::size_of::<usize>()
}

impl MemRead for usize {
    open spec fn encoded_len() -> nat {
        word_len()
    }

    open spec fn from_bytes(b: Seq<u8>) -> usize {
        le_value(b) as usize
    }

    /// Reads a word as `word_len()` bytes, least significant first.
    fn read<M: Mem>(mem: &M, addr: usize) -> (r: usize) {
        let w = word_size();
        proof {
            lemma_word_len();
        }
        let ghost b = mem.space().subrange(addr as int, addr + w);
        let mut out: usize = 0;
        let mut i: usize = w;
        while i > 0
            invariant
                w == word_len(),
                i <= w,
                addr + w <= mem.space().len() <= usize::MAX,
                pow256(w as nat) == usize::MAX + 1,
                b == mem.space().subrange(addr as int, addr + w),
                out as nat == le_value(b.subrange(i as int, w as int)),
                (out as nat) < pow256((w - i) as nat),
            decreases i,
        {
            i = i - 1;
            let byte = mem.read(addr + i);
            let ghost k = (w - i - 1) as nat;
            proof {
                assert(b.subrange(i as int, w as int).drop_first() =~= b.subrange(
                    i + 1,
                    w as int,
                ));
                lemma_pow256_mono(k + 1, w as nat);
                let o = out as nat;
                let p = pow256(k);
                assert(o * 256 + byte < 256 * p) by (nonlinear_arith)
                    requires
                        o < p,
                        byte < 256,
                ;
            }
            out = out * 256 + byte as usize;
        }
        proof {
            assert(b.subrange(0, w as int) =~= b);
        }
        out
    }
}

impl MemWrite for usize {
    open spec fn to_bytes(&self) -> Seq<u8> {
        le_bytes(*self as nat, word_len())
    }

    /// Writes a word as `word_len()` bytes, least significant first.
    fn write<M: Mem>(&self, mem: &mut M, addr: usize) {
        let w = word_size();
        let ghost s0 = mem.space();
        let ghost tb = self.to_bytes();
        let mut rest: usize = *self;
        assert(pow256(0) == 1);
        assert(*self as nat / 1 == *self as nat);
        let mut i: usize = 0;
        while i < w
            invariant
                w == word_len(),
                i <= w,
                addr + w <= s0.len() <= usize::MAX,
                tb == le_bytes(*self as nat, w as nat),
                rest as nat == (*self as nat) / pow256(i as nat),
                mem.space() == overwrite(s0, addr as int, tb.subrange(0, i as int)),
            decreases w - i,
        {
            let byte = (rest % 256) as u8;
            mem.write(addr + i, byte);
            proof {
                lemma_pow256_mono(0, i as nat);
                lemma_div_denominator(*self as int, pow256(i as nat) as int, 256);
                assert(mem.space() =~= overwrite(s0, addr as int, tb.subrange(0, i + 1)));
            }
            rest = rest / 256;
            i = i + 1;
        }
        proof {
            assert(tb.subrange(0, w as int) =~= tb);
        }
    }

    fn size(&self) -> (r: usize) {
        word_size()
    }
}

} // verus!
