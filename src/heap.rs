use vstd::prelude::*;

use crate::chain::{
    block_end, chain_ok, hdr, lemma_chain_ends, lemma_chain_frame, lemma_hdr_frame,
    lemma_hdr_written, lemma_rewrite, lemma_split,
};
use crate::chain::span_from;
use crate::data::{decode, encoding, inline_only, lemma_encode_decode, lemma_prim_word, lemma_round_trip, obj_size, obj_tag, prim_word, slot_bytes, stores, slot_stores, child_slot, pair_len, slot_len, tag_byte, word_at, SchemeObj, Tag};
use crate::error::HeapError;
use crate::memory::word::{word_len, word_size};
use crate::memory::header::{header_len, header_size, lemma_header_round_trip, Header};
use crate::memory::{overwrite, Mem, MemRead, MemWrite};

verus! {

/// Block `j` of chain `c` is free and holds at least `n` bytes.
pub open spec fn fits(s: Seq<u8>, c: Seq<nat>, j: int, n: nat) -> bool {
    !hdr(s, c[j] as int).allocd && hdr(s, c[j] as int).size >= n
}

/// Block `i` is the first block of `c` that fits `n` bytes.
pub open spec fn first_fit(s: Seq<u8>, c: Seq<nat>, n: nat, i: int) -> bool {
    &&& 0 <= i < c.len()
    &&& fits(s, c, i, n)
    &&& forall|j: int| 0 <= j < i ==> !fits(s, c, j, n)
}

/// No block of `c` fits `n` bytes.
pub open spec fn no_fit(s: Seq<u8>, c: Seq<nat>, n: nat) -> bool {
    forall|j: int| 0 <= j < c.len() ==> !fits(s, c, j, n)
}

/// Going from `(s, c)` to `(s2, c2)` hands out block `i` for `n` bytes:
/// where at least a header's worth would be left over, the block is split
/// and the rest becomes a free block of its own; else the whole block is
/// handed out. Only the headers written change.
#[verifier::opaque]
pub open spec fn claimed(
    s: Seq<u8>,
    c: Seq<nat>,
    i: int,
    n: nat,
    s2: Seq<u8>,
    c2: Seq<nat>,
) -> bool {
    let a = c[i] as int;
    let h = hdr(s, a);
    let r = a + header_len() + n;
    let split = h.size >= n + header_len();
    &&& s2.len() == s.len()
    &&& forall|j: int| 0 <= j < c.len() && j != i ==> hdr(s2, #[trigger] c[j] as int) == hdr(s, c[j] as int)
    &&& forall|k: int|
        0 <= k < s.len() && !(a <= k < a + header_len()) && !(split && r <= k < r + header_len())
            ==> s2[k] == s[k]
    &&& if split {
        &&& c2 == c.insert(i + 1, r as nat)
        &&& hdr(s2, a) == Header { next: r as usize, size: n as usize, allocd: true, marked: h.marked }
        &&& hdr(s2, r) == Header {
            next: h.next,
            size: (h.size - n - header_len()) as usize,
            allocd: false,
            marked: false,
        }
    } else {
        &&& c2 == c
        &&& hdr(s2, a) == Header { allocd: true, ..h }
    }
}

/// The payload addresses that the object at payload address `p` refers to
/// directly: for a pair, the word after each slot that holds a box.
pub open spec fn child_ptrs(s: Seq<u8>, p: int) -> Seq<usize> {
    if 0 <= p && p + pair_len() <= s.len() && s[p] == tag_byte(Tag::Pair) {
        let car = p + 1;
        let cdr = p + 1 + slot_len();
        (if s[car] == tag_byte(Tag::Box) {
            seq![word_at(s, car + 1)]
        } else {
            Seq::empty()
        }) + (if s[cdr] == tag_byte(Tag::Box) {
            seq![word_at(s, cdr + 1)]
        } else {
            Seq::empty()
        })
    } else {
        Seq::empty()
    }
}

/// How many of the blocks `c[from..]` are not marked.
pub open spec fn count_unmarked(s: Seq<u8>, c: Seq<nat>, from: int) -> nat
    decreases c.len() - from,
{
    if from < 0 || from >= c.len() {
        0
    } else {
        (if hdr(s, c[from] as int).marked {
            0nat
        } else {
            1nat
        }) + count_unmarked(s, c, from + 1)
    }
}

/// No block of the chain is marked.
pub open spec fn no_marks(s: Seq<u8>, c: Seq<nat>) -> bool {
    forall|j: int| 0 <= j < c.len() ==> !(#[trigger] hdr(s, c[j] as int)).marked
}

/// Each block of `c` whose payload starts at `x` is marked (or none does).
pub open spec fn covered(s: Seq<u8>, c: Seq<nat>, x: usize) -> bool {
    forall|k: int| 0 <= k < c.len() && #[trigger] c[k] == x - header_len() ==> hdr(s, c[k] as int).marked
}

/// The payload of block `j` can hold a pair.
pub open spec fn holds_pair(s: Seq<u8>, c: Seq<nat>, j: int) -> bool {
    hdr(s, c[j] as int).size >= pair_len()
}

/// The boxes in block `j` of `c`, read as a pair.
pub open spec fn block_children(s: Seq<u8>, c: Seq<nat>, j: int) -> Seq<usize> {
    child_ptrs(s, (c[j] + header_len()) as int)
}

/// `s` agrees with `s0` on the payload of every block of `c`.
pub open spec fn unchanged_payloads(s0: Seq<u8>, c: Seq<nat>, s: Seq<u8>) -> bool {
    &&& s.len() == s0.len()
    &&& forall|j: int, k: int|
        0 <= j < c.len() && c[j] + header_len() <= k < block_end(s0, #[trigger] c[j] as int) ==> #[trigger] s[k]
            == s0[k]
}

/// Block `j` of the chain `c0` of `s0` is still a block of the chain `c`
/// of `s`, with the same header.
pub open spec fn kept(s0: Seq<u8>, c0: Seq<nat>, s: Seq<u8>, c: Seq<nat>, j: int) -> bool {
    &&& c.contains(c0[j])
    &&& hdr(s, c0[j] as int) == hdr(s0, c0[j] as int)
}

/// `y` is a root, or is named by a box in a handed-out block that holds a
/// pair and whose payload is reached in at most `k - 1` such steps.
pub open spec fn reachable(s0: Seq<u8>, c: Seq<nat>, roots: Seq<usize>, y: usize, k: nat) -> bool
    decreases k,
{
    ||| roots.contains(y)
    ||| (k > 0 && exists|i: int|
        0 <= i < c.len() && hdr(s0, c[i] as int).allocd && holds_pair(s0, c, i) && reachable(
            s0,
            c,
            roots,
            (c[i] + header_len()) as usize,
            (k - 1) as nat,
        ) && #[trigger] block_children(s0, c, i).contains(y))
}

/// `y` is reached from `roots` through boxes in handed-out pairs of the
/// chain `c` of `s0`.
pub open spec fn reached(s0: Seq<u8>, c: Seq<nat>, roots: Seq<usize>, y: usize) -> bool {
    exists|k: nat| #[trigger] reachable(s0, c, roots, y, k)
}

/// The state of marking from `roots` with `work` left to visit: each root,
/// and each box in a marked block that holds a pair, is still to visit or
/// names only marked blocks; with `except`, the address `x` may be neither.
#[verifier::opaque]
pub open spec fn mark_inv(
    s0: Seq<u8>,
    c: Seq<nat>,
    s: Seq<u8>,
    roots: Seq<usize>,
    work: Seq<usize>,
    except: Option<usize>,
) -> bool {
    &&& forall|y: usize|
        #[trigger] roots.contains(y) ==> work.contains(y) || covered(s, c, y) || except == Some(y)
    &&& forall|j: int, y: usize|
        0 <= j < c.len() && hdr(s, c[j] as int).marked && hdr(s0, c[j] as int).allocd && holds_pair(s0, c, j)
            && #[trigger] block_children(s0, c, j).contains(y) ==> work.contains(y) || covered(s, c, y)
            || except == Some(y)
    &&& forall|y: usize| #[trigger] work.contains(y) ==> reached(s0, c, roots, y)
    &&& forall|j: int|
        0 <= j < c.len() && (#[trigger] hdr(s, c[j] as int)).marked ==> reached(s0, c, roots,
            (c[j] + header_len()) as usize,
        )
    &&& except matches Some(x) ==> reached(s0, c, roots, x)
}

/// Marking starts with the roots to visit and no block marked.
proof fn lemma_mark_start(s0: Seq<u8>, c: Seq<nat>, roots: Seq<usize>)
    requires
        no_marks(s0, c),
    ensures
        mark_inv(s0, c, s0, roots, roots, None),
{
    reveal(mark_inv);
    assert(forall|j: int| 0 <= j < c.len() ==> !(#[trigger] hdr(s0, c[j] as int)).marked);
    assert forall|y: usize| #[trigger] roots.contains(y) implies reached(s0, c, roots, y) by {
        assert(reachable(s0, c, roots, y, 0));
    }
}

/// Taking the last address to visit leaves it the one exception.
proof fn lemma_mark_pop(s0: Seq<u8>, c: Seq<nat>, s: Seq<u8>, roots: Seq<usize>, work: Seq<usize>)
    requires
        mark_inv(s0, c, s, roots, work, None),
        work.len() > 0,
    ensures
        mark_inv(s0, c, s, roots, work.drop_last(), Some(work.last())),
{
    reveal(mark_inv);
    let w2 = work.drop_last();
    assert(work.contains(work.last()));
    assert forall|y: usize| w2.contains(y) implies work.contains(y) by {
        let k = choose|k: int| 0 <= k < w2.len() && w2[k] == y;
        assert(work[k] == y);
    }
    assert forall|y: usize| work.contains(y) implies w2.contains(y) || y == work.last() by {
        let k = choose|k: int| 0 <= k < work.len() && work[k] == y;
        if k < work.len() - 1 {
            assert(w2[k] == y);
        }
    }
}

/// An address whose blocks are all marked needs no visit.
proof fn lemma_mark_skip(s0: Seq<u8>, c: Seq<nat>, s: Seq<u8>, roots: Seq<usize>, work: Seq<usize>, x: usize)
    requires
        mark_inv(s0, c, s, roots, work, Some(x)),
        covered(s, c, x),
    ensures
        mark_inv(s0, c, s, roots, work, None),
{
    reveal(mark_inv);
}

/// With nothing left to visit, roots and boxes of marked pairs name only
/// marked blocks, and each marked block is reached from the roots.
proof fn lemma_mark_done(s0: Seq<u8>, c: Seq<nat>, s: Seq<u8>, roots: Seq<usize>, work: Seq<usize>)
    requires
        mark_inv(s0, c, s, roots, work, None),
        work.len() == 0,
    ensures
        forall|x: usize| #[trigger] roots.contains(x) ==> covered(s, c, x),
        forall|j: int, x: usize|
            0 <= j < c.len() && hdr(s, c[j] as int).marked && hdr(s0, c[j] as int).allocd && holds_pair(s0, c, j)
                && #[trigger] block_children(s0, c, j).contains(x) ==> covered(s, c, x),
        forall|j: int|
            0 <= j < c.len() && (#[trigger] hdr(s, c[j] as int)).marked ==> reached(s0, c, roots,
                (c[j] + header_len()) as usize,
            ),
{
    reveal(mark_inv);
}

/// Marking the block that the visited address names, and adding its boxes
/// to visit, restores the marking state.
proof fn lemma_mark_one(
    s0: Seq<u8>,
    c: Seq<nat>,
    s: Seq<u8>,
    s2: Seq<u8>,
    roots: Seq<usize>,
    work: Seq<usize>,
    x: usize,
    j: int,
    work2: Seq<usize>,
)
    requires
        mark_inv(s0, c, s, roots, work, Some(x)),
        0 <= j < c.len(),
        c[j] + header_len() == x,
        forall|k: int| 0 <= k < c.len() && #[trigger] c[k] == x - header_len() ==> k == j,
        forall|k: int| 0 <= k < c.len() && k != j ==> hdr(s2, #[trigger] c[k] as int) == hdr(s, c[k] as int),
        hdr(s2, c[j] as int).marked,
        hdr(s0, c[j] as int).allocd && holds_pair(s0, c, j) ==> work2 == work + block_children(s0, c, j),
        !(hdr(s0, c[j] as int).allocd && holds_pair(s0, c, j)) ==> work2 == work,
    ensures
        mark_inv(s0, c, s2, roots, work2, None),
{
    reveal(mark_inv);
    assert(reached(s0, c, roots, x));
    let kx = choose|k: nat| #[trigger] reachable(s0, c, roots, x, k);
    assert forall|i: int| 0 <= i < c.len() && (#[trigger] hdr(s2, c[i] as int)).marked implies reached(s0, c, roots,
        (c[i] + header_len()) as usize,
    ) by {
        if i != j {
            assert(hdr(s2, c[i] as int) == hdr(s, c[i] as int));
        }
    }
    assert forall|y: usize| #[trigger] work2.contains(y) implies reached(s0, c, roots, y) by {
        let k = choose|k: int| 0 <= k < work2.len() && work2[k] == y;
        if k < work.len() {
            assert(work[k] == y);
            assert(work.contains(y));
        } else {
            assert(block_children(s0, c, j)[k - work.len()] == y);
            assert(block_children(s0, c, j).contains(y));
            assert(reachable(s0, c, roots, x, kx));
            assert(reachable(s0, c, roots, y, kx + 1));
        }
    }
    assert forall|y: usize| covered(s, c, y) implies covered(s2, c, y) by {
        assert forall|k: int| 0 <= k < c.len() && #[trigger] c[k] == y - header_len() implies hdr(
            s2,
            c[k] as int,
        ).marked by {
            if k != j {
                assert(hdr(s2, c[k] as int) == hdr(s, c[k] as int));
            }
        }
    }
    assert(covered(s2, c, x));
    assert forall|y: usize| work.contains(y) implies work2.contains(y) by {
        let k = choose|k: int| 0 <= k < work.len() && work[k] == y;
        assert(work2[k] == y);
    }
    if hdr(s0, c[j] as int).allocd && holds_pair(s0, c, j) {
        assert forall|y: usize| block_children(s0, c, j).contains(y) implies work2.contains(y) by {
            let b = block_children(s0, c, j);
            let k = choose|k: int| 0 <= k < b.len() && b[k] == y;
            assert(work2[work.len() + k] == y);
        }
    }
    assert forall|i: int, y: usize|
        0 <= i < c.len() && hdr(s2, c[i] as int).marked && hdr(s0, c[i] as int).allocd && holds_pair(s0, c, i)
            && #[trigger] block_children(s0, c, i).contains(y) implies work2.contains(y) || covered(s2, c, y) by {
        if i != j {
            assert(hdr(s2, c[i] as int) == hdr(s, c[i] as int));
        }
    }
}

/// A block of a chain ends within the buffer.
proof fn lemma_block_fits(s: Seq<u8>, c: Seq<nat>, j: int)
    requires
        chain_ok(s, c),
        0 <= j < c.len(),
    ensures
        block_end(s, c[j] as int) <= s.len(),
{
    if j < c.len() - 1 {
        assert(c[j + 1] + header_len() <= s.len());
    }
}

/// Rewriting the header of block `j` leaves every payload as it was.
proof fn lemma_mark_frame(s0: Seq<u8>, c: Seq<nat>, s: Seq<u8>, j: int, h: Header)
    requires
        chain_ok(s0, c),
        0 <= j < c.len(),
        unchanged_payloads(s0, c, s),
        h.to_bytes().len() == header_len(),
    ensures
        unchanged_payloads(s0, c, overwrite(s, c[j] as int, h.to_bytes())),
{
    lemma_chain_ends(s0, c);
    let s2 = overwrite(s, c[j] as int, h.to_bytes());
    assert forall|i: int, k: int|
        0 <= i < c.len() && c[i] + header_len() <= k < block_end(s0, #[trigger] c[i] as int) implies #[trigger] s2[k]
        == s0[k] by {
        if i < j {
            assert(block_end(s0, c[i] as int) <= c[j]);
        } else if i > j {
            assert(block_end(s0, c[j] as int) <= c[i]);
        }
        assert(s[k] == s0[k]);
    }
}

/// With payloads unchanged, a block holding a pair has the same boxes.
proof fn lemma_children_unchanged(s0: Seq<u8>, c: Seq<nat>, s: Seq<u8>, j: int)
    requires
        chain_ok(s0, c),
        0 <= j < c.len(),
        unchanged_payloads(s0, c, s),
        holds_pair(s0, c, j),
    ensures
        child_ptrs(s, (c[j] + header_len()) as int) == block_children(s0, c, j),
{
    lemma_chain_ends(s0, c);
    let p = (c[j] + header_len()) as int;
    assert forall|k: int| p <= k < p + pair_len() implies s[k] == s0[k] by {
        assert(c[j] + header_len() <= k < block_end(s0, c[j] as int));
    }
    let w = word_len() as int;
    let q = slot_len() as int;
    assert(s.subrange(p + 2, p + 2 + w) =~= s0.subrange(p + 2, p + 2 + w));
    assert(s.subrange(p + 2 + q, p + 2 + q + w) =~= s0.subrange(p + 2 + q, p + 2 + q + w));
}

/// What marking and then sweeping give together.
proof fn lemma_collect(s0: Seq<u8>, c0: Seq<nat>, s1: Seq<u8>, s2: Seq<u8>, c2: Seq<nat>, roots: Seq<usize>)
    requires
        chain_ok(s0, c0),
        no_marks(s0, c0),
        forall|j: int|
            0 <= j < c0.len() ==> {
                let h0 = hdr(s0, c0[j] as int);
                let h1 = #[trigger] hdr(s1, c0[j] as int);
                h1 == (Header { marked: h1.marked, ..h0 })
            },
        forall|x: usize| #[trigger] roots.contains(x) ==> covered(s1, c0, x),
        forall|j: int, x: usize|
            0 <= j < c0.len() && hdr(s1, c0[j] as int).marked && hdr(s0, c0[j] as int).allocd && holds_pair(
                s0,
                c0,
                j,
            ) && #[trigger] block_children(s0, c0, j).contains(x) ==> covered(s1, c0, x),
        forall|j: int|
            0 <= j < c0.len() && (#[trigger] hdr(s1, c0[j] as int)).marked ==> reached(s0, c0, roots,
                (c0[j] + header_len()) as usize,
            ),
        swept(s1, c0, s2, c2),
        unchanged_payloads(s0, c0, s1),
        unchanged_payloads(s1, c0, s2),
    ensures
        collected(s0, c0, s2, c2, roots),
        no_marks(s2, c2),
        unchanged_payloads(s0, c0, s2),
        forall|k: int|
            0 <= k < c2.len() && (#[trigger] hdr(s2, c2[k] as int)).allocd ==> {
                &&& c0.contains(c2[k])
                &&& hdr(s0, c2[k] as int) == hdr(s2, c2[k] as int)
            },
        forall|j: int|
            0 <= j < c0.len() && roots.contains((c0[j] + header_len()) as usize) && (#[trigger] hdr(
                s0,
                c0[j] as int,
            )).allocd ==> kept(s0, c0, s2, c2, j),
        forall|j: int, k: int|
            0 <= j < c0.len() && 0 <= k < c0.len() && hdr(s0, c0[j] as int).allocd && holds_pair(s0, c0, j)
                && kept(s0, c0, s2, c2, j) && #[trigger] block_children(s0, c0, j).contains(
                (c0[k] + header_len()) as usize,
            ) && (#[trigger] hdr(s0, c0[k] as int)).allocd ==> kept(s0, c0, s2, c2, k),
        forall|k: int|
            0 <= k < c2.len() && (#[trigger] hdr(s2, c2[k] as int)).allocd ==> reached(s0, c0, roots, (c2[k] + header_len()) as usize),
{
    assert forall|j: int, k: int|
        0 <= j < c0.len() && c0[j] + header_len() <= k < block_end(s0, #[trigger] c0[j] as int) implies #[trigger] s2[k]
        == s0[k] by {
        assert(hdr(s1, c0[j] as int).size == hdr(s0, c0[j] as int).size);
        assert(s1[k] == s0[k]);
    }
    assert forall|j: int| 0 <= j < c0.len() && live(#[trigger] hdr(s1, c0[j] as int)) implies kept(
        s0,
        c0,
        s2,
        c2,
        j,
    ) by {
        let h1 = hdr(s1, c0[j] as int);
        assert(h1 == (Header { marked: h1.marked, ..hdr(s0, c0[j] as int) }));
        assert(!hdr(s0, c0[j] as int).marked);
    }
    assert forall|k: int| 0 <= k < c2.len() && (#[trigger] hdr(s2, c2[k] as int)).allocd implies {
        &&& c0.contains(c2[k])
        &&& hdr(s0, c2[k] as int) == hdr(s2, c2[k] as int)
    } by {
        let j = choose|j: int| 0 <= j < c0.len() && c0[j] == c2[k];
        assert(live(hdr(s1, c0[j] as int)));
    }
    assert forall|j: int|
        0 <= j < c0.len() && roots.contains((c0[j] + header_len()) as usize) && (#[trigger] hdr(
            s0,
            c0[j] as int,
        )).allocd implies kept(s0, c0, s2, c2, j) by {
        assert(covered(s1, c0, (c0[j] + header_len()) as usize));
        assert(live(hdr(s1, c0[j] as int)));
    }
    assert forall|j: int, k: int|
        0 <= j < c0.len() && 0 <= k < c0.len() && hdr(s0, c0[j] as int).allocd && holds_pair(s0, c0, j)
            && kept(s0, c0, s2, c2, j) && #[trigger] block_children(s0, c0, j).contains(
            (c0[k] + header_len()) as usize,
        ) && (#[trigger] hdr(s0, c0[k] as int)).allocd implies kept(s0, c0, s2, c2, k) by {
        let i = choose|i: int| 0 <= i < c2.len() && c2[i] == c0[j];
        assert(hdr(s2, c2[i] as int).allocd);
        assert(live(hdr(s1, c0[j] as int)));
        assert(covered(s1, c0, (c0[k] + header_len()) as usize));
        assert(live(hdr(s1, c0[k] as int)));
    }
    assert forall|k: int| 0 <= k < c2.len() && (#[trigger] hdr(s2, c2[k] as int)).allocd implies reached(
        s0,
        c0,
        roots,
        (c2[k] + header_len()) as usize,
    ) by {
        let j = choose|j: int| 0 <= j < c0.len() && c0[j] == c2[k];
        assert(live(hdr(s1, c0[j] as int)));
    }
}

/// Collecting garbage with `roots` took the chain `c0` of `s0` to the chain
/// `c` of `s`:
/// - no payload byte of `c0` changed;
/// - no block is marked, and no two neighbouring blocks are both free;
/// - each block handed out was handed out before, with the same header, and
///   is reached from the roots through boxes in handed-out pairs;
/// - each handed-out block that a root names, or that a box in a kept
///   handed-out pair names, is kept with its header.
pub open spec fn collected(s0: Seq<u8>, c0: Seq<nat>, s: Seq<u8>, c: Seq<nat>, roots: Seq<usize>) -> bool {
    &&& unchanged_payloads(s0, c0, s)
    &&& no_marks(s, c)
    &&& forall|k: int|
        0 <= k < c.len() - 1 ==> (#[trigger] hdr(s, c[k] as int)).allocd || hdr(s, c[k + 1] as int).allocd
    &&& forall|k: int|
        0 <= k < c.len() && (#[trigger] hdr(s, c[k] as int)).allocd ==> {
            &&& c0.contains(c[k])
            &&& hdr(s0, c[k] as int) == hdr(s, c[k] as int)
            &&& reached(s0, c0, roots, (c[k] + header_len()) as usize)
        }
    &&& forall|j: int|
        0 <= j < c0.len() && roots.contains((c0[j] + header_len()) as usize) && (#[trigger] hdr(
            s0,
            c0[j] as int,
        )).allocd ==> kept(s0, c0, s, c, j)
    &&& forall|j: int, k: int|
        0 <= j < c0.len() && 0 <= k < c0.len() && hdr(s0, c0[j] as int).allocd && holds_pair(s0, c0, j)
            && kept(s0, c0, s, c, j) && #[trigger] block_children(s0, c0, j).contains(
            (c0[k] + header_len()) as usize,
        ) && (#[trigger] hdr(s0, c0[k] as int)).allocd ==> kept(s0, c0, s, c, k)
}

/// A block is kept by a sweep when it is both handed out and marked.
pub open spec fn live(h: Header) -> bool {
    h.allocd && h.marked
}

/// Marking one unmarked block lowers the count of unmarked blocks by one.
proof fn lemma_count_mark(s: Seq<u8>, s2: Seq<u8>, c: Seq<nat>, j: int, from: int)
    requires
        0 <= from <= j < c.len(),
        !hdr(s, c[j] as int).marked,
        hdr(s2, c[j] as int).marked,
        forall|k: int| 0 <= k < c.len() && k != j ==> hdr(s2, #[trigger] c[k] as int) == hdr(s, c[k] as int),
    ensures
        count_unmarked(s2, c, from) + 1 == count_unmarked(s, c, from),
    decreases c.len() - from,
{
    if from < j {
        lemma_count_mark(s, s2, c, j, from + 1);
    } else {
        lemma_count_same(s, s2, c, from + 1);
    }
}

/// Equal headers give equal counts.
proof fn lemma_count_same(s: Seq<u8>, s2: Seq<u8>, c: Seq<nat>, from: int)
    requires
        0 <= from,
        forall|k: int| from <= k < c.len() ==> hdr(s2, #[trigger] c[k] as int) == hdr(s, c[k] as int),
    ensures
        count_unmarked(s2, c, from) == count_unmarked(s, c, from),
    decreases c.len() - from,
{
    if from < c.len() {
        lemma_count_same(s, s2, c, from + 1);
    }
}

/// What holds after sweeping the blocks `c0[..i]` of the chain `c0` of
/// `s0` into the blocks `nb` of `s`.
pub open spec fn sweep_prefix(s0: Seq<u8>, c0: Seq<nat>, i: int, s: Seq<u8>, nb: Seq<nat>) -> bool {
    &&& forall|k: int| 0 <= k < nb.len() ==> !(#[trigger] hdr(s, nb[k] as int)).marked
    &&& forall|k: int|
        0 <= k < nb.len() - 1 ==> (#[trigger] hdr(s, nb[k] as int)).allocd || hdr(s, nb[k + 1] as int).allocd
    &&& (nb.len() > 0 && !hdr(s, nb.last() as int).allocd && i < c0.len()) ==> live(hdr(s0, c0[i] as int))
    &&& forall|j: int|
        0 <= j < i && live(#[trigger] hdr(s0, c0[j] as int)) ==> nb.contains(c0[j]) && hdr(s, c0[j] as int)
            == Header { marked: false, ..hdr(s0, c0[j] as int) }
    &&& forall|k: int|
        0 <= k < nb.len() && (#[trigger] hdr(s, nb[k] as int)).allocd ==> c0.contains(nb[k]) && live(
            hdr(s0, nb[k] as int),
        )
}

/// Sweeping the chain `c0` of `s0` gave the chain `c` of `s`: no block is
/// marked, no two neighbouring blocks are both free, the blocks that were
/// handed out and marked are kept as they were but for the mark, and no
/// other block is still handed out.
pub open spec fn swept(s0: Seq<u8>, c0: Seq<nat>, s: Seq<u8>, c: Seq<nat>) -> bool {
    sweep_prefix(s0, c0, c0.len() as int, s, c)
}

/// One step of a sweep, on what the sweep has done so far.
proof fn lemma_sweep_step(
    s0: Seq<u8>,
    c0: Seq<nat>,
    i: int,
    m: int,
    s: Seq<u8>,
    s2: Seq<u8>,
    nb: Seq<nat>,
    h: Header,
)
    requires
        0 <= i < m <= c0.len(),
        sweep_prefix(s0, c0, i, s, nb),
        forall|j: int| i <= j < c0.len() ==> hdr(s, #[trigger] c0[j] as int) == hdr(s0, c0[j] as int),
        forall|k: int|
            0 <= k < nb.len() ==> hdr(s2, #[trigger] nb[k] as int) == hdr(s, nb[k] as int),
        forall|j: int| m <= j < c0.len() ==> hdr(s2, #[trigger] c0[j] as int) == hdr(s, c0[j] as int),
        hdr(s2, c0[i] as int) == h,
        !h.marked,
        live(hdr(s0, c0[i] as int)) ==> m == i + 1 && h == (Header { marked: false, ..hdr(s0, c0[i] as int) }),
        !live(hdr(s0, c0[i] as int)) ==> !h.allocd,
        forall|j: int| i < j < m ==> !live(#[trigger] hdr(s0, c0[j] as int)),
        !h.allocd && m < c0.len() ==> live(hdr(s0, c0[m] as int)),
    ensures
        sweep_prefix(s0, c0, m, s2, nb.push(c0[i])),
        forall|j: int| m <= j < c0.len() ==> hdr(s2, #[trigger] c0[j] as int) == hdr(s0, c0[j] as int),
{
    let nb2 = nb.push(c0[i]);
    assert forall|k: int| 0 <= k < nb.len() implies #[trigger] nb2[k] == nb[k] by {}
    assert(nb2[nb.len() as int] == c0[i]);
    assert forall|j: int| 0 <= j < m && live(#[trigger] hdr(s0, c0[j] as int)) implies nb2.contains(c0[j])
        && hdr(s2, c0[j] as int) == (Header { marked: false, ..hdr(s0, c0[j] as int) }) by {
        if j < i {
            let k = choose|k: int| 0 <= k < nb.len() && nb[k] == c0[j];
            assert(nb2[k] == c0[j]);
        } else {
            assert(j == i);
            assert(nb2[nb.len() as int] == c0[j]);
        }
    }
    assert forall|k: int| 0 <= k < nb2.len() && (#[trigger] hdr(s2, nb2[k] as int)).allocd implies c0.contains(
        nb2[k],
    ) && live(hdr(s0, nb2[k] as int)) by {
        if k == nb.len() {
            assert(c0[i] == nb2[k]);
        }
    }
    assert forall|k: int| 0 <= k < nb2.len() - 1 implies (#[trigger] hdr(s2, nb2[k] as int)).allocd || hdr(
        s2,
        nb2[k + 1] as int,
    ).allocd by {
        if k == nb.len() - 1 {
            assert(nb.last() == nb[k]);
        }
    }
}

/// Reads the header at `addr` of `space`.
fn read_header(space: &Vec<u8>, addr: usize) -> (h: Header)
    requires
        addr + header_len() <= space@.len() <= usize::MAX,
    ensures
        h == hdr(space@, addr as int),
{
    proof {
        reveal(hdr);
    }
    Header::read(space, addr)
}

/// The state of a sweep that has turned the blocks `c0[..i]` of `s0` into
/// the blocks `nb` of `s`.
#[verifier::opaque]
pub open spec fn sweep_inv(s0: Seq<u8>, c0: Seq<nat>, i: int, s: Seq<u8>, nb: Seq<nat>) -> bool {
    &&& 0 <= i <= c0.len()
    &&& s.len() == s0.len()
    &&& chain_ok(s, nb + c0.subrange(i, c0.len() as int))
    &&& forall|j: int| i <= j < c0.len() ==> hdr(s, #[trigger] c0[j] as int) == hdr(s0, c0[j] as int)
    &&& sweep_prefix(s0, c0, i, s, nb)
}

/// What the state of a sweep tells of the buffer, and, at the end, that
/// the blocks swept form a chain.
proof fn lemma_sweep_facts(s0: Seq<u8>, c0: Seq<nat>, i: int, s: Seq<u8>, nb: Seq<nat>)
    requires
        chain_ok(s0, c0),
        sweep_inv(s0, c0, i, s, nb),
    ensures
        0 <= i <= c0.len(),
        s.len() == s0.len(),
        forall|j: int| i <= j < c0.len() ==> hdr(s, #[trigger] c0[j] as int) == hdr(s0, c0[j] as int),
        i == c0.len() ==> chain_ok(s, nb) && swept(s0, c0, s, nb),
{
    reveal(sweep_inv);
    let cc = nb + c0.subrange(i, c0.len() as int);
    if i == c0.len() {
        assert(cc =~= nb);
    }
}

/// A sweep starts with nothing swept.
proof fn lemma_sweep_start(s0: Seq<u8>, c0: Seq<nat>)
    requires
        chain_ok(s0, c0),
    ensures
        sweep_inv(s0, c0, 0, s0, Seq::empty()),
{
    reveal(sweep_inv);
    assert(Seq::<nat>::empty() + c0.subrange(0, c0.len() as int) =~= c0);
}

/// Indexing into the chain of a sweep in progress.
proof fn lemma_seq_merge(nb: Seq<nat>, c0: Seq<nat>, i: int, m: int)
    requires
        0 <= i < m <= c0.len(),
    ensures
        ({
            let cc = nb + c0.subrange(i, c0.len() as int);
            let p = nb.len() as int;
            let q = p + (m - i);
            &&& cc.len() == nb.len() + c0.len() - i
            &&& cc[p] == c0[i]
            &&& q <= cc.len()
            &&& (q == cc.len() <==> m == c0.len())
            &&& q < cc.len() ==> cc[q] == c0[m]
            &&& cc.subrange(0, p + 1) + cc.subrange(q, cc.len() as int) == nb.push(c0[i]) + c0.subrange(
                m,
                c0.len() as int,
            )
            &&& forall|k: int| 0 <= k < p ==> #[trigger] cc[k] == nb[k]
            &&& forall|j: int| m <= j < c0.len() ==> cc[p + (j - i)] == #[trigger] c0[j]
        }),
{
    let cc = nb + c0.subrange(i, c0.len() as int);
    let p = nb.len() as int;
    let q = p + (m - i);
    assert(cc.subrange(0, p + 1) + cc.subrange(q, cc.len() as int) =~= nb.push(c0[i]) + c0.subrange(
        m,
        c0.len() as int,
    ));
    assert forall|j: int| m <= j < c0.len() implies cc[p + (j - i)] == #[trigger] c0[j] by {}
}

/// Writing the merged header of block `i` keeps a chain.
proof fn lemma_sweep_chain(c0: Seq<nat>, i: int, m: int, s: Seq<u8>, nb: Seq<nat>, h: Header)
    requires
        0 <= i < m <= c0.len(),
        chain_ok(s, nb + c0.subrange(i, c0.len() as int)),
        h.next == (if m < c0.len() { c0[m] } else { 0 }),
        c0[i] + header_len() + h.size == (if m < c0.len() { c0[m] as int } else { s.len() as int }),
    ensures
        chain_ok(overwrite(s, c0[i] as int, h.to_bytes()), nb.push(c0[i]) + c0.subrange(m, c0.len() as int)),
        hdr(overwrite(s, c0[i] as int, h.to_bytes()), c0[i] as int) == h,
        forall|k: int|
            0 <= k < nb.len() ==> hdr(overwrite(s, c0[i] as int, h.to_bytes()), #[trigger] nb[k] as int) == hdr(s, nb[k] as int),
        forall|j: int|
            m <= j < c0.len() ==> hdr(overwrite(s, c0[i] as int, h.to_bytes()), #[trigger] c0[j] as int) == hdr(s, c0[j] as int),
{
    let cc = nb + c0.subrange(i, c0.len() as int);
    let p = nb.len() as int;
    let q = p + (m - i);
    let s2 = overwrite(s, c0[i] as int, h.to_bytes());
    lemma_seq_merge(nb, c0, i, m);
    lemma_rewrite(s, cc, p, q, h);
    assert forall|k: int| 0 <= k < nb.len() implies hdr(s2, #[trigger] nb[k] as int) == hdr(s, nb[k] as int) by {
        assert(cc[k] == nb[k]);
    }
    assert forall|j: int| m <= j < c0.len() implies hdr(s2, #[trigger] c0[j] as int) == hdr(s, c0[j] as int) by {
        assert(cc[p + (j - i)] == c0[j]);
    }
}

/// One step of a sweep keeps its state.
proof fn lemma_sweep_iter(
    s0: Seq<u8>,
    c0: Seq<nat>,
    i: int,
    m: int,
    s: Seq<u8>,
    nb: Seq<nat>,
    h: Header,
)
    requires
        chain_ok(s0, c0),
        0 <= i < m <= c0.len(),
        sweep_inv(s0, c0, i, s, nb),
        !h.marked,
        live(hdr(s0, c0[i] as int)) ==> m == i + 1 && h == (Header { marked: false, ..hdr(s0, c0[i] as int) }),
        !live(hdr(s0, c0[i] as int)) ==> !h.allocd,
        forall|j: int| i < j < m ==> !live(#[trigger] hdr(s0, c0[j] as int)),
        !h.allocd && m < c0.len() ==> live(hdr(s0, c0[m] as int)),
        h.next == (if m < c0.len() { c0[m] } else { 0 }),
        c0[i] + header_len() + h.size == (if m < c0.len() { c0[m] as int } else { s.len() as int }),
    ensures
        sweep_inv(s0, c0, m, overwrite(s, c0[i] as int, h.to_bytes()), nb.push(c0[i])),
{
    reveal(sweep_inv);
    let s2 = overwrite(s, c0[i] as int, h.to_bytes());
    lemma_sweep_chain(c0, i, m, s, nb, h);
    lemma_sweep_step(s0, c0, i, m, s, s2, nb, h);
}

/// The run of blocks after block `i` that a sweep merges into it: the
/// address after the run (`0` at the end of the chain), the payload size of
/// the merged block, and the index after the run.
fn merge_run(
    space: &Vec<u8>,
    addr: usize,
    s0: Ghost<Seq<u8>>,
    c0: Ghost<Seq<nat>>,
    i: Ghost<int>,
) -> (r: (
    usize,
    usize,
    Ghost<int>,
))
    requires
        chain_ok(s0@, c0@),
        0 <= i@ < c0@.len(),
        addr == c0@[i@],
        space@.len() == s0@.len(),
        forall|j: int| i@ <= j < c0@.len() ==> hdr(space@, #[trigger] c0@[j] as int) == hdr(s0@, c0@[j] as int),
    ensures
        i@ < r.2@ <= c0@.len(),
        r.0 == (if r.2@ < c0@.len() { c0@[r.2@] } else { 0 }),
        c0@[i@] + header_len() + r.1 == (if r.2@ < c0@.len() { c0@[r.2@] as int } else { s0@.len() as int }),
        forall|j: int| i@ < j < r.2@ ==> !live(#[trigger] hdr(s0@, c0@[j] as int)),
        r.2@ < c0@.len() ==> live(hdr(s0@, c0@[r.2@] as int)),
{
    let ghost c = c0@;
    let ghost len = c.len() as int;
    let hs = header_size();
    let header = read_header(space, addr);
    let mut next = header.next;
    let mut size = header.size;
    let ghost mut m: int = i@ + 1;
    proof {
        lemma_chain_ends(s0@, c);
    }
    loop
        invariant
            hs == header_len(),
            chain_ok(s0@, c),
            space@.len() == s0@.len(),
            forall|j: int| i@ <= j < len ==> hdr(space@, #[trigger] c[j] as int) == hdr(s0@, c[j] as int),
            len == c.len(),
            0 <= i@ < m <= len,
            next == (if m < len { c[m] } else { 0 }),
            c[i@] + header_len() + size == (if m < len { c[m] as int } else { s0@.len() as int }),
            forall|j: int| i@ < j < m ==> !live(#[trigger] hdr(s0@, c[j] as int)),
        ensures
            m < len ==> live(hdr(s0@, c[m] as int)),
        decreases len - m,
    {
        if next == 0 {
            proof {
                if m < len {
                    lemma_chain_ends(s0@, c);
                    assert(c[m] > 0);
                }
            }
            break;
        }
        let next_header = read_header(space, next);
        if next_header.marked && next_header.allocd {
            break;
        }
        size = size + hs + next_header.size;
        next = next_header.next;
        proof {
            m = m + 1;
        }
    }
    (next, size, Ghost(m))
}

/// The header of the block that `alloc_block` keeps, after a split.
pub open spec fn split_head(h: Header, r: int, n: nat) -> Header {
    Header { next: r as usize, size: n as usize, allocd: true, marked: h.marked }
}

/// The header of the free block that a split leaves over.
pub open spec fn split_rest(h: Header, n: nat) -> Header {
    Header { next: h.next, size: (h.size - n - header_len()) as usize, allocd: false, marked: false }
}

/// Splitting block `i` hands out its first `n` bytes.
#[verifier::spinoff_prover]
#[verifier::rlimit(80)]
proof fn lemma_claim_split(s: Seq<u8>, c: Seq<nat>, i: int, n: nat)
    requires
        chain_ok(s, c),
        0 <= i < c.len(),
        fits(s, c, i, n),
        hdr(s, c[i] as int).size >= n + header_len(),
    ensures
        ({
            let h = hdr(s, c[i] as int);
            let r = (c[i] + header_len() + n) as int;
            let s2 = overwrite(
                overwrite(s, r, split_rest(h, n).to_bytes()),
                c[i] as int,
                split_head(h, r, n).to_bytes(),
            );
            &&& claimed(s, c, i, n, s2, c.insert(i + 1, r as nat))
            &&& chain_ok(s2, c.insert(i + 1, r as nat))
            &&& no_marks(s, c) ==> no_marks(s2, c.insert(i + 1, r as nat))
        }),
{
    reveal(claimed);
    let h = hdr(s, c[i] as int);
    let r = (c[i] + header_len() + n) as int;
    lemma_chain_ends(s, c);
    lemma_split(s, c, i, r, split_rest(h, n), split_head(h, r, n));
    lemma_header_round_trip(split_rest(h, n));
    lemma_header_round_trip(split_head(h, r, n));
    let s2 = overwrite(
        overwrite(s, r, split_rest(h, n).to_bytes()),
        c[i] as int,
        split_head(h, r, n).to_bytes(),
    );
    let c2 = c.insert(i + 1, r as nat);
    if no_marks(s, c) {
        assert forall|j: int| 0 <= j < c2.len() implies !(#[trigger] hdr(s2, c2[j] as int)).marked by {
            if j > i + 1 {
                assert(c2[j] == c[j - 1]);
            } else if j < i {
                assert(c2[j] == c[j]);
            }
        }
    }
}

/// Handing out block `i` whole.
#[verifier::spinoff_prover]
#[verifier::rlimit(80)]
proof fn lemma_claim_whole(s: Seq<u8>, c: Seq<nat>, i: int, n: nat)
    requires
        chain_ok(s, c),
        0 <= i < c.len(),
        fits(s, c, i, n),
        hdr(s, c[i] as int).size < n + header_len(),
    ensures
        ({
            let h = hdr(s, c[i] as int);
            let s2 = overwrite(s, c[i] as int, (Header { allocd: true, ..h }).to_bytes());
            &&& claimed(s, c, i, n, s2, c)
            &&& chain_ok(s2, c)
            &&& no_marks(s, c) ==> no_marks(s2, c)
        }),
{
    reveal(claimed);
    let h = hdr(s, c[i] as int);
    let h2 = Header { allocd: true, ..h };
    lemma_chain_ends(s, c);
    lemma_rewrite(s, c, i, i + 1, h2);
    lemma_header_round_trip(h2);
    assert(c.subrange(0, i + 1) + c.subrange(i + 1, c.len() as int) =~= c);
}

/// Writing bytes inside the payload of block `j` changes no header.
proof fn lemma_payload_write(s: Seq<u8>, c: Seq<nat>, j: int, w: int, b: Seq<u8>)
    requires
        chain_ok(s, c),
        0 <= j < c.len(),
        c[j] + header_len() <= w,
        w + b.len() <= block_end(s, c[j] as int),
    ensures
        chain_ok(overwrite(s, w, b), c),
        no_marks(s, c) ==> no_marks(overwrite(s, w, b), c),
        forall|k: int| 0 <= k < c.len() ==> hdr(overwrite(s, w, b), #[trigger] c[k] as int) == hdr(s, c[k] as int),
{
    lemma_chain_ends(s, c);
    assert forall|k: int| 0 <= k < c.len() implies hdr(overwrite(s, w, b), #[trigger] c[k] as int) == hdr(
        s,
        c[k] as int,
    ) by {
        lemma_hdr_frame(s, w, b, c[k] as int);
    }
    lemma_chain_frame(s, overwrite(s, w, b), c);
}

/// The blocks handed out in the chain `c` of `s` are still blocks of `c2`,
/// with the same headers and payloads, in `s2`.
pub open spec fn keeps_allocd(s: Seq<u8>, c: Seq<nat>, s2: Seq<u8>, c2: Seq<nat>) -> bool {
    &&& s2.len() == s.len()
    &&& forall|j: int|
        0 <= j < c.len() && (#[trigger] hdr(s, c[j] as int)).allocd ==> c2.contains(c[j]) && hdr(s2, c[j] as int)
            == hdr(s, c[j] as int)
    &&& forall|j: int, k: int|
        0 <= j < c.len() && hdr(s, c[j] as int).allocd && c[j] + header_len() <= k < block_end(
            s,
            #[trigger] c[j] as int,
        ) ==> #[trigger] s2[k] == s[k]
}

/// `a` is the payload address of a handed-out block of `c` that holds at
/// least `n` bytes.
pub open spec fn in_allocd_block(s: Seq<u8>, c: Seq<nat>, a: int, n: nat) -> bool {
    exists|j: int|
        0 <= j < c.len() && #[trigger] c[j] == a - header_len() && hdr(s, c[j] as int).allocd && hdr(
            s,
            c[j] as int,
        ).size >= n
}

/// How many boxes deep `v` is stored.
pub open spec fn depth(v: SchemeObj) -> nat
    decreases v,
{
    match v {
        SchemeObj::Pair { car, cdr } => {
            let a = if *car is Pair {
                1 + depth(*car)
            } else {
                0
            };
            let b = if *cdr is Pair {
                1 + depth(*cdr)
            } else {
                0
            };
            if a >= b {
                a as nat
            } else {
                b as nat
            }
        },
        _ => 0,
    }
}

/// `s` holds `v` at payload address `a` of a handed-out block of `c`, and
/// each child that is a pair at the address in its box, likewise.
pub open spec fn stores_in(s: Seq<u8>, c: Seq<nat>, a: int, v: SchemeObj) -> bool
    decreases v, 0nat,
{
    &&& in_allocd_block(s, c, a, obj_size(v))
    &&& 0 <= a
    &&& a + obj_size(v) <= s.len()
    &&& match v {
        SchemeObj::Pair { car, cdr } => {
            &&& s[a] == tag_byte(Tag::Pair)
            &&& slot_in(s, c, a + 1, *car)
            &&& slot_in(s, c, a + 1 + slot_len(), *cdr)
        },
        _ => s.subrange(a, a + slot_len()) == slot_bytes(obj_tag(v), prim_word(v)),
    }
}

/// The slot of a pair at address `a` of `s` holds `v`, in place or boxed.
pub open spec fn slot_in(s: Seq<u8>, c: Seq<nat>, a: int, v: SchemeObj) -> bool
    decreases v, 1nat,
{
    &&& 0 <= a
    &&& a + slot_len() <= s.len()
    &&& if v is Pair {
        &&& s[a] == tag_byte(Tag::Box)
        &&& stores_in(s, c, word_at(s, a + 1) as int, v)
    } else {
        s.subrange(a, a + slot_len()) == slot_bytes(obj_tag(v), prim_word(v))
    }
}

/// What `stores_in` says gives `stores`, with as much fuel as `v` is deep.
pub proof fn lemma_stores_in(s: Seq<u8>, c: Seq<nat>, a: int, v: SchemeObj, fuel: nat)
    requires
        stores_in(s, c, a, v),
        fuel >= depth(v),
    ensures
        stores(s, a, v, fuel),
    decreases v, 0nat,
{
    if let SchemeObj::Pair { car, cdr } = v {
        lemma_slot_in(s, c, a + 1, *car, fuel);
        lemma_slot_in(s, c, a + 1 + slot_len(), *cdr, fuel);
    }
}

proof fn lemma_slot_in(s: Seq<u8>, c: Seq<nat>, a: int, v: SchemeObj, fuel: nat)
    requires
        slot_in(s, c, a, v),
        v is Pair ==> fuel >= 1 + depth(v),
    ensures
        slot_stores(s, a, v, fuel),
    decreases v, 1nat,
{
    if v is Pair {
        lemma_stores_in(s, c, word_at(s, a + 1) as int, v, (fuel - 1) as nat);
    }
}

/// What is stored in handed-out blocks stays stored while those blocks
/// are kept.
proof fn lemma_stores_in_kept(s: Seq<u8>, c: Seq<nat>, s2: Seq<u8>, c2: Seq<nat>, a: int, v: SchemeObj)
    requires
        chain_ok(s, c),
        stores_in(s, c, a, v),
        keeps_allocd(s, c, s2, c2),
    ensures
        stores_in(s2, c2, a, v),
    decreases v, 0nat,
{
    let j = choose|j: int|
        0 <= j < c.len() && #[trigger] c[j] == a - header_len() && hdr(s, c[j] as int).allocd && hdr(
            s,
            c[j] as int,
        ).size >= obj_size(v);
    assert(hdr(s, c[j] as int).allocd);
    let j2 = choose|j2: int| 0 <= j2 < c2.len() && c2[j2] == c[j];
    assert(c2[j2] == a - header_len());
    assert forall|k: int| a <= k < a + obj_size(v) implies s2[k] == s[k] by {
        assert(c[j] + header_len() <= k < block_end(s, c[j] as int));
    }
    let w = slot_len() as int;
    match v {
        SchemeObj::Pair { car, cdr } => {
            lemma_slot_in_kept(s, c, s2, c2, a + 1, *car);
            lemma_slot_in_kept(s, c, s2, c2, a + 1 + w, *cdr);
        },
        _ => {
            assert(s2.subrange(a, a + w) =~= s.subrange(a, a + w));
        },
    }
}

proof fn lemma_slot_in_kept(s: Seq<u8>, c: Seq<nat>, s2: Seq<u8>, c2: Seq<nat>, a: int, v: SchemeObj)
    requires
        chain_ok(s, c),
        slot_in(s, c, a, v),
        keeps_allocd(s, c, s2, c2),
        forall|k: int| a <= k < a + slot_len() ==> s2[k] == s[k],
    ensures
        slot_in(s2, c2, a, v),
    decreases v, 1nat,
{
    let w = word_len() as int;
    assert(s2.subrange(a + 1, a + 1 + w) =~= s.subrange(a + 1, a + 1 + w));
    assert(s2.subrange(a, a + slot_len()) =~= s.subrange(a, a + slot_len()));
    if v is Pair {
        lemma_stores_in_kept(s, c, s2, c2, word_at(s, a + 1) as int, v);
    }
}

/// A heap keeps its own handed-out blocks.
proof fn lemma_keeps_refl(s: Seq<u8>, c: Seq<nat>)
    ensures
        keeps_allocd(s, c, s, c),
{
    assert forall|j: int| 0 <= j < c.len() && (#[trigger] hdr(s, c[j] as int)).allocd implies c.contains(c[j]) by {
        assert(c[j] == c[j]);
    }
}

/// Keeping handed-out blocks is transitive.
proof fn lemma_keeps_trans(s: Seq<u8>, c: Seq<nat>, s2: Seq<u8>, c2: Seq<nat>, s3: Seq<u8>, c3: Seq<nat>)
    requires
        keeps_allocd(s, c, s2, c2),
        keeps_allocd(s2, c2, s3, c3),
    ensures
        keeps_allocd(s, c, s3, c3),
{
    assert forall|j: int| 0 <= j < c.len() && (#[trigger] hdr(s, c[j] as int)).allocd implies c3.contains(c[j])
        && hdr(s3, c[j] as int) == hdr(s, c[j] as int) by {
        let j2 = choose|j2: int| 0 <= j2 < c2.len() && c2[j2] == c[j];
        assert(hdr(s2, c2[j2] as int).allocd);
    }
    assert forall|j: int, k: int|
        0 <= j < c.len() && hdr(s, c[j] as int).allocd && c[j] + header_len() <= k < block_end(
            s,
            #[trigger] c[j] as int,
        ) implies #[trigger] s3[k] == s[k] by {
        let j2 = choose|j2: int| 0 <= j2 < c2.len() && c2[j2] == c[j];
        assert(hdr(s2, c2[j2] as int).allocd);
        assert(block_end(s2, c2[j2] as int) == block_end(s, c[j] as int));
        assert(s2[k] == s[k]);
    }
}

/// Handing out block `i` of `c` and writing at most `n` bytes into its
/// payload keeps every block that was handed out before.
proof fn lemma_claim_keeps(s: Seq<u8>, c: Seq<nat>, i: int, n: nat, s2: Seq<u8>, c2: Seq<nat>, b: Seq<u8>)
    requires
        chain_ok(s, c),
        0 <= i < c.len(),
        fits(s, c, i, n),
        claimed(s, c, i, n, s2, c2),
        b.len() <= n,
    ensures
        keeps_allocd(s, c, overwrite(s2, (c[i] + header_len()) as int, b), c2),
{
    reveal(claimed);
    lemma_chain_ends(s, c);
    lemma_block_fits(s, c, i);
    let s3 = overwrite(s2, (c[i] + header_len()) as int, b);
    assert forall|j: int| 0 <= j < c.len() && (#[trigger] hdr(s, c[j] as int)).allocd implies c2.contains(c[j])
        && hdr(s3, c[j] as int) == hdr(s, c[j] as int) by {
        assert(j != i);
        if j < i {
            assert(block_end(s, c[j] as int) <= c[i]);
        } else {
            assert(block_end(s, c[i] as int) <= c[j]);
        }
        lemma_block_fits(s, c, j);
        lemma_hdr_frame(s2, (c[i] + header_len()) as int, b, c[j] as int);
        if c2 == c {
            assert(c2[j] == c[j]);
        } else if j < i {
            assert(c2[j] == c[j]);
        } else {
            assert(c2[j + 1] == c[j]);
        }
    }
    assert forall|j: int, k: int|
        0 <= j < c.len() && hdr(s, c[j] as int).allocd && c[j] + header_len() <= k < block_end(
            s,
            #[trigger] c[j] as int,
        ) implies #[trigger] s3[k] == s[k] by {
        assert(j != i);
        if j < i {
            assert(block_end(s, c[j] as int) <= c[i]);
        } else {
            assert(block_end(s, c[i] as int) <= c[j]);
        }
    }
}

/// The bytes of `v` in a handed-out block, with its boxed children stored,
/// store `v`.
proof fn lemma_encoding_stores_in(s: Seq<u8>, c: Seq<nat>, a: int, v: SchemeObj, p: usize, q: usize)
    requires
        in_allocd_block(s, c, a, obj_size(v)),
        0 <= a,
        a + obj_size(v) <= s.len(),
        s.subrange(a, a + obj_size(v)) == encoding(v, p, q),
        v matches SchemeObj::Pair { car, cdr } ==> {
            &&& *car is Pair ==> stores_in(s, c, p as int, *car)
            &&& *cdr is Pair ==> stores_in(s, c, q as int, *cdr)
        },
    ensures
        stores_in(s, c, a, v),
{
    let e = encoding(v, p, q);
    let w = slot_len() as int;
    let sub = s.subrange(a, a + obj_size(v));
    if let SchemeObj::Pair { car, cdr } = v {
        let x = child_slot(*car, p);
        let y = child_slot(*cdr, q);
        assert(s[a] == sub[0]);
        assert forall|i: int| 0 <= i < w implies s.subrange(a + 1, a + 1 + w)[i] == x[i] by {
            assert(sub[1 + i] == e[1 + i]);
        }
        assert forall|i: int| 0 <= i < w implies s.subrange(a + 1 + w, a + 1 + 2 * w)[i] == y[i] by {
            assert(sub[1 + w + i] == e[1 + w + i]);
        }
        assert(s.subrange(a + 1, a + 1 + w) =~= x);
        assert(s.subrange(a + 1 + w, a + 1 + 2 * w) =~= y);
        if *car is Pair {
            lemma_prim_word(s, a + 1, p);
        }
        if *cdr is Pair {
            lemma_prim_word(s, a + 1 + w, q);
        }
        assert(slot_in(s, c, a + 1, *car));
        assert(slot_in(s, c, a + 1 + w, *cdr));
    } else {
        assert(s.subrange(a, a + w) =~= e);
    }
}

/// Writing an object into the payload of a handed-out block keeps the chain
/// and its headers, and the bytes read back.
proof fn lemma_object_written(s: Seq<u8>, c: Seq<nat>, j: int, a: int, v: SchemeObj, p: usize, q: usize)
    requires
        chain_ok(s, c),
        no_marks(s, c),
        0 <= j < c.len(),
        c[j] + header_len() == a,
        hdr(s, c[j] as int).size >= obj_size(v),
    ensures
        ({
            let s2 = overwrite(s, a, encoding(v, p, q));
            &&& chain_ok(s2, c)
            &&& no_marks(s2, c)
            &&& hdr(s2, c[j] as int) == hdr(s, c[j] as int)
            &&& a + obj_size(v) <= s2.len()
            &&& s2.subrange(a, a + obj_size(v)) == encoding(v, p, q)
            &&& inline_only(v) ==> decode(s2, a, s2.len()) == Ok::<SchemeObj, HeapError>(v)
        }),
{
    let e = encoding(v, p, q);
    let s2 = overwrite(s, a, e);
    lemma_block_fits(s, c, j);
    lemma_payload_write(s, c, j, a, e);
    assert(s2.subrange(a, a + obj_size(v)) =~= e);
    if inline_only(v) {
        lemma_encode_decode(s2, a, v, p, q, s2.len());
    }
}

/// The block handed out keeps its address, and is now handed out.
pub proof fn lemma_claimed_block(s: Seq<u8>, c: Seq<nat>, i: int, n: nat, s2: Seq<u8>, c2: Seq<nat>)
    requires
        0 <= i < c.len(),
        claimed(s, c, i, n, s2, c2),
        fits(s, c, i, n),
    ensures
        i < c2.len(),
        c2[i] == c[i],
        s2.len() == s.len(),
        hdr(s2, c2[i] as int).allocd,
        hdr(s2, c2[i] as int).size >= n,
{
    reveal(claimed);
}

/// A managed heap: one buffer of bytes, cut into a chain of blocks, each a
/// header and a payload; and a function that returns the payload addresses
/// of the objects still in use.
pub struct Heap<F> {
    space: Vec<u8>,
    get_roots: F,
    blocks: Ghost<Seq<nat>>,
}

impl<F: Fn() -> Vec<usize>> Mem for Heap<F> {
    closed spec fn space(&self) -> Seq<u8> {
        self.space@
    }

    fn write(&mut self, addr: usize, datum: u8) {
        self.space.set(addr, datum);
    }

    fn read(&self, addr: usize) -> (r: u8) {
        self.space[addr]
    }

    fn len(&self) -> (r: usize) {
        self.space.len()
    }
}

impl<F: Fn() -> Vec<usize>> Heap<F> {
    /// The header addresses of the heap's blocks, in order.
    pub closed spec fn chain(&self) -> Seq<nat> {
        self.blocks@
    }

    /// The root function.
    pub closed spec fn roots_fn(&self) -> F {
        self.get_roots
    }

    /// The blocks form a chain over the whole buffer, none is marked, and
    /// the root function can be called.
    pub open spec fn wf(&self) -> bool {
        &&& chain_ok(self.space(), self.chain())
        &&& no_marks(self.space(), self.chain())
        &&& self.roots_fn().requires(())
    }

    /// The header at address `a`.
    pub open spec fn header_at(&self, a: int) -> Header {
        hdr(self.space(), a)
    }

    /// A heap of `size` bytes, zeroed, with one free block over all of it.
    pub fn new(size: usize, get_roots: F) -> (r: Heap<F>)
        requires
            size >= header_len(),
            get_roots.requires(()),
        ensures
            r.wf(),
            r.space().len() == size,
            r.chain() == seq![0nat],
            forall|k: int| header_len() <= k < size ==> r.space()[k] == 0,
            r.header_at(0) == (Header {
                next: 0,
                size: (size - header_len()) as usize,
                allocd: false,
                marked: false,
            }),
            r.roots_fn() == get_roots,
    {
        let space = vec![0u8; size];
        let blocks: Ghost<Seq<nat>> = Ghost(Seq::empty().push(0nat));
        let mut mem = Heap { space, get_roots, blocks };

        let mut header = Header::new(0, size, false);
        let header_size = header.size();
        header.set_size(size - header_size);
        let ghost s0 = mem.space@;
        header.write(&mut mem.space, 0);
        proof {
            lemma_header_round_trip(header);
            lemma_hdr_written(s0, 0, header);
            assert(mem.blocks@ =~= seq![0nat]);
            assert(mem.blocks@.last() == 0);
        }
        mem
    }

    /// The header address of the block whose payload starts at `payload`.
    #[verifier::rlimit(100)]
    fn find_block(&self, payload: usize) -> (r: Option<usize>)
        requires
            chain_ok(self.space(), self.chain()),
        ensures
            r matches Some(a) ==> exists|j: int|
                0 <= j < self.chain().len() && self.chain()[j] == a && a + header_len() == payload,
            r is None ==> forall|j: int|
                0 <= j < self.chain().len() ==> #[trigger] self.chain()[j] != payload - header_len(),
    {
        let hs = header_size();
        let ghost c = self.blocks@;
        let mut addr: usize = 0;
        let ghost mut i: int = 0;
        proof {
            lemma_chain_ends(self.space@, c);
        }
        loop
            invariant
                chain_ok(self.space@, c),
                self.blocks@ == c,
                hs == header_len(),
                0 <= i < c.len(),
                addr == c[i],
                forall|k: int| 0 <= k < i ==> #[trigger] c[k] != payload - header_len(),
            decreases c.len() - i,
        {
            if addr + hs == payload {
                proof {
                    assert(self.chain()[i] == addr && addr + header_len() == payload);
                }
                return Some(addr);
            }
            let header = read_header(&self.space, addr);
            if header.next == 0 || payload < addr + hs {
                proof {
                    lemma_chain_ends(self.space@, c);
                    if header.next == 0 && i < c.len() - 1 {
                        assert(c[i + 1] > 0);
                    }
                    assert forall|k: int| 0 <= k < c.len() implies #[trigger] c[k] != payload - header_len() by {
                        if k > i {
                            assert(block_end(self.space@, c[i] as int) <= c[k]);
                        }
                    }
                }
                return None;
            }
            proof {
                if i == c.len() - 1 {
                    assert(hdr(self.space@, c.last() as int).next == 0);
                }
                i = i + 1;
            }
            addr = header.next;
        }
    }

    /// Sets the mark of block `j`, which is not marked.
    fn set_mark(&mut self, j: Ghost<int>, header_addr: usize, header: Header)
        requires
            chain_ok(old(self).space(), old(self).chain()),
            0 <= j@ < old(self).chain().len(),
            header_addr == old(self).chain()[j@],
            header == hdr(old(self).space(), header_addr as int),
            !header.marked,
        ensures
            chain_ok(final(self).space(), final(self).chain()),
            final(self).chain() == old(self).chain(),
            final(self).roots_fn() == old(self).roots_fn(),
            hdr(final(self).space(), header_addr as int) == (Header { marked: true, ..header }),
            forall|k: int|
                0 <= k < old(self).chain().len() && k != j@ ==> hdr(
                    final(self).space(),
                    #[trigger] old(self).chain()[k] as int,
                ) == hdr(old(self).space(), old(self).chain()[k] as int),
            count_unmarked(final(self).space(), final(self).chain(), 0) + 1 == count_unmarked(
                old(self).space(),
                old(self).chain(),
                0,
            ),
            final(self).space() == overwrite(
                old(self).space(),
                header_addr as int,
                (Header { marked: true, ..header }).to_bytes(),
            ),
    {
        let ghost s = self.space@;
        let ghost c = self.blocks@;
        let mut header = header;
        header.marked = true;
        header.write(&mut self.space, header_addr);
        proof {
            lemma_rewrite(s, c, j@, j@ + 1, header);
            assert(c.subrange(0, j@ + 1) + c.subrange(j@ + 1, c.len() as int) =~= c);
            lemma_count_mark(s, self.space@, c, j@, 0);
        }
    }

    /// Hands out block `i`, at `header_addr` with header `header`, for `n`
    /// bytes, splitting off the rest as a free block where there is room for
    /// a header.
    fn alloc_block(&mut self, i: Ghost<int>, header_addr: usize, header: Header, n: usize)
        requires
            old(self).wf(),
            0 <= i@ < old(self).chain().len(),
            header_addr == old(self).chain()[i@],
            header == hdr(old(self).space(), header_addr as int),
            fits(old(self).space(), old(self).chain(), i@, n as nat),
        ensures
            final(self).wf(),
            final(self).roots_fn() == old(self).roots_fn(),
            claimed(old(self).space(), old(self).chain(), i@, n as nat, final(self).space(), final(self).chain()),
    {
        let ghost s = self.space@;
        let ghost c = self.blocks@;
        proof {
            lemma_chain_ends(s, c);
        }
        let hs = header_size();
        let mut header = header;
        header.allocd = true;
        if header.size - n >= hs {
            let residue_addr = header_addr + hs + n;
            let residue = Header::new(header.next, header.size - n - hs, false);
            residue.write(&mut self.space, residue_addr);
            header.size = n;
            header.next = residue_addr;
            header.write(&mut self.space, header_addr);
            proof {
                lemma_claim_split(s, c, i@, n as nat);
                self.blocks = Ghost(c.insert(i@ + 1, residue_addr as nat));
            }
        } else {
            header.write(&mut self.space, header_addr);
            proof {
                lemma_claim_whole(s, c, i@, n as nat);
            }
        }
    }

    /// Hands out the first free block that holds `n` bytes, and returns the
    /// address of its payload. Where no block fits and `attempt_collect`
    /// holds, collects garbage and tries once more.
    #[verifier::rlimit(60)]
    pub fn alloc_bytes(&mut self, n: usize, attempt_collect: bool) -> (r: Result<usize, HeapError>)
        requires
            old(self).wf(),
        ensures
            final(self).wf(),
            final(self).roots_fn() == old(self).roots_fn(),
            forall|i: int|
                first_fit(old(self).space(), old(self).chain(), n as nat, i) ==> {
                    &&& r == Ok::<usize, HeapError>((old(self).chain()[i] + header_len()) as usize)
                    &&& claimed(
                        old(self).space(),
                        old(self).chain(),
                        i,
                        n as nat,
                        final(self).space(),
                        final(self).chain(),
                    )
                },
            no_fit(old(self).space(), old(self).chain(), n as nat) && !attempt_collect ==> {
                &&& r == Err::<usize, HeapError>(HeapError::OutOfMemory)
                &&& final(self).space() == old(self).space()
                &&& final(self).chain() == old(self).chain()
            },
            r matches Ok(p) ==> exists|j: int|
                {
                    &&& 0 <= j < final(self).chain().len()
                    &&& final(self).chain()[j] + header_len() == p
                    &&& hdr(final(self).space(), final(self).chain()[j] as int).allocd
                    &&& hdr(final(self).space(), final(self).chain()[j] as int).size >= n
                },
            r matches Err(e) ==> e == HeapError::OutOfMemory,
            final(self).space().len() == old(self).space().len(),
            r is Err ==> no_fit(final(self).space(), final(self).chain(), n as nat),
            !attempt_collect && r is Err ==> final(self).space() == old(self).space() && final(self).chain()
                == old(self).chain(),
            !attempt_collect && r is Ok ==> exists|i: int| first_fit(old(self).space(), old(self).chain(), n as nat, i),
            attempt_collect && no_fit(old(self).space(), old(self).chain(), n as nat) ==> exists|
                roots: Vec<usize>,
                s1: Seq<u8>,
                c1: Seq<nat>,
            |
                {
                    &&& old(self).roots_fn().ensures((), roots)
                    &&& chain_ok(s1, c1)
                    &&& #[trigger] collected(old(self).space(), old(self).chain(), s1, c1, roots@)
                    &&& forall|i: int|
                        first_fit(s1, c1, n as nat, i) ==> {
                            &&& r == Ok::<usize, HeapError>((c1[i] + header_len()) as usize)
                            &&& claimed(s1, c1, i, n as nat, final(self).space(), final(self).chain())
                        }
                    &&& no_fit(s1, c1, n as nat) ==> {
                        &&& r == Err::<usize, HeapError>(HeapError::OutOfMemory)
                        &&& final(self).space() == s1
                        &&& final(self).chain() == c1
                    }
                },
        decreases (if attempt_collect { 1int } else { 0int }),
    {
        let ghost s = self.space@;
        let ghost c = self.blocks@;
        let hs = header_size();
        let mut header_addr: usize = 0;
        let ghost mut i: int = 0;
        proof {
            lemma_chain_ends(s, c);
        }
        loop
            invariant
                self.wf(),
                self.space@ == s,
                self.blocks@ == c,
                self.roots_fn() == old(self).roots_fn(),
                s == old(self).space(),
                c == old(self).chain(),
                hs == header_len(),
                0 <= i < c.len(),
                header_addr == c[i],
                forall|j: int| 0 <= j < i ==> !fits(s, c, j, n as nat),
            decreases c.len() - i,
        {
            let header = read_header(&self.space, header_addr);
            if !header.allocd && header.size >= n {
                self.alloc_block(Ghost(i), header_addr, header, n);
                proof {
                    assert(first_fit(s, c, n as nat, i));
                    assert forall|k: int| first_fit(s, c, n as nat, k) implies k == i by {
                        if k < i {
                            assert(!fits(s, c, k, n as nat));
                        } else if k > i {
                            assert(!fits(s, c, i, n as nat));
                        }
                    }
                    lemma_claimed_block(s, c, i, n as nat, self.space@, self.blocks@);
                }
                return Ok(header_addr + hs);
            }
            if header.next == 0 {
                proof {
                    if i < c.len() - 1 {
                        assert(c[i + 1] > 0);
                    }
                    assert(no_fit(s, c, n as nat));
                }
                if attempt_collect {
                    self.collect();
                    let ghost s1 = self.space@;
                    let ghost c1 = self.blocks@;
                    let r = self.alloc_bytes(n, false);
                    proof {
                        let roots = choose|roots: Vec<usize>|
                            old(self).roots_fn().ensures((), roots) && collected(s, c, s1, c1, roots@);
                        assert(collected(s, c, s1, c1, roots@));
                    }
                    return r;
                }
                return Err(HeapError::OutOfMemory);
            }
            proof {
                i = i + 1;
            }
            header_addr = header.next;
        }
    }

    /// Stores `obj` as `alloc_object` does, but without collecting garbage:
    /// the blocks handed out before are kept as they were.
    #[verifier::spinoff_prover]
    #[verifier::rlimit(100)]
    fn alloc_at_once(&mut self, obj: &SchemeObj) -> (r: Result<usize, HeapError>)
        requires
            old(self).wf(),
        ensures
            final(self).wf(),
            final(self).roots_fn() == old(self).roots_fn(),
            keeps_allocd(old(self).space(), old(self).chain(), final(self).space(), final(self).chain()),
            forall|i: int|
                inline_only(*obj) && first_fit(old(self).space(), old(self).chain(), obj_size(*obj), i) ==> r
                    == Ok::<usize, HeapError>((old(self).chain()[i] + header_len()) as usize),
            r matches Ok(a) ==> stores_in(final(self).space(), final(self).chain(), a as int, *obj),
            r matches Err(e) ==> e == HeapError::OutOfMemory,
            inline_only(*obj) && no_fit(old(self).space(), old(self).chain(), obj_size(*obj)) ==> {
                &&& r == Err::<usize, HeapError>(HeapError::OutOfMemory)
                &&& final(self).space() == old(self).space()
                &&& final(self).chain() == old(self).chain()
            },
        decreases obj,
    {
        let ghost s0 = self.space@;
        let ghost c0 = self.blocks@;
        proof {
            lemma_keeps_refl(s0, c0);
        }
        let mut car_ptr: usize = 0;
        let mut cdr_ptr: usize = 0;
        if let SchemeObj::Pair { car, cdr } = obj {
            if let SchemeObj::Pair { .. } = **car {
                car_ptr = match self.alloc_at_once(car) {
                    Ok(a) => a,
                    Err(e) => return Err(e),
                };
            }
            let ghost s1 = self.space@;
            let ghost c1 = self.blocks@;
            if let SchemeObj::Pair { .. } = **cdr {
                cdr_ptr = match self.alloc_at_once(cdr) {
                    Ok(a) => a,
                    Err(e) => {
                        proof {
                            lemma_keeps_trans(s0, c0, s1, c1, self.space@, self.blocks@);
                        }
                        return Err(e);
                    },
                };
                proof {
                    if **car is Pair {
                        lemma_stores_in_kept(s1, c1, self.space@, self.blocks@, car_ptr as int, **car);
                    }
                    lemma_keeps_trans(s0, c0, s1, c1, self.space@, self.blocks@);
                }
            }
        }
        let ghost s2 = self.space@;
        let ghost c2 = self.blocks@;
        let size = obj.size();
        let addr = match self.alloc_bytes(size, false) {
            Ok(a) => a,
            Err(e) => return Err(e),
        };
        let ghost s3 = self.space@;
        let ghost c3 = self.blocks@;
        let ghost i = choose|i: int| first_fit(s2, c2, size as nat, i);
        proof {
            lemma_claimed_block(s2, c2, i, size as nat, s3, c3);
            lemma_block_fits(s3, c3, i);
        }
        obj.write(&mut self.space, addr, car_ptr, cdr_ptr);
        proof {
            let e = encoding(*obj, car_ptr, cdr_ptr);
            lemma_object_written(s3, c3, i, addr as int, *obj, car_ptr, cdr_ptr);
            lemma_claim_keeps(s2, c2, i, size as nat, s3, c3, e);
            let s4 = self.space@;
            match obj {
                SchemeObj::Pair { car, cdr } => {
                    if **car is Pair {
                        lemma_stores_in_kept(s2, c2, s4, c3, car_ptr as int, **car);
                    }
                    if **cdr is Pair {
                        lemma_stores_in_kept(s2, c2, s4, c3, cdr_ptr as int, **cdr);
                    }
                },
                _ => {},
            }
            assert(c3[i] == addr - header_len());
            assert(in_allocd_block(s4, c3, addr as int, obj_size(*obj)));
            lemma_encoding_stores_in(s4, c3, addr as int, *obj, car_ptr, cdr_ptr);
            lemma_keeps_trans(s0, c0, s2, c2, s4, c3);
        }
        Ok(addr)
    }

    /// Stores `obj` and returns its payload address. Children that are
    /// pairs are stored first, each in a block of its own, and boxed in
    /// their parent's slots. Where the blocks needed are not all free, the
    /// heap collects garbage once and tries again. What is stored reads back
    /// as `obj`.
    pub fn alloc_object(&mut self, obj: &SchemeObj) -> (r: Result<usize, HeapError>)
        requires
            old(self).wf(),
        ensures
            final(self).wf(),
            final(self).roots_fn() == old(self).roots_fn(),
            forall|i: int|
                inline_only(*obj) && first_fit(old(self).space(), old(self).chain(), obj_size(*obj), i) ==> r
                    == Ok::<usize, HeapError>((old(self).chain()[i] + header_len()) as usize),
            r matches Ok(a) ==> {
                &&& stores_in(final(self).space(), final(self).chain(), a as int, *obj)
                &&& stores(final(self).space(), a as int, *obj, depth(*obj))
                &&& decode(final(self).space(), a as int, depth(*obj)) == Ok::<SchemeObj, HeapError>(*obj)
            },
            inline_only(*obj) ==> (r matches Ok(a) ==> decode(
                final(self).space(),
                a as int,
                final(self).space().len(),
            ) == Ok::<SchemeObj, HeapError>(*obj)),
            r matches Err(e) ==> e == HeapError::OutOfMemory,
            inline_only(*obj) && no_fit(old(self).space(), old(self).chain(), obj_size(*obj)) ==> exists|
                roots: Vec<usize>,
                s1: Seq<u8>,
                c1: Seq<nat>,
            |
                {
                    &&& old(self).roots_fn().ensures((), roots)
                    &&& #[trigger] collected(old(self).space(), old(self).chain(), s1, c1, roots@)
                    &&& forall|i: int|
                        first_fit(s1, c1, obj_size(*obj), i) ==> r == Ok::<usize, HeapError>(
                            (c1[i] + header_len()) as usize,
                        )
                    &&& no_fit(s1, c1, obj_size(*obj)) ==> r == Err::<usize, HeapError>(HeapError::OutOfMemory)
                },
    {
        let r = match self.alloc_at_once(obj) {
            Ok(a) => Ok(a),
            Err(_) => {
                let ghost s0 = self.space@;
                let ghost c0 = self.blocks@;
                self.collect();
                let ghost s1 = self.space@;
                let ghost c1 = self.blocks@;
                let r2 = self.alloc_at_once(obj);
                proof {
                    let roots = choose|roots: Vec<usize>|
                        old(self).roots_fn().ensures((), roots) && collected(s0, c0, s1, c1, roots@);
                    assert(collected(s0, c0, s1, c1, roots@));
                }
                r2
            },
        };
        proof {
            if r is Ok {
                let a = r->Ok_0;
                lemma_stores_in(self.space@, self.blocks@, a as int, *obj, depth(*obj));
                lemma_round_trip(self.space@, a as int, *obj, depth(*obj));
                if inline_only(*obj) {
                    assert(depth(*obj) == 0);
                    lemma_stores_in(self.space@, self.blocks@, a as int, *obj, self.space@.len());
                    lemma_round_trip(self.space@, a as int, *obj, self.space@.len());
                }
            }
        }
        r
    }

    /// Reads the object whose payload starts at `addr`.
    pub fn read_object(&self, addr: usize) -> (r: Result<SchemeObj, HeapError>)
        ensures
            r == decode(self.space(), addr as int, self.space().len()),
    {
        SchemeObj::read(&self.space, addr, self.space.len())
    }

    /// Reads the byte at `addr`, or fails for an address outside the heap.
    pub fn read_byte(&self, addr: usize) -> (r: Result<u8, HeapError>)
        ensures
            addr < self.space().len() ==> r == Ok::<u8, HeapError>(self.space()[addr as int]),
            addr >= self.space().len() ==> r == Err::<u8, HeapError>(HeapError::AddressOutOfRange),
    {
        if addr < self.space.len() {
            Ok(self.space[addr])
        } else {
            Err(HeapError::AddressOutOfRange)
        }
    }

    /// Writes the byte `b` at `addr`, or fails for an address outside the
    /// heap. Nothing else changes.
    pub fn write_byte(&mut self, addr: usize, b: u8) -> (r: Result<(), HeapError>)
        ensures
            final(self).chain() == old(self).chain(),
            final(self).roots_fn() == old(self).roots_fn(),
            addr < old(self).space().len() ==> r == Ok::<(), HeapError>(()) && final(self).space()
                == old(self).space().update(addr as int, b),
            addr >= old(self).space().len() ==> r == Err::<(), HeapError>(HeapError::AddressOutOfRange)
                && final(self).space() == old(self).space(),
    {
        if addr < self.space.len() {
            self.space.set(addr, b);
            Ok(())
        } else {
            Err(HeapError::AddressOutOfRange)
        }
    }

    /// The blocks of the chain cover the whole heap: summed over the chain,
    /// header and payload sizes give the heap's size.
    pub proof fn lemma_chain_covers_heap(&self)
        requires
            self.wf(),
        ensures
            span_from(self.space(), self.chain(), 0) == self.space().len(),
    {
        crate::chain::lemma_span(self.space(), self.chain(), 0);
    }

    /// Each block with a next block points just past its own payload.
    pub proof fn lemma_next_follows_payload(&self)
        requires
            self.wf(),
        ensures
            forall|j: int|
                0 <= j < self.chain().len() && (#[trigger] self.header_at(self.chain()[j] as int)).next
                    != 0 ==> self.header_at(self.chain()[j] as int).next == self.chain()[j] + header_len()
                    + self.header_at(self.chain()[j] as int).size,
    {
    }

    /// Marks the blocks whose payloads `roots` name, and, through the boxes
    /// of pairs, every block reachable from them. Only marks change.
    #[verifier::spinoff_prover]
    #[verifier::rlimit(100)]
    fn mark(&mut self, roots: Vec<usize>)
        requires
            old(self).wf(),
        ensures
            chain_ok(final(self).space(), final(self).chain()),
            final(self).roots_fn() == old(self).roots_fn(),
            final(self).chain() == old(self).chain(),
            forall|j: int|
                0 <= j < old(self).chain().len() ==> {
                    let h0 = hdr(old(self).space(), old(self).chain()[j] as int);
                    let h1 = #[trigger] hdr(final(self).space(), old(self).chain()[j] as int);
                    h1 == (Header { marked: h1.marked, ..h0 })
                },
            unchanged_payloads(old(self).space(), old(self).chain(), final(self).space()),
            forall|x: usize| #[trigger] roots@.contains(x) ==> covered(final(self).space(), final(self).chain(), x),
            forall|j: int, x: usize|
                0 <= j < old(self).chain().len() && hdr(final(self).space(), old(self).chain()[j] as int).marked
                    && hdr(old(self).space(), old(self).chain()[j] as int).allocd && holds_pair(
                    old(self).space(),
                    old(self).chain(),
                    j,
                ) && #[trigger] block_children(old(self).space(), old(self).chain(), j).contains(x) ==> covered(
                    final(self).space(),
                    final(self).chain(),
                    x,
                ),
            forall|j: int|
                0 <= j < old(self).chain().len() && (#[trigger] hdr(
                    final(self).space(),
                    old(self).chain()[j] as int,
                )).marked ==> reached(
                    old(self).space(),
                    old(self).chain(),
                    roots@,
                    (old(self).chain()[j] + header_len()) as usize,
                ),
    {
        let hs = header_size();
        let pair_size = 1 + 2 * (1 + word_size());
        let ghost c = self.blocks@;
        let ghost s0 = self.space@;
        let ghost roots0 = roots@;
        let mut work = roots;
        proof {
            lemma_chain_ends(s0, c);
            lemma_mark_start(s0, c, roots0);
        }
        loop
            invariant
                chain_ok(self.space@, c),
                chain_ok(s0, c),
                self.blocks@ == c,
                self.roots_fn() == old(self).roots_fn(),
                s0 == old(self).space(),
                c == old(self).chain(),
                hs == header_len(),
                pair_size == pair_len(),
                forall|j: int|
                    0 <= j < c.len() ==> {
                        let h0 = hdr(s0, c[j] as int);
                        let h1 = #[trigger] hdr(self.space@, c[j] as int);
                        h1 == (Header { marked: h1.marked, ..h0 })
                    },
                unchanged_payloads(s0, c, self.space@),
                mark_inv(s0, c, self.space@, roots0, work@, None),
            ensures
                forall|x: usize| #[trigger] roots0.contains(x) ==> covered(self.space@, c, x),
                forall|j: int, x: usize|
                    0 <= j < c.len() && hdr(self.space@, c[j] as int).marked && hdr(s0, c[j] as int).allocd
                        && holds_pair(s0, c, j) && #[trigger] block_children(s0, c, j).contains(x) ==> covered(
                        self.space@,
                        c,
                        x,
                    ),
                forall|j: int|
                    0 <= j < c.len() && (#[trigger] hdr(self.space@, c[j] as int)).marked ==> reached(s0, c, roots0,
                        (c[j] + header_len()) as usize,
                    ),
            decreases count_unmarked(self.space@, c, 0), work.len(),
        {
            let ghost s = self.space@;
            let ghost w = work@;
            if work.len() == 0 {
                proof {
                    lemma_mark_done(s0, c, s, roots0, w);
                }
                break;
            }
            let root_addr = match work.pop() {
                Some(a) => a,
                None => {
                    break;
                },
            };
            proof {
                lemma_mark_pop(s0, c, s, roots0, w);
            }
            let header_addr = match self.find_block(root_addr) {
                Some(a) => a,
                None => {
                    proof {
                        assert forall|k: int| 0 <= k < c.len() && #[trigger] c[k] == root_addr - header_len() implies hdr(
                            s,
                            c[k] as int,
                        ).marked by {
                            assert(self.chain()[k] != root_addr - header_len());
                        }
                        lemma_mark_skip(s0, c, s, roots0, work@, root_addr);
                    }
                    continue;
                },
            };
            let ghost j = choose|j: int|
                0 <= j < c.len() && c[j] == header_addr && header_addr + header_len() == root_addr;
            proof {
                assert forall|k: int| 0 <= k < c.len() && #[trigger] c[k] == root_addr - header_len() implies k == j by {
                    if k < j {
                        crate::chain::lemma_chain_sorted(s, c, k, j);
                    } else if k > j {
                        crate::chain::lemma_chain_sorted(s, c, j, k);
                    }
                }
                lemma_block_fits(s, c, j);
            }
            let mut header = read_header(&self.space, header_addr);
            if header.marked {
                proof {
                    lemma_mark_skip(s0, c, s, roots0, work@, root_addr);
                }
                continue;
            }
            self.set_mark(Ghost(j), header_addr, header);
            let ghost s2 = self.space@;
            let ghost w1 = work@;
            proof {
                lemma_header_round_trip(Header { marked: true, ..header });
                lemma_mark_frame(s0, c, s, j, Header { marked: true, ..header });
            }
            if header.allocd && header.size >= pair_size {
                let mut kids = children(&self.space, root_addr);
                proof {
                    lemma_children_unchanged(s0, c, s2, j);
                }
                work.append(&mut kids);
            }
            proof {
                lemma_mark_one(s0, c, s, s2, roots0, w1, root_addr, j, work@);
            }
        }
    }

    /// Collects garbage with `roots` as the payload addresses in use; see
    /// `collected` for what holds afterwards.
    pub fn collect_from(&mut self, roots: Vec<usize>)
        requires
            old(self).wf(),
        ensures
            final(self).wf(),
            final(self).roots_fn() == old(self).roots_fn(),
            collected(old(self).space(), old(self).chain(), final(self).space(), final(self).chain(), roots@),
    {
        let ghost s0 = self.space@;
        let ghost c0 = self.blocks@;
        let ghost r = roots@;
        self.mark(roots);
        let ghost s1 = self.space@;
        self.sweep();
        proof {
            lemma_collect(s0, c0, s1, self.space@, self.blocks@, r);
        }
    }

    /// Collects garbage with the roots that the root function returns now.
    pub fn collect(&mut self)
        requires
            old(self).wf(),
        ensures
            final(self).wf(),
            final(self).roots_fn() == old(self).roots_fn(),
            exists|roots: Vec<usize>|
                old(self).roots_fn().ensures((), roots) && collected(
                    old(self).space(),
                    old(self).chain(),
                    final(self).space(),
                    final(self).chain(),
                    roots@,
                ),
    {
        let roots = (self.get_roots)();
        let ghost r = roots;
        self.collect_from(roots);
    }

    /// Walks the chain: each block that is not both handed out and marked
    /// is freed and merged with the free blocks that follow it; every mark
    /// is cleared. A marked block that is free is merged like any other free
    /// block, so that no two neighbouring blocks are left both free.
    fn sweep(&mut self)
        requires
            chain_ok(old(self).space(), old(self).chain()),
            old(self).roots_fn().requires(()),
        ensures
            final(self).wf(),
            final(self).roots_fn() == old(self).roots_fn(),
            swept(old(self).space(), old(self).chain(), final(self).space(), final(self).chain()),
            unchanged_payloads(old(self).space(), old(self).chain(), final(self).space()),
    {
        let hs = header_size();
        let ghost s0 = self.space@;
        let ghost c0 = self.blocks@;
        let ghost len0 = c0.len() as int;
        let ghost mut nb: Seq<nat> = Seq::empty();
        let ghost mut i: int = 0;
        let mut addr: usize = 0;
        proof {
            lemma_chain_ends(s0, c0);
            lemma_sweep_start(s0, c0);
            assert(unchanged_payloads(s0, c0, s0));
        }
        loop
            invariant_except_break
                0 <= i < len0,
                addr == c0[i],
            invariant
                hs == header_len(),
                self.roots_fn() == old(self).roots_fn(),
                self.roots_fn().requires(()),
                s0 == old(self).space(),
                c0 == old(self).chain(),
                len0 == c0.len(),
                chain_ok(s0, c0),
                sweep_inv(s0, c0, i, self.space@, nb),
                unchanged_payloads(s0, c0, self.space@),
            ensures
                i == len0,
                sweep_inv(s0, c0, i, self.space@, nb),
                unchanged_payloads(s0, c0, self.space@),
            decreases len0 - i,
        {
            let ghost s = self.space@;
            proof {
                lemma_sweep_facts(s0, c0, i, s, nb);
            }
            let mut header = read_header(&self.space, addr);
            let ghost mut m: int = i + 1;
            if !(header.marked && header.allocd) {
                let (next, size, run_end) = merge_run(&self.space, addr, Ghost(s0), Ghost(c0), Ghost(i));
                header.allocd = false;
                header.next = next;
                header.size = size;
                proof {
                    m = run_end@;
                }
            }
            header.marked = false;
            header.write(&mut self.space, addr);
            proof {
                lemma_header_round_trip(header);
                lemma_mark_frame(s0, c0, s, i, header);
                lemma_sweep_iter(s0, c0, i, m, s, nb, header);
                nb = nb.push(c0[i]);
                i = m;
            }
            if header.next == 0 {
                proof {
                    if i < len0 {
                        assert(c0[i] > 0);
                    }
                }
                break;
            }
            addr = header.next;
        }
        proof {
            lemma_sweep_facts(s0, c0, i, self.space@, nb);
            self.blocks = Ghost(nb);
        }
    }
}

/// Returns the payload addresses that the object at `parent_addr` refers
/// to directly: one for each slot of a pair that holds a box.
pub fn children<M: Mem>(mem: &M, parent_addr: usize) -> (r: Vec<usize>)
    requires
        parent_addr < mem.space().len() <= usize::MAX,
    ensures
        r@ == child_ptrs(mem.space(), parent_addr as int),
{
    let w = word_size();
    let slot = 1 + w;
    let mut children: Vec<usize> = Vec::new();
    let len = mem.len();
    if matches!(Tag::from_byte(mem.read(parent_addr)), Some(Tag::Pair)) && len - parent_addr >= 1 + 2
        * slot {
        let car_addr = parent_addr + 1;
        let cdr_addr = parent_addr + 1 + slot;
        if matches!(Tag::from_byte(mem.read(car_addr)), Some(Tag::Box)) {
            children.push(usize::read(mem, car_addr + 1));
        }
        if matches!(Tag::from_byte(mem.read(cdr_addr)), Some(Tag::Box)) {
            children.push(usize::read(mem, cdr_addr + 1));
        }
    }
    proof {
        assert(children@ =~= child_ptrs(mem.space(), parent_addr as int));
    }
    children
}

} // verus!
