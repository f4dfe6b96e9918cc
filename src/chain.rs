use vstd::prelude::*;

use crate::memory::header::{header_len, lemma_header_round_trip, Header};
use crate::memory::{overwrite, MemRead, MemWrite};

verus! {

/// The header stored at address `a` of `s`.
#[verifier::opaque]
pub open spec fn hdr(s: Seq<u8>, a: int) -> Header {
    Header::from_bytes(s.subrange(a, a + header_len()))
}

/// The address just past the payload of the block whose header is at `a`.
pub open spec fn block_end(s: Seq<u8>, a: int) -> int {
    a + header_len() + hdr(s, a).size
}

/// `c` lists, in order, the header addresses of a chain of blocks that
/// covers all of `s`: the first at address `0`, each `next` pointing just
/// past its own payload, and the last with `next == 0` ending at the end of
/// `s`.
pub open spec fn chain_ok(s: Seq<u8>, c: Seq<nat>) -> bool {
    &&& 0 < c.len()
    &&& c[0] == 0
    &&& s.len() <= usize::MAX
    &&& forall|j: int| 0 <= j < c.len() ==> #[trigger] c[j] + header_len() <= s.len()
    &&& forall|j: int|
        0 <= j < c.len() - 1 ==> hdr(s, #[trigger] c[j] as int).next == c[j + 1] && block_end(
            s,
            c[j] as int,
        ) == c[j + 1]
    &&& hdr(s, c.last() as int).next == 0
    &&& block_end(s, c.last() as int) == s.len()
}

/// The sum of `header_len() + size` over the blocks `c[j]`, `j >= from`.
pub open spec fn span_from(s: Seq<u8>, c: Seq<nat>, from: int) -> int
    decreases c.len() - from,
{
    if from < 0 || from >= c.len() {
        0
    } else {
        header_len() + hdr(s, c[from] as int).size + span_from(s, c, from + 1)
    }
}

/// Blocks later in a chain start past the end of earlier ones.
pub proof fn lemma_chain_sorted(s: Seq<u8>, c: Seq<nat>, j: int, k: int)
    requires
        chain_ok(s, c),
        0 <= j < k < c.len(),
    ensures
        block_end(s, c[j] as int) <= c[k],
    decreases k - j,
{
    if j + 1 < k {
        lemma_chain_sorted(s, c, j + 1, k);
    }
}

/// Every block of a chain ends within the buffer.
pub proof fn lemma_chain_ends(s: Seq<u8>, c: Seq<nat>)
    requires
        chain_ok(s, c),
    ensures
        forall|j: int| 0 <= j < c.len() ==> block_end(s, #[trigger] c[j] as int) <= s.len(),
        forall|j: int, k: int|
            0 <= j < k < c.len() ==> block_end(s, #[trigger] c[j] as int) <= #[trigger] c[k],
{
    assert forall|j: int, k: int| 0 <= j < k < c.len() implies block_end(
        s,
        #[trigger] c[j] as int,
    ) <= #[trigger] c[k] by {
        lemma_chain_sorted(s, c, j, k);
    }
}

/// Summing `header_len() + size` over a chain's blocks from `from` on gives
/// the bytes from `c[from]` to the end of the buffer.
pub proof fn lemma_span(s: Seq<u8>, c: Seq<nat>, from: int)
    requires
        chain_ok(s, c),
        0 <= from < c.len(),
    ensures
        span_from(s, c, from) == s.len() - c[from],
    decreases c.len() - from,
{
    if from + 1 < c.len() {
        lemma_span(s, c, from + 1);
    } else {
        assert(span_from(s, c, from + 1) == 0);
    }
}

/// Writing bytes that miss a header leaves that header as it was.
pub proof fn lemma_hdr_frame(s: Seq<u8>, w: int, b: Seq<u8>, a: int)
    requires
        0 <= a,
        a + header_len() <= s.len(),
        a + header_len() <= w || w + b.len() <= a,
    ensures
        hdr(overwrite(s, w, b), a) == hdr(s, a),
{
    reveal(hdr);
    assert(overwrite(s, w, b).subrange(a, a + header_len()) =~= s.subrange(a, a + header_len()));
}

/// A header written at `w` is read back from `w`.
pub proof fn lemma_hdr_written(s: Seq<u8>, w: int, h: Header)
    requires
        0 <= w,
        w + header_len() <= s.len(),
    ensures
        hdr(overwrite(s, w, h.to_bytes()), w) == h,
{
    reveal(hdr);
    lemma_header_round_trip(h);
    assert(overwrite(s, w, h.to_bytes()).subrange(w, w + header_len()) =~= h.to_bytes());
}

/// A chain stays a chain when none of its headers changed.
pub proof fn lemma_chain_frame(s: Seq<u8>, s2: Seq<u8>, c: Seq<nat>)
    requires
        chain_ok(s, c),
        s2.len() == s.len(),
        forall|j: int| 0 <= j < c.len() ==> hdr(s2, #[trigger] c[j] as int) == hdr(s, c[j] as int),
    ensures
        chain_ok(s2, c),
{
    assert(hdr(s2, c.last() as int) == hdr(s, c.last() as int));
}

/// A chain whose header `p` is replaced by one that spans blocks `p` to
/// `q - 1`, all other headers kept, is a chain without blocks `p + 1 .. q`.
proof fn lemma_merged_chain(s: Seq<u8>, s2: Seq<u8>, c: Seq<nat>, p: int, q: int, h: Header)
    requires
        chain_ok(s, c),
        0 <= p < q <= c.len(),
        s2.len() == s.len(),
        hdr(s2, c[p] as int) == h,
        forall|j: int| 0 <= j < c.len() && j != p ==> hdr(s2, #[trigger] c[j] as int) == hdr(s, c[j] as int),
        h.next == (if q == c.len() {
            0
        } else {
            c[q]
        }),
        c[p] + header_len() + h.size == (if q == c.len() {
            s.len() as int
        } else {
            c[q] as int
        }),
    ensures
        chain_ok(s2, c.subrange(0, p + 1) + c.subrange(q, c.len() as int)),
{
    let c2 = c.subrange(0, p + 1) + c.subrange(q, c.len() as int);
    let d = q - p - 1;
    assert forall|j: int| 0 <= j <= p implies #[trigger] c2[j] == c[j] by {}
    assert forall|j: int| p < j < c2.len() implies #[trigger] c2[j] == c[j + d] by {}
    assert forall|j: int| 0 <= j < c2.len() - 1 implies hdr(s2, #[trigger] c2[j] as int).next
        == c2[j + 1] && block_end(s2, c2[j] as int) == c2[j + 1] by {
        if j > p {
            assert(c2[j + 1] == c[j + 1 + d]);
            assert(hdr(s2, c[j + d] as int) == hdr(s, c[j + d] as int));
        } else if j < p {
            assert(hdr(s2, c[j] as int) == hdr(s, c[j] as int));
        } else if q < c.len() {
            assert(c2[j + 1] == c[q]);
        }
    }
    assert forall|j: int| 0 <= j < c2.len() implies #[trigger] c2[j] + header_len() <= s2.len() by {
        if j > p {
            assert(c2[j] == c[j + d]);
        }
    }
    if q < c.len() {
        assert(c2.last() == c[c.len() - 1]);
        assert(hdr(s2, c[c.len() - 1] as int) == hdr(s, c[c.len() - 1] as int));
    } else {
        assert(c2.last() == c[p]);
    }
}

/// Rewriting the header of block `p` so that it spans blocks `p` to `q - 1`
/// gives a chain without the blocks `p + 1 .. q`; no other header changes.
pub proof fn lemma_rewrite(s: Seq<u8>, c: Seq<nat>, p: int, q: int, h: Header)
    requires
        chain_ok(s, c),
        0 <= p < q <= c.len(),
        h.next == (if q == c.len() {
            0
        } else {
            c[q]
        }),
        c[p] + header_len() + h.size == (if q == c.len() {
            s.len() as int
        } else {
            c[q] as int
        }),
    ensures
        chain_ok(
            overwrite(s, c[p] as int, h.to_bytes()),
            c.subrange(0, p + 1) + c.subrange(q, c.len() as int),
        ),
        hdr(overwrite(s, c[p] as int, h.to_bytes()), c[p] as int) == h,
        forall|j: int|
            0 <= j < c.len() && j != p ==> hdr(overwrite(s, c[p] as int, h.to_bytes()), #[trigger] c[j] as int)
                == hdr(s, c[j] as int),
{
    let s2 = overwrite(s, c[p] as int, h.to_bytes());
    lemma_header_round_trip(h);
    lemma_chain_ends(s, c);
    lemma_hdr_written(s, c[p] as int, h);
    assert forall|j: int| 0 <= j < c.len() && j != p implies hdr(s2, #[trigger] c[j] as int) == hdr(
        s,
        c[j] as int,
    ) by {
        lemma_hdr_frame(s, c[p] as int, h.to_bytes(), c[j] as int);
    }
    lemma_merged_chain(s, s2, c, p, q, h);
}

/// Writing a new header `r` inside the payload of block `i`, and then
/// shrinking block `i` to end at `r`, splits block `i` in two.
#[verifier::rlimit(60)]
pub proof fn lemma_split(s: Seq<u8>, c: Seq<nat>, i: int, r: int, residue: Header, head: Header)
    requires
        chain_ok(s, c),
        0 <= i < c.len(),
        c[i] + header_len() <= r,
        r + header_len() <= block_end(s, c[i] as int),
        residue.next == hdr(s, c[i] as int).next,
        r + header_len() + residue.size == block_end(s, c[i] as int),
        head.next == r,
        c[i] + header_len() + head.size == r,
    ensures
        ({
            let s2 = overwrite(overwrite(s, r, residue.to_bytes()), c[i] as int, head.to_bytes());
            &&& chain_ok(s2, c.insert(i + 1, r as nat))
            &&& hdr(s2, c[i] as int) == head
            &&& hdr(s2, r) == residue
            &&& forall|j: int|
                0 <= j < c.len() && j != i ==> hdr(s2, #[trigger] c[j] as int) == hdr(s, c[j] as int)
        }),
{
    let s1 = overwrite(s, r, residue.to_bytes());
    let s2 = overwrite(s1, c[i] as int, head.to_bytes());
    let c2 = c.insert(i + 1, r as nat);
    lemma_header_round_trip(residue);
    lemma_header_round_trip(head);
    lemma_chain_ends(s, c);
    lemma_hdr_written(s, r, residue);
    lemma_hdr_written(s1, c[i] as int, head);
    lemma_hdr_frame(s1, c[i] as int, head.to_bytes(), r);
    assert forall|j: int| 0 <= j < c.len() && j != i implies hdr(s2, #[trigger] c[j] as int) == hdr(
        s,
        c[j] as int,
    ) by {
        lemma_hdr_frame(s, r, residue.to_bytes(), c[j] as int);
        lemma_hdr_frame(s1, c[i] as int, head.to_bytes(), c[j] as int);
    }
    assert forall|j: int| 0 <= j < c2.len() - 1 implies hdr(s2, #[trigger] c2[j] as int).next
        == c2[j + 1] && block_end(s2, c2[j] as int) == c2[j + 1] by {
        if j > i + 1 {
            assert(c2[j] == c[j - 1]);
            assert(c2[j + 1] == c[j]);
        } else if j == i + 1 {
            assert(c2[j + 1] == c[i + 1]);
        }
    }
    assert forall|j: int| 0 <= j < c2.len() implies #[trigger] c2[j] + header_len() <= s2.len() by {
        if j > i + 1 {
            assert(c2[j] == c[j - 1]);
        }
    }
    if i + 1 < c.len() {
        assert(c2.last() == c.last());
    } else {
        assert(c2.last() == r);
    }
}

} // verus!
