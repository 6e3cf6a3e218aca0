//! Where a chunker cuts, stated over byte sequences, and the chunk sequence that follows.
use vstd::prelude::*;

use crate::ae::ae_cuts;
use crate::config::{max_size, min_size, ChunkerType};
use crate::fastcdc::fastcdc_cuts;
use crate::rabin::rabin_cuts;

verus! {

/// Whether the chunker closes a chunk after the last byte of `s`, where `s` holds the bytes of
/// the current chunk so far.
pub open spec fn cuts(c: ChunkerType, s: Seq<u8>) -> bool {
    match c {
        ChunkerType::Ae(avg) => ae_cuts(avg as nat, s),
        ChunkerType::Rabin((avg, seed)) => rabin_cuts(avg as nat, seed, s),
        ChunkerType::FastCdc((avg, seed)) => fastcdc_cuts(avg as nat, seed, s),
    }
}

/// No non-empty prefix of `s` (itself included) ends in a cutpoint.
pub open spec fn uncut(c: ChunkerType, s: Seq<u8>) -> bool {
    forall|j: int| 1 <= j <= s.len() ==> !cuts(c, #[trigger] s.take(j))
}

/// `s` is a complete chunk: it ends in a cutpoint and holds no earlier one.
pub open spec fn is_chunk(c: ChunkerType, s: Seq<u8>) -> bool {
    &&& s.len() > 0
    &&& cuts(c, s)
    &&& uncut(c, s.drop_last())
}

/// The shortest prefix length of at least `n` that ends in a cutpoint, or the length of `s`.
pub open spec fn cut_search(c: ChunkerType, s: Seq<u8>, n: nat) -> nat
    decreases s.len() - n,
{
    if n >= s.len() {
        s.len()
    } else if cuts(c, s.take(n as int)) {
        n
    } else {
        cut_search(c, s, n + 1)
    }
}

/// The length of the first chunk of a stream `s`.
pub open spec fn first_len(c: ChunkerType, s: Seq<u8>) -> nat {
    cut_search(c, s, 1)
}

/// The chunks into which the chunker splits the stream `s`, in order. An empty stream has none.
pub open spec fn chunks(c: ChunkerType, s: Seq<u8>) -> Seq<Seq<u8>>
    decreases s.len(),
{
    if s.len() == 0 {
        Seq::empty()
    } else {
        let n = first_len(c, s);
        if 1 <= n <= s.len() {
            seq![s.take(n as int)] + chunks(c, s.skip(n as int))
        } else {
            seq![s]
        }
    }
}

/// `lens` holds the lengths of `cs`, in order.
pub open spec fn lengths_of(lens: Seq<usize>, cs: Seq<Seq<u8>>) -> bool {
    &&& lens.len() == cs.len()
    &&& forall|i: int| 0 <= i < cs.len() ==> #[trigger] lens[i] as nat == cs[i].len()
}

/// What a scan over `data` did, from the chunk so far (`before`) to the chunk after (`after`):
/// either the first `k` bytes of `data` completed a chunk and a new one begins, or all of
/// `data` joined the current chunk without a cutpoint.
pub open spec fn scanned(
    c: ChunkerType,
    before: Seq<u8>,
    data: Seq<u8>,
    r: Option<usize>,
    after: Seq<u8>,
) -> bool {
    match r {
        Some(k) => {
            &&& 1 <= k <= data.len()
            &&& is_chunk(c, before + data.take(k as int))
            &&& after == Seq::<u8>::empty()
        },
        None => after == before + data,
    }
}

/// Extending a sequence without a cutpoint by a byte that makes none keeps it without one.
pub proof fn lemma_uncut_push(c: ChunkerType, s: Seq<u8>, b: u8)
    requires
        uncut(c, s),
        !cuts(c, s.push(b)),
    ensures
        uncut(c, s.push(b)),
{
    let t = s.push(b);
    assert forall|j: int| 1 <= j <= t.len() implies !cuts(c, #[trigger] t.take(j)) by {
        if j < t.len() {
            assert(t.take(j) =~= s.take(j));
        } else {
            assert(t.take(j) =~= t);
        }
    }
}

proof fn lemma_search_to(c: ChunkerType, s: Seq<u8>, n: nat, k: nat)
    requires
        1 <= n <= k <= s.len(),
        forall|m: int| n <= m < k ==> !cuts(c, #[trigger] s.take(m)),
        k == s.len() || cuts(c, s.take(k as int)),
    ensures
        cut_search(c, s, n) == k,
    decreases k - n,
{
    if n < k {
        lemma_search_to(c, s, n + 1, k);
    }
}

/// A complete chunk at the front of a stream is its first chunk.
pub proof fn lemma_chunks_front(c: ChunkerType, s: Seq<u8>, k: nat)
    requires
        1 <= k <= s.len(),
        is_chunk(c, s.take(k as int)),
    ensures
        first_len(c, s) == k,
        chunks(c, s) == seq![s.take(k as int)] + chunks(c, s.skip(k as int)),
{
    let p = s.take(k as int);
    assert forall|m: int| 1 <= m < k implies !cuts(c, #[trigger] s.take(m)) by {
        assert(p.drop_last().take(m) =~= s.take(m));
    }
    assert(p =~= s.take(k as int));
    lemma_search_to(c, s, 1, k);
}

/// A stream without any cutpoint is a single chunk.
pub proof fn lemma_chunks_uncut(c: ChunkerType, s: Seq<u8>)
    requires
        s.len() >= 1,
        uncut(c, s),
    ensures
        first_len(c, s) == s.len(),
        chunks(c, s) == seq![s],
{
    assert forall|m: int| 1 <= m < s.len() implies !cuts(c, #[trigger] s.take(m)) by {}
    lemma_search_to(c, s, 1, s.len());
    assert(s.take(s.len() as int) =~= s);
    assert(s.skip(s.len() as int) =~= Seq::<u8>::empty());
    assert(chunks(c, s.skip(s.len() as int)) == Seq::<Seq<u8>>::empty());
    assert(seq![s] + Seq::<Seq<u8>>::empty() =~= seq![s]);
}

/// A configuration forces a cut at its largest size, and cuts nowhere before its least.
pub proof fn lemma_cut_bounds(c: ChunkerType, s: Seq<u8>)
    requires
        c.valid(),
        s.len() >= 1,
    ensures
        s.len() >= max_size(c.avg()) ==> cuts(c, s),
        cuts(c, s) ==> s.len() > min_size(c.avg()),
{
}

/// A sequence without a cutpoint is shorter than the largest chunk.
pub proof fn lemma_uncut_short(c: ChunkerType, s: Seq<u8>)
    requires
        c.valid(),
        uncut(c, s),
    ensures
        s.len() < max_size(c.avg()),
{
    let m = max_size(c.avg()) as int;
    if s.len() >= m {
        assert(s.take(m).len() == m);
        lemma_cut_bounds(c, s.take(m));
        assert(!cuts(c, s.take(m)));
    }
}

/// A complete chunk is no longer than the largest chunk and longer than the least.
pub proof fn lemma_chunk_len(c: ChunkerType, s: Seq<u8>)
    requires
        c.valid(),
        is_chunk(c, s),
    ensures
        min_size(c.avg()) < s.len() <= max_size(c.avg()),
{
    lemma_uncut_short(c, s.drop_last());
    lemma_cut_bounds(c, s);
}

} // verus!
