//! The chunker over the three algorithms, and the drivers that split a whole stream.
use vstd::prelude::*;

use crate::ae::AeChunker;
use crate::boundary::{
    chunks, lemma_chunk_len, lemma_chunks_front, lemma_chunks_uncut, lemma_uncut_short,
    lengths_of, scanned, uncut,
};
use crate::config::ChunkerType;
use crate::fastcdc::FastCdcChunker;
use crate::rabin::RabinChunker;

verus! {

/// How a call that produces one chunk ended.
#[derive(Debug, Clone, Copy, PartialEq, Eq, Structural)]
pub enum ChunkerStatus {
    /// A cutpoint was emitted; more input may follow.
    Continue,
    /// The source is exhausted; the bytes written since the last cutpoint are the last chunk.
    Finished,
}

/// What the caller does with a block of input handed to `Chunker::step`.
#[derive(Debug, Clone, Copy, PartialEq, Eq, Structural)]
pub enum ChunkStep {
    /// The first `n` bytes of the block complete the current chunk: write them, and hand the
    /// rest of the block to the next chunk.
    Cut(usize),
    /// The whole block belongs to the current chunk: write it, then read more.
    More,
    /// The block was empty, so the source is exhausted: the chunk so far is the last one.
    Finished,
}

/// The operations that every chunker offers.
pub trait IChunker: Sized {
    /// The configuration that the chunker was made from.
    spec fn kind(&self) -> ChunkerType;

    /// The bytes of the current chunk scanned so far.
    spec fn chunk_so_far(&self) -> Seq<u8>;

    /// The chunker's internal state is consistent.
    spec fn ready(&self) -> bool;

    /// The configuration that the chunker was made from.
    fn get_type(&self) -> (r: ChunkerType)
        ensures
            r == self.kind(),
    ;

    /// Scans `data` from position `from` on, until a chunk ends (`Some` of the number of bytes
    /// that complete it) or the data does (`None`).
    fn scan(&mut self, data: &[u8], from: usize) -> (r: Option<usize>)
        requires
            old(self).ready(),
            from <= data@.len(),
        ensures
            final(self).ready(),
            final(self).kind() == old(self).kind(),
            scanned(old(self).kind(), old(self).chunk_so_far(), data@.skip(from as int), r, final(self).chunk_so_far()),
            uncut(final(self).kind(), final(self).chunk_so_far()),
    ;
}

/// A live chunker of one of the three algorithms.
pub enum Chunker {
    Ae(Box<AeChunker>),
    Rabin(Box<RabinChunker>),
    FastCdc(Box<FastCdcChunker>),
}

impl IChunker for Chunker {
    open spec fn kind(&self) -> ChunkerType {
        match self {
            Chunker::Ae(c) => c.config(),
            Chunker::Rabin(c) => c.config(),
            Chunker::FastCdc(c) => c.config(),
        }
    }

    open spec fn chunk_so_far(&self) -> Seq<u8> {
        match self {
            Chunker::Ae(c) => c.current(),
            Chunker::Rabin(c) => c.current(),
            Chunker::FastCdc(c) => c.current(),
        }
    }

    open spec fn ready(&self) -> bool {
        &&& match self {
            Chunker::Ae(c) => c.wf(),
            Chunker::Rabin(c) => c.wf(),
            Chunker::FastCdc(c) => c.wf(),
        }
        &&& uncut(self.kind(), self.chunk_so_far())
    }

    fn get_type(&self) -> (r: ChunkerType) {
        match self {
            Chunker::Ae(c) => c.get_type(),
            Chunker::Rabin(c) => c.get_type(),
            Chunker::FastCdc(c) => c.get_type(),
        }
    }

    fn scan(&mut self, data: &[u8], from: usize) -> (r: Option<usize>) {
        match self {
            Chunker::Ae(c) => c.scan(data, from),
            Chunker::Rabin(c) => c.scan(data, from),
            Chunker::FastCdc(c) => c.scan(data, from),
        }
    }
}

impl Chunker {
    /// Hands the chunker one block of input, as a read from the source returned it; an empty
    /// block means that the source is exhausted.
    pub fn step(&mut self, data: &[u8]) -> (r: ChunkStep)
        requires
            old(self).ready(),
        ensures
            final(self).ready(),
            final(self).kind() == old(self).kind(),
            uncut(final(self).kind(), final(self).chunk_so_far()),
            data@.len() == 0 <==> r == ChunkStep::Finished,
            data@.len() == 0 ==> final(self).chunk_so_far() == old(self).chunk_so_far(),
            data@.len() > 0 ==> scanned(
                old(self).kind(),
                old(self).chunk_so_far(),
                data@,
                match r {
                    ChunkStep::Cut(n) => Some(n),
                    _ => None,
                },
                final(self).chunk_so_far(),
            ),
    {
        if data.len() == 0 {
            return ChunkStep::Finished;
        }
        assert(data@.skip(0) =~= data@);
        match self.scan(data, 0) {
            Some(n) => ChunkStep::Cut(n),
            None => ChunkStep::More,
        }
    }
}

impl ChunkerType {
    /// A chunker at the start of a stream, built from this configuration.
    pub fn create(&self) -> (r: Chunker)
        requires
            self.valid(),
        ensures
            r.ready(),
            r.kind() == *self,
            r.chunk_so_far() == Seq::<u8>::empty(),
            self is Ae <==> r is Ae,
            self is Rabin <==> r is Rabin,
            self is FastCdc <==> r is FastCdc,
    {
        match *self {
            ChunkerType::Ae(size) => Chunker::Ae(Box::new(AeChunker::new(size))),
            ChunkerType::Rabin((size, seed)) => Chunker::Rabin(Box::new(RabinChunker::new(size, seed))),
            ChunkerType::FastCdc((size, seed)) => Chunker::FastCdc(
                Box::new(FastCdcChunker::new(size, seed)),
            ),
        }
    }
}

/// The bytes of a sequence of reads, one after the other.
pub open spec fn joined(reads: Seq<Vec<u8>>) -> Seq<u8> {
    reads.map_values(|v: Vec<u8>| v@).flatten()
}

/// Splits `data` into chunks under configuration `c` and returns their lengths, in order.
pub fn chunk_all(c: ChunkerType, data: &[u8]) -> (r: Vec<usize>)
    requires
        c.valid(),
    ensures
        lengths_of(r@, chunks(c, data@)),
{
    let mut ch = c.create();
    let mut out: Vec<usize> = Vec::new();
    let mut start: usize = 0;
    let ghost done: Seq<Seq<u8>> = Seq::empty();
    assert(data@.skip(0) =~= data@);
    assert(done + chunks(c, data@) =~= chunks(c, data@));
    while start < data.len()
        invariant
            ch.ready(),
            ch.kind() == c,
            start < data@.len() ==> ch.chunk_so_far() == Seq::<u8>::empty(),
            c.valid(),
            start <= data@.len(),
            lengths_of(out@, done),
            chunks(c, data@) == done + chunks(c, data@.skip(start as int)),
        decreases data@.len() - start,
    {
        let ghost rest = data@.skip(start as int);
        match ch.scan(data, start) {
            Some(k) => {
                proof {
                    assert(Seq::<u8>::empty() + rest.take(k as int) =~= rest.take(k as int));
                    lemma_chunks_front(c, rest, k as nat);
                    assert(rest.skip(k as int) =~= data@.skip(start + k));
                    assert(done.push(rest.take(k as int)) + chunks(c, rest.skip(k as int)) =~= done
                        + (seq![rest.take(k as int)] + chunks(c, rest.skip(k as int))));
                    done = done.push(rest.take(k as int));
                }
                out.push(k);
                start = start + k;
            },
            None => {
                proof {
                    assert(Seq::<u8>::empty() + rest =~= rest);
                    lemma_chunks_uncut(c, rest);
                    lemma_uncut_short(c, rest);
                    assert(done + seq![rest] =~= done.push(rest));
                    done = done.push(rest);
                    assert(data@.skip(data@.len() as int) =~= Seq::<u8>::empty());
                }
                out.push(data.len() - start);
                start = data.len();
            },
        }
    }
    proof {
        assert(done + Seq::<Seq<u8>>::empty() =~= done);
    }
    out
}

/// Splits the stream that the reads `reads` deliver, one after the other, into chunks under
/// configuration `c`, and returns their lengths, in order. How the stream is cut into reads
/// does not matter: the result is that of the joined bytes.
pub fn chunk_reads(c: ChunkerType, reads: &Vec<Vec<u8>>) -> (r: Vec<usize>)
    requires
        c.valid(),
    ensures
        lengths_of(r@, chunks(c, joined(reads@))),
{
    let ghost views = reads@.map_values(|v: Vec<u8>| v@);
    let ghost total = joined(reads@);
    let mut ch = c.create();
    let mut out: Vec<usize> = Vec::new();
    let mut cur: usize = 0;
    let ghost done: Seq<Seq<u8>> = Seq::empty();
    let mut i: usize = 0;
    assert(views.skip(0) =~= views);
    assert(Seq::<u8>::empty() + total =~= total);
    while i < reads.len()
        invariant
            ch.ready(),
            ch.kind() == c,
            c.valid(),
            i <= reads@.len(),
            views == reads@.map_values(|v: Vec<u8>| v@),
            total == views.flatten(),
            cur == ch.chunk_so_far().len(),
            uncut(c, ch.chunk_so_far()),
            lengths_of(out@, done),
            chunks(c, total) == done + chunks(c, ch.chunk_so_far() + views.skip(i as int).flatten()),
        decreases reads@.len() - i,
    {
        let data = &reads[i];
        let ghost later = views.skip(i + 1).flatten();
        proof {
            assert(views.skip(i as int).drop_first() =~= views.skip(i + 1));
            assert(views.skip(i as int).first() == data@);
            assert(data@.skip(0) =~= data@);
        }
        let mut from: usize = 0;
        while from < data.len()
            invariant
                ch.ready(),
                ch.kind() == c,
                c.valid(),
                from <= data@.len(),
                cur == ch.chunk_so_far().len(),
                uncut(c, ch.chunk_so_far()),
                lengths_of(out@, done),
                chunks(c, total) == done + chunks(c, ch.chunk_so_far() + (data@.skip(from as int) + later)),
            decreases data@.len() - from,
        {
            let ghost before = ch.chunk_so_far();
            let ghost rest = data@.skip(from as int);
            match ch.scan(data, from) {
                Some(k) => {
                    proof {
                        let piece = before + rest.take(k as int);
                        let x = before + (rest + later);
                        let n = (before.len() + k) as nat;
                        assert(x.take(n as int) =~= piece);
                        lemma_chunks_front(c, x, n);
                        lemma_chunk_len(c, piece);
                        assert(x.skip(n as int) =~= Seq::<u8>::empty() + (data@.skip(from + k)
                            + later));
                        assert(done.push(piece) + chunks(c, x.skip(n as int)) =~= done + (
                        seq![piece] + chunks(c, x.skip(n as int))));
                        done = done.push(piece);
                    }
                    out.push(cur + k);
                    cur = 0;
                    from = from + k;
                },
                None => {
                    proof {
                        lemma_uncut_short(c, ch.chunk_so_far());
                        assert(data@.skip(data@.len() as int) =~= Seq::<u8>::empty());
                        assert(before + (rest + later) =~= ch.chunk_so_far() + (data@.skip(
                            data@.len() as int,
                        ) + later));
                    }
                    cur = cur + (data.len() - from);
                    from = data.len();
                },
            }
        }
        proof {
            assert(data@.skip(data@.len() as int) + later =~= later);
        }
        i = i + 1;
    }
    proof {
        assert(views.skip(i as int) =~= Seq::<Seq<u8>>::empty());
        assert(ch.chunk_so_far() + Seq::<u8>::empty() =~= ch.chunk_so_far());
    }
    if cur > 0 {
        proof {
            lemma_chunks_uncut(c, ch.chunk_so_far());
            lemma_uncut_short(c, ch.chunk_so_far());
            assert(done + seq![ch.chunk_so_far()] =~= done.push(ch.chunk_so_far()));
            done = done.push(ch.chunk_so_far());
        }
        out.push(cur);
    } else {
        proof {
            assert(ch.chunk_so_far() =~= Seq::<u8>::empty());
            assert(done + Seq::<Seq<u8>>::empty() =~= done);
        }
    }
    out
}

} // verus!
