//! The asymmetric-extremum chunker: a chunk ends one window after the largest byte seen in it.
use vstd::prelude::*;

use crate::boundary::{lemma_uncut_push, scanned, uncut};
use crate::config::{max_size, min_size, ChunkerType};

verus! {

/// The window that follows the running maximum: the average size divided by `e - 1`.
pub open spec fn ae_window(avg: nat) -> nat {
    avg * 1_000_000_000 / 1_718_281_828
}

/// The largest byte of `s` and the position of its first occurrence; `(0, 0)` for no byte.
pub open spec fn ae_extremum(s: Seq<u8>) -> (u8, nat)
    decreases s.len(),
{
    if s.len() == 0 {
        (0u8, 0nat)
    } else {
        let (v, p) = ae_extremum(s.drop_last());
        if s.last() > v {
            (s.last(), (s.len() - 1) as nat)
        } else {
            (v, p)
        }
    }
}

/// AE cuts after the byte at position `i` once the chunk reaches its largest size, or once
/// `i` is at least the minimum size and a full window past the maximum before it.
pub open spec fn ae_cuts(avg: nat, s: Seq<u8>) -> bool {
    let i = s.len() - 1;
    s.len() >= max_size(avg) || (i >= min_size(avg) && i >= ae_extremum(s.drop_last()).1
        + ae_window(avg))
}

/// A live AE chunker.
pub struct AeChunker {
    avg_size: usize,
    min_size: usize,
    max_size: usize,
    window_size: usize,
    max_val: u8,
    max_pos: usize,
    pos: usize,
    chunk: Ghost<Seq<u8>>,
}

impl AeChunker {
    /// The configuration that this chunker was made from.
    pub closed spec fn config(&self) -> ChunkerType {
        ChunkerType::Ae(self.avg_size)
    }

    /// The bytes of the current chunk scanned so far.
    pub closed spec fn current(&self) -> Seq<u8> {
        self.chunk@
    }

    /// The sizes are derived from the average, and the running state is that of the bytes
    /// of the current chunk, which hold no cutpoint.
    pub closed spec fn wf(&self) -> bool {
        &&& self.config().valid()
        &&& self.min_size == min_size(self.avg_size as nat)
        &&& self.max_size == max_size(self.avg_size as nat)
        &&& self.window_size == ae_window(self.avg_size as nat)
        &&& self.window_size <= self.avg_size
        &&& self.pos == self.chunk@.len()
        &&& self.pos < self.max_size
        &&& self.max_pos <= self.pos
        &&& ae_extremum(self.chunk@) == (self.max_val, self.max_pos as nat)
        &&& uncut(self.config(), self.chunk@)
    }

    /// A chunker at the start of a stream.
    pub fn new(avg_size: usize) -> (r: Self)
        requires
            ChunkerType::Ae(avg_size).valid(),
        ensures
            r.wf(),
            r.config() == ChunkerType::Ae(avg_size),
            r.current() == Seq::<u8>::empty(),
    {
        let window = ((avg_size as u128) * 1_000_000_000u128 / 1_718_281_828u128) as usize;
        proof {
            let a = avg_size as nat;
            assert(a * 1_000_000_000 / 1_718_281_828 <= a) by (nonlinear_arith);
        }
        AeChunker {
            avg_size,
            min_size: avg_size / 4,
            max_size: avg_size * 4,
            window_size: window,
            max_val: 0,
            max_pos: 0,
            pos: 0,
            chunk: Ghost(Seq::empty()),
        }
    }

    /// The configuration that this chunker was made from.
    pub fn get_type(&self) -> (r: ChunkerType)
        ensures
            r == self.config(),
    {
        ChunkerType::Ae(self.avg_size)
    }

    /// Scans `data` from position `from` on, until a chunk ends or the data does.
    pub fn scan(&mut self, data: &[u8], from: usize) -> (r: Option<usize>)
        requires
            old(self).wf(),
            from <= data@.len(),
        ensures
            final(self).wf(),
            final(self).config() == old(self).config(),
            scanned(old(self).config(), old(self).current(), data@.skip(from as int), r, final(self).current()),
            uncut(final(self).config(), final(self).current()),
    {
        let ghost before = self.chunk@;
        let ghost d = data@.skip(from as int);
        let mut k: usize = from;
        while k < data.len()
            invariant
                from <= k <= data@.len(),
                self.wf(),
                self.avg_size == old(self).avg_size,
                before == old(self).current(),
                d == data@.skip(from as int),
                self.chunk@ == before + d.take(k - from),
            decreases data@.len() - k,
        {
            let b = data[k];
            let i = self.pos;
            let ghost s = self.chunk@.push(b);
            proof {
                assert(s.drop_last() =~= self.chunk@);
                assert(before + d.take(k + 1 - from) =~= s);
            }
            if i + 1 >= self.max_size || (i >= self.min_size && i >= self.max_pos + self.window_size) {
                self.max_val = 0;
                self.max_pos = 0;
                self.pos = 0;
                self.chunk = Ghost(Seq::empty());
                return Some(k + 1 - from);
            }
            if b > self.max_val {
                self.max_val = b;
                self.max_pos = i;
            }
            self.pos = i + 1;
            proof {
                lemma_uncut_push(self.config(), self.chunk@, b);
            }
            self.chunk = Ghost(s);
            k = k + 1;
        }
        proof {
            assert(d.take(k - from) =~= d);
        }
        None
    }
}

} // verus!
