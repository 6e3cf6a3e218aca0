//! The FastCDC chunker: a gear hash with normalised chunking (a harder mask below the average
//! size, an easier one above it).
use vstd::prelude::*;
use vstd::wrapping::u64_specs;

use crate::boundary::{lemma_uncut_push, scanned, uncut};
use crate::config::{log2, max_size, min_size, ChunkerType};
use crate::mix::{splitmix_output, splitmix_table};

verus! {

/// The gear table of a seed: the first 256 outputs of splitmix64 seeded with the seed.
pub open spec fn gear_table(seed: u64) -> Seq<u64> {
    Seq::new(256, |j: int| splitmix_output(seed, j as nat))
}

/// One step of the gear hash.
pub open spec fn gear_step(h: u64, g: u64) -> u64 {
    u64_specs::wrapping_add(h << 1u64, g)
}

/// The gear hash of the bytes `s` of a chunk under the table `g`.
pub open spec fn gear_hash(g: Seq<u64>, s: Seq<u8>) -> u64
    decreases s.len(),
{
    if s.len() == 0 {
        0
    } else {
        gear_step(gear_hash(g, s.drop_last()), g[s.last() as int])
    }
}

/// A mask of the `bits` highest bits of a 64-bit word.
pub open spec fn high_mask(bits: nat) -> u64 {
    if bits == 0 {
        0
    } else if bits >= 64 {
        0xFFFF_FFFF_FFFF_FFFFu64
    } else {
        0xFFFF_FFFF_FFFF_FFFFu64 << ((64 - bits) as u64)
    }
}

/// The harder mask, used below the average size: two bits more than log2 of the average.
pub open spec fn mask_small(avg: nat) -> u64 {
    high_mask(log2(avg) + 2)
}

/// The easier mask, used from the average size on: two bits fewer than log2 of the average.
pub open spec fn mask_large(avg: nat) -> u64 {
    high_mask(if log2(avg) >= 2 {
        (log2(avg) - 2) as nat
    } else {
        0
    })
}

/// FastCDC cuts after the byte at position `i` once the chunk reaches its largest size, or
/// once `i` is at least the minimum size and the hash has none of the mask's bits set; the
/// mask is the harder one while `i` is below the average size.
pub open spec fn fastcdc_cuts(avg: nat, seed: u64, s: Seq<u8>) -> bool {
    let i = s.len() - 1;
    let mask = if i < avg {
        mask_small(avg)
    } else {
        mask_large(avg)
    };
    s.len() >= max_size(avg) || (i >= min_size(avg) && gear_hash(gear_table(seed), s) & mask
        == 0)
}

/// The gear hash of `s` started from `h` instead of 0.
pub open spec fn gear_from(g: Seq<u64>, h: u64, s: Seq<u8>) -> u64
    decreases s.len(),
{
    if s.len() == 0 {
        h
    } else {
        gear_step(gear_from(g, h, s.drop_last()), g[s.last() as int])
    }
}

/// `d` shifted left by one bit `k` times.
pub open spec fn shifted(d: u64, k: nat) -> u64
    decreases k,
{
    if k == 0 {
        d
    } else {
        shifted(d, (k - 1) as nat) << 1u64
    }
}

proof fn lemma_gear_step_diff(x: u64, y: u64, d: u64, g: u64)
    requires
        x == (y + d) as u64,
    ensures
        gear_step(x, g) == (gear_step(y, g) + (d << 1u64)) as u64,
{
    assert(gear_step(x, g) == (gear_step(y, g) + (d << 1u64)) as u64) by (bit_vector)
        requires
            x == (y + d) as u64,
    ;
}

proof fn lemma_gear_split(g: Seq<u64>, a: Seq<u8>, b: Seq<u8>)
    ensures
        gear_hash(g, a + b) == gear_from(g, gear_hash(g, a), b),
    decreases b.len(),
{
    if b.len() == 0 {
        assert(a + b =~= a);
    } else {
        lemma_gear_split(g, a, b.drop_last());
        assert((a + b).drop_last() =~= a + b.drop_last());
    }
}

proof fn lemma_gear_from_diff(g: Seq<u64>, h1: u64, h2: u64, d: u64, b: Seq<u8>)
    requires
        h1 == (h2 + d) as u64,
    ensures
        gear_from(g, h1, b) == (gear_from(g, h2, b) + shifted(d, b.len())) as u64,
    decreases b.len(),
{
    if b.len() > 0 {
        lemma_gear_from_diff(g, h1, h2, d, b.drop_last());
        lemma_gear_step_diff(
            gear_from(g, h1, b.drop_last()),
            gear_from(g, h2, b.drop_last()),
            shifted(d, b.drop_last().len()),
            g[b.last() as int],
        );
    }
}

proof fn lemma_shifted_out(d: u64, k: nat)
    requires
        k >= 64,
    ensures
        shifted(d, k) == 0,
    decreases k,
{
    if k > 64 {
        lemma_shifted_out(d, (k - 1) as nat);
        assert(0u64 << 1u64 == 0u64) by (bit_vector);
    } else {
        lemma_shifted_is_shift(d, 63);
        let x = shifted(d, 63);
        assert(x == d << 63u64 ==> x << 1u64 == 0u64) by (bit_vector);
    }
}

proof fn lemma_shifted_is_shift(d: u64, k: nat)
    requires
        k < 64,
    ensures
        shifted(d, k) == d << (k as u64),
    decreases k,
{
    if k > 0 {
        lemma_shifted_is_shift(d, (k - 1) as nat);
        let j = (k - 1) as u64;
        let x = shifted(d, (k - 1) as nat);
        assert(x == d << j && j < 63 ==> x << 1u64 == d << ((j + 1) as u64)) by (bit_vector);
    } else {
        assert(d << 0u64 == d) by (bit_vector);
    }
}

/// The gear hash only remembers the last 64 bytes: two sequences that end in the same 64
/// bytes have the same hash.
pub proof fn lemma_gear_window(g: Seq<u64>, s: Seq<u8>, t: Seq<u8>)
    requires
        s.len() >= 64,
        t.len() >= 64,
        s.skip(s.len() - 64) == t.skip(t.len() - 64),
    ensures
        gear_hash(g, s) == gear_hash(g, t),
{
    let w = s.skip(s.len() - 64);
    let a = s.take(s.len() - 64);
    let b = t.take(t.len() - 64);
    assert(s =~= a + w);
    assert(t =~= b + w);
    lemma_gear_split(g, a, w);
    lemma_gear_split(g, b, w);
    let ha = gear_hash(g, a);
    let hb = gear_hash(g, b);
    let d = (ha - hb) as u64;
    assert(ha == (hb + d) as u64) by (bit_vector)
        requires
            d == (ha - hb) as u64,
    ;
    lemma_gear_from_diff(g, ha, hb, d, w);
    lemma_shifted_out(d, 64);
    let x = gear_from(g, hb, w);
    assert((x + 0u64) as u64 == x) by (bit_vector);
}

/// Executable `high_mask`.
fn make_mask(bits: usize) -> (r: u64)
    ensures
        r == high_mask(bits as nat),
{
    if bits == 0 {
        0
    } else if bits >= 64 {
        0xFFFF_FFFF_FFFF_FFFFu64
    } else {
        0xFFFF_FFFF_FFFF_FFFFu64 << ((64 - bits) as u64)
    }
}

/// The base-2 logarithm of `n`, rounded down.
fn floor_log2(n: usize) -> (r: usize)
    ensures
        r as nat == log2(n as nat),
        r <= n,
{
    let mut m: usize = n;
    let mut bits: usize = 0;
    while m > 1
        invariant
            log2(n as nat) == bits + log2(m as nat),
            bits + m <= n || (n == 0 && m == 0),
        decreases m,
    {
        m = m / 2;
        bits = bits + 1;
    }
    bits
}

/// A live FastCDC chunker.
pub struct FastCdcChunker {
    avg_size: usize,
    seed: u64,
    min_size: usize,
    max_size: usize,
    mask_small: u64,
    mask_large: u64,
    gear: Vec<u64>,
    hash: u64,
    pos: usize,
    chunk: Ghost<Seq<u8>>,
}

impl FastCdcChunker {
    /// The configuration that this chunker was made from.
    pub closed spec fn config(&self) -> ChunkerType {
        ChunkerType::FastCdc((self.avg_size, self.seed))
    }

    /// The bytes of the current chunk scanned so far.
    pub closed spec fn current(&self) -> Seq<u8> {
        self.chunk@
    }

    /// The sizes, masks and gear table are derived from the configuration; the hash is that
    /// of the current chunk.
    pub closed spec fn wf(&self) -> bool {
        &&& self.config().valid()
        &&& self.min_size == min_size(self.avg_size as nat)
        &&& self.max_size == max_size(self.avg_size as nat)
        &&& self.mask_small == mask_small(self.avg_size as nat)
        &&& self.mask_large == mask_large(self.avg_size as nat)
        &&& self.gear@ == gear_table(self.seed)
        &&& self.pos == self.chunk@.len()
        &&& self.pos < self.max_size
        &&& self.hash == gear_hash(self.gear@, self.chunk@)
        &&& uncut(self.config(), self.chunk@)
    }

    /// A chunker at the start of a stream.
    pub fn new(avg_size: usize, seed: u64) -> (r: Self)
        requires
            ChunkerType::FastCdc((avg_size, seed)).valid(),
        ensures
            r.wf(),
            r.config() == ChunkerType::FastCdc((avg_size, seed)),
            r.current() == Seq::<u8>::empty(),
    {
        let bits = floor_log2(avg_size);
        let large = if bits >= 2 {
            bits - 2
        } else {
            0
        };
        let gear = splitmix_table(seed, 256);
        assert(gear@ =~= gear_table(seed));
        FastCdcChunker {
            avg_size,
            seed,
            min_size: avg_size / 4,
            max_size: avg_size * 4,
            mask_small: make_mask(bits + 2),
            mask_large: make_mask(large),
            gear,
            hash: 0,
            pos: 0,
            chunk: Ghost(Seq::empty()),
        }
    }

    /// The configuration that this chunker was made from.
    pub fn get_type(&self) -> (r: ChunkerType)
        ensures
            r == self.config(),
    {
        ChunkerType::FastCdc((self.avg_size, self.seed))
    }

    /// Scans `data` from position `from` on, until a chunk ends or the data does.
    pub fn scan(&mut self, data: &[u8], from: usize) -> (r: Option<usize>)
        requires
            old(self).wf(),
            from <= data@.len(),
        ensures
            final(self).wf(),
            final(self).config() == old(self).config(),
            scanned(old(self).config(), old(self).current(), data@.skip(from as int), r, final(self).current()),
            uncut(final(self).config(), final(self).current()),
    {
        let ghost before = self.chunk@;
        let ghost d = data@.skip(from as int);
        let mut k: usize = from;
        while k < data.len()
            invariant
                from <= k <= data@.len(),
                self.wf(),
                self.avg_size == old(self).avg_size,
                self.seed == old(self).seed,
                before == old(self).current(),
                d == data@.skip(from as int),
                self.chunk@ == before + d.take(k - from),
            decreases data@.len() - k,
        {
            let b = data[k];
            let i = self.pos;
            let ghost s = self.chunk@.push(b);
            proof {
                assert(s.drop_last() =~= self.chunk@);
                assert(before + d.take(k + 1 - from) =~= s);
            }
            let h = (self.hash << 1u64).wrapping_add(self.gear[b as usize]);
            let mask = if i < self.avg_size {
                self.mask_small
            } else {
                self.mask_large
            };
            if i + 1 >= self.max_size || (i >= self.min_size && h & mask == 0) {
                self.hash = 0;
                self.pos = 0;
                self.chunk = Ghost(Seq::empty());
                return Some(k + 1 - from);
            }
            self.hash = h;
            self.pos = i + 1;
            proof {
                lemma_uncut_push(self.config(), self.chunk@, b);
            }
            self.chunk = Ghost(s);
            k = k + 1;
        }
        proof {
            assert(d.take(k - from) =~= d);
        }
        None
    }
}

} // verus!
