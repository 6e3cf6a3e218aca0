//! The Rabin chunker: a polynomial rolling hash over a window of 64 bytes, reduced modulo an
//! irreducible polynomial of degree 32 over GF(2), cut where its low bits are zero.
use vstd::prelude::*;

use crate::boundary::{lemma_uncut_push, scanned, uncut};
use crate::config::{max_size, min_size, ChunkerType};

verus! {

/// The number of bytes in the rolling window.
pub const RABIN_WINDOW: usize = 64;

/// The reduction polynomial x^32 + x^22 + x^2 + x + 1 (irreducible over GF(2)), without its
/// x^32 term.
pub const RABIN_POLY: u32 = 0x0040_0007;

/// A 32-bit register read as a polynomial of degree below 32, multiplied by x modulo the
/// reduction polynomial.
pub open spec fn mulx(h: u32) -> u32 {
    if h & 0x8000_0000u32 != 0 {
        (h << 1u32) ^ RABIN_POLY
    } else {
        h << 1u32
    }
}

/// `h` multiplied by x^n modulo the reduction polynomial.
pub open spec fn mulx_n(h: u32, n: nat) -> u32
    decreases n,
{
    if n == 0 {
        h
    } else {
        mulx(mulx_n(h, (n - 1) as nat))
    }
}

/// The polynomial that byte `b` stands for: the byte salted with the seed.
pub open spec fn symbol(seed: u32, b: u8) -> u32 {
    (b as u32) ^ seed
}

/// The fingerprint of `w`: its symbols as the coefficients, in steps of x^8, of a polynomial
/// reduced modulo the reduction polynomial (the first byte of `w` the highest).
pub open spec fn fingerprint(seed: u32, w: Seq<u8>) -> u32
    decreases w.len(),
{
    if w.len() == 0 {
        0
    } else {
        mulx_n(fingerprint(seed, w.drop_last()), 8) ^ symbol(seed, w.last())
    }
}

/// The out-table of a seed: entry `b` is the term that byte `b` contributes to the hash once
/// 64 more bytes have come in, `symbol(b) * x^512`, so that adding it again cancels it.
pub open spec fn rabin_table(seed: u32) -> Seq<u32> {
    Seq::new(256, |b: int| mulx_n(symbol(seed, b as u8), (8 * RABIN_WINDOW) as nat))
}

/// One step of the rolling hash: multiply by x^8, add the incoming symbol `sym`, and cancel
/// the outgoing byte's term `out`.
pub open spec fn rabin_step(h: u32, sym: u32, out: u32) -> u32 {
    mulx_n(h, 8) ^ sym ^ out
}

/// The rolling hash of the bytes `s` of a chunk, as the chunker updates it byte by byte.
pub open spec fn rabin_hash(seed: u32, s: Seq<u8>) -> u32
    decreases s.len(),
{
    if s.len() == 0 {
        0
    } else {
        let i = s.len() - 1;
        let out: u32 = if i >= RABIN_WINDOW {
            rabin_table(seed)[s[i - RABIN_WINDOW] as int]
        } else {
            0
        };
        rabin_step(rabin_hash(seed, s.drop_last()), symbol(seed, s[i]), out)
    }
}

/// The mask whose bits of the hash must all be zero at a cutpoint.
pub open spec fn rabin_mask(avg: nat) -> u64 {
    (avg - 1) as u64
}

/// Rabin cuts after the byte at position `i` once the chunk reaches its largest size, or
/// once `i` is at least the minimum size and the masked hash is zero.
pub open spec fn rabin_cuts(avg: nat, seed: u32, s: Seq<u8>) -> bool {
    let i = s.len() - 1;
    s.len() >= max_size(avg) || (i >= min_size(avg) && (rabin_hash(seed, s) as u64
        & rabin_mask(avg)) == 0)
}

proof fn lemma_mulx_n_xor(a: u32, b: u32, n: nat)
    ensures
        mulx_n(a ^ b, n) == mulx_n(a, n) ^ mulx_n(b, n),
    decreases n,
{
    if n > 0 {
        lemma_mulx_n_xor(a, b, (n - 1) as nat);
        let x = mulx_n(a, (n - 1) as nat);
        let y = mulx_n(b, (n - 1) as nat);
        assert(mulx(x ^ y) == mulx(x) ^ mulx(y)) by (bit_vector);
    }
}

proof fn lemma_mulx_n_zero(n: nat)
    ensures
        mulx_n(0, n) == 0,
    decreases n,
{
    if n > 0 {
        lemma_mulx_n_zero((n - 1) as nat);
        assert(mulx(0) == 0) by (bit_vector);
    }
}

proof fn lemma_mulx_n_add(v: u32, a: nat, b: nat)
    ensures
        mulx_n(mulx_n(v, a), b) == mulx_n(v, a + b),
    decreases b,
{
    if b > 0 {
        lemma_mulx_n_add(v, a, (b - 1) as nat);
        assert(a + b - 1 == a + (b - 1) as nat);
    }
}

/// The first byte of `w` contributes its symbol times x^(8 (|w| - 1)).
proof fn lemma_fingerprint_front(seed: u32, w: Seq<u8>)
    requires
        w.len() >= 1,
    ensures
        fingerprint(seed, w) == mulx_n(symbol(seed, w[0]), (8 * (w.len() - 1)) as nat)
            ^ fingerprint(seed, w.skip(1)),
    decreases w.len(),
{
    let sym = symbol(seed, w.last());
    if w.len() == 1 {
        assert(w.drop_last() =~= Seq::<u8>::empty());
        assert(w.skip(1) =~= Seq::<u8>::empty());
        lemma_mulx_n_zero(8);
        assert(0u32 ^ sym == sym ^ 0u32) by (bit_vector);
    } else {
        let p = w.drop_last();
        lemma_fingerprint_front(seed, p);
        let a = mulx_n(symbol(seed, w[0]), (8 * (p.len() - 1)) as nat);
        let f = fingerprint(seed, p.skip(1));
        lemma_mulx_n_xor(a, f, 8);
        lemma_mulx_n_add(symbol(seed, w[0]), (8 * (p.len() - 1)) as nat, 8);
        assert(w.skip(1).drop_last() =~= p.skip(1));
        let x = mulx_n(a, 8);
        let y = mulx_n(f, 8);
        assert((x ^ y) ^ sym == x ^ (y ^ sym)) by (bit_vector);
    }
}

/// The rolling hash is the fingerprint of the last (up to) 64 bytes of the chunk: each byte's
/// term is cancelled as it leaves the window, so nothing earlier is remembered.
pub proof fn lemma_rabin_window(seed: u32, s: Seq<u8>)
    ensures
        rabin_hash(seed, s) == fingerprint(
            seed,
            s.skip(
                if s.len() > RABIN_WINDOW {
                    s.len() - RABIN_WINDOW
                } else {
                    0
                },
            ),
        ),
    decreases s.len(),
{
    if s.len() == 0 {
        assert(s.skip(0) =~= s);
    } else {
        let p = s.drop_last();
        let i = p.len() as int;
        let b = s[i];
        let sym = symbol(seed, b);
        lemma_rabin_window(seed, p);
        if i < RABIN_WINDOW {
            assert(p.skip(0) =~= p);
            assert(s.skip(0) =~= s);
            let h = mulx_n(fingerprint(seed, p), 8);
            assert(h ^ sym ^ 0u32 == h ^ sym) by (bit_vector);
        } else {
            let w = p.skip(i - RABIN_WINDOW);
            assert(w.len() == RABIN_WINDOW);
            assert(w[0] == s[i - RABIN_WINDOW]);
            let v = s.skip(s.len() - RABIN_WINDOW);
            assert(v.drop_last() =~= w.skip(1));
            assert(v.last() == b);
            lemma_fingerprint_front(seed, w);
            let a = mulx_n(symbol(seed, w[0]), (8 * (RABIN_WINDOW - 1)) as nat);
            let f = fingerprint(seed, w.skip(1));
            lemma_mulx_n_xor(a, f, 8);
            lemma_mulx_n_add(symbol(seed, w[0]), (8 * (RABIN_WINDOW - 1)) as nat, 8);
            let x = mulx_n(a, 8);
            let y = mulx_n(f, 8);
            assert((x ^ y) ^ sym ^ x == y ^ sym) by (bit_vector);
        }
    }
}

/// Two sequences that end in the same 64 bytes have the same rolling hash.
pub proof fn lemma_rabin_same_window(seed: u32, s: Seq<u8>, t: Seq<u8>)
    requires
        s.len() >= RABIN_WINDOW,
        t.len() >= RABIN_WINDOW,
        s.skip(s.len() - RABIN_WINDOW) == t.skip(t.len() - RABIN_WINDOW),
    ensures
        rabin_hash(seed, s) == rabin_hash(seed, t),
{
    lemma_rabin_window(seed, s);
    lemma_rabin_window(seed, t);
    if s.len() == RABIN_WINDOW {
        assert(s.skip(0) =~= s.skip(s.len() - RABIN_WINDOW));
    }
    if t.len() == RABIN_WINDOW {
        assert(t.skip(0) =~= t.skip(t.len() - RABIN_WINDOW));
    }
}

/// Executable `mulx`.
fn times_x(h: u32) -> (r: u32)
    ensures
        r == mulx(h),
{
    if h & 0x8000_0000u32 != 0 {
        (h << 1u32) ^ RABIN_POLY
    } else {
        h << 1u32
    }
}

/// Executable `mulx_n`.
fn times_x_n(h: u32, n: usize) -> (r: u32)
    ensures
        r == mulx_n(h, n as nat),
{
    let mut r = h;
    let mut j: usize = 0;
    while j < n
        invariant
            j <= n,
            r == mulx_n(h, j as nat),
        decreases n - j,
    {
        r = times_x(r);
        j = j + 1;
    }
    r
}

proof fn lemma_slot_differs(j: int, i: int)
    requires
        0 <= j < i < j + RABIN_WINDOW,
    ensures
        j % (RABIN_WINDOW as int) != i % (RABIN_WINDOW as int),
{
}

proof fn lemma_slot_same(i: int)
    requires
        i >= RABIN_WINDOW,
    ensures
        (i - RABIN_WINDOW) % (RABIN_WINDOW as int) == i % (RABIN_WINDOW as int),
{
}

/// After byte `b` at position `s.len()` goes to its slot, the window holds the last (up to) 64
/// bytes of `s.push(b)`.
proof fn lemma_window_push(w: Seq<u8>, s: Seq<u8>, b: u8)
    requires
        w.len() == RABIN_WINDOW,
        forall|j: int|
            0 <= j < s.len() && s.len() <= j + RABIN_WINDOW ==> w[j % (RABIN_WINDOW as int)]
                == #[trigger] s[j],
    ensures
        forall|j: int|
            0 <= j < s.len() + 1 && s.len() + 1 <= j + RABIN_WINDOW ==> w.update(
                s.len() as int % (RABIN_WINDOW as int),
                b,
            )[j % (RABIN_WINDOW as int)] == #[trigger] s.push(b)[j],
{
    let n = s.len() as int;
    let t = s.push(b);
    let w2 = w.update(n % (RABIN_WINDOW as int), b);
    assert forall|j: int| 0 <= j < n + 1 && n + 1 <= j + RABIN_WINDOW implies w2[j
        % (RABIN_WINDOW as int)] == #[trigger] t[j] by {
        if j < n {
            lemma_slot_differs(j, n);
            assert(w[j % (RABIN_WINDOW as int)] == s[j]);
        }
    }
}

/// A live Rabin chunker.
pub struct RabinChunker {
    avg_size: usize,
    seed: u32,
    min_size: usize,
    max_size: usize,
    mask: u64,
    table: Vec<u32>,
    window: Vec<u8>,
    hash: u32,
    pos: usize,
    chunk: Ghost<Seq<u8>>,
}

/// The out-table of a seed.
fn make_table(seed: u32) -> (r: Vec<u32>)
    ensures
        r@ == rabin_table(seed),
{
    let mut table: Vec<u32> = Vec::with_capacity(256);
    let mut b: usize = 0;
    while b < 256
        invariant
            b <= 256,
            table@.len() == b,
            forall|i: int| 0 <= i < b ==> #[trigger] table@[i] == rabin_table(seed)[i],
        decreases 256 - b,
    {
        table.push(times_x_n((b as u8 as u32) ^ seed, 8 * RABIN_WINDOW));
        b = b + 1;
    }
    assert(table@ =~= rabin_table(seed));
    table
}

impl RabinChunker {
    /// The configuration that this chunker was made from.
    pub closed spec fn config(&self) -> ChunkerType {
        ChunkerType::Rabin((self.avg_size, self.seed))
    }

    /// The bytes of the current chunk scanned so far.
    pub closed spec fn current(&self) -> Seq<u8> {
        self.chunk@
    }

    /// The sizes, mask and table are derived from the configuration; the hash is that of the
    /// current chunk, whose last (up to) 64 bytes the circular window holds.
    pub closed spec fn wf(&self) -> bool {
        &&& self.config().valid()
        &&& self.min_size == min_size(self.avg_size as nat)
        &&& self.max_size == max_size(self.avg_size as nat)
        &&& self.mask == rabin_mask(self.avg_size as nat)
        &&& self.table@ == rabin_table(self.seed)
        &&& self.window@.len() == RABIN_WINDOW
        &&& self.pos == self.chunk@.len()
        &&& self.pos < self.max_size
        &&& self.hash == rabin_hash(self.seed, self.chunk@)
        &&& forall|j: int|
            0 <= j < self.chunk@.len() && self.chunk@.len() <= j + RABIN_WINDOW
                ==> self.window@[j % (RABIN_WINDOW as int)] == #[trigger] self.chunk@[j]
        &&& uncut(self.config(), self.chunk@)
    }

    /// A chunker at the start of a stream.
    pub fn new(avg_size: usize, seed: u32) -> (r: Self)
        requires
            ChunkerType::Rabin((avg_size, seed)).valid(),
        ensures
            r.wf(),
            r.config() == ChunkerType::Rabin((avg_size, seed)),
            r.current() == Seq::<u8>::empty(),
    {
        RabinChunker {
            avg_size,
            seed,
            min_size: avg_size / 4,
            max_size: avg_size * 4,
            mask: (avg_size - 1) as u64,
            table: make_table(seed),
            window: vec![0u8; RABIN_WINDOW],
            hash: 0,
            pos: 0,
            chunk: Ghost(Seq::empty()),
        }
    }

    /// The configuration that this chunker was made from.
    pub fn get_type(&self) -> (r: ChunkerType)
        ensures
            r == self.config(),
    {
        ChunkerType::Rabin((self.avg_size, self.seed))
    }

    /// Scans `data` from position `from` on, until a chunk ends or the data does.
    pub fn scan(&mut self, data: &[u8], from: usize) -> (r: Option<usize>)
        requires
            old(self).wf(),
            from <= data@.len(),
        ensures
            final(self).wf(),
            final(self).config() == old(self).config(),
            scanned(old(self).config(), old(self).current(), data@.skip(from as int), r, final(self).current()),
            uncut(final(self).config(), final(self).current()),
    {
        let ghost before = self.chunk@;
        let ghost d = data@.skip(from as int);
        let mut k: usize = from;
        while k < data.len()
            invariant
                from <= k <= data@.len(),
                self.wf(),
                self.avg_size == old(self).avg_size,
                self.seed == old(self).seed,
                before == old(self).current(),
                d == data@.skip(from as int),
                self.chunk@ == before + d.take(k - from),
            decreases data@.len() - k,
        {
            let b = data[k];
            let i = self.pos;
            let ghost s = self.chunk@.push(b);
            let ghost old_chunk = self.chunk@;
            let ghost old_window = self.window@;
            proof {
                assert(s.drop_last() =~= self.chunk@);
                assert(before + d.take(k + 1 - from) =~= s);
            }
            let slot = i % RABIN_WINDOW;
            let out: u32 = if i >= RABIN_WINDOW {
                proof {
                    lemma_slot_same(i as int);
                    assert(old_window[slot as int] == old_chunk[i - RABIN_WINDOW]);
                    assert(old_chunk[i - RABIN_WINDOW] == s[i - RABIN_WINDOW]);
                }
                self.table[self.window[slot] as usize]
            } else {
                0
            };
            let h: u32 = times_x_n(self.hash, 8) ^ ((b as u32) ^ self.seed) ^ out;
            proof {
                assert(s[i as int] == b);
                assert(h == rabin_hash(self.seed, s));
                lemma_window_push(old_window, old_chunk, b);
            }
            self.window.set(slot, b);
            if i + 1 >= self.max_size || (i >= self.min_size && ((h as u64) & self.mask) == 0) {
                self.hash = 0;
                self.pos = 0;
                self.chunk = Ghost(Seq::empty());
                return Some(k + 1 - from);
            }
            self.hash = h;
            self.pos = i + 1;
            proof {
                lemma_uncut_push(self.config(), old_chunk, b);
            }
            self.chunk = Ghost(s);
            k = k + 1;
        }
        proof {
            assert(d.take(k - from) =~= d);
        }
        None
    }
}

} // verus!
