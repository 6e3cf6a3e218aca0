//! What holds of the chunk sequence of every stream under every valid configuration.
use vstd::prelude::*;

use crate::boundary::{
    chunks, cut_search, cuts, first_len, is_chunk, lemma_chunk_len, lemma_chunks_front,
    lemma_cut_bounds, scanned, uncut,
};
use crate::config::{max_size, min_size, spec_format, spec_parse, ChunkerType};
use crate::fastcdc::{gear_table, lemma_gear_window};
use crate::rabin::{lemma_rabin_same_window, RABIN_WINDOW};
use crate::text::{decimal, index_from, lemma_decimal_value, parse_usize, unsigned_part};

verus! {

proof fn lemma_index_at(t: Seq<char>, ch: char, i: nat, p: nat)
    requires
        i <= p < t.len(),
        t[p as int] == ch,
        forall|j: int| i <= j < p ==> t[j] != ch,
    ensures
        index_from(t, ch, i) == Some(p),
    decreases p - i,
{
    if i < p {
        lemma_index_at(t, ch, i + 1, p);
    }
}

/// Parsing the textual form of a configuration gives the configuration back, where the form
/// can hold it: a valid configuration with seed 0 and an average size in whole KiB.
pub proof fn lemma_parse_format(c: ChunkerType)
    requires
        c.valid(),
        c.spec_seed() == 0,
        c.avg() % 1024 == 0,
    ensures
        spec_parse(spec_format(c)) == Ok::<ChunkerType, crate::config::ConfigError>(c),
{
    let name = c.spec_name();
    let kib = c.avg() / 1024;
    let dec = decimal(kib);
    let t = spec_format(c);
    let p = name.len();
    assert(t =~= name + (seq!['/'] + dec));
    assert forall|j: int| 0 <= j < p implies t[j] != '/' by {
        assert(t[j] == name[j]);
    }
    lemma_index_at(t, '/', 0, p);
    assert(t.skip((p + 1) as int) =~= dec);
    assert(t.take(p as int) =~= name);
    lemma_decimal_value(kib);
    assert(unsigned_part(dec) == dec);
    assert(parse_usize(dec) == Some(kib));
    assert(kib * 1024 == c.avg());
}

/// A scan's outcome is fixed by the configuration, the chunk so far and the data: two scans
/// that leave no cutpoint behind agree on where the chunk ends and on what remains.
pub proof fn lemma_scan_determined(
    c: ChunkerType,
    before: Seq<u8>,
    data: Seq<u8>,
    r1: Option<usize>,
    after1: Seq<u8>,
    r2: Option<usize>,
    after2: Seq<u8>,
)
    requires
        uncut(c, before),
        scanned(c, before, data, r1, after1),
        uncut(c, after1),
        scanned(c, before, data, r2, after2),
        uncut(c, after2),
    ensures
        r1 == r2,
        after1 == after2,
{
    lemma_scan_ends_once(c, before, data, r1, after1, r2, after2);
    lemma_scan_ends_once(c, before, data, r2, after2, r1, after1);
}

proof fn lemma_scan_ends_once(
    c: ChunkerType,
    before: Seq<u8>,
    data: Seq<u8>,
    r1: Option<usize>,
    after1: Seq<u8>,
    r2: Option<usize>,
    after2: Seq<u8>,
)
    requires
        scanned(c, before, data, r1, after1),
        uncut(c, after1),
        scanned(c, before, data, r2, after2),
        uncut(c, after2),
    ensures
        r1 matches Some(k1) ==> r2 == Some(k1),
{
    if let Some(k1) = r1 {
        let p1 = before + data.take(k1 as int);
        match r2 {
            Some(k2) => {
                let p2 = before + data.take(k2 as int);
                if k1 < k2 {
                    assert(p2.drop_last().take(p1.len() as int) =~= p1);
                } else if k2 < k1 {
                    assert(p1.drop_last().take(p2.len() as int) =~= p2);
                }
            },
            None => {
                assert(after2.take(p1.len() as int) =~= p1);
            },
        }
    }
}

/// Rabin and FastCDC decide a cut from the length of the chunk so far and its last 64 bytes
/// alone. So once two streams hold the same 64 bytes before the same chunk position, they
/// decide alike there, whatever came earlier: an edit disturbs decisions only nearby.
pub proof fn lemma_local_decision(c: ChunkerType, s: Seq<u8>, t: Seq<u8>)
    requires
        !(c is Ae),
        s.len() == t.len(),
        s.len() >= RABIN_WINDOW,
        s.skip(s.len() - RABIN_WINDOW) == t.skip(t.len() - RABIN_WINDOW),
    ensures
        cuts(c, s) == cuts(c, t),
{
    match c {
        ChunkerType::Rabin((_, seed)) => {
            lemma_rabin_same_window(seed, s, t);
        },
        ChunkerType::FastCdc((_, seed)) => {
            lemma_gear_window(gear_table(seed), s, t);
        },
        ChunkerType::Ae(_) => {},
    }
}

/// Every chunk of `x` ends in a cutpoint: `x` splits into complete chunks.
pub open spec fn closed(c: ChunkerType, x: Seq<u8>) -> bool {
    forall|i: int| 0 <= i < chunks(c, x).len() ==> is_chunk(c, #[trigger] chunks(c, x)[i])
}

/// Bytes after a stream that splits into complete chunks leave those chunks alone, and are
/// chunked as a stream of their own.
pub proof fn lemma_chunks_append(c: ChunkerType, x: Seq<u8>, r: Seq<u8>)
    requires
        closed(c, x),
    ensures
        chunks(c, x + r) == chunks(c, x) + chunks(c, r),
    decreases x.len(),
{
    if x.len() == 0 {
        assert(x + r =~= r);
        assert(chunks(c, x) + chunks(c, r) =~= chunks(c, r));
    } else {
        lemma_first_chunk(c, x);
        let n = first_len(c, x);
        let first = x.take(n as int);
        let rest = x.skip(n as int);
        let cs = chunks(c, x);
        assert(cs == seq![first] + chunks(c, rest));
        assert(cs[0] == first);
        let xr = x + r;
        assert(xr.take(n as int) =~= first);
        lemma_chunks_front(c, xr, n);
        assert(xr.skip(n as int) =~= rest + r);
        assert forall|i: int| 0 <= i < chunks(c, rest).len() implies is_chunk(
            c,
            #[trigger] chunks(c, rest)[i],
        ) by {
            assert(chunks(c, rest)[i] == cs[i + 1]);
        }
        lemma_chunks_append(c, rest, r);
        assert(seq![first] + (chunks(c, rest) + chunks(c, r)) =~= cs + chunks(c, r));
    }
}

/// Resynchronisation: two streams that differ only before a shared remainder `r`, each
/// splitting into complete chunks up to `r`, end in the same chunks, those of `r`.
pub proof fn lemma_resync(c: ChunkerType, x: Seq<u8>, y: Seq<u8>, r: Seq<u8>)
    requires
        closed(c, x),
        closed(c, y),
    ensures
        chunks(c, x + r).skip(chunks(c, x).len() as int) == chunks(c, r),
        chunks(c, y + r).skip(chunks(c, y).len() as int) == chunks(c, r),
{
    lemma_chunks_append(c, x, r);
    lemma_chunks_append(c, y, r);
    assert((chunks(c, x) + chunks(c, r)).skip(chunks(c, x).len() as int) =~= chunks(c, r));
    assert((chunks(c, y) + chunks(c, r)).skip(chunks(c, y).len() as int) =~= chunks(c, r));
}

/// The search for the first cutpoint ends within the stream, at a cutpoint if before its end,
/// and passes no cutpoint on the way.
proof fn lemma_search(c: ChunkerType, s: Seq<u8>, m: nat)
    requires
        1 <= m <= s.len(),
    ensures
        m <= cut_search(c, s, m) <= s.len(),
        cut_search(c, s, m) < s.len() ==> cuts(c, s.take(cut_search(c, s, m) as int)),
        forall|j: int| m <= j < cut_search(c, s, m) ==> !cuts(c, #[trigger] s.take(j)),
    decreases s.len() - m,
{
    if m < s.len() && !cuts(c, s.take(m as int)) {
        lemma_search(c, s, m + 1);
    }
}

/// The first chunk of a non-empty stream: its length is between 1 and the stream's, and unless
/// it is the whole stream it is a complete chunk.
proof fn lemma_first_chunk(c: ChunkerType, s: Seq<u8>)
    requires
        s.len() >= 1,
    ensures
        1 <= first_len(c, s) <= s.len(),
        first_len(c, s) < s.len() ==> is_chunk(c, s.take(first_len(c, s) as int)),
        uncut(c, s.take(first_len(c, s) as int).drop_last()),
{
    lemma_search(c, s, 1);
    let n = first_len(c, s) as int;
    let p = s.take(n);
    assert forall|j: int| 1 <= j <= p.drop_last().len() implies !cuts(
        c,
        #[trigger] p.drop_last().take(j),
    ) by {
        assert(p.drop_last().take(j) =~= s.take(j));
    }
    if n < s.len() {
        assert(p =~= s.take(n));
    }
}

/// Concatenating the chunks of a stream, in order, gives the stream back.
pub proof fn lemma_reconstruction(c: ChunkerType, s: Seq<u8>)
    ensures
        chunks(c, s).flatten() == s,
    decreases s.len(),
{
    if s.len() == 0 {
        assert(chunks(c, s).flatten() =~= s);
    } else {
        lemma_first_chunk(c, s);
        let n = first_len(c, s) as int;
        let rest = chunks(c, s.skip(n));
        lemma_reconstruction(c, s.skip(n));
        let all = seq![s.take(n)] + rest;
        assert(all.first() == s.take(n));
        assert(all.drop_first() =~= rest);
        assert(s.take(n) + s.skip(n) =~= s);
    }
}

/// Every chunk holds at least one byte and at most the largest size; every chunk but the last
/// ends in a cutpoint and holds more than the least size.
pub proof fn lemma_size_bounds(c: ChunkerType, s: Seq<u8>)
    requires
        c.valid(),
    ensures
        forall|i: int|
            0 <= i < chunks(c, s).len() ==> 1 <= (#[trigger] chunks(c, s)[i]).len() <= max_size(
                c.avg(),
            ),
        forall|i: int|
            0 <= i < chunks(c, s).len() - 1 ==> is_chunk(c, #[trigger] chunks(c, s)[i])
                && chunks(c, s)[i].len() > min_size(c.avg()),
    decreases s.len(),
{
    if s.len() > 0 {
        lemma_first_chunk(c, s);
        let n = first_len(c, s) as int;
        let first = s.take(n);
        let rest = chunks(c, s.skip(n));
        lemma_size_bounds(c, s.skip(n));
        if n < s.len() {
            lemma_chunk_len(c, first);
            assert(rest.len() > 0);
        } else {
            let m = max_size(c.avg()) as int;
            if n > m {
                assert(first.drop_last().take(m) =~= first.take(m));
                lemma_cut_bounds(c, first.take(m));
            }
            assert(s.skip(n).len() == 0);
        }
        let all = seq![first] + rest;
        assert(chunks(c, s) == all);
        assert forall|i: int| 0 <= i < all.len() implies 1 <= (#[trigger] all[i]).len()
            <= max_size(c.avg()) by {
            if i > 0 {
                assert(all[i] == rest[i - 1]);
            }
        }
        assert forall|i: int| 0 <= i < all.len() - 1 implies is_chunk(c, #[trigger] all[i])
            && all[i].len() > min_size(c.avg()) by {
            if i > 0 {
                assert(all[i] == rest[i - 1]);
            }
        }
    }
}

/// The number of leading chunks of `s` that end in a cutpoint within its first `k` bytes and
/// are not its last chunk.
pub open spec fn settled(c: ChunkerType, s: Seq<u8>, k: nat) -> nat
    decreases s.len(),
{
    if s.len() == 0 {
        0
    } else {
        let n = first_len(c, s);
        if 1 <= n < s.len() && n <= k {
            1 + settled(c, s.skip(n as int), (k - n) as nat)
        } else {
            0
        }
    }
}

/// Two streams that agree on their first `k` bytes share the leading chunks that the first one
/// closes with a cutpoint within those bytes: what follows position `k` cannot move them.
pub proof fn lemma_shared_prefix(c: ChunkerType, s: Seq<u8>, t: Seq<u8>, k: nat)
    requires
        k <= s.len(),
        k <= t.len(),
        s.take(k as int) == t.take(k as int),
    ensures
        settled(c, s, k) <= chunks(c, s).len(),
        settled(c, s, k) <= chunks(c, t).len(),
        chunks(c, s).take(settled(c, s, k) as int) == chunks(c, t).take(settled(c, s, k) as int),
    decreases s.len(),
{
    if s.len() == 0 {
        assert(chunks(c, s).take(0) =~= chunks(c, t).take(0));
    } else {
        lemma_first_chunk(c, s);
        let n = first_len(c, s);
        if n < s.len() && n <= k {
            let p = s.take(n as int);
            assert(t.take(n as int) =~= p) by {
                assert(s.take(k as int).take(n as int) =~= p);
                assert(t.take(k as int).take(n as int) =~= t.take(n as int));
            }
            lemma_chunks_front(c, t, n);
            let s2 = s.skip(n as int);
            let t2 = t.skip(n as int);
            assert(s2.take(k - n) =~= s.take(k as int).skip(n as int));
            assert(t2.take(k - n) =~= t.take(k as int).skip(n as int));
            lemma_shared_prefix(c, s2, t2, (k - n) as nat);
            let m = settled(c, s2, (k - n) as nat) as int;
            let a = seq![p] + chunks(c, s2);
            let b = seq![p] + chunks(c, t2);
            assert(a.take(m + 1) =~= seq![p] + chunks(c, s2).take(m));
            assert(b.take(m + 1) =~= seq![p] + chunks(c, t2).take(m));
        } else {
            assert(chunks(c, s).take(0) =~= chunks(c, t).take(0));
        }
    }
}

} // verus!
