use std::collections::HashSet;

use zvault::{chunk_all, chunk_reads, ChunkStep, Chunker, ChunkerStatus, ChunkerType, IChunker};

const KIB: usize = 1024;
const MIB: usize = 1024 * 1024;

/// Pseudorandom bytes: the splitmix64 outputs for `seed`, little-endian.
fn random_bytes(seed: u64, len: usize) -> Vec<u8> {
    let mut state = seed;
    let mut out = Vec::with_capacity(len + 8);
    while out.len() < len {
        state = state.wrapping_add(0x9E37_79B9_7F4A_7C15);
        let mut z = state;
        z = (z ^ (z >> 30)).wrapping_mul(0xBF58_476D_1CE4_E5B9);
        z = (z ^ (z >> 27)).wrapping_mul(0x94D0_49BB_1331_11EB);
        z ^= z >> 31;
        out.extend_from_slice(&z.to_le_bytes());
    }
    out.truncate(len);
    out
}

fn config(text: &str) -> ChunkerType {
    ChunkerType::from_string(text).unwrap()
}

fn boundaries(lens: &[usize]) -> Vec<usize> {
    let mut pos = 0;
    lens.iter()
        .map(|l| {
            pos += l;
            pos
        })
        .collect()
}

fn pieces<'a>(data: &'a [u8], lens: &[usize]) -> Vec<&'a [u8]> {
    let mut pos = 0;
    lens.iter()
        .map(|l| {
            let p = &data[pos..pos + l];
            pos += l;
            p
        })
        .collect()
}

#[derive(Debug, PartialEq)]
enum StreamError {
    Read,
}

/// Runs one chunk of the stream that `reads` delivers, as a caller of `step` does: `pending`
/// holds the bytes of the last read that the previous chunk did not take.
fn chunk_once(
    c: &mut Chunker,
    pending: &mut Vec<u8>,
    reads: &mut dyn Iterator<Item = Result<Vec<u8>, ()>>,
    sink: &mut Vec<u8>,
) -> Result<ChunkerStatus, StreamError> {
    loop {
        if pending.is_empty() {
            match reads.next() {
                Some(Ok(block)) => *pending = block,
                Some(Err(())) => return Err(StreamError::Read),
                None => {}
            }
        }
        match c.step(pending) {
            ChunkStep::Finished => return Ok(ChunkerStatus::Finished),
            ChunkStep::Cut(n) => {
                sink.extend_from_slice(&pending[..n]);
                pending.drain(..n);
                return Ok(ChunkerStatus::Continue);
            }
            ChunkStep::More => {
                sink.extend_from_slice(pending);
                pending.clear();
            }
        }
    }
}

#[test]
fn fastcdc_on_zero_bytes_cuts_at_max_size() {
    let data = vec![0u8; 16 * MIB];
    let lens = chunk_all(config("fastcdc/8"), &data);
    assert!(lens.len() == 512 || lens.len() == 513);
    for l in &lens[..512] {
        assert_eq!(*l, 32 * KIB);
    }
    assert_eq!(lens.iter().sum::<usize>(), 16 * MIB);
}

#[test]
fn rabin_on_random_bytes_keeps_size_bounds() {
    let data = random_bytes(0, 10 * MIB);
    let lens = chunk_all(config("rabin/8"), &data);
    assert!(lens.len() >= 50);
    assert_eq!(lens.iter().sum::<usize>(), data.len());
    for l in &lens[..lens.len() - 1] {
        assert!(*l >= 2 * KIB && *l <= 32 * KIB, "length {}", l);
    }
    // The Rabin policy cuts with chance 1/avg per byte (mask avg - 1) from min_size on and
    // forces a cut at max_size, so on random bytes the expected length is
    // min + avg * (1 - e^(-(max - min) / avg)), about 1.23 * avg rather than avg itself.
    // The mean is held to 15% of that value.
    let (avg, min, max) = (8192.0f64, 2048.0f64, 32768.0f64);
    let expected = min + avg * (1.0 - (-(max - min) / avg).exp());
    let mean = data.len() as f64 / lens.len() as f64;
    assert!((mean - expected).abs() <= 0.15 * expected, "mean {} expected {}", mean, expected);
}

#[test]
fn ae_boundaries_in_prefix_do_not_depend_on_suffix() {
    let prefix = random_bytes(1, MIB);
    let mut a = prefix.clone();
    a.extend(random_bytes(2, MIB));
    let mut b = prefix.clone();
    b.extend(random_bytes(3, MIB));
    let c = config("ae/8");
    let ba: Vec<usize> = boundaries(&chunk_all(c, &a)).into_iter().filter(|p| *p <= MIB).collect();
    let bb: Vec<usize> = boundaries(&chunk_all(c, &b)).into_iter().filter(|p| *p <= MIB).collect();
    assert!(ba.len() > 10);
    assert_eq!(ba, bb);
}

#[test]
fn insertion_keeps_most_chunks() {
    let original = random_bytes(0, 10 * MIB);
    let mut edited = original[..5 * MIB].to_vec();
    edited.extend(random_bytes(99, KIB));
    edited.extend_from_slice(&original[5 * MIB..]);
    for text in ["ae/8", "rabin/8", "fastcdc/8"].iter() {
        let c = config(text);
        let la = chunk_all(c, &original);
        let lb = chunk_all(c, &edited);
        let after: HashSet<&[u8]> = pieces(&edited, &lb).into_iter().collect();
        let before = pieces(&original, &la);
        let kept = before.iter().filter(|p| after.contains(*p)).count();
        assert!(kept * 10 >= before.len() * 9, "{}: kept {} of {}", text, kept, before.len());
    }
}

#[test]
fn chunks_reconstruct_the_input() {
    let data = random_bytes(5, 300 * KIB + 17);
    for text in ["ae/4", "rabin/4", "fastcdc/4"].iter() {
        let lens = chunk_all(config(text), &data);
        let joined: Vec<u8> = pieces(&data, &lens).concat();
        assert_eq!(joined, data);
    }
}

#[test]
fn chunk_sizes_stay_within_bounds() {
    let data = random_bytes(6, 2 * MIB);
    for text in ["ae/4", "rabin/4", "fastcdc/4"].iter() {
        let lens = chunk_all(config(text), &data);
        let (n, last) = (lens.len(), lens.len() - 1);
        assert!(n > 1);
        for (i, l) in lens.iter().enumerate() {
            assert!(*l >= 1 && *l <= 16 * KIB);
            if i < last {
                assert!(*l >= KIB);
            }
        }
    }
}

#[test]
fn repeated_runs_give_the_same_chunks() {
    let data = random_bytes(7, MIB);
    for text in ["ae/8", "rabin/8", "fastcdc/8"].iter() {
        let c = config(text);
        assert_eq!(chunk_all(c, &data), chunk_all(c, &data));
    }
}

#[test]
fn one_byte_reads_give_the_same_chunks() {
    let data = random_bytes(8, 200 * KIB);
    let single: Vec<Vec<u8>> = data.iter().map(|b| vec![*b]).collect();
    let odd: Vec<Vec<u8>> = data.chunks(4093).map(|p| p.to_vec()).collect();
    for text in ["ae/4", "rabin/4", "fastcdc/4"].iter() {
        let c = config(text);
        let whole = chunk_all(c, &data);
        assert_eq!(chunk_reads(c, &single), whole);
        assert_eq!(chunk_reads(c, &odd), whole);
        assert_eq!(chunk_reads(c, &vec![data.clone()]), whole);
    }
}

#[test]
fn empty_input_has_no_chunks() {
    for text in ["ae/8", "rabin/8", "fastcdc/8"].iter() {
        assert!(chunk_all(config(text), &[]).is_empty());
        assert!(chunk_reads(config(text), &vec![Vec::new(), Vec::new()]).is_empty());
    }
}

#[test]
fn seeds_change_the_boundaries() {
    let data = random_bytes(9, MIB);
    let a = chunk_all(ChunkerType::from("fastcdc", 8192, 1).unwrap(), &data);
    let b = chunk_all(ChunkerType::from("fastcdc", 8192, 2).unwrap(), &data);
    assert_ne!(a, b);
    let a = chunk_all(ChunkerType::from("rabin", 8192, 1).unwrap(), &data);
    let b = chunk_all(ChunkerType::from("rabin", 8192, 2).unwrap(), &data);
    assert_ne!(a, b);
}

#[test]
fn stream_of_steps_matches_chunk_all() {
    let data = random_bytes(10, 500 * KIB);
    let c = config("rabin/8");
    let mut chunker = c.create();
    assert_eq!(chunker.get_type(), c);
    let mut reads = data.chunks(3000).map(|p| Ok(p.to_vec())).collect::<Vec<_>>().into_iter();
    let mut pending = Vec::new();
    let mut lens = Vec::new();
    loop {
        let mut sink = Vec::new();
        let status = chunk_once(&mut chunker, &mut pending, &mut reads, &mut sink).unwrap();
        if !sink.is_empty() {
            lens.push(sink.len());
        }
        if status == ChunkerStatus::Finished {
            break;
        }
    }
    assert_eq!(lens, chunk_all(c, &data));
}

#[test]
fn read_failure_stops_the_stream() {
    let data = random_bytes(11, 64 * KIB);
    let c = config("fastcdc/8");
    let mut chunker = c.create();
    let mut reads = vec![Ok(data[..1000].to_vec()), Ok(data[1000..2000].to_vec()), Err(())]
        .into_iter();
    let mut pending = Vec::new();
    let mut sink = Vec::new();
    let r = chunk_once(&mut chunker, &mut pending, &mut reads, &mut sink);
    assert_eq!(r, Err(StreamError::Read));
    assert!(sink.len() <= 2000);
    assert_eq!(&sink[..], &data[..sink.len()]);
}

#[test]
fn scan_reports_cut_offsets() {
    let c = ChunkerType::Ae(8);
    let mut chunker = c.create();
    let data = vec![0u8; 100];
    // AE with an average of 8: the window is 4 bytes; a run of zeros never raises the
    // maximum, so each chunk ends at position 4 (five bytes).
    assert_eq!(chunker.scan(&data, 0), Some(5));
    assert_eq!(chunker.scan(&data, 5), Some(5));
    assert_eq!(chunk_all(c, &data[..12]), vec![5, 5, 2]);
}

#[test]
fn forced_cut_at_max_size() {
    let data = vec![0u8; 40000];
    assert_eq!(chunk_all(ChunkerType::FastCdc((4096, 0)), &data), vec![16384, 16384, 7232]);
}

#[test]
fn rabin_boundaries_follow_the_reduced_polynomial_hash() {
    // Expected lengths computed independently from h <- h * x^8 + (b ^ seed) - out, modulo
    // x^32 + x^22 + x^2 + x + 1, with out = (b_{i-64} ^ seed) * x^512.
    let data: Vec<u8> = (0..300u32).map(|i| ((i * 37 + 11) % 256) as u8).collect();
    assert_eq!(
        chunk_all(ChunkerType::Rabin((16, 0)), &data),
        vec![11, 8, 6, 64, 12, 7, 9, 22, 33, 33, 9, 22, 8, 30, 24, 2]
    );
    assert_eq!(
        chunk_all(ChunkerType::Rabin((16, 0x5A5A_5A5A)), &data),
        vec![8, 23, 5, 21, 17, 17, 5, 26, 10, 21, 52, 19, 7, 5, 6, 47, 10, 1]
    );
    assert_eq!(chunk_all(ChunkerType::Rabin((64, 7)), &data), vec![155, 35, 40, 59, 11]);
}

#[test]
fn create_gives_the_configured_variant() {
    assert!(matches!(ChunkerType::Ae(8192).create(), Chunker::Ae(_)));
    assert!(matches!(ChunkerType::Rabin((8192, 3)).create(), Chunker::Rabin(_)));
    assert!(matches!(ChunkerType::FastCdc((8192, 3)).create(), Chunker::FastCdc(_)));
    assert_eq!(ChunkerType::Rabin((8192, 3)).create().get_type(), ChunkerType::Rabin((8192, 3)));
}
