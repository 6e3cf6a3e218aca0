//! The identity of a chunker: algorithm, average chunk size and seed.
use vstd::prelude::*;
use vstd::string::StrSliceExecFns;
use vstd::string::StringExecFns;

use crate::text::{decimal, decimal_string, find_char, index_from, parse_number, parse_usize, str_eq};

verus! {

/// The average size, in KiB, that the textual form implies when it names none.
pub const DEFAULT_KIB: usize = 8;

/// The configuration that an algorithm name, average size and seed describe, if the name is
/// one of `ae`, `rabin`, `fastcdc`. Rabin keeps the low 32 bits of the seed; AE drops it.
pub open spec fn named(name: Seq<char>, avg: usize, seed: u64) -> Option<ChunkerType> {
    if name == ChunkerType::Ae(avg).spec_name() {
        Some(ChunkerType::Ae(avg))
    } else if name == ChunkerType::Rabin((avg, seed as u32)).spec_name() {
        Some(ChunkerType::Rabin((avg, seed as u32)))
    } else if name == ChunkerType::FastCdc((avg, seed)).spec_name() {
        Some(ChunkerType::FastCdc((avg, seed)))
    } else {
        None
    }
}

/// The result of `ChunkerType::from`: an unknown name is refused first, then a size that does
/// not suit the algorithm.
pub open spec fn spec_from(name: Seq<char>, avg: usize, seed: u64) -> Result<
    ChunkerType,
    ConfigError,
> {
    match named(name, avg, seed) {
        None => Err(ConfigError::UnknownAlgorithm),
        Some(c) => match c.size_error() {
            Some(e) => Err(e),
            None => Ok(c),
        },
    }
}

/// The result of parsing the textual form `<name>/<kib>` or `<name>`: the size is read as a
/// decimal number of KiB (8 when absent), and the seed is 0.
pub open spec fn spec_parse(t: Seq<char>) -> Result<ChunkerType, ConfigError> {
    match index_from(t, '/', 0) {
        None => spec_from(t, (DEFAULT_KIB * 1024) as usize, 0),
        Some(p) => match parse_usize(t.skip((p + 1) as int)) {
            None => Err(ConfigError::SizeNotANumber),
            Some(kib) => if kib * 1024 > usize::MAX {
                Err(ConfigError::SizeOutOfRange)
            } else {
                spec_from(t.take(p as int), (kib * 1024) as usize, 0)
            },
        },
    }
}

/// The textual form of a configuration: its name, a slash, and its average size in whole KiB.
pub open spec fn spec_format(c: ChunkerType) -> Seq<char> {
    c.spec_name() + seq!['/'] + decimal(c.avg() / 1024)
}

/// The largest average chunk size that a configuration may name, so that every derived size
/// (up to five times the average) fits in `usize`.
pub const MAX_AVG_SIZE: usize = usize::MAX / 8;

/// Whether `n` is a power of two.
pub open spec fn is_pow2(n: nat) -> bool
    decreases n,
{
    if n <= 1 {
        n == 1
    } else {
        n % 2 == 0 && is_pow2(n / 2)
    }
}

/// The base-2 logarithm of `n`, rounded down (0 for 0 and 1).
pub open spec fn log2(n: nat) -> nat
    decreases n,
{
    if n <= 1 {
        0
    } else {
        1 + log2(n / 2)
    }
}

/// No cutpoint may be emitted before a chunk holds this many bytes.
pub open spec fn min_size(avg: nat) -> nat {
    avg / 4
}

/// A cutpoint is forced once a chunk holds this many bytes.
pub open spec fn max_size(avg: nat) -> nat {
    avg * 4
}

/// Why a configuration was refused.
#[derive(Debug, Clone, Copy, PartialEq, Eq, Structural)]
pub enum ConfigError {
    /// The algorithm name is none of `ae`, `rabin`, `fastcdc`.
    UnknownAlgorithm,
    /// The size in the textual form is not a decimal number.
    SizeNotANumber,
    /// The average size is zero or larger than `MAX_AVG_SIZE`.
    SizeOutOfRange,
    /// Rabin and FastCDC need an average size that is a power of two.
    SizeNotPowerOfTwo,
}

impl ConfigError {
    /// A human-readable description of the error.
    pub open spec fn spec_message(&self) -> Seq<char> {
        match self {
            ConfigError::UnknownAlgorithm => "Unsupported chunker type"@,
            ConfigError::SizeNotANumber => "Chunk size must be a number"@,
            ConfigError::SizeOutOfRange => "Chunk size is out of range"@,
            ConfigError::SizeNotPowerOfTwo => "Chunk size must be a power of two"@,
        }
    }

    /// A human-readable description of the error.
    pub fn message(&self) -> (r: &'static str)
        ensures
            r@ == self.spec_message(),
    {
        match self {
            ConfigError::UnknownAlgorithm => "Unsupported chunker type",
            ConfigError::SizeNotANumber => "Chunk size must be a number",
            ConfigError::SizeOutOfRange => "Chunk size is out of range",
            ConfigError::SizeNotPowerOfTwo => "Chunk size must be a power of two",
        }
    }
}

/// The chunking algorithm with its parameters: average chunk size and, where used, seed.
#[derive(Debug, Clone, Copy, Eq)]
pub enum ChunkerType {
    Ae(usize),
    Rabin((usize, u32)),
    FastCdc((usize, u64)),
}

impl PartialEq for ChunkerType {
    fn eq(&self, other: &ChunkerType) -> (r: bool) {
        match (*self, *other) {
            (ChunkerType::Ae(a), ChunkerType::Ae(b)) => a == b,
            (ChunkerType::Rabin((a, s)), ChunkerType::Rabin((b, t))) => a == b && s == t,
            (ChunkerType::FastCdc((a, s)), ChunkerType::FastCdc((b, t))) => a == b && s == t,
            _ => false,
        }
    }
}

impl vstd::std_specs::cmp::PartialEqSpecImpl for ChunkerType {
    open spec fn obeys_eq_spec() -> bool {
        true
    }

    open spec fn eq_spec(&self, other: &ChunkerType) -> bool {
        *self == *other
    }
}

/// Whether `n` is a power of two.
pub fn is_power_of_two(n: usize) -> (r: bool)
    ensures
        r == is_pow2(n as nat),
{
    let mut m: usize = n;
    while m > 1 && m % 2 == 0
        invariant
            is_pow2(m as nat) == is_pow2(n as nat),
        decreases m,
    {
        m = m / 2;
    }
    m == 1
}

impl ChunkerType {
    /// The average chunk size.
    pub open spec fn avg(self) -> nat {
        match self {
            ChunkerType::Ae(size) => size as nat,
            ChunkerType::Rabin((size, _)) => size as nat,
            ChunkerType::FastCdc((size, _)) => size as nat,
        }
    }

    /// The seed, widened to 64 bits; AE has none and reads as 0.
    pub open spec fn spec_seed(self) -> u64 {
        match self {
            ChunkerType::Ae(_) => 0,
            ChunkerType::Rabin((_, seed)) => seed as u64,
            ChunkerType::FastCdc((_, seed)) => seed,
        }
    }

    /// The algorithm's name.
    pub open spec fn spec_name(self) -> Seq<char> {
        match self {
            ChunkerType::Ae(_) => seq!['a', 'e'],
            ChunkerType::Rabin(_) => seq!['r', 'a', 'b', 'i', 'n'],
            ChunkerType::FastCdc(_) => seq!['f', 'a', 's', 't', 'c', 'd', 'c'],
        }
    }

    /// Whether the average size suits the algorithm: positive, at most `MAX_AVG_SIZE`, and a
    /// power of two for Rabin and FastCDC.
    pub open spec fn valid(self) -> bool {
        &&& 0 < self.avg() <= MAX_AVG_SIZE
        &&& (self is Ae || is_pow2(self.avg()))
    }

    /// The error that the average size gives for this algorithm, if any.
    pub open spec fn size_error(self) -> Option<ConfigError> {
        if !(0 < self.avg() <= MAX_AVG_SIZE) {
            Some(ConfigError::SizeOutOfRange)
        } else if !(self is Ae) && !is_pow2(self.avg()) {
            Some(ConfigError::SizeNotPowerOfTwo)
        } else {
            None
        }
    }

    /// Checks the average size of a configuration.
    pub fn check(self) -> (r: Result<Self, ConfigError>)
        ensures
            match self.size_error() {
                Some(e) => r == Err::<Self, ConfigError>(e),
                None => r == Ok::<Self, ConfigError>(self),
            },
            r is Ok <==> self.valid(),
    {
        let avg = self.avg_size();
        if avg == 0 || avg > MAX_AVG_SIZE {
            return Err(ConfigError::SizeOutOfRange);
        }
        match self {
            ChunkerType::Ae(_) => Ok(self),
            _ => {
                if is_power_of_two(avg) {
                    Ok(self)
                } else {
                    Err(ConfigError::SizeNotPowerOfTwo)
                }
            },
        }
    }

    /// The configuration of algorithm `name` with average size `avg_size` and, where the
    /// algorithm uses one, seed `seed`.
    pub fn from(name: &str, avg_size: usize, seed: u64) -> (r: Result<Self, ConfigError>)
        ensures
            r == spec_from(name@, avg_size, seed),
    {
        proof {
            reveal_strlit("ae");
            reveal_strlit("rabin");
            reveal_strlit("fastcdc");
        }
        assert("ae"@ =~= ChunkerType::Ae(avg_size).spec_name());
        assert("rabin"@ =~= ChunkerType::Rabin((avg_size, seed as u32)).spec_name());
        assert("fastcdc"@ =~= ChunkerType::FastCdc((avg_size, seed)).spec_name());
        if str_eq(name, "ae") {
            ChunkerType::Ae(avg_size).check()
        } else if str_eq(name, "rabin") {
            ChunkerType::Rabin((avg_size, seed as u32)).check()
        } else if str_eq(name, "fastcdc") {
            ChunkerType::FastCdc((avg_size, seed)).check()
        } else {
            Err(ConfigError::UnknownAlgorithm)
        }
    }

    /// Parses the textual form `<name>/<kib>`, or `<name>` for an average of 8 KiB; the seed
    /// is 0.
    pub fn from_string(name: &str) -> (r: Result<Self, ConfigError>)
        ensures
            r == spec_parse(name@),
    {
        let n = name.unicode_len();
        match find_char(name, '/') {
            Some(pos) => {
                let size_text = name.substring_char(pos + 1, n);
                assert(size_text@ =~= name@.skip(pos + 1));
                match parse_number(size_text) {
                    None => Err(ConfigError::SizeNotANumber),
                    Some(kib) => {
                        if kib > usize::MAX / 1024 {
                            assert(kib * 1024 > usize::MAX);
                            Err(ConfigError::SizeOutOfRange)
                        } else {
                            let algo = name.substring_char(0, pos);
                            assert(algo@ =~= name@.take(pos as int));
                            Self::from(algo, kib * 1024, 0)
                        }
                    },
                }
            },
            None => Self::from(name, DEFAULT_KIB * 1024, 0),
        }
    }

    /// The textual form `<name>/<kib>`, with the average size in whole KiB.
    pub fn to_string(&self) -> (r: String)
        ensures
            r@ == spec_format(*self),
    {
        let mut s = String::from_str(self.name());
        proof {
            reveal_strlit("/");
        }
        s.append("/");
        let digits = decimal_string(self.avg_size() / 1024);
        s.append(digits.as_str());
        s
    }

    /// The average chunk size.
    pub fn avg_size(&self) -> (r: usize)
        ensures
            r as nat == self.avg(),
    {
        match *self {
            ChunkerType::Ae(size) => size,
            ChunkerType::Rabin((size, _seed)) => size,
            ChunkerType::FastCdc((size, _seed)) => size,
        }
    }

    /// The seed; 0 for AE, which has none.
    pub fn seed(&self) -> (r: u64)
        ensures
            r == self.spec_seed(),
    {
        match *self {
            ChunkerType::Ae(_size) => 0,
            ChunkerType::Rabin((_size, seed)) => seed as u64,
            ChunkerType::FastCdc((_size, seed)) => seed,
        }
    }

    /// The algorithm's name.
    pub fn name(&self) -> (r: &'static str)
        ensures
            r@ == self.spec_name(),
    {
        proof {
            reveal_strlit("ae");
            reveal_strlit("rabin");
            reveal_strlit("fastcdc");
        }
        match *self {
            ChunkerType::Ae(_size) => "ae",
            ChunkerType::Rabin((_size, _seed)) => "rabin",
            ChunkerType::FastCdc((_size, _seed)) => "fastcdc",
        }
    }
}

} // verus!
