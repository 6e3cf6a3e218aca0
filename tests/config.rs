use zvault::{split_repo_path, ChunkerType, ConfigError};

#[test]
fn parse_and_format_fastcdc_8() {
    let c = ChunkerType::from("fastcdc", 8192, 0).unwrap();
    assert_eq!(ChunkerType::from_string("fastcdc/8"), Ok(c));
    assert_eq!(c.to_string(), "fastcdc/8");
    assert_eq!(c.avg_size(), 8192);
    assert_eq!(c.name(), "fastcdc");
    assert_eq!(c.seed(), 0);
}

#[test]
fn missing_size_defaults_to_8_kib() {
    assert_eq!(ChunkerType::from_string("ae"), Ok(ChunkerType::Ae(8192)));
    assert_eq!(ChunkerType::from_string("rabin"), Ok(ChunkerType::Rabin((8192, 0))));
}

#[test]
fn parse_reads_plus_sign_and_large_sizes() {
    assert_eq!(ChunkerType::from_string("ae/+16"), Ok(ChunkerType::Ae(16384)));
    assert_eq!(ChunkerType::from_string("fastcdc/1024"), Ok(ChunkerType::FastCdc((1 << 20, 0))));
    assert_eq!(ChunkerType::from_string("ae/3"), Ok(ChunkerType::Ae(3072)));
}

#[test]
fn round_trip_of_format_and_parse() {
    let configs = [
        ChunkerType::Ae(8192),
        ChunkerType::Ae(3 * 1024),
        ChunkerType::Rabin((16384, 0)),
        ChunkerType::FastCdc((1024, 0)),
        ChunkerType::FastCdc((1 << 30, 0)),
    ];
    for c in configs.iter() {
        assert_eq!(ChunkerType::from_string(&c.to_string()), Ok(*c));
    }
}

#[test]
fn unknown_algorithm_is_refused() {
    assert_eq!(ChunkerType::from_string("zstd/8"), Err(ConfigError::UnknownAlgorithm));
    assert_eq!(ChunkerType::from("AE", 8192, 0), Err(ConfigError::UnknownAlgorithm));
    assert_eq!(ChunkerType::from("", 8192, 0), Err(ConfigError::UnknownAlgorithm));
}

#[test]
fn size_that_is_no_number_is_refused() {
    assert_eq!(ChunkerType::from_string("ae/x"), Err(ConfigError::SizeNotANumber));
    assert_eq!(ChunkerType::from_string("ae/"), Err(ConfigError::SizeNotANumber));
    assert_eq!(ChunkerType::from_string("ae/-8"), Err(ConfigError::SizeNotANumber));
    assert_eq!(ChunkerType::from_string("ae/8 "), Err(ConfigError::SizeNotANumber));
    assert_eq!(
        ChunkerType::from_string("ae/99999999999999999999999"),
        Err(ConfigError::SizeNotANumber)
    );
}

#[test]
fn size_out_of_range_is_refused() {
    assert_eq!(ChunkerType::from_string("ae/0"), Err(ConfigError::SizeOutOfRange));
    assert_eq!(ChunkerType::from("fastcdc", 0, 0), Err(ConfigError::SizeOutOfRange));
    assert_eq!(ChunkerType::from("ae", usize::MAX, 0), Err(ConfigError::SizeOutOfRange));
    let huge = format!("ae/{}", usize::MAX / 1024 + 1);
    assert_eq!(ChunkerType::from_string(&huge), Err(ConfigError::SizeOutOfRange));
}

#[test]
fn size_not_power_of_two_is_refused_for_hashing_chunkers() {
    assert_eq!(ChunkerType::from_string("rabin/3"), Err(ConfigError::SizeNotPowerOfTwo));
    assert_eq!(ChunkerType::from("fastcdc", 6000, 1), Err(ConfigError::SizeNotPowerOfTwo));
    assert_eq!(ChunkerType::from("ae", 6000, 1), Ok(ChunkerType::Ae(6000)));
}

#[test]
fn seeds_keep_their_widths() {
    let seed: u64 = 0x1_2345_6789;
    let r = ChunkerType::from("rabin", 4096, seed).unwrap();
    assert_eq!(r, ChunkerType::Rabin((4096, 0x2345_6789)));
    assert_eq!(r.seed(), 0x2345_6789);
    let f = ChunkerType::from("fastcdc", 4096, seed).unwrap();
    assert_eq!(f.seed(), seed);
    let a = ChunkerType::from("ae", 4096, seed).unwrap();
    assert_eq!(a, ChunkerType::Ae(4096));
    assert_eq!(a.seed(), 0);
    assert_eq!(r.name(), "rabin");
    assert_eq!(a.name(), "ae");
}

#[test]
fn format_uses_whole_kib() {
    assert_eq!(ChunkerType::Ae(10000).to_string(), "ae/9");
    assert_eq!(ChunkerType::Rabin((65536, 7)).to_string(), "rabin/64");
}

#[test]
fn config_error_messages() {
    assert_eq!(ConfigError::UnknownAlgorithm.message(), "Unsupported chunker type");
    assert_eq!(ConfigError::SizeNotANumber.message(), "Chunk size must be a number");
}

#[test]
fn split_repo_path_parts() {
    assert_eq!(split_repo_path("repo"), ("repo", None, None));
    assert_eq!(split_repo_path("repo::backup"), ("repo", Some("backup"), None));
    assert_eq!(split_repo_path("repo::backup::a/b"), ("repo", Some("backup"), Some("a/b")));
    assert_eq!(split_repo_path("r::b::c::d"), ("r", Some("b"), Some("c::d")));
    assert_eq!(split_repo_path("::"), ("", Some(""), None));
    assert_eq!(split_repo_path("a:::b"), ("a", Some(":b"), None));
    assert_eq!(split_repo_path("ä::ö"), ("ä", Some("ö"), None));
}
