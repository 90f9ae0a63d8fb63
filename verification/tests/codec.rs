use short_url::err::ShortError;
use short_url::{UrlEncoder, DEFAULT_ALPHABET, DEFAULT_BLOCK_SIZE, MIN_LENGTH};

fn default_encoder() -> UrlEncoder {
    UrlEncoder::new("mn6j2c4rv8bpygw95z7hsdaetxuk3fq", 24)
}

#[test]
fn encode_url() {
    let e = UrlEncoder::new("mn6j2c4rv8bpygw95z7hsdaetxuk3fq", 24);

    assert_eq!(String::from("867nv"), e.encode_url(1, 5));
}

#[test]
fn decode_url() {
    let e = UrlEncoder::new("mn6j2c4rv8bpygw95z7hsdaetxuk3fq", 24);

    assert_eq!(1, e.decode_url("867nv").unwrap());
}

#[test]
fn default_configuration_matches() {
    let e = UrlEncoder::new(DEFAULT_ALPHABET, DEFAULT_BLOCK_SIZE);

    assert_eq!(String::from("867nv"), e.encode_url(1, MIN_LENGTH));
    assert_eq!(1, e.decode_url("867nv").unwrap());
}

#[test]
fn round_trip_small_values() {
    let e = default_encoder();
    let values: Vec<u64> = vec![0, 1, 2, 5, 30, 31, 42, 961, 9999, 123456];
    for &x in &values {
        let s = e.encode_url(x, 5);
        assert_eq!(x, e.decode_url(&s).unwrap());
        let t = e.encode_url(x, 0);
        assert_eq!(x, e.decode_url(&t).unwrap());
    }
}

#[test]
fn round_trip_block_boundary_and_high_bits() {
    let e = default_encoder();
    // the mask of a 24-bit block, the first value above it, and values
    // whose high bits must pass through the permutation unchanged
    let values: Vec<u64> = vec![
        (1u64 << 24) - 1,
        1u64 << 24,
        (1u64 << 24) + 1,
        (1u64 << 24) + 3,
        1u64 << 40,
        u64::MAX - 1,
        u64::MAX,
    ];
    for &x in &values {
        let s = e.encode_url(x, 5);
        assert_eq!(x, e.decode_url(&s).unwrap());
    }
}

#[test]
fn round_trip_with_large_min_length() {
    let e = default_encoder();
    let s = e.encode_url(1, 10);
    assert_eq!(10, s.chars().count());
    assert_eq!(1, e.decode_url(&s).unwrap());
}

#[test]
fn encode_zero_without_padding() {
    let e = default_encoder();

    assert_eq!(String::from("m"), e.encode_url(0, 0));
    assert_eq!(0, e.decode_url("m").unwrap());
}

#[test]
fn padding_uses_first_symbol() {
    let e = default_encoder();

    assert_eq!(String::from("mmmmm867nv"), e.encode_url(1, 10));
    assert_eq!(String::from("mmmmm"), e.encode_url(0, 5));
}

#[test]
fn minimum_length_guarantee() {
    let e = default_encoder();
    let lengths: Vec<usize> = vec![0, 1, 5, 8, 13];
    for &m in &lengths {
        for &x in &[0u64, 1, 31, 1000, (1u64 << 24) - 1] {
            let s = e.encode_url(x, m);
            assert!(s.chars().count() >= m);
        }
    }
}

#[test]
fn five_symbols_for_values_within_block() {
    let e = default_encoder();
    // a scrambled 24-bit value stays below 31^5, so the output is exactly
    // five symbols once padded
    let values: Vec<u64> = vec![0, 1, 9999, 1 << 23, (1u64 << 24) - 1];
    for &x in &values {
        assert_eq!(5, e.encode_url(x, 5).chars().count());
    }
}

#[test]
fn permutation_scrambles_within_block() {
    let e = default_encoder();
    // bit 0 of the value lands on bit 23, so encoding 1 renders 1 << 23
    // in base 31 rather than the single symbol at index 1
    assert_ne!(String::from("mmmmn"), e.encode_url(1, 5));
    assert_eq!(String::from("867nv"), e.encode_url(1, 5));
}

#[test]
fn unknown_symbol_is_rejected() {
    let e = default_encoder();

    assert_eq!(Err(ShortError::InvalidString), e.decode_url("867nv!"));
    assert_eq!(Err(ShortError::InvalidString), e.decode_url("!"));
    assert_eq!(Err(ShortError::InvalidString), e.decode_url("867NV"));
    assert_eq!(Err(ShortError::InvalidString), e.decode_url("mmmm mmmm"));
}

#[test]
fn unknown_symbol_wins_over_overflow() {
    let e = default_encoder();
    // the numeric overflow sits left of the foreign symbol, yet the
    // foreign symbol decides the error
    let s = format!("{}{}", "q".repeat(20), "!");
    assert_eq!(Err(ShortError::InvalidString), e.decode_url(&s));
}

#[test]
fn oversized_value_is_rejected() {
    let e = default_encoder();
    // fifteen copies of the highest digit exceed the 64-bit working width
    let s = "q".repeat(15);
    assert_eq!(Err(ShortError::InvalidNumber), e.decode_url(&s));
}

#[test]
fn empty_string_decodes_to_zero() {
    let e = default_encoder();

    assert_eq!(0, e.decode_url("").unwrap());
}

#[test]
fn error_messages() {
    assert_eq!("Not a valid string to decode", ShortError::InvalidString.message());
    assert_eq!("Not a valid number to decode", ShortError::InvalidNumber.message());
}
