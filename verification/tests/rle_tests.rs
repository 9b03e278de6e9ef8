use compressor::rle::ParseError;
use compressor::rle::rle_compress;
use compressor::rle::rle_decompress;

#[test]
fn encode_basic() {
    assert_eq!(rle_compress("aaabbc"), "a3b2c1");
}

#[test]
fn decode_basic() {
    assert_eq!(rle_decompress("a3b2c1"), Ok("aaabbc".to_string()));
}

#[test]
fn encode_empty() {
    assert_eq!(rle_compress(""), "");
}

#[test]
fn decode_empty() {
    assert_eq!(rle_decompress(""), Ok("".to_string()));
}

#[test]
fn encode_single() {
    assert_eq!(rle_compress("x"), "x1");
}

#[test]
fn decode_single() {
    assert_eq!(rle_decompress("x1"), Ok("x".to_string()));
}

#[test]
fn encode_multi_digit_count() {
    assert_eq!(rle_compress("aaaaaaaaaaaa"), "a12");
}

#[test]
fn decode_multi_digit_count() {
    assert_eq!(rle_decompress("a12"), Ok("aaaaaaaaaaaa".to_string()));
}

#[test]
fn encode_no_adjacent_repeats() {
    assert_eq!(rle_compress("abc"), "a1b1c1");
}

#[test]
fn encode_counts_unicode_symbols_not_bytes() {
    assert_eq!(rle_compress("\u{e9}\u{e9}\u{e9}"), "\u{e9}3");
    assert_eq!(rle_decompress("\u{e9}3"), Ok("\u{e9}\u{e9}\u{e9}".to_string()));
}

#[test]
fn round_trip_mixed_runs() {
    let input = "wwwwbbbwwbbbbbbw";
    let encoded = rle_compress(input);
    assert_eq!(encoded, "w4b3w2b6w1");
    assert_eq!(rle_decompress(&encoded), Ok(input.to_string()));
}

#[test]
fn decode_count_zero_yields_nothing() {
    assert_eq!(rle_decompress("a0"), Ok("".to_string()));
    assert_eq!(rle_decompress("a0b2"), Ok("bb".to_string()));
}

#[test]
fn decode_missing_count_at_start() {
    assert_eq!(rle_decompress("a"), Err(ParseError::MissingCount { pos: 0 }));
}

#[test]
fn decode_missing_count_reports_position() {
    assert_eq!(rle_decompress("a3b"), Err(ParseError::MissingCount { pos: 2 }));
}

#[test]
fn decode_count_overflow() {
    assert_eq!(
        rle_decompress("a99999999999999999999999999"),
        Err(ParseError::CountOverflow { pos: 0 })
    );
}

#[test]
fn decode_count_overflow_reports_position() {
    assert_eq!(
        rle_decompress("x2y111111111111111111111111111"),
        Err(ParseError::CountOverflow { pos: 2 })
    );
}

#[test]
fn decode_returns_no_partial_output_on_error() {
    let r = rle_decompress("a2b");
    assert_eq!(r, Err(ParseError::MissingCount { pos: 2 }));
}
