use compressor::codec::Compressor;
use compressor::codec::CompressorStrategy;
use compressor::codec::NoCompression;
use compressor::codec::SimpleCompression;
use compressor::codec::Strategy;
use compressor::rle::ParseError;

#[test]
fn identity_compress_is_pass_through() {
    let st = NoCompression;
    assert_eq!(st.compress("aaabbc"), "aaabbc");
}

#[test]
fn identity_decompress_is_pass_through() {
    let st = NoCompression;
    assert_eq!(st.decompress("a3b2c1"), Ok("a3b2c1".to_string()));
}

#[test]
fn identity_compress_is_idempotent() {
    let st = NoCompression;
    let once = st.compress("some text");
    let twice = st.compress(&once);
    assert_eq!(twice, once);
}

#[test]
fn identity_decompress_is_idempotent() {
    let st = NoCompression;
    let once = st.decompress("some text").unwrap();
    let twice = st.decompress(&once).unwrap();
    assert_eq!(twice, once);
}

#[test]
fn simple_strategy_round_trip() {
    let st = SimpleCompression;
    let encoded = st.compress("aaabbc");
    assert_eq!(encoded, "a3b2c1");
    assert_eq!(st.decompress(&encoded), Ok("aaabbc".to_string()));
}

#[test]
fn context_forwards_to_run_length() {
    let c = Compressor::new(Strategy::SimpleCompression(SimpleCompression));
    assert_eq!(c.compress("aaabbc"), "a3b2c1");
    assert_eq!(c.decompress("a3b2c1"), Ok("aaabbc".to_string()));
}

#[test]
fn context_after_swap_applies_no_rle() {
    let mut c = Compressor::new(Strategy::SimpleCompression(SimpleCompression));
    c.set_strategy(Strategy::NoCompression(NoCompression));
    assert_eq!(c.compress("aaabbc"), "aaabbc");
    assert_eq!(c.decompress("a3b2c1"), Ok("a3b2c1".to_string()));
}

#[test]
fn context_swap_mid_session() {
    let mut c = Compressor::new(Strategy::SimpleCompression(SimpleCompression));
    assert_eq!(c.compress("aabb"), "a2b2");
    c.set_strategy(Strategy::NoCompression(NoCompression));
    assert_eq!(c.compress("aabb"), "aabb");
}

#[test]
fn context_propagates_decode_error_unchanged() {
    let c = Compressor::new(Strategy::SimpleCompression(SimpleCompression));
    assert_eq!(c.decompress("a"), Err(ParseError::MissingCount { pos: 0 }));
}
