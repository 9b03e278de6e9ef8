//! The codec strategy interface, its two implementations, and the context
//! that holds a swappable strategy and forwards calls to it.

use vstd::prelude::*;

use crate::rle::ParseError;
use crate::rle::digit_free;
use crate::rle::lemma_rle_round_trip;
use crate::rle::rle_compress;
use crate::rle::rle_decode;
use crate::rle::rle_decompress;
use crate::rle::rle_encode;

verus! {

/// Relates an executable decode result to the one the strategy's
/// specification prescribes: same success or failure, same contents.
pub open spec fn decode_result_matches(
    spec_out: Result<Seq<char>, ParseError>,
    out: Result<String, ParseError>,
) -> bool {
    match out {
        Ok(o) => spec_out == Ok::<Seq<char>, ParseError>(o@),
        Err(e) => spec_out == Err::<Seq<char>, ParseError>(e),
    }
}

/// A compression strategy: a pair of encode/decode operations whose exact
/// behaviour is given by the two specification functions.
pub trait CompressorStrategy {
    /// What this strategy's `compress` returns.
    spec fn spec_compress(&self, input: Seq<char>) -> Seq<char>;

    /// What this strategy's `decompress` returns: the decoded text, or the
    /// error it reports on malformed input.
    spec fn spec_decompress(&self, input: Seq<char>) -> Result<Seq<char>, ParseError>;

    /// Encodes `input`.
    fn compress(&self, input: &str) -> (out: String)
        ensures
            out@ == self.spec_compress(input@),
    ;

    /// Decodes `input`, or reports why it is malformed.
    fn decompress(&self, input: &str) -> (out: Result<String, ParseError>)
        ensures
            decode_result_matches(self.spec_decompress(input@), out),
    ;
}

/// The pass-through strategy: both directions return the input unchanged.
pub struct NoCompression;

impl CompressorStrategy for NoCompression {
    open spec fn spec_compress(&self, input: Seq<char>) -> Seq<char> {
        input
    }

    open spec fn spec_decompress(&self, input: Seq<char>) -> Result<Seq<char>, ParseError> {
        Ok(input)
    }

    fn compress(&self, input: &str) -> (out: String) {
        input.to_owned()
    }

    fn decompress(&self, input: &str) -> (out: Result<String, ParseError>) {
        Ok(input.to_owned())
    }
}

/// The run-length strategy: `"aaabbc"` encodes to `"a3b2c1"`.
pub struct SimpleCompression;

impl CompressorStrategy for SimpleCompression {
    open spec fn spec_compress(&self, input: Seq<char>) -> Seq<char> {
        rle_encode(input)
    }

    open spec fn spec_decompress(&self, input: Seq<char>) -> Result<Seq<char>, ParseError> {
        rle_decode(input)
    }

    fn compress(&self, input: &str) -> (out: String) {
        rle_compress(input)
    }

    fn decompress(&self, input: &str) -> (out: Result<String, ParseError>) {
        rle_decompress(input)
    }
}

/// One of the available strategies, as a single value the context can hold
/// and replace at runtime.
pub enum Strategy {
    NoCompression(NoCompression),
    SimpleCompression(SimpleCompression),
}

impl CompressorStrategy for Strategy {
    open spec fn spec_compress(&self, input: Seq<char>) -> Seq<char> {
        match self {
            Strategy::NoCompression(st) => st.spec_compress(input),
            Strategy::SimpleCompression(st) => st.spec_compress(input),
        }
    }

    open spec fn spec_decompress(&self, input: Seq<char>) -> Result<Seq<char>, ParseError> {
        match self {
            Strategy::NoCompression(st) => st.spec_decompress(input),
            Strategy::SimpleCompression(st) => st.spec_decompress(input),
        }
    }

    fn compress(&self, input: &str) -> (out: String) {
        match self {
            Strategy::NoCompression(st) => st.compress(input),
            Strategy::SimpleCompression(st) => st.compress(input),
        }
    }

    fn decompress(&self, input: &str) -> (out: Result<String, ParseError>) {
        match self {
            Strategy::NoCompression(st) => st.decompress(input),
            Strategy::SimpleCompression(st) => st.decompress(input),
        }
    }
}

/// The codec context: owns the currently active strategy and forwards
/// encode/decode calls to it. The strategy can be replaced at runtime; the
/// replacement takes effect on the next call.
pub struct Compressor {
    strategy: Strategy,
}

impl Compressor {
    /// The strategy the context currently holds.
    pub closed spec fn strategy(&self) -> Strategy {
        self.strategy
    }

    /// Builds a context that owns `strategy`.
    pub fn new(strategy: Strategy) -> (c: Compressor)
        ensures
            c.strategy() == strategy,
    {
        Compressor { strategy }
    }

    /// Replaces the owned strategy; the old one is discarded.
    pub fn set_strategy(&mut self, strategy: Strategy)
        ensures
            final(self).strategy() == strategy,
    {
        self.strategy = strategy;
    }

    /// Encodes `input` with the active strategy.
    pub fn compress(&self, input: &str) -> (out: String)
        ensures
            out@ == self.strategy().spec_compress(input@),
    {
        self.strategy.compress(input)
    }

    /// Decodes `input` with the active strategy, propagating its result or
    /// failure unchanged.
    pub fn decompress(&self, input: &str) -> (out: Result<String, ParseError>)
        ensures
            decode_result_matches(self.strategy().spec_decompress(input@), out),
    {
        self.strategy.decompress(input)
    }
}

/// Round trip for the pass-through strategy: decoding its encoding of any
/// input gives the input back.
pub proof fn lemma_identity_round_trip(st: NoCompression, s: Seq<char>)
    ensures
        st.spec_decompress(st.spec_compress(s)) == Ok::<Seq<char>, ParseError>(s),
{
}

/// Round trip for the run-length strategy: decoding its encoding of a
/// digit-free input gives the input back. Digit characters are excluded
/// because the format cannot represent them; runs longer than `usize::MAX`
/// are excluded because their counts would not fit the count type.
pub proof fn lemma_simple_round_trip(st: SimpleCompression, s: Seq<char>)
    requires
        digit_free(s),
        s.len() <= usize::MAX,
    ensures
        st.spec_decompress(st.spec_compress(s)) == Ok::<Seq<char>, ParseError>(s),
{
    lemma_rle_round_trip(s);
}

/// Idempotence of the pass-through strategy: encoding twice is the same as
/// encoding once, and decoding what a decode produced changes nothing.
pub proof fn lemma_identity_idempotent(st: NoCompression, s: Seq<char>)
    ensures
        st.spec_compress(st.spec_compress(s)) == st.spec_compress(s),
        st.spec_decompress(s) == Ok::<Seq<char>, ParseError>(s),
        st.spec_decompress(st.spec_decompress(s)->Ok_0) == st.spec_decompress(s),
{
}

} // verus!
