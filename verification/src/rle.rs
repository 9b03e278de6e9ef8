//! Run-length encoding over sequences of characters.
//!
//! The encoded form alternates a literal symbol with the decimal digits of
//! its repetition count: `"aaabbc"` encodes to `"a3b2c1"`. The format cannot
//! represent inputs whose symbols are themselves decimal digit characters:
//! a literal digit is indistinguishable from a count, so decoding such data
//! is outside the format. Decoding rejects malformed text instead of
//! guessing: a symbol with no digits after it, or a count too large for
//! `usize`, is reported as an error together with the position of the
//! symbol whose pair could not be read.

use vstd::prelude::*;

use crate::digits::digit_char;
use crate::digits::digit_char_exec;
use crate::digits::digit_prefix_len;
use crate::digits::digit_val_exec;
use crate::digits::digits_of;
use crate::digits::digits_val;
use crate::digits::is_digit;
use crate::digits::is_digit_exec;
use crate::digits::lemma_digit_prefix_len_exact;
use crate::digits::lemma_digit_prefix_len_le;
use crate::digits::lemma_digits_of_digits;
use crate::digits::lemma_digits_of_val;
use crate::digits::lemma_digits_val_push;

verus! {

/// Why a piece of run-length text could not be decoded. `pos` is the index
/// (in characters) of the symbol whose pair could not be read.
#[derive(Clone, Copy, Debug, PartialEq, Eq, Structural)]
pub enum ParseError {
    /// The symbol at `pos` is not followed by at least one digit.
    MissingCount { pos: usize },
    /// The digit run after the symbol at `pos` denotes a count above
    /// `usize::MAX`.
    CountOverflow { pos: usize },
}

/// The length of the maximal leading run of `s`: the number of copies of
/// `s[0]` at the front. Zero only for the empty sequence.
pub open spec fn run_len(s: Seq<char>) -> nat
    decreases s.len(),
{
    if s.len() == 0 {
        0
    } else if s.len() == 1 {
        1
    } else if s[1] == s[0] {
        1 + run_len(s.skip(1))
    } else {
        1
    }
}

/// A non-empty sequence has a leading run of at least one and at most all of
/// its characters, all equal to the first, and the character right after the
/// run (if any) differs from it.
pub proof fn lemma_run_len_bounds(s: Seq<char>)
    requires
        s.len() > 0,
    ensures
        1 <= run_len(s) <= s.len(),
        forall|i: int| 0 <= i < run_len(s) ==> #[trigger] s[i] == s[0],
        run_len(s) < s.len() ==> s[run_len(s) as int] != s[0],
    decreases s.len(),
{
    if s.len() > 1 && s[1] == s[0] {
        lemma_run_len_bounds(s.skip(1));
        assert forall|i: int| 0 <= i < run_len(s) implies #[trigger] s[i] == s[0] by {
            if i >= 1 {
                assert(s.skip(1)[i - 1] == s[i]);
            }
        }
        if run_len(s) < s.len() {
            assert(s.skip(1)[run_len(s) - 1] == s[run_len(s) as int]);
        }
    }
}

/// The run decomposition of `s`: each maximal run as a (symbol, count) pair,
/// in order.
pub open spec fn rle_pairs(s: Seq<char>) -> Seq<(char, nat)>
    decreases s.len(),
    via rle_pairs_decreases
{
    if s.len() == 0 {
        Seq::empty()
    } else {
        seq![(s[0], run_len(s))] + rle_pairs(s.skip(run_len(s) as int))
    }
}

#[via_fn]
proof fn rle_pairs_decreases(s: Seq<char>) {
    if s.len() > 0 {
        lemma_run_len_bounds(s);
    }
}

/// One encoded pair: the symbol followed by the decimal digits of its count.
pub open spec fn render_pair(p: (char, nat)) -> Seq<char> {
    seq![p.0] + digits_of(p.1)
}

/// The concatenation of the encoded pairs.
pub open spec fn render_pairs(ps: Seq<(char, nat)>) -> Seq<char>
    decreases ps.len(),
{
    if ps.len() == 0 {
        Seq::empty()
    } else {
        render_pair(ps[0]) + render_pairs(ps.skip(1))
    }
}

/// The run-length encoding of `s`: its run decomposition, rendered.
pub open spec fn rle_encode(s: Seq<char>) -> Seq<char> {
    render_pairs(rle_pairs(s))
}

/// Decoding of `s`, where `s` sits at position `pos` of the full input (so
/// errors can report an absolute position). Each step reads one symbol, then
/// the longest run of digits after it as the count; no digits at all, or a
/// count above `usize::MAX`, is an error.
pub open spec fn rle_decode_from(s: Seq<char>, pos: int) -> Result<Seq<char>, ParseError>
    decreases s.len(),
    via rle_decode_from_decreases
{
    if s.len() == 0 {
        Ok(Seq::empty())
    } else {
        let c = s[0];
        let k = digit_prefix_len(s.skip(1));
        if k == 0 {
            Err(ParseError::MissingCount { pos: pos as usize })
        } else {
            let n = digits_val(s.subrange(1, 1 + k as int));
            if n > usize::MAX as nat {
                Err(ParseError::CountOverflow { pos: pos as usize })
            } else {
                match rle_decode_from(s.skip(1 + k as int), pos + 1 + k) {
                    Ok(rest) => Ok(Seq::new(n, |i: int| c) + rest),
                    Err(e) => Err(e),
                }
            }
        }
    }
}

#[via_fn]
proof fn rle_decode_from_decreases(s: Seq<char>, pos: int) {
    if s.len() > 0 {
        lemma_digit_prefix_len_le(s.skip(1));
    }
}

/// The run-length decoding of `s`.
pub open spec fn rle_decode(s: Seq<char>) -> Result<Seq<char>, ParseError> {
    rle_decode_from(s, 0)
}

/// True when no character of `s` is a decimal digit: the inputs the
/// run-length format can represent.
pub open spec fn digit_free(s: Seq<char>) -> bool {
    forall|i: int| 0 <= i < s.len() ==> !is_digit(#[trigger] s[i])
}

/// A sequence whose first `k` characters all equal its first one, and whose
/// character at `k` (if any) differs, has leading run length exactly `k`.
pub proof fn lemma_run_len_exact(t: Seq<char>, k: int)
    requires
        0 < k <= t.len(),
        forall|x: int| 0 <= x < k ==> #[trigger] t[x] == t[0],
        k < t.len() ==> t[k] != t[0],
    ensures
        run_len(t) == k,
    decreases k,
{
    if k == 1 {
    } else {
        assert(t[1] == t[0]);
        lemma_run_len_exact(t.skip(1), k - 1);
        assert forall|x: int| 0 <= x < k - 1 implies #[trigger] t.skip(1)[x] == t.skip(1)[0] by {
            assert(t.skip(1)[x] == t[x + 1]);
        }
    }
}

/// Unfolds the encoding of a non-empty sequence into its first rendered pair
/// followed by the encoding of the remainder.
pub proof fn lemma_rle_encode_step(s: Seq<char>)
    requires
        s.len() > 0,
    ensures
        rle_encode(s) == seq![s[0]] + digits_of(run_len(s)) + rle_encode(
            s.skip(run_len(s) as int),
        ),
{
    let head = seq![(s[0], run_len(s))];
    let rest = rle_pairs(s.skip(run_len(s) as int));
    let ps = rle_pairs(s);
    assert(ps == head + rest);
    assert(ps.len() > 0);
    assert(ps[0] == (s[0], run_len(s)));
    assert(ps.skip(1) =~= rest);
    assert(render_pairs(ps) == render_pair(ps[0]) + render_pairs(rest));
    assert(render_pair(ps[0]) == seq![s[0]] + digits_of(run_len(s)));
    assert((seq![s[0]] + digits_of(run_len(s))) + render_pairs(rest) =~= seq![s[0]] + digits_of(
        run_len(s),
    ) + rle_encode(s.skip(run_len(s) as int)));
}

/// The encoding of the empty sequence is empty.
pub proof fn lemma_rle_encode_empty()
    ensures
        rle_encode(Seq::<char>::empty()) == Seq::<char>::empty(),
{
    assert(rle_pairs(Seq::<char>::empty()) == Seq::<(char, nat)>::empty());
}

/// Relies on `String::push`, which appends the given character to the end of
/// the string.
#[verifier::external_body]
fn push_char(out: &mut String, c: char)
    ensures
        final(out)@ == old(out)@.push(c),
{
    out.push(c);
}

/// Appends the decimal rendering of `n` to `out`.
fn append_decimal(out: &mut String, n: usize)
    ensures
        final(out)@ == old(out)@ + digits_of(n as nat),
    decreases n,
{
    if n < 10 {
        let c = digit_char_exec(n);
        push_char(out, c);
        proof {
            assert(old(out)@.push(digit_char(n as nat)) =~= old(out)@ + digits_of(n as nat));
        }
    } else {
        append_decimal(out, n / 10);
        let c = digit_char_exec(n % 10);
        push_char(out, c);
        proof {
            assert((old(out)@ + digits_of((n / 10) as nat)).push(digit_char((n % 10) as nat))
                =~= old(out)@ + digits_of(n as nat));
        }
    }
}

/// Run-length encodes `input`: each maximal run of one character becomes
/// that character followed by the decimal digits of the run's length.
pub fn rle_compress(input: &str) -> (out: String)
    ensures
        out@ == rle_encode(input@),
{
    let ghost s = input@;
    let n = input.unicode_len();
    let mut out = String::new();
    let mut i: usize = 0;
    proof {
        assert(s.skip(0) =~= s);
        assert(out@ + rle_encode(s.skip(0)) =~= rle_encode(s));
    }
    while i < n
        invariant
            n == s.len(),
            s == input@,
            i <= n,
            out@ + rle_encode(s.skip(i as int)) == rle_encode(s),
        decreases n - i,
    {
        let c = input.get_char(i);
        let mut j = i + 1;
        while j < n && input.get_char(j) == c
            invariant
                n == s.len(),
                s == input@,
                i < j <= n,
                c == s[i as int],
                forall|t: int| i <= t < j ==> #[trigger] s[t] == c,
            decreases n - j,
        {
            j = j + 1;
        }
        proof {
            let t = s.skip(i as int);
            assert forall|x: int| 0 <= x < j - i implies #[trigger] t[x] == t[0] by {
                assert(t[x] == s[i + x]);
            }
            if j < n {
                assert(t[(j - i) as int] == s[j as int]);
            }
            lemma_run_len_exact(t, j - i);
            lemma_rle_encode_step(t);
        }
        let ghost out_before = out@;
        push_char(&mut out, c);
        append_decimal(&mut out, j - i);
        proof {
            let t = s.skip(i as int);
            assert(t.skip((j - i) as int) =~= s.skip(j as int));
            assert(out@ == out_before.push(c) + digits_of((j - i) as nat));
            assert(out@ + rle_encode(s.skip(j as int)) =~= out_before + rle_encode(t));
        }
        i = j;
    }
    proof {
        assert(s.skip(n as int) =~= Seq::<char>::empty());
        lemma_rle_encode_empty();
        assert(out@ + rle_encode(s.skip(n as int)) =~= out@);
    }
    out
}

/// The decoding of the empty sequence is the empty sequence.
pub proof fn lemma_rle_decode_empty()
    ensures
        rle_decode(Seq::<char>::empty()) == Ok::<Seq<char>, ParseError>(Seq::<char>::empty()),
{
}

/// The first pair of a non-empty decomposition is the first character with
/// its leading run length.
pub proof fn lemma_rle_pairs_first(s: Seq<char>)
    requires
        s.len() > 0,
    ensures
        rle_pairs(s).len() > 0,
        rle_pairs(s)[0] == (s[0], run_len(s)),
{
}

/// Maximality of runs: no two adjacent pairs of the run decomposition carry
/// the same symbol. Since the encoding renders exactly these pairs in order,
/// no two adjacent pairs of the encoded output share a symbol.
pub proof fn lemma_rle_maximality(s: Seq<char>)
    ensures
        forall|i: int|
            0 <= i < rle_pairs(s).len() - 1 ==> (#[trigger] rle_pairs(s)[i]).0 != rle_pairs(
                s,
            )[i + 1].0,
    decreases s.len(),
{
    if s.len() > 0 {
        lemma_run_len_bounds(s);
        let k = run_len(s) as int;
        let rest = s.skip(k);
        lemma_rle_maximality(rest);
        if rest.len() > 0 {
            lemma_rle_pairs_first(rest);
            assert(rest[0] == s[k]);
        }
        assert forall|i: int|
            0 <= i < rle_pairs(s).len() - 1 implies (#[trigger] rle_pairs(s)[i]).0 != rle_pairs(
            s,
        )[i + 1].0 by {
            if i > 0 {
                assert(rle_pairs(s)[i] == rle_pairs(rest)[i - 1]);
                assert(rle_pairs(s)[i + 1] == rle_pairs(rest)[i]);
            }
        }
    }
}

/// Count positivity: every count in the run decomposition, and so every
/// count rendered into the encoded output, is at least one.
pub proof fn lemma_rle_counts_positive(s: Seq<char>)
    ensures
        forall|i: int| 0 <= i < rle_pairs(s).len() ==> (#[trigger] rle_pairs(s)[i]).1 >= 1,
    decreases s.len(),
{
    if s.len() > 0 {
        lemma_run_len_bounds(s);
        let k = run_len(s) as int;
        lemma_rle_counts_positive(s.skip(k));
        assert forall|i: int|
            0 <= i < rle_pairs(s).len() implies (#[trigger] rle_pairs(s)[i]).1 >= 1 by {
            if i > 0 {
                assert(rle_pairs(s)[i] == rle_pairs(s.skip(k))[i - 1]);
            }
        }
    }
}

/// This strategy trades size for simplicity: on an input with no repeated
/// adjacent symbols, each symbol becomes itself plus the digit of a count of
/// one, so the output is exactly twice the input and never shorter.
pub proof fn lemma_rle_encode_no_repeats_len(s: Seq<char>)
    requires
        forall|i: int| 0 <= i < s.len() - 1 ==> #[trigger] s[i] != s[i + 1],
    ensures
        rle_encode(s).len() == 2 * s.len(),
    decreases s.len(),
{
    if s.len() == 0 {
        assert(s =~= Seq::<char>::empty());
        lemma_rle_encode_empty();
    } else {
        assert(run_len(s) == 1);
        lemma_rle_encode_step(s);
        let tail = s.skip(1);
        assert forall|i: int| 0 <= i < tail.len() - 1 implies #[trigger] tail[i] != tail[i
            + 1] by {
            assert(tail[i] == s[i + 1] && tail[i + 1] == s[i + 2]);
        }
        lemma_rle_encode_no_repeats_len(tail);
        assert(digits_of(1).len() == 1);
    }
}

proof fn lemma_rle_round_trip_from(s: Seq<char>, pos: int)
    requires
        digit_free(s),
        s.len() <= usize::MAX,
    ensures
        rle_decode_from(rle_encode(s), pos) == Ok::<Seq<char>, ParseError>(s),
    decreases s.len(),
{
    if s.len() == 0 {
        assert(s =~= Seq::<char>::empty());
        lemma_rle_encode_empty();
    } else {
        lemma_run_len_bounds(s);
        let k = run_len(s);
        lemma_rle_encode_step(s);
        let e = rle_encode(s);
        let ds = digits_of(k);
        let tail = s.skip(k as int);
        let rest_enc = rle_encode(tail);
        lemma_digits_of_digits(k);
        lemma_digits_of_val(k);
        assert(e == seq![s[0]] + ds + rest_enc);
        assert(e[0] == s[0]);
        assert(e.skip(1) =~= ds + rest_enc);
        if tail.len() > 0 {
            lemma_rle_encode_step(tail);
            assert(rest_enc[0] == tail[0]);
            assert(tail[0] == s[k as int]);
            assert(!is_digit(s[k as int]));
        } else {
            assert(tail =~= Seq::<char>::empty());
            lemma_rle_encode_empty();
        }
        assert forall|x: int| 0 <= x < ds.len() implies is_digit(#[trigger] (ds + rest_enc)[x]) by {
            assert((ds + rest_enc)[x] == ds[x]);
        }
        lemma_digit_prefix_len_exact(ds + rest_enc, ds.len() as int);
        assert(digit_prefix_len(e.skip(1)) == ds.len());
        assert(e.subrange(1, 1 + ds.len() as int) =~= ds);
        assert(digits_val(e.subrange(1, 1 + ds.len() as int)) == k);
        assert(e.skip(1 + ds.len() as int) =~= rest_enc);
        assert forall|x: int| 0 <= x < tail.len() implies !is_digit(#[trigger] tail[x]) by {
            assert(tail[x] == s[k + x]);
        }
        lemma_rle_round_trip_from(tail, pos + 1 + ds.len());
        let kp = digit_prefix_len(e.skip(1));
        let nv = digits_val(e.subrange(1, 1 + kp as int));
        assert(kp == ds.len());
        assert(nv == k);
        assert(rle_decode_from(e.skip(1 + kp as int), pos + 1 + kp) == Ok::<
            Seq<char>,
            ParseError,
        >(tail));
        assert(rle_decode_from(e, pos) == Ok::<Seq<char>, ParseError>(
            Seq::new(nv, |i: int| e[0]) + tail,
        ));
        assert(Seq::new(nv, |i: int| e[0]) + tail =~= s);
    }
}

/// Round trip: decoding the encoding of a digit-free sequence gives the
/// sequence back. Digit characters in the input are excluded because the
/// format cannot represent them; runs longer than `usize::MAX` are excluded
/// because their counts would not fit the count type.
pub proof fn lemma_rle_round_trip(s: Seq<char>)
    requires
        digit_free(s),
        s.len() <= usize::MAX,
    ensures
        rle_decode(rle_encode(s)) == Ok::<Seq<char>, ParseError>(s),
{
    lemma_rle_round_trip_from(s, 0);
}

/// Appends `count` copies of `c` to `out`.
fn append_repeat(out: &mut String, c: char, count: usize)
    ensures
        final(out)@ == old(out)@ + Seq::new(count as nat, |x: int| c),
{
    let mut r: usize = 0;
    proof {
        assert(old(out)@ + Seq::new(0, |x: int| c) =~= old(out)@);
    }
    while r < count
        invariant
            r <= count,
            out@ == old(out)@ + Seq::new(r as nat, |x: int| c),
        decreases count - r,
    {
        push_char(out, c);
        proof {
            assert((old(out)@ + Seq::new(r as nat, |x: int| c)).push(c) =~= old(out)@ + Seq::new(
                (r + 1) as nat,
                |x: int| c,
            ));
        }
        r = r + 1;
    }
}

/// Run-length decodes `input`: each pair of a symbol and a decimal count
/// expands to that many copies of the symbol. A symbol with no digits after
/// it, or a count above `usize::MAX`, is reported as an error carrying the
/// position of the symbol; nothing partial is returned.
pub fn rle_decompress(input: &str) -> (out: Result<String, ParseError>)
    ensures
        match out {
            Ok(o) => rle_decode(input@) == Ok::<Seq<char>, ParseError>(o@),
            Err(e) => rle_decode(input@) == Err::<Seq<char>, ParseError>(e),
        },
{
    let ghost s = input@;
    let n = input.unicode_len();
    let mut out = String::new();
    let mut i: usize = 0;
    proof {
        assert(s.skip(0) =~= s);
        assert(out@ + Seq::<char>::empty() =~= Seq::<char>::empty());
    }
    while i < n
        invariant
            n == s.len(),
            s == input@,
            i <= n,
            match rle_decode_from(s.skip(i as int), i as int) {
                Ok(rest) => rle_decode(s) == Ok::<Seq<char>, ParseError>(out@ + rest),
                Err(e) => rle_decode(s) == Err::<Seq<char>, ParseError>(e),
            },
        decreases n - i,
    {
        let c = input.get_char(i);
        let mut j = i + 1;
        let mut count: usize = 0;
        let mut overflow = false;
        while j < n && is_digit_exec(input.get_char(j))
            invariant
                n == s.len(),
                s == input@,
                i + 1 <= j <= n,
                forall|t: int| i + 1 <= t < j ==> is_digit(#[trigger] s[t]),
                !overflow ==> count == digits_val(s.subrange(i + 1, j as int)),
                overflow ==> digits_val(s.subrange(i + 1, j as int)) > usize::MAX,
            decreases n - j,
        {
            let d = digit_val_exec(input.get_char(j));
            proof {
                assert(s.subrange(i + 1, j + 1) =~= s.subrange(i + 1, j as int).push(
                    s[j as int],
                ));
                lemma_digits_val_push(s.subrange(i + 1, j as int), s[j as int]);
            }
            if overflow {
            } else if count > (usize::MAX - d) / 10 {
                proof {
                    vstd::arithmetic::div_mod::lemma_fundamental_div_mod(
                        (usize::MAX - d) as int,
                        10,
                    );
                }
                overflow = true;
            } else {
                count = count * 10 + d;
            }
            j = j + 1;
        }
        proof {
            let t = s.skip(i as int);
            let t1 = s.skip(i + 1);
            assert(t.skip(1) =~= t1);
            assert forall|x: int| 0 <= x < j - i - 1 implies is_digit(#[trigger] t1[x]) by {
                assert(t1[x] == s[i + 1 + x]);
            }
            if j < n {
                assert(t1[j - i - 1] == s[j as int]);
            }
            lemma_digit_prefix_len_exact(t1, j - i - 1);
            assert(t.subrange(1, (j - i) as int) =~= s.subrange(i + 1, j as int));
        }
        if j == i + 1 {
            return Err(ParseError::MissingCount { pos: i });
        }
        if overflow {
            return Err(ParseError::CountOverflow { pos: i });
        }
        let ghost out_before = out@;
        append_repeat(&mut out, c, count);
        proof {
            let t = s.skip(i as int);
            assert(t.skip((j - i) as int) =~= s.skip(j as int));
            match rle_decode_from(s.skip(j as int), j as int) {
                Ok(rest2) => {
                    assert(rle_decode_from(t, i as int) == Ok::<Seq<char>, ParseError>(
                        Seq::new(count as nat, |x: int| c) + rest2,
                    ));
                    assert(out_before + (Seq::new(count as nat, |x: int| c) + rest2) =~= out@
                        + rest2);
                },
                Err(e) => {},
            }
        }
        i = j;
    }
    proof {
        assert(s.skip(n as int) =~= Seq::<char>::empty());
        assert(out@ + Seq::<char>::empty() =~= out@);
    }
    Ok(out)
}

} // verus!
