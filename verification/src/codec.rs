//! UTF-16LE decoding and encoding.
//!
//! The input byte stream is UTF-16 in its little-endian byte order: every code
//! unit is two bytes, low byte first, and characters outside the basic plane
//! are carried by a surrogate pair.  `spec_utf16le_decode` is the mathematical
//! decoder: it yields the character sequence, or nothing when the stream is
//! truncated mid code unit or contains an unpaired surrogate.  The executable
//! decoder delegates the byte walk to `encoding_rs` and is trusted to agree
//! with the mathematical decoder; the encoder is implemented and verified
//! here, and `lemma_encode_decode_round_trip` proves that decoding an encoded
//! string gives the string back.

use vstd::prelude::*;
use crate::error::EncodingError;

verus! {

/// First code unit of a surrogate pair.
pub open spec fn is_high_surrogate(u: int) -> bool {
    0xD800 <= u <= 0xDBFF
}

/// Second code unit of a surrogate pair.
pub open spec fn is_low_surrogate(u: int) -> bool {
    0xDC00 <= u <= 0xDFFF
}

/// Code unit at position `i` of a little-endian byte stream.
pub open spec fn unit_at(b: Seq<u8>, i: int) -> int
    recommends
        0 <= i,
        2 * i + 1 < b.len(),
{
    b[2 * i] + 256 * b[2 * i + 1]
}

/// The code units carried by an even-length little-endian byte stream.
pub open spec fn units_of(b: Seq<u8>) -> Seq<int>
    recommends
        b.len() % 2 == 0,
{
    Seq::new((b.len() / 2) as nat, |i: int| unit_at(b, i))
}

/// Scalar value carried by a surrogate pair.
pub open spec fn combine_surrogates(hi: int, lo: int) -> int
    recommends
        is_high_surrogate(hi),
        is_low_surrogate(lo),
{
    0x10000 + (hi - 0xD800) * 0x400 + (lo - 0xDC00)
}

/// Characters carried by a code unit sequence; `None` when a surrogate code
/// unit appears outside a high-then-low pair.
pub open spec fn decode_units(u: Seq<int>) -> Option<Seq<char>>
    decreases u.len(),
{
    if u.len() == 0 {
        Some(Seq::empty())
    } else if is_high_surrogate(u[0]) {
        if u.len() >= 2 && is_low_surrogate(u[1]) {
            match decode_units(u.skip(2)) {
                Some(rest) => Some(
                    Seq::empty().push((combine_surrogates(u[0], u[1]) as u32) as char) + rest,
                ),
                None => None,
            }
        } else {
            None
        }
    } else if is_low_surrogate(u[0]) {
        None
    } else {
        match decode_units(u.skip(1)) {
            Some(rest) => Some(Seq::empty().push((u[0] as u32) as char) + rest),
            None => None,
        }
    }
}

/// UTF-16LE decoding of a whole byte stream: all-or-nothing, failing on an
/// odd-length (truncated) stream and on unpaired surrogates.
pub open spec fn spec_utf16le_decode(b: Seq<u8>) -> Option<Seq<char>> {
    if b.len() % 2 == 0 {
        decode_units(units_of(b))
    } else {
        None
    }
}

/// UTF-16LE encoding of one character: one code unit for scalar values below
/// 0x10000, otherwise a surrogate pair; each unit is two bytes, low byte first.
pub open spec fn encode_char(c: char) -> Seq<u8> {
    let v = (c as u32) as int;
    if v < 0x10000 {
        Seq::empty().push((v % 256) as u8).push((v / 256) as u8)
    } else {
        let w = v - 0x10000;
        let hi = 0xD800 + w / 0x400;
        let lo = 0xDC00 + w % 0x400;
        Seq::empty().push((hi % 256) as u8).push((hi / 256) as u8).push((lo % 256) as u8).push(
            (lo / 256) as u8,
        )
    }
}

/// UTF-16LE encoding of a character sequence.
pub open spec fn spec_utf16le_encode(s: Seq<char>) -> Seq<u8>
    decreases s.len(),
{
    if s.len() == 0 {
        Seq::empty()
    } else {
        encode_char(s[0]) + spec_utf16le_encode(s.skip(1))
    }
}

/// The byte stream with a leading UTF-16LE byte-order mark removed, so that
/// no encoding artifact reaches the tabular layer.
pub open spec fn spec_strip_bom(b: Seq<u8>) -> Seq<u8> {
    if b.len() >= 2 && b[0] == 0xFF && b[1] == 0xFE {
        b.skip(2)
    } else {
        b
    }
}

/// The byte stream without its leading byte-order mark, if it has one.
pub fn strip_bom(b: &[u8]) -> (r: &[u8])
    ensures
        r@ == spec_strip_bom(b@),
{
    if b.len() >= 2 && *vstd::slice::slice_index_get(b, 0) == 0xFF && *vstd::slice::slice_index_get(
        b,
        1,
    ) == 0xFE {
        vstd::slice::slice_subrange(b, 2, b.len())
    } else {
        b
    }
}

/// Relies on `encoding_rs::UTF_16LE.decode_without_bom_handling_and_without_replacement`:
/// with the whole input in one buffer it assembles little-endian code units,
/// combines surrogate pairs, and returns `None` exactly when the stream ends
/// mid code unit or holds an unpaired surrogate — the mathematical decoder
/// `spec_utf16le_decode`.  The call sizes an output buffer at a little over
/// three bytes per code unit and is documented to panic if that size
/// calculation overflows `usize`, so inputs long enough for that are kept
/// out.
#[verifier::external_body]
fn utf16le_decode_via_encoding_rs(b: &[u8]) -> (r: Option<Vec<char>>)
    requires
        b@.len() <= usize::MAX / 4,
    ensures
        match r {
            Some(t) => spec_utf16le_decode(b@) == Some(t@),
            None => spec_utf16le_decode(b@) is None,
        },
{
    encoding_rs::UTF_16LE.decode_without_bom_handling_and_without_replacement(b).map(
        |s| s.chars().collect(),
    )
}

/// Decode a UTF-16LE byte stream, all or nothing: the decoded characters when
/// the stream is well formed, and `EncodingError::Malformed` exactly when it
/// is truncated mid code unit or holds an unpaired surrogate.  The length
/// bound keeps the decoder's internal buffer arithmetic within `usize`.
pub fn decode_utf16le(b: &[u8]) -> (r: Result<Vec<char>, EncodingError>)
    requires
        b@.len() <= usize::MAX / 4,
    ensures
        match r {
            Ok(t) => spec_utf16le_decode(b@) == Some(t@),
            Err(e) => spec_utf16le_decode(b@) is None && e == EncodingError::Malformed,
        },
{
    match utf16le_decode_via_encoding_rs(b) {
        Some(t) => Ok(t),
        None => Err(EncodingError::Malformed),
    }
}

/// Encode a character sequence as a UTF-16LE byte stream.
pub fn encode_utf16le(s: &Vec<char>) -> (r: Vec<u8>)
    ensures
        r@ == spec_utf16le_encode(s@),
{
    let mut out: Vec<u8> = Vec::new();
    let mut i: usize = 0;
    while i < s.len()
        invariant
            i <= s@.len(),
            out@ == spec_utf16le_encode(s@.take(i as int)),
        decreases s@.len() - i,
    {
        let c = s[i];
        let v = c as u32;
        if v < 0x10000 {
            out.push((v % 256) as u8);
            out.push((v / 256) as u8);
        } else {
            let w = v - 0x10000;
            let hi = 0xD800 + w / 0x400;
            let lo = 0xDC00 + w % 0x400;
            out.push((hi % 256) as u8);
            out.push((hi / 256) as u8);
            out.push((lo % 256) as u8);
            out.push((lo / 256) as u8);
        }
        proof {
            lemma_encode_snoc(s@.take(i as int), s@[i as int]);
            assert(s@.take(i as int + 1) =~= s@.take(i as int).push(s@[i as int]));
            assert(out@ =~= spec_utf16le_encode(s@.take(i as int)) + encode_char(s@[i as int]));
        }
        i += 1;
    }
    proof {
        assert(s@.take(s@.len() as int) =~= s@);
    }
    out
}

/// Encoding one character more appends that character's code units.
proof fn lemma_encode_snoc(s: Seq<char>, c: char)
    ensures
        spec_utf16le_encode(s.push(c)) == spec_utf16le_encode(s) + encode_char(c),
    decreases s.len(),
{
    if s.len() == 0 {
        assert(s.push(c).skip(1) =~= Seq::<char>::empty());
        assert(s.push(c)[0] == c);
        assert(spec_utf16le_encode(s.push(c).skip(1)) == Seq::<u8>::empty());
        assert(spec_utf16le_encode(s.push(c)) == encode_char(c) + Seq::<u8>::empty());
        assert(encode_char(c) + Seq::<u8>::empty() =~= encode_char(c));
        assert(spec_utf16le_encode(s) + encode_char(c) =~= encode_char(c));
    } else {
        assert(s.push(c).skip(1) =~= s.skip(1).push(c));
        lemma_encode_snoc(s.skip(1), c);
        assert(spec_utf16le_encode(s.push(c)) == encode_char(s[0]) + (spec_utf16le_encode(s.skip(1))
            + encode_char(c)));
        assert(encode_char(s[0]) + (spec_utf16le_encode(s.skip(1)) + encode_char(c)) =~= (
        encode_char(s[0]) + spec_utf16le_encode(s.skip(1))) + encode_char(c));
    }
}

/// Splitting an even-length prefix splits the code units at the same point.
proof fn lemma_units_of_concat(a: Seq<u8>, b: Seq<u8>)
    requires
        a.len() % 2 == 0,
        b.len() % 2 == 0,
    ensures
        units_of(a + b) == units_of(a) + units_of(b),
{
    assert((a + b).len() == a.len() + b.len());
    assert forall|i: int| 0 <= i < (a.len() + b.len()) / 2 implies unit_at(a + b, i) == (units_of(a)
        + units_of(b))[i] by {
        if i < a.len() / 2 {
            assert((a + b)[2 * i] == a[2 * i]);
            assert((a + b)[2 * i + 1] == a[2 * i + 1]);
        } else {
            let j = i - a.len() / 2;
            assert((a + b)[2 * i] == b[2 * j]);
            assert((a + b)[2 * i + 1] == b[2 * j + 1]);
        }
    }
    assert(units_of(a + b) =~= units_of(a) + units_of(b));
}

/// A decoded text has at most one character per code unit.
pub proof fn lemma_decode_units_len(u: Seq<int>)
    ensures
        decode_units(u) matches Some(t) ==> t.len() <= u.len(),
    decreases u.len(),
{
    if u.len() >= 2 {
        lemma_decode_units_len(u.skip(1));
        lemma_decode_units_len(u.skip(2));
    } else if u.len() == 1 {
        lemma_decode_units_len(u.skip(1));
    }
}

/// A decoded byte stream has at most one character per two bytes.
pub proof fn lemma_decode_len(b: Seq<u8>)
    ensures
        spec_utf16le_decode(b) matches Some(t) ==> t.len() <= b.len() / 2,
{
    if b.len() % 2 == 0 {
        lemma_decode_units_len(units_of(b));
    }
}

/// Round trip: decoding an encoded character sequence gives the sequence back.
///
/// This is the codec's correctness statement: `spec_utf16le_encode` and
/// `spec_utf16le_decode` are mutually inverse on every character sequence, so
/// the executable encoder and decoder, which are proved (or trusted, for the
/// decoder's byte walk) to match them, reproduce any text exactly.
pub proof fn lemma_encode_decode_round_trip(s: Seq<char>)
    ensures
        spec_utf16le_decode(spec_utf16le_encode(s)) == Some(s),
    decreases s.len(),
{
    if s.len() == 0 {
        assert(spec_utf16le_encode(s).len() == 0);
        assert(units_of(spec_utf16le_encode(s)) =~= Seq::<int>::empty());
        assert(s =~= Seq::<char>::empty());
    } else {
        let c = s[0];
        let v = (c as u32) as int;
        let e = encode_char(c);
        let rest = spec_utf16le_encode(s.skip(1));
        lemma_encode_decode_round_trip(s.skip(1));
        assert(rest.len() % 2 == 0);
        assert(e.len() % 2 == 0);
        lemma_units_of_concat(e, rest);
        let u = units_of(e + rest);
        let ur = units_of(rest);
        vstd::utf8::char_is_scalar(c);
        vstd::utf8::char_u32_cast(c, c as u32);
        assert(vstd::utf8::is_scalar(c as u32));
        if v < 0x10000 {
            vstd::arithmetic::div_mod::lemma_fundamental_div_mod(v, 256);
            assert(units_of(e) =~= Seq::empty().push(v));
            assert(u == Seq::empty().push(v) + ur);
            assert(u[0] == v);
            assert(!is_high_surrogate(v) && !is_low_surrogate(v));
            assert(u.skip(1) =~= ur);
            assert((v as u32) == c as u32);
            assert(((v as u32) as char) == c);
            assert(decode_units(u) == Some(Seq::empty().push(c) + s.skip(1)));
            assert(Seq::empty().push(c) + s.skip(1) =~= s);
        } else {
            let w = v - 0x10000;
            let hi = 0xD800 + w / 0x400;
            let lo = 0xDC00 + w % 0x400;
            vstd::arithmetic::div_mod::lemma_fundamental_div_mod(w, 0x400);
            assert(0 <= w <= 0xFFFFF);
            assert(0 <= w / 0x400 <= 0x3FF);
            assert(0 <= w % 0x400 <= 0x3FF);
            assert(is_high_surrogate(hi));
            assert(is_low_surrogate(lo));
            vstd::arithmetic::div_mod::lemma_fundamental_div_mod(hi, 256);
            vstd::arithmetic::div_mod::lemma_fundamental_div_mod(lo, 256);
            assert(units_of(e) =~= Seq::empty().push(hi).push(lo));
            assert(u == Seq::empty().push(hi).push(lo) + ur);
            assert(u[0] == hi && u[1] == lo);
            assert(combine_surrogates(hi, lo) == v);
            assert(u.skip(2) =~= ur);
            assert((v as u32) == c as u32);
            assert(((v as u32) as char) == c);
            assert(decode_units(u) == Some(Seq::empty().push(c) + s.skip(1)));
            assert(Seq::empty().push(c) + s.skip(1) =~= s);
        }
    }
}

} // verus!
