//! The primitives of the binary format: big-endian integers and
//! length-prefixed UTF-8 text.
//!
//! Every decoder reads the front of a byte sequence and says how many bytes
//! the value took. Bytes that end before the value does are never filled in:
//! the decoder reports how many are missing.

use vstd::prelude::*;
use vstd::slice::*;
use vstd::utf8::*;

verus! {

/// Why bytes are not the encoding of a value, or a value has no encoding.
#[derive(Clone, Copy, Debug, PartialEq, Eq, Structural)]
pub enum InvalidData {
    /// The bytes end inside a field; the number says how many more bytes
    /// that field needs.
    ShortRead(usize),
    /// An identifier that is not UTF-8.
    BadText,
    /// An action tag that is neither `I` nor `Q`.
    BadAction,
    /// A range flag that is neither `Y` nor `N`.
    BadRangeFlag,
    /// An aggregation tag outside `a`, `m`, `M`, `c`.
    BadAggregation,
    /// An identifier longer than a length prefix can say.
    TooLong,
}

/// The four bytes of `x`, most significant first.
#[verifier::opaque]
pub open spec fn u32_be(x: u32) -> Seq<u8> {
    seq![
        (x / 0x100_0000) as u8,
        ((x / 0x1_0000) % 0x100) as u8,
        ((x / 0x100) % 0x100) as u8,
        (x % 0x100) as u8,
    ]
}

/// The number whose big-endian bytes are the first four of `b`.
#[verifier::opaque]
pub open spec fn be_u32(b: Seq<u8>) -> u32 {
    (b[0] as int * 0x100_0000 + b[1] as int * 0x1_0000 + b[2] as int * 0x100 + b[3] as int) as u32
}

/// The eight bytes of `x`, most significant first.
pub open spec fn u64_be(x: u64) -> Seq<u8> {
    u32_be((x / 0x1_0000_0000) as u32) + u32_be((x % 0x1_0000_0000) as u32)
}

/// The number whose big-endian bytes are the first eight of `b`.
pub open spec fn be_u64(b: Seq<u8>) -> u64 {
    (be_u32(b.subrange(0, 4)) as int * 0x1_0000_0000 + be_u32(b.subrange(4, 8)) as int) as u64
}

/// The two's complement of `x` in 64 bits.
pub open spec fn twos_complement(x: i64) -> u64 {
    if x >= 0 {
        x as u64
    } else {
        (x + 0x1_0000_0000_0000_0000) as u64
    }
}

/// The signed number whose two's complement is `u`.
pub open spec fn from_twos_complement(u: u64) -> i64 {
    if u < 0x8000_0000_0000_0000 {
        u as i64
    } else {
        (u - 0x1_0000_0000_0000_0000) as i64
    }
}

/// The eight bytes of `x` in two's complement, most significant first.
pub open spec fn i64_be(x: i64) -> Seq<u8> {
    u64_be(twos_complement(x))
}

/// The signed number whose big-endian two's complement bytes are the first
/// eight of `b`.
pub open spec fn be_i64(b: Seq<u8>) -> i64 {
    from_twos_complement(be_u64(b))
}

/// Whether a text is short enough for its length prefix.
pub open spec fn fits_prefix(text: Seq<char>) -> bool {
    encode_utf8(text).len() <= u32::MAX
}

/// A text on the wire: the length of its UTF-8 form in four bytes, then
/// that form.
pub open spec fn text_bytes(text: Seq<char>) -> Seq<u8> {
    u32_be(encode_utf8(text).len() as u32) + encode_utf8(text)
}

/// How many of `need` bytes are missing from a field of which `have` bytes
/// are there.
pub open spec fn short_by(need: int, have: int) -> InvalidData {
    InvalidData::ShortRead((need - have) as usize)
}

/// Reads one byte from the front of `s`.
pub open spec fn parse_u8(s: Seq<u8>) -> Result<u8, InvalidData> {
    if s.len() < 1 {
        Err(short_by(1, s.len() as int))
    } else {
        Ok(s[0])
    }
}

/// Reads a big-endian 32-bit number from the front of `s`.
pub open spec fn parse_u32(s: Seq<u8>) -> Result<u32, InvalidData> {
    if s.len() < 4 {
        Err(short_by(4, s.len() as int))
    } else {
        Ok(be_u32(s))
    }
}

/// Reads a big-endian signed 64-bit number from the front of `s`.
pub open spec fn parse_i64(s: Seq<u8>) -> Result<i64, InvalidData> {
    if s.len() < 8 {
        Err(short_by(8, s.len() as int))
    } else {
        Ok(be_i64(s))
    }
}

/// Reads a length-prefixed text from the front of `s`: the text and the
/// number of bytes it took.
pub open spec fn parse_text(s: Seq<u8>) -> Result<(Seq<char>, nat), InvalidData> {
    match parse_u32(s) {
        Err(e) => Err(e),
        Ok(len) => {
            let body = s.subrange(4, 4 + len as int);
            if s.len() < 4 + len {
                Err(short_by(len as int, s.len() - 4))
            } else if !valid_utf8(body) {
                Err(InvalidData::BadText)
            } else {
                Ok((decode_utf8(body), (4 + len) as nat))
            }
        },
    }
}

/// A 32-bit number survives its four bytes, whatever follows them.
pub proof fn lemma_u32_round_trip(x: u32, rest: Seq<u8>)
    ensures
        u32_be(x).len() == 4,
        parse_u32(u32_be(x) + rest) == Ok::<u32, InvalidData>(x),
        (u32_be(x) + rest).skip(4) == rest,
{
    reveal(u32_be);
    reveal(be_u32);
    let s = u32_be(x) + rest;
    assert(s[0] == u32_be(x)[0]);
    assert(s[1] == u32_be(x)[1]);
    assert(s[2] == u32_be(x)[2]);
    assert(s[3] == u32_be(x)[3]);
    assert(s.skip(4) =~= rest);
}

/// A signed 64-bit number survives its eight bytes, whatever follows them.
pub proof fn lemma_i64_round_trip(x: i64, rest: Seq<u8>)
    ensures
        i64_be(x).len() == 8,
        parse_i64(i64_be(x) + rest) == Ok::<i64, InvalidData>(x),
        (i64_be(x) + rest).skip(8) == rest,
{
    let u = twos_complement(x);
    let hi = (u / 0x1_0000_0000) as u32;
    let lo = (u % 0x1_0000_0000) as u32;
    let s = i64_be(x) + rest;
    let none = Seq::<u8>::empty();
    lemma_u32_round_trip(hi, none);
    lemma_u32_round_trip(lo, none);
    assert(s.subrange(0, 4) =~= u32_be(hi) + none);
    assert(s.subrange(4, 8) =~= u32_be(lo) + none);
    assert(be_u64(s) == u);
    assert(s.skip(8) =~= rest);
}

/// A text that fits its prefix survives its encoding, whatever follows it.
pub proof fn lemma_text_round_trip(text: Seq<char>, rest: Seq<u8>)
    requires
        fits_prefix(text),
    ensures
        parse_text(text_bytes(text) + rest) == Ok::<(Seq<char>, nat), InvalidData>(
            (text, text_bytes(text).len()),
        ),
        (text_bytes(text) + rest).skip(text_bytes(text).len() as int) == rest,
{
    let body = encode_utf8(text);
    let len = body.len() as u32;
    let s = text_bytes(text) + rest;
    lemma_u32_round_trip(len, body + rest);
    assert(s =~= u32_be(len) + (body + rest));
    assert(s.subrange(4, 4 + len as int) =~= body);
    encode_utf8_valid_utf8(text);
    encode_utf8_decode_utf8(text);
    assert(s.skip(text_bytes(text).len() as int) =~= rest);
}

/// Whether `after` is what decoding gives once `added` more bytes have
/// come, where the bytes before them gave `before`. What was decoded or
/// refused stays as it was. What was cut short was short of at least one
/// byte, and while fewer bytes have come than were missing, it is still
/// cut short, of the rest.
pub open spec fn carries_on<T>(
    before: Result<T, InvalidData>,
    after: Result<T, InvalidData>,
    added: nat,
) -> bool {
    match before {
        Err(InvalidData::ShortRead(missing)) => missing > 0 && (added < missing ==> after
            == Err::<T, InvalidData>(InvalidData::ShortRead((missing - added) as usize))),
        _ => after == before,
    }
}

/// Reading a byte goes by the front of the bytes alone.
pub proof fn lemma_u8_carries_on(s: Seq<u8>, more: Seq<u8>)
    ensures
        carries_on(parse_u8(s), parse_u8(s + more), more.len()),
{
}

/// Reading a 32-bit number goes by the front of the bytes alone.
pub proof fn lemma_u32_carries_on(s: Seq<u8>, more: Seq<u8>)
    ensures
        carries_on(parse_u32(s), parse_u32(s + more), more.len()),
{
    reveal(be_u32);
}

/// Reading a signed 64-bit number goes by the front of the bytes alone.
pub proof fn lemma_i64_carries_on(s: Seq<u8>, more: Seq<u8>)
    ensures
        carries_on(parse_i64(s), parse_i64(s + more), more.len()),
{
    if s.len() >= 8 {
        assert((s + more).subrange(0, 4) =~= s.subrange(0, 4));
        assert((s + more).subrange(4, 8) =~= s.subrange(4, 8));
    }
}

/// Reading a text goes by the front of the bytes alone, and takes no more
/// bytes than there are.
pub proof fn lemma_text_carries_on(s: Seq<u8>, more: Seq<u8>)
    ensures
        carries_on(parse_text(s), parse_text(s + more), more.len()),
        parse_text(s) matches Ok((_, taken)) ==> taken <= s.len() && (s + more).skip(taken as int)
            == s.skip(taken as int) + more,
{
    lemma_u32_carries_on(s, more);
    if let Ok(len) = parse_u32(s) {
        if s.len() >= 4 + len {
            assert((s + more).subrange(4, 4 + len as int) =~= s.subrange(4, 4 + len as int));
            assert((s + more).skip(4 + len as int) =~= s.skip(4 + len as int) + more);
        }
    }
}

/// `String::from_utf8`: where the bytes are UTF-8, the text whose UTF-8 form
/// they are; nothing where they are not.
#[verifier::external_body]
fn text_from_utf8(bytes: Vec<u8>) -> (text: Option<String>)
    ensures
        text is Some <==> valid_utf8(bytes@),
        text matches Some(t) ==> encode_utf8(t@) == bytes@,
{
    String::from_utf8(bytes).ok()
}

/// Reads the byte at `at`.
pub(crate) fn read_u8(bytes: &[u8], at: usize) -> (r: Result<u8, InvalidData>)
    requires
        at <= bytes.len(),
    ensures
        r == parse_u8(bytes@.skip(at as int)),
{
    if bytes.len() - at < 1 {
        Err(InvalidData::ShortRead(1))
    } else {
        Ok(bytes[at])
    }
}

/// The big-endian 32-bit number in the four bytes from `at`.
fn u32_at(bytes: &[u8], at: usize) -> (x: u32)
    requires
        at + 4 <= bytes.len(),
    ensures
        x == be_u32(bytes@.skip(at as int)),
{
    proof {
        reveal(be_u32);
    }
    let b0: u32 = bytes[at] as u32;
    let b1: u32 = bytes[at + 1] as u32;
    let b2: u32 = bytes[at + 2] as u32;
    let b3: u32 = bytes[at + 3] as u32;
    b0 * 0x100_0000 + b1 * 0x1_0000 + b2 * 0x100 + b3
}

/// Reads the big-endian 32-bit number at `at`.
pub(crate) fn read_u32(bytes: &[u8], at: usize) -> (r: Result<u32, InvalidData>)
    requires
        at <= bytes.len(),
    ensures
        r == parse_u32(bytes@.skip(at as int)),
{
    let have: usize = bytes.len() - at;
    if have < 4 {
        Err(InvalidData::ShortRead(4 - have))
    } else {
        Ok(u32_at(bytes, at))
    }
}

/// Reads the big-endian signed 64-bit number at `at`.
pub(crate) fn read_i64(bytes: &[u8], at: usize) -> (r: Result<i64, InvalidData>)
    requires
        at <= bytes.len(),
    ensures
        r == parse_i64(bytes@.skip(at as int)),
{
    let have: usize = bytes.len() - at;
    if have < 8 {
        return Err(InvalidData::ShortRead(8 - have));
    }
    let ghost s = bytes@.skip(at as int);
    let hi: u32 = u32_at(bytes, at);
    let lo: u32 = u32_at(bytes, at + 4);
    proof {
        reveal(be_u32);
        assert(bytes@.skip(at + 4) =~= s.skip(4));
        assert(be_u32(s.subrange(0, 4)) == be_u32(s));
        assert(be_u32(s.subrange(4, 8)) == be_u32(s.skip(4)));
    }
    let u: u64 = (hi as u64) * 0x1_0000_0000 + (lo as u64);
    if u < 0x8000_0000_0000_0000 {
        Ok(u as i64)
    } else {
        Ok(((u - 0x8000_0000_0000_0000) as i64) + i64::MIN)
    }
}

/// Reads the length-prefixed text at `at`: the text and the offset of the
/// byte after it.
pub(crate) fn read_text(bytes: &[u8], at: usize) -> (r: Result<(String, usize), InvalidData>)
    requires
        at <= bytes.len(),
    ensures
        match parse_text(bytes@.skip(at as int)) {
            Ok((text, taken)) => r matches Ok((s, end)) && s@ == text && end == at + taken,
            Err(e) => r == Err::<(String, usize), InvalidData>(e),
        },
{
    let ghost s = bytes@.skip(at as int);
    let len: usize = match read_u32(bytes, at) {
        Ok(len) => len as usize,
        Err(e) => { return Err(e); },
    };
    let have: usize = bytes.len() - at - 4;
    if have < len {
        return Err(InvalidData::ShortRead(len - have));
    }
    let body = slice_to_vec(slice_subrange(bytes, at + 4, at + 4 + len));
    assert(body@ =~= s.subrange(4, 4 + len as int));
    match text_from_utf8(body) {
        Some(text) => {
            proof {
                encode_utf8_decode_utf8(text@);
            }
            Ok((text, at + 4 + len))
        },
        None => Err(InvalidData::BadText),
    }
}

/// Appends the four bytes of `x`, most significant first.
pub(crate) fn put_u32(out: &mut Vec<u8>, x: u32)
    ensures
        final(out)@ == old(out)@ + u32_be(x),
{
    proof {
        reveal(u32_be);
    }
    out.push((x / 0x100_0000) as u8);
    out.push(((x / 0x1_0000) % 0x100) as u8);
    out.push(((x / 0x100) % 0x100) as u8);
    out.push((x % 0x100) as u8);
    assert(out@ =~= old(out)@ + u32_be(x));
}

/// Appends the eight bytes of `x` in two's complement, most significant
/// first.
pub(crate) fn put_i64(out: &mut Vec<u8>, x: i64)
    ensures
        final(out)@ == old(out)@ + i64_be(x),
{
    let u: u64 = if x >= 0 {
        x as u64
    } else {
        ((x - i64::MIN) as u64) + 0x8000_0000_0000_0000
    };
    put_u32(out, (u / 0x1_0000_0000) as u32);
    put_u32(out, (u % 0x1_0000_0000) as u32);
    assert(out@ =~= old(out)@ + i64_be(x));
}

/// Appends a text behind its length prefix, or nothing where the text is
/// too long for one.
pub(crate) fn put_text(out: &mut Vec<u8>, text: &str) -> (r: Result<(), InvalidData>)
    ensures
        fits_prefix(text@) ==> r is Ok && final(out)@ == old(out)@ + text_bytes(text@),
        !fits_prefix(text@) ==> r == Err::<(), InvalidData>(InvalidData::TooLong) && final(out)@
            == old(out)@,
{
    let body = text.as_bytes();
    if body.len() > 0xffff_ffff {
        return Err(InvalidData::TooLong);
    }
    put_u32(out, body.len() as u32);
    out.extend_from_slice(body);
    assert(out@ =~= old(out)@ + text_bytes(text@));
    Ok(())
}

} // verus!
