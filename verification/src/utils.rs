use vstd::prelude::*;
use vstd::utf8::{decode_utf8, valid_utf8};
use crate::error::Error;
use crate::source::ByteSource;

verus! {

/// Reading one byte: the byte and the bytes after it, or `UnexpectedEnd`.
pub open spec fn parse_byte(s: Seq<u8>) -> (Result<u8, Error>, Seq<u8>) {
    if s.len() > 0 {
        (Ok(s[0]), s.skip(1))
    } else {
        (Err(Error::UnexpectedEnd), s)
    }
}

/// The number that four bytes spell, least significant byte first.
pub open spec fn le_u32(b0: u8, b1: u8, b2: u8, b3: u8) -> int {
    b0 + 256 * b1 + 65536 * b2 + 16777216 * b3
}

/// The four bytes that spell `value`, least significant byte first.
pub open spec fn le_bytes(value: u32) -> Seq<u8> {
    seq![
        (value % 256) as u8,
        (value / 256 % 256) as u8,
        (value / 65536 % 256) as u8,
        (value / 16777216) as u8,
    ]
}

/// Reading a little-endian 32-bit number. A source with fewer than four
/// bytes is used up by the failed attempt.
pub open spec fn parse_u32(s: Seq<u8>) -> (Result<u32, Error>, Seq<u8>) {
    if s.len() >= 4 {
        (Ok(le_u32(s[0], s[1], s[2], s[3]) as u32), s.skip(4))
    } else {
        (Err(Error::UnexpectedEnd), Seq::empty())
    }
}

/// The first index at or after `from` that holds a NUL byte, or the length
/// of `s` where there is none.
pub open spec fn nul_from(s: Seq<u8>, from: int) -> int
    decreases s.len() - from,
{
    if from < 0 || from >= s.len() || s[from] == 0 {
        from
    } else {
        nul_from(s, from + 1)
    }
}

/// The number of bytes that stand before the first NUL byte of `s`.
pub open spec fn cstr_len(s: Seq<u8>) -> int {
    nul_from(s, 0)
}

/// Reading a NUL-terminated string. The terminator is consumed and is not
/// part of the string. A source without a terminator is used up by the
/// failed attempt.
pub open spec fn parse_cstr(s: Seq<u8>) -> (Result<Seq<char>, Error>, Seq<u8>) {
    let n = cstr_len(s);
    if n >= s.len() {
        (Err(Error::UnexpectedEnd), Seq::empty())
    } else if valid_utf8(s.take(n)) {
        (Ok(decode_utf8(s.take(n))), s.skip(n + 1))
    } else {
        (Err(Error::InvalidEncoding), s.skip(n + 1))
    }
}

/// Reading exactly `count` bytes. A source with fewer bytes is used up by
/// the failed attempt.
pub open spec fn parse_bytes(s: Seq<u8>, count: int) -> (Result<Seq<u8>, Error>, Seq<u8>) {
    if count <= s.len() {
        (Ok(s.take(count)), s.skip(count))
    } else {
        (Err(Error::UnexpectedEnd), Seq::empty())
    }
}

/// `cstr_len` is the one position that has no NUL byte before it and either
/// holds one or is the end of the sequence.
pub proof fn lemma_cstr_len(s: Seq<u8>, n: int)
    requires
        0 <= n <= s.len(),
        forall|i: int| 0 <= i < n ==> s[i] != 0,
        n < s.len() ==> s[n] == 0,
    ensures
        cstr_len(s) == n,
{
    lemma_nul_from(s, 0, n);
}

proof fn lemma_nul_from(s: Seq<u8>, from: int, n: int)
    requires
        0 <= from <= n <= s.len(),
        forall|i: int| from <= i < n ==> s[i] != 0,
        n < s.len() ==> s[n] == 0,
    ensures
        nul_from(s, from) == n,
    decreases n - from,
{
    if from < n {
        lemma_nul_from(s, from + 1, n);
    }
}

/// The bytes before the terminator hold no NUL byte, and the count never
/// exceeds the length.
pub proof fn lemma_cstr_len_bounds(s: Seq<u8>)
    ensures
        0 <= cstr_len(s) <= s.len(),
        forall|i: int| 0 <= i < cstr_len(s) ==> s[i] != 0,
        cstr_len(s) < s.len() ==> s[cstr_len(s)] == 0,
{
    lemma_nul_from_bounds(s, 0);
}

proof fn lemma_nul_from_bounds(s: Seq<u8>, from: int)
    requires
        0 <= from <= s.len(),
    ensures
        from <= nul_from(s, from) <= s.len(),
        forall|i: int| from <= i < nul_from(s, from) ==> s[i] != 0,
        nul_from(s, from) < s.len() ==> s[nul_from(s, from)] == 0,
    decreases s.len() - from,
{
    if from < s.len() && s[from] != 0 {
        lemma_nul_from_bounds(s, from + 1);
    }
}

/// No reader gives bytes back to the source, and reading a string from a
/// source that is not empty consumes at least one byte.
pub proof fn lemma_readers_consume(s: Seq<u8>, count: int)
    requires
        count >= 0,
    ensures
        parse_byte(s).1.len() <= s.len(),
        parse_u32(s).1.len() <= s.len(),
        parse_bytes(s, count).1.len() <= s.len(),
        parse_cstr(s).1.len() <= s.len(),
        s.len() > 0 ==> parse_cstr(s).1.len() < s.len(),
{
    lemma_cstr_len_bounds(s);
}

/// Reading a string from a source that is cut off after `m` bytes: the
/// same string, and the rest cut off at the same place, where the cut
/// stands behind the terminator; `UnexpectedEnd` where it does not.
pub proof fn lemma_cstr_prefix(s: Seq<u8>, m: int)
    requires
        0 <= m <= s.len(),
    ensures
        m <= cstr_len(s) ==> parse_cstr(s.take(m)) == (
            Err::<Seq<char>, Error>(Error::UnexpectedEnd),
            Seq::<u8>::empty(),
        ),
        m > cstr_len(s) ==> parse_cstr(s).1 == s.skip(cstr_len(s) + 1) && parse_cstr(s.take(m)) == (
            parse_cstr(s).0,
            parse_cstr(s).1.take(m - cstr_len(s) - 1),
        ),
{
    let n = cstr_len(s);
    let cut = s.take(m);
    lemma_cstr_len_bounds(s);
    if m <= n {
        lemma_cstr_len(cut, m);
    } else {
        lemma_cstr_len(cut, n);
        assert(cut.take(n) =~= s.take(n));
        assert(cut.skip(n + 1) =~= s.skip(n + 1).take(m - n - 1));
    }
}

/// Reading a number from a source that is cut off after `m` bytes.
pub proof fn lemma_u32_prefix(s: Seq<u8>, m: int)
    requires
        0 <= m <= s.len(),
    ensures
        m < 4 ==> parse_u32(s.take(m)) == (
            Err::<u32, Error>(Error::UnexpectedEnd),
            Seq::<u8>::empty(),
        ),
        m >= 4 ==> parse_u32(s).1 == s.skip(4) && parse_u32(s.take(m)) == (
            parse_u32(s).0,
            parse_u32(s).1.take(m - 4),
        ),
{
    if m >= 4 {
        assert(s.take(m).skip(4) =~= s.skip(4).take(m - 4));
    }
}

/// Reading `count` bytes from a source that is cut off after `m` bytes.
pub proof fn lemma_bytes_prefix(s: Seq<u8>, count: int, m: int)
    requires
        0 <= count <= m <= s.len(),
    ensures
        parse_bytes(s, count).1 == s.skip(count),
        parse_bytes(s.take(m), count) == (parse_bytes(s, count).0, parse_bytes(s, count).1.take(m - count)),
{
    assert(s.take(m).take(count) =~= s.take(count));
    assert(s.take(m).skip(count) =~= s.skip(count).take(m - count));
}

/// A string without NUL bytes, written down with its terminator, is read
/// back from the front of any source that starts with it.
pub proof fn lemma_cstr_written(text: Seq<u8>, tail: Seq<u8>)
    requires
        forall|i: int| 0 <= i < text.len() ==> text[i] != 0,
    ensures
        cstr_len(text.push(0) + tail) == text.len(),
        parse_cstr(text.push(0) + tail).1 == tail,
        valid_utf8(text) ==> parse_cstr(text.push(0) + tail).0 == Ok::<Seq<char>, Error>(
            decode_utf8(text),
        ),
        !valid_utf8(text) ==> parse_cstr(text.push(0) + tail).0 == Err::<Seq<char>, Error>(
            Error::InvalidEncoding,
        ),
{
    let s = text.push(0) + tail;
    let n = text.len() as int;
    assert forall|i: int| 0 <= i < n implies s[i] != 0 by {
        assert(s[i] == text[i]);
    }
    assert(s[n] == 0);
    lemma_cstr_len(s, n);
    assert(s.take(n) =~= text);
    assert(s.skip(n + 1) =~= tail);
}

/// A number written down least significant byte first is read back from
/// the front of any source that starts with it.
pub proof fn lemma_u32_written(value: u32, tail: Seq<u8>)
    ensures
        parse_u32(le_bytes(value) + tail) == (Ok::<u32, Error>(value), tail),
{
    let s = le_bytes(value) + tail;
    assert(s[0] == le_bytes(value)[0]);
    assert(s[1] == le_bytes(value)[1]);
    assert(s[2] == le_bytes(value)[2]);
    assert(s[3] == le_bytes(value)[3]);
    assert(s.skip(4) =~= tail);
}

/// `String::from_utf8` of the standard library. It accepts exactly the byte
/// sequences that are valid UTF-8, and the string it returns holds the
/// characters that those bytes encode.
#[verifier::external_body]
fn string_from_utf8(bytes: Vec<u8>) -> (text: Option<String>)
    ensures
        text.is_some() == valid_utf8(bytes@),
        text.is_some() ==> text.unwrap()@ == decode_utf8(bytes@),
{
    match String::from_utf8(bytes) {
        Ok(text) => Some(text),
        Err(_) => None,
    }
}

/// Reads a NUL-terminated UTF-8 string.
pub fn read_cstr(reader: &mut ByteSource) -> (text: Result<String, Error>)
    ensures
        final(reader)@ == parse_cstr(old(reader)@).1,
        match parse_cstr(old(reader)@).0 {
            Ok(chars) => text.is_ok() && text.unwrap()@ == chars,
            Err(e) => text == Err::<String, Error>(e),
        },
{
    let mut bytes: Vec<u8> = Vec::new();
    loop
        invariant
            bytes@.len() <= old(reader)@.len(),
            bytes@ == old(reader)@.take(bytes@.len() as int),
            reader@ == old(reader)@.skip(bytes@.len() as int),
            forall|i: int| 0 <= i < bytes@.len() ==> old(reader)@[i] != 0,
        decreases reader@.len(),
    {
        let ghost before = bytes@;
        match reader.next() {
            None => {
                proof {
                    lemma_cstr_len(old(reader)@, old(reader)@.len() as int);
                    assert(reader@ =~= Seq::<u8>::empty());
                }
                return Err(Error::UnexpectedEnd);
            },
            Some(byte) => {
                if byte == 0 {
                    proof {
                        lemma_cstr_len(old(reader)@, before.len() as int);
                        assert(reader@ =~= old(reader)@.skip(before.len() as int + 1));
                    }
                    return match string_from_utf8(bytes) {
                        Some(text) => Ok(text),
                        None => Err(Error::InvalidEncoding),
                    };
                }
                bytes.push(byte);
                proof {
                    assert(bytes@ =~= old(reader)@.take(bytes@.len() as int));
                    assert(reader@ =~= old(reader)@.skip(bytes@.len() as int));
                }
            },
        }
    }
}

/// Reads a little-endian unsigned 32-bit number.
pub fn read_u32(reader: &mut ByteSource) -> (value: Result<u32, Error>)
    ensures
        (value, final(reader)@) == parse_u32(old(reader)@),
{
    let b0 = match reader.next() {
        Some(b) => b,
        None => {
            assert(reader@ =~= Seq::<u8>::empty());
            return Err(Error::UnexpectedEnd);
        },
    };
    let b1 = match reader.next() {
        Some(b) => b,
        None => {
            assert(reader@ =~= Seq::<u8>::empty());
            return Err(Error::UnexpectedEnd);
        },
    };
    let b2 = match reader.next() {
        Some(b) => b,
        None => {
            assert(reader@ =~= Seq::<u8>::empty());
            return Err(Error::UnexpectedEnd);
        },
    };
    let b3 = match reader.next() {
        Some(b) => b,
        None => {
            assert(reader@ =~= Seq::<u8>::empty());
            return Err(Error::UnexpectedEnd);
        },
    };
    assert(reader@ =~= old(reader)@.skip(4));
    Ok(b0 as u32 + 256 * (b1 as u32) + 65536 * (b2 as u32) + 16777216 * (b3 as u32))
}

/// Reads one byte.
pub fn next_or_eof(reader: &mut ByteSource) -> (byte: Result<u8, Error>)
    ensures
        (byte, final(reader)@) == parse_byte(old(reader)@),
{
    match reader.next() {
        Some(byte) => Ok(byte),
        None => Err(Error::UnexpectedEnd),
    }
}

/// Reads exactly `count` bytes.
pub fn read_bytes(reader: &mut ByteSource, count: usize) -> (bytes: Result<Vec<u8>, Error>)
    ensures
        final(reader)@ == parse_bytes(old(reader)@, count as int).1,
        match parse_bytes(old(reader)@, count as int).0 {
            Ok(taken) => bytes.is_ok() && bytes.unwrap()@ == taken,
            Err(e) => bytes == Err::<Vec<u8>, Error>(e),
        },
{
    let mut bytes: Vec<u8> = Vec::new();
    while bytes.len() < count
        invariant
            bytes@.len() <= count,
            bytes@.len() <= old(reader)@.len(),
            bytes@ == old(reader)@.take(bytes@.len() as int),
            reader@ == old(reader)@.skip(bytes@.len() as int),
        decreases count - bytes@.len(),
    {
        match reader.next() {
            None => {
                assert(reader@ =~= Seq::<u8>::empty());
                return Err(Error::UnexpectedEnd);
            },
            Some(byte) => {
                bytes.push(byte);
                proof {
                    assert(bytes@ =~= old(reader)@.take(bytes@.len() as int));
                    assert(reader@ =~= old(reader)@.skip(bytes@.len() as int));
                }
            },
        }
    }
    Ok(bytes)
}

} // verus!
