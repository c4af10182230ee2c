use vstd::prelude::*;
use vstd::utf8::{decode_utf8, valid_utf8};
use crate::error::Error;
use crate::lzw::{
    bytes_through, classify, code_at, decode_from, lemma_packed_prefix, lemma_parse_packed,
    lemma_step_wf, parse_packed, splice, CodeClass,
    Lzw, Span, INITIAL_SEQUENCE, MAX_SEQUENCES,
};
use crate::source::ByteSource;
use crate::utils::{
    cstr_len, le_bytes, lemma_bytes_prefix, lemma_cstr_len_bounds, lemma_cstr_prefix,
    lemma_cstr_written, lemma_readers_consume, lemma_u32_prefix, lemma_u32_written, next_or_eof, parse_bytes, parse_cstr, parse_u32, read_bytes, read_cstr,
    read_u32,
};

verus! {

/// A run of the output buffer: where it starts and how long it is.
#[derive(Debug, Clone, Copy)]
struct Sequence {
    start: usize,
    length: usize,
}

impl View for Sequence {
    type V = Span;

    closed spec fn view(&self) -> Span {
        Span { start: self.start as int, len: self.length as int }
    }
}

impl Default for Sequence {
    fn default() -> (sequence: Sequence)
        ensures
            sequence@ == (Span { start: 0, len: 1 }),
    {
        Sequence { start: 0, length: 1 }
    }
}

/// Copies `length` bytes of `out` from `start` to `index`. The two runs do
/// not overlap.
fn copy_run(out: &mut Vec<u8>, start: usize, length: usize, index: usize)
    requires
        start + length <= index,
        index + length <= old(out).len(),
    ensures
        final(out)@ == splice(
            old(out)@,
            index as int,
            old(out)@.subrange(start as int, start + length),
        ),
{
    let mut i: usize = 0;
    while i < length
        invariant
            i <= length,
            start + length <= index,
            index + length <= out.len(),
            out.len() == old(out).len(),
            forall|j: int|
                0 <= j < out@.len() ==> #[trigger] out@[j] == (if index <= j < index + i {
                    old(out)@[j - index + start]
                } else {
                    old(out)@[j]
                }),
        decreases length - i,
    {
        let byte = out[start + i];
        out[index + i] = byte;
        i += 1;
    }
    assert(out@ =~= splice(
        old(out)@,
        index as int,
        old(out)@.subrange(start as int, start + length),
    ));
}

/// The working state of the decoder.
struct Decoder {
    decompressed: Vec<u8>,
    sequences: Vec<Sequence>,
    sequence: usize,
    previous: Sequence,
    index: usize,
}

impl View for Decoder {
    type V = Lzw;

    closed spec fn view(&self) -> Lzw {
        Lzw {
            out: self.decompressed@,
            table: self.sequences@.map_values(|s: Sequence| s@),
            next_code: self.sequence as int,
            previous: self.previous@,
            cursor: self.index as int,
        }
    }
}

impl Decoder {
    /// A buffer of `size` zero bytes that holds `first` at its start, and a
    /// table with nothing assigned.
    fn new(first: u8, size: usize) -> (decoder: Decoder)
        requires
            size >= 1,
        ensures
            decoder@ == Lzw::init(first, size as int),
    {
        let mut decompressed = vec![0u8; size];
        decompressed[0] = first;
        let sequences = vec![Sequence::default(); MAX_SEQUENCES];
        let decoder = Decoder {
            decompressed,
            sequences,
            sequence: INITIAL_SEQUENCE,
            previous: Sequence::default(),
            index: 1,
        };
        proof {
            assert(decoder@.out =~= Lzw::init(first, size as int).out);
            assert(decoder@.table =~= Lzw::init(first, size as int).table);
        }
        decoder
    }

    /// Decodes one code that is not corrupt. Where its bytes do not fit in
    /// the buffer nothing changes and the result is `false`.
    fn apply(&mut self, code: usize) -> (fits: bool)
        requires
            old(self)@.wf(),
            code <= old(self).sequence,
        ensures
            fits == old(self)@.fits(code as int),
            fits ==> final(self)@ == old(self)@.step(code as int),
            !fits ==> final(self)@ == old(self)@,
    {
        let ghost before = self@;
        let room = self.decompressed.len() - self.index;
        let emitted = if code < self.sequence {
            if code < INITIAL_SEQUENCE {
                if room < 1 {
                    return false;
                }
                let start = self.index;
                self.decompressed[start] = code as u8;
                self.index += 1;
                Sequence { start, length: 1 }
            } else {
                let found = self.sequences[code];
                assert(before.table[code as int].inside(before.cursor));
                if found.length > room {
                    return false;
                }
                copy_run(&mut self.decompressed, found.start, found.length, self.index);
                self.index += found.length;
                found
            }
        } else {
            let start = self.index;
            let run = self.previous;
            if run.length >= room {
                return false;
            }
            copy_run(&mut self.decompressed, run.start, run.length, start);
            self.index += run.length;
            let first = self.decompressed[run.start];
            self.decompressed[self.index] = first;
            self.index += 1;
            Sequence { start, length: run.length + 1 }
        };
        assert(self.decompressed@ =~= before.step(code as int).out);
        assert(emitted@ == before.emitted(code as int));

        self.sequences[self.sequence] = Sequence {
            start: self.previous.start,
            length: self.previous.length + 1,
        };
        self.previous = emitted;
        self.sequence += 1;
        if self.sequence >= MAX_SEQUENCES {
            self.sequence = INITIAL_SEQUENCE;
        }
        assert(self@.table =~= before.step(code as int).table);
        true
    }
}

/// A decoded entry of an archive.
#[derive(Debug)]
pub struct MViewEntry {
    pub name: String,
    pub data: Vec<u8>,
    pub mime_type: String,
}

/// What an entry holds: the characters of its name and of its MIME type,
/// and the bytes of its payload as they were before packing.
pub struct EntryView {
    pub name: Seq<char>,
    pub data: Seq<u8>,
    pub mime_type: Seq<char>,
}

impl View for MViewEntry {
    type V = EntryView;

    open spec fn view(&self) -> EntryView {
        EntryView { name: self.name@, data: self.data@, mime_type: self.mime_type@ }
    }
}

/// The fields that stand before the payload of an entry.
pub struct Header {
    pub name: Seq<char>,
    pub mime_type: Seq<char>,
    /// Bit 0 of the flags word: the payload is packed.
    pub is_compressed: bool,
    /// The number of bytes that the payload occupies in the archive.
    pub payload_size: int,
    /// The number of bytes that a packed payload unpacks to.
    pub decoded_size: int,
}

/// Reading the header of an entry: two NUL-terminated strings and three
/// little-endian words. The first failure ends the reading.
pub open spec fn parse_header(s: Seq<u8>) -> (Result<Header, Error>, Seq<u8>) {
    match parse_cstr(s) {
        (Err(e), rest) => (Err(e), rest),
        (Ok(name), rest) => match parse_cstr(rest) {
            (Err(e), rest) => (Err(e), rest),
            (Ok(mime_type), rest) => match parse_u32(rest) {
                (Err(e), rest) => (Err(e), rest),
                (Ok(flags), rest) => match parse_u32(rest) {
                    (Err(e), rest) => (Err(e), rest),
                    (Ok(payload_size), rest) => match parse_u32(rest) {
                        (Err(e), rest) => (Err(e), rest),
                        (Ok(decoded_size), rest) => (
                            Ok(
                                Header {
                                    name,
                                    mime_type,
                                    is_compressed: flags % 2 == 1,
                                    payload_size: payload_size as int,
                                    decoded_size: decoded_size as int,
                                },
                            ),
                            rest,
                        ),
                    },
                },
            },
        },
    }
}

/// Reading the payload that follows `header`: unpacked where the header
/// says that it is packed, taken as it stands where not.
pub open spec fn parse_payload(header: Header, s: Seq<u8>) -> (Result<Seq<u8>, Error>, Seq<u8>) {
    if header.is_compressed {
        parse_packed(s, header.payload_size, header.decoded_size)
    } else {
        parse_bytes(s, header.payload_size)
    }
}

/// Reading one entry: the entry, or the reason for the failure, and what is
/// left of the source.
pub open spec fn parse_entry(s: Seq<u8>) -> (Result<EntryView, Error>, Seq<u8>) {
    match parse_header(s) {
        (Err(e), rest) => (Err(e), rest),
        (Ok(header), rest) => match parse_payload(header, rest) {
            (Err(e), rest) => (Err(e), rest),
            (Ok(data), rest) => (
                Ok(EntryView { name: header.name, data, mime_type: header.mime_type }),
                rest,
            ),
        },
    }
}

/// What a decoded entry, or the failure to decode one, stands for.
pub open spec fn outcome(entry: Result<MViewEntry, Error>) -> Result<EntryView, Error> {
    match entry {
        Ok(entry) => Ok(entry@),
        Err(e) => Err(e),
    }
}

/// Reading an entry gives no bytes back to the source, and consumes at
/// least one byte unless the source is empty.
pub proof fn lemma_entry_consumes(s: Seq<u8>)
    ensures
        parse_header(s).1.len() <= s.len(),
        parse_entry(s).1.len() <= s.len(),
        s.len() > 0 ==> parse_entry(s).1.len() < s.len(),
{
    let s1 = parse_cstr(s).1;
    let s2 = parse_cstr(s1).1;
    let s3 = parse_u32(s2).1;
    let s4 = parse_u32(s3).1;
    let s5 = parse_u32(s4).1;
    lemma_readers_consume(s, 0);
    lemma_readers_consume(s1, 0);
    lemma_readers_consume(s2, 0);
    lemma_readers_consume(s3, 0);
    lemma_readers_consume(s4, 0);
    if let (Ok(header), rest) = parse_header(s) {
        assert(rest == s5);
        lemma_readers_consume(s5, header.payload_size);
        lemma_parse_packed(s5, header.payload_size, header.decoded_size);
    }
}

/// Reading a header from a source that is cut off after `m` bytes: the
/// same header, and the rest cut off at the same place, where the cut
/// stands at or behind the end of the header; `UnexpectedEnd`, with nothing
/// left of the source, where it stands before that end.
pub proof fn lemma_header_prefix(s: Seq<u8>, m: int)
    requires
        parse_header(s).0 is Ok,
        0 <= m <= s.len(),
    ensures
        parse_header(s).1 == s.skip(s.len() - parse_header(s).1.len()),
        14 <= s.len() - parse_header(s).1.len(),
        m >= s.len() - parse_header(s).1.len() ==> parse_header(s.take(m)) == (
            parse_header(s).0,
            parse_header(s).1.take(m - (s.len() - parse_header(s).1.len())),
        ),
        m < s.len() - parse_header(s).1.len() ==> parse_header(s.take(m)) == (
            Err::<Header, Error>(Error::UnexpectedEnd),
            Seq::<u8>::empty(),
        ),
{
    let s1 = parse_cstr(s).1;
    let s2 = parse_cstr(s1).1;
    let s3 = parse_u32(s2).1;
    let s4 = parse_u32(s3).1;
    let s5 = parse_u32(s4).1;
    let u1 = cstr_len(s) + 1;
    let u2 = u1 + cstr_len(s1) + 1;
    lemma_cstr_len_bounds(s);
    lemma_cstr_len_bounds(s1);
    assert(s1 == s.skip(u1));
    assert(s2 =~= s.skip(u2));
    assert(s3 =~= s.skip(u2 + 4));
    assert(s4 =~= s.skip(u2 + 8));
    assert(s5 =~= s.skip(u2 + 12));
    lemma_cstr_prefix(s, m);
    if m >= u1 {
        lemma_cstr_prefix(s1, m - u1);
        if m >= u2 {
            lemma_u32_prefix(s2, m - u2);
            if m >= u2 + 4 {
                lemma_u32_prefix(s3, m - u2 - 4);
                if m >= u2 + 8 {
                    lemma_u32_prefix(s4, m - u2 - 8);
                }
            }
        }
    }
}

/// Reading an entry that can be decoded from a source that is cut off at or
/// behind the end of that entry: the same entry, and the rest cut off at
/// the same place.
pub proof fn lemma_entry_prefix(s: Seq<u8>, m: int)
    requires
        parse_entry(s).0 is Ok,
        s.len() - parse_entry(s).1.len() <= m <= s.len(),
    ensures
        parse_entry(s).1 == s.skip(s.len() - parse_entry(s).1.len()),
        parse_entry(s.take(m)) == (
            parse_entry(s).0,
            parse_entry(s).1.take(m - (s.len() - parse_entry(s).1.len())),
        ),
{
    let header = parse_header(s).0->Ok_0;
    let body = parse_header(s).1;
    let h = s.len() - body.len();
    lemma_entry_consumes(s);
    lemma_header_prefix(s, m);
    if header.is_compressed {
        lemma_parse_packed(body, header.payload_size, header.decoded_size);
        lemma_packed_prefix(body, header.payload_size, header.decoded_size, m - h);
    } else {
        lemma_bytes_prefix(body, header.payload_size, m - h);
    }
    let rest = parse_payload(header, body).1;
    assert(rest == body.skip(body.len() - rest.len()));
    assert(s.skip(h).skip(body.len() - rest.len()) =~= s.skip(s.len() - rest.len()));
}

/// An entry that is stored as it stands holds exactly the bytes that follow
/// its header, as many as the header says; the size that the header gives
/// for the decoded payload plays no part.
pub proof fn lemma_stored_entry(s: Seq<u8>)
    requires
        parse_header(s).0 is Ok,
        !parse_header(s).0->Ok_0.is_compressed,
        parse_header(s).0->Ok_0.payload_size <= parse_header(s).1.len(),
    ensures
        parse_entry(s).0 is Ok,
        parse_entry(s).0->Ok_0.name == parse_header(s).0->Ok_0.name,
        parse_entry(s).0->Ok_0.mime_type == parse_header(s).0->Ok_0.mime_type,
        parse_entry(s).0->Ok_0.data == parse_header(s).1.take(
            parse_header(s).0->Ok_0.payload_size,
        ),
        parse_entry(s).0->Ok_0.data.len() == parse_header(s).0->Ok_0.payload_size,
        parse_entry(s).1 == parse_header(s).1.skip(parse_header(s).0->Ok_0.payload_size),
{
}

/// The bytes of a header, as an archive holds them.
pub open spec fn header_bytes(
    name: Seq<u8>,
    mime_type: Seq<u8>,
    flags: u32,
    payload_size: u32,
    decoded_size: u32,
) -> Seq<u8> {
    name.push(0) + mime_type.push(0) + le_bytes(flags) + le_bytes(payload_size) + le_bytes(
        decoded_size,
    )
}

/// A header whose two strings are valid UTF-8 without NUL bytes is read
/// back from the front of any source that starts with its bytes.
pub proof fn lemma_header_written(
    name: Seq<u8>,
    mime_type: Seq<u8>,
    flags: u32,
    payload_size: u32,
    decoded_size: u32,
    tail: Seq<u8>,
)
    requires
        forall|i: int| 0 <= i < name.len() ==> name[i] != 0,
        forall|i: int| 0 <= i < mime_type.len() ==> mime_type[i] != 0,
        valid_utf8(name),
        valid_utf8(mime_type),
    ensures
        parse_header(header_bytes(name, mime_type, flags, payload_size, decoded_size) + tail) == (
            Ok::<Header, Error>(
                Header {
                    name: decode_utf8(name),
                    mime_type: decode_utf8(mime_type),
                    is_compressed: flags % 2 == 1,
                    payload_size: payload_size as int,
                    decoded_size: decoded_size as int,
                },
            ),
            tail,
        ),
{
    let s4 = le_bytes(decoded_size) + tail;
    let s3 = le_bytes(payload_size) + s4;
    let s2 = le_bytes(flags) + s3;
    let s1 = mime_type.push(0) + s2;
    let s = name.push(0) + s1;
    assert(header_bytes(name, mime_type, flags, payload_size, decoded_size) + tail =~= s);
    lemma_cstr_written(name, s1);
    lemma_cstr_written(mime_type, s2);
    lemma_u32_written(flags, s3);
    lemma_u32_written(payload_size, s4);
    lemma_u32_written(decoded_size, tail);
}

/// An entry that is written down as stored, with its payload behind its
/// header as it stands, is read back byte for byte, and the source is left
/// at the byte behind the payload.
pub proof fn lemma_stored_entry_written(
    name: Seq<u8>,
    mime_type: Seq<u8>,
    flags: u32,
    decoded_size: u32,
    payload: Seq<u8>,
    tail: Seq<u8>,
)
    requires
        forall|i: int| 0 <= i < name.len() ==> name[i] != 0,
        forall|i: int| 0 <= i < mime_type.len() ==> mime_type[i] != 0,
        valid_utf8(name),
        valid_utf8(mime_type),
        flags % 2 == 0,
        payload.len() <= u32::MAX,
    ensures
        parse_entry(
            header_bytes(name, mime_type, flags, payload.len() as u32, decoded_size) + payload
                + tail,
        ) == (
            Ok::<EntryView, Error>(
                EntryView {
                    name: decode_utf8(name),
                    data: payload,
                    mime_type: decode_utf8(mime_type),
                },
            ),
            tail,
        ),
{
    let head = header_bytes(name, mime_type, flags, payload.len() as u32, decoded_size);
    assert(head + payload + tail =~= head + (payload + tail));
    lemma_header_written(name, mime_type, flags, payload.len() as u32, decoded_size, payload + tail);
    assert((payload + tail).take(payload.len() as int) =~= payload);
    assert((payload + tail).skip(payload.len() as int) =~= tail);
}

/// A packed entry that can be decoded holds exactly as many bytes as its
/// header gives for the decoded payload, whether or not a corrupt code cut
/// the decoding short.
pub proof fn lemma_packed_entry(s: Seq<u8>)
    requires
        parse_header(s).0 is Ok,
        parse_header(s).0->Ok_0.is_compressed,
        parse_entry(s).0 is Ok,
    ensures
        parse_entry(s).0->Ok_0.data.len() == parse_header(s).0->Ok_0.decoded_size,
{
    let header = parse_header(s).0->Ok_0;
    lemma_parse_packed(parse_header(s).1, header.payload_size, header.decoded_size);
}

impl MViewEntry {
    /// Reads the entry at which the source stands.
    pub fn try_from(bytes: &mut ByteSource) -> (entry: Result<MViewEntry, Error>)
        ensures
            (outcome(entry), final(bytes)@) == parse_entry(old(bytes)@),
    {
        let name = match read_cstr(bytes) {
            Ok(text) => text,
            Err(e) => {
                return Err(e);
            },
        };
        let mime_type = match read_cstr(bytes) {
            Ok(text) => text,
            Err(e) => {
                return Err(e);
            },
        };
        let flags = match read_u32(bytes) {
            Ok(word) => word,
            Err(e) => {
                return Err(e);
            },
        };
        assert((flags & 1 != 0) == (flags % 2 == 1)) by (bit_vector);
        let is_compressed = (flags & 1) != 0;
        let data_size = match read_u32(bytes) {
            Ok(word) => word as usize,
            Err(e) => {
                return Err(e);
            },
        };
        let uncompressed_size = match read_u32(bytes) {
            Ok(word) => word as usize,
            Err(e) => {
                return Err(e);
            },
        };
        let payload = if is_compressed {
            Self::decompress(bytes, data_size, uncompressed_size)
        } else {
            read_bytes(bytes, data_size)
        };
        let data = match payload {
            Ok(data) => data,
            Err(e) => {
                return Err(e);
            },
        };
        Ok(MViewEntry { name, data, mime_type })
    }

    /// Unpacks a payload that occupies `compressed_size` bytes of the source
    /// into `uncompressed_size` bytes.
    ///
    /// The first byte is stored as it is. After it come codes of twelve
    /// bits, each of which is a literal byte, a reference to a run that an
    /// earlier code produced, or the run of the code before it grown by its
    /// own first byte. A code beyond the next free table slot ends the
    /// decoding early: the rest of the payload is skipped and the rest of
    /// the output stays zero.
    pub fn decompress(
        data: &mut ByteSource,
        compressed_size: usize,
        uncompressed_size: usize,
    ) -> (bytes: Result<Vec<u8>, Error>)
        ensures
            final(data)@ == parse_packed(
                old(data)@,
                compressed_size as int,
                uncompressed_size as int,
            ).1,
            match parse_packed(old(data)@, compressed_size as int, uncompressed_size as int).0 {
                Ok(out) => bytes.is_ok() && bytes.unwrap()@ == out,
                Err(e) => bytes == Err::<Vec<u8>, Error>(e),
            },
            bytes.is_ok() ==> bytes.unwrap()@.len() == uncompressed_size,
    {
        let ghost src = data@;
        let first = match next_or_eof(data) {
            Ok(byte) => byte,
            Err(e) => {
                return Err(e);
            },
        };
        if uncompressed_size == 0 {
            return Err(Error::Overrun);
        }
        let mut prev_high = match next_or_eof(data) {
            Ok(byte) => byte,
            Err(e) => {
                assert(data@ =~= Seq::<u8>::empty());
                return Err(e);
            },
        };
        let mut decoder = Decoder::new(first, uncompressed_size);
        let mut counter: usize = 1;
        let ghost goal = decode_from(src, compressed_size as int, decoder@, 1);
        proof {
            crate::lzw::lemma_init_wf(first, uncompressed_size as int);
            assert(data@ =~= src.skip(2));
        }
        loop
            invariant_except_break
                counter >= 1,
                bytes_through(counter - 1) <= src.len(),
                counter == 1 || bytes_through(counter - 1) <= compressed_size,
                data@ == src.skip(bytes_through(counter - 1)),
                prev_high == src[bytes_through(counter - 1) - 1],
                decode_from(src, compressed_size as int, decoder@, counter as int) == goal,
            invariant
                src == old(data)@,
                src.len() >= 2,
                uncompressed_size >= 1,
                goal == decode_from(
                    src,
                    compressed_size as int,
                    Lzw::init(src[0], uncompressed_size as int),
                    1,
                ),
                decoder@.wf(),
                decoder@.out.len() == uncompressed_size,
            ensures
                goal.0 == Ok::<Lzw, Error>(decoder@),
                0 <= goal.1 <= src.len(),
                data@ == src.skip(goal.1),
            decreases data@.len(),
        {
            // Position in the packed payload
            let packed_pos = counter + counter / 2;
            if compressed_size <= 1 || packed_pos >= compressed_size - 1 {
                break;
            }
            // Extract the twelve-bit code
            let code = if counter % 2 == 0 {
                let low = match next_or_eof(data) {
                    Ok(byte) => byte,
                    Err(e) => {
                        assert(data@ =~= src.skip(src.len() as int));
                        return Err(e);
                    },
                };
                let high = match next_or_eof(data) {
                    Ok(byte) => byte,
                    Err(e) => {
                        assert(data@ =~= src.skip(src.len() as int));
                        return Err(e);
                    },
                };
                prev_high = high;
                assert(data@ =~= src.skip(bytes_through(counter as int)));
                pack_even(low, high)
            } else {
                let low = prev_high;
                let high = match next_or_eof(data) {
                    Ok(byte) => byte,
                    Err(e) => {
                        assert(data@ =~= src.skip(src.len() as int));
                        return Err(e);
                    },
                };
                prev_high = high;
                assert(data@ =~= src.skip(bytes_through(counter as int)));
                pack_odd(low, high)
            };
            assert(code == code_at(src, counter as int));

            if code > decoder.sequence {
                // Invalid code, discard the rest of the payload
                data.discard(compressed_size - 1 - packed_pos);
                assert(classify(code as int, decoder@.next_code) is Corrupt);
                break;
            }
            assert(!(classify(code as int, decoder@.next_code) is Corrupt));
            proof {
                if decoder@.fits(code as int) {
                    lemma_step_wf(decoder@, code as int);
                }
            }
            if !decoder.apply(code) {
                return Err(Error::Overrun);
            }
            counter += 1;
        }

        Ok(decoder.decompressed)
    }
}

/// An even code: all of its first byte and the low half of its second.
fn pack_even(low: u8, high: u8) -> (code: usize)
    ensures
        code == (high % 16) * 256 + low,
{
    let low = low as u16;
    let high = high as u16;
    assert((((high & 15) << 8) | low) == (high % 16) * 256 + low) by (bit_vector)
        requires
            low < 256,
            high < 256,
    ;
    (((high & 15) << 8) | low) as usize
}

/// An odd code: the high half of its first byte and all of its second.
fn pack_odd(low: u8, high: u8) -> (code: usize)
    ensures
        code == high * 16 + low / 16,
{
    let low = low as u16;
    let high = high as u16;
    assert((high << 4 | low >> 4) == high * 16 + low / 16) by (bit_vector)
        requires
            low < 256,
            high < 256,
    ;
    (high << 4 | low >> 4) as usize
}

} // verus!
