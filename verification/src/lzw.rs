use vstd::prelude::*;
use crate::error::Error;

verus! {

/// The number of slots of the code table.
pub const MAX_SEQUENCES: usize = 4096;

/// The first code that the table assigns; every smaller code is a literal
/// byte.
pub const INITIAL_SEQUENCE: usize = 256;

/// A run of consecutive bytes of the output buffer.
pub struct Span {
    pub start: int,
    pub len: int,
}

impl Span {
    /// The run is not empty and ends at or before `limit`.
    pub open spec fn inside(self, limit: int) -> bool {
        0 <= self.start && 1 <= self.len && self.start + self.len <= limit
    }
}

/// What a code means to a decoder whose next free table slot is
/// `next_code`.
pub enum CodeClass {
    /// The code is the byte itself.
    Literal,
    /// The code names a table slot that has been assigned.
    BackReference,
    /// The code names the slot that this very step is about to assign.
    TableMiss,
    /// The code names a slot beyond the next free one.
    Corrupt,
}

pub open spec fn classify(code: int, next_code: int) -> CodeClass {
    if code > next_code {
        CodeClass::Corrupt
    } else if code == next_code {
        CodeClass::TableMiss
    } else if code < INITIAL_SEQUENCE {
        CodeClass::Literal
    } else {
        CodeClass::BackReference
    }
}

/// `out` with `bytes` written over the positions from `at` on. Bytes that
/// would fall behind the end of `out` are dropped.
pub open spec fn splice(out: Seq<u8>, at: int, bytes: Seq<u8>) -> Seq<u8> {
    Seq::new(
        out.len(),
        |i: int|
            if at <= i < at + bytes.len() {
                bytes[i - at]
            } else {
                out[i]
            },
    )
}

/// The state of the decoder between two codes.
///
/// The table holds no bytes of its own: each slot is a run of the output
/// written so far.
pub struct Lzw {
    /// The output buffer, at its full length from the start.
    pub out: Seq<u8>,
    /// The code table, one run for each of the 4096 codes.
    pub table: Seq<Span>,
    /// The slot that the next step assigns.
    pub next_code: int,
    /// The run that the last code stood for.
    pub previous: Span,
    /// The number of output bytes written so far.
    pub cursor: int,
}

impl Lzw {
    /// The state after the first byte of the payload, which is stored as it
    /// is, has been written to a buffer of `size` zero bytes.
    pub open spec fn init(first: u8, size: int) -> Lzw {
        Lzw {
            out: Seq::new(size as nat, |i: int| if i == 0 { first } else { 0u8 }),
            table: Seq::new(MAX_SEQUENCES as nat, |c: int| Span { start: 0, len: 1 }),
            next_code: INITIAL_SEQUENCE as int,
            previous: Span { start: 0, len: 1 },
            cursor: 1,
        }
    }

    /// Every run that the state speaks of lies in the part of the output
    /// that has been written, and the part that has not is still zero.
    pub open spec fn wf(self) -> bool {
        &&& self.table.len() == MAX_SEQUENCES
        &&& INITIAL_SEQUENCE <= self.next_code < MAX_SEQUENCES
        &&& 1 <= self.cursor <= self.out.len()
        &&& self.previous.inside(self.cursor)
        &&& forall|c: int| 0 <= c < MAX_SEQUENCES ==> (#[trigger] self.table[c]).inside(self.cursor)
        &&& forall|i: int| self.cursor <= i < self.out.len() ==> self.out[i] == 0
    }

    /// The bytes that `code` adds to the output.
    pub open spec fn written(self, code: int) -> Seq<u8> {
        match classify(code, self.next_code) {
            CodeClass::Literal => seq![code as u8],
            CodeClass::BackReference => self.out.subrange(
                self.table[code].start,
                self.table[code].start + self.table[code].len,
            ),
            CodeClass::TableMiss => self.out.subrange(
                self.previous.start,
                self.previous.start + self.previous.len,
            ).push(self.out[self.previous.start]),
            CodeClass::Corrupt => Seq::empty(),
        }
    }

    /// The run that stands for `code` from now on. For a back reference it
    /// is the run of the table, not the copy that the step appends.
    pub open spec fn emitted(self, code: int) -> Span {
        match classify(code, self.next_code) {
            CodeClass::BackReference => self.table[code],
            _ => Span { start: self.cursor, len: self.written(code).len() as int },
        }
    }

    /// The bytes that `code` adds do not reach beyond the end of the output.
    pub open spec fn fits(self, code: int) -> bool {
        self.cursor + self.written(code).len() <= self.out.len()
    }

    /// The slot after `next_code`; behind the last slot the count starts
    /// again at the first assignable one.
    pub open spec fn following_code(self) -> int {
        if self.next_code + 1 >= MAX_SEQUENCES {
            INITIAL_SEQUENCE as int
        } else {
            self.next_code + 1
        }
    }

    /// The state after `code`: its bytes are appended, the next free slot
    /// is assigned the previous run grown by one byte, and the run of `code`
    /// becomes the previous one.
    pub open spec fn step(self, code: int) -> Lzw {
        Lzw {
            out: splice(self.out, self.cursor, self.written(code)),
            table: self.table.update(
                self.next_code,
                Span { start: self.previous.start, len: self.previous.len + 1 },
            ),
            next_code: self.following_code(),
            previous: self.emitted(code),
            cursor: self.cursor + self.written(code).len(),
        }
    }
}

/// The number of payload bytes that have been consumed once code number
/// `k` has been read. Code number 0 is the first byte, which is read
/// together with the byte that holds the low bits of code number 1.
pub open spec fn bytes_through(k: int) -> int {
    2 + k + k / 2
}

/// Code number `k` of the payload `src`, for `k >= 1`. Two codes of twelve
/// bits share three bytes: an odd code takes the high half of its first
/// byte and all of its second, an even code all of its first byte and the
/// low half of its second.
pub open spec fn code_at(src: Seq<u8>, k: int) -> int {
    let end = bytes_through(k);
    if k % 2 == 0 {
        (src[end - 1] % 16) * 256 + src[end - 2]
    } else {
        src[end - 1] * 16 + src[end - 2] / 16
    }
}

/// Runs the decoder from code number `k` on. The result is the state in
/// which it stops, or the reason why it fails, together with the number of
/// bytes of `src` that have been consumed by then.
///
/// A code is read only if it ends inside the first `budget` bytes. A
/// corrupt code ends the run without an error: the output stays as it is,
/// and the source is left one byte behind the budget, or at its end.
pub open spec fn decode_from(src: Seq<u8>, budget: int, st: Lzw, k: int) -> (Result<Lzw, Error>, int)
    decreases budget - k,
{
    if k < 1 || bytes_through(k) > budget {
        (Ok(st), bytes_through(k - 1))
    } else if src.len() < bytes_through(k) {
        (Err(Error::UnexpectedEnd), src.len() as int)
    } else if classify(code_at(src, k), st.next_code) is Corrupt {
        (Ok(st), if src.len() < budget + 1 { src.len() as int } else { budget + 1 })
    } else if !st.fits(code_at(src, k)) {
        (Err(Error::Overrun), bytes_through(k))
    } else {
        decode_from(src, budget, st.step(code_at(src, k)), k + 1)
    }
}

/// Unpacking a payload of `budget` stored bytes into `size` bytes: the
/// bytes, or the reason for the failure, and what is left of the source.
pub open spec fn parse_packed(src: Seq<u8>, budget: int, size: int) -> (
    Result<Seq<u8>, Error>,
    Seq<u8>,
) {
    if src.len() == 0 {
        (Err(Error::UnexpectedEnd), src)
    } else if size <= 0 {
        (Err(Error::Overrun), src.skip(1))
    } else if src.len() == 1 {
        (Err(Error::UnexpectedEnd), Seq::empty())
    } else {
        let run = decode_from(src, budget, Lzw::init(src[0], size), 1);
        (
            match run.0 {
                Ok(st) => Ok(st.out),
                Err(e) => Err(e),
            },
            src.skip(run.1),
        )
    }
}

/// The initial state is well formed.
pub proof fn lemma_init_wf(first: u8, size: int)
    requires
        size >= 1,
    ensures
        Lzw::init(first, size).wf(),
        Lzw::init(first, size).out.len() == size,
        Lzw::init(first, size).out[0] == first,
{
}

/// A step keeps the state well formed. It changes no byte that was written
/// before it, so no run of the table is ever altered, and it leaves the
/// length of the output as it is.
pub proof fn lemma_step_wf(st: Lzw, code: int)
    requires
        st.wf(),
        0 <= code <= st.next_code,
        st.fits(code),
    ensures
        st.step(code).wf(),
        st.step(code).out.len() == st.out.len(),
        st.step(code).cursor > st.cursor,
        forall|i: int| 0 <= i < st.cursor ==> st.step(code).out[i] == st.out[i],
{
    let next = st.step(code);
    assert(st.table[code].inside(st.cursor));
    assert(st.written(code).len() >= 1);
    assert forall|c: int| 0 <= c < MAX_SEQUENCES implies (#[trigger] next.table[c]).inside(
        next.cursor,
    ) by {
        if c != st.next_code {
            assert(st.table[c].inside(st.cursor));
        }
    }
}

/// A literal code adds one byte, which is the code itself.
pub proof fn lemma_literal(st: Lzw, code: int)
    requires
        st.wf(),
        0 <= code < INITIAL_SEQUENCE,
        st.fits(code),
    ensures
        st.written(code) == seq![code as u8],
        st.step(code).cursor == st.cursor + 1,
        st.step(code).out[st.cursor] == code,
        st.step(code).previous == (Span { start: st.cursor, len: 1 }),
{
}

/// A back reference appends a copy of the run that its slot holds, and that
/// run, not the copy, becomes the previous one.
pub proof fn lemma_back_reference(st: Lzw, code: int)
    requires
        st.wf(),
        INITIAL_SEQUENCE <= code < st.next_code,
        st.fits(code),
    ensures
        st.step(code).cursor == st.cursor + st.table[code].len,
        forall|i: int|
            st.cursor <= i < st.cursor + st.table[code].len ==> #[trigger] st.step(code).out[i]
                == st.out[st.table[code].start + (i - st.cursor)],
        st.step(code).previous == st.table[code],
{
    assert(st.table[code].inside(st.cursor));
}

/// A code that names the slot about to be assigned appends the previous run
/// and then the first byte of that run once more.
pub proof fn lemma_table_miss(st: Lzw, code: int)
    requires
        st.wf(),
        code == st.next_code,
        st.fits(code),
    ensures
        st.written(code).len() == st.previous.len + 1,
        st.written(code).last() == st.out[st.previous.start],
        st.step(code).cursor == st.cursor + st.previous.len + 1,
        forall|i: int|
            st.cursor <= i < st.cursor + st.previous.len ==> #[trigger] st.step(code).out[i]
                == st.out[st.previous.start + (i - st.cursor)],
        st.step(code).out[st.cursor + st.previous.len] == st.out[st.previous.start],
        st.step(code).previous == (Span { start: st.cursor, len: st.previous.len + 1 }),
{
}

/// A run of the decoder never reads behind the end of the source and never
/// gives bytes back. Where it succeeds, the state in which it stops is well
/// formed: the output has kept its length, what had been written before the
/// run is unchanged, and what has not been written is zero.
pub proof fn lemma_decode_from(src: Seq<u8>, budget: int, st: Lzw, k: int)
    requires
        st.wf(),
        k >= 1,
        bytes_through(k - 1) <= src.len(),
    ensures
        bytes_through(k - 1) <= decode_from(src, budget, st, k).1 <= src.len(),
        match decode_from(src, budget, st, k).0 {
            Ok(last) => {
                &&& last.wf()
                &&& last.out.len() == st.out.len()
                &&& last.cursor >= st.cursor
                &&& forall|i: int| 0 <= i < st.cursor ==> last.out[i] == st.out[i]
                &&& forall|i: int| last.cursor <= i < last.out.len() ==> last.out[i] == 0
            },
            Err(e) => e == Error::UnexpectedEnd || e == Error::Overrun,
        },
    decreases budget - k,
{
    if bytes_through(k) <= budget && src.len() >= bytes_through(k) {
        let code = code_at(src, k);
        if !(classify(code, st.next_code) is Corrupt) && st.fits(code) {
            lemma_step_wf(st, code);
            lemma_decode_from(src, budget, st.step(code), k + 1);
        }
    }
}

/// Unpacking gives no bytes back to the source. Where it succeeds, the
/// output has exactly the length that was asked for, whether the payload
/// was decoded to its end or cut short by a corrupt code.
pub proof fn lemma_parse_packed(src: Seq<u8>, budget: int, size: int)
    ensures
        parse_packed(src, budget, size).1.len() <= src.len(),
        src.len() > 0 ==> parse_packed(src, budget, size).1.len() < src.len(),
        match parse_packed(src, budget, size).0 {
            Ok(out) => size >= 1 && out.len() == size && out[0] == src[0],
            Err(e) => e == Error::UnexpectedEnd || e == Error::Overrun,
        },
{
    if src.len() >= 2 && size >= 1 {
        lemma_init_wf(src[0], size);
        lemma_decode_from(src, budget, Lzw::init(src[0], size), 1);
    }
}

/// The state after the codes of `codes` have been decoded one after
/// another.
pub open spec fn run(st: Lzw, codes: Seq<int>) -> Lzw
    decreases codes.len(),
{
    if codes.len() == 0 {
        st
    } else {
        run(st.step(codes[0]), codes.skip(1))
    }
}

/// The codes that `decode_from` decodes before it stops.
pub open spec fn decoded_codes(src: Seq<u8>, budget: int, st: Lzw, k: int) -> Seq<int>
    decreases budget - k,
{
    if k < 1 || bytes_through(k) > budget || src.len() < bytes_through(k) {
        Seq::empty()
    } else if classify(code_at(src, k), st.next_code) is Corrupt || !st.fits(code_at(src, k)) {
        Seq::empty()
    } else {
        seq![code_at(src, k)] + decoded_codes(src, budget, st.step(code_at(src, k)), k + 1)
    }
}

/// Where the decoder succeeds, the state in which it stops is the one that
/// its codes lead to, step by step; and these are consecutive codes of the
/// payload.
pub proof fn lemma_decode_is_run(src: Seq<u8>, budget: int, st: Lzw, k: int)
    requires
        decode_from(src, budget, st, k).0 is Ok,
    ensures
        decode_from(src, budget, st, k).0 == Ok::<Lzw, Error>(
            run(st, decoded_codes(src, budget, st, k)),
        ),
        forall|i: int|
            0 <= i < decoded_codes(src, budget, st, k).len() ==> #[trigger] decoded_codes(
                src,
                budget,
                st,
                k,
            )[i] == code_at(src, k + i),
    decreases budget - k,
{
    let codes = decoded_codes(src, budget, st, k);
    if codes.len() > 0 {
        let code = code_at(src, k);
        lemma_decode_is_run(src, budget, st.step(code), k + 1);
        assert(codes.skip(1) =~= decoded_codes(src, budget, st.step(code), k + 1));
    }
}

/// Decoding one more code after a run is one step from where the run ends.
pub proof fn lemma_run_push(st: Lzw, codes: Seq<int>, code: int)
    ensures
        run(st, codes.push(code)) == run(st, codes).step(code),
    decreases codes.len(),
{
    let longer = codes.push(code);
    assert(run(st, longer) == run(st.step(longer[0]), longer.skip(1)));
    if codes.len() == 0 {
        assert(longer.skip(1) =~= Seq::<int>::empty());
        assert(run(st.step(code), Seq::<int>::empty()) == st.step(code));
    } else {
        assert(longer.skip(1) =~= codes.skip(1).push(code));
        lemma_run_push(st.step(codes[0]), codes.skip(1), code);
    }
}

/// The number of table slots that a decoder assigns before it starts again
/// at the first of them.
pub open spec fn assignable() -> int {
    MAX_SEQUENCES - INITIAL_SEQUENCE
}

/// The next free slot goes up by one with each code, and behind the last
/// slot it starts again at the first assignable one.
pub proof fn lemma_next_code_cycles(st: Lzw, codes: Seq<int>)
    requires
        st.table.len() == MAX_SEQUENCES,
        INITIAL_SEQUENCE <= st.next_code < MAX_SEQUENCES,
    ensures
        run(st, codes).next_code == INITIAL_SEQUENCE + (st.next_code - INITIAL_SEQUENCE
            + codes.len()) % assignable(),
        run(st, codes).table.len() == st.table.len(),
    decreases codes.len(),
{
    if codes.len() > 0 {
        let shorter = codes.drop_last();
        assert(shorter.push(codes.last()) =~= codes);
        lemma_run_push(st, shorter, codes.last());
        lemma_next_code_cycles(st, shorter);
    }
}

/// A slot below the next free one holds the run that was assigned to it
/// since the count last started over: the previous run, grown by one byte,
/// of the state that stood `next_code - slot` codes ago. So however often
/// the slots have been used up and assigned anew, a back reference resolves
/// to the latest assignment of its slot and never to an older one.
pub proof fn lemma_wraparound(st: Lzw, codes: Seq<int>, slot: int)
    requires
        st.table.len() == MAX_SEQUENCES,
        INITIAL_SEQUENCE <= st.next_code < MAX_SEQUENCES,
        INITIAL_SEQUENCE <= slot < run(st, codes).next_code,
        run(st, codes).next_code - slot <= codes.len(),
    ensures
        ({
            let then = run(st, codes.take(codes.len() - (run(st, codes).next_code - slot)));
            &&& then.next_code == slot
            &&& run(st, codes).table[slot] == Span {
                start: then.previous.start,
                len: then.previous.len + 1,
            }
            &&& run(st, codes).emitted(slot) == run(st, codes).table[slot]
        }),
    decreases codes.len(),
{
    let last = run(st, codes);
    let shorter = codes.drop_last();
    let before = run(st, shorter);
    assert(shorter.push(codes.last()) =~= codes);
    lemma_run_push(st, shorter, codes.last());
    lemma_next_code_cycles(st, shorter);
    let at = codes.len() - (last.next_code - slot);
    if slot == last.next_code - 1 {
        assert(codes.take(at) =~= shorter);
    } else {
        lemma_wraparound(st, shorter, slot);
        assert(shorter.take(at) =~= codes.take(at));
    }
}

/// Counted from the initial state, every slot below the next free one has
/// been assigned since the count last started over.
pub proof fn lemma_assigned_since_start(first: u8, size: int, codes: Seq<int>)
    ensures
        run(Lzw::init(first, size), codes).next_code - INITIAL_SEQUENCE <= codes.len(),
{
    lemma_next_code_cycles(Lzw::init(first, size), codes);
}

/// A run that succeeds looks at no byte behind the place where it stops:
/// on a source that is cut off at or behind that place it does the same.
pub proof fn lemma_decode_prefix(src: Seq<u8>, m: int, budget: int, st: Lzw, k: int)
    requires
        st.wf(),
        k >= 1,
        bytes_through(k - 1) <= src.len(),
        decode_from(src, budget, st, k).0 is Ok,
        decode_from(src, budget, st, k).1 <= m <= src.len(),
    ensures
        decode_from(src.take(m), budget, st, k) == decode_from(src, budget, st, k),
    decreases budget - k,
{
    if bytes_through(k) <= budget {
        let code = code_at(src, k);
        if classify(code, st.next_code) is Corrupt {
            assert(code_at(src.take(m), k) == code);
        } else {
            lemma_step_wf(st, code);
            lemma_decode_from(src, budget, st.step(code), k + 1);
            assert(code_at(src.take(m), k) == code);
            lemma_decode_prefix(src, m, budget, st.step(code), k + 1);
        }
    }
}

/// Unpacking that succeeds does the same on a source that is cut off at or
/// behind the place where it stops.
pub proof fn lemma_packed_prefix(src: Seq<u8>, budget: int, size: int, m: int)
    requires
        parse_packed(src, budget, size).0 is Ok,
        src.len() - parse_packed(src, budget, size).1.len() <= m <= src.len(),
    ensures
        parse_packed(src, budget, size).1 == src.skip(
            src.len() - parse_packed(src, budget, size).1.len(),
        ),
        parse_packed(src.take(m), budget, size) == (
            parse_packed(src, budget, size).0,
            parse_packed(src, budget, size).1.take(
                m - (src.len() - parse_packed(src, budget, size).1.len()),
            ),
        ),
{
    let st = Lzw::init(src[0], size);
    lemma_init_wf(src[0], size);
    lemma_decode_from(src, budget, st, 1);
    lemma_decode_prefix(src, m, budget, st, 1);
    let used = decode_from(src, budget, st, 1).1;
    assert(src.take(m).skip(used) =~= src.skip(used).take(m - used));
}

} // verus!
