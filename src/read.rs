//! Frame scanning: locating `/` ... `!` + checksum frames in a byte stream,
//! in one pass over a whole input or incrementally as bytes arrive.
use crate::obis::{object_spec, Object};
use crate::text::{find, find_at, find_byte, find_from, lemma_find_from};
use crate::Error;
use vstd::prelude::*;
use vstd::string::StringSliceAdditionalSpecFns;
use vstd::utf8::valid_utf8;

verus! {

/// The largest frame, in bytes, from the opening `/` through the checksum.
pub const CAPACITY: usize = 2048;

/// The scanner between two bytes: `None` while looking for a `/`, or the
/// frame read so far together with the length at which it will be complete
/// (known once its `!` has been read).
pub type ScanState = Option<(Seq<u8>, Option<int>)>;

/// A frame is being read and it has no room for another byte.
pub open spec fn is_full_state(s: ScanState) -> bool {
    match s {
        Some((c, _)) => c.len() >= CAPACITY,
        None => false,
    }
}

/// Feeds one byte to the scanner, which may complete a frame. A frame that
/// outgrows [`CAPACITY`] is dropped, and the byte that did not fit is looked
/// at again as if no frame had begun.
pub open spec fn push_byte(s: ScanState, b: u8) -> (ScanState, Option<Seq<u8>>) {
    if s is Some && !is_full_state(s) {
        let (c, end) = s->0;
        let c2 = c.push(b);
        if end == Some(c2.len() as int) {
            (None, Some(c2))
        } else if end is None && b == 33 {
            (Some((c2, Some(c2.len() + 4 as int))), None)
        } else {
            (Some((c2, end)), None)
        }
    } else if b == 47 {
        (Some((seq![b], None)), None)
    } else {
        (None, None)
    }
}

/// The state after feeding `bytes` one by one, and the frames completed on the way.
pub open spec fn scan(s: ScanState, bytes: Seq<u8>) -> (ScanState, Seq<Seq<u8>>)
    decreases bytes.len(),
{
    if bytes.len() == 0 {
        (s, Seq::empty())
    } else {
        let (s1, frames) = scan(s, bytes.drop_last());
        let (s2, out) = push_byte(s1, bytes.last());
        (
            s2,
            match out {
                Some(f) => frames.push(f),
                None => frames,
            },
        )
    }
}

/// Scanning a stream in two pieces, the second starting where the first left
/// off, gives the same frames and the same final state as scanning it whole:
/// how the input is cut into chunks does not matter.
pub proof fn lemma_scan_chunks(s: ScanState, a: Seq<u8>, b: Seq<u8>)
    ensures
        scan(s, a + b) == ({
            let (s1, f1) = scan(s, a);
            let (s2, f2) = scan(s1, b);
            (s2, f1 + f2)
        }),
    decreases b.len(),
{
    let (s1, f1) = scan(s, a);
    if b.len() == 0 {
        assert(a + b =~= a);
        assert(f1 + Seq::<Seq<u8>>::empty() =~= f1);
    } else {
        let b0 = b.drop_last();
        assert((a + b).drop_last() =~= a + b0);
        assert((a + b).last() == b.last());
        lemma_scan_chunks(s, a, b0);
        let (s2, f2) = scan(s1, b0);
        let (s3, out) = push_byte(s2, b.last());
        match out {
            Some(f) => {
                assert((f1 + f2).push(f) =~= f1 + f2.push(f));
            },
            None => {},
        }
    }
}

/// One frame read from the meter, not yet validated.
pub struct Readout {
    pub(crate) buffer: Vec<u8>,
}

impl View for Readout {
    type V = Seq<u8>;

    closed spec fn view(&self) -> Seq<u8> {
        self.buffer@
    }
}

impl Readout {
    /// The bytes of the frame, from the `/` through the checksum.
    pub fn as_bytes(&self) -> (r: &[u8])
        ensures
            r@ == self@,
    {
        self.buffer.as_slice()
    }
}

/// The bytes of the frame that a call handed out, if any.
pub open spec fn frame_of(r: Option<Readout>) -> Option<Seq<u8>> {
    match r {
        Some(f) => Some(f@),
        None => None,
    }
}

/// The frames that a call handed out: none or one.
pub open spec fn frames_of(r: Option<Readout>) -> Seq<Seq<u8>> {
    match r {
        Some(f) => seq![f@],
        None => Seq::empty(),
    }
}

/// A partially read frame.
#[derive(Debug)]
struct Buffer {
    data: Vec<u8>,
    len: Option<usize>,
}

impl Buffer {
    fn new() -> (r: Buffer)
        ensures
            r.data@ == Seq::<u8>::empty(),
            r.len is None,
    {
        Buffer { data: Vec::new(), len: None }
    }
}

/// The incremental frame scanner: what is known of the frame being read,
/// kept between calls so that no byte is lost or read twice.
pub struct Scanner {
    buffer: Option<Buffer>,
}

impl View for Scanner {
    type V = ScanState;

    closed spec fn view(&self) -> ScanState {
        match self.buffer {
            Some(b) => Some(
                (
                    b.data@,
                    match b.len {
                        Some(n) => Some(n as int),
                        None => None,
                    },
                ),
            ),
            None => None,
        }
    }
}

impl Scanner {
    /// A scanner that has not seen a frame start.
    pub fn new() -> (r: Scanner)
        ensures
            r@ is None,
    {
        Scanner { buffer: None }
    }

    /// The frame being read has no room for another byte.
    pub fn is_full(&self) -> (r: bool)
        ensures
            r == is_full_state(self@),
    {
        match &self.buffer {
            Some(b) => b.data.len() >= CAPACITY,
            None => false,
        }
    }

    /// Feeds one byte; returns the frame that it completes, if any.
    pub fn push(&mut self, b: u8) -> (r: Option<Readout>)
        ensures
            (final(self)@, frame_of(r)) == push_byte(old(self)@, b),
    {
        let filling = self.is_full();
        match self.buffer.take() {
            Some(mut buf) if !filling => {
                buf.data.push(b);
                let n = buf.data.len();
                match buf.len {
                    Some(end) => {
                        if end == n {
                            return Some(Readout { buffer: buf.data });
                        }
                    },
                    None => {
                        if b == 33 {
                            buf.len = Some(n + 4);
                        }
                    },
                }
                self.buffer = Some(buf);
                None
            },
            _ => {
                if b == 47 {
                    let mut start = Buffer::new();
                    start.data.push(b);
                    assert(start.data@ =~= seq![b]);
                    self.buffer = Some(start);
                }
                None
            },
        }
    }

    /// Reads from `data` up to and including the last byte of the next
    /// complete frame, or all of it. Returns how many bytes were consumed and
    /// the frame, if one was completed; the bytes consumed are exactly those
    /// that must not be offered again.
    pub fn feed(&mut self, data: &[u8]) -> (r: (usize, Option<Readout>))
        ensures
            r.0 <= data@.len(),
            r.1 is None ==> r.0 == data@.len(),
            r.1 is Some ==> r.0 >= 1 && scan(old(self)@, data@.take(r.0 - 1)).1 == Seq::<
                Seq<u8>,
            >::empty() && final(self)@ is None,
            scan(old(self)@, data@.take(r.0 as int)) == (final(self)@, frames_of(r.1)),
    {
        let ghost s0 = self@;
        let mut i: usize = 0;
        assert(data@.take(0) =~= Seq::<u8>::empty());
        while i < data.len()
            invariant
                s0 == old(self)@,
                i <= data@.len(),
                scan(s0, data@.take(i as int)) == (self@, Seq::<Seq<u8>>::empty()),
            decreases data@.len() - i,
        {
            let ghost before = self@;
            let ghost taken = data@.take(i + 1);
            let out = self.push(data[i]);
            assert(taken.drop_last() =~= data@.take(i as int));
            assert(taken.last() == data@[i as int]);
            assert(scan(s0, taken) == (self@, frames_of(out))) by {
                let (s1, f1) = scan(s0, taken.drop_last());
                assert(s1 == before && f1 == Seq::<Seq<u8>>::empty());
                match out {
                    Some(frame) => {
                        assert(Seq::<Seq<u8>>::empty().push(frame@) =~= seq![frame@]);
                    },
                    None => {},
                }
            }
            i = i + 1;
            match out {
                Some(frame) => {
                    return (i, Some(frame));
                },
                None => {},
            }
        }
        (i, None)
    }
}

/// A reader for the raw UART output of a power meter, driven by the
/// caller: the caller reads from its byte source and hands what it has to
/// [`Scanner::feed`], then marks as consumed as many bytes as that returns.
pub struct AsyncReader<R> {
    /// The byte source.
    pub reader: R,
    /// The state of the frame being read.
    pub scanner: Scanner,
}

impl<R> AsyncReader<R> {
    /// Construct a new AsyncReader from a byte reader.
    pub fn new(reader: R) -> (r: Self)
        ensures
            r.reader == reader,
            r.scanner@ is None,
    {
        AsyncReader { reader, scanner: Scanner::new() }
    }
}

/// What one call of [`Reader::next`] does from position `i` in state `s`:
/// the position after it and the frame it returns. The call ends at the
/// end of the input, at a completed frame, or where a frame outgrows
/// [`CAPACITY`] (that frame is dropped and the byte that did not fit is left
/// for the next call).
pub open spec fn reader_step(bytes: Seq<u8>, i: int, s: ScanState) -> (int, Option<Seq<u8>>)
    decreases bytes.len() - i,
{
    if i >= bytes.len() {
        (bytes.len() as int, None)
    } else if is_full_state(s) {
        (i, None)
    } else {
        let (s2, out) = push_byte(s, bytes[i]);
        match out {
            Some(f) => (i + 1, Some(f)),
            None => reader_step(bytes, i + 1, s2),
        }
    }
}

/// A reader for the raw UART output of a power meter, over the whole input.
///
/// The input is held in memory; a stream that has no end, or that arrives
/// over time, is read with [`Scanner::feed`] instead.
pub struct Reader {
    bytes: Vec<u8>,
    pos: usize,
}

impl Reader {
    /// The bytes that the reader reads.
    pub closed spec fn input(&self) -> Seq<u8> {
        self.bytes@
    }

    /// How far the input has been read.
    pub closed spec fn position(&self) -> int {
        self.pos as int
    }

    /// The position is within the input.
    #[verifier::type_invariant]
    spec fn wf(&self) -> bool {
        self.pos <= self.bytes@.len()
    }

    /// Construct a new reader over the bytes of `bytes`.
    pub fn new(bytes: Vec<u8>) -> (r: Self)
        ensures
            r.input() == bytes@,
            r.position() == 0,
    {
        Reader { bytes, pos: 0 }
    }

    /// Reads the next frame. Bytes before a `/` are skipped; `None` means
    /// that the input ended, or that the frame being read did not fit in
    /// [`CAPACITY`] bytes (a later call goes on after it).
    pub fn next(&mut self) -> (r: Option<Readout>)
        ensures
            final(self).position() <= final(self).input().len(),
            final(self).input() == old(self).input(),
            (final(self).position(), frame_of(r)) == reader_step(
                old(self).input(),
                old(self).position(),
                None,
            ),
    {
        proof {
            use_type_invariant(&*self);
        }
        let mut scanner = Scanner::new();
        while self.pos < self.bytes.len()
            invariant
                self.pos <= self.bytes@.len(),
                self.input() == old(self).input(),
                reader_step(self.input(), old(self).position(), None) == reader_step(
                    self.input(),
                    self.position(),
                    scanner@,
                ),
            decreases self.bytes@.len() - self.pos,
        {
            if scanner.is_full() {
                return None;
            }
            let out = scanner.push(self.bytes[self.pos]);
            self.pos = self.pos + 1;
            if out.is_some() {
                return out;
            }
        }
        None
    }
}


/// The CRC-16/ARC checksum of `data` (reflected polynomial 0xA001, initial
/// value 0, no final xor).
pub uninterp spec fn arc_checksum(data: Seq<u8>) -> u16;

/// Relies on `crc16::State::<crc16::ARC>::calculate`: the CRC-16/ARC of the bytes.
#[verifier::external_body]
fn crc16_arc(data: &[u8]) -> (r: u16)
    ensures
        r == arc_checksum(data@),
{
    crc16::State::<crc16::ARC>::calculate(data)
}

/// Relies on `core::str::from_utf8`: the bytes as text exactly when they are
/// well-formed UTF-8.
#[verifier::external_body]
pub(crate) fn utf8_text(b: &[u8]) -> (r: Option<&str>)
    ensures
        r is Some <==> valid_utf8(b@),
        r matches Some(t) ==> t.spec_bytes() == b@,
{
    core::str::from_utf8(b).ok()
}

/// The value of a hexadecimal digit.
pub open spec fn hex_digit_value(b: u8) -> Option<nat> {
    if 48 <= b <= 57 {
        Some((b - 48) as nat)
    } else if 97 <= b <= 102 {
        Some((b - 87) as nat)
    } else if 65 <= b <= 70 {
        Some((b - 55) as nat)
    } else {
        None
    }
}

/// The first four bytes of `s` read as a big-endian hexadecimal number.
pub open spec fn hex4_spec(s: Seq<u8>) -> Option<u16> {
    if s.len() >= 4 && hex_digit_value(s[0]) is Some && hex_digit_value(s[1]) is Some
        && hex_digit_value(s[2]) is Some && hex_digit_value(s[3]) is Some {
        Some(
            (hex_digit_value(s[0])->0 * 4096 + hex_digit_value(s[1])->0 * 256 + hex_digit_value(
                s[2],
            )->0 * 16 + hex_digit_value(s[3])->0) as u16,
        )
    } else {
        None
    }
}

/// The first index `j >= i` where `\r\n\r\n` starts in `s`.
pub open spec fn find_blank_line_from(s: Seq<u8>, i: int) -> Option<int>
    decreases s.len() - i,
{
    if i + 4 > s.len() {
        None
    } else if s[i] == 13 && s[i + 1] == 10 && s[i + 2] == 13 && s[i + 3] == 10 {
        Some(i)
    } else {
        find_blank_line_from(s, i + 1)
    }
}

/// The bytes of a frame from its start through the first `!`: what the
/// checksum covers.
pub open spec fn checked_text(f: Seq<u8>) -> Seq<u8> {
    match find_byte(f, 33) {
        Some(e) => f.take(e + 1),
        None => Seq::empty(),
    }
}

/// The parts of a frame `f`, given the checksum `computed` of
/// [`checked_text`]: the checksum, the flag id, the identification and the
/// object lines, or the error that the frame holds.
pub open spec fn telegram_spec(f: Seq<u8>, computed: u16) -> Result<
    (u16, Seq<u8>, Seq<u8>, Seq<u8>),
    Error,
> {
    if !valid_utf8(f) {
        Err(Error::InvalidFormat)
    } else {
        match find_byte(f, 33) {
            None => Err(Error::InvalidFormat),
            Some(e) => {
                let text = f.take(e + 1);
                match hex4_spec(f.skip(e + 1)) {
                    None => Err(Error::InvalidFormat),
                    Some(received) => {
                        if received != computed {
                            Err(Error::Checksum)
                        } else {
                            match find_blank_line_from(text, 0) {
                                None => Err(Error::InvalidFormat),
                                Some(h) => {
                                    let header = text.take(h);
                                    let body = text.skip(h + 4);
                                    if header.len() < 5 || body.len() < 3 {
                                        Err(Error::InvalidFormat)
                                    } else {
                                        let flag = header.subrange(1, 4);
                                        let ident = header.skip(5);
                                        let objects = body.take(body.len() - 3);
                                        if valid_utf8(flag) && valid_utf8(ident) && valid_utf8(
                                            objects,
                                        ) {
                                            Ok((computed, flag, ident, objects))
                                        } else {
                                            Err(Error::InvalidFormat)
                                        }
                                    }
                                },
                            }
                        }
                    },
                }
            },
        }
    }
}

/// Drops one `\r` at the end of a line.
pub open spec fn strip_cr(l: Seq<u8>) -> Seq<u8> {
    if l.len() > 0 && l.last() == 13 {
        l.drop_last()
    } else {
        l
    }
}

/// The lines of `s` from index `i`, as `str::lines` splits them: at `\n`,
/// dropping a `\r` before it, with no empty line after a final `\n`.
pub open spec fn lines_from(s: Seq<u8>, i: int) -> Seq<Seq<u8>>
    decreases s.len() - i,
    via lines_from_decreases
{
    if i < 0 || i >= s.len() {
        Seq::empty()
    } else {
        match find_from(s, 10, i) {
            None => seq![s.subrange(i, s.len() as int)],
            Some(j) => seq![strip_cr(s.subrange(i, j))] + lines_from(s, j + 1),
        }
    }
}

#[via_fn]
proof fn lines_from_decreases(s: Seq<u8>, i: int) {
    if 0 <= i < s.len() {
        lemma_find_from(s, 10, i);
    }
}

/// A single telegram.
pub struct Telegram<'a> {
    /// CRC16 checksum.
    pub checksum: u16,
    /// 3-letter FLAG ID identifying the manufacturer.
    pub flag_id: &'a str,
    /// Power meter ID.
    pub identification: &'a str,
    /// The object lines of the body, before the trailer.
    pub object_buffer: &'a str,
}

impl<'a> Telegram<'a> {
    /// The text of the object lines.
    pub open spec fn objects_text(&self) -> Seq<u8> {
        self.object_buffer.spec_bytes()
    }

    /// The telegram holds the parts `p` of a frame.
    pub open spec fn holds(&self, p: (u16, Seq<u8>, Seq<u8>, Seq<u8>)) -> bool {
        &&& self.checksum == p.0
        &&& self.flag_id.spec_bytes() == p.1
        &&& self.identification.spec_bytes() == p.2
        &&& self.objects_text() == p.3
    }

    /// The data contained by the telegram: each line of the object body
    /// decoded on its own.
    pub fn objects(&self) -> (r: Vec<Result<Object, Error>>)
        ensures
            r@ == lines_from(self.objects_text(), 0).map_values(|l: Seq<u8>| object_spec(l)),
    {
        let s = self.object_buffer.as_bytes();
        let mut out: Vec<Result<Object, Error>> = Vec::new();
        let mut i: usize = 0;
        while i < s.len()
            invariant
                s@ == self.objects_text(),
                i <= s@.len(),
                out@ + lines_from(s@, i as int).map_values(|l: Seq<u8>| object_spec(l))
                    == lines_from(s@, 0).map_values(|l: Seq<u8>| object_spec(l)),
            decreases s@.len() - i,
        {
            let ghost rest = lines_from(s@, i as int).map_values(|l: Seq<u8>| object_spec(l));
            match find_at(s, 10, i) {
                None => {
                    let line = vstd::slice::slice_subrange(s, i, s.len());
                    out.push(Object::from_bytes(line));
                    assert(lines_from(s@, s@.len() as int) =~= Seq::<Seq<u8>>::empty());
                    assert(rest =~= seq![object_spec(line@)]);
                    i = s.len();
                    assert(lines_from(s@, i as int).map_values(|l: Seq<u8>| object_spec(l))
                        =~= Seq::<Result<Object, Error>>::empty());
                },
                Some(j) => {
                    proof {
                        lemma_find_from(s@, 10, i as int);
                    }
                    let mut line = vstd::slice::slice_subrange(s, i, j);
                    if line.len() > 0 && line[line.len() - 1] == 13 {
                        line = vstd::slice::slice_subrange(line, 0, line.len() - 1);
                    }
                    assert(line@ =~= strip_cr(s@.subrange(i as int, j as int)));
                    let ghost tail = lines_from(s@, j + 1).map_values(
                        |l: Seq<u8>| object_spec(l),
                    );
                    let ghost old_out = out@;
                    out.push(Object::from_bytes(line));
                    assert(rest =~= seq![object_spec(line@)] + tail);
                    assert(out@ + tail =~= old_out + rest);
                    i = j + 1;
                },
            }
        }
        assert(lines_from(s@, i as int) =~= Seq::<Seq<u8>>::empty());
        assert(out@ =~= out@ + Seq::<Result<Object, Error>>::empty());
        out
    }
}

/// Reads the four checksum digits.
fn hex4(s: &[u8]) -> (r: Option<u16>)
    ensures
        r == hex4_spec(s@),
{
    if s.len() < 4 {
        return None;
    }
    let mut v: u16 = 0;
    let mut k: usize = 0;
    while k < 4
        invariant
            s@.len() >= 4,
            k <= 4,
            forall|j: int| 0 <= j < k ==> hex_digit_value(#[trigger] s@[j]) is Some,
            v as nat == (if k == 0 {
                0
            } else if k == 1 {
                hex_digit_value(s@[0])->0
            } else if k == 2 {
                hex_digit_value(s@[0])->0 * 16 + hex_digit_value(s@[1])->0
            } else if k == 3 {
                hex_digit_value(s@[0])->0 * 256 + hex_digit_value(s@[1])->0 * 16
                    + hex_digit_value(s@[2])->0
            } else {
                hex_digit_value(s@[0])->0 * 4096 + hex_digit_value(s@[1])->0 * 256
                    + hex_digit_value(s@[2])->0 * 16 + hex_digit_value(s@[3])->0
            }),
        decreases 4 - k,
    {
        let b = s[k];
        let d: u16 = if 48 <= b && b <= 57 {
            (b - 48) as u16
        } else if 97 <= b && b <= 102 {
            (b - 87) as u16
        } else if 65 <= b && b <= 70 {
            (b - 55) as u16
        } else {
            return None;
        };
        v = v * 16 + d;
        k = k + 1;
    }
    Some(v)
}

/// Finds the first `\r\n\r\n` in `s`.
fn find_blank_line(s: &[u8]) -> (r: Option<usize>)
    ensures
        r matches Some(h) ==> find_blank_line_from(s@, 0) == Some(h as int),
        r is None ==> find_blank_line_from(s@, 0) is None,
{
    let mut i: usize = 0;
    while s.len() >= 4 && i <= s.len() - 4
        invariant
            i <= s@.len(),
            find_blank_line_from(s@, 0) == find_blank_line_from(s@, i as int),
        decreases s@.len() - i,
    {
        if s[i] == 13 && s[i + 1] == 10 && s[i + 2] == 13 && s[i + 3] == 10 {
            return Some(i);
        }
        i = i + 1;
    }
    None
}

/// Splits a frame into a [`Telegram`], given the checksum `computed` of its
/// bytes from the start through the first `!` (see [`checked_text`]).
pub fn telegram_from_frame<'a>(f: &'a [u8], computed: u16) -> (r: Result<Telegram<'a>, Error>)
    ensures
        match (r, telegram_spec(f@, computed)) {
            (Ok(t), Ok(p)) => t.holds(p),
            (Err(e1), Err(e2)) => e1 == e2,
            _ => false,
        },
{
    if utf8_text(f).is_none() {
        return Err(Error::InvalidFormat);
    }
    let e = match find(f, 33) {
        Some(e) => e,
        None => return Err(Error::InvalidFormat),
    };
    proof {
        lemma_find_from(f@, 33, 0);
    }
    let n = f.len();
    assert(e < n);
    let text = vstd::slice::slice_subrange(f, 0, e + 1);
    let post = vstd::slice::slice_subrange(f, e + 1, f.len());
    assert(text@ =~= f@.take(e + 1));
    assert(post@ =~= f@.skip(e + 1));
    let received = match hex4(post) {
        Some(v) => v,
        None => return Err(Error::InvalidFormat),
    };
    if received != computed {
        return Err(Error::Checksum);
    }
    let h = match find_blank_line(text) {
        Some(h) => h,
        None => return Err(Error::InvalidFormat),
    };
    assert(h + 4 <= text@.len()) by {
        lemma_blank_line_bounds(text@, 0);
    }
    if h < 5 || text.len() - (h + 4) < 3 {
        return Err(Error::InvalidFormat);
    }
    let header = vstd::slice::slice_subrange(text, 0, h);
    let body = vstd::slice::slice_subrange(text, h + 4, text.len());
    let flag = vstd::slice::slice_subrange(header, 1, 4);
    let ident = vstd::slice::slice_subrange(header, 5, h);
    let objects = vstd::slice::slice_subrange(body, 0, body.len() - 3);
    assert(header@ =~= text@.take(h as int));
    assert(body@ =~= text@.skip(h + 4));
    assert(ident@ =~= header@.skip(5));
    assert(objects@ =~= body@.take(body@.len() - 3));
    let flag_id = match utf8_text(flag) {
        Some(t) => t,
        None => return Err(Error::InvalidFormat),
    };
    let identification = match utf8_text(ident) {
        Some(t) => t,
        None => return Err(Error::InvalidFormat),
    };
    let object_buffer = match utf8_text(objects) {
        Some(t) => t,
        None => return Err(Error::InvalidFormat),
    };
    Ok(Telegram { checksum: computed, flag_id, identification, object_buffer })
}

/// Where `\r\n\r\n` is found, it lies within the bytes.
proof fn lemma_blank_line_bounds(s: Seq<u8>, i: int)
    ensures
        find_blank_line_from(s, i) matches Some(h) ==> i <= h && h + 4 <= s.len(),
    decreases s.len() - i,
{
    if i + 4 <= s.len() && !(s[i] == 13 && s[i + 1] == 10 && s[i + 2] == 13 && s[i + 3] == 10) {
        lemma_blank_line_bounds(s, i + 1);
    }
}

impl Readout {
    /// Attempt to parse this as a [`Telegram`]: the checksum over the bytes
    /// through the first `!` must match the four hexadecimal digits after it.
    pub fn to_telegram(&self) -> (r: Result<Telegram<'_>, Error>)
        ensures
            match (r, telegram_spec(self@, arc_checksum(checked_text(self@)))) {
                (Ok(t), Ok(p)) => t.holds(p),
                (Err(e1), Err(e2)) => e1 == e2,
                _ => false,
            },
    {
        let f = self.buffer.as_slice();
        let computed = match find(f, 33) {
            Some(e) => {
                proof {
                    lemma_find_from(f@, 33, 0);
                }
                let n = f.len();
                assert(e < n);
                let text = vstd::slice::slice_subrange(f, 0, e + 1);
                assert(text@ =~= checked_text(f@));
                crc16_arc(text)
            },
            None => {
                proof {
                    lemma_find_from(f@, 33, 0);
                }
                0
            },
        };
        telegram_from_frame(f, computed)
    }
}


/// A frame that outgrows the buffer leaves nothing behind: from the next
/// byte on, the scanner reads the stream exactly as a fresh one would, so
/// the next `/` starts a clean frame.
pub proof fn lemma_overflow_resets(s: ScanState, bytes: Seq<u8>)
    requires
        is_full_state(s),
        bytes.len() > 0,
    ensures
        scan(s, bytes) == scan(None, bytes),
{
    let first = bytes.take(1);
    let rest = bytes.skip(1);
    assert(bytes =~= first + rest);
    assert(first.drop_last() =~= Seq::<u8>::empty());
    lemma_scan_chunks(s, first, rest);
    lemma_scan_chunks(None, first, rest);
    let b = first.last();
    assert(scan(s, first.drop_last()) == (s, Seq::<Seq<u8>>::empty()));
    assert(scan(None, first.drop_last()) == (None::<(Seq<u8>, Option<int>)>, Seq::<Seq<u8>>::empty()));
    assert(push_byte(s, b) == push_byte(None, b));
    assert(scan(s, first) == scan(None, first));
}

} // verus!
