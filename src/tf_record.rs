//! Resumable parsing for TFRecord streams.
//!
//! Format of a single record, all integers little-endian:
//!
//! ```text
//!  u64   length
//!  u32   masked crc of length
//!  u8    data[length]
//!  u32   masked crc of data
//! ```

use vstd::prelude::*;

use crate::masked_crc::{hex_digit, hex_text, masked_crc, MaskedCrc};

verus! {

/// Size of the header: the length field and its checksum.
pub const HEADER_LENGTH: usize = 12;

/// Offset of the length checksum within the header.
pub const LENGTH_CRC_OFFSET: usize = 8;

/// Size of the footer: the data checksum.
pub const FOOTER_LENGTH: usize = 4;

#[verifier::external_type_specification]
#[verifier::external_body]
pub struct ExIoError(std::io::Error);

/// The unsigned integer that a byte sequence encodes, least significant byte first.
pub open spec fn le_value(s: Seq<u8>) -> nat
    decreases s.len(),
{
    if s.len() == 0 {
        0
    } else {
        s[0] as nat + 256 * le_value(s.drop_first())
    }
}

/// The payload length that a raw record (at least a full header) declares.
pub open spec fn stored_length(raw: Seq<u8>) -> nat {
    le_value(raw.subrange(0, 8))
}

/// The length checksum that a raw record (at least a full header) stores.
pub open spec fn stored_length_crc(raw: Seq<u8>) -> nat {
    le_value(raw.subrange(8, 12))
}

/// The header's stored checksum matches the checksum of its length bytes.
pub open spec fn header_checks(raw: Seq<u8>) -> bool {
    masked_crc(raw.subrange(0, 8)) as nat == stored_length_crc(raw)
}

/// The payload plus its footer fits in an in-memory buffer.
pub open spec fn length_fits(raw: Seq<u8>) -> bool {
    stored_length(raw) + 4 <= usize::MAX
}

/// Where the record that `raw` starts with ends: header, payload and footer.
pub open spec fn record_end(raw: Seq<u8>) -> nat {
    12 + stored_length(raw) + 4
}

/// The header is complete, checks out and declares a length that fits.
pub open spec fn header_accepted(raw: Seq<u8>) -> bool {
    raw.len() >= 12 && header_checks(raw) && length_fits(raw)
}

/// `raw` holds a full header whose checksum does not match.
pub open spec fn bad_header(raw: Seq<u8>) -> bool {
    raw.len() >= 12 && !header_checks(raw)
}

/// `raw` holds a valid header declaring a length too large for memory.
pub open spec fn too_large(raw: Seq<u8>) -> bool {
    raw.len() >= 12 && header_checks(raw) && !length_fits(raw)
}

/// `raw` ends before the record it starts is complete, with no fault found in it.
pub open spec fn truncated(raw: Seq<u8>) -> bool {
    raw.len() < 12 || (header_accepted(raw) && raw.len() < record_end(raw))
}

/// `raw` holds a whole record, and possibly bytes after it.
pub open spec fn complete(raw: Seq<u8>) -> bool {
    header_accepted(raw) && raw.len() >= record_end(raw)
}

/// `raw` is exactly one well-formed record: a valid header, the payload and the footer.
pub open spec fn well_formed_record(raw: Seq<u8>) -> bool {
    complete(raw) && raw.len() == record_end(raw)
}

/// The payload of the record that `raw` starts with.
pub open spec fn record_data(raw: Seq<u8>) -> Seq<u8> {
    raw.subrange(12, 12 + stored_length(raw) as int)
}

/// The data checksum stored in the footer of the record that `raw` starts with.
pub open spec fn record_crc(raw: Seq<u8>) -> nat {
    le_value(raw.subrange(12 + stored_length(raw) as int, record_end(raw) as int))
}

/// How many bytes of `raw` reading one record takes: all of it while truncated, the header
/// when the header is rejected, and up to the end of the record otherwise.
pub open spec fn consumed_len(raw: Seq<u8>) -> nat {
    if raw.len() < 12 {
        raw.len()
    } else if !header_accepted(raw) {
        12
    } else if raw.len() < record_end(raw) {
        raw.len()
    } else {
        record_end(raw)
    }
}

/// `r` is what reading one record from the bytes `raw` gives.
pub open spec fn parsed_as(raw: Seq<u8>, r: Result<TfRecord, ReadRecordError>) -> bool {
    match r {
        Ok(rec) => complete(raw) && rec.data@ == record_data(raw) && rec.data_crc.0 as nat == record_crc(
            raw,
        ),
        Err(ReadRecordError::Truncated) => truncated(raw),
        Err(ReadRecordError::BadLengthCrc(e)) => bad_header(raw) && e.got.0 == masked_crc(
            raw.subrange(0, 8),
        ) && e.want.0 as nat == stored_length_crc(raw),
        Err(ReadRecordError::TooLarge(n)) => too_large(raw) && n as nat == stored_length(raw),
        Err(ReadRecordError::Io(_)) => false,
    }
}

/// How many more bytes the current phase needs, after the bytes `buffered` of a record: the
/// rest of the header, or once it is accepted the rest of the data and footer.
pub open spec fn wanted_len(buffered: Seq<u8>) -> int {
    if header_accepted(buffered) {
        record_end(buffered) - buffered.len()
    } else {
        12 - buffered.len()
    }
}

/// The bytes of a record read so far may still be resumed from, or the header was rejected.
pub open spec fn resumable(buffered: Seq<u8>) -> bool {
    buffered.len() <= 12 || (header_accepted(buffered) && buffered.len() < record_end(buffered))
}

/// One call that read the bytes `got` took the buffered prefix `before` to `after` with result
/// `r`: all of `got` belongs to the record, `r` is what its bytes so far give, and the buffered
/// prefix is emptied once a record is returned.
pub open spec fn read_step(
    before: Seq<u8>,
    got: Seq<u8>,
    after: Seq<u8>,
    r: Result<TfRecord, ReadRecordError>,
) -> bool {
    let raw = before + got;
    &&& consumed_len(raw) == raw.len()
    &&& parsed_as(raw, r)
    &&& after == if r is Ok {
        Seq::<u8>::empty()
    } else {
        raw
    }
}

/// Relies on `byteorder::LittleEndian::read_u32`: the little-endian value of the first four
/// bytes (it panics on fewer).
#[verifier::external_body]
fn read_le_u32(buf: &[u8]) -> (r: u32)
    requires
        buf@.len() == 4,
    ensures
        r as nat == le_value(buf@),
{
    <byteorder::LittleEndian as byteorder::ByteOrder>::read_u32(buf)
}

/// Relies on `byteorder::LittleEndian::read_u64`: the little-endian value of the first eight
/// bytes (it panics on fewer).
#[verifier::external_body]
fn read_le_u64(buf: &[u8]) -> (r: u64)
    requires
        buf@.len() == 8,
    ensures
        r as nat == le_value(buf@),
{
    <byteorder::LittleEndian as byteorder::ByteOrder>::read_u64(buf)
}

/// A source of bytes that may grow over time, such as a file that is still being written.
pub trait ByteSource {
    /// Reads at most `max` bytes. Fewer, or none, means that no more are available right now.
    fn read_up_to(&mut self, max: usize) -> (r: Result<Vec<u8>, std::io::Error>)
        ensures
            r matches Ok(v) ==> v@.len() <= max,
    ;
}

/// A byte source over bytes held in memory, read from the front.
pub struct SliceSource {
    bytes: Vec<u8>,
    pos: usize,
}

impl SliceSource {
    /// The bytes not read yet.
    pub closed spec fn remaining(&self) -> Seq<u8> {
        self.bytes@.subrange(self.pos as int, self.bytes@.len() as int)
    }

    pub closed spec fn wf(&self) -> bool {
        self.pos <= self.bytes@.len()
    }

    /// A source that yields `bytes`, then nothing.
    pub fn new(bytes: Vec<u8>) -> (r: Self)
        ensures
            r.wf(),
            r.remaining() == bytes@,
    {
        let r = SliceSource { bytes, pos: 0 };
        assert(r.remaining() =~= r.bytes@);
        r
    }

    /// Number of bytes not read yet.
    pub fn remaining_len(&self) -> (r: usize)
        requires
            self.wf(),
        ensures
            r == self.remaining().len(),
    {
        self.bytes.len() - self.pos
    }
}

impl ByteSource for SliceSource {
    fn read_up_to(&mut self, max: usize) -> (r: Result<Vec<u8>, std::io::Error>)
        ensures
            r matches Ok(v) ==> v@.len() <= max,
    {
        let mut out: Vec<u8> = Vec::new();
        if self.pos > self.bytes.len() {
            return Ok(out);
        }
        while out.len() < max && self.pos < self.bytes.len()
            invariant
                out@.len() <= max,
                self.pos <= self.bytes@.len(),
            decreases self.bytes@.len() - self.pos,
        {
            out.push(self.bytes[self.pos]);
            self.pos = self.pos + 1;
        }
        Ok(out)
    }
}

/// A TFRecord with a data buffer and expected checksum. The checksum may or may not match the
/// actual contents.
#[derive(Debug)]
pub struct TfRecord {
    /// The payload of the TFRecord.
    pub data: Vec<u8>,
    /// The checksum that the record's footer stores for the data.
    pub data_crc: MaskedCrc,
}

/// A buffer's checksum was computed, but it did not match the expected value.
#[derive(Debug, PartialEq, Eq, Structural)]
pub struct ChecksumError {
    /// The actual checksum of the buffer.
    pub got: MaskedCrc,
    /// The expected checksum.
    pub want: MaskedCrc,
}

/// Error returned by [`TfRecordState::read_record`].
#[derive(Debug)]
pub enum ReadRecordError {
    /// Length field failed checksum. The file is corrupt, and reading must abort.
    BadLengthCrc(ChecksumError),
    /// No fatal errors so far, but the record is not complete. Call `read_record` again with the
    /// same state once new data may be available.
    ///
    /// This includes the "trivial truncation" case where there are no bytes in a new record, so
    /// repeatedly reading records from a stream with zero or more well-formed records always
    /// finishes with `Truncated`.
    Truncated,
    /// Record is too large to be represented in memory on this system. No recovery is
    /// attempted, so reading must abort.
    TooLarge(u64),
    /// Underlying I/O error. May be retryable if the underlying error is.
    Io(std::io::Error),
}

/// The decimal digits of `v`, most significant first, with no leading zeros.
pub open spec fn decimal_text(v: nat) -> Seq<char>
    decreases v,
{
    if v < 10 {
        seq![hex_digit(v as int)]
    } else {
        decimal_text(v / 10) + seq![hex_digit((v % 10) as int)]
    }
}

/// Relies on std's `ToString` for `u64`: its decimal digits, with no leading zeros.
#[verifier::external_body]
fn decimal_u64(v: u64) -> (r: String)
    ensures
        r@ == decimal_text(v as nat),
{
    v.to_string()
}

/// Relies on std's `Display` for `std::io::Error`: the error's message.
#[verifier::external_body]
fn io_message(e: &std::io::Error) -> (r: String) {
    e.to_string()
}

impl ChecksumError {
    /// The message: `checksum mismatch: got <got>, want <want>`.
    pub fn to_string(&self) -> (r: String)
        ensures
            r@ == "checksum mismatch: got "@ + hex_text(self.got.0) + ", want "@ + hex_text(
                self.want.0,
            ),
    {
        let s = String::from_str("checksum mismatch: got ");
        let got = self.got.to_string();
        let s = s.concat(got.as_str());
        let s = s.concat(", want ");
        let want = self.want.to_string();
        s.concat(want.as_str())
    }
}

impl ReadRecordError {
    /// The message describing the error; an I/O error gives its own message.
    pub fn to_string(&self) -> (r: String)
        ensures
            self matches ReadRecordError::BadLengthCrc(e) ==> r@ == "length checksum mismatch: got "@
                + hex_text(e.got.0) + ", want "@ + hex_text(e.want.0),
            self is Truncated ==> r@ == "record truncated"@,
            self matches ReadRecordError::TooLarge(n) ==> r@ == "record too large to fit in memory ("@
                + decimal_text(n as nat) + " bytes)"@,
    {
        match self {
            ReadRecordError::BadLengthCrc(e) => {
                let s = String::from_str("length checksum mismatch: got ");
                let got = e.got.to_string();
                let s = s.concat(got.as_str());
                let s = s.concat(", want ");
                let want = e.want.to_string();
                s.concat(want.as_str())
            },
            ReadRecordError::Truncated => String::from_str("record truncated"),
            ReadRecordError::TooLarge(n) => {
                let s = String::from_str("record too large to fit in memory (");
                let digits = decimal_u64(*n);
                let s = s.concat(digits.as_str());
                s.concat(" bytes)")
            },
            ReadRecordError::Io(e) => io_message(e),
        }
    }
}

impl TfRecord {
    /// Validates the integrity of the record by computing its CRC-32-C and checking it against the
    /// expected value.
    pub fn checksum(&self) -> (r: Result<(), ChecksumError>)
        ensures
            r is Ok <==> masked_crc(self.data@) == self.data_crc.0,
            r matches Err(e) ==> e.got.0 == masked_crc(self.data@) && e.want.0
                == self.data_crc.0,
    {
        let got = MaskedCrc::compute(self.data.as_slice());
        let want = self.data_crc;
        if got.0 == want.0 {
            Ok(())
        } else {
            Err(ChecksumError { got, want })
        }
    }
}

/// State for reading one `TfRecord`, potentially over multiple attempts to handle growing,
/// partially flushed files.
pub struct TfRecordState {
    /// The header read so far: little-endian u64 length, u32 length-CRC.
    header: Vec<u8>,
    /// Everything past the header read so far: the data, then its little-endian u32 CRC.
    data_plus_footer: Vec<u8>,
    /// `None` while the header is awaited; once it is accepted, the size of the data plus
    /// footer.
    payload_target: Option<usize>,
}

impl TfRecordState {
    /// The raw bytes of the current record read so far.
    pub closed spec fn buffered(&self) -> Seq<u8> {
        self.header@ + self.data_plus_footer@
    }

    pub closed spec fn wf(&self) -> bool {
        &&& self.header@.len() <= HEADER_LENGTH
        &&& match self.payload_target {
            None => self.data_plus_footer@.len() == 0 && !header_accepted(self.header@),
            Some(t) => {
                &&& self.header@.len() == HEADER_LENGTH
                &&& header_accepted(self.header@)
                &&& t == stored_length(self.header@) + FOOTER_LENGTH
                &&& self.data_plus_footer@.len() < t
            },
        }
    }

    /// Create an empty `TfRecordState`, ready to read a record from its beginning.
    pub fn new() -> (r: Self)
        ensures
            r.wf(),
            r.buffered() == Seq::<u8>::empty(),
    {
        let r = TfRecordState {
            header: Vec::with_capacity(HEADER_LENGTH),
            data_plus_footer: Vec::new(),
            payload_target: None,
        };
        assert(r.buffered() =~= Seq::<u8>::empty());
        r
    }

    /// Whether the header of the current record has been read and accepted.
    pub fn header_done(&self) -> (r: bool)
        requires
            self.wf(),
        ensures
            r == header_accepted(self.buffered()),
    {
        proof {
            self.lemma_buffered_header();
        }
        self.payload_target.is_some()
    }

    /// How many more bytes the current phase (header, or data plus footer) needs.
    pub fn wanted(&self) -> (r: usize)
        requires
            self.wf(),
        ensures
            r == wanted_len(self.buffered()),
    {
        proof {
            self.lemma_buffered_header();
        }
        match self.payload_target {
            None => HEADER_LENGTH - self.header.len(),
            Some(t) => t - self.data_plus_footer.len(),
        }
    }

    /// The buffered bytes start with the header, and the phase follows from them.
    proof fn lemma_buffered_header(&self)
        requires
            self.wf(),
        ensures
            self.buffered().len() >= 12 ==> self.buffered().subrange(0, 12) == self.header@,
            self.buffered().len() <= 12 ==> self.buffered() == self.header@,
            header_accepted(self.buffered()) <==> self.payload_target is Some,
            self.buffered().len() >= 12 ==> stored_length(self.buffered()) == stored_length(
                self.header@,
            ) && stored_length_crc(self.buffered()) == stored_length_crc(self.header@)
                && header_checks(self.buffered()) == header_checks(self.header@),
            resumable(self.buffered()),
    {
        let b = self.buffered();
        if b.len() >= 12 {
            assert(b.subrange(0, 12) =~= self.header@);
            assert(b.subrange(0, 8) =~= self.header@.subrange(0, 8));
            assert(b.subrange(8, 12) =~= self.header@.subrange(8, 12));
        }
        if b.len() <= 12 {
            assert(b =~= self.header@);
        }
    }

    /// Reads from `input` what the current record still needs: the rest of the header, and once
    /// the header is accepted, the rest of the data and footer. Returns how many bytes of `input`
    /// were taken, and the record once it is complete. Whether the record is complete, truncated
    /// or faulty is a function of the bytes read for it so far, however they were split up.
    pub fn feed(&mut self, input: &[u8]) -> (r: (usize, Result<TfRecord, ReadRecordError>))
        requires
            old(self).wf(),
        ensures
            final(self).wf(),
            old(self).buffered().len() + r.0 == consumed_len(old(self).buffered() + input@),
            parsed_as(old(self).buffered() + input@, r.1),
            final(self).buffered() == if r.1 is Ok {
                Seq::<u8>::empty()
            } else {
                (old(self).buffered() + input@).take(
                    consumed_len(old(self).buffered() + input@) as int,
                )
            },
    {
        let ghost b0 = self.buffered();
        let ghost raw = b0 + input@;
        proof {
            self.lemma_buffered_header();
        }
        let mut used: usize = 0;
        if self.payload_target.is_none() {
            let want = HEADER_LENGTH - self.header.len();
            used = read_remaining(&mut self.header, input, 0, want);
            assert(self.buffered() =~= self.header@);
            assert(self.header@ =~= raw.take(b0.len() + used));
            if self.header.len() < HEADER_LENGTH {
                return (used, Err(ReadRecordError::Truncated));
            }
            proof {
                lemma_header_prefix(raw, self.header@);
            }
            match check_header(&self.header) {
                Ok(t) => {
                    self.payload_target = Some(t);
                },
                Err(e) => {
                    return (used, Err(e));
                },
            }
        }
        proof {
            self.lemma_buffered_header();
            assert(raw.take(12) =~= self.header@);
            lemma_header_prefix(raw, self.header@);
        }
        let ghost b1 = self.buffered();
        assert(b1 =~= raw.take(b0.len() + used));
        let target = match self.payload_target {
            Some(t) => t,
            None => 0,
        };
        let want = target - self.data_plus_footer.len();
        let ghost h1 = self.header@;
        used = read_remaining(&mut self.data_plus_footer, input, used, want);
        assert(self.header@ == h1);
        assert(self.buffered() =~= raw.take(b0.len() + used));
        if self.data_plus_footer.len() < target {
            return (used, Err(ReadRecordError::Truncated));
        }
        (used, self.finish_record(Ghost(raw)))
    }

    /// Attempt to read a TFRecord, pausing gracefully in the face of truncations. If the record
    /// is truncated, the result is `Truncated`, and the state keeps the prefix of the raw record
    /// that was read, so that a later call with the same state continues where this one left
    /// off. If the record is read successfully, the state is left empty and may be reused to
    /// read a fresh record.
    ///
    /// The length field is always validated against its checksum, but the data is only
    /// validated when `checksum()` is called on the resulting record.
    pub fn read_record<R: ByteSource>(&mut self, reader: &mut R) -> (r: Result<
        TfRecord,
        ReadRecordError,
    >)
        requires
            old(self).wf(),
        ensures
            final(self).wf(),
            r matches Err(ReadRecordError::Io(_)) ==> {
                let before = old(self).buffered();
                let after = final(self).buffered();
                before.len() <= after.len() && after.take(before.len() as int) == before
            },
            !(r matches Err(ReadRecordError::Io(_))) ==> exists|got: Seq<u8>|
                read_step(old(self).buffered(), got, final(self).buffered(), r),
    {
        let ghost b0 = self.buffered();
        proof {
            self.lemma_buffered_header();
        }
        let header_phase = !self.header_done();
        let want = self.wanted();
        let chunk = match reader.read_up_to(want) {
            Ok(c) => c,
            Err(e) => {
                assert(self.buffered().take(b0.len() as int) =~= b0);
                return Err(ReadRecordError::Io(e));
            },
        };
        proof {
            lemma_wanted_consumed(b0, chunk@);
        }
        let (_, r) = self.feed(chunk.as_slice());
        if header_phase && self.header_done() {
            let ghost b1 = self.buffered();
            assert((b0 + chunk@).take((b0 + chunk@).len() as int) =~= b0 + chunk@);
            assert(b1 =~= b0 + chunk@);
            let want2 = self.wanted();
            let chunk2 = match reader.read_up_to(want2) {
                Ok(c) => c,
                Err(e) => {
                    assert(self.buffered().take(b0.len() as int) =~= b0);
                    return Err(ReadRecordError::Io(e));
                },
            };
            proof {
                self.lemma_buffered_header();
                lemma_wanted_consumed(b1, chunk2@);
            }
            let (_, r2) = self.feed(chunk2.as_slice());
            proof {
                let got = chunk@ + chunk2@;
                assert(b0 + got =~= b1 + chunk2@);
                assert((b1 + chunk2@).take((b1 + chunk2@).len() as int) =~= b1 + chunk2@);
                assert(read_step(b0, got, self.buffered(), r2));
            }
            return r2;
        }
        proof {
            assert((b0 + chunk@).take((b0 + chunk@).len() as int) =~= b0 + chunk@);
            assert(read_step(b0, chunk@, self.buffered(), r));
        }
        r
    }

    /// Hands out the complete record held in the state, and resets the state for the next one.
    fn finish_record(&mut self, Ghost(raw): Ghost<Seq<u8>>) -> (r: Result<TfRecord, ReadRecordError>)
        requires
            old(self).header@.len() == HEADER_LENGTH,
            old(self).payload_target matches Some(t) && old(self).data_plus_footer@.len() == t && t
                == stored_length(old(self).header@) + FOOTER_LENGTH,
            old(self).buffered() == raw.take(record_end(raw) as int),
            raw.len() >= record_end(raw),
            stored_length(raw) == stored_length(old(self).header@),
            header_accepted(raw),
        ensures
            final(self).wf(),
            final(self).buffered() == Seq::<u8>::empty(),
            parsed_as(raw, r),
            r is Ok,
    {
        let ghost d0 = self.data_plus_footer@;
        assert forall|i: int| 0 <= i < d0.len() implies d0[i] == raw[12 + i] by {
            assert(self.buffered()[12 + i] == d0[i]);
            assert(raw.take(record_end(raw) as int)[12 + i] == raw[12 + i]);
        }
        let target = match self.payload_target {
            Some(t) => t,
            None => 0,
        };
        let data_length = target - FOOTER_LENGTH;
        let crc_buf = self.data_plus_footer.split_off(data_length);
        let mut data: Vec<u8> = Vec::new();
        std::mem::swap(&mut data, &mut self.data_plus_footer);
        let data_crc = read_le_u32(crc_buf.as_slice());
        self.header.clear();
        self.payload_target = None;
        proof {
            let len = stored_length(raw);
            assert(data@ =~= record_data(raw));
            assert(crc_buf@ =~= raw.subrange(12 + len as int, record_end(raw) as int));
            assert(self.buffered() =~= Seq::<u8>::empty());
            assert(self.header@.len() == 0);
        }
        Ok(TfRecord { data, data_crc: MaskedCrc(data_crc) })
    }
}

/// Appends to `buf` the bytes of `input` from `from` on, up to `want` of them, and returns where
/// it stopped in `input`. It stops short of `want` only where `input` ends.
pub fn read_remaining(buf: &mut Vec<u8>, input: &[u8], from: usize, want: usize) -> (end: usize)
    requires
        from <= input@.len(),
    ensures
        end == if input@.len() - from < want {
            input@.len() as int
        } else {
            from + want
        },
        final(buf)@ == old(buf)@ + input@.subrange(from as int, end as int),
{
    let avail = input.len() - from;
    let end = if want < avail {
        from + want
    } else {
        input.len()
    };
    let mut i = from;
    while i < end
        invariant
            from <= i <= end <= input@.len(),
            buf@ == old(buf)@ + input@.subrange(from as int, i as int),
        decreases end - i,
    {
        buf.push(input[i]);
        i = i + 1;
        assert(buf@ =~= old(buf)@ + input@.subrange(from as int, i as int));
    }
    end
}

/// Checks a full header: its length checksum, then that the data plus footer fits in memory.
/// Returns the size of the data plus footer.
fn check_header(header: &Vec<u8>) -> (r: Result<usize, ReadRecordError>)
    requires
        header@.len() == 12,
    ensures
        r is Ok <==> header_accepted(header@),
        r matches Ok(t) ==> t == stored_length(header@) + 4,
        r is Err ==> parsed_as(header@, Err::<TfRecord, ReadRecordError>(r->Err_0)) && !(r->Err_0 is Truncated),
{
    let hdr = header.as_slice();
    let length_buf = vstd::slice::slice_subrange(hdr, 0, LENGTH_CRC_OFFSET);
    let length_crc = read_le_u32(vstd::slice::slice_subrange(hdr, LENGTH_CRC_OFFSET, HEADER_LENGTH));
    let actual = MaskedCrc::compute(length_buf);
    if actual.0 != length_crc {
        let e = ChecksumError { got: actual, want: MaskedCrc(length_crc) };
        return Err(ReadRecordError::BadLengthCrc(e));
    }
    let length = read_le_u64(length_buf);
    if length > (usize::MAX - FOOTER_LENGTH) as u64 {
        return Err(ReadRecordError::TooLarge(length));
    }
    Ok(length as usize + FOOTER_LENGTH)
}

/// Bytes read up to what the current phase wants all belong to the record.
proof fn lemma_wanted_consumed(b: Seq<u8>, got: Seq<u8>)
    requires
        resumable(b),
        got.len() <= wanted_len(b),
    ensures
        consumed_len(b + got) == b.len() + got.len(),
{
    let raw = b + got;
    if b.len() >= 12 {
        assert(raw.take(12) =~= b.take(12));
        lemma_header_prefix(raw, b.take(12));
        lemma_header_prefix(b, b.take(12));
    } else if raw.len() >= 12 {
        assert(raw.len() == 12);
    }
}

/// What a raw record's header says depends on its first twelve bytes alone.
proof fn lemma_header_prefix(raw: Seq<u8>, h: Seq<u8>)
    requires
        h.len() == 12,
        raw.len() >= 12,
        raw.take(12) == h,
    ensures
        stored_length(raw) == stored_length(h),
        stored_length_crc(raw) == stored_length_crc(h),
        raw.subrange(0, 8) == h.subrange(0, 8),
        header_checks(raw) == header_checks(h),
        header_accepted(raw) == header_accepted(h),
        bad_header(raw) == bad_header(h),
        too_large(raw) == too_large(h),
{
    assert(raw.subrange(0, 8) =~= h.subrange(0, 8));
    assert(raw.subrange(8, 12) =~= h.subrange(8, 12));
}

impl Default for TfRecordState {
    fn default() -> (r: Self)
        ensures
            r.wf(),
            r.buffered() == Seq::<u8>::empty(),
    {
        Self::new()
    }
}

/// Changing one byte of a little-endian number changes its value by that byte's weight times
/// the change.
proof fn lemma_le_update(s: Seq<u8>, k: int, v: u8)
    requires
        0 <= k < s.len(),
    ensures
        le_value(s.update(k, v)) as int == le_value(s) as int + vstd::arithmetic::power::pow(
            256,
            k as nat,
        ) * (v as int - s[k] as int),
    decreases s.len(),
{
    vstd::arithmetic::power::lemma_pow0(256);
    if k == 0 {
        assert(s.update(k, v).drop_first() =~= s.drop_first());
    } else {
        let t = s.drop_first();
        assert(s.update(k, v).drop_first() =~= t.update(k - 1, v));
        lemma_le_update(t, k - 1, v);
        vstd::arithmetic::power::lemma_pow_adds(256, 1, (k - 1) as nat);
        vstd::arithmetic::power::lemma_pow1(256);
        let p = vstd::arithmetic::power::pow(256, (k - 1) as nat);
        let d = v as int - s[k] as int;
        assert(256 * (le_value(t) as int + p * d) == 256 * le_value(t) as int + (256 * p) * d)
            by (nonlinear_arith);
    }
}

/// Splitting a well-formed record at any byte: the part before the split reads as `Truncated`
/// and is kept whole, so a later read of the rest sees exactly the whole record's bytes, and
/// reading the whole record gives the record. A record fed in any number of pieces therefore
/// gives `Truncated` for every piece but the last, and then the same record as when fed at once.
pub proof fn lemma_split_record(raw: Seq<u8>, k: int)
    requires
        well_formed_record(raw),
        0 <= k < raw.len(),
    ensures
        truncated(raw.take(k)),
        resumable(raw.take(k)),
        consumed_len(raw.take(k)) == k,
        raw.take(k) + raw.skip(k) == raw,
        complete(raw),
        consumed_len(raw) == raw.len(),
{
    let p = raw.take(k);
    if k >= 12 {
        assert(p.take(12) =~= raw.take(12));
        lemma_header_prefix(p, raw.take(12));
        lemma_header_prefix(raw, raw.take(12));
    }
    assert(p + raw.skip(k) =~= raw);
}

/// With no new bytes, a record whose header has not been rejected reads as `Truncated`, never
/// as an error or an empty record, and nothing is taken.
pub proof fn lemma_nothing_to_read(buffered: Seq<u8>, r: Result<TfRecord, ReadRecordError>)
    requires
        resumable(buffered),
        buffered.len() == 12 ==> header_accepted(buffered),
    ensures
        parsed_as(buffered + Seq::<u8>::empty(), r) <==> r matches Err(ReadRecordError::Truncated),
        consumed_len(buffered + Seq::<u8>::empty()) == buffered.len(),
{
    assert(buffered + Seq::<u8>::empty() =~= buffered);
}

/// Flipping any bit of the stored length checksum of a record whose header was valid makes the
/// header fail its check, with the checksum computed from the untouched length bytes and the
/// corrupted stored value.
pub proof fn lemma_corrupt_length_crc(
    raw: Seq<u8>,
    k: int,
    bit: u8,
    r: Result<TfRecord, ReadRecordError>,
)
    requires
        raw.len() >= 12,
        header_checks(raw),
        8 <= k < 12,
        bit < 8,
    ensures
        ({
            let bad = raw.update(k, raw[k] ^ (1u8 << bit));
            &&& bad_header(bad)
            &&& parsed_as(bad, r) <==> (r matches Err(ReadRecordError::BadLengthCrc(e)) && e.got.0
                == masked_crc(raw.subrange(0, 8)) && e.want.0 as nat == le_value(
                bad.subrange(8, 12),
            ))
        }),
{
    let x = raw[k];
    let y = x ^ (1u8 << bit);
    assert(y != x) by (bit_vector)
        requires
            y == x ^ (1u8 << bit),
            bit < 8,
    ;
    let bad = raw.update(k, y);
    assert(bad.subrange(0, 8) =~= raw.subrange(0, 8));
    assert(bad.subrange(8, 12) =~= raw.subrange(8, 12).update(k - 8, y));
    lemma_le_update(raw.subrange(8, 12), k - 8, y);
    vstd::arithmetic::power::lemma_pow_positive(256, (k - 8) as nat);
    let w = vstd::arithmetic::power::pow(256, (k - 8) as nat);
    assert(w * (y as int - x as int) != 0) by (nonlinear_arith)
        requires
            w > 0,
            y != x,
    ;
}

/// Changing a byte of a well-formed record's payload leaves the record readable: the header
/// and the stored data checksum are untouched and the data holds the changed byte, so the
/// record's checksum validation compares the changed data against the unchanged stored value.
pub proof fn lemma_corrupt_payload(raw: Seq<u8>, k: int, v: u8)
    requires
        well_formed_record(raw),
        12 <= k < 12 + stored_length(raw),
    ensures
        ({
            let bad = raw.update(k, v);
            &&& well_formed_record(bad)
            &&& record_data(bad) == record_data(raw).update(k - 12, v)
            &&& record_crc(bad) == record_crc(raw)
        }),
{
    let bad = raw.update(k, v);
    assert(bad.subrange(0, 8) =~= raw.subrange(0, 8));
    assert(bad.subrange(8, 12) =~= raw.subrange(8, 12));
    let len = stored_length(raw);
    assert(record_data(bad) =~= record_data(raw).update(k - 12, v));
    assert(bad.subrange(12 + len as int, record_end(raw) as int) =~= raw.subrange(
        12 + len as int,
        record_end(raw) as int,
    ));
}

/// A valid header whose length leaves no room for the footer in memory reads as `TooLarge`,
/// carrying the length as stored.
pub proof fn lemma_too_large(raw: Seq<u8>, r: Result<TfRecord, ReadRecordError>)
    requires
        raw.len() >= 12,
        header_checks(raw),
        stored_length(raw) + 4 > usize::MAX,
    ensures
        parsed_as(raw, r) <==> (r matches Err(ReadRecordError::TooLarge(n)) && n as nat
            == stored_length(raw)),
        consumed_len(raw) == 12,
{
}


} // verus!
