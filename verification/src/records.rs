//! Log records, record pointers, and the wire format.
//!
//! Every record is framed as `type byte | header | payload | crc32`, with all
//! multi-byte integers big-endian. The spec-level model of a record and of
//! its encoded bytes lives here; the executable encoder and decoder on
//! `FileHandle` are proved against these functions.

use vstd::prelude::*;

verus! {

/// Identifies one record on disk: the segment that holds it and the byte
/// offset of its first byte within that segment.
#[derive(Clone, Copy, Debug, PartialEq, Eq, Structural)]
pub struct LogRecordPtr {
    pub file_id: u32,
    pub offset: u64,
}

/// The five record variants of the log.
#[derive(Debug, PartialEq, Clone)]
pub enum LogRecord {
    Data { key: Vec<u8>, value: Vec<u8> },
    Tomb { key: Vec<u8> },
    DataInBatch { batch_id: u64, key: Vec<u8>, value: Vec<u8> },
    TombInBatch { batch_id: u64, key: Vec<u8> },
    BatchDone { batch_id: u64 },
}

/// Spec-level model of a record: the same five variants over byte sequences.
pub enum RecordModel {
    Data { key: Seq<u8>, value: Seq<u8> },
    Tomb { key: Seq<u8> },
    DataInBatch { batch_id: u64, key: Seq<u8>, value: Seq<u8> },
    TombInBatch { batch_id: u64, key: Seq<u8> },
    BatchDone { batch_id: u64 },
}

impl View for LogRecord {
    type V = RecordModel;

    open spec fn view(&self) -> RecordModel {
        match self {
            LogRecord::Data { key, value } => RecordModel::Data { key: key@, value: value@ },
            LogRecord::Tomb { key } => RecordModel::Tomb { key: key@ },
            LogRecord::DataInBatch { batch_id, key, value } => RecordModel::DataInBatch {
                batch_id: *batch_id,
                key: key@,
                value: value@,
            },
            LogRecord::TombInBatch { batch_id, key } => RecordModel::TombInBatch {
                batch_id: *batch_id,
                key: key@,
            },
            LogRecord::BatchDone { batch_id } => RecordModel::BatchDone { batch_id: *batch_id },
        }
    }
}

/// The CRC-32 checksum that frames every record.
///
/// Computed by the `crc32fast` crate; the checksum of a byte sequence is a
/// function of those bytes alone, so the result only carries a name here.
pub uninterp spec fn crc32_of(bytes: Seq<u8>) -> u32;

/// Big-endian bytes of a `u32`.
pub open spec fn u32_be(x: u32) -> Seq<u8> {
    seq![
        (x as int / 0x100_0000 % 256) as u8,
        (x as int / 0x1_0000 % 256) as u8,
        (x as int / 0x100 % 256) as u8,
        (x as int % 256) as u8,
    ]
}

/// The `u32` read back from four big-endian bytes.
pub open spec fn u32_of_be(b: Seq<u8>) -> u32 {
    (b[0] as int * 0x100_0000 + b[1] as int * 0x1_0000 + b[2] as int * 0x100 + b[3] as int) as u32
}

/// Big-endian bytes of a `u64`.
pub open spec fn u64_be(x: u64) -> Seq<u8> {
    seq![
        (x as int / 0x100_0000_0000_0000 % 256) as u8,
        (x as int / 0x1_0000_0000_0000 % 256) as u8,
        (x as int / 0x100_0000_0000 % 256) as u8,
        (x as int / 0x1_0000_0000 % 256) as u8,
        (x as int / 0x100_0000 % 256) as u8,
        (x as int / 0x1_0000 % 256) as u8,
        (x as int / 0x100 % 256) as u8,
        (x as int % 256) as u8,
    ]
}

/// The `u64` read back from eight big-endian bytes.
pub open spec fn u64_of_be(b: Seq<u8>) -> u64 {
    (b[0] as int * 0x100_0000_0000_0000 + b[1] as int * 0x1_0000_0000_0000
        + b[2] as int * 0x100_0000_0000 + b[3] as int * 0x1_0000_0000 + b[4] as int * 0x100_0000
        + b[5] as int * 0x1_0000 + b[6] as int * 0x100 + b[7] as int) as u64
}

pub proof fn lemma_u32_be_round_trip(x: u32)
    ensures
        u32_be(x).len() == 4,
        u32_of_be(u32_be(x)) == x,
{
    let xi = x as int;
    assert(xi / 0x100_0000 % 256 == xi / 0x100_0000) by {
        assert(xi < 0x1_0000_0000);
        assert(xi / 0x100_0000 < 256) by (nonlinear_arith)
            requires 0 <= xi < 0x1_0000_0000;
    }
    assert((xi / 0x100_0000) * 0x100_0000 + (xi / 0x1_0000 % 256) * 0x1_0000
        + (xi / 0x100 % 256) * 0x100 + xi % 256 == xi) by (nonlinear_arith)
        requires 0 <= xi < 0x1_0000_0000;
}

pub proof fn lemma_u64_be_round_trip(x: u64)
    ensures
        u64_be(x).len() == 8,
        u64_of_be(u64_be(x)) == x,
{
    assert(x / 0x100_0000_0000_0000 % 256 * 0x100_0000_0000_0000 + x / 0x1_0000_0000_0000 % 256
        * 0x1_0000_0000_0000 + x / 0x100_0000_0000 % 256 * 0x100_0000_0000 + x / 0x1_0000_0000
        % 256 * 0x1_0000_0000 + x / 0x100_0000 % 256 * 0x100_0000 + x / 0x1_0000 % 256 * 0x1_0000
        + x / 0x100 % 256 * 0x100 + x % 256 == x) by (bit_vector);
}

impl RecordModel {
    /// Key and value lengths fit the 32-bit size fields of the wire format.
    pub open spec fn wire_valid(self) -> bool {
        match self {
            RecordModel::Data { key, value } => key.len() < 0x1_0000_0000 && value.len()
                < 0x1_0000_0000,
            RecordModel::Tomb { key } => key.len() < 0x1_0000_0000,
            RecordModel::DataInBatch { key, value, .. } => key.len() < 0x1_0000_0000
                && value.len() < 0x1_0000_0000,
            RecordModel::TombInBatch { key, .. } => key.len() < 0x1_0000_0000,
            RecordModel::BatchDone { .. } => true,
        }
    }

    /// The key of a record, where it has one.
    pub open spec fn key(self) -> Seq<u8> {
        match self {
            RecordModel::Data { key, .. } => key,
            RecordModel::Tomb { key } => key,
            RecordModel::DataInBatch { key, .. } => key,
            RecordModel::TombInBatch { key, .. } => key,
            RecordModel::BatchDone { .. } => Seq::empty(),
        }
    }

    /// Every byte of the record before the trailing checksum.
    pub open spec fn body_bytes(self) -> Seq<u8> {
        match self {
            RecordModel::Data { key, value } => seq![0u8] + u32_be(key.len() as u32) + u32_be(
                value.len() as u32,
            ) + key + value,
            RecordModel::Tomb { key } => seq![1u8] + u32_be(key.len() as u32) + key,
            RecordModel::DataInBatch { batch_id, key, value } => seq![2u8] + u64_be(batch_id)
                + u32_be(key.len() as u32) + u32_be(value.len() as u32) + key + value,
            RecordModel::TombInBatch { batch_id, key } => seq![3u8] + u64_be(batch_id) + u32_be(
                key.len() as u32,
            ) + key,
            RecordModel::BatchDone { batch_id } => seq![4u8] + u64_be(batch_id),
        }
    }

    /// The full wire encoding: the body followed by its CRC-32.
    pub open spec fn wire_bytes(self) -> Seq<u8> {
        self.body_bytes() + u32_be(crc32_of(self.body_bytes()))
    }

    /// The encoded length, as a function of the variant and its field lengths.
    pub open spec fn wire_len(self) -> int {
        match self {
            RecordModel::Data { key, value } => 13 + key.len() as int + value.len() as int,
            RecordModel::Tomb { key } => 9 + key.len() as int,
            RecordModel::DataInBatch { key, value, .. } => 21 + key.len() as int + value.len() as int,
            RecordModel::TombInBatch { key, .. } => 17 + key.len() as int,
            RecordModel::BatchDone { .. } => 13,
        }
    }
}

pub proof fn lemma_wire_bytes_len(r: RecordModel)
    ensures
        r.wire_bytes().len() == r.wire_len(),
        r.body_bytes().len() == r.wire_len() - 4,
{
}

/// The bytes of a whole segment: the concatenated encodings of its records.
pub open spec fn seg_bytes(rs: Seq<RecordModel>) -> Seq<u8>
    decreases rs.len(),
{
    if rs.len() == 0 {
        Seq::empty()
    } else {
        seg_bytes(rs.drop_last()) + rs.last().wire_bytes()
    }
}

/// The byte offset at which record `i` of a segment starts.
pub open spec fn seg_offset(rs: Seq<RecordModel>, i: int) -> int {
    seg_bytes(rs.take(i)).len() as int
}

/// Every record of the sequence fits the wire format's size fields.
pub open spec fn all_wire_valid(rs: Seq<RecordModel>) -> bool {
    forall|i: int| 0 <= i < rs.len() ==> (#[trigger] rs[i]).wire_valid()
}

/// The byte at position `i`, reading zero past either end: a positional read
/// beyond the stored bytes yields zeroes, which tolerates zero-padded
/// truncation.
pub open spec fn byte_at(buf: Seq<u8>, i: int) -> u8 {
    if 0 <= i < buf.len() {
        buf[i]
    } else {
        0
    }
}

/// `n` bytes starting at `off`, zero-padded past the end.
pub open spec fn bytes_at(buf: Seq<u8>, off: int, n: int) -> Seq<u8> {
    Seq::new(n as nat, |j: int| byte_at(buf, off + j))
}

/// What decoding finds at one offset of a segment.
pub enum ParseOutcome {
    /// An all-zero header: the end of the record stream.
    Eof,
    /// A type byte outside the known range.
    Unknown { tag: u8 },
    /// The stored checksum does not match the record's bytes.
    Corrupt { expected: u32, got: u32 },
    /// A whole record and the number of bytes it spans.
    Parsed { rec: RecordModel, size: int },
}

/// Decode the record starting at `off`, exactly as the executable decoder
/// does: the type byte selects the layout, an all-zero header means `Eof`,
/// and the trailing checksum must match the bytes before it.
pub open spec fn parse_record(buf: Seq<u8>, off: int) -> ParseOutcome {
    let t = byte_at(buf, off);
    if t == 0 {
        let klen = u32_of_be(bytes_at(buf, off + 1, 4)) as int;
        let vlen = u32_of_be(bytes_at(buf, off + 5, 4)) as int;
        if klen == 0 && vlen == 0 {
            ParseOutcome::Eof
        } else {
            let body = bytes_at(buf, off, 9 + klen + vlen);
            let stored = u32_of_be(bytes_at(buf, off + 9 + klen + vlen, 4));
            if stored == crc32_of(body) {
                ParseOutcome::Parsed {
                    rec: RecordModel::Data {
                        key: bytes_at(buf, off + 9, klen),
                        value: bytes_at(buf, off + 9 + klen, vlen),
                    },
                    size: 13 + klen + vlen,
                }
            } else {
                ParseOutcome::Corrupt { expected: crc32_of(body), got: stored }
            }
        }
    } else if t == 1 {
        let klen = u32_of_be(bytes_at(buf, off + 1, 4)) as int;
        if klen == 0 {
            ParseOutcome::Eof
        } else {
            let body = bytes_at(buf, off, 5 + klen);
            let stored = u32_of_be(bytes_at(buf, off + 5 + klen, 4));
            if stored == crc32_of(body) {
                ParseOutcome::Parsed {
                    rec: RecordModel::Tomb { key: bytes_at(buf, off + 5, klen) },
                    size: 9 + klen,
                }
            } else {
                ParseOutcome::Corrupt { expected: crc32_of(body), got: stored }
            }
        }
    } else if t == 2 {
        let batch_id = u64_of_be(bytes_at(buf, off + 1, 8));
        let klen = u32_of_be(bytes_at(buf, off + 9, 4)) as int;
        let vlen = u32_of_be(bytes_at(buf, off + 13, 4)) as int;
        if klen == 0 && vlen == 0 {
            ParseOutcome::Eof
        } else {
            let body = bytes_at(buf, off, 17 + klen + vlen);
            let stored = u32_of_be(bytes_at(buf, off + 17 + klen + vlen, 4));
            if stored == crc32_of(body) {
                ParseOutcome::Parsed {
                    rec: RecordModel::DataInBatch {
                        batch_id,
                        key: bytes_at(buf, off + 17, klen),
                        value: bytes_at(buf, off + 17 + klen, vlen),
                    },
                    size: 21 + klen + vlen,
                }
            } else {
                ParseOutcome::Corrupt { expected: crc32_of(body), got: stored }
            }
        }
    } else if t == 3 {
        let batch_id = u64_of_be(bytes_at(buf, off + 1, 8));
        let klen = u32_of_be(bytes_at(buf, off + 9, 4)) as int;
        if klen == 0 {
            ParseOutcome::Eof
        } else {
            let body = bytes_at(buf, off, 13 + klen);
            let stored = u32_of_be(bytes_at(buf, off + 13 + klen, 4));
            if stored == crc32_of(body) {
                ParseOutcome::Parsed {
                    rec: RecordModel::TombInBatch { batch_id, key: bytes_at(buf, off + 13, klen) },
                    size: 17 + klen,
                }
            } else {
                ParseOutcome::Corrupt { expected: crc32_of(body), got: stored }
            }
        }
    } else if t == 4 {
        let batch_id = u64_of_be(bytes_at(buf, off + 1, 8));
        let body = bytes_at(buf, off, 9);
        let stored = u32_of_be(bytes_at(buf, off + 9, 4));
        if stored == crc32_of(body) {
            ParseOutcome::Parsed { rec: RecordModel::BatchDone { batch_id }, size: 13 }
        } else {
            ParseOutcome::Corrupt { expected: crc32_of(body), got: stored }
        }
    } else {
        ParseOutcome::Unknown { tag: t }
    }
}

impl LogRecord {
    /// Whether the record's key is empty; a `BatchDone` has no key.
    pub fn key_is_empty(&self) -> (r: bool)
        ensures
            r == (!(self@ is BatchDone) && self@.key().len() == 0),
    {
        match self {
            LogRecord::Data { key, .. } => key.len() == 0,
            LogRecord::Tomb { key } => key.len() == 0,
            LogRecord::DataInBatch { key, .. } => key.len() == 0,
            LogRecord::TombInBatch { key, .. } => key.len() == 0,
            LogRecord::BatchDone { .. } => false,
        }
    }

    /// The wire type byte of the record's variant.
    pub fn type_id(&self) -> (r: u8)
        ensures
            r == self@.body_bytes()[0],
            r <= 4,
    {
        match self {
            LogRecord::Data { .. } => 0,
            LogRecord::Tomb { .. } => 1,
            LogRecord::DataInBatch { .. } => 2,
            LogRecord::TombInBatch { .. } => 3,
            LogRecord::BatchDone { .. } => 4,
        }
    }

    /// The exact number of bytes of the record's wire encoding.
    pub fn encoded_len(&self) -> (r: usize)
        requires
            self@.wire_valid(),
            self@.wire_len() <= usize::MAX,
        ensures
            r == self@.wire_len(),
    {
        match self {
            LogRecord::Data { key, value } => 13 + key.len() + value.len(),
            LogRecord::Tomb { key } => 9 + key.len(),
            LogRecord::DataInBatch { key, value, .. } => 21 + key.len() + value.len(),
            LogRecord::TombInBatch { key, .. } => 17 + key.len(),
            LogRecord::BatchDone { .. } => 13,
        }
    }

    /// Number of bytes of the leading type tag.
    pub fn type_length() -> (r: usize)
        ensures
            r == 1,
    {
        1
    }

    /// Header bytes of a `Data` record: two 32-bit sizes.
    pub fn header_length_data() -> (r: usize)
        ensures
            r == 8,
    {
        8
    }

    /// Header bytes of a `Tomb` record: one 32-bit size.
    pub fn header_length_tomb() -> (r: usize)
        ensures
            r == 4,
    {
        4
    }

    /// Header bytes of a `DataInBatch` record: batch id and two sizes.
    pub fn header_length_data_in_batch() -> (r: usize)
        ensures
            r == 16,
    {
        16
    }

    /// Header bytes of a `TombInBatch` record: batch id and one size.
    pub fn header_length_tomb_in_batch() -> (r: usize)
        ensures
            r == 12,
    {
        12
    }

    /// Header bytes of a `BatchDone` record: the batch id alone.
    pub fn header_length_batch_done() -> (r: usize)
        ensures
            r == 8,
    {
        8
    }

    /// Number of bytes of the trailing checksum.
    pub fn tail_length() -> (r: usize)
        ensures
            r == 4,
    {
        4
    }
}

} // verus!
// The lemmas below connect the wire encoding and the decoder: what the
// encoder wrote, the decoder finds again, and a decode that stays within the
// stored bytes is unaffected by later appends.

verus! {

/// Reading at or past the end of the stored bytes finds only zeroes, which
/// decode as a clean end of stream.
pub proof fn lemma_parse_past_end(buf: Seq<u8>, off: int)
    requires
        off >= buf.len(),
    ensures
        parse_record(buf, off) == ParseOutcome::Eof,
{
    assert(byte_at(buf, off) == 0);
    let hdr = bytes_at(buf, off + 1, 4);
    assert(hdr[0] == 0 && hdr[1] == 0 && hdr[2] == 0 && hdr[3] == 0);
    assert(u32_of_be(hdr) == 0);
    let hdr2 = bytes_at(buf, off + 5, 4);
    assert(hdr2[0] == 0 && hdr2[1] == 0 && hdr2[2] == 0 && hdr2[3] == 0);
    assert(u32_of_be(hdr2) == 0);
}

/// Decoding finds exactly the record whose encoding sits at `off`.
pub proof fn lemma_parse_encoded(buf: Seq<u8>, off: int, r: RecordModel)
    requires
        r.wire_valid(),
        !(r.key().len() == 0 && !(r is BatchDone)),
        0 <= off,
        off + r.wire_len() <= buf.len(),
        buf.subrange(off, off + r.wire_len()) == r.wire_bytes(),
    ensures
        parse_record(buf, off) == (ParseOutcome::Parsed { rec: r, size: r.wire_len() }),
{
    match r {
        RecordModel::Data { key, value } => lemma_parse_encoded_data(buf, off, key, value),
        RecordModel::Tomb { key } => lemma_parse_encoded_tomb(buf, off, key),
        RecordModel::DataInBatch { batch_id, key, value } => lemma_parse_encoded_data_in_batch(
            buf,
            off,
            batch_id,
            key,
            value,
        ),
        RecordModel::TombInBatch { batch_id, key } => lemma_parse_encoded_tomb_in_batch(
            buf,
            off,
            batch_id,
            key,
        ),
        RecordModel::BatchDone { batch_id } => lemma_parse_encoded_batch_done(buf, off, batch_id),
    }
}

/// The window premise, spelled byte by byte.
proof fn lemma_window_bytes(buf: Seq<u8>, off: int, w: Seq<u8>)
    requires
        0 <= off,
        off + w.len() <= buf.len(),
        buf.subrange(off, off + w.len()) == w,
    ensures
        forall|i: int| off <= i < off + w.len() ==> buf[i] == w[i - off],
{
    assert forall|i: int| off <= i < off + w.len() implies buf[i] == w[i - off] by {
        assert(buf.subrange(off, off + w.len() as int)[i - off] == buf[i]);
    }
}

#[verifier::rlimit(100)]
#[verifier::spinoff_prover]
proof fn lemma_parse_encoded_data(buf: Seq<u8>, off: int, key: Seq<u8>, value: Seq<u8>)
    requires
        key.len() > 0,
        key.len() < 0x1_0000_0000,
        value.len() < 0x1_0000_0000,
        0 <= off,
        off + 13 + key.len() + value.len() <= buf.len(),
        buf.subrange(off, off + 13 + key.len() + value.len()) == (RecordModel::Data {
            key,
            value,
        }).wire_bytes(),
    ensures
        parse_record(buf, off) == (ParseOutcome::Parsed {
            rec: RecordModel::Data { key, value },
            size: 13 + key.len() as int + value.len() as int,
        }),
{
    let r = RecordModel::Data { key, value };
    let w = r.wire_bytes();
    let body = r.body_bytes();
    let k = key.len() as int;
    let v = value.len() as int;
    lemma_wire_bytes_len(r);
    lemma_window_bytes(buf, off, w);
    assert(byte_at(buf, off) == 0);
    assert(bytes_at(buf, off + 1, 4) =~= u32_be(key.len() as u32));
    assert(bytes_at(buf, off + 5, 4) =~= u32_be(value.len() as u32));
    lemma_u32_be_round_trip(key.len() as u32);
    lemma_u32_be_round_trip(value.len() as u32);
    assert(bytes_at(buf, off, 9 + k + v) =~= body);
    assert(bytes_at(buf, off + 9 + k + v, 4) =~= u32_be(crc32_of(body)));
    lemma_u32_be_round_trip(crc32_of(body));
    assert(bytes_at(buf, off + 9, k) =~= key);
    assert(bytes_at(buf, off + 9 + k, v) =~= value);
}

#[verifier::rlimit(100)]
#[verifier::spinoff_prover]
proof fn lemma_parse_encoded_tomb(buf: Seq<u8>, off: int, key: Seq<u8>)
    requires
        key.len() > 0,
        key.len() < 0x1_0000_0000,
        0 <= off,
        off + 9 + key.len() <= buf.len(),
        buf.subrange(off, off + 9 + key.len()) == (RecordModel::Tomb { key }).wire_bytes(),
    ensures
        parse_record(buf, off) == (ParseOutcome::Parsed {
            rec: RecordModel::Tomb { key },
            size: 9 + key.len() as int,
        }),
{
    let r = RecordModel::Tomb { key };
    let w = r.wire_bytes();
    let body = r.body_bytes();
    let k = key.len() as int;
    lemma_wire_bytes_len(r);
    lemma_window_bytes(buf, off, w);
    assert(byte_at(buf, off) == 1);
    assert(bytes_at(buf, off + 1, 4) =~= u32_be(key.len() as u32));
    lemma_u32_be_round_trip(key.len() as u32);
    assert(bytes_at(buf, off, 5 + k) =~= body);
    assert(bytes_at(buf, off + 5 + k, 4) =~= u32_be(crc32_of(body)));
    lemma_u32_be_round_trip(crc32_of(body));
    assert(bytes_at(buf, off + 5, k) =~= key);
}

#[verifier::rlimit(100)]
#[verifier::spinoff_prover]
proof fn lemma_parse_encoded_data_in_batch(
    buf: Seq<u8>,
    off: int,
    batch_id: u64,
    key: Seq<u8>,
    value: Seq<u8>,
)
    requires
        key.len() > 0,
        key.len() < 0x1_0000_0000,
        value.len() < 0x1_0000_0000,
        0 <= off,
        off + 21 + key.len() + value.len() <= buf.len(),
        buf.subrange(off, off + 21 + key.len() + value.len()) == (RecordModel::DataInBatch {
            batch_id,
            key,
            value,
        }).wire_bytes(),
    ensures
        parse_record(buf, off) == (ParseOutcome::Parsed {
            rec: RecordModel::DataInBatch { batch_id, key, value },
            size: 21 + key.len() as int + value.len() as int,
        }),
{
    let r = RecordModel::DataInBatch { batch_id, key, value };
    let w = r.wire_bytes();
    let body = r.body_bytes();
    let k = key.len() as int;
    let v = value.len() as int;
    lemma_wire_bytes_len(r);
    lemma_window_bytes(buf, off, w);
    assert(byte_at(buf, off) == 2);
    assert(bytes_at(buf, off + 1, 8) =~= u64_be(batch_id));
    lemma_u64_be_round_trip(batch_id);
    assert(bytes_at(buf, off + 9, 4) =~= u32_be(key.len() as u32));
    assert(bytes_at(buf, off + 13, 4) =~= u32_be(value.len() as u32));
    lemma_u32_be_round_trip(key.len() as u32);
    lemma_u32_be_round_trip(value.len() as u32);
    assert(bytes_at(buf, off, 17 + k + v) =~= body);
    assert(bytes_at(buf, off + 17 + k + v, 4) =~= u32_be(crc32_of(body)));
    lemma_u32_be_round_trip(crc32_of(body));
    assert(bytes_at(buf, off + 17, k) =~= key);
    assert(bytes_at(buf, off + 17 + k, v) =~= value);
}

#[verifier::rlimit(100)]
#[verifier::spinoff_prover]
proof fn lemma_parse_encoded_tomb_in_batch(buf: Seq<u8>, off: int, batch_id: u64, key: Seq<u8>)
    requires
        key.len() > 0,
        key.len() < 0x1_0000_0000,
        0 <= off,
        off + 17 + key.len() <= buf.len(),
        buf.subrange(off, off + 17 + key.len()) == (RecordModel::TombInBatch {
            batch_id,
            key,
        }).wire_bytes(),
    ensures
        parse_record(buf, off) == (ParseOutcome::Parsed {
            rec: RecordModel::TombInBatch { batch_id, key },
            size: 17 + key.len() as int,
        }),
{
    let r = RecordModel::TombInBatch { batch_id, key };
    let w = r.wire_bytes();
    let body = r.body_bytes();
    let k = key.len() as int;
    lemma_wire_bytes_len(r);
    lemma_window_bytes(buf, off, w);
    assert(byte_at(buf, off) == 3);
    assert(bytes_at(buf, off + 1, 8) =~= u64_be(batch_id));
    lemma_u64_be_round_trip(batch_id);
    assert(bytes_at(buf, off + 9, 4) =~= u32_be(key.len() as u32));
    lemma_u32_be_round_trip(key.len() as u32);
    assert(bytes_at(buf, off, 13 + k) =~= body);
    assert(bytes_at(buf, off + 13 + k, 4) =~= u32_be(crc32_of(body)));
    lemma_u32_be_round_trip(crc32_of(body));
    assert(bytes_at(buf, off + 13, k) =~= key);
}

#[verifier::rlimit(100)]
#[verifier::spinoff_prover]
proof fn lemma_parse_encoded_batch_done(buf: Seq<u8>, off: int, batch_id: u64)
    requires
        0 <= off,
        off + 13 <= buf.len(),
        buf.subrange(off, off + 13) == (RecordModel::BatchDone { batch_id }).wire_bytes(),
    ensures
        parse_record(buf, off) == (ParseOutcome::Parsed {
            rec: RecordModel::BatchDone { batch_id },
            size: 13,
        }),
{
    let r = RecordModel::BatchDone { batch_id };
    let w = r.wire_bytes();
    let body = r.body_bytes();
    lemma_wire_bytes_len(r);
    lemma_window_bytes(buf, off, w);
    assert(byte_at(buf, off) == 4);
    assert(bytes_at(buf, off + 1, 8) =~= u64_be(batch_id));
    lemma_u64_be_round_trip(batch_id);
    assert(bytes_at(buf, off, 9) =~= body);
    assert(bytes_at(buf, off + 9, 4) =~= u32_be(crc32_of(body)));
    lemma_u32_be_round_trip(crc32_of(body));
}

/// A decode whose record lies inside the stored bytes reads nothing outside
/// that window, so any buffer that agrees on the window decodes the same
/// record there.
#[verifier::rlimit(100)]
#[verifier::spinoff_prover]
pub proof fn lemma_parse_depends_on_window(
    buf: Seq<u8>,
    buf2: Seq<u8>,
    off: int,
    rec: RecordModel,
    size: int,
)
    requires
        0 <= off,
        parse_record(buf, off) == (ParseOutcome::Parsed { rec, size }),
        off + size <= buf.len(),
        off + size <= buf2.len(),
        forall|i: int| off <= i < off + size ==> #[trigger] byte_at(buf2, i) == byte_at(buf, i),
    ensures
        parse_record(buf2, off) == (ParseOutcome::Parsed { rec, size }),
{
    let t = byte_at(buf, off);
    if t == 0 {
        let klen = u32_of_be(bytes_at(buf, off + 1, 4)) as int;
        let vlen = u32_of_be(bytes_at(buf, off + 5, 4)) as int;
        assert(bytes_at(buf2, off + 1, 4) =~= bytes_at(buf, off + 1, 4));
        assert(bytes_at(buf2, off + 5, 4) =~= bytes_at(buf, off + 5, 4));
        assert(bytes_at(buf2, off, 9 + klen + vlen) =~= bytes_at(buf, off, 9 + klen + vlen));
        assert(bytes_at(buf2, off + 9 + klen + vlen, 4) =~= bytes_at(buf, off + 9 + klen + vlen, 4));
        assert(bytes_at(buf2, off + 9, klen) =~= bytes_at(buf, off + 9, klen));
        assert(bytes_at(buf2, off + 9 + klen, vlen) =~= bytes_at(buf, off + 9 + klen, vlen));
    } else if t == 1 {
        let klen = u32_of_be(bytes_at(buf, off + 1, 4)) as int;
        assert(bytes_at(buf2, off + 1, 4) =~= bytes_at(buf, off + 1, 4));
        assert(bytes_at(buf2, off, 5 + klen) =~= bytes_at(buf, off, 5 + klen));
        assert(bytes_at(buf2, off + 5 + klen, 4) =~= bytes_at(buf, off + 5 + klen, 4));
        assert(bytes_at(buf2, off + 5, klen) =~= bytes_at(buf, off + 5, klen));
    } else if t == 2 {
        let klen = u32_of_be(bytes_at(buf, off + 9, 4)) as int;
        let vlen = u32_of_be(bytes_at(buf, off + 13, 4)) as int;
        assert(bytes_at(buf2, off + 1, 8) =~= bytes_at(buf, off + 1, 8));
        assert(bytes_at(buf2, off + 9, 4) =~= bytes_at(buf, off + 9, 4));
        assert(bytes_at(buf2, off + 13, 4) =~= bytes_at(buf, off + 13, 4));
        assert(bytes_at(buf2, off, 17 + klen + vlen) =~= bytes_at(buf, off, 17 + klen + vlen));
        assert(bytes_at(buf2, off + 17 + klen + vlen, 4) =~= bytes_at(
            buf,
            off + 17 + klen + vlen,
            4,
        ));
        assert(bytes_at(buf2, off + 17, klen) =~= bytes_at(buf, off + 17, klen));
        assert(bytes_at(buf2, off + 17 + klen, vlen) =~= bytes_at(buf, off + 17 + klen, vlen));
    } else if t == 3 {
        let klen = u32_of_be(bytes_at(buf, off + 9, 4)) as int;
        assert(bytes_at(buf2, off + 1, 8) =~= bytes_at(buf, off + 1, 8));
        assert(bytes_at(buf2, off + 9, 4) =~= bytes_at(buf, off + 9, 4));
        assert(bytes_at(buf2, off, 13 + klen) =~= bytes_at(buf, off, 13 + klen));
        assert(bytes_at(buf2, off + 13 + klen, 4) =~= bytes_at(buf, off + 13 + klen, 4));
        assert(bytes_at(buf2, off + 13, klen) =~= bytes_at(buf, off + 13, klen));
    } else if t == 4 {
        assert(bytes_at(buf2, off + 1, 8) =~= bytes_at(buf, off + 1, 8));
        assert(bytes_at(buf2, off, 9) =~= bytes_at(buf, off, 9));
        assert(bytes_at(buf2, off + 9, 4) =~= bytes_at(buf, off + 9, 4));
    }
}

/// Appending bytes leaves every whole record where it was.
pub proof fn lemma_parse_stable_under_append(
    buf: Seq<u8>,
    ext: Seq<u8>,
    off: int,
    rec: RecordModel,
    size: int,
)
    requires
        0 <= off,
        parse_record(buf, off) == (ParseOutcome::Parsed { rec, size }),
        off + size <= buf.len(),
    ensures
        parse_record(buf + ext, off) == (ParseOutcome::Parsed { rec, size }),
{
    let buf2 = buf + ext;
    assert forall|i: int| off <= i < off + size implies #[trigger] byte_at(buf2, i) == byte_at(
        buf,
        i,
    ) by {
        assert(buf2[i] == buf[i]);
    }
    lemma_parse_depends_on_window(buf, buf2, off, rec, size);
}

/// A decode never spans fewer than the fixed framing bytes.
pub proof fn lemma_parse_size_positive(buf: Seq<u8>, off: int)
    requires
        parse_record(buf, off) is Parsed,
    ensures
        parse_record(buf, off)->size >= 9,
{
}

/// Whatever decodes fits the wire format's size fields.
pub proof fn lemma_parse_rec_bounds(buf: Seq<u8>, off: int)
    requires
        parse_record(buf, off) is Parsed,
    ensures
        (parse_record(buf, off)->rec).wire_valid(),
        (parse_record(buf, off)->rec).key().len() < 0x1_0000_0000,
{
}

} // verus!
