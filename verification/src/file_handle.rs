//! One segment of the log: its bytes in wire format, a write offset, and the
//! size cap that drives rotation. The encoder and the CRC-checking decoder
//! live here, proved against the wire-format spec in `records`.

use vstd::prelude::*;

use crate::config::FileConfig;
use crate::errors::Errors;
use crate::records::{
    byte_at, bytes_at, crc32_of, parse_record, u32_be, u32_of_be, u64_be, u64_of_be, LogRecord,
    ParseOutcome,
};

verus! {

/// A segment: the full bytes it holds, the offset the next append writes at,
/// and the configured size cap.
pub struct FileHandle {
    buf: Vec<u8>,
    write_offset: u64,
    file_config: FileConfig,
}

impl FileHandle {
    /// The segment's bytes.
    pub closed spec fn contents(&self) -> Seq<u8> {
        self.buf@
    }

    /// The configured segment size cap.
    pub closed spec fn max_size(&self) -> u64 {
        self.file_config.max_file_size
    }

    /// The tracked write offset.
    pub closed spec fn cur_offset(&self) -> u64 {
        self.write_offset
    }

    /// The write offset sits at the end of the stored bytes.
    pub open spec fn offset_synced(&self) -> bool {
        self.cur_offset() == self.contents().len()
    }

    /// A fresh, empty segment.
    pub fn create(file_config: FileConfig) -> (r: Self)
        ensures
            r.offset_synced(),
            r.contents().len() == 0,
            r.cur_offset() == 0,
            r.max_size() == file_config.max_file_size,
    {
        FileHandle { buf: Vec::new(), write_offset: 0, file_config }
    }

    /// A segment over bytes handed back by the embedding shell; the recovery
    /// scan decides what they hold.
    pub fn open(contents: Vec<u8>, file_config: FileConfig) -> (r: Self)
        ensures
            r.contents() == contents@,
            r.cur_offset() == 0,
            r.max_size() == file_config.max_file_size,
    {
        FileHandle { buf: contents, write_offset: 0, file_config }
    }

    /// Drop every byte from position `n` on; recovery uses this to discard
    /// zero padding after the last whole record.
    pub fn truncate_to(&mut self, n: u64)
        requires
            n <= old(self).contents().len(),
        ensures
            final(self).contents() == old(self).contents().take(n as int),
            final(self).cur_offset() == old(self).cur_offset(),
            final(self).max_size() == old(self).max_size(),
    {
        let stored: usize = self.buf.len();
        let mut kept: Vec<u8> = Vec::new();
        let end: usize = n as usize;
        let end: usize = if end > stored {
            stored
        } else {
            end
        };
        let mut i: usize = 0;
        while i < end
            invariant
                0 <= i <= end,
                end <= self.buf@.len(),
                kept@.len() == i,
                forall|j: int| 0 <= j < i ==> kept@[j] == self.buf@[j],
                self == old(self),
            decreases end - i,
        {
            kept.push(self.buf[i]);
            i = i + 1;
        }
        self.buf = kept;
        proof {
            assert(self.buf@ =~= old(self).contents().take(n as int));
        }
    }

    /// The tracked write offset.
    pub fn get_write_offset(&self) -> (r: u64)
        ensures
            r == self.cur_offset(),
    {
        self.write_offset
    }

    /// Overwrite the tracked write offset.
    pub fn set_write_offset(&mut self, offset: u64)
        ensures
            final(self).cur_offset() == offset,
            final(self).contents() == old(self).contents(),
            final(self).max_size() == old(self).max_size(),
    {
        self.write_offset = offset;
    }

    /// A copy of the segment's bytes, for the embedding shell to persist.
    pub fn contents_vec(&self) -> (r: Vec<u8>)
        ensures
            r@ == self.contents(),
    {
        crate::index::clone_bytes(&self.buf)
    }

    /// The number of bytes the segment holds.
    pub fn size(&self) -> (r: u64)
        ensures
            r == self.contents().len(),
    {
        let n: usize = self.buf.len();
        n as u64
    }

    /// Flushing is the embedding shell's work; the in-memory segment has
    /// nothing left to write back.
    pub fn sync(&self) -> (r: Result<(), Errors>)
        ensures
            r is Ok,
    {
        Ok(())
    }

    /// Relies on `crc32fast::Hasher` (`new`, `update`, `finalize`): the
    /// CRC-32 of a byte slice depends on those bytes alone.
    #[verifier::external_body]
    pub fn crc(buf: &[u8]) -> (r: u32)
        ensures
            r == crc32_of(buf@),
    {
        let mut hasher = crc32fast::Hasher::new();
        hasher.update(buf);
        hasher.finalize()
    }

    /// `Ok` exactly when `crc` is the checksum of `buf`.
    pub fn verify_crc(buf: &[u8], crc: u32) -> (r: Result<(), Errors>)
        ensures
            crc == crc32_of(buf@) ==> r is Ok,
            crc != crc32_of(buf@) ==> r == Err::<(), Errors>(
                Errors::CrcMismatch { expected: crc32_of(buf@), got: crc },
            ),
    {
        let expected: u32 = Self::crc(buf);
        if crc == expected {
            Ok(())
        } else {
            Err(Errors::CrcMismatch { expected, got: crc })
        }
    }

    /// The record's full wire encoding.
    pub fn encode_record(record: &LogRecord) -> (r: Vec<u8>)
        requires
            record@.wire_valid(),
            record@.wire_len() <= usize::MAX,
        ensures
            r@ == record@.wire_bytes(),
            r@.len() == record@.wire_len(),
    {
        let mut res: Vec<u8> = Vec::new();
        match record {
            LogRecord::Data { key, value } => {
                res.push(0);
                push_u32_be(&mut res, key.len() as u32);
                push_u32_be(&mut res, value.len() as u32);
                push_bytes(&mut res, key);
                push_bytes(&mut res, value);
            },
            LogRecord::Tomb { key } => {
                res.push(1);
                push_u32_be(&mut res, key.len() as u32);
                push_bytes(&mut res, key);
            },
            LogRecord::DataInBatch { batch_id, key, value } => {
                res.push(2);
                push_u64_be(&mut res, *batch_id);
                push_u32_be(&mut res, key.len() as u32);
                push_u32_be(&mut res, value.len() as u32);
                push_bytes(&mut res, key);
                push_bytes(&mut res, value);
            },
            LogRecord::TombInBatch { batch_id, key } => {
                res.push(3);
                push_u64_be(&mut res, *batch_id);
                push_u32_be(&mut res, key.len() as u32);
                push_bytes(&mut res, key);
            },
            LogRecord::BatchDone { batch_id } => {
                res.push(4);
                push_u64_be(&mut res, *batch_id);
            },
        }
        proof {
            assert(res@ =~= record@.body_bytes());
            crate::records::lemma_wire_bytes_len(record@);
        }
        let crc: u32 = Self::crc(res.as_slice());
        push_u32_be(&mut res, crc);
        proof {
            assert(res@ =~= record@.wire_bytes());
        }
        res
    }

    /// Append the record if it fits under the size cap; on `BufferOverflow`
    /// nothing is written.
    pub fn try_append(&mut self, record: &LogRecord) -> (r: Result<usize, Errors>)
        requires
            old(self).offset_synced(),
            record@.wire_valid(),
            record@.wire_len() <= usize::MAX,
            !(record@.key().len() == 0 && !(record@ is BatchDone)),
        ensures
            final(self).offset_synced(),
            final(self).max_size() == old(self).max_size(),
            old(self).cur_offset() + record@.wire_len() >= old(self).max_size() ==> {
                &&& r == Err::<usize, Errors>(Errors::BufferOverflow)
                &&& final(self).contents() == old(self).contents()
                &&& final(self).cur_offset() == old(self).cur_offset()
            },
            old(self).cur_offset() + record@.wire_len() < old(self).max_size() ==> {
                &&& r == Ok::<usize, Errors>(record@.wire_len() as usize)
                &&& final(self).contents() == old(self).contents() + record@.wire_bytes()
                &&& final(self).cur_offset() == old(self).cur_offset() + record@.wire_len()
            },
    {
        let bin: Vec<u8> = Self::encode_record(record);
        let bin_len: u64 = bin.len() as u64;
        if bin_len >= self.file_config.max_file_size || self.write_offset
            >= self.file_config.max_file_size - bin_len {
            return Err(Errors::BufferOverflow);
        }
        let n: usize = self.append(bin);
        Ok(n)
    }

    /// Extend the stored bytes and advance the write offset.
    fn append(&mut self, bin: Vec<u8>) -> (r: usize)
        requires
            old(self).offset_synced(),
            old(self).cur_offset() + bin@.len() <= u64::MAX,
        ensures
            r == bin@.len(),
            final(self).contents() == old(self).contents() + bin@,
            final(self).cur_offset() == old(self).cur_offset() + bin@.len(),
            final(self).offset_synced(),
            final(self).max_size() == old(self).max_size(),
    {
        let n: usize = bin.len();
        let mut bin: Vec<u8> = bin;
        self.buf.append(&mut bin);
        self.write_offset = self.write_offset + n as u64;
        n
    }

    /// The byte at `i`, zero past the end.
    fn byte_at_pos(&self, i: u128) -> (r: u8)
        ensures
            r == byte_at(self.contents(), i as int),
    {
        if i < self.buf.len() as u128 {
            self.buf[i as usize]
        } else {
            0
        }
    }

    /// Four bytes starting at `i`, decoded big-endian.
    fn read_u32_at(&self, i: u128) -> (r: u32)
        requires
            i + 4 <= u128::MAX,
        ensures
            r == u32_of_be(bytes_at(self.contents(), i as int, 4)),
    {
        let b0: u8 = self.byte_at_pos(i);
        let b1: u8 = self.byte_at_pos(i + 1);
        let b2: u8 = self.byte_at_pos(i + 2);
        let b3: u8 = self.byte_at_pos(i + 3);
        let r: u32 = (b0 as u32) * 0x100_0000 + (b1 as u32) * 0x1_0000 + (b2 as u32) * 0x100 + (
        b3 as u32);
        proof {
            let bs = bytes_at(self.contents(), i as int, 4);
            assert(bs[0] == b0 && bs[1] == b1 && bs[2] == b2 && bs[3] == b3);
        }
        r
    }

    /// Eight bytes starting at `i`, decoded big-endian.
    fn read_u64_at(&self, i: u128) -> (r: u64)
        requires
            i + 8 <= u128::MAX,
        ensures
            r == u64_of_be(bytes_at(self.contents(), i as int, 8)),
    {
        let b0: u8 = self.byte_at_pos(i);
        let b1: u8 = self.byte_at_pos(i + 1);
        let b2: u8 = self.byte_at_pos(i + 2);
        let b3: u8 = self.byte_at_pos(i + 3);
        let b4: u8 = self.byte_at_pos(i + 4);
        let b5: u8 = self.byte_at_pos(i + 5);
        let b6: u8 = self.byte_at_pos(i + 6);
        let b7: u8 = self.byte_at_pos(i + 7);
        let r: u64 = (b0 as u64) * 0x100_0000_0000_0000 + (b1 as u64) * 0x1_0000_0000_0000 + (
        b2 as u64) * 0x100_0000_0000 + (b3 as u64) * 0x1_0000_0000 + (b4 as u64) * 0x100_0000 + (
        b5 as u64) * 0x1_0000 + (b6 as u64) * 0x100 + (b7 as u64);
        proof {
            let bs = bytes_at(self.contents(), i as int, 8);
            assert(bs[0] == b0 && bs[1] == b1 && bs[2] == b2 && bs[3] == b3 && bs[4] == b4 && bs[5]
                == b5 && bs[6] == b6 && bs[7] == b7);
        }
        r
    }

    /// Decode the record starting at `offset`, CRC-checked: `Eof` on an
    /// all-zero header, `CrcMismatch` on a failed check, the record and its
    /// byte span otherwise.
    pub fn read_at_offset(&self, offset: u64) -> (r: Result<(LogRecord, u64), Errors>)
        ensures
            match parse_record(self.contents(), offset as int) {
                ParseOutcome::Eof => r == Err::<(LogRecord, u64), Errors>(Errors::Eof),
                ParseOutcome::Unknown { tag } => r == Err::<(LogRecord, u64), Errors>(
                    Errors::InvalidRecordType { tag },
                ),
                ParseOutcome::Corrupt { expected, got } => r == Err::<(LogRecord, u64), Errors>(
                    Errors::CrcMismatch { expected, got },
                ),
                ParseOutcome::Parsed { rec, size } => {
                    &&& r is Ok
                    &&& (r.unwrap().0)@ == rec
                    &&& r.unwrap().1 == size
                },
            },
    {
        let base: u128 = offset as u128;
        let t: u8 = self.byte_at_pos(base);
        if t == 0 {
            let k: u32 = self.read_u32_at(base + 1);
            let v: u32 = self.read_u32_at(base + 5);
            if k == 0 && v == 0 {
                return Err(Errors::Eof);
            }
            let body: Vec<u8> = self.read_bytes_at(base, 9 + k as u64 + v as u64);
            let stored: u32 = self.read_u32_at(base + 9 + k as u128 + v as u128);
            let computed: u32 = Self::crc(body.as_slice());
            if stored != computed {
                return Err(Errors::CrcMismatch { expected: computed, got: stored });
            }
            let key: Vec<u8> = self.read_bytes_at(base + 1 + 8, k as u64);
            let value: Vec<u8> = self.read_bytes_at(base + 9 + k as u128, v as u64);
            Ok((LogRecord::Data { key, value }, 13 + k as u64 + v as u64))
        } else if t == 1 {
            let k: u32 = self.read_u32_at(base + 1);
            if k == 0 {
                return Err(Errors::Eof);
            }
            let body: Vec<u8> = self.read_bytes_at(base, 5 + k as u64);
            let stored: u32 = self.read_u32_at(base + 5 + k as u128);
            let computed: u32 = Self::crc(body.as_slice());
            if stored != computed {
                return Err(Errors::CrcMismatch { expected: computed, got: stored });
            }
            let key: Vec<u8> = self.read_bytes_at(base + 5, k as u64);
            Ok((LogRecord::Tomb { key }, 9 + k as u64))
        } else if t == 2 {
            let batch_id: u64 = self.read_u64_at(base + 1);
            let k: u32 = self.read_u32_at(base + 9);
            let v: u32 = self.read_u32_at(base + 13);
            if k == 0 && v == 0 {
                return Err(Errors::Eof);
            }
            let body: Vec<u8> = self.read_bytes_at(base, 17 + k as u64 + v as u64);
            let stored: u32 = self.read_u32_at(base + 17 + k as u128 + v as u128);
            let computed: u32 = Self::crc(body.as_slice());
            if stored != computed {
                return Err(Errors::CrcMismatch { expected: computed, got: stored });
            }
            let key: Vec<u8> = self.read_bytes_at(base + 17, k as u64);
            let value: Vec<u8> = self.read_bytes_at(base + 17 + k as u128, v as u64);
            Ok((LogRecord::DataInBatch { batch_id, key, value }, 21 + k as u64 + v as u64))
        } else if t == 3 {
            let batch_id: u64 = self.read_u64_at(base + 1);
            let k: u32 = self.read_u32_at(base + 9);
            if k == 0 {
                return Err(Errors::Eof);
            }
            let body: Vec<u8> = self.read_bytes_at(base, 13 + k as u64);
            let stored: u32 = self.read_u32_at(base + 13 + k as u128);
            let computed: u32 = Self::crc(body.as_slice());
            if stored != computed {
                return Err(Errors::CrcMismatch { expected: computed, got: stored });
            }
            let key: Vec<u8> = self.read_bytes_at(base + 13, k as u64);
            Ok((LogRecord::TombInBatch { batch_id, key }, 17 + k as u64))
        } else if t == 4 {
            let batch_id: u64 = self.read_u64_at(base + 1);
            let body: Vec<u8> = self.read_bytes_at(base, 9);
            let stored: u32 = self.read_u32_at(base + 9);
            let computed: u32 = Self::crc(body.as_slice());
            if stored != computed {
                return Err(Errors::CrcMismatch { expected: computed, got: stored });
            }
            Ok((LogRecord::BatchDone { batch_id }, 13))
        } else {
            Err(Errors::InvalidRecordType { tag: t })
        }
    }

    /// `n` bytes starting at `i`, zero-padded past the end.
    fn read_bytes_at(&self, i: u128, n: u64) -> (r: Vec<u8>)
        requires
            i + n <= u128::MAX,
        ensures
            r@ == bytes_at(self.contents(), i as int, n as int),
    {
        let mut out: Vec<u8> = Vec::new();
        let mut j: u64 = 0;
        while j < n
            invariant
                0 <= j <= n,
                out@.len() == j,
                forall|m: int| 0 <= m < j ==> out@[m] == byte_at(self.contents(), i as int + m),
            decreases n - j,
        {
            out.push(self.byte_at_pos(i + j as u128));
            j = j + 1;
        }
        proof {
            assert(out@ =~= bytes_at(self.contents(), i as int, n as int));
        }
        out
    }
}

/// Append the big-endian bytes of `x`.
fn push_u32_be(out: &mut Vec<u8>, x: u32)
    ensures
        final(out)@ == old(out)@ + u32_be(x),
{
    out.push((x / 0x100_0000 % 256) as u8);
    out.push((x / 0x1_0000 % 256) as u8);
    out.push((x / 0x100 % 256) as u8);
    out.push((x % 256) as u8);
    proof {
        assert(out@ =~= old(out)@ + u32_be(x));
    }
}

/// Append the big-endian bytes of `x`.
fn push_u64_be(out: &mut Vec<u8>, x: u64)
    ensures
        final(out)@ == old(out)@ + u64_be(x),
{
    out.push((x / 0x100_0000_0000_0000 % 256) as u8);
    out.push((x / 0x1_0000_0000_0000 % 256) as u8);
    out.push((x / 0x100_0000_0000 % 256) as u8);
    out.push((x / 0x1_0000_0000 % 256) as u8);
    out.push((x / 0x100_0000 % 256) as u8);
    out.push((x / 0x1_0000 % 256) as u8);
    out.push((x / 0x100 % 256) as u8);
    out.push((x % 256) as u8);
    proof {
        assert(out@ =~= old(out)@ + u64_be(x));
    }
}

/// Append a copy of `v`.
fn push_bytes(out: &mut Vec<u8>, v: &Vec<u8>)
    ensures
        final(out)@ == old(out)@ + v@,
{
    let n: usize = v.len();
    let mut i: usize = 0;
    while i < n
        invariant
            0 <= i <= n,
            out@ == old(out)@ + v@.take(i as int),
        decreases n - i,
    {
        out.push(v[i]);
        proof {
            assert(out@ =~= old(out)@ + v@.take(i + 1));
        }
        i = i + 1;
    }
    proof {
        assert(v@.take(n as int) =~= v@);
    }
}

} // verus!
