//! Write-ahead log: on-disk framing, sequence numbering, the append
//! path and the verifying replay iterator.
//!
//! The file layout, little-endian throughout, is a sixteen-byte file
//! header (magic `"WAL\0"`, version 1, eight reserved zero bytes)
//! followed by records.  Each record is a four-byte CRC32C checksum
//! and a framed tail: sequence (8), type (1), key size (4), value
//! size (4), key, value.  The checksum covers exactly the tail.
//!
//! Everything that decides — framing, checksum protection, header
//! validation, replay with its truncation and corruption rules — is
//! verified here over byte sequences.  Only the file reads and writes
//! themselves live outside the library.

pub mod crc32c;

use vstd::prelude::*;
use vstd::assert_seqs_equal;
use vstd::string::StringExecFns;
use crate::wal::crc32c::{crc32c_spec, le32v, IncrementalCrc32c};

verus! {

/// The record type tag reserved for PUT operations.
pub const PUT_OPERATION: u8 = 1;

/// Length of the file header: magic, version, reserved.
pub const WAL_FILE_HEADER_LEN: usize = 16;

/// Length of a record's fixed part: checksum, sequence, type, key
/// size, value size.
pub const WAL_ENTRY_HEADER_LEN: usize = 21;

/// On-disk format version.
pub const WAL_VERSION: u32 = 1;

/// Configuration of a write-ahead log: the base directory it lives in.
#[derive(Debug, Clone)]
pub struct WalConfig {
    pub path: String,
}

impl WalConfig {
    pub fn new(path: String) -> (r: Self)
        ensures
            r.path == path,
    {
        Self { path }
    }
}

/// A 32-bit value as its four little-endian bytes.
pub open spec fn spec_le32(x: u32) -> Seq<u8> {
    seq![x as u8, (x >> 8) as u8, (x >> 16) as u8, (x >> 24) as u8]
}

/// A 64-bit value as its eight little-endian bytes.
pub open spec fn spec_le64(x: u64) -> Seq<u8> {
    seq![
        x as u8,
        (x >> 8) as u8,
        (x >> 16) as u8,
        (x >> 24) as u8,
        (x >> 32) as u8,
        (x >> 40) as u8,
        (x >> 48) as u8,
        (x >> 56) as u8,
    ]
}

/// The value of eight bytes read as a little-endian 64-bit integer.
pub open spec fn le64v(b0: u8, b1: u8, b2: u8, b3: u8, b4: u8, b5: u8, b6: u8, b7: u8) -> u64 {
    (b0 as u64) | ((b1 as u64) << 8) | ((b2 as u64) << 16) | ((b3 as u64) << 24) | ((b4 as u64)
        << 32) | ((b5 as u64) << 40) | ((b6 as u64) << 48) | ((b7 as u64) << 56)
}

/// The little-endian 32-bit value at offset `p` of `d`.
pub open spec fn spec_u32_at(d: Seq<u8>, p: int) -> u32 {
    le32v(d[p], d[p + 1], d[p + 2], d[p + 3])
}

/// The little-endian 64-bit value at offset `p` of `d`.
pub open spec fn spec_u64_at(d: Seq<u8>, p: int) -> u64 {
    le64v(d[p], d[p + 1], d[p + 2], d[p + 3], d[p + 4], d[p + 5], d[p + 6], d[p + 7])
}

/// Reading back the four bytes of an encoded 32-bit value gives the
/// value.
proof fn lemma_le32_roundtrip(x: u32)
    ensures
        le32v(x as u8, (x >> 8) as u8, (x >> 16) as u8, (x >> 24) as u8) == x,
{
    assert(le32v(x as u8, (x >> 8) as u8, (x >> 16) as u8, (x >> 24) as u8) == x) by (bit_vector);
}

/// Reading back the eight bytes of an encoded 64-bit value gives the
/// value.
proof fn lemma_le64_roundtrip(x: u64)
    ensures
        le64v(
            x as u8,
            (x >> 8) as u8,
            (x >> 16) as u8,
            (x >> 24) as u8,
            (x >> 32) as u8,
            (x >> 40) as u8,
            (x >> 48) as u8,
            (x >> 56) as u8,
        ) == x,
{
    assert(le64v(
        x as u8,
        (x >> 8) as u8,
        (x >> 16) as u8,
        (x >> 24) as u8,
        (x >> 32) as u8,
        (x >> 40) as u8,
        (x >> 48) as u8,
        (x >> 56) as u8,
    ) == x) by (bit_vector);
}

/// Append the four little-endian bytes of `x`.
fn push_u32_le(v: &mut Vec<u8>, x: u32)
    ensures
        final(v)@ == old(v)@ + spec_le32(x),
{
    v.push(#[verifier::truncate] (x as u8));
    v.push(#[verifier::truncate] ((x >> 8) as u8));
    v.push(#[verifier::truncate] ((x >> 16) as u8));
    v.push(#[verifier::truncate] ((x >> 24) as u8));
    proof {
        assert(v@ =~= old(v)@ + spec_le32(x));
    }
}

/// Append the eight little-endian bytes of `x`.
fn push_u64_le(v: &mut Vec<u8>, x: u64)
    ensures
        final(v)@ == old(v)@ + spec_le64(x),
{
    v.push(#[verifier::truncate] (x as u8));
    v.push(#[verifier::truncate] ((x >> 8) as u8));
    v.push(#[verifier::truncate] ((x >> 16) as u8));
    v.push(#[verifier::truncate] ((x >> 24) as u8));
    v.push(#[verifier::truncate] ((x >> 32) as u8));
    v.push(#[verifier::truncate] ((x >> 40) as u8));
    v.push(#[verifier::truncate] ((x >> 48) as u8));
    v.push(#[verifier::truncate] ((x >> 56) as u8));
    proof {
        assert(v@ =~= old(v)@ + spec_le64(x));
    }
}

/// Append a copy of `s`.
fn push_bytes(v: &mut Vec<u8>, s: &Vec<u8>)
    ensures
        final(v)@ == old(v)@ + s@,
{
    let mut i: usize = 0;
    while i < s.len()
        invariant
            i <= s@.len(),
            v@ == old(v)@ + s@.take(i as int),
        decreases s@.len() - i,
    {
        v.push(s[i]);
        proof {
            assert(s@.take(i + 1) =~= s@.take(i as int).push(s@[i as int]));
            assert(v@ =~= old(v)@ + s@.take(i + 1));
        }
        i += 1;
    }
    proof {
        assert(s@.take(s@.len() as int) =~= s@);
    }
}

/// Read the little-endian 32-bit value at offset `p`.
fn get_u32_at(d: &Vec<u8>, p: usize) -> (r: u32)
    requires
        p + 4 <= d@.len(),
    ensures
        r == spec_u32_at(d@, p as int),
{
    let l: usize = d.len();
    (d[p] as u32) | ((d[p + 1] as u32) << 8) | ((d[p + 2] as u32) << 16) | ((d[p + 3] as u32)
        << 24)
}

/// Read the little-endian 64-bit value at offset `p`.
fn get_u64_at(d: &Vec<u8>, p: usize) -> (r: u64)
    requires
        p + 8 <= d@.len(),
    ensures
        r == spec_u64_at(d@, p as int),
{
    let l: usize = d.len();
    (d[p] as u64) | ((d[p + 1] as u64) << 8) | ((d[p + 2] as u64) << 16) | ((d[p + 3] as u64)
        << 24) | ((d[p + 4] as u64) << 32) | ((d[p + 5] as u64) << 40) | ((d[p + 6] as u64) << 48)
        | ((d[p + 7] as u64) << 56)
}

/// The framed tail of a record: everything the checksum covers, from
/// the sequence through the last value byte.
pub open spec fn spec_tail(
    sequence: u64,
    entry_type: u8,
    key_size: u32,
    value_size: u32,
    key: Seq<u8>,
    value: Seq<u8>,
) -> Seq<u8> {
    spec_le64(sequence) + seq![entry_type] + spec_le32(key_size) + spec_le32(value_size) + key
        + value
}

/// A whole record as laid out on disk: the CRC32C of the tail, then
/// the tail.
pub open spec fn spec_record(sequence: u64, key: Seq<u8>, value: Seq<u8>) -> Seq<u8> {
    spec_le32(
        crc32c_spec(
            spec_tail(
                sequence,
                PUT_OPERATION,
                key.len() as u32,
                value.len() as u32,
                key,
                value,
            ),
        ),
    ) + spec_tail(sequence, PUT_OPERATION, key.len() as u32, value.len() as u32, key, value)
}

/// The sixteen-byte file header: magic `"WAL\0"`, version 1, eight
/// reserved zero bytes.
pub open spec fn spec_file_header() -> Seq<u8> {
    seq![0x57u8, 0x41u8, 0x4cu8, 0x00u8, 1u8, 0u8, 0u8, 0u8, 0u8, 0u8, 0u8, 0u8, 0u8, 0u8, 0u8, 0u8]
}

/// What opening accepts: at least a full header, the right magic, and
/// the right version.  The reserved bytes are not inspected.
pub open spec fn spec_header_ok(d: Seq<u8>) -> bool {
    &&& d.len() >= 16
    &&& d[0] == 0x57u8
    &&& d[1] == 0x41u8
    &&& d[2] == 0x4cu8
    &&& d[3] == 0x00u8
    &&& spec_u32_at(d, 4) == WAL_VERSION
}

/// The sixteen header bytes a fresh log file starts with.
pub fn wal_file_header() -> (r: Vec<u8>)
    ensures
        r@ == spec_file_header(),
        spec_header_ok(r@),
{
    let mut v: Vec<u8> = Vec::new();
    v.push(0x57);
    v.push(0x41);
    v.push(0x4c);
    v.push(0x00);
    push_u32_le(&mut v, WAL_VERSION);
    let mut i: usize = 0;
    while i < 8
        invariant
            i <= 8,
            v@ == seq![0x57u8, 0x41u8, 0x4cu8, 0x00u8] + spec_le32(WAL_VERSION) + Seq::new(
                i as nat,
                |j: int| 0u8,
            ),
        decreases 8 - i,
    {
        v.push(0);
        proof {
            assert(v@ =~= seq![0x57u8, 0x41u8, 0x4cu8, 0x00u8] + spec_le32(WAL_VERSION) + Seq::new(
                (i + 1) as nat,
                |j: int| 0u8,
            ));
        }
        i += 1;
    }
    proof {
        assert((1u32 >> 8) as u8 == 0u8 && (1u32 >> 16) as u8 == 0u8 && (1u32 >> 24) as u8 == 0u8
            && 1u32 as u8 == 1u8) by (bit_vector);
        assert(v@ =~= spec_file_header());
        lemma_le32_roundtrip(WAL_VERSION);
        assert(spec_file_header()[4] == 1u32 as u8);
        assert(spec_u32_at(v@, 4) == le32v(1u32 as u8, (1u32 >> 8) as u8, (1u32 >> 16) as u8, (
        1u32 >> 24) as u8));
    }
    v
}

/// Copy `d[a..b]` into a fresh vector.
fn copy_range(d: &Vec<u8>, a: usize, b: usize) -> (r: Vec<u8>)
    requires
        a <= b,
        b <= d@.len(),
    ensures
        r@ == d@.subrange(a as int, b as int),
{
    let mut r: Vec<u8> = Vec::new();
    proof {
        assert(r@ =~= d@.subrange(a as int, a as int));
    }
    let mut i: usize = a;
    while i < b
        invariant
            a <= i <= b,
            b <= d@.len(),
            r@ == d@.subrange(a as int, i as int),
        decreases b - i,
    {
        r.push(d[i]);
        proof {
            assert(d@.subrange(a as int, i + 1) =~= d@.subrange(a as int, i as int).push(
                d@[i as int],
            ));
        }
        i += 1;
    }
    r
}

/// What went wrong opening a log.
#[derive(Debug)]
pub enum WalOpenErrorKind {
    ConfigPathIsNotReadable,
    CannotCreateWalDirectory(String),
}

/// An error from opening a log, carrying the offending path.
#[derive(Debug)]
pub struct WalOpenError {
    pub path: String,
    pub kind: WalOpenErrorKind,
}

impl WalOpenError {
    /// A rendering of the error that names the offending path.
    pub fn message(&self) -> (r: String)
        ensures
            r@ == "error reading `"@ + self.path@ + "`"@,
    {
        let mut s = String::from_str("error reading `");
        s.append(self.path.as_str());
        s.append("`");
        s
    }
}

/// What went wrong in the write-ahead log.
#[derive(Debug)]
pub enum WalErrorKind {
    ConfigPathIsNotReadable,
    CannotCreateWalDirectory(String),
    WalFileCorrupted(String),
    WalFileError(String),
    WalFileDoesntExist,
}

/// An error from the write-ahead log, carrying the offending path.
#[derive(Debug)]
pub struct WalError {
    pub path: String,
    pub kind: WalErrorKind,
}

impl WalError {
    /// A rendering of the error that names the offending path.
    pub fn message(&self) -> (r: String)
        ensures
            r@ == "error reading `"@ + self.path@ + "`"@,
    {
        let mut s = String::from_str("error reading `");
        s.append(self.path.as_str());
        s.append("`");
        s
    }
}

/// The mathematical content of one record, as replay reports it.
#[verifier::ext_equal]
pub ghost struct GWalEntry {
    pub crc32c: u32,
    pub sequence: u64,
    pub entry_type: u8,
    pub key_size: u32,
    pub value_size: u32,
    pub key: Seq<u8>,
    pub value: Seq<u8>,
}

/// One record read back from the log.
#[derive(Debug)]
pub struct WalEntry {
    pub crc32c: u32,
    pub sequence: u64,
    pub entry_type: u8,
    pub key_size: u32,
    pub value_size: u32,
    pub key: Vec<u8>,
    pub value: Vec<u8>,
    /// The cached framed tail — the bytes the checksum covers.
    pub crc_data: Vec<u8>,
}

impl View for WalEntry {
    type V = GWalEntry;

    open spec fn view(&self) -> GWalEntry {
        GWalEntry {
            crc32c: self.crc32c,
            sequence: self.sequence,
            entry_type: self.entry_type,
            key_size: self.key_size,
            value_size: self.value_size,
            key: self.key@,
            value: self.value@,
        }
    }
}

impl WalEntry {
    /// The cached framing bytes agree with the fields.
    pub open spec fn wf(&self) -> bool {
        self.crc_data@ == spec_tail(
            self.sequence,
            self.entry_type,
            self.key_size,
            self.value_size,
            self.key@,
            self.value@,
        )
    }

    /// Assemble an entry, caching the framed tail its checksum covers.
    pub fn new(
        crc32c: u32,
        sequence: u64,
        entry_type: u8,
        key_size: u32,
        value_size: u32,
        key: Vec<u8>,
        value: Vec<u8>,
    ) -> (r: Self)
        ensures
            r.crc32c == crc32c,
            r.sequence == sequence,
            r.entry_type == entry_type,
            r.key_size == key_size,
            r.value_size == value_size,
            r.key == key,
            r.value == value,
            r.wf(),
    {
        let mut crc_data: Vec<u8> = Vec::new();
        push_u64_le(&mut crc_data, sequence);
        crc_data.push(entry_type);
        push_u32_le(&mut crc_data, key_size);
        push_u32_le(&mut crc_data, value_size);
        push_bytes(&mut crc_data, &key);
        push_bytes(&mut crc_data, &value);
        proof {
            assert(crc_data@ =~= spec_tail(sequence, entry_type, key_size, value_size, key@, value@));
        }
        Self { crc32c, sequence, entry_type, key_size, value_size, key, value, crc_data }
    }

    /// The bytes the record's checksum is computed over.
    pub fn data_for_crc(&self) -> (r: &[u8])
        requires
            self.wf(),
        ensures
            r@ == spec_tail(
                self.sequence,
                self.entry_type,
                self.key_size,
                self.value_size,
                self.key@,
                self.value@,
            ),
    {
        self.crc_data.as_slice()
    }
}

/// The writer's state machine: the last-assigned sequence number.
/// Sequence numbers start at zero and each appended record takes the
/// next one, so within a writer's lifetime records carry strictly
/// increasing sequences.
pub struct WalWriter {
    pub sequence: u64,
}

impl WalWriter {
    /// A fresh writer; the first record it frames gets sequence 1.
    pub fn new() -> (r: Self)
        ensures
            r.sequence == 0,
    {
        Self { sequence: 0 }
    }

    /// The last-assigned sequence number.
    pub fn sequence(&self) -> (r: u64)
        ensures
            r == self.sequence,
    {
        self.sequence
    }

    /// Frame one PUT record: assign the next sequence number and lay
    /// out checksum, sequence, type, sizes, key and value exactly as
    /// they go to disk.  Returns the assigned sequence and the record
    /// bytes.
    pub fn write_entry(&mut self, key: &Vec<u8>, value: &Vec<u8>) -> (r: (u64, Vec<u8>))
        requires
            old(self).sequence < u64::MAX,
            key@.len() <= u32::MAX,
            value@.len() <= u32::MAX,
        ensures
            final(self).sequence == old(self).sequence + 1,
            r.0 == old(self).sequence + 1,
            r.1@ == spec_record((old(self).sequence + 1) as u64, key@, value@),
    {
        self.sequence = self.sequence + 1;
        let seqno = self.sequence;
        let key_size: u32 = key.len() as u32;
        let value_size: u32 = value.len() as u32;
        let mut tail: Vec<u8> = Vec::new();
        push_u64_le(&mut tail, seqno);
        tail.push(PUT_OPERATION);
        push_u32_le(&mut tail, key_size);
        push_u32_le(&mut tail, value_size);
        push_bytes(&mut tail, key);
        push_bytes(&mut tail, value);
        proof {
            assert(tail@ =~= spec_tail(seqno, PUT_OPERATION, key_size, value_size, key@, value@));
        }
        let mut hasher = IncrementalCrc32c::new();
        hasher.update(tail.as_slice());
        proof {
            assert(Seq::<u8>::empty() + tail@ =~= tail@);
        }
        let checksum = hasher.finalize();
        let mut record: Vec<u8> = Vec::new();
        push_u32_le(&mut record, checksum);
        push_bytes(&mut record, &tail);
        proof {
            assert(record@ =~= spec_record(seqno, key@, value@));
        }
        (seqno, record)
    }
}

/// One step of replay at position `p` of file contents `d`: either the
/// clean end of the stream (fewer than 21 bytes remain), a detected
/// corruption (the announced key and value do not fit in what remains,
/// or the stored checksum disagrees with the tail), or a record and
/// the position after it.
pub ghost enum GStep {
    End,
    Corrupt,
    Entry { entry: GWalEntry, next: int },
}

/// The replay step function.  This is the definition the iterator's
/// `next` is proved against.
pub open spec fn spec_step(d: Seq<u8>, p: int) -> GStep {
    let avail = d.len() - p;
    if avail < 21 {
        GStep::End
    } else {
        let ksz = spec_u32_at(d, p + 13);
        let vsz = spec_u32_at(d, p + 17);
        let need = ksz + vsz;
        if avail - 21 < need {
            GStep::Corrupt
        } else {
            let crc = spec_u32_at(d, p);
            if crc32c_spec(d.subrange(p + 4, p + 21 + need)) != crc {
                GStep::Corrupt
            } else {
                GStep::Entry {
                    entry: GWalEntry {
                        crc32c: crc,
                        sequence: spec_u64_at(d, p + 4),
                        entry_type: d[p + 12],
                        key_size: ksz,
                        value_size: vsz,
                        key: d.subrange(p + 21, p + 21 + ksz),
                        value: d.subrange(p + 21 + ksz, p + 21 + need),
                    },
                    next: p + 21 + need,
                }
            }
        }
    }
}

/// Full replay from position `p`: the records surfaced in file order,
/// and whether replay ended by detecting corruption (`true`) or by
/// reaching a clean end of stream (`false`).
pub open spec fn spec_replay(d: Seq<u8>, p: int) -> (Seq<GWalEntry>, bool)
    decreases d.len() - p,
{
    match spec_step(d, p) {
        GStep::End => (Seq::<GWalEntry>::empty(), false),
        GStep::Corrupt => (Seq::<GWalEntry>::empty(), true),
        GStep::Entry { entry, next } => {
            if p < next <= d.len() {
                let rest = spec_replay(d, next);
                (seq![entry] + rest.0, rest.1)
            } else {
                (Seq::<GWalEntry>::empty(), false)
            }
        },
    }
}

/// The twenty-one fixed bytes of `spec_record(sequence, k, v)`, laid
/// down at offset `p` (at least that many of the record's bytes are
/// present), decode to the record's checksum, sequence, type and
/// sizes.
proof fn lemma_record_fixed_at(d: Seq<u8>, p: int, sequence: u64, k: Seq<u8>, v: Seq<u8>, m: int)
    requires
        k.len() <= u32::MAX,
        v.len() <= u32::MAX,
        0 <= p,
        21 <= m <= 21 + k.len() + v.len(),
        p + m <= d.len(),
        d.subrange(p, p + m) == spec_record(sequence, k, v).take(m),
    ensures
        spec_u32_at(d, p) == crc32c_spec(
            spec_tail(sequence, PUT_OPERATION, k.len() as u32, v.len() as u32, k, v),
        ),
        spec_u64_at(d, p + 4) == sequence,
        d[p + 12] == PUT_OPERATION,
        spec_u32_at(d, p + 13) == k.len() as u32,
        spec_u32_at(d, p + 17) == v.len() as u32,
{
    let ku = k.len() as u32;
    let vu = v.len() as u32;
    let tail = spec_tail(sequence, PUT_OPERATION, ku, vu, k, v);
    let cks = crc32c_spec(tail);
    let rec = spec_record(sequence, k, v);
    let s = d.subrange(p, p + m);
    assert(tail.len() == 17 + k.len() + v.len());
    assert(rec.len() == 21 + k.len() + v.len());
    let th = seq![
        sequence as u8,
        (sequence >> 8) as u8,
        (sequence >> 16) as u8,
        (sequence >> 24) as u8,
        (sequence >> 32) as u8,
        (sequence >> 40) as u8,
        (sequence >> 48) as u8,
        (sequence >> 56) as u8,
        PUT_OPERATION,
        ku as u8,
        (ku >> 8) as u8,
        (ku >> 16) as u8,
        (ku >> 24) as u8,
        vu as u8,
        (vu >> 8) as u8,
        (vu >> 16) as u8,
        (vu >> 24) as u8,
    ];
    assert(tail =~= th + k + v);
    assert(rec == spec_le32(cks) + tail);
    assert(d[p] == spec_le32(cks)[0]) by {
        assert(s[0] == d[p]);
        assert(rec.take(m)[0] == rec[0]);
        assert(rec[0] == (spec_le32(cks) + tail)[0]);
        assert((spec_le32(cks) + tail)[0] == spec_le32(cks)[0]);
    };
    assert(d[p + 1] == spec_le32(cks)[1]) by {
        assert(s[1] == d[p + 1]);
        assert(rec.take(m)[1] == rec[1]);
        assert(rec[1] == (spec_le32(cks) + tail)[1]);
        assert((spec_le32(cks) + tail)[1] == spec_le32(cks)[1]);
    };
    assert(d[p + 2] == spec_le32(cks)[2]) by {
        assert(s[2] == d[p + 2]);
        assert(rec.take(m)[2] == rec[2]);
        assert(rec[2] == (spec_le32(cks) + tail)[2]);
        assert((spec_le32(cks) + tail)[2] == spec_le32(cks)[2]);
    };
    assert(d[p + 3] == spec_le32(cks)[3]) by {
        assert(s[3] == d[p + 3]);
        assert(rec.take(m)[3] == rec[3]);
        assert(rec[3] == (spec_le32(cks) + tail)[3]);
        assert((spec_le32(cks) + tail)[3] == spec_le32(cks)[3]);
    };
    assert(d[p + 4] == th[0]) by {
        assert(s[4] == d[p + 4]);
        assert(rec.take(m)[4] == rec[4]);
        assert(rec[4] == (spec_le32(cks) + tail)[4]);
        assert((spec_le32(cks) + tail)[4] == tail[0]);
        assert(((th + k) + v)[0] == (th + k)[0]);
        assert((th + k)[0] == th[0]);
    };
    assert(d[p + 5] == th[1]) by {
        assert(s[5] == d[p + 5]);
        assert(rec.take(m)[5] == rec[5]);
        assert(rec[5] == (spec_le32(cks) + tail)[5]);
        assert((spec_le32(cks) + tail)[5] == tail[1]);
        assert(((th + k) + v)[1] == (th + k)[1]);
        assert((th + k)[1] == th[1]);
    };
    assert(d[p + 6] == th[2]) by {
        assert(s[6] == d[p + 6]);
        assert(rec.take(m)[6] == rec[6]);
        assert(rec[6] == (spec_le32(cks) + tail)[6]);
        assert((spec_le32(cks) + tail)[6] == tail[2]);
        assert(((th + k) + v)[2] == (th + k)[2]);
        assert((th + k)[2] == th[2]);
    };
    assert(d[p + 7] == th[3]) by {
        assert(s[7] == d[p + 7]);
        assert(rec.take(m)[7] == rec[7]);
        assert(rec[7] == (spec_le32(cks) + tail)[7]);
        assert((spec_le32(cks) + tail)[7] == tail[3]);
        assert(((th + k) + v)[3] == (th + k)[3]);
        assert((th + k)[3] == th[3]);
    };
    assert(d[p + 8] == th[4]) by {
        assert(s[8] == d[p + 8]);
        assert(rec.take(m)[8] == rec[8]);
        assert(rec[8] == (spec_le32(cks) + tail)[8]);
        assert((spec_le32(cks) + tail)[8] == tail[4]);
        assert(((th + k) + v)[4] == (th + k)[4]);
        assert((th + k)[4] == th[4]);
    };
    assert(d[p + 9] == th[5]) by {
        assert(s[9] == d[p + 9]);
        assert(rec.take(m)[9] == rec[9]);
        assert(rec[9] == (spec_le32(cks) + tail)[9]);
        assert((spec_le32(cks) + tail)[9] == tail[5]);
        assert(((th + k) + v)[5] == (th + k)[5]);
        assert((th + k)[5] == th[5]);
    };
    assert(d[p + 10] == th[6]) by {
        assert(s[10] == d[p + 10]);
        assert(rec.take(m)[10] == rec[10]);
        assert(rec[10] == (spec_le32(cks) + tail)[10]);
        assert((spec_le32(cks) + tail)[10] == tail[6]);
        assert(((th + k) + v)[6] == (th + k)[6]);
        assert((th + k)[6] == th[6]);
    };
    assert(d[p + 11] == th[7]) by {
        assert(s[11] == d[p + 11]);
        assert(rec.take(m)[11] == rec[11]);
        assert(rec[11] == (spec_le32(cks) + tail)[11]);
        assert((spec_le32(cks) + tail)[11] == tail[7]);
        assert(((th + k) + v)[7] == (th + k)[7]);
        assert((th + k)[7] == th[7]);
    };
    assert(d[p + 12] == th[8]) by {
        assert(s[12] == d[p + 12]);
        assert(rec.take(m)[12] == rec[12]);
        assert(rec[12] == (spec_le32(cks) + tail)[12]);
        assert((spec_le32(cks) + tail)[12] == tail[8]);
        assert(((th + k) + v)[8] == (th + k)[8]);
        assert((th + k)[8] == th[8]);
    };
    assert(d[p + 13] == th[9]) by {
        assert(s[13] == d[p + 13]);
        assert(rec.take(m)[13] == rec[13]);
        assert(rec[13] == (spec_le32(cks) + tail)[13]);
        assert((spec_le32(cks) + tail)[13] == tail[9]);
        assert(((th + k) + v)[9] == (th + k)[9]);
        assert((th + k)[9] == th[9]);
    };
    assert(d[p + 14] == th[10]) by {
        assert(s[14] == d[p + 14]);
        assert(rec.take(m)[14] == rec[14]);
        assert(rec[14] == (spec_le32(cks) + tail)[14]);
        assert((spec_le32(cks) + tail)[14] == tail[10]);
        assert(((th + k) + v)[10] == (th + k)[10]);
        assert((th + k)[10] == th[10]);
    };
    assert(d[p + 15] == th[11]) by {
        assert(s[15] == d[p + 15]);
        assert(rec.take(m)[15] == rec[15]);
        assert(rec[15] == (spec_le32(cks) + tail)[15]);
        assert((spec_le32(cks) + tail)[15] == tail[11]);
        assert(((th + k) + v)[11] == (th + k)[11]);
        assert((th + k)[11] == th[11]);
    };
    assert(d[p + 16] == th[12]) by {
        assert(s[16] == d[p + 16]);
        assert(rec.take(m)[16] == rec[16]);
        assert(rec[16] == (spec_le32(cks) + tail)[16]);
        assert((spec_le32(cks) + tail)[16] == tail[12]);
        assert(((th + k) + v)[12] == (th + k)[12]);
        assert((th + k)[12] == th[12]);
    };
    assert(d[p + 17] == th[13]) by {
        assert(s[17] == d[p + 17]);
        assert(rec.take(m)[17] == rec[17]);
        assert(rec[17] == (spec_le32(cks) + tail)[17]);
        assert((spec_le32(cks) + tail)[17] == tail[13]);
        assert(((th + k) + v)[13] == (th + k)[13]);
        assert((th + k)[13] == th[13]);
    };
    assert(d[p + 18] == th[14]) by {
        assert(s[18] == d[p + 18]);
        assert(rec.take(m)[18] == rec[18]);
        assert(rec[18] == (spec_le32(cks) + tail)[18]);
        assert((spec_le32(cks) + tail)[18] == tail[14]);
        assert(((th + k) + v)[14] == (th + k)[14]);
        assert((th + k)[14] == th[14]);
    };
    assert(d[p + 19] == th[15]) by {
        assert(s[19] == d[p + 19]);
        assert(rec.take(m)[19] == rec[19]);
        assert(rec[19] == (spec_le32(cks) + tail)[19]);
        assert((spec_le32(cks) + tail)[19] == tail[15]);
        assert(((th + k) + v)[15] == (th + k)[15]);
        assert((th + k)[15] == th[15]);
    };
    assert(d[p + 20] == th[16]) by {
        assert(s[20] == d[p + 20]);
        assert(rec.take(m)[20] == rec[20]);
        assert(rec[20] == (spec_le32(cks) + tail)[20]);
        assert((spec_le32(cks) + tail)[20] == tail[16]);
        assert(((th + k) + v)[16] == (th + k)[16]);
        assert((th + k)[16] == th[16]);
    };
    // Decode the checksum.
    lemma_le32_roundtrip(cks);
    assert(spec_u32_at(d, p) == cks);
    // Decode the sequence.
    lemma_le64_roundtrip(sequence);
    assert(spec_u64_at(d, p + 4) == sequence);
    // Decode the sizes.
    lemma_le32_roundtrip(ku);
    lemma_le32_roundtrip(vu);
    assert(spec_u32_at(d, p + 13) == ku);
    assert(spec_u32_at(d, p + 17) == vu);
}

/// A record of `spec_record(sequence, k, v)` sitting at offset `p`
/// parses to exactly that record's fields, and the cursor moves past
/// it.
proof fn lemma_step_of_record(d: Seq<u8>, p: int, sequence: u64, k: Seq<u8>, v: Seq<u8>)
    requires
        k.len() <= u32::MAX,
        v.len() <= u32::MAX,
        0 <= p,
        p + 21 + k.len() + v.len() <= d.len(),
        d.subrange(p, p + 21 + k.len() + v.len()) == spec_record(sequence, k, v),
    ensures
        spec_step(d, p) == (GStep::Entry {
            entry: GWalEntry {
                crc32c: crc32c_spec(
                    spec_tail(
                        sequence,
                        PUT_OPERATION,
                        k.len() as u32,
                        v.len() as u32,
                        k,
                        v,
                    ),
                ),
                sequence: sequence,
                entry_type: PUT_OPERATION,
                key_size: k.len() as u32,
                value_size: v.len() as u32,
                key: k,
                value: v,
            },
            next: p + 21 + k.len() + v.len(),
        }),
{
    let ku = k.len() as u32;
    let vu = v.len() as u32;
    let tail = spec_tail(sequence, PUT_OPERATION, ku, vu, k, v);
    let cks = crc32c_spec(tail);
    let rec = spec_record(sequence, k, v);
    let rl = 21 + k.len() + v.len();
    let s = d.subrange(p, p + rl);
    assert(tail.len() == 17 + k.len() + v.len());
    assert(rec.len() == rl);
    assert(rec.take(rl as int) =~= rec);
    lemma_record_fixed_at(d, p, sequence, k, v, rl as int);
    let th = seq![
        sequence as u8,
        (sequence >> 8) as u8,
        (sequence >> 16) as u8,
        (sequence >> 24) as u8,
        (sequence >> 32) as u8,
        (sequence >> 40) as u8,
        (sequence >> 48) as u8,
        (sequence >> 56) as u8,
        PUT_OPERATION,
        ku as u8,
        (ku >> 8) as u8,
        (ku >> 16) as u8,
        (ku >> 24) as u8,
        vu as u8,
        (vu >> 8) as u8,
        (vu >> 16) as u8,
        (vu >> 24) as u8,
    ];
    assert(tail =~= th + k + v);
    assert(rec == spec_le32(cks) + tail);
    let need = ku + vu;
    assert(need == k.len() + v.len());
    // The parsed tail is the encoded tail.
    assert_seqs_equal!(d.subrange(p + 4, p + 21 + need) == tail, i => {
        assert(d.subrange(p + 4, p + 21 + need)[i] == d[p + 4 + i]);
        assert(s[4 + i] == d[p + (4 + i)]);
        assert((spec_le32(cks) + tail)[4 + i] == tail[i]);
    });
    // The key and value regions.
    assert_seqs_equal!(d.subrange(p + 21, p + 21 + ku) == k, i => {
        assert(d.subrange(p + 21, p + 21 + ku)[i] == d[p + 21 + i]);
        assert(s[21 + i] == d[p + (21 + i)]);
        assert((spec_le32(cks) + tail)[21 + i] == tail[17 + i]);
        assert(((th + k) + v)[17 + i] == (th + k)[17 + i]);
        assert((th + k)[17 + i] == k[i]);
    });
    assert_seqs_equal!(d.subrange(p + 21 + ku, p + 21 + need) == v, i => {
        assert(d.subrange(p + 21 + ku, p + 21 + need)[i] == d[p + 21 + ku + i]);
        assert(s[21 + ku + i] == d[p + (21 + ku + i)]);
        assert((spec_le32(cks) + tail)[21 + ku + i] == tail[17 + ku + i]);
        assert(((th + k) + v)[17 + ku + i] == v[i]);
    });
}


/// The bytes of a run of records framing the writes `ws`, the first
/// one carrying sequence `first`.
pub open spec fn spec_records_from(ws: Seq<(Seq<u8>, Seq<u8>)>, first: u64) -> Seq<u8>
    decreases ws.len(),
{
    if ws.len() == 0 {
        Seq::<u8>::empty()
    } else {
        spec_record(first, ws[0].0, ws[0].1) + spec_records_from(
            ws.skip(1),
            ((first as int + 1) as u64),
        )
    }
}

/// The record that framing `(k, v)` under sequence number `sequence`
/// replays as.
pub open spec fn spec_entry_of(sequence: u64, k: Seq<u8>, v: Seq<u8>) -> GWalEntry {
    GWalEntry {
        crc32c: crc32c_spec(
            spec_tail(sequence, PUT_OPERATION, k.len() as u32, v.len() as u32, k, v),
        ),
        sequence: sequence,
        entry_type: PUT_OPERATION,
        key_size: k.len() as u32,
        value_size: v.len() as u32,
        key: k,
        value: v,
    }
}

/// The entries that replaying the records of `ws` surfaces, in order.
pub open spec fn spec_entries_from(ws: Seq<(Seq<u8>, Seq<u8>)>, first: u64) -> Seq<GWalEntry>
    decreases ws.len(),
{
    if ws.len() == 0 {
        Seq::<GWalEntry>::empty()
    } else {
        seq![spec_entry_of(first, ws[0].0, ws[0].1)] + spec_entries_from(
            ws.skip(1),
            ((first as int + 1) as u64),
        )
    }
}

/// Replay of a run of intact records followed by the first `j` bytes
/// of one more record: every intact record is surfaced in order; then
/// replay ends cleanly if fewer than 21 bytes of the cut record remain
/// and reports corruption if its fixed part is present but its payload
/// is cut short.
proof fn lemma_replay_records_then_partial(
    d: Seq<u8>,
    p: int,
    ws: Seq<(Seq<u8>, Seq<u8>)>,
    first: u64,
    ck: Seq<u8>,
    cv: Seq<u8>,
    cseq: u64,
    j: int,
)
    requires
        forall|i: int|
            0 <= i < ws.len() ==> (#[trigger] ws[i]).0.len() <= u32::MAX && ws[i].1.len()
                <= u32::MAX,
        ck.len() <= u32::MAX,
        cv.len() <= u32::MAX,
        first as int + ws.len() <= u64::MAX,
        0 <= j < 21 + ck.len() + cv.len(),
        0 <= p <= d.len(),
        d.subrange(p, d.len() as int) == spec_records_from(ws, first) + spec_record(
            cseq,
            ck,
            cv,
        ).take(j),
    ensures
        spec_replay(d, p) == (spec_entries_from(ws, first), j >= 21),
    decreases ws.len(),
{
    let s = d.subrange(p, d.len() as int);
    let part = spec_record(cseq, ck, cv).take(j);
    if ws.len() == 0 {
        assert(spec_records_from(ws, first) =~= Seq::<u8>::empty());
        assert(s =~= part);
        assert(d.len() - p == j);
        if j < 21 {
            assert(spec_step(d, p) == GStep::End);
        } else {
            assert(d.subrange(p, p + j) =~= spec_record(cseq, ck, cv).take(j));
            lemma_record_fixed_at(d, p, cseq, ck, cv, j);
            let need = (ck.len() as u32) + (cv.len() as u32);
            assert(d.len() - p - 21 < need);
            assert(spec_step(d, p) == GStep::Corrupt);
        }
        assert(spec_entries_from(ws, first) =~= Seq::<GWalEntry>::empty());
    } else {
        let k = ws[0].0;
        let v = ws[0].1;
        let rec = spec_record(first, k, v);
        let rl = 21 + k.len() + v.len();
        let rest = spec_records_from(ws.skip(1), ((first as int + 1) as u64));
        assert(spec_records_from(ws, first) == rec + rest);
        assert(rec.len() == rl);
        assert(s == (rec + rest) + part);
        assert(s.len() == d.len() - p);
        assert(s.len() == rl + rest.len() + part.len());
        assert(p + rl <= d.len());
        assert_seqs_equal!(d.subrange(p, p + rl as int) == rec, i => {
            assert(d.subrange(p, p + rl as int)[i] == d[p + i]);
            assert(s[i] == d[p + i]);
            assert(((rec + rest) + part)[i] == (rec + rest)[i]);
            assert((rec + rest)[i] == rec[i]);
        });
        lemma_step_of_record(d, p, first, k, v);
        let next = p + rl;
        assert_seqs_equal!(d.subrange(next as int, d.len() as int) ==
            spec_records_from(ws.skip(1), ((first as int + 1) as u64)) + part, i => {
            assert(d.subrange(next as int, d.len() as int)[i] == d[next + i]);
            assert(s[rl + i] == d[p + (rl + i)]);
            assert(((rec + rest) + part)[rl + i] == (rest + part)[i]);
        });
        lemma_replay_records_then_partial(
            d,
            next,
            ws.skip(1),
            ((first as int + 1) as u64),
            ck,
            cv,
            cseq,
            j,
        );
        assert(spec_replay(d, p).0 =~= spec_entries_from(ws, first));
    }
}

/// Replaying a log that holds exactly the writes `ws` — the file
/// header followed by one intact record per write, sequences counting
/// up from 1 — surfaces one entry per write, in order, each carrying
/// its assigned sequence, the PUT tag, the written key and value, and
/// the checksum of its framed tail; and replay ends cleanly.
pub proof fn lemma_replay_round_trip(ws: Seq<(Seq<u8>, Seq<u8>)>)
    requires
        forall|i: int|
            0 <= i < ws.len() ==> (#[trigger] ws[i]).0.len() <= u32::MAX && ws[i].1.len()
                <= u32::MAX,
        ws.len() < u64::MAX,
    ensures
        spec_header_ok(spec_file_header() + spec_records_from(ws, 1)),
        spec_replay(spec_file_header() + spec_records_from(ws, 1), 16) == (
            spec_entries_from(ws, 1),
            false,
        ),
{
    lemma_replay_truncation(ws, Seq::<u8>::empty(), Seq::<u8>::empty(), 0);
    let log = spec_file_header() + spec_records_from(ws, 1);
    let cut = log + spec_record((ws.len() + 1) as u64, Seq::<u8>::empty(), Seq::<u8>::empty()).take(
        0,
    );
    assert(cut =~= log);
}

/// Replaying a log truncated `j` bytes into a record: the intact
/// records before the cut are surfaced in order; then, if the cut
/// falls before the record's 21 fixed bytes are complete, replay ends
/// cleanly, exactly as it does at a record boundary; once the fixed
/// part is present but the announced key and value are cut short,
/// replay reports `WalFileCorrupted`.
pub proof fn lemma_replay_truncation(ws: Seq<(Seq<u8>, Seq<u8>)>, ck: Seq<u8>, cv: Seq<u8>, j: int)
    requires
        forall|i: int|
            0 <= i < ws.len() ==> (#[trigger] ws[i]).0.len() <= u32::MAX && ws[i].1.len()
                <= u32::MAX,
        ck.len() <= u32::MAX,
        cv.len() <= u32::MAX,
        ws.len() < u64::MAX,
        0 <= j < 21 + ck.len() + cv.len() || j == 0,
    ensures
        spec_header_ok(
            spec_file_header() + spec_records_from(ws, 1) + spec_record(
                (ws.len() + 1) as u64,
                ck,
                cv,
            ).take(j),
        ),
        spec_replay(
            spec_file_header() + spec_records_from(ws, 1) + spec_record(
                (ws.len() + 1) as u64,
                ck,
                cv,
            ).take(j),
            16,
        ) == (spec_entries_from(ws, 1), j >= 21),
{
    let hd = spec_file_header();
    let recs = spec_records_from(ws, 1);
    let part = spec_record((ws.len() + 1) as u64, ck, cv).take(j);
    let log = hd + recs + part;
    // The header is intact.
    assert(hd.len() == 16);
    assert forall|i: int| 0 <= i < 16 implies #[trigger] log[i] == hd[i] by {
        assert((hd + recs)[i] == hd[i]);
        assert(((hd + recs) + part)[i] == (hd + recs)[i]);
    };
    assert(log[0] == 0x57u8 && log[1] == 0x41u8 && log[2] == 0x4cu8 && log[3] == 0x00u8);
    assert(log[4] == 1u8 && log[5] == 0u8 && log[6] == 0u8 && log[7] == 0u8);
    assert(le32v(1u8, 0u8, 0u8, 0u8) == 1u32) by (bit_vector);
    assert(spec_u32_at(log, 4) == WAL_VERSION);
    // Everything after the header is the records and the cut.
    assert_seqs_equal!(log.subrange(16, log.len() as int) == recs + part, i => {
        assert(log.subrange(16, log.len() as int)[i] == log[16 + i]);
        assert(((hd + recs) + part)[16 + i] == (hd + (recs + part))[16 + i]);
        assert((hd + (recs + part))[16 + i] == (recs + part)[i]);
    });
    lemma_replay_records_then_partial(log, 16, ws, 1, ck, cv, (ws.len() + 1) as u64, j);
}

/// Replay of a log that is empty but validly headered: no records, no
/// error.
pub proof fn lemma_replay_empty_log()
    ensures
        spec_header_ok(spec_file_header()),
        spec_replay(spec_file_header(), 16) == (Seq::<GWalEntry>::empty(), false),
{
    lemma_replay_round_trip(Seq::<(Seq<u8>, Seq<u8>)>::empty());
    assert(spec_records_from(Seq::<(Seq<u8>, Seq<u8>)>::empty(), 1) =~= Seq::<u8>::empty());
    assert(spec_file_header() + spec_records_from(Seq::<(Seq<u8>, Seq<u8>)>::empty(), 1)
        =~= spec_file_header());
    assert(spec_entries_from(Seq::<(Seq<u8>, Seq<u8>)>::empty(), 1) =~= Seq::<GWalEntry>::empty());
}

/// A single flipped byte in a record on disk is always caught: if the
/// bytes at offset `p` differ from `spec_record(sequence, k, v)` in
/// exactly one position — inside the stored checksum, or anywhere in
/// the framed tail outside the two size fields — replay at `p` reports
/// corruption.  (A flip inside a size field changes how many bytes the
/// record claims, so what is checksummed is no longer the same span
/// and no fixed-length argument applies.)
pub proof fn lemma_replay_detects_flip(
    d: Seq<u8>,
    p: int,
    sequence: u64,
    k: Seq<u8>,
    v: Seq<u8>,
    i: int,
)
    requires
        k.len() <= u32::MAX,
        v.len() <= u32::MAX,
        0 <= p,
        p + 21 + k.len() + v.len() <= d.len(),
        0 <= i < 21 + k.len() + v.len(),
        !(13 <= i < 21),
        d.subrange(p, p + 21 + k.len() + v.len())[i] != spec_record(sequence, k, v)[i],
        forall|j: int|
            0 <= j < 21 + k.len() + v.len() && j != i ==> d.subrange(
                p,
                p + 21 + k.len() + v.len(),
            )[j] == spec_record(sequence, k, v)[j],
    ensures
        spec_step(d, p) == GStep::Corrupt,
{
    let ku = k.len() as u32;
    let vu = v.len() as u32;
    let tail = spec_tail(sequence, PUT_OPERATION, ku, vu, k, v);
    let cks = crc32c_spec(tail);
    let rec = spec_record(sequence, k, v);
    let rl = 21 + k.len() + v.len();
    let got = d.subrange(p, p + rl);
    let d2 = d.update(p + i, rec[i]);
    assert(d2.len() == d.len());
    // `d2` carries the intact record.
    assert forall|j: int| 0 <= j < rl implies #[trigger] d2.subrange(p, p + rl)[j] == rec[j] by {
        assert(d2.subrange(p, p + rl)[j] == d2[p + j]);
        if j == i {
            assert(d2[p + i] == rec[i]);
        } else {
            assert(d2[p + j] == d[p + j]);
            assert(got[j] == d[p + j]);
        }
    };
    assert(d2.subrange(p, p + rl) =~= rec);
    lemma_step_of_record(d2, p, sequence, k, v);
    assert(rec.take(21) =~= rec.subrange(0, 21));
    assert_seqs_equal!(d2.subrange(p, p + 21) == rec.take(21), j => {
        assert(d2.subrange(p, p + 21)[j] == d2[p + j]);
        assert(d2.subrange(p, p + rl)[j] == d2[p + j]);
    });
    lemma_record_fixed_at(d2, p, sequence, k, v, 21);
    // Bytes away from the flip agree between `d` and `d2`.
    assert forall|x: int| 0 <= x < d.len() && x != p + i implies #[trigger] d2[x] == d[x] by {};
    // The size fields are outside the flip, so both files announce the
    // same key and value lengths.
    assert(d[p + 13] == d2[p + 13] && d[p + 14] == d2[p + 14] && d[p + 15] == d2[p + 15] && d[p
        + 16] == d2[p + 16] && d[p + 17] == d2[p + 17] && d[p + 18] == d2[p + 18] && d[p + 19]
        == d2[p + 19] && d[p + 20] == d2[p + 20]);
    assert(spec_u32_at(d, p + 13) == ku);
    assert(spec_u32_at(d, p + 17) == vu);
    let need = ku + vu;
    assert(need == k.len() + v.len());
    // Because `spec_step(d2, p)` produced a record, the intact tail's
    // checksum agrees with the intact stored checksum.
    assert(crc32c_spec(d2.subrange(p + 4, p + 21 + need)) == spec_u32_at(d2, p));
    assert(spec_u32_at(d2, p) == cks);
    if i < 4 {
        // The flip is in the stored checksum: the tail is intact, the
        // stored value is not.
        assert_seqs_equal!(d.subrange(p + 4, p + 21 + need) ==
            d2.subrange(p + 4, p + 21 + need), j => {
            assert(d.subrange(p + 4, p + 21 + need)[j] == d[p + 4 + j]);
            assert(d2.subrange(p + 4, p + 21 + need)[j] == d2[p + 4 + j]);
            assert(d2[p + 4 + j] == d[p + 4 + j]);
        });
        assert(crc32c_spec(d.subrange(p + 4, p + 21 + need)) == cks);
        let a0 = d[p];
        let a1 = d[p + 1];
        let a2 = d[p + 2];
        let a3 = d[p + 3];
        let b0 = d2[p];
        let b1 = d2[p + 1];
        let b2 = d2[p + 2];
        let b3 = d2[p + 3];
        assert(got[i] == d[p + i]);
        assert(d2[p + i] == rec[i]);
        assert(a0 != b0 || a1 != b1 || a2 != b2 || a3 != b3);
        assert((a0 != b0 || a1 != b1 || a2 != b2 || a3 != b3) ==> le32v(a0, a1, a2, a3) != le32v(
            b0,
            b1,
            b2,
            b3,
        )) by (bit_vector);
        assert(spec_u32_at(d, p) != cks);
        assert(spec_step(d, p) == GStep::Corrupt);
    } else {
        // The flip is in the framed tail outside the size fields: the
        // stored checksum is intact, the tail is not.
        assert(d[p] == d2[p] && d[p + 1] == d2[p + 1] && d[p + 2] == d2[p + 2] && d[p + 3] == d2[p
            + 3]);
        assert(spec_u32_at(d, p) == cks);
        let t1 = d.subrange(p + 4, p + 21 + need);
        let t2 = d2.subrange(p + 4, p + 21 + need);
        assert(t1.len() == t2.len());
        assert forall|j: int| 0 <= j < t1.len() && j != i - 4 implies t1[j] == t2[j] by {
            assert(t1[j] == d[p + 4 + j]);
            assert(t2[j] == d2[p + 4 + j]);
            assert(d2[p + 4 + j] == d[p + 4 + j]);
        };
        assert(t1[i - 4] == d[p + 4 + (i - 4)]);
        assert(t2[i - 4] == d2[p + 4 + (i - 4)]);
        assert(got[i] == d[p + i]);
        assert(d2[p + i] == rec[i]);
        assert(t1[i - 4] != t2[i - 4]);
        crate::wal::crc32c::lemma_crc32c_detects_byte_flip(t1, t2, i - 4);
        assert(crc32c_spec(t1) != cks);
        assert(spec_step(d, p) == GStep::Corrupt);
    }
}

/// The verifying replay iterator: a single pass over the log's bytes,
/// positioned past the validated file header.  Once it has reported an
/// error or reached the end it refuses further work.
#[derive(Debug)]
pub struct WalEntryIterator {
    path: String,
    data: Vec<u8>,
    pos: usize,
    finished: bool,
}

impl WalEntryIterator {
    /// The log bytes being replayed.
    pub closed spec fn data(&self) -> Seq<u8> {
        self.data@
    }

    /// The current read position.
    pub closed spec fn pos(&self) -> int {
        self.pos as int
    }

    /// Whether the iterator has finished, cleanly or not.
    pub closed spec fn finished(&self) -> bool {
        self.finished
    }

    /// The path the log was read from, for error reports.
    pub closed spec fn path(&self) -> Seq<char> {
        self.path@
    }

    /// The position never runs past the data.
    pub closed spec fn wf(&self) -> bool {
        self.pos <= self.data@.len()
    }

    /// Start replay over the contents of the log file, or `None` if no
    /// log file exists.  An absent file is `WalFileDoesntExist`; a
    /// present file whose sixteen-byte header is short, has the wrong
    /// magic or the wrong version is `WalFileCorrupted`.
    pub fn new(path: String, contents: Option<Vec<u8>>) -> (r: Result<WalEntryIterator, WalError>)
        ensures
            match r {
                Ok(it) => {
                    &&& contents is Some
                    &&& it.data() == contents.unwrap()@
                    &&& spec_header_ok(it.data())
                    &&& it.pos() == 16
                    &&& !it.finished()
                    &&& it.wf()
                    &&& it.path() == path@
                },
                Err(e) => {
                    &&& e.path@ == path@
                    &&& match contents {
                        Option::Some(c) => !spec_header_ok(c@) && (e.kind is WalFileCorrupted),
                        Option::None => e.kind is WalFileDoesntExist,
                    }
                },
            },
    {
        match contents {
            Option::None => Err(
                WalError { path, kind: WalErrorKind::WalFileDoesntExist },
            ),
            Option::Some(data) => {
                if data.len() < WAL_FILE_HEADER_LEN {
                    return Err(
                        WalError {
                            path,
                            kind: WalErrorKind::WalFileCorrupted(
                                String::from_str("cannot read WAL header"),
                            ),
                        },
                    );
                }
                if !(data[0] == 0x57 && data[1] == 0x41 && data[2] == 0x4c && data[3] == 0x00) {
                    return Err(
                        WalError {
                            path,
                            kind: WalErrorKind::WalFileCorrupted(
                                String::from_str("invalid WAL file magic number"),
                            ),
                        },
                    );
                }
                if get_u32_at(&data, 4) != WAL_VERSION {
                    return Err(
                        WalError {
                            path,
                            kind: WalErrorKind::WalFileCorrupted(
                                String::from_str("unsupported WAL version"),
                            ),
                        },
                    );
                }
                Ok(WalEntryIterator { path, data, pos: 16, finished: false })
            },
        }
    }

    /// Produce the next record, or report why there is none.  A clean
    /// end of stream — fewer than 21 bytes left, which covers both a
    /// fully-read log and one truncated at a record boundary or inside
    /// a record header — yields `None`.  A record whose announced key
    /// and value run past the end of the file, or whose stored
    /// checksum disagrees with its tail, yields `WalFileCorrupted`
    /// once; the iterator then stays finished.
    pub fn next(&mut self) -> (r: Option<Result<WalEntry, WalError>>)
        requires
            old(self).wf(),
        ensures
            final(self).wf(),
            final(self).data() == old(self).data(),
            final(self).path() == old(self).path(),
            old(self).finished() ==> r is None && final(self).finished() && final(self).pos()
                == old(self).pos(),
            !old(self).finished() ==> match spec_step(old(self).data(), old(self).pos()) {
                GStep::End => r is None && final(self).finished() && final(self).pos() == old(
                    self,
                ).pos(),
                GStep::Corrupt => {
                    &&& match r {
                        Option::Some(Result::Err(e)) => e.path@ == old(self).path() && (
                        e.kind is WalFileCorrupted),
                        _ => false,
                    }
                    &&& final(self).finished()
                    &&& final(self).pos() == old(self).pos()
                },
                GStep::Entry { entry, next } => {
                    &&& match r {
                        Option::Some(Result::Ok(en)) => en.crc32c == entry.crc32c && en.sequence
                            == entry.sequence && en.entry_type == entry.entry_type && en.key_size
                            == entry.key_size && en.value_size == entry.value_size && en.key@
                            == entry.key && en.value@ == entry.value && en.wf(),
                        _ => false,
                    }
                    &&& final(self).pos() == next
                    &&& !final(self).finished()
                },
            },
    {
        if self.finished {
            return None;
        }
        let dl: usize = self.data.len();
        let p: usize = self.pos;
        if dl - p < WAL_ENTRY_HEADER_LEN {
            self.finished = true;
            return None;
        }
        let crc = get_u32_at(&self.data, p);
        let sequence = get_u64_at(&self.data, p + 4);
        let entry_type = self.data[p + 12];
        let key_size = get_u32_at(&self.data, p + 13);
        let value_size = get_u32_at(&self.data, p + 17);
        let need: u64 = key_size as u64 + value_size as u64;
        let avail: u64 = (dl - p - 21) as u64;
        if avail < need {
            self.finished = true;
            return Some(
                Err(
                    WalError {
                        path: self.path.clone(),
                        kind: WalErrorKind::WalFileCorrupted(
                            String::from_str("invalid entry data key/value"),
                        ),
                    },
                ),
            );
        }
        let start: usize = p + 21;
        let kend: usize = start + (key_size as usize);
        let vend: usize = kend + (value_size as usize);
        let mut hasher = IncrementalCrc32c::new();
        hasher.update(&self.data[p + 4..vend]);
        proof {
            assert(Seq::<u8>::empty() + self.data@.subrange(p + 4, vend as int)
                =~= self.data@.subrange(p + 4, vend as int));
        }
        let computed = hasher.finalize();
        if computed != crc {
            self.finished = true;
            return Some(
                Err(
                    WalError {
                        path: self.path.clone(),
                        kind: WalErrorKind::WalFileCorrupted(
                            String::from_str("CRC32 checksum mismatch"),
                        ),
                    },
                ),
            );
        }
        let key = copy_range(&self.data, start, kend);
        let value = copy_range(&self.data, kend, vend);
        let entry = WalEntry::new(crc, sequence, entry_type, key_size, value_size, key, value);
        self.pos = vend;
        Some(Ok(entry))
    }

    /// Run replay to completion: every record surfaced in file order,
    /// and the error that ended it where corruption was detected.
    /// The result is exactly `spec_replay` of the log bytes from the
    /// current position.
    pub fn read_to_end(&mut self) -> (r: (Vec<WalEntry>, Option<WalError>))
        requires
            old(self).wf(),
            !old(self).finished(),
        ensures
            final(self).wf(),
            final(self).finished(),
            final(self).data() == old(self).data(),
            final(self).path() == old(self).path(),
            r.0@.len() == spec_replay(old(self).data(), old(self).pos()).0.len(),
            forall|i: int|
                0 <= i < r.0@.len() ==> (#[trigger] r.0@[i])@ == spec_replay(
                    old(self).data(),
                    old(self).pos(),
                ).0[i] && r.0@[i].wf(),
            r.1 is Some <==> spec_replay(old(self).data(), old(self).pos()).1,
            match r.1 {
                Option::Some(e) => e.path@ == old(self).path() && (e.kind is WalFileCorrupted),
                Option::None => true,
            },
    {
        let ghost d = self.data@;
        let ghost p0 = self.pos as int;
        let ghost path0 = self.path@;
        let ghost full = spec_replay(d, p0);
        let mut out: Vec<WalEntry> = Vec::new();
        let mut fault: Option<WalError> = None;
        while !self.finished
            invariant
                self.wf(),
                self.data() == d,
                self.path() == path0,
                full == spec_replay(d, p0),
                out@.len() <= full.0.len(),
                forall|i: int|
                    0 <= i < out@.len() ==> (#[trigger] out@[i])@ == full.0[i] && out@[i].wf(),
                !self.finished() ==> fault is None && spec_replay(d, self.pos()) == (
                    full.0.skip(out@.len() as int),
                    full.1,
                ),
                self.finished() ==> out@.len() == full.0.len() && (fault is Some <==> full.1)
                    && match fault {
                    Option::Some(e) => e.path@ == path0 && (e.kind is WalFileCorrupted),
                    Option::None => true,
                },
            decreases
                    d.len() - self.pos(),
                    (if self.finished() {
                        0int
                    } else {
                        1int
                    }),
        {
            let ghost pos_before = self.pos();
            let ghost n = out@.len() as int;
            match self.next() {
                Option::None => {
                    proof {
                        assert(spec_step(d, pos_before) is End);
                        assert(full.0.skip(n) =~= Seq::<GWalEntry>::empty());
                    }
                },
                Option::Some(res) => {
                    match res {
                        Result::Err(e) => {
                            proof {
                                assert(spec_step(d, pos_before) is Corrupt);
                                assert(full.0.skip(n) =~= Seq::<GWalEntry>::empty());
                            }
                            fault = Some(e);
                        },
                        Result::Ok(entry) => {
                            proof {
                                let st = spec_step(d, pos_before);
                                assert(st is Entry);
                                let nx = st->Entry_next;
                                assert(pos_before < nx <= d.len());
                                let rest = spec_replay(d, nx);
                                assert(spec_replay(d, pos_before) == (
                                    seq![st->Entry_entry] + rest.0,
                                    rest.1,
                                ));
                                assert(full.0.skip(n) == seq![st->Entry_entry] + rest.0);
                                assert(full.0.skip(n).len() >= 1);
                                assert(full.0.skip(n)[0] == full.0[n]);
                                assert(entry@ == full.0[n]);
                                assert(rest.0 =~= full.0.skip(n).skip(1));
                                assert(full.0.skip(n).skip(1) =~= full.0.skip(n + 1));
                            }
                            out.push(entry);
                        },
                    }
                },
            }
        }
        (out, fault)
    }
}

} // verus!
