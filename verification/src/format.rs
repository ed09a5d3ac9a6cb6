//! Binary format of write-ahead log records.
//!
//! Every log record is a fixed 32-byte header followed by a payload:
//! `ChunkHeader (32) | key_len (u16 LE) | value_len (u32 LE) | operation (u8)
//! | padding (u8 = 0) | key bytes | value bytes`. The header's checksum is
//! CRC32C over the payload alone.

use vstd::bytes::{
    spec_u16_to_le_bytes, spec_u16_from_le_bytes, spec_u32_to_le_bytes, spec_u32_from_le_bytes,
    lemma_auto_spec_u16_to_from_le_bytes, lemma_auto_spec_u32_to_from_le_bytes,
    u16_to_le_bytes, u16_from_le_bytes, u32_to_le_bytes, u32_from_le_bytes,
};
use vstd::prelude::*;
use vstd::slice::slice_to_vec;

use crate::error::ClawError;

verus! {

/// Magic constant identifying a record: ASCII "CLAW" as a little-endian u32.
pub const MAGIC_BYTES: u32 = 0x574C4143;

/// First magic byte, ASCII 'C'.
pub const MAGIC_BYTE_0: u8 = 0x43;

/// Second magic byte, ASCII 'L'.
pub const MAGIC_BYTE_1: u8 = 0x4C;

/// Third magic byte, ASCII 'A'.
pub const MAGIC_BYTE_2: u8 = 0x41;

/// Fourth magic byte, ASCII 'W'.
pub const MAGIC_BYTE_3: u8 = 0x57;

/// Maximum key size in bytes.
pub const MAX_KEY_SIZE: usize = 128;

/// Maximum value size in bytes (32 MiB).
pub const MAX_VALUE_SIZE: usize = 33554432;

/// Log record header size in bytes.
pub const HEADER_SIZE: usize = 32;

/// The magic constant as a byte sequence, in on-disk order.
pub open spec fn magic_seq() -> Seq<u8> {
    seq![MAGIC_BYTE_0, MAGIC_BYTE_1, MAGIC_BYTE_2, MAGIC_BYTE_3]
}

/// The result that `crc32c::crc32c` returns for the given bytes: the
/// CRC-32 checksum with the Castagnoli polynomial, a function of the
/// bytes alone.
pub uninterp spec fn crc32c_of(data: Seq<u8>) -> u32;

/// Relies on crc32c::crc32c: the CRC-32-Castagnoli checksum of the bytes,
/// a pure function of its input.
#[verifier::external_body]
pub fn crc32c_sum(data: &[u8]) -> (r: u32)
    ensures
        r == crc32c_of(data@),
{
    crc32c::crc32c(data)
}

/// Append every byte of `src` to `dst`.
pub fn push_bytes(dst: &mut Vec<u8>, src: &[u8])
    ensures
        final(dst)@ == old(dst)@ + src@,
{
    let ghost orig = dst@;
    let mut i: usize = 0;
    while i < src.len()
        invariant
            i <= src@.len(),
            dst@ == orig + src@.subrange(0, i as int),
        decreases src@.len() - i,
    {
        dst.push(src[i]);
        i = i + 1;
        proof {
            assert(src@.subrange(0, i as int)
                == src@.subrange(0, (i - 1) as int) + seq![src@[i - 1]]);
        }
    }
    proof {
        assert(src@.subrange(0, src@.len() as int) == src@);
    }
}

/// Operations a log record can carry.
#[derive(Debug, Clone, Copy, PartialEq, Eq, Structural)]
pub enum Operation {
    /// Insert or update a key-value pair.
    Put,
    /// Delete a key.
    Delete,
}

/// The byte that encodes an operation on disk.
pub open spec fn spec_op_byte(op: Operation) -> u8 {
    match op {
        Operation::Put => 1,
        Operation::Delete => 2,
    }
}

impl Operation {
    /// The byte that encodes this operation on disk.
    pub fn code(&self) -> (r: u8)
        ensures
            r == spec_op_byte(*self),
    {
        match self {
            Operation::Put => 1,
            Operation::Delete => 2,
        }
    }
}

/// Fixed-size header of each log record, 32 bytes on disk.
#[derive(Debug, Clone, Copy)]
pub struct ChunkHeader {
    /// Magic bytes for record identification and corruption recovery.
    pub magic: [u8; 4],
    /// Length of the record payload, excluding this header.
    pub length: u32,
    /// CRC32C checksum of the payload bytes.
    pub checksum: u32,
    /// Operation byte (1 = put, 2 = delete).
    pub entry_type: u8,
    /// Reserved for future use, zero on write.
    pub reserved: [u8; 3],
    /// Padding to reach 32 bytes, zero on write and ignored on read.
    pub _padding: [u8; 16],
}

/// The 32 bytes a header serializes to: the padding region is written as
/// zeroes whatever the in-memory value holds.
pub open spec fn spec_header_bytes(h: ChunkHeader) -> Seq<u8> {
    h.magic@ + spec_u32_to_le_bytes(h.length) + spec_u32_to_le_bytes(h.checksum)
        + seq![h.entry_type] + h.reserved@ + Seq::new(16, |i: int| 0u8)
}

/// The payload of a log record: length fields, operation byte, one byte of
/// padding, then the key and value bytes.
pub open spec fn spec_log_payload(key: Seq<u8>, value: Seq<u8>, op: Operation) -> Seq<u8>
    recommends
        key.len() <= u16::MAX,
        value.len() <= u32::MAX,
{
    spec_u16_to_le_bytes(key.len() as u16) + spec_u32_to_le_bytes(value.len() as u32)
        + seq![spec_op_byte(op), 0u8] + key + value
}

/// The complete on-disk bytes of a log record: header then payload.
pub open spec fn spec_log_record(key: Seq<u8>, value: Seq<u8>, op: Operation) -> Seq<u8>
    recommends
        key.len() <= MAX_KEY_SIZE,
        value.len() <= MAX_VALUE_SIZE,
{
    let payload = spec_log_payload(key, value, op);
    magic_seq() + spec_u32_to_le_bytes(payload.len() as u32)
        + spec_u32_to_le_bytes(crc32c_of(payload)) + seq![spec_op_byte(op)]
        + Seq::new(3, |i: int| 0u8) + Seq::new(16, |i: int| 0u8) + payload
}

/// The payload length a record slice's header claims.
pub open spec fn log_slice_length(d: Seq<u8>) -> int
    recommends
        d.len() >= 8,
{
    spec_u32_from_le_bytes(d.subrange(4, 8)) as int
}

/// The checksum a record slice's header claims.
pub open spec fn log_slice_checksum(d: Seq<u8>) -> u32
    recommends
        d.len() >= 12,
{
    spec_u32_from_le_bytes(d.subrange(8, 12))
}

/// The payload bytes of a record slice, as delimited by its header.
pub open spec fn log_slice_payload(d: Seq<u8>) -> Seq<u8>
    recommends
        d.len() >= 32 + log_slice_length(d),
{
    d.subrange(32, 32 + log_slice_length(d))
}

/// The key length a payload's leading fields claim.
pub open spec fn payload_key_len(p: Seq<u8>) -> int
    recommends
        p.len() >= 2,
{
    spec_u16_from_le_bytes(p.subrange(0, 2)) as int
}

/// The value length a payload's leading fields claim.
pub open spec fn payload_value_len(p: Seq<u8>) -> int
    recommends
        p.len() >= 6,
{
    spec_u32_from_le_bytes(p.subrange(2, 6)) as int
}

/// Whether a payload is structurally sound: long enough for its fields,
/// a valid operation byte, and key plus value within its bounds.
pub open spec fn payload_wf(p: Seq<u8>) -> bool {
    &&& p.len() >= 8
    &&& (p[6] == 1 || p[6] == 2)
    &&& 8 + payload_key_len(p) + payload_value_len(p) <= p.len()
}

/// The operation a sound payload encodes.
pub open spec fn payload_op(p: Seq<u8>) -> Operation
    recommends
        payload_wf(p),
{
    if p[6] == 1 {
        Operation::Put
    } else {
        Operation::Delete
    }
}

/// The key bytes of a sound payload.
pub open spec fn payload_key(p: Seq<u8>) -> Seq<u8>
    recommends
        payload_wf(p),
{
    p.subrange(8, 8 + payload_key_len(p))
}

/// The value bytes of a sound payload.
pub open spec fn payload_value(p: Seq<u8>) -> Seq<u8>
    recommends
        payload_wf(p),
{
    p.subrange(8 + payload_key_len(p), 8 + payload_key_len(p) + payload_value_len(p))
}

/// Whether a byte slice decodes as one complete, checksummed log record
/// (possibly with trailing slack beyond the payload).
pub open spec fn log_slice_ok(d: Seq<u8>) -> bool {
    &&& d.len() >= 32
    &&& d.subrange(0, 4) == magic_seq()
    &&& 32 + log_slice_length(d) <= d.len()
    &&& crc32c_of(log_slice_payload(d)) == log_slice_checksum(d)
    &&& payload_wf(log_slice_payload(d))
}

impl ChunkHeader {
    /// Create a header with the magic constant, zero reserved bytes and
    /// zero padding.
    pub fn new(length: u32, checksum: u32, entry_type: Operation) -> (h: ChunkHeader)
        ensures
            h.magic@ == magic_seq(),
            h.length == length,
            h.checksum == checksum,
            h.entry_type == spec_op_byte(entry_type),
            h.reserved@ == Seq::new(3, |i: int| 0u8),
            h._padding@ == Seq::new(16, |i: int| 0u8),
    {
        let h = ChunkHeader {
            magic: [MAGIC_BYTE_0, MAGIC_BYTE_1, MAGIC_BYTE_2, MAGIC_BYTE_3],
            length,
            checksum,
            entry_type: entry_type.code(),
            reserved: [0, 0, 0],
            _padding: [0, 0, 0, 0, 0, 0, 0, 0, 0, 0, 0, 0, 0, 0, 0, 0],
        };
        proof {
            assert(h.magic@ =~= magic_seq());
            assert(h.reserved@ =~= Seq::new(3, |i: int| 0u8));
            assert(h._padding@ =~= Seq::new(16, |i: int| 0u8));
        }
        h
    }

    /// Serialize the header into its 32-byte on-disk form.
    pub fn to_bytes(&self) -> (r: Vec<u8>)
        ensures
            r@ == spec_header_bytes(*self),
            r@.len() == HEADER_SIZE,
    {
        let mut buf: Vec<u8> = Vec::new();
        buf.push(self.magic[0]);
        buf.push(self.magic[1]);
        buf.push(self.magic[2]);
        buf.push(self.magic[3]);
        proof {
            assert(buf@ =~= self.magic@);
        }
        let mut len_bytes = u32_to_le_bytes(self.length);
        buf.append(&mut len_bytes);
        let mut sum_bytes = u32_to_le_bytes(self.checksum);
        buf.append(&mut sum_bytes);
        buf.push(self.entry_type);
        buf.push(self.reserved[0]);
        buf.push(self.reserved[1]);
        buf.push(self.reserved[2]);
        let ghost head = buf@;
        proof {
            assert(head =~= self.magic@ + spec_u32_to_le_bytes(self.length)
                + spec_u32_to_le_bytes(self.checksum) + seq![self.entry_type] + self.reserved@);
        }
        let mut i: usize = 0;
        while i < 16
            invariant
                i <= 16,
                buf@ == head + Seq::new(i as nat, |j: int| 0u8),
            decreases 16 - i,
        {
            buf.push(0);
            i = i + 1;
            proof {
                assert(head + Seq::new((i - 1) as nat, |j: int| 0u8) + seq![0u8]
                    =~= head + Seq::new(i as nat, |j: int| 0u8));
            }
        }
        proof {
            assert(buf@ =~= spec_header_bytes(*self));
            assert(spec_header_bytes(*self).len() == HEADER_SIZE);
        }
        buf
    }

    /// Parse a header from its first 32 bytes.
    pub fn from_bytes(bytes: &[u8]) -> (h: ChunkHeader)
        requires
            bytes@.len() >= HEADER_SIZE,
        ensures
            h.magic@ == bytes@.subrange(0, 4),
            h.length == spec_u32_from_le_bytes(bytes@.subrange(4, 8)),
            h.checksum == spec_u32_from_le_bytes(bytes@.subrange(8, 12)),
            h.entry_type == bytes@[12],
            h.reserved@ == bytes@.subrange(13, 16),
            h._padding@ == bytes@.subrange(16, 32),
    {
        let magic = [bytes[0], bytes[1], bytes[2], bytes[3]];
        let length = u32_from_le_bytes(&bytes[4..8]);
        let checksum = u32_from_le_bytes(&bytes[8..12]);
        let reserved = [bytes[13], bytes[14], bytes[15]];
        let padding = [
            bytes[16], bytes[17], bytes[18], bytes[19],
            bytes[20], bytes[21], bytes[22], bytes[23],
            bytes[24], bytes[25], bytes[26], bytes[27],
            bytes[28], bytes[29], bytes[30], bytes[31],
        ];
        let h = ChunkHeader { magic, length, checksum, entry_type: bytes[12], reserved, _padding: padding };
        proof {
            assert(h.magic@ =~= bytes@.subrange(0, 4));
            assert(h.reserved@ =~= bytes@.subrange(13, 16));
            assert(h._padding@ =~= bytes@.subrange(16, 32));
        }
        h
    }
}

/// A complete log record, as parsed from disk.
#[derive(Debug, Clone)]
pub struct WalEntry {
    /// The record's header as read.
    pub header: ChunkHeader,
    /// The key bytes.
    pub key: Vec<u8>,
    /// The value bytes; empty for a delete.
    pub value: Vec<u8>,
    /// The operation the record encodes.
    pub operation: Operation,
}

/// Serialize a key-value pair into a complete log record.
///
/// Sizes are validated before anything is allocated: a key longer than
/// `MAX_KEY_SIZE` or a value longer than `MAX_VALUE_SIZE` is rejected with
/// `OversizedEntry` naming the offending component.
pub fn serialize_entry(key: &[u8], value: &[u8], op: Operation) -> (r: Result<Vec<u8>, ClawError>)
    ensures
        key@.len() > MAX_KEY_SIZE ==> (r matches Err(ClawError::OversizedEntry {
            entry_size,
            max_size,
            component,
        }) && entry_size == key@.len() && max_size == MAX_KEY_SIZE && component@ == "key"@),
        key@.len() <= MAX_KEY_SIZE && value@.len() > MAX_VALUE_SIZE ==> (r matches Err(
            ClawError::OversizedEntry { entry_size, max_size, component },
        ) && entry_size == value@.len() && max_size == MAX_VALUE_SIZE && component@ == "value"@),
        key@.len() <= MAX_KEY_SIZE && value@.len() <= MAX_VALUE_SIZE ==> (r matches Ok(b)
            && b@ == spec_log_record(key@, value@, op)),
{
    if key.len() > MAX_KEY_SIZE {
        return Err(ClawError::OversizedEntry {
            entry_size: key.len() as u64,
            max_size: MAX_KEY_SIZE as u64,
            component: "key".to_owned(),
        });
    }
    if value.len() > MAX_VALUE_SIZE {
        return Err(ClawError::OversizedEntry {
            entry_size: value.len() as u64,
            max_size: MAX_VALUE_SIZE as u64,
            component: "value".to_owned(),
        });
    }

    let mut payload: Vec<u8> = Vec::new();
    let mut key_len_bytes = u16_to_le_bytes(key.len() as u16);
    payload.append(&mut key_len_bytes);
    let mut value_len_bytes = u32_to_le_bytes(value.len() as u32);
    payload.append(&mut value_len_bytes);
    payload.push(op.code());
    payload.push(0);
    push_bytes(&mut payload, key);
    push_bytes(&mut payload, value);
    proof {
        assert(payload@ =~= spec_log_payload(key@, value@, op));
        lemma_auto_spec_u16_to_from_le_bytes();
        lemma_auto_spec_u32_to_from_le_bytes();
    }

    let checksum = crc32c_sum(payload.as_slice());
    let header = ChunkHeader::new(payload.len() as u32, checksum, op);

    let mut buffer = header.to_bytes();
    push_bytes(&mut buffer, payload.as_slice());
    proof {
        assert(buffer@ =~= spec_log_record(key@, value@, op));
    }
    Ok(buffer)
}

/// Deserialize one log record from the start of a byte slice.
///
/// The slice may extend past the record; only the header and the payload it
/// delimits are read. Each structural defect is reported as its own error:
/// missing magic, torn payload, checksum mismatch, or a malformed payload.
pub fn deserialize_entry(data: &[u8]) -> (r: Result<WalEntry, ClawError>)
    ensures
        data@.len() < HEADER_SIZE ==> (r matches Err(ClawError::WalCorrupted { offset, .. })
            && offset == 0),
        data@.len() >= HEADER_SIZE && data@.subrange(0, 4) != magic_seq() ==> (r matches Err(
            ClawError::NoMagicFound { offset, found_bytes, .. },
        ) && offset == 0 && found_bytes@ == data@.subrange(0, 4)),
        data@.len() >= HEADER_SIZE && data@.subrange(0, 4) == magic_seq() && 32
            + log_slice_length(data@) > data@.len() ==> (r matches Err(ClawError::TornWrite {
            expected_size,
            available_bytes,
            offset,
            ..
        }) && expected_size == log_slice_length(data@) && available_bytes == data@.len() - 32
            && offset == 32),
        data@.len() >= HEADER_SIZE && data@.subrange(0, 4) == magic_seq() && 32
            + log_slice_length(data@) <= data@.len() && crc32c_of(log_slice_payload(data@))
            != log_slice_checksum(data@) ==> (r matches Err(ClawError::ChecksumMismatch {
            expected,
            actual,
            offset,
            ..
        }) && expected == log_slice_checksum(data@) && actual == crc32c_of(log_slice_payload(
            data@,
        )) && offset == 32),
        data@.len() >= HEADER_SIZE && data@.subrange(0, 4) == magic_seq() && 32
            + log_slice_length(data@) <= data@.len() && crc32c_of(log_slice_payload(data@))
            == log_slice_checksum(data@) && !payload_wf(log_slice_payload(data@)) ==> (r matches
            Err(ClawError::WalCorrupted { .. })),
        log_slice_ok(data@) ==> (r matches Ok(e) && {
            let p = log_slice_payload(data@);
            &&& e.key@ == payload_key(p)
            &&& e.value@ == payload_value(p)
            &&& e.operation == payload_op(p)
            &&& e.header.magic@ == magic_seq()
            &&& e.header.length == log_slice_length(data@)
            &&& e.header.checksum == log_slice_checksum(data@)
            &&& e.header.entry_type == data@[12]
        }),
{
    if data.len() < HEADER_SIZE {
        return Err(ClawError::WalCorrupted {
            path: "<buffer>".to_owned(),
            offset: 0,
            reason: "entry shorter than a record header".to_owned(),
        });
    }

    let header = ChunkHeader::from_bytes(&data[0..HEADER_SIZE]);
    proof {
        assert(data@.subrange(0, 32).subrange(0, 4) =~= data@.subrange(0, 4));
        assert(data@.subrange(0, 32).subrange(4, 8) =~= data@.subrange(4, 8));
        assert(data@.subrange(0, 32).subrange(8, 12) =~= data@.subrange(8, 12));
    }

    if !(header.magic[0] == MAGIC_BYTE_0 && header.magic[1] == MAGIC_BYTE_1
        && header.magic[2] == MAGIC_BYTE_2 && header.magic[3] == MAGIC_BYTE_3) {
        proof {
            if data@.subrange(0, 4) == magic_seq() {
                assert(header.magic@ =~= magic_seq());
                assert(header.magic@[0] == MAGIC_BYTE_0);
                assert(header.magic@[1] == MAGIC_BYTE_1);
                assert(header.magic@[2] == MAGIC_BYTE_2);
                assert(header.magic@[3] == MAGIC_BYTE_3);
            }
        }
        return Err(ClawError::NoMagicFound {
            path: "<buffer>".to_owned(),
            offset: 0,
            found_bytes: header.magic,
        });
    }
    proof {
        assert(header.magic@ =~= magic_seq());
        assert(data@.subrange(0, 4) =~= magic_seq());
    }

    let payload_end: u64 = HEADER_SIZE as u64 + header.length as u64;
    if (data.len() as u64) < payload_end {
        return Err(ClawError::TornWrite {
            path: "<buffer>".to_owned(),
            expected_size: header.length,
            available_bytes: (data.len() - HEADER_SIZE) as u64,
            offset: HEADER_SIZE as u64,
        });
    }

    let payload_len = header.length as usize;
    let payload = &data[HEADER_SIZE..HEADER_SIZE + payload_len];
    proof {
        assert(payload@ =~= log_slice_payload(data@));
    }

    let computed = crc32c_sum(payload);
    if computed != header.checksum {
        return Err(ClawError::ChecksumMismatch {
            path: "<buffer>".to_owned(),
            expected: header.checksum,
            actual: computed,
            offset: HEADER_SIZE as u64,
        });
    }

    if payload.len() < 8 {
        return Err(ClawError::WalCorrupted {
            path: "<buffer>".to_owned(),
            offset: HEADER_SIZE as u64,
            reason: "payload too short for its length fields".to_owned(),
        });
    }

    let key_len = u16_from_le_bytes(&payload[0..2]) as usize;
    let value_len = u32_from_le_bytes(&payload[2..6]) as usize;
    let op_byte = payload[6];
    let operation = if op_byte == 1 {
        Operation::Put
    } else if op_byte == 2 {
        Operation::Delete
    } else {
        return Err(ClawError::WalCorrupted {
            path: "<buffer>".to_owned(),
            offset: HEADER_SIZE as u64 + 6,
            reason: "invalid operation type byte".to_owned(),
        });
    };

    let value_end_64: u64 = 8 + key_len as u64 + value_len as u64;
    if (payload.len() as u64) < value_end_64 {
        return Err(ClawError::WalCorrupted {
            path: "<buffer>".to_owned(),
            offset: HEADER_SIZE as u64,
            reason: "payload too short for its key and value".to_owned(),
        });
    }

    let key_end = 8 + key_len;
    let value_end = key_end + value_len;
    let key = slice_to_vec(&payload[8..key_end]);
    let value = slice_to_vec(&payload[key_end..value_end]);
    proof {
        let p = log_slice_payload(data@);
        assert(p.subrange(0, 2) =~= payload@.subrange(0, 2));
        assert(p.subrange(2, 6) =~= payload@.subrange(2, 6));
        assert(key@ =~= payload_key(p));
        assert(value@ =~= payload_value(p));
    }

    Ok(WalEntry { header, key, value, operation })
}

/// Encoding then decoding a record yields the key, value and operation
/// back: the serialized bytes of any in-bounds entry form one sound record
/// slice whose parsed fields equal the inputs.
pub proof fn lemma_log_record_round_trip(key: Seq<u8>, value: Seq<u8>, op: Operation)
    requires
        key.len() <= MAX_KEY_SIZE,
        value.len() <= MAX_VALUE_SIZE,
    ensures
        ({
            let d = spec_log_record(key, value, op);
            &&& log_slice_ok(d)
            &&& d.len() == HEADER_SIZE + 8 + key.len() + value.len()
            &&& log_slice_payload(d) == spec_log_payload(key, value, op)
            &&& payload_key(log_slice_payload(d)) == key
            &&& payload_value(log_slice_payload(d)) == value
            &&& payload_op(log_slice_payload(d)) == op
        }),
{
    lemma_auto_spec_u16_to_from_le_bytes();
    lemma_auto_spec_u32_to_from_le_bytes();
    let p = spec_log_payload(key, value, op);
    let d = spec_log_record(key, value, op);
    assert(p.len() == 8 + key.len() + value.len());
    assert(d.len() == 32 + p.len());
    assert(d.subrange(0, 4) =~= magic_seq());
    assert(d.subrange(4, 8) =~= spec_u32_to_le_bytes(p.len() as u32));
    assert(log_slice_length(d) == p.len());
    assert(d.subrange(8, 12) =~= spec_u32_to_le_bytes(crc32c_of(p)));
    assert(log_slice_checksum(d) == crc32c_of(p));
    assert(log_slice_payload(d) =~= p);
    assert(p.subrange(0, 2) =~= spec_u16_to_le_bytes(key.len() as u16));
    assert(payload_key_len(p) == key.len());
    assert(p.subrange(2, 6) =~= spec_u32_to_le_bytes(value.len() as u32));
    assert(payload_value_len(p) == value.len());
    assert(p[6] == spec_op_byte(op));
    assert(payload_wf(p));
    assert(payload_op(p) == op);
    assert(payload_key(p) =~= key);
    assert(payload_value(p) =~= value);
}

} // verus!
