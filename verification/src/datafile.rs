//! Data-file records: the on-disk mirror of the in-memory index.
//!
//! A data file is a sequence of records, each a 24-byte header followed by
//! the key and value bytes; the header's checksum is CRC32C over
//! `key || value`, and bit 0 of the flags byte marks a tombstone. The
//! background flusher appends records; the compactor rewrites whole files.
//! This module holds the codec and the scan over raw bytes; opening, seeking
//! and appending to real files is the embedding program's part.

use vstd::bytes::{
    spec_u16_to_le_bytes, spec_u16_from_le_bytes, spec_u32_to_le_bytes, spec_u32_from_le_bytes,
    lemma_auto_spec_u16_to_from_le_bytes, lemma_auto_spec_u32_to_from_le_bytes, u16_to_le_bytes,
    u16_from_le_bytes, u32_to_le_bytes, u32_from_le_bytes,
};
use vstd::prelude::*;
use vstd::slice::slice_to_vec;

use crate::error::ClawError;
use crate::format::{
    crc32c_of, crc32c_sum, magic_seq, push_bytes, MAGIC_BYTE_0, MAGIC_BYTE_1, MAGIC_BYTE_2,
    MAGIC_BYTE_3, MAX_KEY_SIZE, MAX_VALUE_SIZE,
};
use crate::wal::{first_magic_from, lemma_first_magic_from, lemma_first_magic_from_shift,
    find_next_magic};

verus! {

/// Data record header size in bytes.
pub const DATA_HEADER_SIZE: usize = 24;

/// Tombstone bit in the flags byte.
pub const FLAG_TOMBSTONE: u8 = 0x01;

/// Maximum data file size before rotation (256 MiB).
pub const MAX_DATA_FILE_SIZE: u64 = 268435456;

/// Whether a flags byte marks a tombstone.
pub open spec fn spec_is_tombstone(flags: u8) -> bool {
    (flags & FLAG_TOMBSTONE) != 0
}

/// Fixed-size header of each data record, 24 bytes on disk.
#[derive(Debug, Clone, Copy)]
pub struct DataChunkHeader {
    /// Magic bytes for record identification.
    pub magic: [u8; 4],
    /// Length of the key in bytes.
    pub key_len: u16,
    /// Length of the value in bytes; zero for tombstones.
    pub value_len: u32,
    /// CRC32C checksum over the key then value bytes.
    pub checksum: u32,
    /// Flags byte; bit 0 marks a tombstone.
    pub flags: u8,
}

/// The 24 bytes a data header serializes to; the reserved region is written
/// as zeroes.
pub open spec fn spec_data_header_bytes(h: DataChunkHeader) -> Seq<u8> {
    h.magic@ + spec_u16_to_le_bytes(h.key_len) + spec_u32_to_le_bytes(h.value_len)
        + spec_u32_to_le_bytes(h.checksum) + seq![h.flags] + Seq::new(9, |i: int| 0u8)
}

impl DataChunkHeader {
    /// Create a header carrying the magic constant and the given fields.
    pub fn new(key_len: u16, value_len: u32, checksum: u32, flags: u8) -> (h: DataChunkHeader)
        ensures
            h.magic@ == magic_seq(),
            h.key_len == key_len,
            h.value_len == value_len,
            h.checksum == checksum,
            h.flags == flags,
    {
        let h = DataChunkHeader {
            magic: [MAGIC_BYTE_0, MAGIC_BYTE_1, MAGIC_BYTE_2, MAGIC_BYTE_3],
            key_len,
            value_len,
            checksum,
            flags,
        };
        proof {
            assert(h.magic@ =~= magic_seq());
        }
        h
    }

    /// Serialize the header into its 24-byte on-disk form.
    pub fn to_bytes(&self) -> (r: Vec<u8>)
        ensures
            r@ == spec_data_header_bytes(*self),
            r@.len() == DATA_HEADER_SIZE,
    {
        let mut buf: Vec<u8> = Vec::new();
        buf.push(self.magic[0]);
        buf.push(self.magic[1]);
        buf.push(self.magic[2]);
        buf.push(self.magic[3]);
        let mut kl = u16_to_le_bytes(self.key_len);
        buf.append(&mut kl);
        let mut vl = u32_to_le_bytes(self.value_len);
        buf.append(&mut vl);
        let mut cs = u32_to_le_bytes(self.checksum);
        buf.append(&mut cs);
        buf.push(self.flags);
        let mut i: usize = 0;
        let ghost head = buf@;
        while i < 9
            invariant
                i <= 9,
                buf@ == head + Seq::new(i as nat, |j: int| 0u8),
            decreases 9 - i,
        {
            buf.push(0);
            i = i + 1;
            proof {
                assert(head + Seq::new((i - 1) as nat, |j: int| 0u8) + seq![0u8] =~= head
                    + Seq::new(i as nat, |j: int| 0u8));
            }
        }
        proof {
            assert(buf@ =~= spec_data_header_bytes(*self));
        }
        buf
    }

    /// Parse a data header from its first 24 bytes.
    pub fn from_bytes(bytes: &[u8]) -> (h: DataChunkHeader)
        requires
            bytes@.len() >= DATA_HEADER_SIZE,
        ensures
            h.magic@ == bytes@.subrange(0, 4),
            h.key_len == spec_u16_from_le_bytes(bytes@.subrange(4, 6)),
            h.value_len == spec_u32_from_le_bytes(bytes@.subrange(6, 10)),
            h.checksum == spec_u32_from_le_bytes(bytes@.subrange(10, 14)),
            h.flags == bytes@[14],
    {
        let magic = [bytes[0], bytes[1], bytes[2], bytes[3]];
        let key_len = u16_from_le_bytes(&bytes[4..6]);
        let value_len = u32_from_le_bytes(&bytes[6..10]);
        let checksum = u32_from_le_bytes(&bytes[10..14]);
        let h = DataChunkHeader { magic, key_len, value_len, checksum, flags: bytes[14] };
        proof {
            assert(h.magic@ =~= bytes@.subrange(0, 4));
        }
        h
    }

    /// Whether this header marks a tombstone.
    pub fn is_tombstone(&self) -> (r: bool)
        ensures
            r == spec_is_tombstone(self.flags),
    {
        (self.flags & FLAG_TOMBSTONE) != 0
    }
}

/// A record read from a data file.
#[derive(Debug, Clone)]
pub struct DataEntry {
    /// The key bytes.
    pub key: Vec<u8>,
    /// The value bytes; empty for tombstones.
    pub value: Vec<u8>,
    /// Byte offset of the record's header within its file.
    pub offset: u64,
    /// Whether the record is a tombstone.
    pub is_tombstone: bool,
}

/// A data record as the scan sees it.
pub ghost struct DataRecView {
    /// The key bytes.
    pub key: Seq<u8>,
    /// The value bytes; empty for tombstones.
    pub value: Seq<u8>,
    /// Whether the record is a tombstone.
    pub tombstone: bool,
    /// Byte offset of the record's header within its file.
    pub offset: int,
}

/// The view of a parsed entry.
pub open spec fn data_entry_view(e: DataEntry) -> DataRecView {
    DataRecView { key: e.key@, value: e.value@, tombstone: e.is_tombstone, offset: e.offset as int }
}

/// The views of a sequence of parsed entries.
pub open spec fn data_entries_view(s: Seq<DataEntry>) -> Seq<DataRecView> {
    s.map_values(|e: DataEntry| data_entry_view(e))
}

/// The complete on-disk bytes of one data record.
pub open spec fn spec_data_record(key: Seq<u8>, value: Seq<u8>, tombstone: bool) -> Seq<u8>
    recommends
        key.len() <= MAX_KEY_SIZE,
        value.len() <= MAX_VALUE_SIZE,
        tombstone ==> value.len() == 0,
{
    magic_seq() + spec_u16_to_le_bytes(key.len() as u16) + spec_u32_to_le_bytes(value.len() as u32)
        + spec_u32_to_le_bytes(crc32c_of(key + value)) + seq![
        if tombstone {
            FLAG_TOMBSTONE
        } else {
            0u8
        },
    ] + Seq::new(9, |i: int| 0u8) + key + value
}

/// The key length a data slice's header claims.
pub open spec fn data_slice_key_len(d: Seq<u8>) -> int
    recommends
        d.len() >= 6,
{
    spec_u16_from_le_bytes(d.subrange(4, 6)) as int
}

/// The value length a data slice's header claims.
pub open spec fn data_slice_value_len(d: Seq<u8>) -> int
    recommends
        d.len() >= 10,
{
    spec_u32_from_le_bytes(d.subrange(6, 10)) as int
}

/// The checksum a data slice's header claims.
pub open spec fn data_slice_checksum(d: Seq<u8>) -> u32
    recommends
        d.len() >= 14,
{
    spec_u32_from_le_bytes(d.subrange(10, 14))
}

/// The flags byte of a data slice's header.
pub open spec fn data_slice_flags(d: Seq<u8>) -> u8
    recommends
        d.len() >= 15,
{
    d[14]
}

/// Total bytes the record at the head of `d` spans.
pub open spec fn data_slice_total(d: Seq<u8>) -> int {
    24 + data_slice_key_len(d) + data_slice_value_len(d)
}

/// The key bytes of the record at the head of `d`.
pub open spec fn data_slice_key(d: Seq<u8>) -> Seq<u8> {
    d.subrange(24, 24 + data_slice_key_len(d))
}

/// The value bytes of the record at the head of `d`.
pub open spec fn data_slice_value(d: Seq<u8>) -> Seq<u8> {
    d.subrange(24 + data_slice_key_len(d), data_slice_total(d))
}

/// Whether the lengths the header claims are within the caps.
pub open spec fn data_slice_lens_ok(d: Seq<u8>) -> bool {
    data_slice_key_len(d) <= MAX_KEY_SIZE && data_slice_value_len(d) <= MAX_VALUE_SIZE
}

/// Whether a byte slice starts with one complete, checksummed data record
/// (possibly with trailing bytes beyond it).
pub open spec fn data_slice_ok(d: Seq<u8>) -> bool {
    &&& d.len() >= 24
    &&& d.subrange(0, 4) == magic_seq()
    &&& data_slice_lens_ok(d)
    &&& data_slice_total(d) <= d.len()
    &&& crc32c_of(data_slice_key(d) + data_slice_value(d)) == data_slice_checksum(d)
}

/// The record a sound data slice starts with, at the given file offset.
pub open spec fn data_rec_of(d: Seq<u8>, base: int) -> DataRecView
    recommends
        data_slice_ok(d),
{
    DataRecView {
        key: data_slice_key(d),
        value: data_slice_value(d),
        tombstone: spec_is_tombstone(data_slice_flags(d)),
        offset: base,
    }
}

/// Serialize a key-value pair or tombstone into one data record. For a
/// tombstone the value written is empty whatever was passed, as the writer
/// does. Oversized keys and values are rejected before any allocation.
pub fn encode_data_record(key: &[u8], value: &[u8], tombstone: bool) -> (r: Result<
    Vec<u8>,
    ClawError,
>)
    ensures
        key@.len() > MAX_KEY_SIZE ==> (r matches Err(ClawError::OversizedEntry {
            entry_size,
            max_size,
            component,
        }) && entry_size == key@.len() && max_size == MAX_KEY_SIZE && component@ == "key"@),
        key@.len() <= MAX_KEY_SIZE && value@.len() > MAX_VALUE_SIZE ==> (r matches Err(
            ClawError::OversizedEntry { entry_size, max_size, component },
        ) && entry_size == value@.len() && max_size == MAX_VALUE_SIZE && component@ == "value"@),
        key@.len() <= MAX_KEY_SIZE && value@.len() <= MAX_VALUE_SIZE ==> (r matches Ok(b) && b@
            == spec_data_record(
            key@,
            if tombstone {
                Seq::<u8>::empty()
            } else {
                value@
            },
            tombstone,
        )),
{
    if key.len() > MAX_KEY_SIZE {
        return Err(ClawError::OversizedEntry {
            entry_size: key.len() as u64,
            max_size: MAX_KEY_SIZE as u64,
            component: "key".to_owned(),
        });
    }
    if value.len() > MAX_VALUE_SIZE {
        return Err(ClawError::OversizedEntry {
            entry_size: value.len() as u64,
            max_size: MAX_VALUE_SIZE as u64,
            component: "value".to_owned(),
        });
    }

    let empty: Vec<u8> = Vec::new();
    let actual_value: &[u8] = if tombstone {
        empty.as_slice()
    } else {
        value
    };

    let mut payload: Vec<u8> = Vec::new();
    push_bytes(&mut payload, key);
    push_bytes(&mut payload, actual_value);
    let checksum = crc32c_sum(payload.as_slice());
    proof {
        assert(payload@ == key@ + actual_value@);
    }

    let flags: u8 = if tombstone {
        FLAG_TOMBSTONE
    } else {
        0
    };
    let header = DataChunkHeader::new(key.len() as u16, actual_value.len() as u32, checksum, flags);
    let mut buf = header.to_bytes();
    push_bytes(&mut buf, key);
    push_bytes(&mut buf, actual_value);
    proof {
        assert(buf@ =~= spec_data_record(key@, actual_value@, tombstone));
    }
    Ok(buf)
}

/// Encoding then decoding a data record yields the key, value and
/// tombstone flag back: the serialized bytes form one sound data slice
/// whose parsed fields equal the inputs.
pub proof fn lemma_data_record_round_trip(key: Seq<u8>, value: Seq<u8>, tombstone: bool)
    requires
        key.len() <= MAX_KEY_SIZE,
        value.len() <= MAX_VALUE_SIZE,
    ensures
        ({
            let d = spec_data_record(key, value, tombstone);
            &&& data_slice_ok(d)
            &&& d.len() == 24 + key.len() + value.len()
            &&& data_slice_total(d) == d.len()
            &&& data_slice_key(d) == key
            &&& data_slice_value(d) == value
            &&& spec_is_tombstone(data_slice_flags(d)) == tombstone
        }),
{
    lemma_auto_spec_u16_to_from_le_bytes();
    lemma_auto_spec_u32_to_from_le_bytes();
    let d = spec_data_record(key, value, tombstone);
    assert(d.len() == 24 + key.len() + value.len());
    assert(d.subrange(0, 4) =~= magic_seq());
    assert(d.subrange(4, 6) =~= spec_u16_to_le_bytes(key.len() as u16));
    assert(data_slice_key_len(d) == key.len());
    assert(d.subrange(6, 10) =~= spec_u32_to_le_bytes(value.len() as u32));
    assert(data_slice_value_len(d) == value.len());
    assert(d.subrange(10, 14) =~= spec_u32_to_le_bytes(crc32c_of(key + value)));
    assert(data_slice_checksum(d) == crc32c_of(key + value));
    assert(data_slice_key(d) =~= key);
    assert(data_slice_value(d) =~= value);
    assert(data_slice_flags(d) == (if tombstone {
        FLAG_TOMBSTONE
    } else {
        0u8
    }));
    assert(spec_is_tombstone(1u8) == true) by (bit_vector);
    assert(spec_is_tombstone(0u8) == false) by (bit_vector);
}

/// The records a scan yields from a buffer whose first byte sits at file
/// offset `base`.
///
/// At each step: too few bytes for a header end the scan; a missing magic
/// constant or an implausible length causes a forward scan to the next
/// magic; a record that runs past the end is truncated and ends the scan; a
/// record with a good checksum is yielded, one with a bad checksum is
/// dropped, and the scan continues after the record either way.
pub open spec fn spec_scan(buf: Seq<u8>, base: int) -> Seq<DataRecView>
    decreases buf.len(),
    via spec_scan_decreases
{
    if buf.len() < 24 {
        Seq::empty()
    } else if buf.subrange(0, 4) != magic_seq() {
        match first_magic_from(buf, 1) {
            Some(i) => spec_scan(buf.skip(i), base + i),
            None => Seq::empty(),
        }
    } else if !data_slice_lens_ok(buf) {
        match first_magic_from(buf, 1) {
            Some(i) => spec_scan(buf.skip(i), base + i),
            None => Seq::empty(),
        }
    } else if data_slice_total(buf) > buf.len() {
        Seq::empty()
    } else if crc32c_of(data_slice_key(buf) + data_slice_value(buf)) == data_slice_checksum(buf) {
        seq![data_rec_of(buf, base)] + spec_scan(
            buf.skip(data_slice_total(buf)),
            base + data_slice_total(buf),
        )
    } else {
        spec_scan(buf.skip(data_slice_total(buf)), base + data_slice_total(buf))
    }
}

#[via_fn]
proof fn spec_scan_decreases(buf: Seq<u8>, base: int) {
    lemma_first_magic_from(buf, 1);
}

/// Scan all records from the bytes of one data file, live and tombstones
/// alike, in file order. Used during compaction.
pub fn scan_records(buffer: &[u8]) -> (r: Vec<DataEntry>)
    ensures
        data_entries_view(r@) == spec_scan(buffer@, 0),
{
    let ghost full = spec_scan(buffer@, 0);
    let mut entries: Vec<DataEntry> = Vec::new();
    let ghost mut done: Seq<DataRecView> = Seq::empty();
    let mut offset: usize = 0;
    proof {
        assert(buffer@.skip(0) =~= buffer@);
    }

    loop
        invariant
            offset <= buffer@.len(),
            full == done + spec_scan(buffer@.skip(offset as int), offset as int),
            data_entries_view(entries@) == done,
        ensures
            full == done,
            data_entries_view(entries@) == done,
        decreases buffer@.len() - offset,
    {
        let ghost suffix = buffer@.skip(offset as int);
        if buffer.len() - offset < DATA_HEADER_SIZE {
            proof {
                assert(spec_scan(suffix, offset as int) =~= Seq::<DataRecView>::empty());
                assert(full =~= done);
            }
            break;
        }

        let header = DataChunkHeader::from_bytes(&buffer[offset..offset + DATA_HEADER_SIZE]);
        proof {
            let hb = buffer@.subrange(offset as int, offset + 24);
            assert(hb.subrange(0, 4) =~= suffix.subrange(0, 4));
            assert(hb.subrange(4, 6) =~= suffix.subrange(4, 6));
            assert(hb.subrange(6, 10) =~= suffix.subrange(6, 10));
            assert(hb.subrange(10, 14) =~= suffix.subrange(10, 14));
            assert(hb[14] == suffix[14]);
        }

        if !(header.magic[0] == MAGIC_BYTE_0 && header.magic[1] == MAGIC_BYTE_1
            && header.magic[2] == MAGIC_BYTE_2 && header.magic[3] == MAGIC_BYTE_3) {
            proof {
                assert(suffix.subrange(0, 4) != magic_seq()) by {
                    if suffix.subrange(0, 4) == magic_seq() {
                        assert(header.magic@[0] == MAGIC_BYTE_0);
                        assert(header.magic@[1] == MAGIC_BYTE_1);
                        assert(header.magic@[2] == MAGIC_BYTE_2);
                        assert(header.magic@[3] == MAGIC_BYTE_3);
                    }
                }
            }
            match find_next_magic(buffer, offset + 1) {
                Some(next) => {
                    proof {
                        lemma_first_magic_from(buffer@, offset + 1);
                        lemma_first_magic_from_shift(buffer@, offset as int, 1);
                        assert(buffer@.skip(offset as int).skip(next - offset)
                            =~= buffer@.skip(next as int));
                    }
                    offset = next;
                },
                None => {
                    proof {
                        lemma_first_magic_from_shift(buffer@, offset as int, 1);
                        assert(spec_scan(suffix, offset as int) =~= Seq::<DataRecView>::empty());
                        assert(full =~= done);
                    }
                    break;
                },
            }
            continue;
        }
        proof {
            assert(suffix.subrange(0, 4) =~= magic_seq());
        }

        if header.key_len as usize > MAX_KEY_SIZE || header.value_len as usize > MAX_VALUE_SIZE {
            proof {
                assert(!data_slice_lens_ok(suffix));
            }
            match find_next_magic(buffer, offset + 1) {
                Some(next) => {
                    proof {
                        lemma_first_magic_from(buffer@, offset + 1);
                        lemma_first_magic_from_shift(buffer@, offset as int, 1);
                        assert(buffer@.skip(offset as int).skip(next - offset)
                            =~= buffer@.skip(next as int));
                    }
                    offset = next;
                },
                None => {
                    proof {
                        lemma_first_magic_from_shift(buffer@, offset as int, 1);
                        assert(spec_scan(suffix, offset as int) =~= Seq::<DataRecView>::empty());
                        assert(full =~= done);
                    }
                    break;
                },
            }
            continue;
        }
        proof {
            assert(data_slice_lens_ok(suffix));
        }

        let tail_len = buffer.len() - offset;
        let total64: u64 = DATA_HEADER_SIZE as u64 + header.key_len as u64 + header.value_len as u64;
        if (tail_len as u64) < total64 {
            proof {
                assert(data_slice_total(suffix) > suffix.len());
                assert(spec_scan(suffix, offset as int) =~= Seq::<DataRecView>::empty());
                assert(full =~= done);
            }
            break;
        }
        let key_len = header.key_len as usize;
        let value_len = header.value_len as usize;
        let total = DATA_HEADER_SIZE + key_len + value_len;

        let key = slice_to_vec(&buffer[offset + DATA_HEADER_SIZE..offset + DATA_HEADER_SIZE
            + key_len]);
        let value = slice_to_vec(&buffer[offset + DATA_HEADER_SIZE + key_len..offset + total]);
        proof {
            assert(key@ =~= data_slice_key(suffix));
            assert(value@ =~= data_slice_value(suffix));
        }

        let computed = crc32c_sum(&buffer[offset + DATA_HEADER_SIZE..offset + total]);
        proof {
            assert(buffer@.subrange(offset + 24, offset + total) =~= data_slice_key(suffix)
                + data_slice_value(suffix));
        }

        if computed == header.checksum {
            let entry = DataEntry {
                key,
                value,
                offset: offset as u64,
                is_tombstone: header.is_tombstone(),
            };
            proof {
                assert(spec_scan(suffix, offset as int) == seq![data_rec_of(suffix, offset as int)]
                    + spec_scan(
                    suffix.skip(data_slice_total(suffix)),
                    offset + data_slice_total(suffix),
                ));
                assert(suffix.skip(data_slice_total(suffix)) =~= buffer@.skip(offset + total));
                assert(data_entry_view(entry) == data_rec_of(suffix, offset as int));
                done = done + seq![data_rec_of(suffix, offset as int)];
            }
            entries.push(entry);
            proof {
                assert(data_entries_view(entries@) =~= done);
            }
            offset = offset + total;
        } else {
            proof {
                assert(spec_scan(suffix, offset as int) == spec_scan(
                    suffix.skip(data_slice_total(suffix)),
                    offset + data_slice_total(suffix),
                ));
                assert(suffix.skip(data_slice_total(suffix)) =~= buffer@.skip(offset + total));
            }
            offset = offset + total;
        }
    }

    proof {
        assert(data_entries_view(entries@) == full);
    }
    entries
}

/// Read the single record that starts at `offset` in a data file's bytes.
/// A tombstone reads back as nothing; a live record reads back as the
/// entry. Each defect is reported as its own error.
pub fn read_entry_at(buffer: &[u8], offset: u64) -> (r: Result<Option<DataEntry>, ClawError>)
    ensures
        ({
            let d = if offset <= buffer@.len() {
                buffer@.skip(offset as int)
            } else {
                Seq::<u8>::empty()
            };
            &&& d.len() < 24 ==> (r matches Err(ClawError::TornWrite { .. }))
            &&& d.len() >= 24 && d.subrange(0, 4) != magic_seq() ==> (r matches Err(
                ClawError::NoMagicFound { offset: o, found_bytes, .. },
            ) && o == offset && found_bytes@ == d.subrange(0, 4))
            &&& d.len() >= 24 && d.subrange(0, 4) == magic_seq() && !data_slice_lens_ok(d) ==> (
            r matches Err(ClawError::WalCorrupted { offset: o, .. }) && o == offset)
            &&& d.len() >= 24 && d.subrange(0, 4) == magic_seq() && data_slice_lens_ok(d)
                && data_slice_total(d) > d.len() ==> (r matches Err(ClawError::TornWrite { .. }))
            &&& d.len() >= 24 && d.subrange(0, 4) == magic_seq() && data_slice_lens_ok(d)
                && data_slice_total(d) <= d.len() && crc32c_of(
                data_slice_key(d) + data_slice_value(d),
            ) != data_slice_checksum(d) ==> (r matches Err(ClawError::ChecksumMismatch {
                expected,
                actual,
                offset: o,
                ..
            }) && expected == data_slice_checksum(d) && actual == crc32c_of(
                data_slice_key(d) + data_slice_value(d),
            ) && o == offset)
            &&& data_slice_ok(d) && spec_is_tombstone(data_slice_flags(d)) ==> r == Result::<
                Option<DataEntry>,
                ClawError,
            >::Ok(None)
            &&& data_slice_ok(d) && !spec_is_tombstone(data_slice_flags(d)) ==> (r matches Ok(o)
                && o matches Some(e) && e.key@ == data_slice_key(d) && e.value@
                == data_slice_value(d) && !e.is_tombstone && e.offset == offset)
        }),
{
    let n = buffer.len();
    if offset >= n as u64 || n as u64 - offset < DATA_HEADER_SIZE as u64 {
        proof {
            if offset <= buffer@.len() {
                assert(buffer@.skip(offset as int).len() < 24);
            }
        }
        return Err(ClawError::TornWrite {
            path: "<buffer>".to_owned(),
            expected_size: DATA_HEADER_SIZE as u32,
            available_bytes: if offset >= n as u64 {
                0
            } else {
                n as u64 - offset
            },
            offset,
        });
    }
    let off = offset as usize;
    let ghost d = buffer@.skip(off as int);

    let header = DataChunkHeader::from_bytes(&buffer[off..off + DATA_HEADER_SIZE]);
    proof {
        let hb = buffer@.subrange(off as int, off + 24);
        assert(hb.subrange(0, 4) =~= d.subrange(0, 4));
        assert(hb.subrange(4, 6) =~= d.subrange(4, 6));
        assert(hb.subrange(6, 10) =~= d.subrange(6, 10));
        assert(hb.subrange(10, 14) =~= d.subrange(10, 14));
        assert(hb[14] == d[14]);
    }

    if !(header.magic[0] == MAGIC_BYTE_0 && header.magic[1] == MAGIC_BYTE_1
        && header.magic[2] == MAGIC_BYTE_2 && header.magic[3] == MAGIC_BYTE_3) {
        proof {
            if d.subrange(0, 4) == magic_seq() {
                assert(header.magic@[0] == MAGIC_BYTE_0);
                assert(header.magic@[1] == MAGIC_BYTE_1);
                assert(header.magic@[2] == MAGIC_BYTE_2);
                assert(header.magic@[3] == MAGIC_BYTE_3);
            }
        }
        return Err(ClawError::NoMagicFound {
            path: "<buffer>".to_owned(),
            offset,
            found_bytes: header.magic,
        });
    }
    proof {
        assert(d.subrange(0, 4) =~= magic_seq());
    }

    if header.key_len as usize > MAX_KEY_SIZE || header.value_len as usize > MAX_VALUE_SIZE {
        return Err(ClawError::WalCorrupted {
            path: "<buffer>".to_owned(),
            offset,
            reason: "length field exceeds the configured maximum".to_owned(),
        });
    }

    let tail_len = n - off;
    let total64: u64 = DATA_HEADER_SIZE as u64 + header.key_len as u64 + header.value_len as u64;
    if (tail_len as u64) < total64 {
        return Err(ClawError::TornWrite {
            path: "<buffer>".to_owned(),
            expected_size: header.value_len,
            available_bytes: tail_len as u64,
            offset,
        });
    }
    let key_len = header.key_len as usize;
    let value_len = header.value_len as usize;
    let total = DATA_HEADER_SIZE + key_len + value_len;

    let key = slice_to_vec(&buffer[off + DATA_HEADER_SIZE..off + DATA_HEADER_SIZE + key_len]);
    let value = slice_to_vec(&buffer[off + DATA_HEADER_SIZE + key_len..off + total]);
    proof {
        assert(key@ =~= data_slice_key(d));
        assert(value@ =~= data_slice_value(d));
    }

    let computed = crc32c_sum(&buffer[off + DATA_HEADER_SIZE..off + total]);
    proof {
        assert(buffer@.subrange(off + 24, off + total) =~= data_slice_key(d) + data_slice_value(
            d,
        ));
    }
    if computed != header.checksum {
        return Err(ClawError::ChecksumMismatch {
            path: "<buffer>".to_owned(),
            expected: header.checksum,
            actual: computed,
            offset,
        });
    }

    if header.is_tombstone() {
        return Ok(None);
    }

    Ok(Some(DataEntry { key, value, offset, is_tombstone: false }))
}

/// The name of the data file with the given sequence number, as bytes:
/// `data-` then sixteen hex digits then `.claw`.
pub open spec fn spec_data_file_name(sequence: u64) -> Seq<u8> {
    data_name_prefix() + crate::wal::spec_hex16(sequence) + crate::wal::claw_suffix()
}

/// The bytes of the `data-` file-name prefix.
pub open spec fn data_name_prefix() -> Seq<u8> {
    seq![100u8, 97u8, 116u8, 97u8, 45u8]
}

/// Build the data file name for a sequence number: `data-` followed by
/// sixteen lower-case hex digits and `.claw`.
pub fn data_file_name(sequence: u64) -> (r: Vec<u8>)
    ensures
        r@ == spec_data_file_name(sequence),
{
    let mut out: Vec<u8> = Vec::new();
    out.push(100);
    out.push(97);
    out.push(116);
    out.push(97);
    out.push(45);
    proof {
        assert(out@ =~= data_name_prefix());
    }
    let mut digits = crate::wal::hex16(sequence);
    out.append(&mut digits);
    out.push(46);
    out.push(99);
    out.push(108);
    out.push(97);
    out.push(119);
    proof {
        assert(out@ =~= spec_data_file_name(sequence));
    }
    out
}

/// Whether appending a record of `entry_len` bytes to a data file of
/// `current_size` bytes must rotate to a fresh file first.
pub fn data_should_rotate(current_size: u64, entry_len: u64, threshold: u64) -> (r: bool)
    ensures
        r == (current_size + entry_len > threshold),
{
    crate::wal::wal_should_rotate(current_size, entry_len, threshold)
}

/// Writer/reader round trip: a record appended at the end of a file reads
/// back from the offset the writer reported, whatever was before it and
/// whatever follows it. The bytes at that offset form one sound record
/// slice holding exactly the key and value written.
pub proof fn lemma_write_read_round_trip(pre: Seq<u8>, key: Seq<u8>, value: Seq<u8>, tail: Seq<u8>)
    requires
        key.len() <= MAX_KEY_SIZE,
        value.len() <= MAX_VALUE_SIZE,
    ensures
        ({
            let buf = pre + spec_data_record(key, value, false) + tail;
            let d = buf.skip(pre.len() as int);
            &&& data_slice_ok(d)
            &&& data_slice_key(d) == key
            &&& data_slice_value(d) == value
            &&& !spec_is_tombstone(data_slice_flags(d))
        }),
{
    lemma_data_record_round_trip(key, value, false);
    let rec = spec_data_record(key, value, false);
    let buf = pre + rec + tail;
    let d = buf.skip(pre.len() as int);
    assert(d =~= rec + tail);
    assert(d.subrange(0, 4) =~= rec.subrange(0, 4));
    assert(d.subrange(4, 6) =~= rec.subrange(4, 6));
    assert(d.subrange(6, 10) =~= rec.subrange(6, 10));
    assert(d.subrange(10, 14) =~= rec.subrange(10, 14));
    assert(d[14] == rec[14]);
    assert(data_slice_key(d) =~= data_slice_key(rec));
    assert(data_slice_value(d) =~= data_slice_value(rec));
    assert(spec_is_tombstone(0u8) == false) by (bit_vector);
}

/// Every record a scan yields has its key and value within the caps.
pub proof fn lemma_scanned_records_bounded(buf: Seq<u8>, base: int)
    ensures
        forall|i: int|
            0 <= i < spec_scan(buf, base).len() ==> {
                let r = #[trigger] spec_scan(buf, base)[i];
                &&& r.key.len() <= MAX_KEY_SIZE
                &&& r.value.len() <= MAX_VALUE_SIZE
            },
    decreases buf.len(),
{
    lemma_first_magic_from(buf, 1);
    if buf.len() < 24 {
    } else if buf.subrange(0, 4) != magic_seq() {
        match first_magic_from(buf, 1) {
            Some(i) => {
                lemma_scanned_records_bounded(buf.skip(i), base + i);
                assert(forall|x: int|
                    0 <= x < spec_scan(buf, base).len() ==> #[trigger] spec_scan(buf, base)[x]
                        == spec_scan(buf.skip(i), base + i)[x]);
            },
            None => {},
        }
    } else if !data_slice_lens_ok(buf) {
        match first_magic_from(buf, 1) {
            Some(i) => {
                lemma_scanned_records_bounded(buf.skip(i), base + i);
                assert(forall|x: int|
                    0 <= x < spec_scan(buf, base).len() ==> #[trigger] spec_scan(buf, base)[x]
                        == spec_scan(buf.skip(i), base + i)[x]);
            },
            None => {},
        }
    } else if data_slice_total(buf) > buf.len() {
    } else if crc32c_of(data_slice_key(buf) + data_slice_value(buf)) == data_slice_checksum(buf) {
        lemma_scanned_records_bounded(
            buf.skip(data_slice_total(buf)),
            base + data_slice_total(buf),
        );
        let rest = spec_scan(buf.skip(data_slice_total(buf)), base + data_slice_total(buf));
        assert(spec_scan(buf, base)[0] == data_rec_of(buf, base));
        assert(data_rec_of(buf, base).key.len() == data_slice_key_len(buf));
        assert(data_rec_of(buf, base).value.len() == data_slice_value_len(buf));
        assert forall|i: int|
            0 <= i < spec_scan(buf, base).len() implies {
            let r = #[trigger] spec_scan(buf, base)[i];
            &&& r.key.len() <= MAX_KEY_SIZE
            &&& r.value.len() <= MAX_VALUE_SIZE
        } by {
            if i >= 1 {
                assert(spec_scan(buf, base)[i] == rest[i - 1]);
            }
        }
    } else {
        lemma_scanned_records_bounded(
            buf.skip(data_slice_total(buf)),
            base + data_slice_total(buf),
        );
        assert(forall|x: int|
            0 <= x < spec_scan(buf, base).len() ==> #[trigger] spec_scan(buf, base)[x]
                == spec_scan(buf.skip(data_slice_total(buf)), base + data_slice_total(buf))[x]);
    }
}

/// Scanning a well-formed record followed by anything yields that record
/// and then whatever the remainder yields, with offsets advanced past it.
pub proof fn lemma_scan_one_record(
    key: Seq<u8>,
    value: Seq<u8>,
    tombstone: bool,
    rest: Seq<u8>,
    base: int,
)
    requires
        key.len() <= MAX_KEY_SIZE,
        value.len() <= MAX_VALUE_SIZE,
    ensures
        ({
            let d = spec_data_record(key, value, tombstone);
            spec_scan(d + rest, base) == seq![
                DataRecView { key, value, tombstone, offset: base },
            ] + spec_scan(rest, base + d.len())
        }),
{
    lemma_data_record_round_trip(key, value, tombstone);
    let d = spec_data_record(key, value, tombstone);
    let whole = d + rest;
    assert(whole.subrange(0, 4) =~= d.subrange(0, 4));
    assert(whole.subrange(4, 6) =~= d.subrange(4, 6));
    assert(whole.subrange(6, 10) =~= d.subrange(6, 10));
    assert(whole.subrange(10, 14) =~= d.subrange(10, 14));
    assert(whole[14] == d[14]);
    assert(data_slice_total(whole) == d.len());
    assert(data_slice_key(whole) =~= data_slice_key(d));
    assert(data_slice_value(whole) =~= data_slice_value(d));
    assert(whole.skip(data_slice_total(whole)) =~= rest);
    assert(data_rec_of(whole, base) == DataRecView { key, value, tombstone, offset: base });
}

} // verus!
