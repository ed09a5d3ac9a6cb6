//! Write-ahead log recovery and writer bookkeeping.
//!
//! Recovery walks a log file's bytes from the front: parse a header, check
//! the payload checksum, yield the record, and advance. Corrupt stretches are
//! skipped by scanning forward for the next magic constant; a torn record at
//! the tail ends the file's recovery without error — that is the expected
//! crash signature.
//!
//! The writer side here is the pure bookkeeping: the rotation rule, the file
//! naming scheme, and sequence-number recovery from file names. Appending to
//! the actual file and forcing it durable is the embedding program's part.

use vstd::bytes::u32_from_le_bytes;
use vstd::prelude::*;

use crate::format::{
    Operation, WalEntry, crc32c_of, deserialize_entry, log_slice_checksum, log_slice_length,
    log_slice_ok, log_slice_payload, magic_seq, payload_key, payload_op, payload_value,
    payload_wf, spec_log_record, HEADER_SIZE, MAGIC_BYTE_0, MAGIC_BYTE_1, MAGIC_BYTE_2,
    MAGIC_BYTE_3, MAX_KEY_SIZE, MAX_VALUE_SIZE,
};

verus! {

/// The smallest index `i >= start` at which the magic constant occurs in
/// `buf`, if any.
pub open spec fn first_magic_from(buf: Seq<u8>, start: int) -> Option<int>
    decreases buf.len() - start,
    when 0 <= start
{
    if start + 4 > buf.len() {
        None
    } else if buf.subrange(start, start + 4) == magic_seq() {
        Some(start)
    } else {
        first_magic_from(buf, start + 1)
    }
}

/// What `first_magic_from` returns is a magic position, is at or after
/// `start`, and nothing earlier matches; a `None` means no position at or
/// after `start` matches.
pub proof fn lemma_first_magic_from(buf: Seq<u8>, start: int)
    requires
        0 <= start,
    ensures
        match first_magic_from(buf, start) {
            Some(i) => {
                &&& start <= i
                &&& i + 4 <= buf.len()
                &&& buf.subrange(i, i + 4) == magic_seq()
                &&& forall|j: int|
                    start <= j < i && j + 4 <= buf.len() ==> #[trigger] buf.subrange(j, j + 4)
                        != magic_seq()
            },
            None => forall|j: int|
                start <= j && j + 4 <= buf.len() ==> #[trigger] buf.subrange(j, j + 4)
                    != magic_seq(),
        },
    decreases buf.len() - start,
{
    if start + 4 > buf.len() {
    } else if buf.subrange(start, start + 4) == magic_seq() {
    } else {
        lemma_first_magic_from(buf, start + 1);
    }
}

/// Scanning a suffix finds the same magic positions, shifted by the cut.
pub proof fn lemma_first_magic_from_shift(buf: Seq<u8>, off: int, start: int)
    requires
        0 <= off,
        0 <= start,
        off <= buf.len(),
    ensures
        match first_magic_from(buf, off + start) {
            Some(i) => first_magic_from(buf.skip(off), start) == Some(i - off),
            None => first_magic_from(buf.skip(off), start) is None,
        },
    decreases buf.len() - off - start,
{
    let tail = buf.skip(off);
    assert(tail.len() == buf.len() - off);
    if off + start + 4 > buf.len() {
        assert(start + 4 > tail.len());
    } else {
        assert(tail.subrange(start, start + 4) =~= buf.subrange(off + start, off + start + 4));
        if buf.subrange(off + start, off + start + 4) == magic_seq() {
        } else {
            lemma_first_magic_from_shift(buf, off, start + 1);
        }
    }
}

/// Scan forward in a buffer for the next occurrence of the magic bytes.
/// Used to resynchronize after a corrupt stretch.
pub fn find_next_magic(buffer: &[u8], start: usize) -> (r: Option<usize>)
    ensures
        match r {
            Some(i) => first_magic_from(buffer@, start as int) == Some(i as int),
            None => first_magic_from(buffer@, start as int) is None,
        },
{
    let mut i: usize = start;
    loop
        invariant
            start <= i,
            first_magic_from(buffer@, start as int) == first_magic_from(buffer@, i as int),
        ensures
            match first_magic_from(buffer@, start as int) {
                Some(k) => i + 4 <= buffer@.len() && k == i,
                None => i as int + 4 > buffer@.len(),
            },
        decreases buffer@.len() + 4 - i,
    {
        if buffer.len() < 4 || i > buffer.len() - 4 {
            proof {
                assert(first_magic_from(buffer@, i as int) is None);
            }
            break;
        }
        if buffer[i] == MAGIC_BYTE_0 && buffer[i + 1] == MAGIC_BYTE_1
            && buffer[i + 2] == MAGIC_BYTE_2 && buffer[i + 3] == MAGIC_BYTE_3 {
            proof {
                assert(buffer@.subrange(i as int, i as int + 4) =~= magic_seq());
            }
            break;
        }
        proof {
            assert(buffer@.subrange(i as int, i as int + 4) != magic_seq()) by {
                if buffer@.subrange(i as int, i as int + 4) == magic_seq() {
                    assert(buffer@.subrange(i as int, i as int + 4)[0] == MAGIC_BYTE_0);
                    assert(buffer@.subrange(i as int, i as int + 4)[1] == MAGIC_BYTE_1);
                    assert(buffer@.subrange(i as int, i as int + 4)[2] == MAGIC_BYTE_2);
                    assert(buffer@.subrange(i as int, i as int + 4)[3] == MAGIC_BYTE_3);
                }
            }
        }
        i = i + 1;
    }
    if buffer.len() >= 4 && i <= buffer.len() - 4 {
        Some(i)
    } else {
        None
    }
}

/// A log record as recovery sees it: the parsed fields together with the
/// raw payload bytes they were parsed from.
pub ghost struct LogRecView {
    /// The key bytes.
    pub key: Seq<u8>,
    /// The value bytes.
    pub value: Seq<u8>,
    /// The operation.
    pub op: Operation,
    /// The payload length the header claimed.
    pub length: int,
    /// The checksum the header claimed.
    pub checksum: u32,
    /// The raw payload bytes.
    pub payload: Seq<u8>,
}

/// A mutation, abstracted from any record framing.
pub ghost struct OpView {
    /// The key bytes.
    pub key: Seq<u8>,
    /// The value bytes; empty for a delete.
    pub value: Seq<u8>,
    /// Whether the mutation is a put or a delete.
    pub op: Operation,
}

/// The record a sound record slice denotes.
pub open spec fn log_rec_of(d: Seq<u8>) -> LogRecView
    recommends
        log_slice_ok(d),
{
    let p = log_slice_payload(d);
    LogRecView {
        key: payload_key(p),
        value: payload_value(p),
        op: payload_op(p),
        length: log_slice_length(d),
        checksum: log_slice_checksum(d),
        payload: p,
    }
}

/// The mutation a recovered record carries.
pub open spec fn rec_op_view(r: LogRecView) -> OpView {
    OpView { key: r.key, value: r.value, op: r.op }
}

/// The mutation a parsed entry carries.
pub open spec fn wal_entry_op_view(e: WalEntry) -> OpView {
    OpView { key: e.key@, value: e.value@, op: e.operation }
}

/// The mutations of a sequence of parsed entries, in order.
pub open spec fn entries_op_views(s: Seq<WalEntry>) -> Seq<OpView> {
    s.map_values(|e: WalEntry| wal_entry_op_view(e))
}

/// The mutations of a sequence of recovered records, in order.
pub open spec fn recs_op_views(s: Seq<LogRecView>) -> Seq<OpView> {
    s.map_values(|r: LogRecView| rec_op_view(r))
}

/// The records recovery yields from a buffer, from its first byte on.
///
/// At each step: too few bytes for a header end the scan (a torn or empty
/// tail); a missing magic constant or a record that fails its checks causes
/// a forward scan to the next magic; a header whose payload runs past the
/// end is a torn write and ends the scan; a sound record is yielded and the
/// scan continues right after it.
pub open spec fn spec_recover(buf: Seq<u8>) -> Seq<LogRecView>
    decreases buf.len(),
    via spec_recover_decreases
{
    if buf.len() < 32 {
        Seq::empty()
    } else if buf.subrange(0, 4) != magic_seq() {
        match first_magic_from(buf, 1) {
            Some(i) => spec_recover(buf.skip(i)),
            None => Seq::empty(),
        }
    } else if 32 + log_slice_length(buf) > buf.len() {
        Seq::empty()
    } else if log_slice_ok(buf.subrange(0, 32 + log_slice_length(buf))) {
        seq![log_rec_of(buf.subrange(0, 32 + log_slice_length(buf)))]
            + spec_recover(buf.skip(32 + log_slice_length(buf)))
    } else {
        match first_magic_from(buf, 1) {
            Some(i) => spec_recover(buf.skip(i)),
            None => Seq::empty(),
        }
    }
}

#[via_fn]
proof fn spec_recover_decreases(buf: Seq<u8>) {
    lemma_first_magic_from(buf, 1);
}

/// Whether a parsed entry agrees with a recovered record.
pub open spec fn entry_matches_rec(e: WalEntry, r: LogRecView) -> bool {
    &&& e.key@ == r.key
    &&& e.value@ == r.value
    &&& e.operation == r.op
    &&& e.header.length == r.length
    &&& e.header.checksum == r.checksum
    &&& e.header.magic@ == magic_seq()
}

/// Recover all records from the bytes of one log file.
///
/// Torn tails end the scan silently; corrupt stretches are skipped by
/// scanning forward for the next magic constant. The result is exactly what
/// `spec_recover` describes, in file order.
pub fn recover_from_bytes(buffer: &[u8]) -> (r: Vec<WalEntry>)
    ensures
        r@.len() == spec_recover(buffer@).len(),
        forall|i: int|
            0 <= i < r@.len() ==> entry_matches_rec(#[trigger] r@[i], spec_recover(buffer@)[i]),
        entries_op_views(r@) == recs_op_views(spec_recover(buffer@)),
{
    let ghost full = spec_recover(buffer@);
    let mut entries: Vec<WalEntry> = Vec::new();
    let ghost mut done: Seq<LogRecView> = Seq::empty();
    let mut offset: usize = 0;
    proof {
        assert(buffer@.skip(0) =~= buffer@);
    }

    loop
        invariant
            offset <= buffer@.len(),
            full == done + spec_recover(buffer@.skip(offset as int)),
            entries@.len() == done.len(),
            forall|i: int|
                0 <= i < done.len() ==> entry_matches_rec(#[trigger] entries@[i], done[i]),
        ensures
            full == done + Seq::<LogRecView>::empty(),
            entries@.len() == done.len(),
            forall|i: int|
                0 <= i < done.len() ==> entry_matches_rec(#[trigger] entries@[i], done[i]),
        decreases buffer@.len() - offset,
    {
        let ghost suffix = buffer@.skip(offset as int);
        if buffer.len() - offset < HEADER_SIZE {
            proof {
                assert(suffix.len() < 32);
                assert(spec_recover(suffix) =~= Seq::<LogRecView>::empty());
            }
            break;
        }

        // Check the magic constant at the cursor.
        if !(buffer[offset] == MAGIC_BYTE_0 && buffer[offset + 1] == MAGIC_BYTE_1
            && buffer[offset + 2] == MAGIC_BYTE_2 && buffer[offset + 3] == MAGIC_BYTE_3) {
            proof {
                assert(suffix.subrange(0, 4) != magic_seq()) by {
                    if suffix.subrange(0, 4) == magic_seq() {
                        assert(suffix.subrange(0, 4)[0] == MAGIC_BYTE_0);
                        assert(suffix.subrange(0, 4)[1] == MAGIC_BYTE_1);
                        assert(suffix.subrange(0, 4)[2] == MAGIC_BYTE_2);
                        assert(suffix.subrange(0, 4)[3] == MAGIC_BYTE_3);
                    }
                }
            }
            match find_next_magic(buffer, offset + 1) {
                Some(next) => {
                    proof {
                        lemma_first_magic_from(buffer@, offset + 1);
                        lemma_first_magic_from_shift(buffer@, offset as int, 1);
                        assert(buffer@.skip(offset as int).skip(next - offset)
                            =~= buffer@.skip(next as int));
                    }
                    offset = next;
                },
                None => {
                    proof {
                        lemma_first_magic_from_shift(buffer@, offset as int, 1);
                        assert(spec_recover(suffix) =~= Seq::<LogRecView>::empty());
                    }
                    break;
                },
            }
            continue;
        }
        proof {
            assert(suffix.subrange(0, 4) =~= magic_seq());
        }

        // Read the claimed payload length and check for a torn tail.
        let length = u32_from_le_bytes(&buffer[offset + 4..offset + 8]);
        proof {
            assert(suffix.subrange(4, 8) =~= buffer@.subrange(offset + 4, offset + 8));
            assert(log_slice_length(suffix) == length);
        }
        let tail_len = buffer.len() - offset;
        let total64: u64 = HEADER_SIZE as u64 + length as u64;
        if (tail_len as u64) < total64 {
            proof {
                assert(32 + log_slice_length(suffix) > suffix.len());
                assert(spec_recover(suffix) =~= Seq::<LogRecView>::empty());
            }
            break;
        }
        let total = HEADER_SIZE + length as usize;

        let entry_slice = &buffer[offset..offset + total];
        proof {
            assert(entry_slice@ =~= suffix.subrange(0, 32 + log_slice_length(suffix)));
            assert(entry_slice@.subrange(0, 4) =~= suffix.subrange(0, 4));
            assert(entry_slice@.subrange(4, 8) =~= suffix.subrange(4, 8));
        }
        match deserialize_entry(entry_slice) {
            Ok(e) => {
                proof {
                    let d = entry_slice@;
                    assert(log_slice_ok(d));
                    assert(log_slice_payload(d) =~= d.subrange(32, 32 + log_slice_length(d)));
                    assert(spec_recover(suffix) == seq![log_rec_of(d)] + spec_recover(
                        suffix.skip(32 + log_slice_length(suffix)),
                    ));
                    assert(suffix.skip(32 + log_slice_length(suffix))
                        =~= buffer@.skip(offset + total));
                    assert(entry_matches_rec(e, log_rec_of(d)));
                    done = done + seq![log_rec_of(d)];
                }
                entries.push(e);
                offset = offset + total;
            },
            Err(_) => {
                proof {
                    let d = entry_slice@;
                    assert(!log_slice_ok(d));
                }
                match find_next_magic(buffer, offset + 1) {
                    Some(next) => {
                        proof {
                            lemma_first_magic_from(buffer@, offset + 1);
                            lemma_first_magic_from_shift(buffer@, offset as int, 1);
                            assert(buffer@.skip(offset as int).skip(next - offset)
                                =~= buffer@.skip(next as int));
                        }
                        offset = next;
                    },
                    None => {
                        proof {
                            lemma_first_magic_from_shift(buffer@, offset as int, 1);
                            assert(spec_recover(suffix) =~= Seq::<LogRecView>::empty());
                        }
                        break;
                    },
                }
            },
        }
    }

    proof {
        assert(full =~= done);
        assert(entries_op_views(entries@) =~= recs_op_views(spec_recover(buffer@)));
    }
    entries
}

/// Every record that survives recovery is sound: its magic was present, its
/// payload checksum matches its header, and its fields are exactly what its
/// payload encodes.
pub proof fn lemma_recovered_records_sound(buf: Seq<u8>)
    ensures
        forall|i: int|
            0 <= i < spec_recover(buf).len() ==> {
                let r = #[trigger] spec_recover(buf)[i];
                &&& crc32c_of(r.payload) == r.checksum
                &&& payload_wf(r.payload)
                &&& r.key == payload_key(r.payload)
                &&& r.value == payload_value(r.payload)
                &&& r.op == payload_op(r.payload)
                &&& r.length == r.payload.len()
            },
    decreases buf.len(),
{
    lemma_first_magic_from(buf, 1);
    if buf.len() < 32 {
    } else if buf.subrange(0, 4) != magic_seq() {
        match first_magic_from(buf, 1) {
            Some(i) => lemma_recovered_records_sound(buf.skip(i)),
            None => {},
        }
    } else if 32 + log_slice_length(buf) > buf.len() {
    } else if log_slice_ok(buf.subrange(0, 32 + log_slice_length(buf))) {
        let d = buf.subrange(0, 32 + log_slice_length(buf));
        assert(d.subrange(4, 8) =~= buf.subrange(4, 8));
        assert(log_slice_payload(d).len() == log_slice_length(d));
        lemma_recovered_records_sound(buf.skip(32 + log_slice_length(buf)));
        assert(spec_recover(buf)[0] == log_rec_of(d));
        let rest = spec_recover(buf.skip(32 + log_slice_length(buf)));
        assert(forall|i: int| 1 <= i < spec_recover(buf).len()
            ==> #[trigger] spec_recover(buf)[i] == rest[i - 1]);
    } else {
        match first_magic_from(buf, 1) {
            Some(i) => lemma_recovered_records_sound(buf.skip(i)),
            None => {},
        }
    }
}

/// Whether a mutation's key and value are within the hard caps.
pub open spec fn op_within_caps(o: OpView) -> bool {
    &&& o.key.len() <= MAX_KEY_SIZE
    &&& o.value.len() <= MAX_VALUE_SIZE
}

/// The bytes a sequence of mutations appends to the log, in order.
pub open spec fn wal_bytes_of(ops: Seq<OpView>) -> Seq<u8>
    decreases ops.len(),
{
    if ops.len() == 0 {
        Seq::empty()
    } else {
        spec_log_record(ops[0].key, ops[0].value, ops[0].op) + wal_bytes_of(ops.skip(1))
    }
}

/// Recovery of a well-formed record followed by anything yields that record
/// and then whatever the remainder yields.
pub proof fn lemma_recover_one_record(key: Seq<u8>, value: Seq<u8>, op: Operation, rest: Seq<u8>)
    requires
        key.len() <= MAX_KEY_SIZE,
        value.len() <= MAX_VALUE_SIZE,
    ensures
        ({
            let d = spec_log_record(key, value, op);
            &&& spec_recover(d + rest) == seq![log_rec_of(d)] + spec_recover(rest)
            &&& log_rec_of(d).key == key
            &&& log_rec_of(d).value == value
            &&& log_rec_of(d).op == op
        }),
{
    crate::format::lemma_log_record_round_trip(key, value, op);
    let d = spec_log_record(key, value, op);
    let whole = d + rest;
    assert(whole.subrange(0, 4) =~= d.subrange(0, 4));
    assert(whole.subrange(4, 8) =~= d.subrange(4, 8));
    assert(log_slice_length(whole) == log_slice_length(d));
    assert(log_slice_length(d) == d.len() - 32);
    assert(whole.subrange(0, 32 + log_slice_length(whole)) =~= d);
    assert(whole.skip(32 + log_slice_length(whole)) =~= rest);
    assert(spec_recover(whole) == seq![log_rec_of(d)] + spec_recover(rest));
}

/// Recovery of a log made of well-formed records followed by any tail
/// yields exactly those mutations, then whatever the tail yields.
pub proof fn lemma_recover_of_log(ops: Seq<OpView>, tail: Seq<u8>)
    requires
        forall|i: int| 0 <= i < ops.len() ==> op_within_caps(#[trigger] ops[i]),
    ensures
        recs_op_views(spec_recover(wal_bytes_of(ops) + tail)) == ops + recs_op_views(
            spec_recover(tail),
        ),
    decreases ops.len(),
{
    if ops.len() == 0 {
        assert(wal_bytes_of(ops) + tail =~= tail);
        assert(recs_op_views(spec_recover(tail)) =~= ops + recs_op_views(spec_recover(tail)));
    } else {
        let o = ops[0];
        let d = spec_log_record(o.key, o.value, o.op);
        let restbytes = wal_bytes_of(ops.skip(1)) + tail;
        assert(wal_bytes_of(ops) + tail =~= d + restbytes);
        lemma_recover_one_record(o.key, o.value, o.op, restbytes);
        lemma_recover_of_log(ops.skip(1), tail);
        assert(recs_op_views(seq![log_rec_of(d)] + spec_recover(restbytes)) =~= seq![
            rec_op_view(log_rec_of(d)),
        ] + recs_op_views(spec_recover(restbytes)));
        assert(rec_op_view(log_rec_of(d)) == o);
        assert(seq![o] + (ops.skip(1) + recs_op_views(spec_recover(tail))) =~= ops
            + recs_op_views(spec_recover(tail)));
    }
}

/// An empty log recovers to nothing: a store opened over an empty log
/// directory starts with an empty index.
pub proof fn lemma_empty_log_recovers_nothing()
    ensures
        spec_recover(Seq::<u8>::empty()) == Seq::<LogRecView>::empty(),
{
}

/// A tail too short for a header, or whose one header claims more bytes
/// than remain, recovers to nothing: the expected crash signature.
pub proof fn lemma_torn_tail_recovers_nothing(tail: Seq<u8>)
    requires
        tail.len() < 32 || (tail.subrange(0, 4) == magic_seq() && 32 + log_slice_length(tail)
            > tail.len()),
    ensures
        spec_recover(tail) == Seq::<LogRecView>::empty(),
{
}

/// Replaying what recovery reads back from an intact log yields exactly the
/// mutations that were appended, in order.
pub proof fn lemma_log_round_trip_recovery(ops: Seq<OpView>)
    requires
        forall|i: int| 0 <= i < ops.len() ==> op_within_caps(#[trigger] ops[i]),
    ensures
        recs_op_views(spec_recover(wal_bytes_of(ops))) == ops,
{
    lemma_recover_of_log(ops, Seq::empty());
    assert(wal_bytes_of(ops) + Seq::<u8>::empty() =~= wal_bytes_of(ops));
    assert(spec_recover(Seq::<u8>::empty()) =~= Seq::<LogRecView>::empty());
    assert(ops + recs_op_views(Seq::<LogRecView>::empty()) =~= ops);
}

/// Whether appending `encoded_len` more bytes to a log file of
/// `current_size` bytes must rotate to a fresh file first: exactly when the
/// append would push the file past the threshold.
pub fn wal_should_rotate(current_size: u64, encoded_len: u64, threshold: u64) -> (r: bool)
    ensures
        r == (current_size + encoded_len > threshold),
{
    if current_size > threshold {
        true
    } else {
        encoded_len > threshold - current_size
    }
}

/// The ASCII byte for one hex nibble, lower case.
pub open spec fn spec_hex_digit(d: u8) -> u8
    recommends
        d < 16,
{
    if d < 10 {
        (48 + d) as u8
    } else {
        (87 + d) as u8
    }
}

/// The nibble of `x` at position `i`, most significant first.
pub open spec fn spec_nibble(x: u64, i: int) -> u8
    recommends
        0 <= i < 16,
{
    ((x >> ((15 - i) * 4) as u64) & 0xF) as u8
}

/// The sixteen lower-case hex digits of `x`, most significant first.
pub open spec fn spec_hex16(x: u64) -> Seq<u8> {
    Seq::new(16, |i: int| spec_hex_digit(spec_nibble(x, i)))
}

/// Render `x` as sixteen lower-case hex digits, most significant first.
pub fn hex16(x: u64) -> (r: Vec<u8>)
    ensures
        r@ == spec_hex16(x),
{
    let mut out: Vec<u8> = Vec::new();
    let mut i: usize = 0;
    while i < 16
        invariant
            i <= 16,
            out@ == spec_hex16(x).subrange(0, i as int),
        decreases 16 - i,
    {
        let shift: u64 = ((15 - i) * 4) as u64;
        let d: u8 = ((x >> shift) & 0xF) as u8;
        proof {
            assert((x >> shift) & 0xF < 16) by (bit_vector);
        }
        let c: u8 = if d < 10 {
            48 + d
        } else {
            87 + d
        };
        out.push(c);
        i = i + 1;
        proof {
            assert(out@ =~= spec_hex16(x).subrange(0, i as int));
        }
    }
    proof {
        assert(out@ =~= spec_hex16(x));
    }
    out
}

/// The name of the log file with the given sequence number, as bytes:
/// `wal-` then sixteen hex digits then `.claw`.
pub open spec fn spec_wal_file_name(sequence: u64) -> Seq<u8> {
    wal_name_prefix() + spec_hex16(sequence) + claw_suffix()
}

/// The bytes of the `wal-` file-name prefix.
pub open spec fn wal_name_prefix() -> Seq<u8> {
    seq![119u8, 97u8, 108u8, 45u8]
}

/// The bytes of the `.claw` file-name suffix.
pub open spec fn claw_suffix() -> Seq<u8> {
    seq![46u8, 99u8, 108u8, 97u8, 119u8]
}

/// Build the log file name for a sequence number: `wal-` followed by
/// sixteen lower-case hex digits and `.claw`.
pub fn wal_file_name(sequence: u64) -> (r: Vec<u8>)
    ensures
        r@ == spec_wal_file_name(sequence),
{
    let mut out: Vec<u8> = Vec::new();
    out.push(119);
    out.push(97);
    out.push(108);
    out.push(45);
    proof {
        assert(out@ =~= wal_name_prefix());
    }
    let mut digits = hex16(sequence);
    out.append(&mut digits);
    out.push(46);
    out.push(99);
    out.push(108);
    out.push(97);
    out.push(119);
    proof {
        assert(out@ =~= spec_wal_file_name(sequence));
    }
    out
}

/// The value of one ASCII hex digit, either case, if it is one.
pub open spec fn spec_hex_val(c: u8) -> Option<u8> {
    if 48 <= c <= 57 {
        Some((c - 48) as u8)
    } else if 97 <= c <= 102 {
        Some((c - 87) as u8)
    } else if 65 <= c <= 70 {
        Some((c - 55) as u8)
    } else {
        None
    }
}

/// The value of a non-empty string of hex digits, or nothing if any byte is
/// not a hex digit. The value is unbounded: callers cap it.
pub open spec fn spec_parse_hex(s: Seq<u8>) -> Option<int>
    decreases s.len(),
{
    if s.len() == 0 {
        Some(0)
    } else {
        match spec_parse_hex(s.drop_last()) {
            None => None,
            Some(v) => match spec_hex_val(s.last()) {
                None => None,
                Some(d) => Some(16 * v + d),
            },
        }
    }
}

/// A longer digit string never has a smaller value.
proof fn lemma_parse_hex_prefix_le(s: Seq<u8>, i: int)
    requires
        0 <= i <= s.len(),
        spec_parse_hex(s) is Some,
    ensures
        spec_parse_hex(s.subrange(0, i)) is Some,
        spec_parse_hex(s.subrange(0, i)).unwrap() <= spec_parse_hex(s).unwrap(),
        spec_parse_hex(s).unwrap() >= 0,
    decreases s.len(),
{
    if s.len() == 0 {
        assert(s.subrange(0, i) =~= s);
    } else {
        assert(s.drop_last() =~= s.subrange(0, s.len() - 1));
        lemma_parse_hex_prefix_le(s.drop_last(), if i <= s.len() - 1 { i } else { i - 1 });
        if i <= s.len() - 1 {
            assert(s.drop_last().subrange(0, i) =~= s.subrange(0, i));
        } else {
            assert(s.subrange(0, i) =~= s);
            assert(s.drop_last().subrange(0, i - 1) =~= s.drop_last());
        }
    }
}

/// The sequence number a file name encodes under the given prefix, if the
/// name is `<prefix><hex digits>.claw` with at least one digit and a value
/// that fits in 64 bits.
pub open spec fn spec_parse_sequence(name: Seq<u8>, prefix: Seq<u8>) -> Option<u64> {
    let plen = prefix.len() as int;
    if name.len() >= plen + 6 && name.subrange(0, plen) == prefix && name.subrange(
        name.len() - 5,
        name.len() as int,
    ) == claw_suffix() {
        let mid = name.subrange(plen, name.len() - 5);
        match spec_parse_hex(mid) {
            Some(v) => if v <= u64::MAX {
                Some(v as u64)
            } else {
                None
            },
            None => None,
        }
    } else {
        None
    }
}

/// Parse the sequence number out of a file name of the form
/// `<prefix><hex digits>.claw`. Names with another shape, a non-hex digit,
/// or a value over 64 bits yield nothing.
pub fn parse_sequence_name(name: &[u8], prefix: &[u8]) -> (r: Option<u64>)
    ensures
        r == spec_parse_sequence(name@, prefix@),
{
    let plen = prefix.len();
    if name.len() < plen || name.len() - plen < 6 {
        return None;
    }
    let mut i: usize = 0;
    while i < plen
        invariant
            i <= prefix@.len(),
            plen == prefix@.len(),
            name@.len() >= plen + 6,
            forall|j: int| 0 <= j < i ==> name@[j] == prefix@[j],
        decreases plen - i,
    {
        if name[i] != prefix[i] {
            proof {
                assert(name@.subrange(0, plen as int)[i as int] != prefix@[i as int]);
            }
            return None;
        }
        i = i + 1;
    }
    proof {
        assert(name@.subrange(0, plen as int) =~= prefix@);
    }

    let n = name.len();
    let suffix_ok = name[n - 5] == 46 && name[n - 4] == 99 && name[n - 3] == 108
        && name[n - 2] == 97 && name[n - 1] == 119;
    if !suffix_ok {
        proof {
            let suf = name@.subrange(n - 5, n as int);
            assert(suf =~= claw_suffix() ==> (suf[0] == 46 && suf[1] == 99 && suf[2] == 108
                && suf[3] == 97 && suf[4] == 119));
        }
        return None;
    }
    proof {
        assert(name@.subrange(n - 5, n as int) =~= claw_suffix());
    }

    let ghost mid = name@.subrange(plen as int, n - 5);
    let mut acc: u64 = 0;
    let mut k: usize = plen;
    while k < n - 5
        invariant
            plen <= k <= n - 5,
            n == name@.len(),
            n >= plen + 6,
            plen == prefix@.len(),
            name@.subrange(0, plen as int) == prefix@,
            name@.subrange(n - 5, n as int) == claw_suffix(),
            mid == name@.subrange(plen as int, n - 5),
            spec_parse_hex(mid.subrange(0, k - plen)) == Some(acc as int),
        decreases n - k,
    {
        let c = name[k];
        proof {
            assert(mid[k - plen] == c);
        }
        let d: u8 = if 48 <= c && c <= 57 {
            c - 48
        } else if 97 <= c && c <= 102 {
            c - 87
        } else if 65 <= c && c <= 70 {
            c - 55
        } else {
            proof {
                let j = k - plen;
                assert(spec_hex_val(c) is None);
                assert(mid.subrange(0, j + 1).drop_last() =~= mid.subrange(0, j));
                assert(mid.subrange(0, j + 1).last() == c);
                assert(spec_parse_hex(mid.subrange(0, j + 1)) is None);
                lemma_parse_hex_none_extends(mid, j + 1);
                assert(spec_parse_hex(mid) is None);
                assert(spec_parse_sequence(name@, prefix@) is None);
            }
            return None;
        };
        proof {
            assert(spec_hex_val(c) == Some(d));
        }
        if acc > 0x0FFF_FFFF_FFFF_FFFF {
            proof {
                let j = k - plen;
                assert(mid.subrange(0, j + 1).drop_last() =~= mid.subrange(0, j));
                assert(mid.subrange(0, j + 1).last() == c);
                assert(spec_parse_hex(mid.subrange(0, j + 1)).unwrap() > u64::MAX);
                lemma_parse_hex_low_bound(mid, j + 1);
                assert(spec_parse_sequence(name@, prefix@) is None);
            }
            return None;
        }
        acc = acc * 16 + d as u64;
        k = k + 1;
        proof {
            let j = k - plen;
            assert(mid.subrange(0, j).drop_last() =~= mid.subrange(0, j - 1));
            assert(mid.subrange(0, j).last() == c);
        }
    }
    proof {
        assert(mid.subrange(0, mid.len() as int) =~= mid);
    }
    Some(acc)
}

/// Once a digit string fails to parse, no extension of it parses.
proof fn lemma_parse_hex_none_extends(s: Seq<u8>, i: int)
    requires
        0 <= i <= s.len(),
        spec_parse_hex(s.subrange(0, i)) is None,
    ensures
        spec_parse_hex(s) is None,
    decreases s.len() - i,
{
    if i == s.len() {
        assert(s.subrange(0, i) =~= s);
    } else {
        assert(s.subrange(0, i + 1).drop_last() =~= s.subrange(0, i));
        lemma_parse_hex_none_extends(s, i + 1);
    }
}

/// Once a digit prefix exceeds the 64-bit range, the whole string does.
proof fn lemma_parse_hex_low_bound(s: Seq<u8>, i: int)
    requires
        0 <= i <= s.len(),
        spec_parse_hex(s.subrange(0, i)) is Some,
        spec_parse_hex(s.subrange(0, i)).unwrap() > u64::MAX,
    ensures
        spec_parse_hex(s) is None || spec_parse_hex(s).unwrap() > u64::MAX,
{
    if spec_parse_hex(s) is Some {
        lemma_parse_hex_prefix_le(s, i);
    }
}

/// The largest sequence number among the given file names under the given
/// prefix, or zero where none parses.
pub open spec fn spec_max_sequence(names: Seq<Seq<u8>>, prefix: Seq<u8>) -> u64
    decreases names.len(),
{
    if names.len() == 0 {
        0
    } else {
        let rest = spec_max_sequence(names.drop_last(), prefix);
        match spec_parse_sequence(names.last(), prefix) {
            Some(v) => if v > rest {
                v
            } else {
                rest
            },
            None => rest,
        }
    }
}

/// Find the highest sequence number among directory entries named
/// `<prefix><hex digits>.claw`; zero when none matches.
pub fn max_sequence(names: &Vec<Vec<u8>>, prefix: &[u8]) -> (r: u64)
    ensures
        r == spec_max_sequence(names@.map_values(|n: Vec<u8>| n@), prefix@),
{
    let ghost nseq = names@.map_values(|n: Vec<u8>| n@);
    let mut best: u64 = 0;
    let mut i: usize = 0;
    while i < names.len()
        invariant
            i <= names@.len(),
            nseq == names@.map_values(|n: Vec<u8>| n@),
            best == spec_max_sequence(nseq.subrange(0, i as int), prefix@),
        decreases names@.len() - i,
    {
        match parse_sequence_name(names[i].as_slice(), prefix) {
            Some(v) => {
                if v > best {
                    best = v;
                }
            },
            None => {},
        }
        i = i + 1;
        proof {
            assert(nseq.subrange(0, i as int).drop_last() =~= nseq.subrange(0, i - 1));
            assert(nseq.subrange(0, i as int).last() == nseq[i - 1]);
        }
    }
    proof {
        assert(nseq.subrange(0, nseq.len() as int) =~= nseq);
    }
    best
}

/// Recovery-side handle on a log directory. The embedding program lists the
/// directory's files, sorts them by name, and hands each file's bytes to
/// `recover_from_bytes`.
pub struct WalReader {
    /// The log directory path.
    pub wal_dir: String,
}

impl WalReader {
    /// Create a reader for the given log directory.
    pub fn new(wal_dir: String) -> (r: WalReader)
        ensures
            r.wal_dir@ == wal_dir@,
    {
        WalReader { wal_dir }
    }

    /// Recover all records from the bytes of one log file, in file order.
    pub fn recover_file_bytes(&self, buffer: &[u8]) -> (r: Vec<WalEntry>)
        ensures
            r@.len() == spec_recover(buffer@).len(),
            forall|i: int|
                0 <= i < r@.len() ==> entry_matches_rec(#[trigger] r@[i], spec_recover(buffer@)[i]),
            entries_op_views(r@) == recs_op_views(spec_recover(buffer@)),
    {
        recover_from_bytes(buffer)
    }
}

} // verus!
