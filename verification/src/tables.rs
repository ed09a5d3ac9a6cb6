//! Table identifiers for the ordered-table adapter.
//!
//! The adapter multiplexes many logical tables into the store's one flat
//! namespace by prefixing every key with a single table-identifier byte.
//! Known table names get fixed bytes; unknown names get a hash-derived byte
//! in a reserved range.

use vstd::prelude::*;
use vstd::slice::slice_subrange;
use vstd::string::StringSliceAdditionalSpecFns;

use crate::engine::bytes_eq;

verus! {

/// The hash-derived fallback identifier for an unknown table name.
pub open spec fn spec_fallback_id(name: Seq<u8>) -> u8 {
    (0xE0u8 | (spec_name_hash(name) & 0x1Fu8)) as u8
}

/// A wrapping byte sum of the name, seeded as the identifier scheme fixes.
pub open spec fn spec_name_hash(name: Seq<u8>) -> u8
    decreases name.len(),
{
    if name.len() == 0 {
        0xF0u8
    } else {
        ((spec_name_hash(name.drop_last()) + name.last()) % 256) as u8
    }
}

/// The identifier byte for a table name, given as that name's bytes.
pub open spec fn spec_table_id(name: Seq<u8>) -> u8 {
    if name == "CanonicalHeaders".spec_bytes() {
        0x01u8
    } else if name == "HeaderNumbers".spec_bytes() {
        0x02u8
    } else if name == "Headers".spec_bytes() {
        0x03u8
    } else if name == "BlockBodyIndices".spec_bytes() {
        0x04u8
    } else if name == "BlockOmmers".spec_bytes() {
        0x05u8
    } else if name == "BlockWithdrawals".spec_bytes() {
        0x06u8
    } else if name == "Transactions".spec_bytes() {
        0x07u8
    } else if name == "TransactionHashNumbers".spec_bytes() {
        0x08u8
    } else if name == "TransactionBlocks".spec_bytes() {
        0x09u8
    } else if name == "TransactionSenders".spec_bytes() {
        0x0Au8
    } else if name == "Receipts".spec_bytes() {
        0x0Bu8
    } else if name == "PlainAccountState".spec_bytes() {
        0x0Cu8
    } else if name == "PlainStorageState".spec_bytes() {
        0x0Du8
    } else if name == "Bytecodes".spec_bytes() {
        0x0Eu8
    } else if name == "AccountsTrie".spec_bytes() {
        0x0Fu8
    } else if name == "StoragesTrie".spec_bytes() {
        0x10u8
    } else if name == "HashedAccounts".spec_bytes() {
        0x11u8
    } else if name == "HashedStorages".spec_bytes() {
        0x12u8
    } else if name == "AccountsHistory".spec_bytes() {
        0x13u8
    } else if name == "StoragesHistory".spec_bytes() {
        0x14u8
    } else if name == "AccountChangeSets".spec_bytes() {
        0x15u8
    } else if name == "StorageChangeSets".spec_bytes() {
        0x16u8
    } else if name == "StageCheckpoints".spec_bytes() {
        0x17u8
    } else if name == "StageCheckpointProgresses".spec_bytes() {
        0x18u8
    } else if name == "PruneCheckpoints".spec_bytes() {
        0x19u8
    } else if name == "VersionHistory".spec_bytes() {
        0x1Au8
    } else if name == "ChainState".spec_bytes() {
        0x1Bu8
    } else if name == "Metadata".spec_bytes() {
        0x1Cu8
    } else {
        spec_fallback_id(name)
    }
}

/// Compute the wrapping byte sum of a name.
fn name_hash(name: &[u8]) -> (r: u8)
    ensures
        r == spec_name_hash(name@),
{
    let mut hash: u8 = 0xF0;
    let mut i: usize = 0;
    proof {
        assert(name@.subrange(0, 0) =~= Seq::<u8>::empty());
    }
    while i < name.len()
        invariant
            i <= name@.len(),
            hash == spec_name_hash(name@.subrange(0, i as int)),
        decreases name@.len() - i,
    {
        hash = hash.wrapping_add(name[i]);
        i = i + 1;
        proof {
            assert(name@.subrange(0, i as int).drop_last() =~= name@.subrange(0, i - 1));
            assert(name@.subrange(0, i as int).last() == name@[i - 1]);
        }
    }
    proof {
        assert(name@.subrange(0, name@.len() as int) =~= name@);
    }
    hash
}

/// The table-identifier byte for a table name.
///
/// Each known table gets its fixed byte; an unknown name gets a
/// hash-derived byte in the reserved range `0xE0..=0xFF`.
pub fn table_id_for_name(name: &str) -> (r: u8)
    ensures
        r == spec_table_id(name.spec_bytes()),
{
    let b = name.as_bytes();
    if bytes_eq(b, "CanonicalHeaders".as_bytes()) {
        0x01
    } else if bytes_eq(b, "HeaderNumbers".as_bytes()) {
        0x02
    } else if bytes_eq(b, "Headers".as_bytes()) {
        0x03
    } else if bytes_eq(b, "BlockBodyIndices".as_bytes()) {
        0x04
    } else if bytes_eq(b, "BlockOmmers".as_bytes()) {
        0x05
    } else if bytes_eq(b, "BlockWithdrawals".as_bytes()) {
        0x06
    } else if bytes_eq(b, "Transactions".as_bytes()) {
        0x07
    } else if bytes_eq(b, "TransactionHashNumbers".as_bytes()) {
        0x08
    } else if bytes_eq(b, "TransactionBlocks".as_bytes()) {
        0x09
    } else if bytes_eq(b, "TransactionSenders".as_bytes()) {
        0x0A
    } else if bytes_eq(b, "Receipts".as_bytes()) {
        0x0B
    } else if bytes_eq(b, "PlainAccountState".as_bytes()) {
        0x0C
    } else if bytes_eq(b, "PlainStorageState".as_bytes()) {
        0x0D
    } else if bytes_eq(b, "Bytecodes".as_bytes()) {
        0x0E
    } else if bytes_eq(b, "AccountsTrie".as_bytes()) {
        0x0F
    } else if bytes_eq(b, "StoragesTrie".as_bytes()) {
        0x10
    } else if bytes_eq(b, "HashedAccounts".as_bytes()) {
        0x11
    } else if bytes_eq(b, "HashedStorages".as_bytes()) {
        0x12
    } else if bytes_eq(b, "AccountsHistory".as_bytes()) {
        0x13
    } else if bytes_eq(b, "StoragesHistory".as_bytes()) {
        0x14
    } else if bytes_eq(b, "AccountChangeSets".as_bytes()) {
        0x15
    } else if bytes_eq(b, "StorageChangeSets".as_bytes()) {
        0x16
    } else if bytes_eq(b, "StageCheckpoints".as_bytes()) {
        0x17
    } else if bytes_eq(b, "StageCheckpointProgresses".as_bytes()) {
        0x18
    } else if bytes_eq(b, "PruneCheckpoints".as_bytes()) {
        0x19
    } else if bytes_eq(b, "VersionHistory".as_bytes()) {
        0x1A
    } else if bytes_eq(b, "ChainState".as_bytes()) {
        0x1B
    } else if bytes_eq(b, "Metadata".as_bytes()) {
        0x1C
    } else {
        let hash = name_hash(b);
        0xE0 | (hash & 0x1F)
    }
}

/// Build a prefixed key: the table-identifier byte, then the key bytes.
pub fn prefixed_key(table_id: u8, key_bytes: &[u8]) -> (r: Vec<u8>)
    ensures
        r@ == seq![table_id] + key_bytes@,
{
    let mut out: Vec<u8> = Vec::new();
    out.push(table_id);
    crate::format::push_bytes(&mut out, key_bytes);
    proof {
        assert(out@ =~= seq![table_id] + key_bytes@);
    }
    out
}

/// Strip the table-identifier byte from a prefixed key; an empty key is
/// returned unchanged.
pub fn strip_prefix(prefixed: &[u8]) -> (r: &[u8])
    ensures
        prefixed@.len() == 0 ==> r@ == prefixed@,
        prefixed@.len() > 0 ==> r@ == prefixed@.skip(1),
{
    if prefixed.len() == 0 {
        prefixed
    } else {
        let r = slice_subrange(prefixed, 1, prefixed.len());
        proof {
            assert(r@ =~= prefixed@.skip(1));
        }
        r
    }
}

} // verus!
