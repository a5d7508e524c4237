//! The write-ahead log's records and their layout in bytes.
//!
//! A record starts with the length of the key, as eight bytes with the
//! lowest first, and one byte that is zero for a key set to a value and
//! nonzero for a key deleted. The key follows. A record that sets a value
//! goes on with the length of the value, in eight bytes again, and the
//! value. Every record ends with its timestamp in sixteen bytes, the
//! lowest first.

use vstd::bytes::{
    lemma_auto_spec_u128_to_from_le_bytes, lemma_auto_spec_u64_to_from_le_bytes,
    spec_u128_from_le_bytes, spec_u128_to_le_bytes, spec_u64_from_le_bytes, spec_u64_to_le_bytes,
    u128_from_le_bytes, u128_to_le_bytes, u64_from_le_bytes, u64_to_le_bytes,
};
use vstd::prelude::*;
use vstd::slice::slice_subrange;

verus! {

/// One operation of the write-ahead log: a key set to a value, or a key
/// deleted, at a time.
#[derive(Debug)]
pub struct WALEntry {
    pub key: Vec<u8>,
    pub value: Option<Vec<u8>>,
    pub timestamp: u128,
    pub deleted: bool,
}

/// Mathematical value of a log entry.
pub struct WALEntryView {
    pub key: Seq<u8>,
    pub value: Option<Seq<u8>>,
    pub timestamp: u128,
    pub deleted: bool,
}

impl View for WALEntry {
    type V = WALEntryView;

    open spec fn view(&self) -> WALEntryView {
        WALEntryView {
            key: self.key@,
            value: match self.value {
                Some(v) => Some(v@),
                None => None,
            },
            timestamp: self.timestamp,
            deleted: self.deleted,
        }
    }
}

/// Bytes of the record that sets `key` to `value` at `timestamp`.
pub open spec fn set_record(key: Seq<u8>, value: Seq<u8>, timestamp: u128) -> Seq<u8> {
    spec_u64_to_le_bytes(key.len() as u64) + seq![0u8] + key + spec_u64_to_le_bytes(
        value.len() as u64,
    ) + value + spec_u128_to_le_bytes(timestamp)
}

/// Bytes of the record that deletes `key` at `timestamp`.
pub open spec fn delete_record(key: Seq<u8>, timestamp: u128) -> Seq<u8> {
    spec_u64_to_le_bytes(key.len() as u64) + seq![1u8] + key + spec_u128_to_le_bytes(timestamp)
}

/// The entry that the record starting at `at` holds, and where the next
/// record starts; `None` where the bytes end before the record does.
pub open spec fn parse_record(bytes: Seq<u8>, at: int) -> Option<(WALEntryView, int)> {
    if at < 0 || at + 9 > bytes.len() {
        None
    } else {
        let key_len = spec_u64_from_le_bytes(bytes.subrange(at, at + 8)) as int;
        let deleted = bytes[at + 8] != 0;
        let key_end = at + 9 + key_len;
        if deleted {
            if key_end + 16 > bytes.len() {
                None
            } else {
                Some(
                    (
                        WALEntryView {
                            key: bytes.subrange(at + 9, key_end),
                            value: None,
                            timestamp: spec_u128_from_le_bytes(
                                bytes.subrange(key_end, key_end + 16),
                            ),
                            deleted: true,
                        },
                        key_end + 16,
                    ),
                )
            }
        } else if key_end + 8 > bytes.len() {
            None
        } else {
            let value_len = spec_u64_from_le_bytes(bytes.subrange(key_end, key_end + 8)) as int;
            let value_end = key_end + 8 + value_len;
            if value_end + 16 > bytes.len() {
                None
            } else {
                Some(
                    (
                        WALEntryView {
                            key: bytes.subrange(at + 9, key_end),
                            value: Some(bytes.subrange(key_end + 8, value_end)),
                            timestamp: spec_u128_from_le_bytes(
                                bytes.subrange(value_end, value_end + 16),
                            ),
                            deleted: false,
                        },
                        value_end + 16,
                    ),
                )
            }
        }
    }
}

/// The entries of the records that follow one another from `at` on, up to
/// the first place where no whole record starts.
pub open spec fn parse_log(bytes: Seq<u8>, at: int) -> Seq<WALEntryView>
    decreases bytes.len() - at,
{
    match parse_record(bytes, at) {
        None => Seq::empty(),
        Some((entry, next)) => seq![entry] + parse_log(bytes, next),
    }
}

/// A record that sets a value reads back as written, whatever follows it.
pub proof fn lemma_set_record_parses(key: Seq<u8>, value: Seq<u8>, timestamp: u128, rest: Seq<u8>)
    requires
        key.len() <= u64::MAX,
        value.len() <= u64::MAX,
    ensures
        parse_record(set_record(key, value, timestamp) + rest, 0) == Some(
            (
                WALEntryView { key, value: Some(value), timestamp, deleted: false },
                set_record(key, value, timestamp).len() as int,
            ),
        ),
        set_record(key, value, timestamp).len() == key.len() + value.len() + 33,
{
    lemma_auto_spec_u64_to_from_le_bytes();
    lemma_auto_spec_u128_to_from_le_bytes();
    let bytes = set_record(key, value, timestamp) + rest;
    let key_end = 9 + key.len() as int;
    let value_end = key_end + 8 + value.len() as int;
    assert(bytes.subrange(0, 8) =~= spec_u64_to_le_bytes(key.len() as u64));
    assert(bytes[8] == 0u8);
    assert(bytes.subrange(9, key_end) =~= key);
    assert(bytes.subrange(key_end, key_end + 8) =~= spec_u64_to_le_bytes(value.len() as u64));
    assert(bytes.subrange(key_end + 8, value_end) =~= value);
    assert(bytes.subrange(value_end, value_end + 16) =~= spec_u128_to_le_bytes(timestamp));
}

/// A record that deletes a key reads back as written, whatever follows it.
pub proof fn lemma_delete_record_parses(key: Seq<u8>, timestamp: u128, rest: Seq<u8>)
    requires
        key.len() <= u64::MAX,
    ensures
        parse_record(delete_record(key, timestamp) + rest, 0) == Some(
            (
                WALEntryView { key, value: None, timestamp, deleted: true },
                delete_record(key, timestamp).len() as int,
            ),
        ),
        delete_record(key, timestamp).len() == key.len() + 25,
{
    lemma_auto_spec_u64_to_from_le_bytes();
    lemma_auto_spec_u128_to_from_le_bytes();
    let bytes = delete_record(key, timestamp) + rest;
    let key_end = 9 + key.len() as int;
    assert(bytes.subrange(0, 8) =~= spec_u64_to_le_bytes(key.len() as u64));
    assert(bytes[8] == 1u8);
    assert(bytes.subrange(9, key_end) =~= key);
    assert(bytes.subrange(key_end, key_end + 16) =~= spec_u128_to_le_bytes(timestamp));
}

/// Appends the bytes of `more` to `out`.
fn append_bytes(out: &mut Vec<u8>, more: &[u8])
    ensures
        final(out)@ == old(out)@ + more@,
{
    let mut i: usize = 0;
    while i < more.len()
        invariant
            i <= more@.len(),
            out@ == old(out)@ + more@.take(i as int),
        decreases more@.len() - i,
    {
        out.push(more[i]);
        proof {
            assert(more@.take(i + 1) == more@.take(i as int).push(more@[i as int]));
            assert(out@ =~= old(out)@ + more@.take(i + 1));
        }
        i = i + 1;
    }
    proof {
        assert(more@.take(more@.len() as int) == more@);
    }
}

/// The bytes `bytes[from..to]` in a vector of their own.
fn copy_range(bytes: &[u8], from: usize, to: usize) -> (out: Vec<u8>)
    requires
        from <= to <= bytes@.len(),
    ensures
        out@ == bytes@.subrange(from as int, to as int),
{
    let mut out: Vec<u8> = Vec::new();
    let mut i: usize = from;
    while i < to
        invariant
            from <= i <= to,
            to <= bytes@.len(),
            out@ == bytes@.subrange(from as int, i as int),
        decreases to - i,
    {
        out.push(bytes[i]);
        proof {
            assert(out@ =~= bytes@.subrange(from as int, i + 1));
        }
        i = i + 1;
    }
    out
}

/// The record that sets `key` to `value` at `timestamp`.
pub fn encode_set(key: &[u8], value: &[u8], timestamp: u128) -> (record: Vec<u8>)
    ensures
        record@ == set_record(key@, value@, timestamp),
{
    let mut record = u64_to_le_bytes(key.len() as u64);
    record.push(0u8);
    append_bytes(&mut record, key);
    let value_len = u64_to_le_bytes(value.len() as u64);
    append_bytes(&mut record, value_len.as_slice());
    append_bytes(&mut record, value);
    let stamp = u128_to_le_bytes(timestamp);
    append_bytes(&mut record, stamp.as_slice());
    proof {
        assert(record@ =~= set_record(key@, value@, timestamp));
    }
    record
}

/// The record that deletes `key` at `timestamp`.
pub fn encode_delete(key: &[u8], timestamp: u128) -> (record: Vec<u8>)
    ensures
        record@ == delete_record(key@, timestamp),
{
    let mut record = u64_to_le_bytes(key.len() as u64);
    record.push(1u8);
    append_bytes(&mut record, key);
    let stamp = u128_to_le_bytes(timestamp);
    append_bytes(&mut record, stamp.as_slice());
    proof {
        assert(record@ =~= delete_record(key@, timestamp));
    }
    record
}

/// Reads the record that starts at `at`: its entry and where the next
/// record starts, or `None` where the bytes end before the record does.
pub fn decode_entry(bytes: &[u8], at: usize) -> (decoded: Option<(WALEntry, usize)>)
    ensures
        match decoded {
            Some((entry, next)) => parse_record(bytes@, at as int) == Some((entry@, next as int))
                && at < next <= bytes@.len(),
            None => parse_record(bytes@, at as int) is None,
        },
{
    let len = bytes.len();
    if at > len || len - at < 9 {
        return None;
    }
    let key_len = u64_from_le_bytes(slice_subrange(bytes, at, at + 8));
    let deleted = bytes[at + 8] != 0;
    let key_start = at + 9;
    if key_len > (len - key_start) as u64 {
        return None;
    }
    let key_end = key_start + key_len as usize;
    if deleted {
        if len - key_end < 16 {
            return None;
        }
        let key = copy_range(bytes, key_start, key_end);
        let timestamp = u128_from_le_bytes(slice_subrange(bytes, key_end, key_end + 16));
        return Some((WALEntry { key, value: None, timestamp, deleted: true }, key_end + 16));
    }
    if len - key_end < 8 {
        return None;
    }
    let value_len = u64_from_le_bytes(slice_subrange(bytes, key_end, key_end + 8));
    let value_start = key_end + 8;
    if value_len > (len - value_start) as u64 {
        return None;
    }
    let value_end = value_start + value_len as usize;
    if len - value_end < 16 {
        return None;
    }
    let key = copy_range(bytes, key_start, key_end);
    let value = copy_range(bytes, value_start, value_end);
    let timestamp = u128_from_le_bytes(slice_subrange(bytes, value_end, value_end + 16));
    Some((WALEntry { key, value: Some(value), timestamp, deleted: false }, value_end + 16))
}

/// The values of the entries, in order.
pub open spec fn entry_views(entries: Seq<WALEntry>) -> Seq<WALEntryView> {
    Seq::new(entries.len(), |i: int| entries[i]@)
}

/// Reads the records that follow one another from the start of `bytes`, up
/// to the first place where no whole record starts.
pub fn decode_log(bytes: &[u8]) -> (entries: Vec<WALEntry>)
    ensures
        entry_views(entries@) == parse_log(bytes@, 0),
{
    let mut entries: Vec<WALEntry> = Vec::new();
    let mut at: usize = 0;
    let mut done = false;
    proof {
        assert(entry_views(entries@) + parse_log(bytes@, 0) =~= parse_log(bytes@, 0));
    }
    while !done
        invariant
            at <= bytes@.len(),
            !done ==> entry_views(entries@) + parse_log(bytes@, at as int) == parse_log(bytes@, 0),
            done ==> entry_views(entries@) == parse_log(bytes@, 0),
        decreases
                if done {
                    0
                } else {
                    bytes@.len() - at + 1
                },
    {
        let ghost held = entries@;
        match decode_entry(bytes, at) {
            None => {
                done = true;
                proof {
                    assert(entry_views(held) + Seq::<WALEntryView>::empty() =~= entry_views(held));
                }
            },
            Some((entry, next)) => {
                let ghost value = entry@;
                entries.push(entry);
                proof {
                    assert(entry_views(entries@) =~= entry_views(held) + seq![value]);
                    assert(entry_views(entries@) + parse_log(bytes@, next as int) =~= entry_views(
                        held,
                    ) + (seq![value] + parse_log(bytes@, next as int)));
                }
                at = next;
            },
        }
    }
    entries
}

} // verus!
