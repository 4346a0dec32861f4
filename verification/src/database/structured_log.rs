//! The offsets log: a dense run of fixed-width entries, one per record.

use vstd::prelude::*;
use crate::bytes::{be_bytes, be_value, uint_bytes, uint_value, Endian};
use crate::bytes::{read_ordered, uuid_from_bytes, uuid_to_bytes, write_ordered};
use crate::bytes::{lemma_be_value_of_bytes, lemma_uint_value_bound, lemma_uint_value_of_bytes};
use crate::bytes::lemma_radix_values;
use crate::error::{Corruption, StoreError};

verus! {

/// Bytes one entry of the log takes.
pub const ENTRY_SIZE: usize = 32;

/// Where a record lives: its two identities and the place of its first byte
/// in the data file.
#[derive(Clone, Copy, Debug, PartialEq, Eq, Structural)]
pub struct LogEntry {
    pub uuid: u128,
    pub id: u64,
    pub offset: u64,
}

impl LogEntry {
    /// The entry of the record with the given identities at `offset`.
    pub fn new(uuid: u128, id: u64, offset: usize) -> (entry: LogEntry)
        ensures
            entry == (LogEntry { uuid, id, offset: offset as u64 }),
    {
        LogEntry { id, uuid, offset: offset as u64 }
    }
}

/// The bytes of one entry: the UUID in the byte order of its textual form,
/// then the id and the offset, each a `u64` in the byte order of the log.
pub open spec fn entry_bytes(entry: LogEntry, order: Endian) -> Seq<u8> {
    be_bytes(entry.uuid as nat, 16) + uint_bytes(order, entry.id as nat, 8) + uint_bytes(
        order,
        entry.offset as nat,
        8,
    )
}

/// The entry that the 32 bytes of `log` from `32 * i` on spell.
pub open spec fn entry_at(log: Seq<u8>, i: int, order: Endian) -> LogEntry {
    LogEntry {
        uuid: be_value(log.subrange(32 * i, 32 * i + 16)) as u128,
        id: uint_value(order, log.subrange(32 * i + 16, 32 * i + 24)) as u64,
        offset: uint_value(order, log.subrange(32 * i + 24, 32 * i + 32)) as u64,
    }
}

/// The entries that `log` holds, first to last. Bytes behind the last whole
/// entry are not read.
pub open spec fn entries(log: Seq<u8>, order: Endian) -> Seq<LogEntry> {
    Seq::new((log.len() / 32) as nat, |i: int| entry_at(log, i, order))
}

/// An entry reads back from its bytes.
pub proof fn lemma_entry_round_trip(entry: LogEntry, order: Endian)
    ensures
        entry_bytes(entry, order).len() == 32,
        entry_at(entry_bytes(entry, order), 0, order) == entry,
{
    lemma_radix_values();
    lemma_be_value_of_bytes(entry.uuid as nat, 16);
    lemma_uint_value_of_bytes(order, entry.id as nat, 8);
    lemma_uint_value_of_bytes(order, entry.offset as nat, 8);
    let b = entry_bytes(entry, order);
    assert(b.subrange(0, 16) =~= be_bytes(entry.uuid as nat, 16));
    assert(b.subrange(16, 24) =~= uint_bytes(order, entry.id as nat, 8));
    assert(b.subrange(24, 32) =~= uint_bytes(order, entry.offset as nat, 8));
}

/// A log of whole entries with one more entry written behind it holds the
/// same entries and then the new one.
pub proof fn lemma_entries_appended(log: Seq<u8>, entry: LogEntry, order: Endian)
    requires
        log.len() % 32 == 0,
    ensures
        (log + entry_bytes(entry, order)).len() % 32 == 0,
        entries(log + entry_bytes(entry, order), order) == entries(log, order).push(entry),
{
    lemma_entry_round_trip(entry, order);
    let b = entry_bytes(entry, order);
    let whole = log + b;
    let n = log.len() / 32;
    assert(whole.len() / 32 == n + 1);
    assert forall|i: int| 0 <= i < n + 1 implies entries(whole, order)[i] == entries(
        log,
        order,
    ).push(entry)[i] by {
        if i < n {
            assert(whole.subrange(32 * i, 32 * i + 16) =~= log.subrange(32 * i, 32 * i + 16));
            assert(whole.subrange(32 * i + 16, 32 * i + 24) =~= log.subrange(
                32 * i + 16,
                32 * i + 24,
            ));
            assert(whole.subrange(32 * i + 24, 32 * i + 32) =~= log.subrange(
                32 * i + 24,
                32 * i + 32,
            ));
        } else {
            assert(whole.subrange(32 * i, 32 * i + 16) =~= b.subrange(0, 16));
            assert(whole.subrange(32 * i + 16, 32 * i + 24) =~= b.subrange(16, 24));
            assert(whole.subrange(32 * i + 24, 32 * i + 32) =~= b.subrange(24, 32));
        }
    }
    assert(entries(whole, order) =~= entries(log, order).push(entry));
}

/// The offsets log as the bytes of its file, with the byte order of its
/// integers.
pub struct StructuredLog {
    file: Vec<u8>,
    order: Endian,
}

impl StructuredLog {
    /// The bytes of the log.
    pub closed spec fn bytes(self) -> Seq<u8> {
        self.file@
    }

    /// The byte order of the integers in the log.
    pub closed spec fn byte_order(self) -> Endian {
        self.order
    }

    /// The entries of the log, first to last.
    pub open spec fn view_entries(self) -> Seq<LogEntry> {
        entries(self.bytes(), self.byte_order())
    }

    /// The log is a whole number of entries long.
    pub closed spec fn wf(self) -> bool {
        self.file@.len() % 32 == 0
    }

    /// Takes `file` as the log, with integers in the given byte order,
    /// refusing one that is not a whole number of entries long.
    pub fn new(file: Vec<u8>, order: Endian) -> (log: Result<StructuredLog, StoreError>)
        ensures
            match log {
                Ok(l) => l.wf() && l.bytes() == file@ && l.byte_order() == order && file@.len() % 32
                    == 0,
                Err(e) => e == StoreError::Corrupt(Corruption::LogSize) && file@.len() % 32 != 0,
            },
    {
        if file.len() % ENTRY_SIZE != 0 {
            return Err(StoreError::Corrupt(Corruption::LogSize));
        }
        Ok(StructuredLog { file, order })
    }

    /// The byte order of the integers in the log.
    pub fn order(&self) -> (order: Endian)
        ensures
            order == self.byte_order(),
    {
        self.order
    }

    /// Length of the log in bytes.
    pub fn len(&self) -> (n: usize)
        ensures
            n == self.bytes().len(),
    {
        self.file.len()
    }

    /// The bytes of the log, as they are persisted.
    pub fn as_bytes(&self) -> (bytes: &[u8])
        ensures
            bytes@ == self.bytes(),
    {
        self.file.as_slice()
    }

    /// Entry `i` of the log.
    pub fn entry(&self, i: usize) -> (entry: LogEntry)
        requires
            i < self.view_entries().len(),
        ensures
            entry == self.view_entries()[i as int],
    {
        let len = self.file.len();
        let at = i * ENTRY_SIZE;
        let buf = self.file.as_slice();
        proof {
            lemma_radix_values();
            lemma_uint_value_bound(self.order, buf@.subrange(at + 16, at + 24));
            lemma_uint_value_bound(self.order, buf@.subrange(at + 24, at + 32));
        }
        let uuid = uuid_from_bytes(buf, at);
        let id = read_ordered(self.order, buf, at + 16, 8);
        let offset = read_ordered(self.order, buf, at + 24, 8);
        LogEntry { uuid, id, offset }
    }

    /// Every entry of the log, first to last.
    pub fn for_each_entry(&self) -> (all: Vec<LogEntry>)
        ensures
            all@ == self.view_entries(),
    {
        let count = self.file.len() / ENTRY_SIZE;
        let mut all: Vec<LogEntry> = Vec::with_capacity(count);
        let mut i: usize = 0;
        while i < count
            invariant
                i <= count,
                count == self.view_entries().len(),
                all@ == self.view_entries().take(i as int),
            decreases count - i,
        {
            all.push(self.entry(i));
            i += 1;
            assert(all@ =~= self.view_entries().take(i as int));
        }
        assert(self.view_entries().take(count as int) =~= self.view_entries());
        all
    }

    /// Writes `entry` behind the last entry.
    pub fn append(&mut self, entry: &LogEntry)
        requires
            old(self).wf(),
        ensures
            final(self).wf(),
            final(self).byte_order() == old(self).byte_order(),
            final(self).bytes() == old(self).bytes() + entry_bytes(*entry, old(self).byte_order()),
            final(self).view_entries() == old(self).view_entries().push(*entry),
    {
        let mut record = uuid_to_bytes(entry.uuid);
        proof {
            lemma_radix_values();
            lemma_be_value_of_bytes(entry.uuid as nat, 16);
            assert(record@.subrange(0, 16) =~= record@);
        }
        let mut k: usize = 0;
        while k < 16
            invariant
                k <= 16,
                record@.len() == 16 + k,
                record@.subrange(0, 16) == be_bytes(entry.uuid as nat, 16),
            decreases 16 - k,
        {
            let ghost before = record@;
            record.push(0);
            k += 1;
            assert(record@.subrange(0, 16) =~= before.subrange(0, 16));
        }
        let ghost r0 = record@;
        write_ordered(self.order, &mut record, 16, entry.id, 8);
        let ghost r1 = record@;
        write_ordered(self.order, &mut record, 24, entry.offset, 8);
        proof {
            let r2 = record@;
            lemma_uint_value_of_bytes(self.order, entry.id as nat, 8);
            lemma_uint_value_of_bytes(self.order, entry.offset as nat, 8);
            assert(r2.subrange(0, 16) =~= r0.subrange(0, 16));
            assert(r2.subrange(16, 24) =~= r1.subrange(16, 24));
            let want = entry_bytes(*entry, self.order);
            assert(want.len() == 32);
            assert forall|j: int| 0 <= j < 32 implies r2[j] == want[j] by {
                if j < 16 {
                    assert(r2[j] == r2.subrange(0, 16)[j]);
                } else if j < 24 {
                    assert(r2[j] == r2.subrange(16, 24)[j - 16]);
                } else {
                    assert(r2[j] == r2.subrange(24, 32)[j - 24]);
                }
            }
            assert(r2 =~= want);
            lemma_entries_appended(self.file@, *entry, self.order);
        }
        self.file.extend_from_slice(record.as_slice());
    }
}

} // verus!
