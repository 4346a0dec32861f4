//! The record store: records appended to the data file, found again by id
//! or by UUID through the offsets log.

use vstd::prelude::*;
use std::collections::HashMap;
use crate::bytes::{native_order, uint_bytes, uint_value, Endian};
use crate::database::mapped_file::MappedFile;
use crate::database::structured_log::{entries, entry_bytes, LogEntry, StructuredLog};
use crate::error::{Corruption, StoreError};

verus! {

broadcast use vstd::std_specs::hash::group_hash_axioms;

/// Bytes the header of the data file takes: the append offset.
pub const DATA_HEADER_SIZE: usize = 8;

/// What a store is: the byte order of the integers in its files, the bytes
/// of its two files, where the next record goes, and where each id and
/// each UUID is found.
pub struct StoreView {
    pub order: Endian,
    pub log: Seq<u8>,
    pub data: Seq<u8>,
    pub cursor: nat,
    pub ids: Map<u64, u64>,
    pub uuids: Map<u128, u64>,
}

/// Where each id is found according to `log`: the offset of the last entry
/// with that id.
pub open spec fn ids_of(log: Seq<LogEntry>) -> Map<u64, u64>
    decreases log.len(),
{
    if log.len() == 0 {
        Map::empty()
    } else {
        ids_of(log.drop_last()).insert(log.last().id, log.last().offset)
    }
}

/// Where each UUID is found according to `log`: the offset of the last entry
/// with that UUID.
pub open spec fn uuids_of(log: Seq<LogEntry>) -> Map<u128, u64>
    decreases log.len(),
{
    if log.len() == 0 {
        Map::empty()
    } else {
        uuids_of(log.drop_last()).insert(log.last().uuid, log.last().offset)
    }
}

/// The offset that the last entry of `log` points at; the end of the header
/// for a log without entries.
pub open spec fn last_offset(log: Seq<LogEntry>) -> nat {
    if log.len() == 0 {
        8
    } else {
        log.last().offset as nat
    }
}

/// The append offset that the header of `data` holds.
pub open spec fn header_of(data: Seq<u8>, order: Endian) -> nat {
    uint_value(order, data.subrange(0, 8))
}

/// What opening the two files gives, read in the given byte order: the
/// store they hold, or what is wrong with them. The checks are made in this
/// order: the length of the log, the last entry of the log against the
/// length of the data file, the presence of the header, and the append
/// offset it holds.
pub open spec fn open_outcome(log: Seq<u8>, data: Seq<u8>, order: Endian) -> Result<
    StoreView,
    StoreError,
> {
    if log.len() % 32 != 0 {
        Err(StoreError::Corrupt(Corruption::LogSize))
    } else if last_offset(entries(log, order)) > data.len() {
        Err(StoreError::Corrupt(Corruption::UnreachableOffset))
    } else if data.len() < 8 {
        Err(StoreError::Corrupt(Corruption::MissingHeader))
    } else if header_of(data, order) < 8 {
        Err(StoreError::Corrupt(Corruption::AppendOffsetTooSmall))
    } else if header_of(data, order) > data.len() {
        Err(StoreError::Corrupt(Corruption::AppendOffsetTooLarge))
    } else {
        Ok(
            StoreView {
                order,
                log,
                data,
                cursor: header_of(data, order),
                ids: ids_of(entries(log, order)),
                uuids: uuids_of(entries(log, order)),
            },
        )
    }
}

/// How long the data file of a fresh store of `initial_size` bytes is: never
/// shorter than its header.
pub open spec fn fresh_len(initial_size: nat) -> nat {
    if initial_size > 8 {
        initial_size
    } else {
        8
    }
}

/// The store without records in a data file of `initial_size` bytes.
pub open spec fn fresh_store(initial_size: nat, order: Endian) -> StoreView {
    StoreView {
        order,
        log: Seq::empty(),
        data: fresh_data(initial_size, order),
        cursor: 8,
        ids: Map::empty(),
        uuids: Map::empty(),
    }
}

/// The data file of a fresh store of `initial_size` bytes: a header that
/// points right behind itself, then zeros. A store is never shorter than
/// its header.
pub open spec fn fresh_data(initial_size: nat, order: Endian) -> Seq<u8> {
    uint_bytes(order, 8, 8) + Seq::new(
        if initial_size > 8 {
            (initial_size - 8) as nat
        } else {
            0
        },
        |i: int| 0u8,
    )
}

/// The store after the record `record` with the identities `id` and `uuid`
/// has been added: the record is at the old cursor, the log has one more
/// entry, both lookups point at the record, and the header holds the new
/// cursor.
pub open spec fn added(store: StoreView, id: u64, uuid: u128, record: Seq<u8>) -> StoreView {
    let at = store.cursor;
    let end = at + record.len();
    StoreView {
        order: store.order,
        log: store.log + entry_bytes(LogEntry { uuid, id, offset: at as u64 }, store.order),
        data: uint_bytes(store.order, end, 8) + store.data.subrange(8, at as int) + record
            + store.data.subrange(end as int, store.data.len() as int),
        cursor: end,
        ids: store.ids.insert(id, at as u64),
        uuids: store.uuids.insert(uuid, at as u64),
    }
}

/// What looking up a record that the index places at `found` gives: nothing
/// where the index does not know the key, the bytes of the data file from
/// the record's first byte on where it does, and an error where the index
/// points past the data file.
pub open spec fn lookup(data: Seq<u8>, found: Option<u64>) -> Result<Option<Seq<u8>>, StoreError> {
    match found {
        None => Ok(None),
        Some(at) => if at <= data.len() {
            Ok(Some(data.subrange(at as int, data.len() as int)))
        } else {
            Err(StoreError::Corrupt(Corruption::UnreachableOffset))
        },
    }
}

/// What `get_by_id` gives on `store`.
pub open spec fn lookup_by_id(store: StoreView, id: u64) -> Result<Option<Seq<u8>>, StoreError> {
    lookup(
        store.data,
        if store.ids.contains_key(id) {
            Some(store.ids[id])
        } else {
            None
        },
    )
}

/// What `get_by_uuid` gives on `store`.
pub open spec fn lookup_by_uuid(store: StoreView, uuid: u128) -> Result<
    Option<Seq<u8>>,
    StoreError,
> {
    lookup(
        store.data,
        if store.uuids.contains_key(uuid) {
            Some(store.uuids[uuid])
        } else {
            None
        },
    )
}

/// An append-only store of records. Each record is known by a 64-bit id and
/// by a UUID; the store keeps its bytes and does not look inside them.
pub struct BincodeDatabase {
    offsets: StructuredLog,
    data: MappedFile,
    uuid_index: HashMap<u128, u64>,
    id_index: HashMap<u64, u64>,
}

impl View for BincodeDatabase {
    type V = StoreView;

    closed spec fn view(&self) -> StoreView {
        StoreView {
            order: self.offsets.byte_order(),
            log: self.offsets.bytes(),
            data: self.data.bytes(),
            cursor: self.data.cursor(),
            ids: self.id_index@,
            uuids: self.uuid_index@,
        }
    }
}

impl BincodeDatabase {
    /// The store is what opening its own two files gives.
    pub closed spec fn wf(self) -> bool {
        &&& self.offsets.wf()
        &&& self.data.wf()
        &&& open_outcome(self@.log, self@.data, self@.order) == Ok::<StoreView, StoreError>(self@)
    }

    /// Opens the store that the bytes of the offsets log and of the data
    /// file hold, reading them in the byte order of this machine.
    pub fn open(log: Vec<u8>, data: Vec<u8>) -> (opened: Result<BincodeDatabase, StoreError>)
        ensures
            match opened {
                Ok(db) => db.wf() && open_outcome(log@, data@, db@.order) == Ok::<
                    StoreView,
                    StoreError,
                >(db@),
                Err(e) => exists|order: Endian| #[trigger]
                    open_outcome(log@, data@, order) == Err::<StoreView, StoreError>(e),
            },
    {
        BincodeDatabase::open_with(log, data, native_order())
    }

    /// Opens the store that the bytes of the offsets log and of the data
    /// file hold, reading them in the given byte order.
    pub fn open_with(log: Vec<u8>, data: Vec<u8>, order: Endian) -> (opened: Result<
        BincodeDatabase,
        StoreError,
    >)
        ensures
            match opened {
                Ok(db) => db.wf() && open_outcome(log@, data@, order) == Ok::<
                    StoreView,
                    StoreError,
                >(db@),
                Err(e) => open_outcome(log@, data@, order) == Err::<StoreView, StoreError>(e),
            },
    {
        let offsets = match StructuredLog::new(log, order) {
            Ok(l) => l,
            Err(e) => {
                return Err(e);
            },
        };
        let all = offsets.for_each_entry();
        let num_entries = all.len();
        let mut id_index: HashMap<u64, u64> = HashMap::with_capacity(num_entries);
        let mut uuid_index: HashMap<u128, u64> = HashMap::with_capacity(num_entries);
        let mut max_offset: u64 = 8;
        let mut i: usize = 0;
        while i < num_entries
            invariant
                i <= num_entries,
                num_entries == all@.len(),
                id_index@ == ids_of(all@.take(i as int)),
                uuid_index@ == uuids_of(all@.take(i as int)),
                max_offset as nat == last_offset(all@.take(i as int)),
            decreases num_entries - i,
        {
            let entry = all[i];
            proof {
                assert(all@.take(i + 1).drop_last() =~= all@.take(i as int));
                assert(all@.take(i + 1).last() == entry);
            }
            max_offset = entry.offset;
            uuid_index.insert(entry.uuid, max_offset);
            id_index.insert(entry.id, max_offset);
            i += 1;
        }
        proof {
            assert(all@.take(num_entries as int) =~= all@);
        }
        let mut data = MappedFile::open(data);
        let len = data.len();
        if max_offset > len as u64 {
            return Err(StoreError::Corrupt(Corruption::UnreachableOffset));
        }
        if len < DATA_HEADER_SIZE {
            return Err(StoreError::Corrupt(Corruption::MissingHeader));
        }
        let append_offset = data.load_u64(0, order);
        if append_offset < DATA_HEADER_SIZE as u64 {
            return Err(StoreError::Corrupt(Corruption::AppendOffsetTooSmall));
        }
        if append_offset > len as u64 {
            return Err(StoreError::Corrupt(Corruption::AppendOffsetTooLarge));
        }
        match data.set_append_offset(append_offset as usize) {
            Ok(_) => {},
            Err(e) => {
                return Err(e);
            },
        }
        Ok(BincodeDatabase { offsets, data, uuid_index, id_index })
    }

    /// Makes a store with no records and a data file of `initial_size`
    /// bytes, header included, in the byte order of this machine. Where one
    /// of the two files is already there, nothing is made.
    pub fn create(offsets_exists: bool, data_exists: bool, initial_size: u64) -> (created: Result<
        BincodeDatabase,
        StoreError,
    >)
        requires
            initial_size <= usize::MAX,
        ensures
            match created {
                Ok(db) => {
                    &&& !offsets_exists && !data_exists
                    &&& db.wf()
                    &&& db@ == fresh_store(initial_size as nat, db@.order)
                    &&& db@.data.len() == fresh_len(initial_size as nat)
                },
                Err(e) => e == StoreError::AlreadyExists && (offsets_exists || data_exists),
            },
    {
        BincodeDatabase::create_with(offsets_exists, data_exists, initial_size, native_order())
    }

    /// Makes a store with no records and a data file of `initial_size`
    /// bytes, header included, in the given byte order. Where one of the
    /// two files is already there, nothing is made.
    pub fn create_with(
        offsets_exists: bool,
        data_exists: bool,
        initial_size: u64,
        order: Endian,
    ) -> (created: Result<BincodeDatabase, StoreError>)
        requires
            initial_size <= usize::MAX,
        ensures
            match created {
                Ok(db) => {
                    &&& !offsets_exists && !data_exists
                    &&& db.wf()
                    &&& db@ == fresh_store(initial_size as nat, order)
                    &&& db@.data.len() == fresh_len(initial_size as nat)
                },
                Err(e) => e == StoreError::AlreadyExists && (offsets_exists || data_exists),
            },
    {
        if offsets_exists || data_exists {
            return Err(StoreError::AlreadyExists);
        }
        let size: usize = if initial_size < DATA_HEADER_SIZE as u64 {
            DATA_HEADER_SIZE
        } else {
            initial_size as usize
        };
        let mut bytes: Vec<u8> = Vec::new();
        bytes.resize(size, 0u8);
        let mut file = MappedFile::open(bytes);
        let ghost zeros = file.bytes();
        file.store_u64(0, DATA_HEADER_SIZE as u64, order);
        let data = file.into_bytes();
        proof {
            let fresh = fresh_data(initial_size as nat, order);
            crate::bytes::lemma_radix_values();
            crate::bytes::lemma_uint_value_of_bytes(order, 8, 8);
            assert(data@ =~= fresh);
            assert(fresh.subrange(0, 8) =~= uint_bytes(order, 8, 8));
            assert(entries(Seq::<u8>::empty(), order) =~= Seq::<LogEntry>::empty());
        }
        match BincodeDatabase::open_with(Vec::new(), data, order) {
            Ok(db) => Ok(db),
            Err(e) => {
                proof {
                    assert(false);
                }
                Err(e)
            },
        }
    }

    /// Appends `record` and makes it known under `id` and `uuid`. The record
    /// goes to the data file, its entry to the log, the two lookups learn
    /// it, and last the header takes the new append offset. A record that
    /// does not fit in what is left of the data file is refused and nothing
    /// changes; the data file never grows.
    pub fn add(&mut self, id: u64, uuid: u128, record: &[u8]) -> (stored: Result<(), StoreError>)
        requires
            old(self).wf(),
        ensures
            final(self).wf(),
            final(self)@.data.len() == old(self)@.data.len(),
            match stored {
                Ok(_) => {
                    &&& old(self)@.cursor + record@.len() <= old(self)@.data.len()
                    &&& final(self)@ == added(old(self)@, id, uuid, record@)
                },
                Err(e) => {
                    &&& e == StoreError::Full
                    &&& old(self)@.cursor + record@.len() > old(self)@.data.len()
                    &&& final(self)@ == old(self)@
                },
            },
    {
        let ghost before = self@;
        let len = self.data.len();
        let read_offset = match self.data.append(record) {
            Ok(at) => at,
            Err(e) => {
                return Err(e);
            },
        };
        let entry = LogEntry::new(uuid, id, read_offset);
        self.offsets.append(&entry);
        self.uuid_index.insert(uuid, read_offset as u64);
        self.id_index.insert(id, read_offset as u64);
        let new_append_offset = self.data.offset() as u64;
        let order = self.offsets.order();
        self.data.store_u64(0, new_append_offset, order);
        proof {
            let after = self@;
            lemma_added_is_consistent(before, id, uuid, record@);
            assert(after.data =~= added(before, id, uuid, record@).data);
            assert(after == added(before, id, uuid, record@));
        }
        Ok(())
    }

    /// The bytes of the data file from the first byte of the record with
    /// this id on, or nothing where no record has the id. The record's own
    /// encoding says where it ends.
    pub fn get_by_id(&self, id: u64) -> (found: Result<Option<&[u8]>, StoreError>)
        ensures
            match found {
                Ok(Some(bytes)) => lookup_by_id(self@, id) == Ok::<Option<Seq<u8>>, StoreError>(
                    Some(bytes@),
                ),
                Ok(None) => lookup_by_id(self@, id) == Ok::<Option<Seq<u8>>, StoreError>(None),
                Err(e) => lookup_by_id(self@, id) == Err::<Option<Seq<u8>>, StoreError>(e),
            },
    {
        match self.id_index.get(&id) {
            Some(offset) => self.read_at(*offset),
            None => Ok(None),
        }
    }

    /// The bytes of the data file from the first byte of the record with
    /// this UUID on, or nothing where no record has the UUID.
    pub fn get_by_uuid(&self, uuid: u128) -> (found: Result<Option<&[u8]>, StoreError>)
        ensures
            match found {
                Ok(Some(bytes)) => lookup_by_uuid(self@, uuid) == Ok::<
                    Option<Seq<u8>>,
                    StoreError,
                >(Some(bytes@)),
                Ok(None) => lookup_by_uuid(self@, uuid) == Ok::<Option<Seq<u8>>, StoreError>(None),
                Err(e) => lookup_by_uuid(self@, uuid) == Err::<Option<Seq<u8>>, StoreError>(e),
            },
    {
        match self.uuid_index.get(&uuid) {
            Some(offset) => self.read_at(*offset),
            None => Ok(None),
        }
    }

    /// The bytes of the data file from `offset` on.
    fn read_at(&self, offset: u64) -> (found: Result<Option<&[u8]>, StoreError>)
        ensures
            match found {
                Ok(Some(bytes)) => lookup(self@.data, Some(offset)) == Ok::<
                    Option<Seq<u8>>,
                    StoreError,
                >(Some(bytes@)),
                Ok(None) => false,
                Err(e) => lookup(self@.data, Some(offset)) == Err::<Option<Seq<u8>>, StoreError>(e),
            },
    {
        let len = self.data.len();
        if offset <= len as u64 {
            Ok(Some(self.data.slice(offset as usize, len)))
        } else {
            Err(StoreError::Corrupt(Corruption::UnreachableOffset))
        }
    }

    /// The bytes of the offsets log, as they are persisted.
    pub fn log_bytes(&self) -> (bytes: &[u8])
        ensures
            bytes@ == self@.log,
    {
        self.offsets.as_bytes()
    }

    /// The bytes of the data file, as they are persisted.
    pub fn data_bytes(&self) -> (bytes: &[u8])
        ensures
            bytes@ == self@.data,
    {
        self.data.as_slice()
    }

    /// The byte order of the integers in the two files.
    pub fn byte_order(&self) -> (order: Endian)
        ensures
            order == self@.order,
    {
        self.offsets.order()
    }

    /// Where the next record goes.
    pub fn append_offset(&self) -> (at: usize)
        ensures
            at == self@.cursor,
    {
        self.data.offset()
    }

    /// Reopening the files of a store in the byte order they were written
    /// in gives the same store: the same bytes, the same append offset and
    /// the same lookups.
    pub proof fn lemma_reopen_gives_same_store(self)
        requires
            self.wf(),
        ensures
            open_outcome(self@.log, self@.data, self@.order) == Ok::<StoreView, StoreError>(
                self@,
            ),
    {
    }
}

/// A store is what opening its own files gives.
pub open spec fn consistent(store: StoreView) -> bool {
    open_outcome(store.log, store.data, store.order) == Ok::<StoreView, StoreError>(store)
}

/// The store knows the record `record` under `id` and under `uuid`: both
/// lookups point at one place, and the record's bytes are there, behind the
/// header and before the append offset.
pub open spec fn holds(store: StoreView, id: u64, uuid: u128, record: Seq<u8>) -> bool {
    &&& store.ids.contains_key(id)
    &&& store.uuids.contains_key(uuid)
    &&& store.ids[id] == store.uuids[uuid]
    &&& 8 <= store.ids[id]
    &&& store.ids[id] + record.len() <= store.cursor
    &&& store.data.subrange(store.ids[id] as int, store.ids[id] + record.len()) == record
}

/// Adding a record that fits to a store that its files describe gives a
/// store that its files describe, with a data file of the same length.
pub proof fn lemma_added_is_consistent(store: StoreView, id: u64, uuid: u128, record: Seq<u8>)
    requires
        consistent(store),
        store.cursor + record.len() <= store.data.len(),
        store.data.len() <= u64::MAX,
    ensures
        consistent(added(store, id, uuid, record)),
        added(store, id, uuid, record).data.len() == store.data.len(),
{
    let at = store.cursor;
    let end = at + record.len();
    let next = added(store, id, uuid, record);
    let entry = LogEntry { uuid, id, offset: at as u64 };
    crate::database::structured_log::lemma_entries_appended(store.log, entry, store.order);
    crate::bytes::lemma_radix_values();
    crate::bytes::lemma_uint_value_of_bytes(store.order, end, 8);
    assert(next.data.subrange(0, 8) =~= uint_bytes(store.order, end, 8));
    let log = entries(next.log, store.order);
    assert(log.drop_last() =~= entries(store.log, store.order));
    assert(log.last() == entry);
}

/// A record that was added is found by its id and by its UUID, both ways
/// give the same bytes, and these begin with the record.
pub proof fn lemma_added_record_is_found(store: StoreView, id: u64, uuid: u128, record: Seq<u8>)
    requires
        consistent(store),
        store.cursor + record.len() <= store.data.len(),
        store.data.len() <= u64::MAX,
    ensures
        holds(added(store, id, uuid, record), id, uuid, record),
        lookup_by_id(added(store, id, uuid, record), id) == lookup_by_uuid(
            added(store, id, uuid, record),
            uuid,
        ),
        lookup_by_id(added(store, id, uuid, record), id) is Ok,
        lookup_by_id(added(store, id, uuid, record), id)->Ok_0 is Some,
        lookup_by_id(added(store, id, uuid, record), id)->Ok_0->0.subrange(
            0,
            record.len() as int,
        ) == record,
{
    let at = store.cursor;
    let next = added(store, id, uuid, record);
    crate::bytes::lemma_radix_values();
    crate::bytes::lemma_uint_value_of_bytes(store.order, at + record.len(), 8);
    assert(next.data.subrange(at as int, (at + record.len()) as int) =~= record);
    let tail = next.data.subrange(at as int, next.data.len() as int);
    assert(tail.subrange(0, record.len() as int) =~= record);
}

/// A record that the store knows stays known, with the same bytes, when a
/// record with another id and another UUID is added.
pub proof fn lemma_added_keeps_records(
    store: StoreView,
    id: u64,
    uuid: u128,
    record: Seq<u8>,
    known_id: u64,
    known_uuid: u128,
    known: Seq<u8>,
)
    requires
        consistent(store),
        store.cursor + record.len() <= store.data.len(),
        store.data.len() <= u64::MAX,
        holds(store, known_id, known_uuid, known),
        known_id != id,
        known_uuid != uuid,
    ensures
        holds(added(store, id, uuid, record), known_id, known_uuid, known),
{
    let next = added(store, id, uuid, record);
    let at = store.ids[known_id] as int;
    crate::bytes::lemma_radix_values();
    crate::bytes::lemma_uint_value_of_bytes(store.order, store.cursor + record.len(), 8);
    assert(next.data.subrange(at, at + known.len()) =~= store.data.subrange(
        at,
        at + known.len(),
    ));
}

} // verus!
