use cantine::bytes::{native_order, Endian};
use cantine::database::bincodedb::BincodeDatabase;
use cantine::database::mapped_file::MappedFile;
use cantine::database::structured_log::{LogEntry, StructuredLog};
use cantine::error::{Corruption, StoreError};
use uuid::Uuid;

#[derive(Debug, PartialEq, Clone, Copy)]
struct Item(u64, Uuid);

impl Item {
    fn new(id: u64) -> Self {
        Self(id, Uuid::new_v4())
    }

    fn get_id(&self) -> u64 {
        self.0
    }

    fn get_uuid(&self) -> &Uuid {
        &self.1
    }

    fn encode(&self) -> Vec<u8> {
        bincode::serialize(&(self.0, *self.1.as_bytes())).unwrap()
    }

    fn decode(bytes: &[u8]) -> Self {
        let (id, uuid): (u64, [u8; 16]) = bincode::deserialize(bytes).unwrap();
        Self(id, Uuid::from_bytes(uuid))
    }
}

fn add(db: &mut BincodeDatabase, item: &Item) -> Result<(), StoreError> {
    db.add(item.get_id(), item.get_uuid().as_u128(), &item.encode())
}

fn by_id(db: &BincodeDatabase, id: u64) -> Option<Item> {
    db.get_by_id(id).unwrap().map(Item::decode)
}

fn by_uuid(db: &BincodeDatabase, uuid: &Uuid) -> Option<Item> {
    db.get_by_uuid(uuid.as_u128()).unwrap().map(Item::decode)
}

fn reopen(db: BincodeDatabase) -> BincodeDatabase {
    BincodeDatabase::open(db.log_bytes().to_vec(), db.data_bytes().to_vec()).unwrap()
}

fn open_empty() -> Result<BincodeDatabase, StoreError> {
    BincodeDatabase::create(false, false, 10)
}

#[test]
fn can_open_empty_db() {
    open_empty().unwrap();
}

#[test]
fn get_on_empty_works() {
    assert_eq!(None, by_uuid(&open_empty().unwrap(), &Uuid::new_v4()));
    assert_eq!(None, by_id(&open_empty().unwrap(), 42));
}

#[test]
fn can_add_and_get() {
    let mut db = BincodeDatabase::create(false, false, 1_000).unwrap();

    let one = Item::new(1);
    let two = Item::new(2);
    let three = Item::new(3);

    add(&mut db, &one).unwrap();
    add(&mut db, &two).unwrap();
    add(&mut db, &three).unwrap();

    assert_eq!(Some(one), by_id(&db, 1));
    assert_eq!(Some(three), by_id(&db, 3));
    assert_eq!(Some(two), by_id(&db, 2));
}

#[test]
fn add_updates_both_indices_correctly() {
    let mut db = BincodeDatabase::create(false, false, 1_000).unwrap();

    let item = Item::new(42);
    add(&mut db, &item).unwrap();

    assert_eq!(by_id(&db, item.get_id()), by_uuid(&db, item.get_uuid()));
    assert_eq!(Some(item), by_id(&db, 42));
}

#[test]
fn cannot_overwrite_database() {
    let created = BincodeDatabase::create(false, false, 1);
    assert!(created.is_ok());
    let overwrite_result = BincodeDatabase::create(true, true, 1);
    assert!(overwrite_result.is_err());
    assert_eq!(overwrite_result.err(), Some(StoreError::AlreadyExists));
    assert_eq!(
        BincodeDatabase::create(true, false, 1).err(),
        Some(StoreError::AlreadyExists)
    );
    assert_eq!(
        BincodeDatabase::create(false, true, 1).err(),
        Some(StoreError::AlreadyExists)
    );
}

#[test]
fn can_load_existing_database() {
    const DB_SIZE: u64 = 1_000;

    let one = Item::new(1);
    let two = Item::new(2);
    let three = Item::new(3);

    let db = {
        let mut db = BincodeDatabase::create(false, false, DB_SIZE).unwrap();

        add(&mut db, &one).unwrap();
        add(&mut db, &two).unwrap();
        db
    };

    let db = {
        let mut db = reopen(db);
        add(&mut db, &three).unwrap();
        db
    };

    let existing_db = reopen(db);
    assert_eq!(Some(one), by_uuid(&existing_db, one.get_uuid()));
    assert_eq!(Some(two), by_uuid(&existing_db, two.get_uuid()));
    assert_eq!(Some(three), by_uuid(&existing_db, three.get_uuid()));

    assert_eq!(DB_SIZE, existing_db.data_bytes().len() as u64);
}

#[test]
fn store_round_trip() {
    let items = [Item::new(1), Item::new(2), Item::new(3)];
    let mut db = BincodeDatabase::create(false, false, 1000).unwrap();
    for item in &items {
        add(&mut db, item).unwrap();
    }
    let mut db = reopen(db);
    let four = Item::new(4);
    add(&mut db, &four).unwrap();
    let db = reopen(db);
    for item in items.iter().chain([four].iter()) {
        assert_eq!(Some(*item), by_id(&db, item.get_id()));
        assert_eq!(Some(*item), by_uuid(&db, item.get_uuid()));
    }
    assert_eq!(None, by_id(&db, 5));
    assert_eq!(db.data_bytes().len(), 1000);
    assert_eq!(db.log_bytes().len(), 4 * 32);
}

#[test]
fn fresh_store_layout() {
    let db = BincodeDatabase::create_with(false, false, 12, Endian::Little).unwrap();
    assert_eq!(db.data_bytes(), &[8, 0, 0, 0, 0, 0, 0, 0, 0, 0, 0, 0]);
    assert_eq!(db.log_bytes().len(), 0);
    assert_eq!(db.append_offset(), 8);

    let tiny = BincodeDatabase::create_with(false, false, 1, Endian::Little).unwrap();
    assert_eq!(tiny.data_bytes(), &[8, 0, 0, 0, 0, 0, 0, 0]);
    assert_eq!(tiny.append_offset(), 8);
}

#[test]
fn add_writes_record_log_entry_and_header() {
    let mut db = BincodeDatabase::create_with(false, false, 16, Endian::Little).unwrap();
    assert_eq!(db.byte_order(), Endian::Little);
    let uuid = 0x0102_0304_0506_0708_090a_0b0c_0d0e_0f10u128;
    db.add(0x1122, uuid, &[0xAA, 0xBB, 0xCC]).unwrap();
    assert_eq!(
        db.data_bytes(),
        &[11, 0, 0, 0, 0, 0, 0, 0, 0xAA, 0xBB, 0xCC, 0, 0, 0, 0, 0]
    );
    assert_eq!(
        db.log_bytes(),
        &[
            1, 2, 3, 4, 5, 6, 7, 8, 9, 10, 11, 12, 13, 14, 15, 16, 0x22, 0x11, 0, 0, 0, 0, 0, 0,
            8, 0, 0, 0, 0, 0, 0, 0
        ]
    );
    assert_eq!(db.append_offset(), 11);
    assert_eq!(
        db.get_by_id(0x1122).unwrap(),
        Some(&[0xAA, 0xBB, 0xCC, 0, 0, 0, 0, 0][..])
    );
    assert_eq!(db.get_by_uuid(uuid).unwrap(), db.get_by_id(0x1122).unwrap());
    assert_eq!(db.get_by_uuid(uuid + 1).unwrap(), None);
}

#[test]
fn add_fails_when_full_and_changes_nothing() {
    let mut db = BincodeDatabase::create_with(false, false, 12, Endian::Little).unwrap();
    assert_eq!(db.add(1, 1, &[1, 2, 3, 4, 5]), Err(StoreError::Full));
    assert_eq!(db.data_bytes(), &[8, 0, 0, 0, 0, 0, 0, 0, 0, 0, 0, 0]);
    assert_eq!(db.log_bytes().len(), 0);
    assert_eq!(db.get_by_id(1).unwrap(), None);

    assert_eq!(db.add(1, 1, &[1, 2, 3, 4]), Ok(()));
    assert_eq!(db.data_bytes().len(), 12);
    assert_eq!(db.add(2, 2, &[9]), Err(StoreError::Full));
    assert_eq!(db.add(3, 3, &[]), Ok(()));
    assert_eq!(db.get_by_id(1).unwrap(), Some(&[1, 2, 3, 4][..]));
    assert_eq!(db.get_by_id(3).unwrap(), Some(&[][..]));
    assert_eq!(db.data_bytes().len(), 12);
}

#[test]
fn open_rejects_truncated_log() {
    let mut db = BincodeDatabase::create(false, false, 100).unwrap();
    db.add(1, 1, &[1]).unwrap();
    let data = db.data_bytes().to_vec();
    for cut in [1usize, 31, 33, 63] {
        let mut log = db.log_bytes().to_vec();
        log.resize(cut, 0);
        assert_eq!(
            BincodeDatabase::open(log, data.clone()).err(),
            Some(StoreError::Corrupt(Corruption::LogSize))
        );
    }
}

#[test]
fn open_rejects_log_pointing_past_data() {
    let mut db = BincodeDatabase::create(false, false, 100).unwrap();
    db.add(1, 1, &[1; 50]).unwrap();
    db.add(2, 2, &[2; 10]).unwrap();
    let log = db.log_bytes().to_vec();
    let mut data = db.data_bytes().to_vec();
    data.truncate(57);
    assert_eq!(
        BincodeDatabase::open(log, data).err(),
        Some(StoreError::Corrupt(Corruption::UnreachableOffset))
    );
    assert_eq!(
        BincodeDatabase::open(Vec::new(), vec![8, 0, 0, 0, 0, 0, 0]).err(),
        Some(StoreError::Corrupt(Corruption::UnreachableOffset))
    );
    assert_eq!(
        BincodeDatabase::open(Vec::new(), Vec::new()).err(),
        Some(StoreError::Corrupt(Corruption::UnreachableOffset))
    );
}

#[test]
fn open_rejects_bad_header() {
    let little = Endian::Little;
    assert_eq!(
        BincodeDatabase::open_with(Vec::new(), vec![7, 0, 0, 0, 0, 0, 0, 0, 0, 0], little).err(),
        Some(StoreError::Corrupt(Corruption::AppendOffsetTooSmall))
    );
    assert_eq!(
        BincodeDatabase::open_with(Vec::new(), vec![11, 0, 0, 0, 0, 0, 0, 0, 0, 0], little).err(),
        Some(StoreError::Corrupt(Corruption::AppendOffsetTooLarge))
    );
    assert_eq!(
        BincodeDatabase::open_with(Vec::new(), vec![0, 0, 0, 0, 0, 0, 0, 1, 0, 0], little).err(),
        Some(StoreError::Corrupt(Corruption::AppendOffsetTooLarge))
    );
    assert_eq!(
        BincodeDatabase::open_with(Vec::new(), vec![0, 0, 0, 0, 0, 0, 0, 1, 0, 0], Endian::Big)
            .err(),
        Some(StoreError::Corrupt(Corruption::AppendOffsetTooSmall))
    );
    assert_eq!(
        BincodeDatabase::open_with(Vec::new(), vec![0, 0, 0, 8, 0, 0, 0, 0], little).err(),
        Some(StoreError::Corrupt(Corruption::AppendOffsetTooLarge))
    );
    assert_eq!(
        BincodeDatabase::open_with(Vec::new(), vec![0; 9], little).err(),
        Some(StoreError::Corrupt(Corruption::AppendOffsetTooSmall))
    );
    let db =
        BincodeDatabase::open_with(Vec::new(), vec![10, 0, 0, 0, 0, 0, 0, 0, 0, 0], little).unwrap();
    assert_eq!(db.append_offset(), 10);
    let db = BincodeDatabase::open_with(Vec::new(), vec![0, 0, 0, 0, 0, 0, 0, 9, 0, 0], Endian::Big)
        .unwrap();
    assert_eq!(db.append_offset(), 9);
}

#[test]
fn open_rejects_data_without_header() {
    let mut log = StructuredLog::new(Vec::new(), Endian::Little).unwrap();
    log.append(&LogEntry::new(1, 1, 3));
    assert_eq!(
        BincodeDatabase::open_with(log.as_bytes().to_vec(), vec![0; 5], Endian::Little).err(),
        Some(StoreError::Corrupt(Corruption::MissingHeader))
    );
    assert_eq!(
        BincodeDatabase::open_with(log.as_bytes().to_vec(), vec![0; 2], Endian::Little).err(),
        Some(StoreError::Corrupt(Corruption::UnreachableOffset))
    );
}

#[test]
fn big_endian_store_layout() {
    let mut db = BincodeDatabase::create_with(false, false, 12, Endian::Big).unwrap();
    assert_eq!(db.data_bytes(), &[0, 0, 0, 0, 0, 0, 0, 8, 0, 0, 0, 0]);
    db.add(0x1122, 1, &[0xAA]).unwrap();
    assert_eq!(db.data_bytes(), &[0, 0, 0, 0, 0, 0, 0, 9, 0xAA, 0, 0, 0]);
    assert_eq!(
        db.log_bytes(),
        &[
            0, 0, 0, 0, 0, 0, 0, 0, 0, 0, 0, 0, 0, 0, 0, 1, 0, 0, 0, 0, 0, 0, 0x11, 0x22, 0, 0,
            0, 0, 0, 0, 0, 8
        ]
    );
    let again = BincodeDatabase::open_with(
        db.log_bytes().to_vec(),
        db.data_bytes().to_vec(),
        Endian::Big,
    )
    .unwrap();
    assert_eq!(again.get_by_id(0x1122).unwrap(), Some(&[0xAA, 0, 0, 0][..]));
    assert_eq!(again.get_by_uuid(1).unwrap(), again.get_by_id(0x1122).unwrap());
    assert_eq!(again.byte_order(), Endian::Big);
}

#[test]
fn stores_use_the_byte_order_of_the_machine() {
    let expected = if u16::from_ne_bytes([1, 0]) == 1 {
        Endian::Little
    } else {
        Endian::Big
    };
    assert_eq!(native_order(), expected);
    let db = BincodeDatabase::create(false, false, 16).unwrap();
    assert_eq!(db.byte_order(), expected);
    assert_eq!(&db.data_bytes()[..8], &8u64.to_ne_bytes());
    let again = reopen(db);
    assert_eq!(again.byte_order(), expected);
}

#[test]
fn later_log_entry_wins() {
    let mut db = BincodeDatabase::create(false, false, 100).unwrap();
    db.add(7, 70, &[1]).unwrap();
    db.add(7, 71, &[2]).unwrap();
    let db = reopen(db);
    assert_eq!(db.get_by_id(7).unwrap().unwrap()[0], 2);
    assert_eq!(db.get_by_uuid(70).unwrap().unwrap()[0], 1);
    assert_eq!(db.get_by_uuid(71).unwrap().unwrap()[0], 2);
}

#[test]
fn lookup_past_data_is_reported() {
    let mut log = Vec::new();
    log.extend_from_slice(&[0u8; 16]);
    log.extend_from_slice(&5u64.to_le_bytes());
    assert_eq!(log.len(), 24);
    log.extend_from_slice(&500u64.to_le_bytes());
    log.extend_from_slice(&[0u8; 15]);
    log.push(1);
    log.extend_from_slice(&6u64.to_le_bytes());
    log.extend_from_slice(&8u64.to_le_bytes());
    let db =
        BincodeDatabase::open_with(log, vec![8, 0, 0, 0, 0, 0, 0, 0, 0, 0], Endian::Little).unwrap();
    assert_eq!(
        db.get_by_id(5).err(),
        Some(StoreError::Corrupt(Corruption::UnreachableOffset))
    );
    assert_eq!(db.get_by_id(6).unwrap(), Some(&[0u8, 0][..]));
    assert_eq!(db.get_by_uuid(1).unwrap(), Some(&[0u8, 0][..]));
}

#[test]
fn mapped_file_appends_without_growing() {
    let mut file = MappedFile::open(vec![0u8; 6]);
    assert_eq!(file.len(), 6);
    assert_eq!(file.offset(), 0);
    assert_eq!(file.append(&[1, 2]), Ok(0));
    assert_eq!(file.append(&[3]), Ok(2));
    assert_eq!(file.offset(), 3);
    assert_eq!(file.append(&[4, 5, 6, 7]), Err(StoreError::Full));
    assert_eq!(file.as_slice(), &[1, 2, 3, 0, 0, 0]);
    assert_eq!(file.offset(), 3);
    assert_eq!(file.append(&[4, 5, 6]), Ok(3));
    assert_eq!(file.slice(1, 4), &[2, 3, 4]);
    assert_eq!(file.len(), 6);
    assert_eq!(file.append(&[]), Ok(6));
    assert_eq!(file.append(&[0]), Err(StoreError::Full));
}

#[test]
fn mapped_file_cursor_moves_inside_only() {
    let mut file = MappedFile::open(vec![0u8; 10]);
    assert_eq!(file.set_append_offset(10), Ok(()));
    assert_eq!(file.offset(), 10);
    assert_eq!(
        file.set_append_offset(11),
        Err(StoreError::Corrupt(Corruption::AppendOffsetTooLarge))
    );
    assert_eq!(file.offset(), 10);
    assert_eq!(file.set_append_offset(2), Ok(()));
    file.store_u64(2, 0x0102030405060708, Endian::Little);
    assert_eq!(file.as_slice(), &[0, 0, 8, 7, 6, 5, 4, 3, 2, 1]);
    assert_eq!(file.load_u64(2, Endian::Little), 0x0102030405060708);
    assert_eq!(file.load_u64(2, Endian::Big), 0x0807060504030201);
    file.store_u64(0, 0x0102030405060708, Endian::Big);
    assert_eq!(file.as_slice(), &[1, 2, 3, 4, 5, 6, 7, 8, 2, 1]);
    file.store_u64(2, 0x0102030405060708, Endian::Little);
    assert_eq!(file.offset(), 2);
    assert_eq!(file.into_bytes(), vec![1, 2, 8, 7, 6, 5, 4, 3, 2, 1]);
}

#[test]
fn structured_log_reads_what_it_appends() {
    assert_eq!(
        StructuredLog::new(vec![0u8; 33], Endian::Little).err(),
        Some(StoreError::Corrupt(Corruption::LogSize))
    );
    let mut log = StructuredLog::new(Vec::new(), Endian::Little).unwrap();
    assert_eq!(log.order(), Endian::Little);
    assert_eq!(log.len(), 0);
    assert!(log.for_each_entry().is_empty());
    let first = LogEntry::new(u128::MAX - 1, 7, 8);
    let second = LogEntry::new(Uuid::from_u128(99).as_u128(), u64::MAX, 4000);
    log.append(&first);
    log.append(&second);
    assert_eq!(log.len(), 64);
    assert_eq!(log.for_each_entry(), vec![first, second]);
    assert_eq!(log.entry(1), second);
    assert_eq!(&log.as_bytes()[..16], Uuid::from_u128(u128::MAX - 1).as_bytes());
    assert_eq!(&log.as_bytes()[32 + 16..32 + 24], &[0xFF; 8]);
    assert_eq!(&log.as_bytes()[32 + 24..], &4000u64.to_le_bytes());
}

fn encode_named(first: &str, second: &str) -> Vec<u8> {
    bincode::serialize(&(first, second)).unwrap()
}

fn decode_named(bytes: &[u8]) -> (String, String) {
    bincode::deserialize(bytes).unwrap()
}

#[test]
fn item_db_functional() {
    let mut db = BincodeDatabase::create(false, false, 1_000).unwrap();

    let first = ("caio".to_owned(), "romao".to_owned());
    let second = ("costa".to_owned(), "nasciment".to_owned());

    db.add(0, 0, &encode_named("caio", "romao")).unwrap();
    db.add(1, 1, &encode_named("costa", "nasciment")).unwrap();

    assert_eq!(Some(first), db.get_by_id(0).unwrap().map(decode_named));
    assert_eq!(Some(second), db.get_by_id(1).unwrap().map(decode_named));
}

#[test]
fn less_awkward_api() {
    let mut db = BincodeDatabase::create(false, false, 1_000).unwrap();

    let first = ("caio".to_owned(), "romao".to_owned());
    let second = ("costa".to_owned(), "nasciment".to_owned());

    db.add(0, 10, &encode_named("caio", "romao")).unwrap();
    db.add(1, 11, &encode_named("costa", "nasciment")).unwrap();

    assert_eq!(first, decode_named(db.get_by_uuid(10).unwrap().unwrap()));
    assert_eq!(second, decode_named(db.get_by_uuid(11).unwrap().unwrap()));
}
