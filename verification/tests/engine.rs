use kvs::errors::KvStoreError;
use kvs::file::FileWrite;
use kvs::file::LogFile;
use kvs::persistent::Disk;
use kvs::persistent::Persistenter;
use kvs::persistent::COMPACT_ATTEMPTS;
use kvs::persistent::COMPACT_PERIOD;
use kvs::persistent::DISK_BATCH_SIZE;
use kvs::serial::Command;
use kvs::serial::Log;

fn put(key: &str, value: &str) -> Log {
    Log::from(Command::Put(key.to_owned(), value.to_owned()))
}

fn remove(key: &str) -> Log {
    Log::from(Command::Remove(key.to_owned()))
}

fn get(key: &str) -> Log {
    Log::from(Command::Get(key.to_owned()))
}

fn deleted(log: Log) -> Log {
    Log { command: log.command, deleted: true }
}

fn assert_same(found: &[Log], expected: &[Log]) {
    assert_eq!(found.len(), expected.len());
    for (f, e) in found.iter().zip(expected) {
        assert!(f.same(e), "{:?} is not {:?}", f, e);
    }
}

fn file_of(disk: Disk) -> LogFile {
    match disk.into_file() {
        Ok(file) => file,
        Err(disk) => panic!("{} records are buffered", disk.pending()),
    }
}

fn records_of(file: &LogFile) -> Vec<Log> {
    Log::decode_all(file.bytes()).unwrap()
}

#[test]
fn constants_of_the_engine() {
    assert_eq!(DISK_BATCH_SIZE, 100);
    assert_eq!(COMPACT_PERIOD, 400);
    assert_eq!(COMPACT_ATTEMPTS, 3);
}

#[test]
fn file_appends_and_overwrites() {
    let mut file = LogFile::new();
    assert_eq!(file.read().unwrap(), Vec::<u8>::new());
    file.write(&vec![1, 2], true).unwrap();
    file.write(&vec![3], true).unwrap();
    assert_eq!(file.read().unwrap(), vec![1, 2, 3]);
    file.write(&vec![9, 9], false).unwrap();
    assert_eq!(file.bytes(), vec![9, 9]);
    file.write(&vec![], false).unwrap();
    assert_eq!(file.bytes(), Vec::<u8>::new());
    file.write(&vec![7], true).unwrap();
    assert_eq!(file.bytes(), vec![7]);
    assert_eq!(LogFile::from_bytes(vec![4, 5]).read().unwrap(), vec![4, 5]);
}

#[test]
fn file_refuses_as_many_writes_as_told() {
    let mut file = LogFile::from_bytes(vec![1]);
    file.refuse_writes(2);
    assert!(matches!(file.write(&vec![2], true), Err(KvStoreError::DiskError(_))));
    assert!(matches!(file.write(&vec![2], false), Err(KvStoreError::DiskError(_))));
    assert_eq!(file.bytes(), vec![1]);
    file.write(&vec![2], true).unwrap();
    assert_eq!(file.bytes(), vec![1, 2]);
    assert_eq!(file.take_writes().len(), 1);
}

#[test]
fn file_refuses_reads_while_told() {
    let mut file = LogFile::from_bytes(vec![1]);
    file.refuse_reads(true);
    assert!(matches!(file.read(), Err(KvStoreError::DiskError(_))));
    assert!(matches!(file.read(), Err(KvStoreError::DiskError(_))));
    file.write(&vec![2], true).unwrap();
    file.refuse_reads(false);
    assert_eq!(file.read().unwrap(), vec![1, 2]);
}

#[test]
fn file_records_its_writes() {
    let mut file = LogFile::from_bytes(vec![1]);
    assert_eq!(file.take_writes().len(), 0);
    file.write(&vec![2, 3], true).unwrap();
    file.write(&vec![4], false).unwrap();
    file.write(&vec![5], true).unwrap();
    let writes = file.take_writes();
    assert_eq!(writes.len(), 3);
    assert_eq!((&writes[0].bytes, writes[0].append), (&vec![2u8, 3], true));
    assert_eq!((&writes[1].bytes, writes[1].append), (&vec![4u8], false));
    assert_eq!((&writes[2].bytes, writes[2].append), (&vec![5u8], true));
    assert_eq!(file.bytes(), vec![4, 5]);
    assert_eq!(file.take_writes().len(), 0);
    file.write(&vec![6], true).unwrap();
    assert_eq!(file.bytes(), vec![4, 5, 6]);
    let writes: Vec<FileWrite> = file.take_writes();
    assert_eq!(writes.len(), 1);
    assert_eq!(file.bytes(), vec![4, 5, 6]);
}

#[test]
fn repeating_the_writes_gives_the_same_file() {
    let mut disk = Disk::new(LogFile::from_bytes(Log::encode_all(&vec![put("a", "0")]).unwrap()));
    let mut on_disk = Log::encode_all(&vec![put("a", "0")]).unwrap();
    for i in 1..=450 {
        disk.store_log(put(&format!("k{}", i % 7), &format!("{}", i))).unwrap();
        if i % 50 == 0 {
            for write in disk.take_writes() {
                if !write.append {
                    on_disk.clear();
                }
                on_disk.extend_from_slice(&write.bytes);
            }
        }
    }
    disk.flush().unwrap();
    let writes = disk.take_writes();
    assert_eq!(writes.len(), 1);
    assert!(writes[0].append);
    on_disk.extend_from_slice(&writes[0].bytes);
    assert_eq!(file_of(disk).bytes(), on_disk);
}

#[test]
fn engine_fails_where_the_file_cannot_be_read() {
    let mut file = LogFile::from_bytes(Log::encode_all(&vec![put("a", "1")]).unwrap());
    file.refuse_reads(true);
    let mut disk = Disk::new(file);
    disk.store_log(put("a", "2")).unwrap();
    assert!(matches!(disk.get_all_logs(), Err(KvStoreError::DiskError(_))));
    assert!(matches!(disk.read_logs_from_file(), Err(KvStoreError::DiskError(_))));
    assert!(matches!(disk.compact_all(), Err(KvStoreError::DiskError(_))));
    assert_eq!(disk.pending(), 1);
    disk.flush().unwrap();
    let mut file = file_of(disk);
    file.refuse_reads(false);
    assert_same(&records_of(&file), &[put("a", "1"), put("a", "2")]);
}

#[test]
fn new_engine_is_empty() {
    let mut disk = Disk::new(LogFile::new());
    assert_eq!(disk.pending(), 0);
    assert!(!disk.should_compact());
    assert_eq!(disk.get_all_logs().unwrap().len(), 0);
    disk.flush().unwrap();
    assert_eq!(file_of(disk).bytes(), Vec::<u8>::new());
}

#[test]
fn buffer_is_flushed_with_the_record_that_fills_it() {
    let mut disk = Disk::new(LogFile::new());
    for i in 1..=150 {
        disk.store_log(put(&format!("k{}", i), "v")).unwrap();
        assert_eq!(disk.pending(), i % 100);
    }
    assert_eq!(disk.pending(), 50);
    let stored = disk.read_logs_from_file().unwrap();
    assert_eq!(stored.len(), 100);
    assert!(stored[0].same(&put("k1", "v")));
    assert!(stored[99].same(&put("k100", "v")));
}

#[test]
fn the_hundred_and_first_record_is_alone_in_the_buffer() {
    let mut disk = Disk::new(LogFile::new());
    for i in 1..=101 {
        disk.store_log(put("k", &format!("{}", i))).unwrap();
    }
    assert_eq!(disk.pending(), 1);
    let all = disk.get_all_logs().unwrap();
    assert_eq!(all.len(), 101);
    assert!(all[100].same(&put("k", "101")));
}

#[test]
fn get_all_logs_gives_the_file_then_the_buffer() {
    let on_file = vec![put("a", "1"), put("b", "2")];
    let file = LogFile::from_bytes(Log::encode_all(&on_file).unwrap());
    let mut disk = Disk::new(file);
    disk.store_log(remove("a")).unwrap();
    disk.store_log(deleted(put("c", "3"))).unwrap();
    let all = disk.get_all_logs().unwrap();
    assert_same(&all, &[put("a", "1"), put("b", "2"), remove("a"), deleted(put("c", "3"))]);
    assert_eq!(disk.pending(), 2);
}

#[test]
fn get_all_logs_fails_on_a_file_that_holds_no_records() {
    let mut disk = Disk::new(LogFile::from_bytes(vec![1, 2, 3]));
    assert!(matches!(disk.get_all_logs(), Err(KvStoreError::BinaryError(_))));
    let mut disk = Disk::new(LogFile::from_bytes(vec![1, 0, 0, 0, b'x']));
    assert!(matches!(disk.get_all_logs(), Err(KvStoreError::SerialError(_))));
    assert!(matches!(disk.read_logs_from_file(), Err(KvStoreError::SerialError(_))));
    assert!(matches!(disk.compact_all(), Err(KvStoreError::SerialError(_))));
}

#[test]
fn flush_appends_the_live_records() {
    let file = LogFile::from_bytes(Log::encode_all(&vec![put("a", "1")]).unwrap());
    let mut disk = Disk::new(file);
    disk.store_log(put("b", "2")).unwrap();
    disk.store_log(deleted(put("c", "3"))).unwrap();
    disk.store_log(get("a")).unwrap();
    disk.flush().unwrap();
    assert_eq!(disk.pending(), 0);
    disk.flush().unwrap();
    let file = file_of(disk);
    assert_same(&records_of(&file), &[put("a", "1"), put("b", "2"), get("a")]);
}

#[test]
fn flush_that_is_refused_keeps_the_buffer() {
    let mut file = LogFile::new();
    file.refuse_writes(1);
    let mut disk = Disk::new(file);
    disk.store_log(put("a", "1")).unwrap();
    assert!(matches!(disk.flush(), Err(KvStoreError::DiskError(_))));
    assert_eq!(disk.pending(), 1);
    disk.flush().unwrap();
    assert_eq!(disk.pending(), 0);
    assert_same(&records_of(&file_of(disk)), &[put("a", "1")]);
}

#[test]
fn flush_of_an_empty_buffer_asks_nothing_of_the_file() {
    let mut file = LogFile::new();
    file.refuse_writes(1);
    let mut disk = Disk::new(file);
    disk.flush().unwrap();
    disk.store_log(put("a", "1")).unwrap();
    assert!(disk.flush().is_err());
}

#[test]
fn store_log_keeps_the_record_when_the_flush_fails() {
    let mut file = LogFile::new();
    file.refuse_writes(1);
    let mut disk = Disk::new(file);
    for i in 1..=99 {
        disk.store_log(put("k", &format!("{}", i))).unwrap();
    }
    assert!(matches!(disk.store_log(put("k", "100")), Err(KvStoreError::DiskError(_))));
    assert_eq!(disk.pending(), 100);
    disk.store_log(put("k", "101")).unwrap();
    assert_eq!(disk.pending(), 0);
    let all = disk.get_all_logs().unwrap();
    assert_eq!(all.len(), 101);
    assert!(all[99].same(&put("k", "100")));
    assert!(all[100].same(&put("k", "101")));
}

#[test]
fn write_logs_to_file_appends_or_overwrites() {
    let mut file = LogFile::new();
    Disk::write_logs_to_file(&mut file, &vec![put("a", "1")], true).unwrap();
    Disk::write_logs_to_file(&mut file, &vec![put("b", "2"), deleted(put("c", "3"))], true)
        .unwrap();
    assert_same(&records_of(&file), &[put("a", "1"), put("b", "2")]);
    Disk::write_logs_to_file(&mut file, &vec![put("z", "26")], false).unwrap();
    assert_same(&records_of(&file), &[put("z", "26")]);
    file.refuse_writes(1);
    assert!(Disk::write_logs_to_file(&mut file, &vec![put("y", "25")], false).is_err());
    assert_same(&records_of(&file), &[put("z", "26")]);
}

#[test]
fn compaction_keeps_the_last_record_of_each_key() {
    let mut logs = vec![
        put("a", "1"),
        put("b", "1"),
        get("a"),
        put("a", "2"),
        remove("b"),
        put("c", "1"),
        get("c"),
        put("b", "3"),
        remove("c"),
    ];
    Disk::compact_logs_in_place(&mut logs);
    assert_same(
        &logs,
        &[
            deleted(put("a", "1")),
            deleted(put("b", "1")),
            get("a"),
            put("a", "2"),
            deleted(remove("b")),
            deleted(put("c", "1")),
            get("c"),
            put("b", "3"),
            remove("c"),
        ],
    );
}

#[test]
fn compaction_leaves_deleted_records_deleted() {
    let mut logs = vec![deleted(put("a", "1")), deleted(get("a")), put("a", "2")];
    Disk::compact_logs_in_place(&mut logs);
    assert_same(&logs, &[deleted(put("a", "1")), deleted(get("a")), put("a", "2")]);
    let mut none: Vec<Log> = Vec::new();
    Disk::compact_logs_in_place(&mut none);
    assert_eq!(none.len(), 0);
}

#[test]
fn compact_in_mem_marks_the_buffer() {
    let mut disk = Disk::new(LogFile::new());
    disk.store_log(put("a", "1")).unwrap();
    disk.store_log(put("a", "2")).unwrap();
    disk.compact_in_mem();
    assert_eq!(disk.pending(), 2);
    assert_same(&disk.get_all_logs().unwrap(), &[deleted(put("a", "1")), put("a", "2")]);
    disk.flush().unwrap();
    assert_same(&records_of(&file_of(disk)), &[put("a", "2")]);
}

#[test]
fn forced_compaction_leaves_one_record() {
    let mut disk = Disk::new(LogFile::new());
    disk.store_log(put("k", "v1")).unwrap();
    disk.store_log(put("k", "v2")).unwrap();
    disk.compact_all().unwrap();
    assert_eq!(disk.pending(), 0);
    let file = file_of(disk);
    assert_same(&records_of(&file), &[put("k", "v2")]);
    assert_eq!(file.bytes(), Log::encode_all(&vec![put("k", "v2")]).unwrap());
}

#[test]
fn compaction_merges_the_file_with_the_buffer() {
    let on_file = vec![put("a", "1"), put("b", "1"), put("c", "1")];
    let file = LogFile::from_bytes(Log::encode_all(&on_file).unwrap());
    let mut disk = Disk::new(file);
    disk.store_log(remove("a")).unwrap();
    disk.store_log(put("b", "2")).unwrap();
    disk.compact_all().unwrap();
    assert_eq!(disk.pending(), 0);
    assert_same(&records_of(&file_of(disk)), &[put("c", "1"), remove("a"), put("b", "2")]);
}

#[test]
fn compaction_of_nothing_writes_nothing() {
    let mut file = LogFile::new();
    file.refuse_writes(1);
    let mut disk = Disk::new(file);
    disk.compact_all().unwrap();
    assert_eq!(disk.pending(), 0);
    disk.store_log(put("a", "1")).unwrap();
    assert!(disk.flush().is_err());
}

#[test]
fn compaction_succeeds_with_its_third_attempt() {
    let on_file = vec![put("a", "1"), put("b", "1")];
    let mut file = LogFile::from_bytes(Log::encode_all(&on_file).unwrap());
    file.refuse_writes(2);
    let mut disk = Disk::new(file);
    disk.store_log(put("a", "2")).unwrap();
    disk.compact_all().unwrap();
    assert_eq!(disk.pending(), 0);
    assert_same(&records_of(&file_of(disk)), &[put("b", "1"), put("a", "2")]);
}

#[test]
fn compaction_gives_up_after_three_attempts() {
    let on_file = vec![put("a", "1"), put("b", "1")];
    let bytes = Log::encode_all(&on_file).unwrap();
    let mut file = LogFile::from_bytes(bytes.clone());
    file.refuse_writes(3);
    let mut disk = Disk::new(file);
    disk.store_log(put("a", "2")).unwrap();
    disk.store_log(put("a", "3")).unwrap();
    disk.store_log(put("c", "1")).unwrap();
    disk.compact_all().unwrap();
    assert_eq!(disk.pending(), 3);
    assert_same(
        &disk.get_all_logs().unwrap(),
        &[put("a", "1"), put("b", "1"), deleted(put("a", "2")), put("a", "3"), put("c", "1")],
    );
    disk.flush().unwrap();
    let file = file_of(disk);
    assert_eq!(&file.bytes()[..bytes.len()], &bytes[..]);
    assert_same(
        &records_of(&file),
        &[put("a", "1"), put("b", "1"), put("a", "3"), put("c", "1")],
    );
}

#[test]
fn compaction_that_gave_up_has_used_three_refusals() {
    let mut file = LogFile::from_bytes(Log::encode_all(&vec![put("a", "1")]).unwrap());
    file.refuse_writes(4);
    let mut disk = Disk::new(file);
    disk.store_log(put("a", "2")).unwrap();
    disk.compact_all().unwrap();
    assert_eq!(disk.pending(), 1);
    assert!(disk.flush().is_err());
    disk.flush().unwrap();
    assert_same(&records_of(&file_of(disk)), &[put("a", "1"), put("a", "2")]);
}

#[test]
fn compaction_is_due_once_in_four_hundred_records() {
    let mut disk = Disk::new(LogFile::new());
    for i in 1..=398 {
        assert!(!disk.should_compact());
        disk.store_log(put(&format!("k{}", i % 10), &format!("{}", i))).unwrap();
    }
    assert!(!disk.should_compact());
    assert_eq!(disk.pending(), 98);
    disk.check_compact();
    assert_eq!(disk.pending(), 98);
    disk.store_log(put("k9", "399")).unwrap();
    assert_eq!(disk.pending(), 0);
    assert_eq!(disk.read_logs_from_file().unwrap().len(), 10);
    assert!(disk.should_compact());
    disk.check_compact();
    assert_eq!(disk.pending(), 0);
    assert_eq!(disk.read_logs_from_file().unwrap().len(), 10);
    disk.store_log(put("k0", "400")).unwrap();
    assert!(!disk.should_compact());
    assert_eq!(disk.pending(), 1);
}

#[test]
fn compaction_sees_the_record_that_is_being_stored() {
    let mut disk = Disk::new(LogFile::new());
    for i in 1..=398 {
        disk.store_log(put(&format!("k{}", i % 10), &format!("{}", i))).unwrap();
    }
    assert_eq!(disk.pending(), 98);
    assert_eq!(disk.read_logs_from_file().unwrap().len(), 300);
    disk.store_log(put("k9", "399")).unwrap();
    assert_eq!(disk.pending(), 0);
    let stored = disk.read_logs_from_file().unwrap();
    let expected: Vec<Log> =
        (390..=399).map(|i| put(&format!("k{}", i % 10), &format!("{}", i))).collect();
    assert_same(&stored, &expected);
    for i in 400..=798 {
        disk.store_log(put(&format!("k{}", i % 10), &format!("{}", i))).unwrap();
    }
    assert_eq!(disk.pending(), 99);
    assert_eq!(disk.read_logs_from_file().unwrap().len(), 310);
    disk.store_log(put("k9", "799")).unwrap();
    assert_eq!(disk.pending(), 0);
    let stored = disk.read_logs_from_file().unwrap();
    let expected: Vec<Log> =
        (790..=799).map(|i| put(&format!("k{}", i % 10), &format!("{}", i))).collect();
    assert_same(&stored, &expected);
}

#[test]
fn full_buffer_is_flushed_with_ninety_nine_records_and_one_more() {
    let mut disk = Disk::new(LogFile::new());
    for i in 1..=99 {
        disk.store_log(put("k", &format!("{}", i))).unwrap();
    }
    assert_eq!(disk.pending(), 99);
    assert_eq!(disk.read_logs_from_file().unwrap().len(), 0);
    disk.store_log(put("k", "100")).unwrap();
    assert_eq!(disk.pending(), 0);
    assert_eq!(disk.read_logs_from_file().unwrap().len(), 100);
}

#[test]
fn check_compact_does_nothing_when_compaction_is_not_due() {
    let mut file = LogFile::new();
    file.refuse_writes(1);
    let mut disk = Disk::new(file);
    disk.store_log(put("a", "1")).unwrap();
    disk.store_log(put("a", "2")).unwrap();
    disk.check_compact();
    assert_eq!(disk.pending(), 2);
    assert_same(&disk.get_all_logs().unwrap(), &[put("a", "1"), put("a", "2")]);
    assert!(disk.flush().is_err());
}

#[test]
fn default_engine_is_over_an_empty_file() {
    let mut disk = Disk::default();
    assert_eq!(disk.pending(), 0);
    assert_eq!(disk.get_all_logs().unwrap().len(), 0);
    disk.store_log(put("a", "1")).unwrap();
    disk.flush().unwrap();
    assert_same(&records_of(&file_of(disk)), &[put("a", "1")]);
}

#[test]
fn engine_keeps_its_file_while_records_are_buffered() {
    let mut disk = Disk::new(LogFile::new());
    disk.store_log(put("a", "1")).unwrap();
    let mut disk = match disk.into_file() {
        Ok(_) => panic!("a record is buffered"),
        Err(disk) => disk,
    };
    assert_eq!(disk.pending(), 1);
    disk.flush().unwrap();
    assert_same(&records_of(&file_of(disk)), &[put("a", "1")]);
}

#[test]
fn file_gives_its_last_write_and_takes_it_back() {
    let mut file = LogFile::from_bytes(vec![1]);
    assert!(file.last_write().is_none());
    file.retract();
    assert_eq!(file.bytes(), vec![1]);
    file.write(&vec![2], true).unwrap();
    file.write(&vec![3, 4], false).unwrap();
    let last = file.last_write().unwrap();
    assert_eq!((last.bytes, last.append), (vec![3u8, 4], false));
    file.retract();
    assert_eq!(file.bytes(), vec![1, 2]);
    let last = file.last_write().unwrap();
    assert_eq!((last.bytes, last.append), (vec![2u8], true));
    file.retract();
    assert_eq!(file.bytes(), vec![1]);
    assert!(file.last_write().is_none());
}

#[test]
fn flush_leaves_its_write_open() {
    let mut disk = Disk::new(LogFile::new());
    assert!(disk.open_write().is_none());
    disk.store_log(put("a", "1")).unwrap();
    assert!(disk.open_write().is_none());
    disk.flush().unwrap();
    let write = disk.open_write().unwrap();
    assert!(write.append);
    assert_eq!(write.bytes, Log::encode_all(&vec![put("a", "1")]).unwrap());
    disk.written(true);
    assert!(disk.open_write().is_none());
    assert_eq!(disk.take_writes().len(), 0);
    assert_same(&disk.read_logs_from_file().unwrap(), &[put("a", "1")]);
    disk.written(false);
    assert_same(&disk.read_logs_from_file().unwrap(), &[put("a", "1")]);
    assert_eq!(disk.pending(), 0);
}

#[test]
fn flush_that_failed_on_disk_is_taken_back() {
    let mut disk = Disk::new(LogFile::from_bytes(Log::encode_all(&vec![put("a", "0")]).unwrap()));
    disk.store_log(put("a", "1")).unwrap();
    disk.store_log(deleted(put("b", "1"))).unwrap();
    disk.flush().unwrap();
    assert_eq!(disk.pending(), 0);
    disk.store_log(put("c", "1")).unwrap();
    disk.written(false);
    assert!(disk.open_write().is_none());
    assert!(!disk.gave_up());
    assert_eq!(disk.pending(), 3);
    assert_same(&disk.read_logs_from_file().unwrap(), &[put("a", "0")]);
    assert_same(
        &disk.get_all_logs().unwrap(),
        &[put("a", "0"), put("a", "1"), deleted(put("b", "1")), put("c", "1")],
    );
    disk.flush().unwrap();
    disk.written(true);
    assert_same(
        &disk.read_logs_from_file().unwrap(),
        &[put("a", "0"), put("a", "1"), put("c", "1")],
    );
}

#[test]
fn compaction_that_failed_on_disk_three_times_gives_up() {
    let on_file = vec![put("a", "1"), put("b", "1")];
    let bytes = Log::encode_all(&on_file).unwrap();
    let mut disk = Disk::new(LogFile::from_bytes(bytes.clone()));
    disk.store_log(put("a", "2")).unwrap();
    disk.store_log(put("a", "3")).unwrap();
    disk.compact_all().unwrap();
    assert_eq!(disk.pending(), 0);
    let write = disk.open_write().unwrap();
    assert!(!write.append);
    assert_eq!(write.bytes, Log::encode_all(&vec![put("b", "1"), put("a", "3")]).unwrap());
    disk.written(false);
    assert_eq!(disk.open_write().unwrap().bytes, write.bytes);
    assert!(!disk.gave_up());
    disk.written(false);
    assert_eq!(disk.open_write().unwrap().bytes, write.bytes);
    assert!(!disk.gave_up());
    disk.written(false);
    assert!(disk.open_write().is_none());
    assert!(disk.gave_up());
    assert_eq!(disk.pending(), 2);
    assert_eq!(disk.read_logs_from_file().unwrap().len(), 2);
    assert_same(
        &disk.get_all_logs().unwrap(),
        &[put("a", "1"), put("b", "1"), deleted(put("a", "2")), put("a", "3")],
    );
    disk.flush().unwrap();
    disk.written(true);
    let file = file_of(disk);
    assert_eq!(&file.bytes()[..bytes.len()], &bytes[..]);
    assert_same(&records_of(&file), &[put("a", "1"), put("b", "1"), put("a", "3")]);
}

#[test]
fn compaction_that_went_well_on_disk_at_last_stands() {
    let mut disk = Disk::new(LogFile::from_bytes(Log::encode_all(&vec![put("a", "1")]).unwrap()));
    disk.store_log(put("a", "2")).unwrap();
    disk.compact_all().unwrap();
    disk.written(false);
    disk.written(false);
    disk.written(true);
    assert!(disk.open_write().is_none());
    assert!(!disk.gave_up());
    assert_eq!(disk.pending(), 0);
    assert_same(&records_of(&file_of(disk)), &[put("a", "2")]);
}

#[test]
fn attempts_that_the_file_refused_count_with_those_that_failed_on_disk() {
    let mut file = LogFile::from_bytes(Log::encode_all(&vec![put("a", "1")]).unwrap());
    file.refuse_writes(2);
    let mut disk = Disk::new(file);
    disk.store_log(put("a", "2")).unwrap();
    disk.compact_all().unwrap();
    assert!(disk.open_write().is_some());
    disk.written(false);
    assert!(disk.open_write().is_none());
    assert!(disk.gave_up());
    assert_eq!(disk.pending(), 1);
    assert_same(&disk.get_all_logs().unwrap(), &[put("a", "1"), put("a", "2")]);
}

#[test]
fn engine_tells_that_compaction_gave_up() {
    let mut file = LogFile::from_bytes(Log::encode_all(&vec![put("a", "1")]).unwrap());
    file.refuse_writes(3);
    let mut disk = Disk::new(file);
    assert!(!disk.gave_up());
    disk.store_log(put("a", "2")).unwrap();
    disk.compact_all().unwrap();
    assert!(disk.gave_up());
    assert!(disk.open_write().is_none());
    disk.store_log(put("a", "3")).unwrap();
    assert!(!disk.gave_up());
    disk.compact_all().unwrap();
    assert!(!disk.gave_up());
    disk.written(true);
    assert_same(&records_of(&file_of(disk)), &[put("a", "3")]);
}

#[test]
fn store_log_that_compacts_leaves_the_write_open() {
    let mut disk = Disk::new(LogFile::new());
    for i in 1..=399 {
        disk.store_log(put("k", &format!("{}", i))).unwrap();
        if let Some(write) = disk.open_write() {
            assert_eq!(write.append, i != 399);
            disk.written(true);
        }
    }
    assert_eq!(disk.pending(), 0);
    assert_same(&records_of(&file_of(disk)), &[put("k", "399")]);
}
