use rmerger::file::{database_set, db_selected, merge_rdb_path, part_rdb_path, PartRDB};
use rmerger::logger::{LogLevelFilter, StdLogger};
use rmerger::parser::rdb;
use rmerger::RdbError;

fn one_key_snapshot(value_byte: u8) -> Vec<u8> {
    let mut v = b"REDIS0006".to_vec();
    v.extend_from_slice(&[0xfe, 0x00]); // database 0
    v.extend_from_slice(&[0x00, 0x01, 0x4b, 0x01, value_byte]); // string record, key "K"
    v.push(0xff);
    v
}

fn write_all(store: &mut PartRDB, snapshot: &Vec<u8>, target: &Vec<u32>) -> Vec<bool> {
    let tree = rdb(snapshot).unwrap();
    let mut written = Vec::new();
    for db in &tree.1 {
        if db_selected(target, db.0 .1) {
            for rec in &db.1 {
                written.push(store.write(db.0.clone(), rec).unwrap());
            }
        }
    }
    written
}

#[test]
fn dedup_keeps_first_record() {
    let input1 = one_key_snapshot(0x30);
    let input2 = one_key_snapshot(0x31);
    let mut store = PartRDB::new(true, ".".to_string(), true).unwrap();
    let none: Vec<u32> = Vec::new();
    assert_eq!(write_all(&mut store, &input1, &none), vec![true]);
    assert_eq!(write_all(&mut store, &input2, &none), vec![false]);
    store.close_part_files();
    let out = store.merge();
    let tree = rdb(&out).unwrap();
    assert_eq!(tree.1.len(), 1);
    assert_eq!(tree.1[0].1.len(), 1);
    // the record kept is the earliest seen: its value is "0", from input1
    let mut expected = b"REDIS0006".to_vec();
    expected.extend_from_slice(&[0xfe, 0x00, 0x00, 0x01, 0x4b, 0x01, 0x30, 0xff]);
    expected.extend_from_slice(&[0x00; 8]);
    assert_eq!(out, expected);
}

#[test]
fn nocheck_keeps_both_records() {
    let input1 = one_key_snapshot(0x30);
    let input2 = one_key_snapshot(0x31);
    let mut store = PartRDB::new(false, ".".to_string(), true).unwrap();
    let none: Vec<u32> = Vec::new();
    assert_eq!(write_all(&mut store, &input1, &none), vec![true]);
    assert_eq!(write_all(&mut store, &input2, &none), vec![true]);
    store.close_part_files();
    let out = store.merge();
    let tree = rdb(&out).unwrap();
    assert_eq!(tree.1.len(), 1);
    assert_eq!(tree.1[0].1.len(), 2);
}

#[test]
fn target_db_filter_drops_other_databases() {
    let mut input = b"REDIS0006".to_vec();
    for db in 0u8..3 {
        input.extend_from_slice(&[0xfe, db]);
        input.extend_from_slice(&[0x00, 0x01, 0x4b, 0x01, 0x30 + db]);
    }
    input.push(0xff);
    let target = database_set(&vec!["1".to_string(), "2".to_string()]).unwrap();
    let mut store = PartRDB::new(true, ".".to_string(), true).unwrap();
    write_all(&mut store, &input, &target);
    store.close_part_files();
    let out = store.merge();
    let tree = rdb(&out).unwrap();
    let nums: Vec<u32> = tree.1.iter().map(|db| db.0 .1).collect();
    assert_eq!(nums, vec![1, 2]);
}

#[test]
fn merge_output_framing() {
    let mut store = PartRDB::new(true, ".".to_string(), true).unwrap();
    let none: Vec<u32> = Vec::new();
    write_all(&mut store, &one_key_snapshot(0x30), &none);
    store.close_part_files();
    let out = store.merge();
    assert_eq!(&out[0..9], b"REDIS0006");
    assert_eq!(
        &out[out.len() - 9..],
        &[0xff, 0x00, 0x00, 0x00, 0x00, 0x00, 0x00, 0x00, 0x00]
    );
    assert!(rdb(&out).is_ok());
}

#[test]
fn missing_directory_is_refused() {
    match PartRDB::new(true, "no/such/dir".to_string(), false) {
        Err(e) => assert_eq!(e, RdbError::DirectoryMissing),
        Ok(_) => assert!(false),
    }
}

#[test]
fn bad_lzf_key_aborts_write_under_check() {
    // one record whose key is an LZF string with an out-of-range back-reference
    let mut input = b"REDIS0006".to_vec();
    input.extend_from_slice(&[0xfe, 0x00]);
    input.extend_from_slice(&[0x00, 0xc3, 0x02, 0x02, 0x20, 0x00, 0x01, 0x30]);
    input.push(0xff);
    let tree = rdb(&input).unwrap();
    let db = &tree.1[0];
    let mut store = PartRDB::new(true, ".".to_string(), true).unwrap();
    assert_eq!(
        store.write(db.0.clone(), &db.1[0]),
        Err(RdbError::DecodeError)
    );
    // without duplicate checking the same record is written untouched
    let mut store = PartRDB::new(false, ".".to_string(), true).unwrap();
    assert_eq!(store.write(db.0.clone(), &db.1[0]), Ok(true));
}

#[test]
fn intermediate_and_merge_paths() {
    assert_eq!(
        part_rdb_path(&"/tmp".to_string(), 0xab),
        "/tmp/PART_000000ab.rdb"
    );
    assert_eq!(
        part_rdb_path(&"out".to_string(), 4294967295),
        "out/PART_ffffffff.rdb"
    );
    assert_eq!(merge_rdb_path(&"/tmp".to_string()), "/tmp/MERGE.rdb");
}

#[test]
fn database_set_parses_and_dedups() {
    let args = vec!["1".to_string(), "2".to_string(), "1".to_string()];
    assert_eq!(database_set(&args).unwrap(), vec![1, 2]);
    assert_eq!(
        database_set(&vec!["+7".to_string()]).unwrap(),
        vec![7]
    );
    assert_eq!(
        database_set(&vec!["4294967295".to_string()]).unwrap(),
        vec![4294967295]
    );
    assert_eq!(
        database_set(&vec!["4294967296".to_string()]),
        Err(RdbError::ParseError)
    );
    assert_eq!(
        database_set(&vec!["x".to_string()]),
        Err(RdbError::ParseError)
    );
    assert_eq!(
        database_set(&vec!["".to_string()]),
        Err(RdbError::ParseError)
    );
}

#[test]
fn db_selection() {
    let all: Vec<u32> = Vec::new();
    assert!(db_selected(&all, 0));
    assert!(db_selected(&all, 42));
    let some = vec![1, 2];
    assert!(db_selected(&some, 1));
    assert!(!db_selected(&some, 0));
}

#[test]
fn logger_level_defaults_to_info() {
    let l = StdLogger::init(None);
    assert_eq!(l.max_level, LogLevelFilter::Info);
    assert!(l.enabled(LogLevelFilter::Warn));
    assert!(l.enabled(LogLevelFilter::Info));
    assert!(!l.enabled(LogLevelFilter::Debug));
    let quiet = StdLogger::init(Some(LogLevelFilter::Off));
    assert!(!quiet.enabled(LogLevelFilter::Error));
}
