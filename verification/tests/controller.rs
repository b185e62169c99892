use ckydb::constants::KEY_VALUE_SEPARATOR;
use ckydb::controller::{is_clean, Controller, Database};
use ckydb::disk::Disk;
use ckydb::errors::Error;
use ckydb::task::{Task, TaskAction};
use std::collections::HashMap;

const MAX_FILE_SIZE: u64 = 320;
const TEST_RECORDS: [(&str, &str); 7] = [
    ("hey", "English"),
    ("hi", "English"),
    ("salut", "French"),
    ("bonjour", "French"),
    ("hola", "Spanish"),
    ("oi", "Portuguese"),
    ("mulimuta", "Runyoro"),
];

fn connect_to_test_db(max_file_size: u64) -> Database {
    Database::connect(max_file_size).unwrap_or_else(|err| panic!("{}", err.to_string()))
}

fn contents_with_extension(disk: &Disk, ext: &str) -> Vec<String> {
    let suffix = format!(".{}", ext);
    let mut names: Vec<String> =
        disk.names().into_iter().filter(|n| n.ends_with(&suffix)).collect();
    names.sort();
    names.iter().map(|n| disk.read(n).unwrap()).collect()
}

#[test]
fn connect_should_call_open() {
    let db = connect_to_test_db(MAX_FILE_SIZE);
    assert!(db.is_open());
}

#[test]
fn close_should_stop_all_tasks() {
    let mut db = connect_to_test_db(MAX_FILE_SIZE);
    db.close().expect("closing db");
    assert!(!db.is_open());
    db.open().expect("opening db");
    assert!(db.is_open());
}

#[test]
fn set_new_key_should_add_key_value_to_store() {
    let mut db = connect_to_test_db(800);

    for (k, v) in &TEST_RECORDS {
        if let Err(err) = db.set(*k, *v) {
            panic!("error setting items: {}", err.to_string());
        };
    }

    for (k, v) in &TEST_RECORDS {
        match db.get(*k) {
            Ok(value) => assert_eq!(value, (*v).to_string()),
            Err(err) => panic!("error getting items: {}", err.to_string()),
        }
    }
}

#[test]
fn set_old_key_should_update_old_key_value() {
    let mut old_records = HashMap::from(TEST_RECORDS);

    let updates = HashMap::from([
        ("hey", "Jane"),
        ("hi", "John"),
        ("salut", "Jean"),
        ("oi", "Ronaldo"),
        ("mulimuta", "Aliguma"),
    ]);

    let mut db = connect_to_test_db(MAX_FILE_SIZE);

    for (k, v) in &old_records {
        if let Err(err) = db.set(*k, *v) {
            panic!("error setting items: {}", err.to_string());
        };
    }

    for (k, v) in &updates {
        match db.set(*k, *v) {
            Ok(_) => {
                old_records.remove(k);
            }
            Err(err) => panic!("error setting items: {}", err.to_string()),
        };
    }

    for (k, v) in &updates {
        match db.get(*k) {
            Ok(value) => assert_eq!(*v, value),
            Err(err) => panic!("error getting items: {}", err.to_string()),
        };
    }

    for (k, v) in &old_records {
        match db.get(*k) {
            Ok(value) => assert_eq!(*v, value),
            Err(err) => panic!("error getting items: {}", err.to_string()),
        };
    }
}

#[test]
fn get_newly_inserted_key_should_get_from_memory_memtable() {
    let (key, value) = ("hello", "world");

    let mut db = connect_to_test_db(MAX_FILE_SIZE);

    if let Err(err) = db.set(key, value) {
        panic!("error getting items: {}", err.to_string());
    }

    // the value is in the memtable of the store, which needs no file to find it
    let timestamped_key = db.store().index().get(key).unwrap();
    assert_eq!(db.store().memtable().get(&timestamped_key).unwrap(), value);

    match db.get(key) {
        Ok(v) => assert_eq!(value.to_string(), v),
        Err(err) => panic!("error getting items: {}", err.to_string()),
    }
}

#[test]
fn delete_should_remove_key_value_from_store() {
    let mut old_records = HashMap::from(TEST_RECORDS);
    let keys_to_delete = ["hey", "salut"];

    let mut db = connect_to_test_db(MAX_FILE_SIZE);

    for (k, v) in &old_records {
        if let Err(err) = db.set(*k, *v) {
            panic!("error setting items: {}", err.to_string());
        };
    }

    for k in &keys_to_delete {
        match db.delete(*k) {
            Ok(_) => {
                old_records.remove(*k);
            }
            Err(err) => panic!("error deleting items: {}", err.to_string()),
        }
    }

    for (k, v) in &old_records {
        match db.get(*k) {
            Ok(value) => assert_eq!(*v, value),
            Err(err) => panic!("error getting items: {}", err.to_string()),
        };
    }

    for k in &keys_to_delete {
        match db.get(*k) {
            Ok(_) => panic!("key: {} unexpected", k),
            Err(err) => assert!(err.to_string().contains("not found")),
        }
    }
}

#[test]
fn clear_should_remove_all_key_values_from_store() {
    let mut db = connect_to_test_db(MAX_FILE_SIZE);

    for (k, v) in &TEST_RECORDS {
        if let Err(err) = db.set(*k, *v) {
            panic!("error setting items: {}", err.to_string());
        };
    }

    if let Err(err) = db.clear() {
        panic!("error clearing db: {}", err.to_string())
    }

    for (k, _) in &TEST_RECORDS {
        match db.get(*k) {
            Ok(_) => panic!("key: {} unexpected", k),
            Err(err) => assert!(err.to_string().contains("not found")),
        }
    }
}

#[test]
fn vacuum_task_should_run_at_defined_interval() {
    let mut db = connect_to_test_db(800);
    let mut task = Task::new(600);
    task.start().expect("start task");

    for (k, v) in &TEST_RECORDS {
        db.set(*k, *v).expect("set key");
    }

    for i in 0..TEST_RECORDS.len() {
        let (k, _) = TEST_RECORDS[i];
        db.delete(k).expect("delete key");

        // one tick of the compactor for every key that is deleted
        let vacuumed = match task.tick(false) {
            TaskAction::Compact => {
                db.vacuum();
                task.cycle_done();
                true
            }
            _ => false,
        };

        let idx_file_contents_post_vacuum = contents_with_extension(db.disk(), "idx");
        let del_file_contents_post_vacuum = contents_with_extension(db.disk(), "del");
        let log_file_contents_post_vacuum = contents_with_extension(db.disk(), "log");

        assert_eq!(vacuumed, i == 5);
        if i != 5 {
            assert!(!idx_file_contents_post_vacuum[0].contains(k));
            assert!(del_file_contents_post_vacuum[0].contains(k));
            assert!(log_file_contents_post_vacuum[0].contains(k));
        } else {
            assert!(!idx_file_contents_post_vacuum[0].contains(k));
            assert!(!del_file_contents_post_vacuum[0].contains(k));
            assert!(!log_file_contents_post_vacuum[0].contains(k));
        }
    }
}

#[test]
fn log_file_should_be_turned_to_cky_file_when_it_exceeds_max_size() {
    let mut pre_roll_data: Vec<HashMap<String, String>> = Vec::with_capacity(3);
    let post_roll_data = HashMap::from([("hey", "English"), ("hi", "English")]);

    let mut db = connect_to_test_db(MAX_FILE_SIZE);

    for i in 0..3 {
        let mut data: HashMap<String, String> = HashMap::with_capacity(TEST_RECORDS.len());

        for (k, v) in &TEST_RECORDS {
            let key = format!("{}-{}", *k, i);
            let value = (*v).to_string();

            if let Err(err) = db.set(&key, &value) {
                panic!("error setting items: {}", err.to_string())
            }

            data.insert(key, value);
        }

        pre_roll_data.push(data);
    }

    for (k, v) in &post_roll_data {
        if let Err(err) = db.set(*k, *v) {
            panic!("error setting items: {}", err.to_string());
        }
    }

    let cky_file_contents_post_roll = contents_with_extension(db.disk(), "cky");
    let log_file_contents_post_roll = contents_with_extension(db.disk(), "log");

    assert_eq!(pre_roll_data.len(), cky_file_contents_post_roll.len());
    for i in 0..pre_roll_data.len() {
        for (k, v) in &pre_roll_data[i] {
            let key_value_pair = format!("{}{}{}", *k, KEY_VALUE_SEPARATOR, *v);
            assert!(cky_file_contents_post_roll[i].contains(&key_value_pair));
        }
    }

    for (k, v) in &post_roll_data {
        let key_value_pair = format!("{}{}{}", *k, KEY_VALUE_SEPARATOR, *v);
        assert!(log_file_contents_post_roll[0].contains(&key_value_pair));
    }
}

#[test]
fn set_refuses_keys_and_values_that_hold_a_separator() {
    let mut db = Database::connect_at(MAX_FILE_SIZE, "1000").unwrap();
    let refusal = Error::CorruptedDataError {
        data: Some("the key, the value or the time is not fit to be stored".to_string()),
    };

    assert_eq!(db.set_at("a$%#@*&^&b", "v", "1001", "1002"), Err(refusal.clone()));
    assert_eq!(db.set_at("a", "v><?&(^#w", "1001", "1002"), Err(refusal.clone()));
    assert_eq!(db.set_at("a", "v", "1001", "1002"), Ok(()));
    assert_eq!(db.get("a").unwrap(), "v");
    assert_eq!(db.get("a$%#@*&^&b").unwrap_err(), Error::NotFoundError { key: "".to_string() });
    assert!(is_clean("a$%#@*&^b><?&(^"));
    assert!(!is_clean("$%#@*&^&"));
    assert!(!is_clean("x><?&(^#"));
    assert!(is_clean(""));
}

#[test]
fn set_refuses_timestamps_that_are_not_fresh() {
    let mut db = Database::connect_at(MAX_FILE_SIZE, "1000").unwrap();
    let refusal = Error::CorruptedDataError {
        data: Some("the key, the value or the time is not fit to be stored".to_string()),
    };
    db.set_at("a", "1", "1001", "1002").unwrap();

    // a new key with a timestamp before the active log
    assert_eq!(db.set_at("b", "2", "0999", "1002"), Err(refusal.clone()));
    // a name for the new log that does not come behind every timestamped key
    assert_eq!(db.set_at("b", "2", "1003", "1003"), Err(refusal.clone()));
    assert_eq!(db.set_at("b", "2", "1003", "1001"), Err(refusal.clone()));
    // a name for the new log that does not come behind the active log
    assert_eq!(db.set_at("a", "2", "1003", "1000"), Err(refusal.clone()));
    // the timestamped key of a key that was deleted and not yet compacted
    db.delete("a").unwrap();
    assert_eq!(db.set_at("a", "1", "1001", "1002"), Err(refusal.clone()));
    assert_eq!(db.get("a").unwrap_err(), Error::NotFoundError { key: "".to_string() });
    db.vacuum();
    assert_eq!(db.set_at("a", "1", "1001", "1002"), Ok(()));
    assert_eq!(db.set_at("b", "2", "1003", "1004"), Ok(()));
    assert_eq!(db.get("a").unwrap(), "1");
    assert_eq!(db.get("b").unwrap(), "2");
}

#[test]
fn a_database_with_given_timestamps_rolls_compacts_and_restarts() {
    let mut db = Database::connect_at(70, "1000").unwrap();
    db.set_at("a", "one", "1001", "1002").unwrap();
    db.set_at("b", "two", "1003", "1004").unwrap();
    db.set_at("c", "three", "1005", "1006").unwrap();
    assert_eq!(db.store().data_files(), &vec!["1000".to_string()]);
    assert_eq!(db.store().current_log_file(), "1006");
    assert_eq!(
        db.disk().read("1000.cky").unwrap(),
        "1001-a><?&(^#one$%#@*&^&1003-b><?&(^#two$%#@*&^&1005-c><?&(^#three$%#@*&^&"
    );
    assert_eq!(db.disk().read("1006.log").unwrap(), "");
    db.set_at("d", "four", "1007", "1008").unwrap();
    db.set_at("b", "TWO", "1009", "1010").unwrap();
    db.delete("a").unwrap();
    assert_eq!(db.disk().read("delete.del").unwrap(), "1001-a$%#@*&^&");

    db.vacuum();

    assert_eq!(db.disk().read("delete.del").unwrap(), "");
    assert_eq!(
        db.disk().read("1000.cky").unwrap(),
        "1003-b><?&(^#TWO$%#@*&^&1005-c><?&(^#three$%#@*&^&"
    );
    assert_eq!(db.disk().read("index.idx").unwrap(), "b><?&(^#1003-b$%#@*&^&c><?&(^#1005-c$%#@*&^&d><?&(^#1007-d$%#@*&^&");

    db.restart_at("1011");

    assert_eq!(db.store().current_log_file(), "1006");
    assert_eq!(db.get("a").unwrap_err(), Error::NotFoundError { key: "".to_string() });
    assert_eq!(db.get("b").unwrap(), "TWO");
    assert_eq!(db.get("c").unwrap(), "three");
    assert_eq!(db.get("d").unwrap(), "four");

    assert_eq!(db.clear_at("1006").unwrap_err().get_data(), Some("the time is not fit to name a log".to_string()));
    assert_eq!(db.get("d").unwrap(), "four");
    db.clear_at("1012").unwrap();
    assert_eq!(db.get("d").unwrap_err(), Error::NotFoundError { key: "".to_string() });
    let mut names = db.disk().names();
    names.sort();
    assert_eq!(names, vec!["1012.log", "delete.del", "index.idx"]);
    assert!(Database::connect_at(100, "").is_err());
}
