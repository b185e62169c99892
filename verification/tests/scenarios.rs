use ckydb::constants::{DEL_FILENAME, INDEX_FILENAME};
use ckydb::disk::Disk;
use ckydb::errors::Error;
use ckydb::store::Store;

const RECORDS: [(&str, &str); 7] = [
    ("hey", "English"),
    ("hi", "English"),
    ("salut", "French"),
    ("bonjour", "French"),
    ("hola", "Spanish"),
    ("oi", "Portuguese"),
    ("mulimuta", "Runyoro"),
];
const SEED: [(&str, &str); 5] = [
    ("1655375120328185000.cky", "1655375120328185000-cow><?&(^#500 months$%#@*&^&1655375120328185100-dog><?&(^#23 months$%#@*&^&"),
    ("1655375120328186000.cky", "1655375171402014000-bar><?&(^#foo$%#@*&^&"),
    ("1655375171402014000.log", "1655404770518678-goat><?&(^#678 months$%#@*&^&1655404670510698-hen><?&(^#567 months$%#@*&^&1655404770534578-pig><?&(^#70 months$%#@*&^&1655403775538278-fish><?&(^#8990 months$%#@*&^&1655403795838278-foo><?&(^#890 months$%#@*&^&"),
    ("delete.del", "1655403795838278-foo$%#@*&^&1655375171402014000-bar$%#@*&^&"),
    ("index.idx", "cow><?&(^#1655375120328185000-cow$%#@*&^&dog><?&(^#1655375120328185100-dog$%#@*&^&goat><?&(^#1655404770518678-goat$%#@*&^&hen><?&(^#1655404670510698-hen$%#@*&^&pig><?&(^#1655404770534578-pig$%#@*&^&fish><?&(^#1655403775538278-fish$%#@*&^&"),
];

/// A database over a folder in memory: the store, and the folder that
/// follows the actions of the store.
struct Db {
    store: Store,
    disk: Disk,
    clock: u64,
}

impl Db {
    fn open(disk: Disk, max_file_size: u64) -> Db {
        let mut db = Db { store: Store::new(max_file_size), disk, clock: 1700000000000000000 };
        let now = db.tick();
        let actions = db.store.load_at(&db.disk, &now).expect("load");
        db.disk.apply_all(&actions);
        db
    }

    fn tick(&mut self) -> String {
        self.clock += 1000;
        self.clock.to_string()
    }

    fn set(&mut self, key: &str, value: &str) -> Result<(), Error> {
        let now = self.tick();
        let later = self.tick();
        let actions = self.store.set_at(key, value, &now, &later, &self.disk)?;
        self.disk.apply_all(&actions);
        Ok(())
    }

    fn get(&mut self, key: &str) -> Result<String, Error> {
        self.store.get(key, &self.disk)
    }

    fn delete(&mut self, key: &str) -> Result<(), Error> {
        let actions = self.store.delete(key)?;
        self.disk.apply_all(&actions);
        Ok(())
    }

    fn vacuum(&mut self) {
        let actions = self.store.vacuum(&self.disk);
        self.disk.apply_all(&actions);
    }

    fn names_with_extension(&self, ext: &str) -> Vec<String> {
        let suffix = format!(".{}", ext);
        self.disk.names().into_iter().filter(|n| n.ends_with(&suffix)).collect()
    }
}

fn seeded_disk() -> Disk {
    let mut disk = Disk::new();
    for (name, content) in SEED {
        disk.write(name, content.to_string());
    }
    disk
}

fn db_with_seven_records() -> Db {
    let mut db = Db::open(Disk::new(), 180);
    for (k, v) in RECORDS {
        db.set(k, v).expect("set");
    }
    db
}

#[test]
fn set_then_get_in_an_empty_folder() {
    let mut db = Db::open(Disk::new(), 320);

    db.set("hey", "English").expect("set");

    assert_eq!(db.get("hey").unwrap(), "English");
    let timestamped_key = db.store.index().get("hey").unwrap();
    let log = db.names_with_extension("log");
    assert_eq!(log.len(), 1);
    assert_eq!(
        db.disk.read(&log[0]).unwrap(),
        format!("{}><?&(^#English$%#@*&^&", timestamped_key)
    );
    assert!(timestamped_key.ends_with("-hey"));
    assert_eq!(timestamped_key, "1700000000000002000-hey");
}

#[test]
fn seven_records_roll_the_log_once() {
    let mut db = db_with_seven_records();

    let data_files = db.names_with_extension("cky");
    assert_eq!(data_files.len(), 1);
    assert_eq!(db.names_with_extension("log").len(), 1);
    let rolled = db.disk.read(&data_files[0]).unwrap();
    for (k, v) in &RECORDS[..4] {
        assert!(rolled.contains(&format!("-{}><?&(^#{}$%#@*&^&", k, v)));
    }
    for (k, _) in &RECORDS[4..] {
        assert!(!rolled.contains(&format!("-{}><?&(^#", k)));
    }
    for (k, v) in RECORDS {
        assert_eq!(db.get(k).unwrap(), v);
    }
}

#[test]
fn delete_then_compact() {
    let mut db = db_with_seven_records();
    let timestamped_key = db.store.index().get("salut").unwrap();

    db.delete("salut").expect("delete");

    assert_eq!(
        db.disk.read(DEL_FILENAME).unwrap(),
        format!("{}$%#@*&^&", timestamped_key)
    );
    assert!(!db.disk.read(INDEX_FILENAME).unwrap().contains("salut"));
    assert_eq!(db.get("salut").unwrap_err(), Error::NotFoundError { key: "".to_string() });
    let segments = [db.names_with_extension("cky"), db.names_with_extension("log")].concat();
    assert!(segments.iter().any(|name| db.disk.read(name).unwrap().contains("salut")));

    db.vacuum();

    assert_eq!(db.disk.read(DEL_FILENAME).unwrap(), "");
    for name in &segments {
        assert!(!db.disk.read(name).unwrap().contains("salut"));
    }
    for (k, v) in RECORDS {
        if k != "salut" {
            assert_eq!(db.get(k).unwrap(), v);
        }
    }
    assert_eq!(db.get("salut").unwrap_err(), Error::NotFoundError { key: "".to_string() });
}

#[test]
fn get_from_a_seeded_folder_loads_the_page_of_the_key() {
    let mut db = Db::open(seeded_disk(), 320);

    assert_eq!(db.get("cow").unwrap(), "500 months");
    assert_eq!(db.store.cache().start, "1655375120328185000");
    assert_eq!(db.store.cache().end, "1655375120328186000");
    assert!(db.store.cache().is_in_range("1655375120328185000-cow"));
    assert!(!db.store.cache().is_in_range("1655375120328186000"));
}

#[test]
fn get_again_reads_the_page_from_memory() {
    let mut db = Db::open(seeded_disk(), 320);
    assert_eq!(db.get("cow").unwrap(), "500 months");

    for (name, _) in SEED {
        db.disk.remove(name);
    }

    assert_eq!(db.get("cow").unwrap(), "500 months");
}

#[test]
fn set_of_an_old_key_rewrites_its_data_file() {
    let mut db = Db::open(seeded_disk(), 320);

    db.set("cow", "foo-again").expect("set");

    assert_eq!(
        db.disk.read("1655375120328185000.cky").unwrap(),
        "1655375120328185000-cow><?&(^#foo-again$%#@*&^&1655375120328185100-dog><?&(^#23 months$%#@*&^&"
    );
    assert_eq!(
        db.store.cache().get("1655375120328185000-cow").unwrap(),
        "foo-again"
    );
    assert_eq!(db.get("cow").unwrap(), "foo-again");
    assert_eq!(db.get("dog").unwrap(), "23 months");
    assert_eq!(db.disk.read("1655375120328186000.cky").unwrap(), "");
}

#[test]
fn set_of_old_keys_updates_their_values_across_segments() {
    let updates = [
        ("hey", "Jane"),
        ("hi", "John"),
        ("salut", "Jean"),
        ("oi", "Ronaldo"),
        ("mulimuta", "Aliguma"),
    ];
    let mut db = db_with_seven_records();

    for (k, v) in updates {
        db.set(k, v).expect("set");
    }

    for (k, v) in updates {
        assert_eq!(db.get(k).unwrap(), v);
    }
    assert_eq!(db.get("bonjour").unwrap(), "French");
    assert_eq!(db.get("hola").unwrap(), "Spanish");
}

#[test]
fn restart_recovers_every_live_key() {
    let mut db = db_with_seven_records();
    db.delete("hi").expect("delete");
    db.set("hey", "Jane").expect("set");

    let mut again = Db::open(db.disk.copy(), 180);
    again.clock = db.clock;

    for (k, v) in RECORDS {
        if k == "hi" {
            assert_eq!(again.get(k).unwrap_err(), Error::NotFoundError { key: "".to_string() });
        } else if k == "hey" {
            assert_eq!(again.get(k).unwrap(), "Jane");
        } else {
            assert_eq!(again.get(k).unwrap(), v);
        }
    }
    assert_eq!(again.disk.read(DEL_FILENAME).unwrap(), "");
}

#[test]
fn three_rolls_leave_three_data_files_and_one_log() {
    let mut db = Db::open(Disk::new(), 180);
    for round in 0..3 {
        for (k, v) in &RECORDS[..4] {
            db.set(&format!("{}-{}", k, round), v).expect("set");
        }
    }
    db.set("hey", "English").expect("set");
    db.set("hi", "English").expect("set");

    assert_eq!(db.names_with_extension("cky").len(), 3);
    assert_eq!(db.names_with_extension("log").len(), 1);
    assert_eq!(db.store.data_files().len(), 3);
    for round in 0..3 {
        for (k, v) in &RECORDS[..4] {
            assert_eq!(&db.get(&format!("{}-{}", k, round)).unwrap(), v);
        }
    }
    assert_eq!(db.get("hey").unwrap(), "English");
}

#[test]
fn clear_leaves_the_folder_of_an_empty_database() {
    let mut db = db_with_seven_records();

    let now = db.tick();
    let actions = db.store.clear_at(&now);
    db.disk.apply_all(&actions);

    for (k, _) in RECORDS {
        match db.get(k) {
            Ok(_) => panic!("key: {} unexpected", k),
            Err(err) => assert!(err.to_string().contains("not found")),
        }
    }
    let mut names = db.disk.names();
    names.sort();
    assert_eq!(names, vec![format!("{}.log", now), "delete.del".to_string(), "index.idx".to_string()]);
}

#[test]
fn get_old_key_should_return_value_for_key_in_store() {
    let (key, value) = ("cow", "500 months");
    let mut db = Db::open(seeded_disk(), 320);

    match db.get(key) {
        Ok(v) => assert_eq!(value.to_string(), v),
        Err(err) => panic!("error getting items: {}", err.to_string()),
    }
}

#[test]
fn get_old_key_again_should_get_value_from_memory_cache() {
    let (key, value) = ("cow", "500 months");
    let mut db = Db::open(seeded_disk(), 320);

    if let Err(err) = db.get(key) {
        panic!("error getting items: {}", err.to_string());
    }

    // remove the files to ensure data is got from memory only
    db.disk = Disk::new();

    match db.get(key) {
        Ok(v) => assert_eq!(value.to_string(), v),
        Err(err) => panic!("error getting items: {}", err.to_string()),
    }
}
