use ckydb::cache::Cache;
use ckydb::cky_map::CkyMap;
use ckydb::constants::{DEL_FILENAME, INDEX_FILENAME, KEY_VALUE_SEPARATOR, TOKEN_SEPARATOR};
use ckydb::disk::{Disk, FileAction};
use ckydb::store::Store;
use ckydb::utils::{extract_key_values_from_str, extract_tokens_from_str, file_name};
use std::collections::HashMap;

const MAX_FILE_SIZE: u64 = 320;
const LOG_FILENAME: &str = "1655375171402014000.log";
const DATA_FILES: [&str; 2] = ["1655375120328185000.cky", "1655375120328186000.cky"];
const NOW: &str = "1655404770600000000";
const DUMMY_FILE_DATA: [(&str, &str); 5] = [
    ("1655375120328185000.cky", "1655375120328185000-cow><?&(^#500 months$%#@*&^&1655375120328185100-dog><?&(^#23 months$%#@*&^&"),
    ("1655375120328186000.cky", "1655375171402014000-bar><?&(^#foo$%#@*&^&"),
    ("1655375171402014000.log", "1655404770518678-goat><?&(^#678 months$%#@*&^&1655404670510698-hen><?&(^#567 months$%#@*&^&1655404770534578-pig><?&(^#70 months$%#@*&^&1655403775538278-fish><?&(^#8990 months$%#@*&^&1655403795838278-foo><?&(^#890 months$%#@*&^&"),
    ("delete.del", "1655403795838278-foo$%#@*&^&1655375171402014000-bar$%#@*&^&"),
    ("index.idx", "cow><?&(^#1655375120328185000-cow$%#@*&^&dog><?&(^#1655375120328185100-dog$%#@*&^&goat><?&(^#1655404770518678-goat$%#@*&^&hen><?&(^#1655404670510698-hen$%#@*&^&pig><?&(^#1655404770534578-pig$%#@*&^&fish><?&(^#1655403775538278-fish$%#@*&^&"),
];

fn dummy_disk() -> Disk {
    let mut disk = Disk::new();
    for (name, content) in DUMMY_FILE_DATA {
        disk.write(name, content.to_string());
    }
    disk
}

fn load(store: &mut Store, disk: &mut Disk) {
    let actions = store.load_at(disk, NOW).expect("loads store");
    disk.apply_all(&actions);
}

fn hash_map_of(cky_map: &CkyMap) -> HashMap<String, String> {
    cky_map.map().into_iter().collect()
}

fn expected_index() -> HashMap<String, String> {
    HashMap::from(
        [
            ("cow", "1655375120328185000-cow"),
            ("dog", "1655375120328185100-dog"),
            ("goat", "1655404770518678-goat"),
            ("hen", "1655404670510698-hen"),
            ("pig", "1655404770534578-pig"),
            ("fish", "1655403775538278-fish"),
        ]
        .map(|(k, v)| (k.to_string(), v.to_string())),
    )
}

fn sorted_names(disk: &Disk) -> Vec<String> {
    let mut names = disk.names();
    names.sort();
    names
}

#[test]
fn load_updates_memory_props_from_data_on_disk() {
    let expected_cache = Cache::new_empty();
    let expected_memtable = CkyMap::from(String::from("1655404770518678-goat><?&(^#678 months$%#@*&^&1655404670510698-hen><?&(^#567 months$%#@*&^&1655404770534578-pig><?&(^#70 months$%#@*&^&1655403775538278-fish><?&(^#8990 months$%#@*&^&"));
    let expected_data_files = DATA_FILES
        .map(|filename| filename.trim_end_matches(".cky").to_string())
        .to_vec();
    let expected_current_log_file = LOG_FILENAME.trim_end_matches(".log").to_string();
    let mut store = Store::new(MAX_FILE_SIZE);
    let mut disk = dummy_disk();

    load(&mut store, &mut disk);

    assert_eq!(&expected_cache, store.cache());
    assert_eq!(&expected_memtable, store.memtable());
    assert_eq!(expected_index(), hash_map_of(store.index()));
    assert_eq!(&expected_data_files, store.data_files());
    assert_eq!(&expected_current_log_file, store.current_log_file());
    assert_eq!(LOG_FILENAME, file_name(store.current_log_file(), "log"));
    assert_eq!(MAX_FILE_SIZE, store.max_file_size());
}

#[test]
fn load_creates_db_folder_with_del_and_index_files_if_not_exist() {
    let expected_cache = Cache::new_empty();
    let mut expected_files = [DEL_FILENAME, INDEX_FILENAME].map(String::from).to_vec();
    let mut store = Store::new(MAX_FILE_SIZE);
    let mut disk = Disk::new();
    let empty_map: HashMap<String, String> = Default::default();
    let empty_memtable: CkyMap = Default::default();
    let empty_list: Vec<String> = vec![];

    load(&mut store, &mut disk);

    let current_log_filename = format!("{}.log", store.current_log_file());
    expected_files.push(current_log_filename.clone());
    expected_files.sort();

    assert_eq!(&expected_cache, store.cache());
    assert_ne!(&"".to_string(), store.current_log_file());
    assert_eq!(NOW, store.current_log_file());
    assert_eq!(empty_map, hash_map_of(store.index()));
    assert_eq!(&empty_memtable, store.memtable());
    assert_eq!(&empty_list, store.data_files());
    assert_eq!(expected_files, sorted_names(&disk));
}

#[test]
fn load_reports_what_it_does_to_the_folder() {
    let mut store = Store::new(MAX_FILE_SIZE);
    let disk = Disk::new();

    let actions = store.load_at(&disk, NOW).expect("loads store");

    assert_eq!(
        actions,
        vec![
            FileAction::Create { name: "index.idx".to_string() },
            FileAction::Create { name: "delete.del".to_string() },
            FileAction::Create { name: format!("{}.log", NOW) },
        ]
    );
}

#[test]
fn load_fails_on_an_index_file_with_a_token_that_is_no_pair() {
    let mut store = Store::new(MAX_FILE_SIZE);
    let mut disk = dummy_disk();
    disk.write("index.idx", "cow><?&(^#1655375120328185000-cow$%#@*&^&dog$%#@*&^&".to_string());

    let err = store.load_at(&disk, NOW).unwrap_err();

    assert_eq!(
        err.get_data(),
        Some("key-value pair not separated on file".to_string())
    );
    assert_eq!("", store.current_log_file());
}

#[test]
fn set_new_key_adds_key_value_to_memtable_and_index_and_log_files() {
    let (key, value) = ("New key", "foo");
    let mut store = Store::new(MAX_FILE_SIZE);
    let mut disk = dummy_disk();

    load(&mut store, &mut disk);
    let actions = store
        .set(key, value, &disk)
        .expect(&format!("set key: {}, value: {}", key, value));
    disk.apply_all(&actions);

    // expected
    let timestamped_key = store.index().get(key).unwrap();
    let expected_index_file_entry = format!(
        "{}{}{}{}",
        key, KEY_VALUE_SEPARATOR, timestamped_key, TOKEN_SEPARATOR
    );
    let expected_log_file_entry = format!(
        "{}{}{}{}",
        timestamped_key, KEY_VALUE_SEPARATOR, value, TOKEN_SEPARATOR
    );

    // actual
    let value_in_memtable = store.memtable().get(&timestamped_key).unwrap();
    let index_file_content = disk.read(INDEX_FILENAME).expect("read index file");
    let log_file_content = disk.read(LOG_FILENAME).expect("read log file");

    assert_eq!(value, value_in_memtable);
    assert!(index_file_content.contains(&expected_index_file_entry));
    assert!(log_file_content.contains(&expected_log_file_entry));
}

#[test]
fn set_same_recent_key_updates_value_in_memtable_and_log_file() {
    let (key, value, new_value) = ("New key", "foo", "hello-world");
    let mut store = Store::new(MAX_FILE_SIZE);
    let mut disk = dummy_disk();

    load(&mut store, &mut disk);
    let actions = store
        .set(key, value, &disk)
        .expect(&format!("set key: {}, value: {}", key, value));
    disk.apply_all(&actions);
    let actions = store
        .set(key, new_value, &disk)
        .expect(&format!("set key: {}, value: {}", key, new_value));
    disk.apply_all(&actions);

    // expected
    let timestamped_key = store.index().get(key).unwrap();
    let expected_index_file_entry = format!(
        "{}{}{}{}",
        key, KEY_VALUE_SEPARATOR, timestamped_key, TOKEN_SEPARATOR
    );
    let expected_log_file_entry = format!(
        "{}{}{}{}",
        timestamped_key, KEY_VALUE_SEPARATOR, new_value, TOKEN_SEPARATOR
    );

    // actual
    let value_in_memtable = store.memtable().get(&timestamped_key).unwrap();
    let index_file_content = disk.read(INDEX_FILENAME).expect("read index file");
    let log_file_content = disk.read(LOG_FILENAME).expect("read log file");

    assert_eq!(new_value, value_in_memtable);
    assert!(index_file_content.contains(&expected_index_file_entry));
    assert!(log_file_content.contains(&expected_log_file_entry));
}

#[test]
fn set_old_key_updates_value_in_cache_and_in_cky_file() {
    let (key, value) = ("cow", "foo-again");
    let mut store = Store::new(MAX_FILE_SIZE);
    let mut disk = dummy_disk();

    load(&mut store, &mut disk);
    let actions = store
        .set(key, value, &disk)
        .expect(&format!("set key: {}, value: {}", key, value));
    disk.apply_all(&actions);

    // expected
    let timestamped_key = store.index().get(key).unwrap();
    let expected_data_file_entry = format!("{}{}{}", timestamped_key, KEY_VALUE_SEPARATOR, value);

    // actual
    let value_in_cache = store.cache().get(&timestamped_key).unwrap();
    let data_file_content = disk.read(DATA_FILES[0]).expect("read data file");

    assert_eq!(value, value_in_cache);
    assert!(data_file_content.contains(&expected_data_file_entry));
}

#[test]
fn get_new_key_gets_value_from_memtable() {
    let (key, expected_value) = ("fish", "8990 months");
    let mut store = Store::new(MAX_FILE_SIZE);
    let mut disk = dummy_disk();

    load(&mut store, &mut disk);

    // an empty folder shows that the value comes straight from memory
    let actual_value = store.get(key, &Disk::new()).unwrap();
    assert_eq!(actual_value, expected_value);
}

#[test]
fn get_old_key_updates_cache_from_disk_and_gets_value_from_cache() {
    let (key, expected_value) = ("cow", "500 months");
    let expected_initial_cache = Cache::new_empty();
    let expected_final_cache = Cache::new(
        String::from("1655375120328185000-cow><?&(^#500 months$%#@*&^&1655375120328185100-dog><?&(^#23 months$%#@*&^&"),
        DATA_FILES[0].trim_end_matches(".cky").to_string(),
        DATA_FILES[1].trim_end_matches(".cky").to_string(),
    );

    let mut store = Store::new(MAX_FILE_SIZE);
    let mut disk = dummy_disk();

    load(&mut store, &mut disk);

    let initial_cache = store.cache().clone();
    let value = store.get(key, &disk).unwrap();
    let final_cache = store.cache().clone();

    assert_eq!(expected_value, value);
    assert_eq!(expected_initial_cache, initial_cache);
    assert_eq!(expected_final_cache, final_cache);
}

#[test]
fn get_old_key_again_gets_value_straight_from_cache() {
    let (key, expected_value) = ("cow", "500 months");
    let mut store = Store::new(MAX_FILE_SIZE);
    let mut disk = dummy_disk();

    load(&mut store, &mut disk);

    let _ = store.get(key, &disk).unwrap();

    // an empty folder shows that the value comes straight from memory on the next get
    let value = store.get(key, &Disk::new()).unwrap();

    assert_eq!(expected_value, value);
}

#[test]
fn get_non_existent_key_returns_not_found_error() {
    let key = "non-existent";
    let mut store = Store::new(MAX_FILE_SIZE);
    let mut disk = Disk::new();

    load(&mut store, &mut disk);

    match store.get(key, &disk) {
        Ok(_) => panic!("error was expected"),
        Err(err) => assert!(err.to_string().contains("not found")),
    }
}

#[test]
fn get_fails_as_corrupted_where_the_data_file_is_missing() {
    let mut store = Store::new(MAX_FILE_SIZE);
    let mut disk = dummy_disk();

    load(&mut store, &mut disk);

    let err = store.get("cow", &Disk::new()).unwrap_err();
    assert_eq!(
        err.to_string(),
        "corrupted: error getting value: corrupted: 1655375120328185000-cow"
    );
}

#[test]
fn delete_key_removes_key_from_index_and_adds_it_to_del_file() {
    let key = "pig";
    let mut expected_index = expected_index();
    expected_index.remove("pig");
    let expected_keys_marked_for_delete = vec!["1655404770534578-pig"];
    let mut store = Store::new(MAX_FILE_SIZE);
    let mut disk = dummy_disk();

    load(&mut store, &mut disk);
    let actions = store.delete(key).expect(&format!("delete {}", key));
    disk.apply_all(&actions);

    let idx_file_content = disk.read(INDEX_FILENAME).expect("read index file");
    let del_file_content = disk.read(DEL_FILENAME).expect("read del file");
    let map_from_idx_file = hash_map_of(
        &extract_key_values_from_str(&idx_file_content).expect("extract key values from index"),
    );
    let list_from_del_file = extract_tokens_from_str(&del_file_content);

    match store.get(key, &disk) {
        Ok(_) => panic!("error was expected"),
        Err(err) => assert!(err.to_string().contains("not found")),
    }

    assert_eq!(expected_index, map_from_idx_file);
    assert_eq!(expected_keys_marked_for_delete, list_from_del_file);
    assert_eq!(expected_index, hash_map_of(store.index()));
}

#[test]
fn delete_non_existent_key_returns_not_found_error() {
    let key = "non-existent";
    let mut store = Store::new(MAX_FILE_SIZE);
    let mut disk = Disk::new();

    load(&mut store, &mut disk);

    match store.delete(key) {
        Ok(_) => panic!("error was expected"),
        Err(err) => assert!(err.to_string().contains("not found")),
    }
}

#[test]
fn clear_deletes_all_data_on_disk_and_resets_memory_props() {
    let expected_cache = Cache::new_empty();
    let mut expected_files = vec![DEL_FILENAME.to_string(), INDEX_FILENAME.to_string()];
    let mut store = Store::new(MAX_FILE_SIZE);
    let mut disk = dummy_disk();
    let empty_map: HashMap<String, String> = Default::default();
    let empty_list: Vec<String> = Default::default();
    let empty_memtable: CkyMap = Default::default();

    load(&mut store, &mut disk);
    let actions = store.clear().expect("clear");
    disk.apply_all(&actions);

    let current_log_filename = format!("{}.log", store.current_log_file());
    expected_files.push(current_log_filename);
    expected_files.sort();

    assert_eq!(&expected_cache, store.cache());
    assert_ne!(&"".to_string(), store.current_log_file());
    assert_eq!(empty_map, hash_map_of(store.index()));
    assert_eq!(&empty_memtable, store.memtable());
    assert_eq!(&empty_list, store.data_files());
    assert_eq!(expected_files, sorted_names(&disk));
}

#[test]
fn vacuum_removes_keys_and_values_listed_in_del_file_from_log_and_cky_files() {
    let expected_log_file_content = String::from("1655404770518678-goat><?&(^#678 months$%#@*&^&1655404670510698-hen><?&(^#567 months$%#@*&^&1655404770534578-pig><?&(^#70 months$%#@*&^&1655403775538278-fish><?&(^#8990 months$%#@*&^&");
    let expected_data_contents = vec![
        "1655375120328185000-cow><?&(^#500 months$%#@*&^&1655375120328185100-dog><?&(^#23 months$%#@*&^&".to_string(), "".to_string(),
    ];
    let expected_del_file_content = "".to_string();
    let store = Store::new(MAX_FILE_SIZE);
    let mut disk = dummy_disk();

    let actions = store.vacuum(&disk);
    disk.apply_all(&actions);

    let data_file_content = DATA_FILES.map(|name| disk.read(name).expect("read data file"));
    let log_file_content = disk.read(LOG_FILENAME).expect("read log file");
    let del_file_content = disk.read(DEL_FILENAME).expect("read log file");

    assert_eq!(expected_log_file_content, log_file_content);
    assert_eq!(expected_del_file_content, del_file_content);
    assert_eq!(expected_data_contents, data_file_content);
}

#[test]
fn vacuum_does_nothing_if_del_file_is_empty() {
    let expected_log_file_content = String::from("1655404770518678-goat><?&(^#678 months$%#@*&^&1655404670510698-hen><?&(^#567 months$%#@*&^&1655404770534578-pig><?&(^#70 months$%#@*&^&1655403775538278-fish><?&(^#8990 months$%#@*&^&1655403795838278-foo><?&(^#890 months$%#@*&^&");
    let expected_data_contents = vec![
        "1655375120328185000-cow><?&(^#500 months$%#@*&^&1655375120328185100-dog><?&(^#23 months$%#@*&^&".to_string(), "1655375171402014000-bar><?&(^#foo$%#@*&^&".to_string(),
    ];
    let expected_del_file_content = "".to_string();
    let store = Store::new(MAX_FILE_SIZE);
    let mut disk = dummy_disk();

    // clear delete file
    disk.write(DEL_FILENAME, "".to_string());

    let actions = store.vacuum(&disk);
    assert!(actions.is_empty());
    disk.apply_all(&actions);

    let data_file_content = DATA_FILES.map(|name| disk.read(name).expect("read data file"));
    let log_file_content = disk.read(LOG_FILENAME).expect("read log file");
    let del_file_content = disk.read(DEL_FILENAME).expect("read log file");

    assert_eq!(expected_log_file_content, log_file_content);
    assert_eq!(expected_del_file_content, del_file_content);
    assert_eq!(expected_data_contents, data_file_content);
}

#[test]
fn get_timestamp_range_is_that_of_the_segment_that_holds_the_key() {
    let mut store = Store::new(MAX_FILE_SIZE);
    let mut disk = dummy_disk();
    load(&mut store, &mut disk);

    assert_eq!(
        store.get_timestamp_range_for_key("1655375120328185100-dog"),
        Some(("1655375120328185000".to_string(), "1655375120328186000".to_string()))
    );
    assert_eq!(
        store.get_timestamp_range_for_key("1655375120328186000"),
        Some(("1655375120328186000".to_string(), "1655375171402014000".to_string()))
    );
    assert_eq!(store.get_timestamp_range_for_key("1655375120328184999-ant"), None);
    assert_eq!(store.get_timestamp_range_for_key("1655375171402014000-bar"), None);
}

#[test]
fn roll_turns_the_log_into_a_data_file_once_it_has_reached_the_maximum_size() {
    let mut store = Store::new(MAX_FILE_SIZE);
    let mut disk = dummy_disk();
    load(&mut store, &mut disk);

    assert!(store.roll_log_file_if_too_big(319, "1655404770700000000").is_empty());
    assert_eq!("1655375171402014000", store.current_log_file());

    let actions = store.roll_log_file_if_too_big(320, "1655404770700000000");

    assert_eq!(
        actions,
        vec![
            FileAction::Rename {
                from: "1655375171402014000.log".to_string(),
                to: "1655375171402014000.cky".to_string()
            },
            FileAction::Create { name: "1655404770700000000.log".to_string() },
        ]
    );
    assert_eq!("1655404770700000000", store.current_log_file());
    assert_eq!(
        &vec![
            "1655375120328185000".to_string(),
            "1655375120328186000".to_string(),
            "1655375171402014000".to_string()
        ],
        store.data_files()
    );
    assert_eq!(&CkyMap::default(), store.memtable());
}

#[test]
fn set_fails_as_corrupted_and_changes_nothing_where_the_page_cannot_be_had() {
    let mut store = Store::new(MAX_FILE_SIZE);
    let mut disk = dummy_disk();
    load(&mut store, &mut disk);
    let index_before = hash_map_of(store.index());

    // a timestamp before every segment: no segment holds the key
    let err = store
        .set_at("ant", "1 month", "1655375120328184000", "1655404770700000000", &disk)
        .unwrap_err();

    assert_eq!(err, ckydb::errors::Error::CorruptedDataError { data: None });
    assert_eq!(index_before, hash_map_of(store.index()));
    assert_eq!(&Cache::new_empty(), store.cache());
}

#[test]
fn undoing_a_new_key_takes_it_out_of_memtable_and_index() {
    let mut store = Store::new(MAX_FILE_SIZE);
    let mut disk = dummy_disk();
    load(&mut store, &mut disk);
    let actions = store
        .set_at("ant", "1 month", NOW, "1655404770700000000", &disk)
        .unwrap();
    disk.apply_all(&actions);
    let timestamped_key = format!("{}-ant", NOW);

    let undo = store.delete_key_value_pair_if_exists(&timestamped_key).unwrap();
    disk.apply_all(&undo);
    let undo = store.remove_timestamped_key_for_key_if_exists("ant");
    disk.apply_all(&undo);

    assert_eq!(expected_index(), hash_map_of(store.index()));
    assert_eq!(disk.read(INDEX_FILENAME).unwrap(), DUMMY_FILE_DATA[4].1);
    assert!(!disk.read(LOG_FILENAME).unwrap().contains("ant"));
    assert!(store.remove_timestamped_key_for_key_if_exists("ant").is_empty());
}
