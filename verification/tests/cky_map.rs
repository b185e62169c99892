use ckydb::cky_map::CkyMap;
use ckydb::constants::{KEY_VALUE_SEPARATOR, TOKEN_SEPARATOR};
use ckydb::errors::Error::NotFoundError;
use std::collections::HashMap;

const FIVE_RECORDS: &str = "1655404770518678-goat><?&(^#678 months$%#@*&^&1655404670510698-hen><?&(^#567 months$%#@*&^&1655404770534578-pig><?&(^#70 months$%#@*&^&1655403775538278-fish><?&(^#8990 months$%#@*&^&1655403795838278-foo><?&(^#890 months$%#@*&^&";

fn hash_map_of(cky_map: &CkyMap) -> HashMap<String, String> {
    cky_map.map().into_iter().collect()
}

fn expected_map_of<const N: usize>(records: [(&str, &str); N]) -> HashMap<String, String> {
    HashMap::from(records.map(|(k, v)| (k.to_owned(), v.to_owned())))
}

#[test]
fn cky_map_to_string_returns_raw_string() {
    let s = String::from(FIVE_RECORDS);
    let cky_map = CkyMap::from(&s);
    assert_eq!(s, cky_map.to_string());
}

#[test]
fn cky_map_clear_removes_all_data() {
    let s = String::from(FIVE_RECORDS);
    let mut cky_map = CkyMap::from(&s);
    let empty_str_map: HashMap<String, String> = Default::default();
    let empty_str_usize_map: HashMap<String, usize> = Default::default();

    cky_map.clear();

    let offsets: HashMap<String, usize> = cky_map.offsets().into_iter().collect();
    assert_eq!("", cky_map.to_string());
    assert_eq!(empty_str_map, hash_map_of(&cky_map));
    assert_eq!(empty_str_usize_map, offsets);
}

#[test]
fn cky_map_reload_from_str_matches_internal_state_to_str() {
    let s = String::from(FIVE_RECORDS);
    let new_string = "goat><?&(^#big$%#@*&^&hen><?&(^#ben$%#@*&^&pig><?&(^#bar$%#@*&^&fish><?&(^#bear$%#@*&^&".to_string();
    let expected_map =
        expected_map_of([("goat", "big"), ("hen", "ben"), ("pig", "bar"), ("fish", "bear")]);
    let mut cky_map = CkyMap::from(&s);
    cky_map.reload_from_str(new_string.clone());
    let kv: HashMap<String, String> = expected_map
        .clone()
        .into_iter()
        .map(|(k, _)| (k.clone(), cky_map.get(&k).unwrap()))
        .collect();

    assert_eq!(new_string, cky_map.to_string());
    assert_eq!(expected_map, hash_map_of(&cky_map));
    assert_eq!(expected_map, kv);
}

#[test]
fn cky_map_map_converts_string_to_hash_map() {
    let s = String::from(FIVE_RECORDS);
    let cky_map = CkyMap::from(s);
    let expected_map = expected_map_of([
        ("1655404770518678-goat", "678 months"),
        ("1655404670510698-hen", "567 months"),
        ("1655404770534578-pig", "70 months"),
        ("1655403775538278-fish", "8990 months"),
        ("1655403795838278-foo", "890 months"),
    ]);

    assert_eq!(expected_map, hash_map_of(&cky_map));
}

#[test]
fn cky_map_get_returns_the_value_for_given_key() {
    let s = String::from(FIVE_RECORDS);
    let cky_map = CkyMap::from(s);
    let expected_records = [
        ("1655404770518678-goat", "678 months"),
        ("1655404670510698-hen", "567 months"),
        ("1655404770534578-pig", "70 months"),
        ("1655403775538278-fish", "8990 months"),
        ("1655403795838278-foo", "890 months"),
    ];
    let missing_keys = ["foo", "bar", "milk"];

    for (k, v) in expected_records {
        let got = cky_map.get(k).expect(&format!("get key: {}", k)).to_owned();
        assert_eq!(v, got);
    }

    for key in missing_keys {
        match cky_map.get(key) {
            Ok(_) => {
                panic!("{} was supposed to return a NotFoundError", key)
            }
            Err(err) => {
                assert_eq!(
                    err,
                    NotFoundError {
                        key: key.to_string()
                    }
                )
            }
        }
    }
}

#[test]
fn cky_map_insert_key_value_adds_key_value_to_map() {
    let s = String::from("1655404770518678-goat><?&(^#678 months$%#@*&^&1655404670510698-hen><?&(^#567 months$%#@*&^&1655403775538278-fish><?&(^#8990 months$%#@*&^&1655403795838278-foo><?&(^#890 months$%#@*&^&");
    let mut cky_map = CkyMap::from(&s);
    let (key, value) = ("1655404770534578-pig", "70 months");
    let expected_map = expected_map_of([
        ("1655404770518678-goat", "678 months"),
        ("1655404670510698-hen", "567 months"),
        ("1655403775538278-fish", "8990 months"),
        ("1655403795838278-foo", "890 months"),
        (key, value),
    ]);
    let expected_kv_string = format!(
        "{}{}{}{}{}",
        s, key, KEY_VALUE_SEPARATOR, value, TOKEN_SEPARATOR
    );

    let result = cky_map
        .insert(key, value)
        .expect(&format!("insert key: {}, value: {}", key, value));

    assert_eq!(result, None);
    assert_eq!(expected_map, hash_map_of(&cky_map));
    assert_eq!(expected_kv_string, cky_map.to_string());
}

#[test]
fn cky_map_insert_updates_a_preexisting_key_value() {
    let s = String::from(FIVE_RECORDS);
    let expected_kv_string = String::from("1655404770518678-goat><?&(^#678 months$%#@*&^&1655404670510698-hen><?&(^#567 months$%#@*&^&1655404770534578-pig><?&(^#new stuff$%#@*&^&1655403775538278-fish><?&(^#8990 months$%#@*&^&1655403795838278-foo><?&(^#890 months$%#@*&^&");
    let mut cky_map = CkyMap::from(s);
    let (key, value) = ("1655404770534578-pig", "new stuff");
    let expected_map = expected_map_of([
        ("1655404770518678-goat", "678 months"),
        ("1655404670510698-hen", "567 months"),
        (key, value),
        ("1655403775538278-fish", "8990 months"),
        ("1655403795838278-foo", "890 months"),
    ]);

    let result = cky_map
        .insert(key, value)
        .expect(&format!("insert key: {}, value: {}", key, value));

    assert_eq!(result, Some("70 months".to_owned()));
    assert_eq!(expected_map, hash_map_of(&cky_map));
    assert_eq!(expected_kv_string, cky_map.to_string());
}

#[test]
fn double_insert_overwrites_first_key() {
    let s = String::from("1655404770518678-goat><?&(^#678 months$%#@*&^&1655404670510698-hen><?&(^#567 months$%#@*&^&1655403775538278-fish><?&(^#8990 months$%#@*&^&");
    let expected_kv_string = String::from("1655404770518678-goat><?&(^#678 months$%#@*&^&1655404670510698-hen><?&(^#567 months$%#@*&^&1655403775538278-fish><?&(^#8990 months$%#@*&^&1655403795838278-foo><?&(^#hello$%#@*&^&");
    let mut cky_map = CkyMap::from(s);
    let (key, value, new_value) = ("1655403795838278-foo", "890 months", "hello");
    let expected_map = expected_map_of([
        ("1655404770518678-goat", "678 months"),
        ("1655404670510698-hen", "567 months"),
        ("1655403775538278-fish", "8990 months"),
        ("1655403795838278-foo", "hello"),
    ]);

    cky_map
        .insert(key, value)
        .expect(&format!("insert key: {}, value: {}", key, value));

    let result = cky_map
        .insert(key, new_value)
        .expect(&format!("insert key: {}, value: {}", key, new_value));

    assert_eq!(result, Some("890 months".to_owned()));
    assert_eq!(expected_map, hash_map_of(&cky_map));
    assert_eq!(expected_kv_string, cky_map.to_string());
}

#[test]
fn cky_map_delete_removes_key_value_from_map() {
    let s = String::from(FIVE_RECORDS);
    let expected_kv_string = String::from("1655404770518678-goat><?&(^#678 months$%#@*&^&1655404670510698-hen><?&(^#567 months$%#@*&^&1655403775538278-fish><?&(^#8990 months$%#@*&^&1655403795838278-foo><?&(^#890 months$%#@*&^&");
    let mut cky_map = CkyMap::from(s);
    let expected_map = expected_map_of([
        ("1655404770518678-goat", "678 months"),
        ("1655404670510698-hen", "567 months"),
        ("1655403775538278-fish", "8990 months"),
        ("1655403795838278-foo", "890 months"),
    ]);
    let key_to_delete = "1655404770534578-pig";

    let result = cky_map
        .delete(key_to_delete)
        .expect(&format!("delete {}", key_to_delete));

    assert_eq!(result, "70 months");
    assert_eq!(expected_map, hash_map_of(&cky_map));
    assert_eq!(expected_kv_string, cky_map.to_string());
}
