use ckydb::errors::Error::NotFoundError;
use ckydb::strings::TokenizedString;
use std::collections::HashMap;

const FIVE_RECORDS: &str = "1655404770518678-goat><?&(^#678 months$%#@*&^&1655404670510698-hen><?&(^#567 months$%#@*&^&1655404770534578-pig><?&(^#70 months$%#@*&^&1655403775538278-fish><?&(^#8990 months$%#@*&^&1655403795838278-foo><?&(^#890 months$%#@*&^&";

fn hash_map_of(token_string: &TokenizedString) -> HashMap<String, String> {
    token_string.map().into_iter().collect()
}

fn expected_map_of<const N: usize>(records: [(&str, &str); N]) -> HashMap<String, String> {
    HashMap::from(records.map(|(k, v)| (k.to_owned(), v.to_owned())))
}

#[test]
fn strings_to_string_returns_raw_string() {
    let s = String::from(FIVE_RECORDS);
    let token_string = TokenizedString::from(s.clone());
    assert_eq!(s, token_string.to_string());
}

#[test]
fn strings_map_converts_string_to_hash_map() {
    let s = String::from(FIVE_RECORDS);
    let token_string = TokenizedString::from(s.clone());
    let expected_map = expected_map_of([
        ("1655404770518678-goat", "678 months"),
        ("1655404670510698-hen", "567 months"),
        ("1655404770534578-pig", "70 months"),
        ("1655403775538278-fish", "8990 months"),
        ("1655403795838278-foo", "890 months"),
    ]);

    assert_eq!(expected_map, hash_map_of(&token_string));
}

#[test]
fn keys_converts_string_to_vector_of_keys() {
    let s = String::from("1655403795838278-foo$%#@*&^&1655375171402014000-bar$%#@*&^&");
    let token_string = TokenizedString::from(s.clone());
    let expected_keys = vec!["1655403795838278-foo", "1655375171402014000-bar"];

    assert_eq!(expected_keys, token_string.keys());
}

#[test]
fn strings_get_returns_the_value_for_given_key() {
    let s = String::from(FIVE_RECORDS);
    let token_string = TokenizedString::from(s.clone());
    let expected_records = [
        ("1655404770518678-goat", "678 months"),
        ("1655404670510698-hen", "567 months"),
        ("1655404770534578-pig", "70 months"),
        ("1655403775538278-fish", "8990 months"),
        ("1655403795838278-foo", "890 months"),
    ];
    let missing_keys = ["foo", "bar", "milk"];

    for (k, v) in expected_records {
        assert_eq!(v, token_string.get(k).expect(&format!("get key: {}", k)));
    }

    for key in missing_keys {
        match token_string.get(key) {
            Ok(_) => {
                panic!("{} was supposed to return a NotFoundError", key)
            }
            Err(err) => {
                assert_eq!(
                    err,
                    NotFoundError {
                        key: key.to_string()
                    }
                )
            }
        }
    }
}

#[test]
fn strings_insert_key_value_adds_key_value_to_map() {
    let s = String::from("1655404770518678-goat><?&(^#678 months$%#@*&^&1655404670510698-hen><?&(^#567 months$%#@*&^&1655403775538278-fish><?&(^#8990 months$%#@*&^&1655403795838278-foo><?&(^#890 months$%#@*&^&");
    let mut token_string = TokenizedString::from(s.clone());
    let (key, value) = ("1655404770534578-pig", "70 months");
    let expected_map = expected_map_of([
        ("1655404770518678-goat", "678 months"),
        ("1655404670510698-hen", "567 months"),
        ("1655403775538278-fish", "8990 months"),
        ("1655403795838278-foo", "890 months"),
        (key, value),
    ]);

    token_string
        .insert(key, value)
        .expect(&format!("insert key: {}, value: {}", key, value));

    assert_eq!(expected_map, hash_map_of(&token_string));
}

#[test]
fn strings_insert_updates_a_preexisting_key_value() {
    let s = String::from(FIVE_RECORDS);
    let mut token_string = TokenizedString::from(s.clone());
    let (key, value) = ("1655404770534578-pig", "new stuff");
    let expected_map = expected_map_of([
        ("1655404770518678-goat", "678 months"),
        ("1655404670510698-hen", "567 months"),
        (key, value),
        ("1655403775538278-fish", "8990 months"),
        ("1655403795838278-foo", "890 months"),
    ]);

    token_string
        .insert(key, value)
        .expect(&format!("insert key: {}, value: {}", key, value));

    assert_eq!(expected_map, hash_map_of(&token_string));
}

#[test]
fn strings_delete_removes_key_value_from_map() {
    let s = String::from(FIVE_RECORDS);
    let mut token_string = TokenizedString::from(s.clone());
    let expected_map = expected_map_of([
        ("1655404770518678-goat", "678 months"),
        ("1655404670510698-hen", "567 months"),
        ("1655403775538278-fish", "8990 months"),
        ("1655403795838278-foo", "890 months"),
    ]);
    let key_to_delete = "1655404770534578-pig";

    token_string
        .delete(key_to_delete)
        .expect(&format!("delete {}", key_to_delete));

    assert_eq!(expected_map, hash_map_of(&token_string));
}

#[test]
fn insert_key_adds_key_to_keys() {
    let (key, value) = ("1655404770534578-pig", "");
    let s = String::from("1655403795838278-foo$%#@*&^&1655375171402014000-bar$%#@*&^&");
    let mut token_string = TokenizedString::from(s.clone());
    let expected_keys = vec!["1655403795838278-foo", "1655375171402014000-bar", key];

    token_string
        .insert(key, value)
        .expect(&format!("insert key: {}, value: {}", key, value));

    assert_eq!(expected_keys, token_string.keys());
}

#[test]
fn insert_updates_a_preexisting_key() {
    let (key, value) = ("1655403795838278-foo", "");
    let s = String::from("1655403795838278-foo$%#@*&^&1655375171402014000-bar$%#@*&^&");
    let mut token_string = TokenizedString::from(s.clone());
    let expected_keys = vec!["1655403795838278-foo", "1655375171402014000-bar"];

    token_string
        .insert(key, value)
        .expect(&format!("insert key: {}, value: {}", key, value));

    assert_eq!(expected_keys, token_string.keys());
}

#[test]
fn delete_removes_key_from_keys() {
    let s = String::from("1655403795838278-foo$%#@*&^&1655375171402014000-bar$%#@*&^&16553751714020132000-bear$%#@*&^&");
    let mut token_string = TokenizedString::from(s.clone());
    let key_to_delete = "1655375171402014000-bar";
    let expected_keys = vec!["1655403795838278-foo", "16553751714020132000-bear"];

    token_string
        .delete(key_to_delete)
        .expect(&format!("delete {}", key_to_delete));

    assert_eq!(expected_keys, token_string.keys());
}

#[test]
fn insert_of_a_longer_value_moves_the_tokens_behind_it() {
    let mut token_string = TokenizedString::from("a><?&(^#1$%#@*&^&b><?&(^#2$%#@*&^&c><?&(^#3$%#@*&^&".to_string());

    token_string.insert("a", "longer-value").expect("insert");

    assert_eq!(
        "a><?&(^#longer-value$%#@*&^&b><?&(^#2$%#@*&^&c><?&(^#3$%#@*&^&",
        token_string.to_string()
    );
    assert_eq!(token_string.get("b").unwrap(), "2");
    assert_eq!(token_string.get("c").unwrap(), "3");
    assert_eq!(token_string.keys(), vec!["a", "b", "c"]);
    token_string.delete("b").expect("delete");
    assert_eq!(token_string.get("c").unwrap(), "3");
    assert_eq!("a><?&(^#longer-value$%#@*&^&c><?&(^#3$%#@*&^&", token_string.to_string());
}

#[test]
fn a_token_with_several_separators_is_cut_at_the_first() {
    let token_string = TokenizedString::from("a><?&(^#b><?&(^#c$%#@*&^&".to_string());

    assert_eq!(token_string.get("a").unwrap(), "b><?&(^#c");
    assert_eq!("a><?&(^#b><?&(^#c$%#@*&^&", token_string.to_string());
}

#[test]
fn get_finds_the_last_of_two_tokens_with_one_key() {
    let mut token_string = TokenizedString::from("a><?&(^#1$%#@*&^&a><?&(^#2$%#@*&^&".to_string());

    assert_eq!(token_string.get("a").unwrap(), "2");
    token_string.insert("a", "3").expect("insert");
    assert_eq!("a><?&(^#3$%#@*&^&a><?&(^#2$%#@*&^&", token_string.to_string());
    token_string.delete("a").expect("delete");
    assert_eq!("a><?&(^#2$%#@*&^&", token_string.to_string());
}
