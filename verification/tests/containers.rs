use ckydb::cky_map::CkyMap;
use ckydb::cky_vector::CkyVector;
use std::collections::HashMap;

fn offsets_of(cky_map: &CkyMap) -> HashMap<String, usize> {
    cky_map.offsets().into_iter().collect()
}

#[test]
fn insert_of_a_longer_value_shifts_the_offsets_behind_it() {
    let mut cky_map = CkyMap::from("a><?&(^#1$%#@*&^&b><?&(^#2$%#@*&^&c><?&(^#3$%#@*&^&");
    assert_eq!(offsets_of(&cky_map)["a"], 0);
    assert_eq!(offsets_of(&cky_map)["b"], 17);
    assert_eq!(offsets_of(&cky_map)["c"], 34);

    let previous = cky_map.insert("a", "longer-value").unwrap();

    assert_eq!(previous, Some("1".to_string()));
    let blob = cky_map.to_string();
    assert_eq!(blob, "a><?&(^#longer-value$%#@*&^&b><?&(^#2$%#@*&^&c><?&(^#3$%#@*&^&");
    let offsets = offsets_of(&cky_map);
    assert_eq!(offsets["a"], 0);
    assert_eq!(offsets["b"], 28);
    assert_eq!(offsets["c"], 45);
    let byte_offsets: HashMap<String, usize> = cky_map.byte_offsets().into_iter().collect();
    assert_eq!(byte_offsets["b"], blob.find("b><?&(^#2").unwrap());
    assert_eq!(byte_offsets["c"], blob.find("c><?&(^#3").unwrap());
    assert_eq!(cky_map.get("b").unwrap(), "2");
    assert_eq!(cky_map.get("c").unwrap(), "3");
}

#[test]
fn insert_of_a_shorter_value_shifts_the_offsets_behind_it() {
    let mut cky_map = CkyMap::from("a><?&(^#longer-value$%#@*&^&b><?&(^#2$%#@*&^&");

    cky_map.insert("a", "").unwrap();

    assert_eq!(cky_map.to_string(), "a><?&(^#$%#@*&^&b><?&(^#2$%#@*&^&");
    assert_eq!(offsets_of(&cky_map)["b"], 16);
    cky_map.insert("b", "22").unwrap();
    assert_eq!(cky_map.to_string(), "a><?&(^#$%#@*&^&b><?&(^#22$%#@*&^&");
}

#[test]
fn delete_shifts_the_offsets_behind_the_deleted_entry() {
    let mut cky_map = CkyMap::from("a><?&(^#1$%#@*&^&b><?&(^#2$%#@*&^&c><?&(^#3$%#@*&^&");

    assert_eq!(cky_map.delete("a").unwrap(), "1");

    let offsets = offsets_of(&cky_map);
    assert_eq!(offsets.len(), 2);
    assert_eq!(offsets["b"], 0);
    assert_eq!(offsets["c"], 17);
    cky_map.insert("c", "33").unwrap();
    cky_map.insert("b", "").unwrap();
    assert_eq!(cky_map.to_string(), "b><?&(^#$%#@*&^&c><?&(^#33$%#@*&^&");
}

#[test]
fn reload_of_the_serialization_gives_the_same_container() {
    let mut cky_map = CkyMap::from("a><?&(^#1$%#@*&^&b><?&(^#2$%#@*&^&");
    cky_map.insert("c", "3").unwrap();
    cky_map.insert("a", "one").unwrap();
    cky_map.delete("b").unwrap();

    let mut reloaded = CkyMap::default();
    reloaded.reload_from_str(cky_map.to_string());

    assert_eq!(reloaded, cky_map);
    assert_eq!(reloaded.map(), cky_map.map());
    assert_eq!(reloaded.offsets(), cky_map.offsets());
    assert_eq!(reloaded.to_string(), "a><?&(^#one$%#@*&^&c><?&(^#3$%#@*&^&");

    let mut cky_vector = CkyVector::from("x$%#@*&^&y$%#@*&^&");
    cky_vector.push("z");
    cky_vector.remove(0).unwrap();
    let reloaded = CkyVector::from(cky_vector.to_string());
    assert_eq!(reloaded, cky_vector);
    assert_eq!(reloaded.offsets(), vec![0, 9]);
}

#[test]
fn reload_drops_the_tokens_that_are_no_pairs() {
    let cky_map = CkyMap::from("a><?&(^#1$%#@*&^&junk$%#@*&^&b><?&(^#2><?&(^#3$%#@*&^&c><?&(^#4$%#@*&^&$%#@*&^&");

    assert_eq!(
        cky_map.map(),
        vec![("a".to_string(), "1".to_string()), ("c".to_string(), "4".to_string())]
    );
    assert_eq!(cky_map.to_string(), "a><?&(^#1$%#@*&^&c><?&(^#4$%#@*&^&");
    assert_eq!(cky_map.len(), 2);
}

#[test]
fn reload_gives_the_later_of_two_values_of_one_key() {
    let cky_map = CkyMap::from("a><?&(^#1$%#@*&^&b><?&(^#2$%#@*&^&a><?&(^#3$%#@*&^&");

    assert_eq!(cky_map.get("a").unwrap(), "3");
    assert_eq!(cky_map.to_string(), "a><?&(^#3$%#@*&^&b><?&(^#2$%#@*&^&");
}

#[test]
fn an_empty_content_gives_an_empty_container() {
    assert_eq!(CkyMap::from(""), CkyMap::default());
    assert_eq!(CkyMap::from("$%#@*&^&$%#@*&^&"), CkyMap::default());
    assert_eq!(CkyVector::from(""), CkyVector::default());
    assert_eq!(CkyVector::from("$%#@*&^&").len(), 0);
}

#[test]
fn keys_and_values_may_hold_characters_of_several_bytes() {
    let mut cky_map = CkyMap::from("clé><?&(^#valeur$%#@*&^&ключ><?&(^#значение$%#@*&^&");

    cky_map.insert("clé", "日本語").unwrap();

    assert_eq!(cky_map.get("ключ").unwrap(), "значение");
    let blob = cky_map.to_string();
    assert_eq!(blob, "clé><?&(^#日本語$%#@*&^&ключ><?&(^#значение$%#@*&^&");
    assert_eq!(offsets_of(&cky_map)["ключ"], 21);
    let byte_offsets: HashMap<String, usize> = cky_map.byte_offsets().into_iter().collect();
    assert_eq!(byte_offsets["clé"], 0);
    assert_eq!(byte_offsets["ключ"], 28);
    assert_eq!(byte_offsets["ключ"], blob.find("ключ><?&(^#").unwrap());
    let mut cky_vector = CkyVector::from("日本語$%#@*&^&x$%#@*&^&");
    cky_vector.push("é");
    assert_eq!(cky_vector.offsets(), vec![0, 11, 20]);
    assert_eq!(cky_vector.byte_offsets(), vec![0, 17, 26]);
}
