use ckydb::cky_vector::CkyVector;
use ckydb::constants::TOKEN_SEPARATOR;

#[test]
fn cky_vector_to_string_returns_raw_string() {
    let s = String::from("1655403795838278-foo$%#@*&^&1655375171402013000-bar$%#@*&^&");
    let cky_vector = CkyVector::from(&s);
    assert_eq!(s, cky_vector.to_string());
}

#[test]
fn cky_vector_clear_removes_all_data() {
    let s = String::from("1655403795838278-foo$%#@*&^&1655375171402013000-bar$%#@*&^&");
    let mut cky_vector = CkyVector::from(&s);
    let empty_str_vector: Vec<String> = Default::default();
    let empty_usize_vector: Vec<usize> = Default::default();

    cky_vector.clear();

    assert_eq!("", cky_vector.to_string());
    assert_eq!(empty_str_vector, cky_vector.items());
    assert_eq!(empty_usize_vector, cky_vector.offsets());
}

#[test]
fn cky_vector_reload_from_str_matches_internal_state_to_str() {
    let s = "1655403795838278-foo$%#@*&^&1655375171402013000-bar$%#@*&^&";
    let new_string = "foo$%#@*&^&bar$%#@*&^&bear$%#@*&^&";
    let expected_items = vec!["foo".to_string(), "bar".to_string(), "bear".to_string()];
    let mut got_items: Vec<String> = vec![];
    let mut cky_vector = CkyVector::from(s);
    cky_vector.reload_from_str(new_string.to_owned());

    for i in 0..expected_items.len() {
        let v = cky_vector.get(i).unwrap();
        got_items.push(v.to_owned());
    }

    assert_eq!(new_string, cky_vector.to_string());
    assert_eq!(expected_items, cky_vector.items());
    assert_eq!(cky_vector.len(), 3);
    assert_eq!(expected_items, got_items);
}

#[test]
fn len_gets_number_of_items() {
    let s = "1655403795838278-foo$%#@*&^&1655375171402013000-bar$%#@*&^&";
    let cky_vector = CkyVector::from(s);
    assert_eq!(cky_vector.len(), 2);
}

#[test]
fn get_returns_the_item_at_index_or_none() {
    let s = "1655403795838278-foo$%#@*&^&1655375171402013000-bar$%#@*&^&";
    let cky_vector = CkyVector::from(s);
    let mut got_items: Vec<String> = vec![];
    let expected_items = vec![
        "1655403795838278-foo".to_string(),
        "1655375171402013000-bar".to_string(),
    ];

    for i in 0..expected_items.len() {
        let v = cky_vector.get(i).unwrap();
        got_items.push(v.to_owned());
    }

    assert_eq!(cky_vector.len(), 2);
    assert_eq!(expected_items, got_items);
    assert_eq!(cky_vector.get(7), None);
}

#[test]
fn remove_deletes_the_item_at_index_and_returns_it_or_errs() {
    let s = "1655403795838278-foo$%#@*&^&1655375171402013000-bar$%#@*&^&1655375171402014000-bear$%#@*&^&";
    let mut cky_vector = CkyVector::from(s);
    let expected_items = vec![
        "1655403795838278-foo".to_string(),
        "1655375171402014000-bear".to_string(),
    ];

    let result = cky_vector.remove(1).unwrap();
    match cky_vector.remove(7) {
        Ok(_) => {
            panic!("expected a Not Found Err")
        }
        Err(e) => {
            assert!(e.get_data().unwrap().contains(&format!("{}", 7)))
        }
    }

    assert_eq!(cky_vector.len(), 2);
    assert_eq!(result, "1655375171402013000-bar");
    assert_eq!(expected_items, cky_vector.items());
}

#[test]
fn remove_many_deletes_items_at_indices_and_returns_them_or_errs() {
    let s = "1655403795838278-foo$%#@*&^&1655375171402013000-bar$%#@*&^&1655375171402014000-bear$%#@*&^&";
    let mut cky_vector = CkyVector::from(s);
    let expected_items = vec!["1655403795838278-foo".to_string()];

    let result = cky_vector.remove_many(vec![1, 2]).unwrap();
    match cky_vector.remove_many(vec![3]) {
        Ok(_) => {
            panic!("expected a Not Found Err")
        }
        Err(e) => {
            assert!(e.get_data().unwrap().contains(&format!("{}", 3)))
        }
    }

    assert_eq!(cky_vector.len(), 1);
    assert_eq!(
        result,
        vec![
            "1655375171402013000-bar".to_string(),
            "1655375171402014000-bear".to_string()
        ]
    );
    assert_eq!(expected_items, cky_vector.items());
}

#[test]
fn items_converts_string_to_vector_of_items() {
    let s = String::from("1655403795838278-foo$%#@*&^&1655375171402013000-bar$%#@*&^&");
    let cky_vector = CkyVector::from(s);
    let expected_items = vec!["1655403795838278-foo", "1655375171402013000-bar"];
    assert_eq!(expected_items, cky_vector.items());
}

#[test]
fn push_appends_value_to_end_of_vector() {
    let value = "1655404770534578-pig";
    let s = String::from("1655403795838278-foo$%#@*&^&1655375171402013000-bar$%#@*&^&");
    let mut cky_vector = CkyVector::from(&s);
    let expected_items = vec!["1655403795838278-foo", "1655375171402013000-bar", value];
    let expected_kv_string = format!("{}{}{}", s, value, TOKEN_SEPARATOR);

    cky_vector.push(value);

    assert_eq!(expected_items, cky_vector.items());
    assert_eq!(expected_kv_string, cky_vector.to_string());
}

#[test]
fn remove_shifts_the_offsets_behind_the_removed_item() {
    let mut cky_vector = CkyVector::from("a$%#@*&^&bcd$%#@*&^&ef$%#@*&^&");
    assert_eq!(vec![0, 9, 20], cky_vector.offsets());

    assert_eq!(cky_vector.remove(0).unwrap(), "a");

    assert_eq!(vec![0, 11], cky_vector.offsets());
    assert_eq!("bcd$%#@*&^&ef$%#@*&^&", cky_vector.to_string());
}

#[test]
fn shift_offsets_moves_the_offsets_from_the_index_on() {
    let mut cky_vector = CkyVector::from("a$%#@*&^&bcd$%#@*&^&ef$%#@*&^&");

    cky_vector.shift_offsets(1, -4);
    assert_eq!(vec![0, 5, 16], cky_vector.offsets());

    cky_vector.shift_offsets(2, 3);
    assert_eq!(vec![0, 5, 19], cky_vector.offsets());
    assert_eq!("a$%#@*&^&bcd$%#@*&^&ef$%#@*&^&", cky_vector.to_string());
}

#[test]
fn reload_keeps_empty_tokens_between_separators() {
    let cky_vector = CkyVector::from("a$%#@*&^&$%#@*&^&b$%#@*&^&$%#@*&^&");
    assert_eq!(vec!["a", "", "b"], cky_vector.items());
    assert_eq!("a$%#@*&^&$%#@*&^&b$%#@*&^&", cky_vector.to_string());
}

#[test]
fn remove_many_stops_at_the_first_missing_position() {
    let mut cky_vector = CkyVector::from("a$%#@*&^&b$%#@*&^&c$%#@*&^&");
    let err = cky_vector.remove_many(vec![0, 5, 6]).unwrap_err();
    assert_eq!(err.get_data(), Some("4".to_string()));
    assert_eq!(vec!["b", "c"], cky_vector.items());
}
