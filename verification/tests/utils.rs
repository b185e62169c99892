use ckydb::cky_map::CkyMap;
use ckydb::errors::Error;
use ckydb::task::{Task, TaskAction, TaskState, TICK_MILLIS};
use ckydb::text::{decimal_string, str_le, str_lt};
use ckydb::utils::{
    base_names_with_extension, delete_key_values_from_str, extract_key_values_from_str,
    extract_tokens_from_str, file_name, get_current_timestamp_str, get_files_with_extensions,
    has_any_of_prefixes, split_file_name,
};

fn strings(items: &[&str]) -> Vec<String> {
    items.iter().map(|s| s.to_string()).collect()
}

#[test]
fn extract_tokens_splits_on_the_token_separator() {
    assert_eq!(
        extract_tokens_from_str("1655403795838278-foo$%#@*&^&1655375171402014000-bar$%#@*&^&"),
        vec!["1655403795838278-foo", "1655375171402014000-bar"]
    );
    assert_eq!(extract_tokens_from_str("a$%#@*&^&b"), vec!["a", "b"]);
    assert_eq!(extract_tokens_from_str("$%#@*&^&a"), vec!["", "a"]);
    assert_eq!(extract_tokens_from_str("a$%#@*&^&$%#@*&^&$%#@*&^&"), vec!["a"]);
    assert_eq!(extract_tokens_from_str("a$%#@*&^"), vec!["a$%#@*&^"]);
    assert!(extract_tokens_from_str("").is_empty());
    assert!(extract_tokens_from_str("$%#@*&^&$%#@*&^&").is_empty());
}

#[test]
fn extract_key_values_reads_the_pairs_or_fails() {
    let pairs = extract_key_values_from_str("cow><?&(^#1-cow$%#@*&^&dog><?&(^#2-dog$%#@*&^&").unwrap();
    assert_eq!(pairs, CkyMap::from("cow><?&(^#1-cow$%#@*&^&dog><?&(^#2-dog$%#@*&^&"));
    assert_eq!(pairs.get("dog").unwrap(), "2-dog");

    let err = extract_key_values_from_str("cow><?&(^#1-cow$%#@*&^&dog$%#@*&^&").unwrap_err();
    assert_eq!(
        err,
        Error::CorruptedDataError { data: Some("key-value pair not separated on file".to_string()) }
    );
    assert!(extract_key_values_from_str("a><?&(^#b><?&(^#c$%#@*&^&").is_err());
    assert_eq!(extract_key_values_from_str("").unwrap().len(), 0);
}

#[test]
fn has_any_of_prefixes_looks_at_the_beginning_of_the_phrase() {
    let prefixes = strings(&["foo", "bar-"]);
    assert!(has_any_of_prefixes("foo", &prefixes));
    assert!(has_any_of_prefixes("bar-b-q", &prefixes));
    assert!(!has_any_of_prefixes("bar", &prefixes));
    assert!(!has_any_of_prefixes("a foo", &prefixes));
    assert!(!has_any_of_prefixes("foo", &vec![]));
    assert!(has_any_of_prefixes("foo", &strings(&[""])));
}

#[test]
fn delete_key_values_removes_the_tokens_of_the_keys() {
    let content = "1-cow><?&(^#500 months$%#@*&^&2-dog><?&(^#23 months$%#@*&^&3-cow><?&(^#1 month$%#@*&^&";
    assert_eq!(
        delete_key_values_from_str(content, &strings(&["1-cow", "3-cow"])),
        "2-dog><?&(^#23 months$%#@*&^&"
    );
    assert_eq!(delete_key_values_from_str(content, &strings(&["cow", "2-do"])), content);
    assert_eq!(delete_key_values_from_str(content, &vec![]), content);
    assert_eq!(delete_key_values_from_str(content, &strings(&["1-cow", "2-dog", "3-cow"])), "");
    assert_eq!(delete_key_values_from_str("a><?&(^#b", &strings(&["x"])), "a><?&(^#b$%#@*&^&");
}

#[test]
fn file_names_are_cut_at_the_last_dot() {
    assert_eq!(
        split_file_name("1655375171402014000.log"),
        Some(("1655375171402014000".to_string(), "log".to_string()))
    );
    assert_eq!(split_file_name("a.b.cky"), Some(("a.b".to_string(), "cky".to_string())));
    assert_eq!(split_file_name(".log"), Some(("".to_string(), "log".to_string())));
    assert_eq!(split_file_name("log."), Some(("log".to_string(), "".to_string())));
    assert_eq!(split_file_name("log"), None);
    assert_eq!(file_name("1655375171402014000", "cky"), "1655375171402014000.cky");
}

#[test]
fn files_are_picked_by_their_extensions() {
    let names = strings(&["2.cky", "index.idx", "1.cky", "3.log", ".log", "cky", "delete.del"]);
    assert_eq!(
        get_files_with_extensions(&names, &strings(&["log", "cky"])),
        vec!["2.cky", "1.cky", "3.log"]
    );
    assert_eq!(base_names_with_extension(&names, "cky"), vec!["2", "1"]);
    assert_eq!(base_names_with_extension(&names, "log"), vec!["3"]);
    assert!(base_names_with_extension(&names, "txt").is_empty());
}

#[test]
fn timestamps_are_decimal_numerals_that_grow() {
    let first = get_current_timestamp_str().unwrap();
    let second = get_current_timestamp_str().unwrap();
    assert!(!first.is_empty());
    assert!(first.chars().all(|c| c.is_ascii_digit()));
    assert_eq!(first.len(), 19);
    assert!(str_le(&first, &second));
    assert_eq!(first.parse::<u128>().unwrap().to_string(), first);
}

#[test]
fn decimal_numerals_have_no_leading_zeros() {
    assert_eq!(decimal_string(0), "0");
    assert_eq!(decimal_string(7), "7");
    assert_eq!(decimal_string(10), "10");
    assert_eq!(decimal_string(1655375171402014000), "1655375171402014000");
    assert_eq!(decimal_string(u128::MAX), u128::MAX.to_string());
}

#[test]
fn strings_are_ordered_character_by_character() {
    assert!(str_le("", ""));
    assert!(str_le("", "a"));
    assert!(!str_le("a", ""));
    assert!(str_le("1655375120328185000", "1655375120328185000-cow"));
    assert!(str_lt("1655375120328185000-cow", "1655375120328186000"));
    assert!(!str_lt("1655375120328186000", "1655375120328186000"));
    assert!(str_lt("10", "9"));
    assert!(str_lt("z", "é"));
    assert_eq!(str_le("abc", "abd"), "abc" <= "abd");
}

#[test]
fn errors_describe_themselves() {
    let not_found = Error::NotFoundError { key: "foo".to_string() };
    let corrupted = Error::CorruptedDataError { data: Some("bad offsets".to_string()) };
    let silent = Error::CorruptedDataError { data: None };

    assert_eq!(not_found.to_string(), "foo not found");
    assert_eq!(corrupted.to_string(), "corrupted: bad offsets");
    assert_eq!(silent.to_string(), "corrupted: ");
    assert_eq!(Error::AlreadyRunningError.to_string(), "already running");
    assert_eq!(Error::NotRunningError.to_string(), "not running");
    assert_eq!(not_found.get_data(), Some("foo".to_string()));
    assert_eq!(corrupted.get_data(), Some("bad offsets".to_string()));
    assert_eq!(silent.get_data(), None);
    assert_eq!(Error::AlreadyRunningError.get_data(), None);
    assert_eq!(Error::NotRunningError.get_data(), None);
}

#[test]
fn the_compactor_waits_compacts_and_stops() {
    let mut task = Task::new(300);
    assert!(!task.is_running());
    assert_eq!(task.stop(), Err(Error::NotRunningError));
    assert_eq!(task.tick(false), TaskAction::Halt);

    assert_eq!(task.start(), Ok(()));
    assert_eq!(task.start(), Err(Error::AlreadyRunningError));
    assert!(task.is_running());
    assert_eq!(task.state, TaskState::IdleWaiting);

    assert_eq!(task.tick(false), TaskAction::Wait);
    assert_eq!(task.tick(false), TaskAction::Wait);
    assert_eq!(task.waited_millis, 2 * TICK_MILLIS);
    assert_eq!(task.tick(false), TaskAction::Compact);
    assert_eq!(task.state, TaskState::Compacting);
    assert_eq!(task.tick(true), TaskAction::Compact);

    task.cycle_done();
    assert_eq!(task.state, TaskState::IdleWaiting);
    assert_eq!(task.waited_millis, 0);

    assert_eq!(task.tick(true), TaskAction::Halt);
    assert_eq!(task.state, TaskState::Stopping);
    assert!(task.is_running());
    task.halted();
    assert_eq!(task.state, TaskState::Stopped);
    assert!(!task.is_running());
}

#[test]
fn a_compactor_that_is_told_to_stop_comes_to_rest() {
    let mut task = Task::new(50);
    task.start().unwrap();
    assert_eq!(task.tick(false), TaskAction::Compact);
    assert_eq!(task.stop(), Ok(()));
    task.cycle_done();
    assert_eq!(task.state, TaskState::Stopping);
    assert_eq!(task.tick(false), TaskAction::Halt);
    task.halted();
    assert!(!task.is_running());
}
