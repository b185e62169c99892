use ckydb::cache::Cache;
use ckydb::disk::{Disk, DiskFile, FileAction};
use ckydb::store::Store;
use ckydb::task::{Task, TaskAction, TaskState};

fn folder(files: &[(&str, &str)]) -> Disk {
    let mut disk = Disk::new();
    for (name, content) in files {
        disk.write(name, content.to_string());
    }
    disk
}

#[test]
fn create_makes_an_empty_file_unless_the_file_is_there() {
    let mut disk = folder(&[("a.log", "x")]);

    disk.apply(&FileAction::Create { name: "a.log".to_string() });
    disk.apply(&FileAction::Create { name: "b.log".to_string() });

    assert_eq!(disk, folder(&[("a.log", "x"), ("b.log", "")]));
    assert_eq!(disk.names(), vec!["a.log", "b.log"]);
    assert_eq!(disk.len(), 2);
}

#[test]
fn write_replaces_and_append_adds() {
    let mut disk = folder(&[("a.log", "x"), ("b.log", "y")]);

    disk.apply_all(&vec![
        FileAction::Write { name: "a.log".to_string(), content: "1".to_string() },
        FileAction::Append { name: "b.log".to_string(), content: "2".to_string() },
        FileAction::Append { name: "c.log".to_string(), content: "3".to_string() },
        FileAction::Write { name: "d.log".to_string(), content: "4".to_string() },
    ]);

    assert_eq!(
        disk,
        folder(&[("a.log", "1"), ("b.log", "y2"), ("c.log", "3"), ("d.log", "4")])
    );
    assert_eq!(disk.read("b.log"), Some("y2".to_string()));
    assert_eq!(disk.read("e.log"), None);
    assert!(disk.contains("d.log"));
    assert!(!disk.contains("e.log"));
}

#[test]
fn rename_moves_a_file_and_replaces_the_one_of_the_new_name() {
    let mut disk = folder(&[("a.log", "x"), ("b.log", "y"), ("c.log", "z")]);

    disk.apply(&FileAction::Rename { from: "a.log".to_string(), to: "a.cky".to_string() });
    assert_eq!(disk, folder(&[("b.log", "y"), ("c.log", "z"), ("a.cky", "x")]));

    disk.apply(&FileAction::Rename { from: "b.log".to_string(), to: "c.log".to_string() });
    assert_eq!(disk, folder(&[("c.log", "y"), ("a.cky", "x")]));

    disk.apply(&FileAction::Rename { from: "missing".to_string(), to: "c.log".to_string() });
    disk.apply(&FileAction::Rename { from: "a.cky".to_string(), to: "a.cky".to_string() });
    assert_eq!(disk, folder(&[("c.log", "y"), ("a.cky", "x")]));
}

#[test]
fn remove_all_empties_the_folder() {
    let mut disk = folder(&[("a.log", "x"), ("b.log", "y")]);

    disk.remove("a.log");
    assert_eq!(disk, folder(&[("b.log", "y")]));
    disk.remove("a.log");
    assert_eq!(disk.name_at(0), "b.log");
    assert_eq!(disk.content_at(0), "y");
    assert_eq!(disk.copy(), disk);

    disk.apply(&FileAction::RemoveAll);
    assert_eq!(disk, Disk::new());
    assert_eq!(
        DiskFile { name: "a".to_string(), content: "b".to_string() },
        DiskFile { name: "a".to_string(), content: "b".to_string() }
    );
}

#[test]
fn the_store_names_the_file_that_it_needs() {
    let disk = folder(&[
        ("1655375120328185000.cky", "1655375120328185000-cow><?&(^#500 months$%#@*&^&"),
        ("1655375120328186000.cky", ""),
        ("1655375171402014000.log", "1655404770518678-goat><?&(^#678 months$%#@*&^&"),
        ("delete.del", ""),
        ("index.idx", "cow><?&(^#1655375120328185000-cow$%#@*&^&goat><?&(^#1655404770518678-goat$%#@*&^&"),
    ]);
    let mut store = Store::new(320);
    store.load_at(&disk, "1655404770600000000").unwrap();

    assert_eq!(
        store.file_needed_for("cow", ""),
        Some("1655375120328185000.cky".to_string())
    );
    assert_eq!(store.file_needed_for("goat", ""), None);
    assert_eq!(store.file_needed_for("new", "1655404770600000000"), None);
    assert_eq!(
        store.file_needed_for("new", "1655375120328186500"),
        Some("1655375120328186000.cky".to_string())
    );
    assert_eq!(store.file_needed_for("new", "1655375120328184000"), None);

    store.get("cow", &disk).unwrap();
    assert_eq!(store.file_needed_for("cow", ""), None);
    assert_eq!(
        store.get_timestamped_key("cow", "1"),
        ("1655375120328185000-cow".to_string(), false)
    );
    assert_eq!(store.get_timestamped_key("ant", "1"), ("1-ant".to_string(), true));
}

#[test]
fn a_page_is_reloaded_with_its_bounds() {
    let mut cache = Cache::new_empty();
    assert!(!cache.is_in_range("0"));
    assert!(!cache.is_in_range(""));
    assert!(!cache.is_in_range("1"));

    cache.reload("15-a><?&(^#x$%#@*&^&".to_string(), "10".to_string(), "20".to_string());

    assert_eq!(cache, Cache::new("15-a><?&(^#x$%#@*&^&".to_string(), "10".to_string(), "20".to_string()));
    assert!(cache.is_in_range("10"));
    assert!(cache.is_in_range("15-a"));
    assert!(cache.is_in_range("1999"));
    assert!(!cache.is_in_range("20"));
    assert!(!cache.is_in_range("09"));
    assert_eq!(cache.get("15-a").unwrap(), "x");
    assert_eq!(cache.update("15-a", "y").unwrap(), Some("x".to_string()));
    assert_eq!(cache.update("16-b", "z").unwrap(), None);
    assert_eq!(cache.remove("15-a").unwrap(), "y");
    assert!(cache.remove("15-a").is_err());
    assert_eq!(cache.data.to_string(), "16-b><?&(^#z$%#@*&^&");
}

#[test]
fn a_compactor_with_a_short_interval_compacts_at_every_tick() {
    let mut task = Task::new(0);
    task.start().unwrap();
    assert_eq!(task.tick(false), TaskAction::Compact);
    task.cycle_done();
    assert_eq!(task.tick(false), TaskAction::Compact);
    task.cycle_done();
    task.halted();
    assert_eq!(task.state, TaskState::IdleWaiting);
    let mut exact = Task::new(100);
    exact.start().unwrap();
    assert_eq!(exact.tick(false), TaskAction::Compact);
    let mut longer = Task::new(101);
    longer.start().unwrap();
    assert_eq!(longer.tick(false), TaskAction::Wait);
    assert_eq!(longer.tick(false), TaskAction::Compact);
}
