use event_port_watcher::cookie::path_to_cookie;
use event_port_watcher::rescan::{has_watched_below, remove_stale};
use event_port_watcher::event::EventPortEventType;
use event_port_watcher::watchers::Watchers;

fn table(paths: &[&str]) -> Watchers<usize> {
    let mut table = Watchers::new();
    for (i, path) in paths.iter().enumerate() {
        assert_eq!(table.insert(path, i), path_to_cookie(path));
    }
    table
}

fn paths(table: &Watchers<usize>) -> Vec<String> {
    (0..table.len()).map(|i| table.path_at(i).to_string()).collect()
}

#[test]
fn a_watched_path_is_found() {
    let table = table(&["/p", "/p/a"]);
    assert_eq!(table.len(), 2);
    assert!(!table.is_empty());
    assert!(table.contains("/p/a"));
    assert!(table.contains("/p//a/"));
    assert!(!table.contains("/p/ab"));
    assert_eq!(table.find(path_to_cookie("/p/a")), Some("/p/a".to_string()));
    assert_eq!(table.find(path_to_cookie("/p/b")), None);
    assert_eq!(table.get("/p/a"), Some(&1));
    assert_eq!(table.get("/p/b"), None);
}

#[test]
fn watching_again_replaces_the_handle() {
    let mut table = table(&["/p", "/p/a", "/p/b"]);
    table.insert("/p/./a", 7);
    assert_eq!(paths(&table), ["/p", "/p/a", "/p/b"]);
    assert_eq!(table.get("/p/a"), Some(&7));
    assert_eq!(table.find(path_to_cookie("/p/a")), Some("/p/./a".to_string()));
}

#[test]
fn a_handle_can_be_changed_in_place() {
    let mut table = table(&["/p", "/p/a"]);
    *table.get_mut("/p/a").unwrap() = 9;
    assert!(table.get_mut("/q").is_none());
    assert_eq!(table.get("/p"), Some(&0));
    assert_eq!(table.get("/p/a"), Some(&9));
}

#[test]
fn forgetting_takes_what_lies_below_along() {
    let mut table = table(&["/p", "/p/foo", "/p/foo/x", "/p/foobar", "/p/foo/x/y", "/q"]);
    table.remove_watcher_recursive("/p/foo");
    assert_eq!(paths(&table), ["/p", "/p/foobar", "/q"]);
    assert_eq!(table.get("/p/foobar"), Some(&3));
    for gone in ["/p/foo", "/p/foo/x", "/p/foo/x/y"] {
        assert_eq!(table.find(path_to_cookie(gone)), None);
    }
    for left in ["/p", "/p/foobar", "/q"] {
        assert_eq!(table.find(path_to_cookie(left)), Some(left.to_string()));
    }
    table.remove_watcher_recursive("/nowhere");
    assert_eq!(table.len(), 3);
    table.remove_watcher_recursive("/");
    assert!(table.is_empty());
}

#[test]
fn the_empty_path_is_not_forgotten() {
    let mut table = table(&["/p", "/p/a", "r"]);
    table.remove_watcher_recursive("");
    assert_eq!(paths(&table), ["/p", "/p/a", "r"]);
    assert_eq!(table.find(path_to_cookie("/p")), Some("/p".to_string()));
}

#[test]
fn one_path_can_be_forgotten() {
    let mut table = table(&["/p", "/p/a", "/p/b"]);
    table.forget("/p");
    assert_eq!(paths(&table), ["/p/a", "/p/b"]);
    assert_eq!(table.find(path_to_cookie("/p")), None);
    assert_eq!(table.find(path_to_cookie("/p/a")), Some("/p/a".to_string()));
}

#[test]
fn stale_paths_are_forgotten_and_announced() {
    let mut table = table(&["/p", "/p/d", "/p/d/x", "/p/f", "/p/k", "/p/k/z", "/q"]);
    let listed = vec!["/p/k".to_string(), "/p/new".to_string()];
    let events = remove_stale(&mut table, "/p", &listed);
    let seen: Vec<(&str, bool)> = events.iter().map(|e| (e.path.as_str(), e.is_dir)).collect();
    assert_eq!(seen, [("/p/d", true), ("/p/d/x", false), ("/p/f", false)]);
    assert!(events.iter().all(|e| e.event_type == EventPortEventType::Deleted));
    assert_eq!(paths(&table), ["/p", "/p/k", "/p/k/z", "/q"]);
    assert_eq!(table.find(path_to_cookie("/p/d/x")), None);
}

#[test]
fn a_directory_behind_its_entries_is_still_one() {
    let mut table = table(&["/p", "/p/d/x", "/p/d"]);
    let events = remove_stale(&mut table, "/p", &Vec::new());
    let seen: Vec<(&str, bool)> = events.iter().map(|e| (e.path.as_str(), e.is_dir)).collect();
    assert_eq!(seen, [("/p/d/x", false), ("/p/d", true)]);
}

#[test]
fn directories_are_known_by_what_is_watched_below() {
    let table = table(&["/p", "/p/d", "/p/d/x", "/p/dd"]);
    assert!(has_watched_below(&table, "/p"));
    assert!(has_watched_below(&table, "/p/d"));
    assert!(!has_watched_below(&table, "/p/d/x"));
    assert!(!has_watched_below(&table, "/p/dd"));
}

#[test]
fn every_path_is_looked_up_after_others_were_forgotten() {
    let names: Vec<String> = (0..50).map(|i| format!("/p/{}", i)).collect();
    let mut table = Watchers::new();
    for (i, name) in names.iter().enumerate() {
        table.insert(name, i);
    }
    for name in &names[10..20] {
        table.forget(name);
    }
    table.remove_watcher_recursive("/p/3");
    table.insert("/p/15", 99);
    for (i, name) in names.iter().enumerate() {
        let expected = match i {
            3 | 10..=14 | 16..=19 => None,
            15 => Some(&99),
            _ => Some(&i),
        };
        assert_eq!(table.get(name), expected);
    }
    assert_eq!(table.path_at(39), "/p/15");
}
