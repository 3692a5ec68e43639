use event_port_watcher::cookie::path_to_cookie;
use event_port_watcher::path::path_is_below;
use event_port_watcher::rescan::path_is_stale;
use event_port_watcher::temporary::{is_temporary_name, text_ends_with, text_starts_with};

#[test]
fn only_whole_components_count() {
    assert!(path_is_below("/tmp/foo/bar", "/tmp/foo"));
    assert!(path_is_below("/tmp/foo/bar/baz", "/tmp/foo"));
    assert!(!path_is_below("/tmp/foobar", "/tmp/foo"));
    assert!(!path_is_below("/tmp", "/tmp/foo"));
}

#[test]
fn a_path_is_not_below_itself_however_spelled() {
    assert!(!path_is_below("/tmp/foo", "/tmp/foo"));
    assert!(!path_is_below("/tmp/foo/", "/tmp/foo"));
    assert!(!path_is_below("/tmp//foo", "/tmp/foo"));
    assert!(!path_is_below("/tmp/./foo/.", "/tmp/foo"));
    assert!(path_is_below("/tmp//foo///bar", "/tmp/foo/"));
}

#[test]
fn leading_and_parent_components_are_kept() {
    assert!(!path_is_below("./a", "a"));
    assert!(!path_is_below("./a", "./a"));
    assert!(path_is_below("./a", "."));
    assert!(!path_is_below("a/..", "a/../b"));
    assert!(path_is_below("a/..", "a"));
    assert!(path_is_below("/a", ""));
    assert!(path_is_below("a", ""));
    assert!(!path_is_below("", ""));
    assert!(!path_is_below("a", "/"));
    assert!(path_is_below("/a", "/"));
}

#[test]
fn a_longer_name_is_not_below_a_shorter_one() {
    assert!(!path_is_below("/tmp/..x", "/tmp/.."));
    assert!(!path_is_below(".x", "."));
    // The segment `.` stands for nothing, so here the longer text is a path below the other.
    assert!(path_is_below("/tmp/.x", "/tmp/."));
}

#[test]
fn the_cookie_goes_by_the_components() {
    let cookie = path_to_cookie("/a/b");
    assert_eq!(cookie, path_to_cookie("/a/b"));
    assert_eq!(cookie, path_to_cookie("/a//b/"));
    assert_eq!(cookie, path_to_cookie("/a/./b"));
    assert_ne!(cookie, path_to_cookie("/a/c"));
    assert_ne!(cookie, path_to_cookie("/ab"));
}

#[test]
fn temporary_names() {
    for name in ["x.bck", "x.tmp", "x~", ".#x", "#x#", "#", "~", ".x.swp", ".swp", ".tmp"] {
        assert!(is_temporary_name(name), "{}", name);
    }
    for name in ["x", "x.rs", "x.swp", "x.bck.rs", "~x", "x#", "", ".", "bck", "x.tm", ".x"] {
        assert!(!is_temporary_name(name), "{}", name);
    }
}

#[test]
fn texts_are_compared_by_characters() {
    assert!(text_starts_with("äöü", "äö"));
    assert!(!text_starts_with("äöü", "öü"));
    assert!(text_ends_with("äöü", "öü"));
    assert!(!text_ends_with("äöü", "äö"));
    assert!(text_starts_with("", "") && text_ends_with("", ""));
    assert!(!text_starts_with("a", "ab") && !text_ends_with("b", "ab"));
}

#[test]
fn stale_paths_lie_below_and_are_not_listed() {
    let listed = vec!["/d/a".to_string(), "/d/b".to_string()];
    assert!(path_is_stale("/d/x", "/d", &listed));
    assert!(path_is_stale("/d/x/y", "/d", &listed));
    assert!(path_is_stale("/d/ab", "/d", &listed));
    assert!(!path_is_stale("/d/a", "/d", &listed));
    assert!(!path_is_stale("/d//a/", "/d/", &listed));
    assert!(!path_is_stale("/d/a/y/z", "/d", &listed));
    assert!(!path_is_stale("/d", "/d", &listed));
    assert!(!path_is_stale("/e/x", "/d", &listed));
}

#[test]
fn only_paths_below_the_directory_save_an_entry() {
    let listed = vec!["/d".to_string(), "/".to_string()];
    assert!(path_is_stale("/d/x", "/d", &listed));
    assert!(!path_is_stale("/x", "", &listed));
    assert!(path_is_stale("x", "", &listed));
    assert!(path_is_stale("/x", "/", &[].to_vec()));
}
