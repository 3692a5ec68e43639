use event_port_watcher::cookie::path_to_cookie;
use event_port_watcher::event::{EventPortEventType, PendingEvent};
use event_port_watcher::event_loop::{EventLoop, StopReason};
use event_port_watcher::port::{
    pause_seconds, watched_events, Action, DirEntry, FileEvents, PortEvent, Reply, WatchedEvents,
};
use event_port_watcher::rescan::Rescan;
use event_port_watcher::walk::Walk;
use event_port_watcher::watchers::Watchers;
use std::collections::BTreeMap;

type Answer = Reply<u32, String>;

const ALL_BUT_ACCESSES: WatchedEvents =
    WatchedEvents { modified: true, attributes: true, truncated: true, accessed: false };

/// A file system: the directories with their entries, the files, and the paths that fail.
#[derive(Default)]
struct World {
    dirs: BTreeMap<String, Vec<String>>,
    unopened: Vec<String>,
    unassociated: Vec<String>,
    uninspected: Vec<String>,
    unlisted: Vec<String>,
    opened: u32,
    log: Vec<Action>,
    sent: Vec<PendingEvent>,
}

impl World {
    fn dir(mut self, path: &str, entries: &[&str]) -> World {
        self.dirs.insert(path.to_string(), entries.iter().map(|e| e.to_string()).collect());
        self
    }

    fn fails(list: &[String], path: &str) -> Result<(), String> {
        if list.iter().any(|p| p == path) {
            Err(path.to_string())
        } else {
            Ok(())
        }
    }

    fn answer(&mut self, action: Action) -> Answer {
        let reply = match &action {
            Action::Open(path) => {
                self.opened += 1;
                Reply::Opened(World::fails(&self.unopened, path).map(|_| self.opened))
            }
            Action::Associate(path, cookie, events) => {
                assert_eq!(*cookie, path_to_cookie(path));
                assert_eq!(*events, ALL_BUT_ACCESSES);
                Reply::Associated(World::fails(&self.unassociated, path))
            }
            Action::Inspect(path) => Reply::Inspected(
                World::fails(&self.uninspected, path).map(|_| self.dirs.contains_key(path)),
            ),
            Action::List(path) => {
                Reply::Listed(World::fails(&self.unlisted, path).map(|_| self.list(path)))
            }
            Action::Buffer(event) => {
                self.sent.push(event.clone());
                Reply::Buffered(Ok(()))
            }
            Action::Refresh(_)
            | Action::ReadEvent(_)
            | Action::Wait
            | Action::WaitAfterPause(_) => panic!("not asked here"),
        };
        self.log.push(action);
        reply
    }

    fn list(&self, path: &str) -> Vec<DirEntry> {
        self.dirs[path]
            .iter()
            .map(|name| match name.as_str() {
                "?" => DirEntry::Unreadable,
                "!" => DirEntry::NotUtf8,
                _ => DirEntry::Found(format!("{}/{}", path, name)),
            })
            .collect()
    }
}

fn walk(world: &mut World, table: &mut Watchers<u32>, path: &str) -> Result<(), String> {
    let mut walk = Walk::start(path);
    loop {
        let reply = world.answer(walk.action());
        if let Some(result) = walk.step(table, reply) {
            return result;
        }
    }
}

fn rescan(world: &mut World, table: &mut Watchers<u32>, dir: &str) -> Result<(), String> {
    let mut scan = Rescan::start(dir);
    loop {
        let reply = world.answer(scan.action());
        if let Some(result) = scan.step(table, reply) {
            return result;
        }
    }
}

fn paths(table: &Watchers<u32>) -> Vec<String> {
    (0..table.len()).map(|i| table.path_at(i).to_string()).collect()
}

fn event(path: &str, event_type: EventPortEventType, is_dir: bool) -> PendingEvent {
    PendingEvent { path: path.to_string(), event_type, is_dir }
}

fn project() -> World {
    World::default()
        .dir("/p", &["a", "?", "d", "!", "z"])
        .dir("/p/d", &["x", "e", "y"])
        .dir("/p/d/e", &["w"])
}

#[test]
fn a_walk_watches_the_tree_in_order() {
    let mut world = project();
    let mut table = Watchers::new();
    assert_eq!(walk(&mut world, &mut table, "/p"), Ok(()));
    assert_eq!(
        paths(&table),
        ["/p", "/p/a", "/p/d", "/p/d/x", "/p/d/e", "/p/d/e/w", "/p/d/y", "/p/z"]
    );
    assert_eq!(table.get("/p/d"), Some(&3));
    assert_eq!(
        world.log[..5],
        [
            Action::Open("/p".to_string()),
            Action::Associate("/p".to_string(), path_to_cookie("/p"), ALL_BUT_ACCESSES),
            Action::Inspect("/p".to_string()),
            Action::List("/p".to_string()),
            Action::Open("/p/a".to_string()),
        ]
    );
}

#[test]
fn every_path_is_watched_for_all_but_accesses() {
    assert_eq!(watched_events(), ALL_BUT_ACCESSES);
    assert_eq!(pause_seconds(), 1);
}

#[test]
fn forgetting_undoes_a_walk() {
    for failing in ["", "/p/d", "/p/d/e"] {
        let mut world = project();
        world.unassociated = vec![failing.to_string()];
        let mut table = Watchers::new();
        table.insert("/p", 100);
        table.insert("/p/dd", 101);
        let expected = if failing == "/p/d" { Err(failing.to_string()) } else { Ok(()) };
        assert_eq!(walk(&mut world, &mut table, "/p/d"), expected);
        assert!(table.len() > 2);
        for _ in 0..2 {
            table.remove_watcher_recursive("/p/d");
            assert_eq!(paths(&table), ["/p", "/p/dd"]);
            assert_eq!(table.get("/p/dd"), Some(&101));
            assert_eq!(table.find(path_to_cookie("/p")), Some("/p".to_string()));
            for gone in ["/p/d", "/p/d/x", "/p/d/e", "/p/d/e/w", "/p/d/y"] {
                assert_eq!(table.find(path_to_cookie(gone)), None);
            }
        }
    }
}

#[test]
fn a_walk_goes_on_behind_entries_that_fail() {
    let mut world = project();
    world.unopened = vec!["/p/a".to_string()];
    world.unassociated = vec!["/p/d/x".to_string()];
    world.uninspected = vec!["/p/z".to_string()];
    world.unlisted = vec!["/p/d/e".to_string()];
    let mut table = Watchers::new();
    assert_eq!(walk(&mut world, &mut table, "/p"), Ok(()));
    assert_eq!(paths(&table), ["/p", "/p/d", "/p/d/x", "/p/d/e", "/p/d/y", "/p/z"]);
}

#[test]
fn a_walk_fails_with_its_first_path() {
    let failing = Some("/p".to_string());
    let mut table = Watchers::new();
    let mut world = project();
    world.unopened.extend(failing.clone());
    assert_eq!(walk(&mut world, &mut table, "/p"), Err("/p".to_string()));
    assert!(table.is_empty());
    let mut world = project();
    world.unassociated.extend(failing.clone());
    assert_eq!(walk(&mut world, &mut table, "/p"), Err("/p".to_string()));
    assert_eq!(paths(&table), ["/p"]);
    let mut world = project();
    world.uninspected.extend(failing.clone());
    assert_eq!(walk(&mut world, &mut table, "/p"), Err("/p".to_string()));
    let mut world = project();
    world.unlisted.extend(failing);
    assert_eq!(walk(&mut world, &mut table, "/p"), Err("/p".to_string()));
    assert_eq!(paths(&table), ["/p"]);
}

#[test]
fn a_rescan_announces_what_came_and_what_went() {
    let mut world = project();
    let mut table = Watchers::new();
    assert_eq!(walk(&mut world, &mut table, "/p"), Ok(()));
    world = project()
        .dir("/p", &["new", "?", "a", "dir", "new"])
        .dir("/p/dir", &["in"]);
    assert_eq!(rescan(&mut world, &mut table, "/p"), Ok(()));
    assert_eq!(
        world.sent,
        [
            event("/p/new", EventPortEventType::Created, false),
            event("/p/dir", EventPortEventType::Created, true),
            event("/p/d", EventPortEventType::Deleted, true),
            event("/p/d/x", EventPortEventType::Deleted, false),
            event("/p/d/e", EventPortEventType::Deleted, true),
            event("/p/d/e/w", EventPortEventType::Deleted, false),
            event("/p/d/y", EventPortEventType::Deleted, false),
            event("/p/z", EventPortEventType::Deleted, false),
        ]
    );
    assert_eq!(paths(&table), ["/p", "/p/a", "/p/new", "/p/dir", "/p/dir/in"]);
}

#[test]
fn a_second_rescan_does_nothing() {
    let mut world = project();
    let mut table = Watchers::new();
    assert_eq!(walk(&mut world, &mut table, "/p"), Ok(()));
    world = project().dir("/p", &["new", "a", "dir"]).dir("/p/dir", &["in"]);
    assert_eq!(rescan(&mut world, &mut table, "/p"), Ok(()));
    assert_eq!(world.sent.len(), 8);
    let before = paths(&table);
    world.log.clear();
    assert_eq!(rescan(&mut world, &mut table, "/p"), Ok(()));
    assert_eq!(world.log, [Action::List("/p".to_string())]);
    assert_eq!(world.sent.len(), 8);
    assert_eq!(paths(&table), before);
}

#[test]
fn a_rescan_keeps_silent_about_entries_it_could_not_watch() {
    let mut world = World::default().dir("/p", &["a", "b", "c"]);
    world.unopened = vec!["/p/a".to_string()];
    world.uninspected = vec!["/p/b".to_string()];
    let mut table = Watchers::new();
    table.insert("/p", 0);
    assert_eq!(rescan(&mut world, &mut table, "/p"), Ok(()));
    assert_eq!(world.sent, [event("/p/c", EventPortEventType::Created, false)]);
    assert_eq!(paths(&table), ["/p", "/p/b", "/p/c"]);
}

#[test]
fn a_rescan_of_an_unchanged_directory_does_nothing() {
    let mut world = project();
    let mut table = Watchers::new();
    assert_eq!(walk(&mut world, &mut table, "/p"), Ok(()));
    world.log.clear();
    let before = paths(&table);
    assert_eq!(rescan(&mut world, &mut table, "/p"), Ok(()));
    assert_eq!(world.log, [Action::List("/p".to_string())]);
    assert_eq!(paths(&table), before);
}

#[test]
fn a_directory_that_cannot_be_listed_is_left() {
    let mut world = project();
    let mut table = Watchers::new();
    assert_eq!(walk(&mut world, &mut table, "/p"), Ok(()));
    world.unlisted = vec!["/p".to_string()];
    assert_eq!(rescan(&mut world, &mut table, "/p"), Err("/p".to_string()));
    assert_eq!(table.len(), 8);
}

/// A loop that has watched `/p`, `/p/f` and `/p/d/x`, and waits.
fn waiting() -> (EventLoop, Watchers<u32>) {
    let mut world = World::default().dir("/p", &["f", "d"]).dir("/p/d", &["x"]);
    let mut table = Watchers::new();
    let mut main = EventLoop::start("/p");
    while main.action() != Action::Wait {
        let reply = world.answer(main.action());
        assert_eq!(main.step(&mut table, reply), None);
    }
    assert_eq!(paths(&table), ["/p", "/p/f", "/p/d", "/p/d/x"]);
    (main, table)
}

fn received(path: &str) -> Answer {
    Reply::Received(Ok(PortEvent { is_file: true, cookie: path_to_cookie(path) }))
}

fn read(modified: bool, deleted: bool, renamed_from: bool) -> Answer {
    Reply::EventRead(Some(FileEvents { modified, deleted, renamed_from }))
}

/// Hands the replies in, and returns the action that the loop asks for then.
fn after(main: &mut EventLoop, table: &mut Watchers<u32>, replies: Vec<Answer>) -> Action {
    for reply in replies {
        assert_eq!(main.step(table, reply), None);
    }
    main.action()
}

#[test]
fn the_loop_stops_where_the_root_cannot_be_watched() {
    let mut table: Watchers<u32> = Watchers::new();
    let mut main = EventLoop::start("/p");
    let stop = main.step(&mut table, Reply::Opened(Err("no".to_string())));
    assert_eq!(stop, Some(StopReason::SetupFailed("no".to_string())));
}

#[test]
fn errors_of_the_port_are_waited_out() {
    let (mut main, mut table) = waiting();
    let wait = |main: &mut EventLoop, table: &mut Watchers<u32>, errno| {
        after(main, table, vec![Reply::Received(Err(errno))])
    };
    assert_eq!(wait(&mut main, &mut table, Some(libc::EINTR)), Action::Wait);
    assert_eq!(wait(&mut main, &mut table, Some(libc::EINVAL)), Action::WaitAfterPause(1));
    assert_eq!(wait(&mut main, &mut table, Some(4)), Action::Wait);
    assert_eq!(wait(&mut main, &mut table, None), Action::WaitAfterPause(1));
    assert_eq!(table.len(), 4);
}

#[test]
fn events_of_no_watched_file_are_passed_over_unread() {
    let (mut main, mut table) = waiting();
    for event in [
        PortEvent { is_file: false, cookie: path_to_cookie("/p/f") },
        PortEvent { is_file: true, cookie: path_to_cookie("/p/g") },
    ] {
        let next = after(&mut main, &mut table, vec![Reply::Received(Ok(event))]);
        assert_eq!(next, Action::Wait);
    }
}

#[test]
fn events_that_say_nothing_are_passed_over() {
    let (mut main, mut table) = waiting();
    let next = after(&mut main, &mut table, vec![received("/p/f")]);
    assert_eq!(next, Action::ReadEvent("/p/f".to_string()));
    let next = after(&mut main, &mut table, vec![Reply::EventRead(None)]);
    assert_eq!(next, Action::Wait);
    assert_eq!(table.len(), 4);
}

#[test]
fn a_modified_file_is_buffered() {
    let (mut main, mut table) = waiting();
    let next = after(&mut main, &mut table, vec![received("/p/f"), read(true, false, false)]);
    assert_eq!(next, Action::Inspect("/p/f".to_string()));
    let next = after(&mut main, &mut table, vec![Reply::Inspected(Ok(false))]);
    assert_eq!(next, Action::Refresh("/p/f".to_string()));
    let next = after(&mut main, &mut table, vec![Reply::Refreshed(Ok(()))]);
    let cookie = path_to_cookie("/p/f");
    assert_eq!(next, Action::Associate("/p/f".to_string(), cookie, ALL_BUT_ACCESSES));
    let next = after(&mut main, &mut table, vec![Reply::Associated(Err("no".to_string()))]);
    assert_eq!(next, Action::Buffer(event("/p/f", EventPortEventType::Modified, false)));
    let next = after(&mut main, &mut table, vec![Reply::Buffered(Ok(()))]);
    assert_eq!(next, Action::Wait);
    assert_eq!(table.len(), 4);
}

#[test]
fn a_deleted_directory_is_forgotten_and_buffered() {
    let (mut main, mut table) = waiting();
    let replies = vec![
        received("/p/d"),
        read(true, true, true),
        Reply::Inspected(Err("x".to_string())),
    ];
    let next = after(&mut main, &mut table, replies);
    assert_eq!(next, Action::Buffer(event("/p/d", EventPortEventType::Deleted, false)));
    assert_eq!(paths(&table), ["/p", "/p/f"]);
    let replies = vec![Reply::Buffered(Ok(())), received("/p/d/x")];
    assert_eq!(after(&mut main, &mut table, replies), Action::Wait);
}

#[test]
fn a_renamed_directory_is_forgotten_and_buffered() {
    let (mut main, mut table) = waiting();
    let replies = vec![received("/p/d"), read(false, false, true), Reply::Inspected(Ok(true))];
    let next = after(&mut main, &mut table, replies);
    assert_eq!(next, Action::Buffer(event("/p/d", EventPortEventType::Renamed, true)));
    assert_eq!(paths(&table), ["/p", "/p/f"]);
}

#[test]
fn a_path_that_cannot_be_refreshed_counts_as_deleted() {
    let (mut main, mut table) = waiting();
    let replies = vec![
        received("/p/d"),
        read(true, false, false),
        Reply::Inspected(Ok(true)),
        Reply::Refreshed(Err("gone".to_string())),
    ];
    let next = after(&mut main, &mut table, replies);
    assert_eq!(next, Action::Buffer(event("/p/d", EventPortEventType::Deleted, true)));
    assert_eq!(paths(&table), ["/p", "/p/f"]);
}

#[test]
fn a_modified_directory_is_rescanned() {
    let (mut main, mut table) = waiting();
    let replies = vec![
        received("/p/d"),
        read(true, false, false),
        Reply::Inspected(Ok(true)),
        Reply::Refreshed(Ok(())),
        Reply::Associated(Ok(())),
    ];
    assert_eq!(after(&mut main, &mut table, replies), Action::List("/p/d".to_string()));
    let listing = vec![DirEntry::Found("/p/d/n".to_string())];
    let next = after(&mut main, &mut table, vec![Reply::Listed(Ok(listing))]);
    assert_eq!(next, Action::Inspect("/p/d/n".to_string()));
    let replies = vec![
        Reply::Inspected(Ok(false)),
        Reply::Opened(Ok(9)),
        Reply::Associated(Ok(())),
        Reply::Inspected(Ok(false)),
    ];
    let next = after(&mut main, &mut table, replies);
    assert_eq!(next, Action::Buffer(event("/p/d/n", EventPortEventType::Created, false)));
    let next = after(&mut main, &mut table, vec![Reply::Buffered(Err("lost".to_string()))]);
    assert_eq!(next, Action::Buffer(event("/p/d/x", EventPortEventType::Deleted, false)));
    let next = after(&mut main, &mut table, vec![Reply::Buffered(Ok(()))]);
    assert_eq!(next, Action::Wait);
    assert_eq!(paths(&table), ["/p", "/p/f", "/p/d", "/p/d/n"]);
}

#[test]
fn other_changes_of_a_directory_are_not_buffered() {
    let (mut main, mut table) = waiting();
    let replies = vec![
        received("/p/d"),
        read(false, false, false),
        Reply::Inspected(Ok(true)),
        Reply::Refreshed(Ok(())),
        Reply::Associated(Ok(())),
    ];
    assert_eq!(after(&mut main, &mut table, replies), Action::Wait);
}

#[test]
fn a_failed_rescan_does_not_stop_the_loop() {
    let (mut main, mut table) = waiting();
    let replies = vec![
        received("/p/d"),
        read(true, false, false),
        Reply::Inspected(Ok(true)),
        Reply::Refreshed(Ok(())),
        Reply::Associated(Ok(())),
        Reply::Listed(Err("no".to_string())),
    ];
    assert_eq!(after(&mut main, &mut table, replies), Action::Wait);
    assert_eq!(table.len(), 4);
}

#[test]
fn the_loop_stops_where_the_buffer_is_lost() {
    let (mut main, mut table) = waiting();
    let replies = vec![received("/p/f"), read(false, true, false), Reply::Inspected(Ok(false))];
    after(&mut main, &mut table, replies);
    let stop = main.step(&mut table, Reply::Buffered(Err("poisoned".to_string())));
    assert_eq!(stop, Some(StopReason::BufferLost("poisoned".to_string())));
}
