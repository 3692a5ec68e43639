use event_port_watcher::event::{
    CellPath, EventPortEventType, FileChange, FileWatcherEventType, FileWatcherKind, StatsEntry,
};
use event_port_watcher::file_data::{EventPortFileData, Located, SyncReport, Verdict};
use event_port_watcher::shared_data::{Screening, SharedFileData};

const OUTPUT: &str = "buck-out";

fn cell(path: &str) -> CellPath {
    CellPath { cell: "root".to_string(), path: path.to_string() }
}

fn located(relative: &str, ignore_match: Option<bool>) -> Result<Located, String> {
    Ok(Located { relative: relative.to_string(), cell_path: cell(relative), ignore_match })
}

fn take(data: &mut EventPortFileData, relative: &str, event_type: EventPortEventType, is_dir: bool) {
    let path = format!("/project/{}", relative);
    let r = data.process(&path, event_type, is_dir, located(relative, None), OUTPUT);
    assert_eq!(r, Ok(()));
}

fn stat(path: &str, event: FileWatcherEventType, kind: FileWatcherKind) -> StatsEntry {
    StatsEntry { path: cell(path), event, kind }
}

#[test]
fn an_empty_buffer_reports_nothing() {
    let report = EventPortFileData::new().sync();
    assert_eq!(report, SyncReport { event_count: 0, ignored: 0, stats: vec![], changes: vec![] });
}

#[test]
fn every_kind_of_event_is_reported() {
    let mut data = EventPortFileData::new();
    take(&mut data, "a", EventPortEventType::Created, false);
    take(&mut data, "b", EventPortEventType::Created, true);
    take(&mut data, "c", EventPortEventType::Modified, false);
    take(&mut data, "d", EventPortEventType::Modified, true);
    take(&mut data, "e", EventPortEventType::Deleted, false);
    take(&mut data, "f", EventPortEventType::Deleted, true);
    take(&mut data, "g", EventPortEventType::Renamed, false);
    take(&mut data, "h", EventPortEventType::Renamed, true);
    let report = data.sync();
    assert_eq!(report.event_count, 8);
    assert_eq!(report.ignored, 0);
    assert_eq!(
        report.changes,
        vec![
            FileChange::FileAddedOrRemoved(cell("a")),
            FileChange::DirAddedOrRemoved(cell("b")),
            FileChange::FileContentsChanged(cell("c")),
            FileChange::FileAddedOrRemoved(cell("e")),
            FileChange::DirAddedOrRemoved(cell("f")),
            FileChange::FileAddedOrRemoved(cell("g")),
            FileChange::FileAddedOrRemoved(cell("g")),
            FileChange::DirAddedOrRemoved(cell("h")),
            FileChange::DirAddedOrRemoved(cell("h")),
        ]
    );
    assert_eq!(
        report.stats,
        vec![
            stat("a", FileWatcherEventType::Create, FileWatcherKind::File),
            stat("b", FileWatcherEventType::Create, FileWatcherKind::Directory),
            stat("c", FileWatcherEventType::Modify, FileWatcherKind::File),
            stat("d", FileWatcherEventType::Modify, FileWatcherKind::Directory),
            stat("e", FileWatcherEventType::Delete, FileWatcherKind::File),
            stat("f", FileWatcherEventType::Delete, FileWatcherKind::Directory),
            stat("g", FileWatcherEventType::Delete, FileWatcherKind::File),
            stat("g", FileWatcherEventType::Create, FileWatcherKind::File),
            stat("h", FileWatcherEventType::Delete, FileWatcherKind::Directory),
            stat("h", FileWatcherEventType::Create, FileWatcherKind::Directory),
        ]
    );
}

#[test]
fn an_event_is_kept_once_and_where_it_first_came() {
    let mut data = EventPortFileData::new();
    take(&mut data, "a", EventPortEventType::Modified, false);
    take(&mut data, "b", EventPortEventType::Modified, false);
    take(&mut data, "a", EventPortEventType::Modified, false);
    take(&mut data, "a", EventPortEventType::Deleted, false);
    take(&mut data, "a", EventPortEventType::Deleted, true);
    let report = data.sync();
    assert_eq!(report.event_count, 4);
    assert_eq!(
        report.changes,
        vec![
            FileChange::FileContentsChanged(cell("a")),
            FileChange::FileContentsChanged(cell("b")),
            FileChange::FileAddedOrRemoved(cell("a")),
            FileChange::DirAddedOrRemoved(cell("a")),
        ]
    );
}

#[test]
fn many_events_stay_in_order() {
    let mut data = EventPortFileData::new();
    for round in 0..2 {
        for i in 0..100 {
            take(&mut data, &format!("{}-{}", round, i), EventPortEventType::Created, false);
            take(&mut data, &format!("0-{}", i), EventPortEventType::Created, false);
        }
    }
    let report = data.sync();
    assert_eq!(report.event_count, 200);
    assert_eq!(report.changes[150], FileChange::FileAddedOrRemoved(cell("1-50")));
}

#[test]
fn cells_tell_equal_paths_apart() {
    let mut data = EventPortFileData::new();
    for name in ["one", "two", "one"] {
        let place: Result<Located, ()> = Ok(Located {
            relative: "x/a".to_string(),
            cell_path: CellPath { cell: name.to_string(), path: "a".to_string() },
            ignore_match: Some(false),
        });
        assert!(data
            .process("/project/x/a", EventPortEventType::Modified, false, place, OUTPUT)
            .is_ok());
    }
    assert_eq!(data.sync().event_count, 2);
}

#[test]
fn output_is_passed_over_silently() {
    let mut data = EventPortFileData::new();
    take(&mut data, "buck-out", EventPortEventType::Modified, true);
    take(&mut data, "buck-out/v2/x.tmp", EventPortEventType::Created, false);
    let r = data.process(
        "/project/buck-out/y",
        EventPortEventType::Created,
        false,
        located("buck-out/y", Some(true)),
        OUTPUT,
    );
    assert_eq!(r, Ok(()));
    assert_eq!(data.ignored(), 0);
    take(&mut data, "buck-outer/z", EventPortEventType::Created, false);
    let report = data.sync();
    assert_eq!(report.event_count, 1);
    assert_eq!(report.ignored, 0);
}

#[test]
fn temporary_files_and_ignored_paths_are_counted() {
    let mut data = EventPortFileData::new();
    take(&mut data, "src/x.tmp", EventPortEventType::Created, false);
    take(&mut data, "src/.#x", EventPortEventType::Created, false);
    assert_eq!(data.ignored(), 2);
    for ignore_match in [Some(true), Some(false), None] {
        let r = data.process(
            "/project/src/y",
            EventPortEventType::Created,
            false,
            located("src/y", ignore_match),
            OUTPUT,
        );
        assert_eq!(r, Ok(()));
    }
    assert_eq!(data.ignored(), 3);
    // Only the last component decides, and a path that ends in `..` has no name.
    take(&mut data, "x.tmp/keep", EventPortEventType::Created, false);
    take(&mut data, "x.tmp/..", EventPortEventType::Created, true);
    take(&mut data, "x.tmp/.", EventPortEventType::Created, true);
    let report = data.sync();
    assert_eq!(report.ignored, 4);
    assert_eq!(report.event_count, 3);
}

#[test]
fn a_path_that_cannot_be_located_is_an_error() {
    let mut data = EventPortFileData::new();
    take(&mut data, "a", EventPortEventType::Created, false);
    let place: Result<Located, String> = Err("not in the project".to_string());
    let r = data.process("/elsewhere/x.tmp", EventPortEventType::Created, false, place, OUTPUT);
    assert_eq!(r, Err("not in the project".to_string()));
    let report = data.sync();
    assert_eq!(report.event_count, 1);
    assert_eq!(report.ignored, 0);
}

#[test]
fn a_synchronisation_starts_a_new_buffer() {
    let mut shared: SharedFileData<String> = SharedFileData::new();
    assert!(!shared.is_broken());
    shared.record("/project/a", EventPortEventType::Created, false, located("a", None), OUTPUT);
    shared.record("/project/b~", EventPortEventType::Created, false, located("b~", None), OUTPUT);
    let report = shared.sync2().unwrap();
    assert_eq!(report.event_count, 1);
    assert_eq!(report.ignored, 1);
    let report = shared.sync2().unwrap();
    assert_eq!(report.event_count, 0);
    assert_eq!(report.ignored, 0);
}

#[test]
fn an_error_stays_until_the_next_synchronisation() {
    let mut shared: SharedFileData<String> = SharedFileData::new();
    shared.record("/project/a", EventPortEventType::Created, false, located("a", None), OUTPUT);
    shared.record("/x", EventPortEventType::Created, false, Err("first".to_string()), OUTPUT);
    shared.record("/project/b", EventPortEventType::Created, false, located("b", None), OUTPUT);
    shared.record("/y", EventPortEventType::Created, false, Err("second".to_string()), OUTPUT);
    assert!(shared.is_broken());
    assert_eq!(shared.sync2(), Err("first".to_string()));
    shared.record("/project/c", EventPortEventType::Deleted, true, located("c", None), OUTPUT);
    let report = shared.sync2().unwrap();
    assert_eq!(report.changes, vec![FileChange::DirAddedOrRemoved(cell("c"))]);
}

#[test]
fn an_event_is_screened_before_its_cell_is_known() {
    let mut shared: SharedFileData<String> = SharedFileData::new();
    for (path, relative, expected) in [
        ("/project/buck-out/x.tmp", "buck-out/x.tmp", Screening::Settled(Verdict::Output)),
        ("/project/x.tmp", "x.tmp", Screening::Settled(Verdict::Temporary)),
        ("/project/x", "x", Screening::CellDecides),
    ] {
        assert!(shared.can_screen(path, relative, OUTPUT));
        assert_eq!(shared.screen(path, relative, OUTPUT), expected);
    }
    assert!(shared.can_take(Some(true)));
    let created = EventPortEventType::Created;
    assert_eq!(shared.take(cell("x"), created, false, Some(true)), Some(Verdict::Ignored));
    assert_eq!(shared.take(cell("x"), created, false, Some(false)), Some(Verdict::Buffered));
    assert_eq!(shared.take(cell("y"), created, true, None), Some(Verdict::Buffered));
    let report = shared.sync2().unwrap();
    assert_eq!(report.ignored, 2);
    assert_eq!(
        report.changes,
        vec![
            FileChange::FileAddedOrRemoved(cell("x")),
            FileChange::DirAddedOrRemoved(cell("y")),
        ]
    );
}

#[test]
fn a_broken_buffer_takes_nothing() {
    let mut shared: SharedFileData<String> = SharedFileData::new();
    shared.fail("first".to_string());
    shared.fail("second".to_string());
    assert!(shared.is_broken());
    assert!(shared.can_screen("/project/x.tmp", "x.tmp", OUTPUT));
    assert!(shared.can_take(Some(true)));
    assert_eq!(shared.screen("/project/x.tmp", "x.tmp", OUTPUT), Screening::Broken);
    assert_eq!(shared.take(cell("x"), EventPortEventType::Created, false, None), None);
    assert_eq!(shared.sync2(), Err("first".to_string()));
    assert!(!shared.is_broken());
}

#[test]
fn two_steps_record_an_event_as_one_does() {
    let cases = [("buck-out/a", None), ("b~", None), ("c", Some(true)), ("d", Some(false))];
    let mut whole: SharedFileData<String> = SharedFileData::new();
    let mut steps: SharedFileData<String> = SharedFileData::new();
    for (relative, ignore_match) in cases {
        let path = format!("/project/{}", relative);
        let place = located(relative, ignore_match);
        whole.record(&path, EventPortEventType::Modified, false, place, OUTPUT);
        if steps.screen(&path, relative, OUTPUT) == Screening::CellDecides {
            steps.take(cell(relative), EventPortEventType::Modified, false, ignore_match);
        }
    }
    let report = whole.sync2();
    assert_eq!(report, steps.sync2());
    assert_eq!(report.unwrap().ignored, 2);
}
