//! The buffer of events between two synchronisations.
use crate::event::{
    BufferedEvent, CellPath, CellPathView, EventPortEventType, FileChange, FileChangeView,
    FileWatcherEventType, FileWatcherKind, StatsEntry, StatsEntryView,
};
use crate::path::{file_name_of, path_file_name, path_starts_with, starts_with};
use crate::temporary::{is_temporary, is_temporary_name};
use starlark_map::ordered_set::OrderedSet;
use vstd::prelude::*;

verus! {

/// Declares `starlark_map::ordered_set::OrderedSet`.
#[verifier::external_type_specification]
#[verifier::external_body]
#[verifier::reject_recursive_types(T)]
pub struct ExOrderedSet<T>(OrderedSet<T>);

/// What an ordered set of events holds, in the order in which it was inserted: the cell, the path
/// within the cell, the code of the event's type, and whether the path is a directory.
pub uninterp spec fn set_items(set: OrderedSet<(String, String, u8, bool)>) -> Seq<(Seq<char>, Seq<char>, u8, bool)>;

/// The plain values of one item of the set.
pub open spec fn item_view(item: (String, String, u8, bool)) -> (Seq<char>, Seq<char>, u8, bool) {
    (item.0@, item.1@, item.2, item.3)
}

/// Calls `OrderedSet::new`, which gives an empty set.
#[verifier::external_body]
fn set_new() -> (set: OrderedSet<(String, String, u8, bool)>)
    ensures
        set_items(set) == Seq::<(Seq<char>, Seq<char>, u8, bool)>::empty(),
{
    OrderedSet::new()
}

/// Calls `OrderedSet::len`, which gives the number of items.
#[verifier::external_body]
fn set_len(set: &OrderedSet<(String, String, u8, bool)>) -> (r: usize)
    ensures
        r == set_items(*set).len(),
{
    set.len()
}

/// Calls `OrderedSet::insert`, which puts an item that the set does not hold behind all others and
/// returns true, and for one that it holds leaves the set as it is and returns false.
#[verifier::external_body]
fn set_insert(set: &mut OrderedSet<(String, String, u8, bool)>, item: (String, String, u8, bool)) -> (r: bool)
    ensures
        r == !set_items(*old(set)).contains(item_view(item)),
        set_items(*final(set)) == (if r {
            set_items(*old(set)).push(item_view(item))
        } else {
            set_items(*old(set))
        }),
{
    set.insert(item)
}

/// Calls `OrderedSet::into_iter`, and collects the items, which come in the order of insertion.
#[verifier::external_body]
fn set_into_vec(set: OrderedSet<(String, String, u8, bool)>) -> (r: Vec<(String, String, u8, bool)>)
    ensures
        r@.len() == set_items(set).len(),
        forall|i: int| 0 <= i < r@.len() ==> item_view(#[trigger] r@[i]) == set_items(set)[i],
{
    set.into_iter().collect()
}

/// The code under which the set keeps a type of event.
pub open spec fn code_of(event_type: EventPortEventType) -> u8 {
    match event_type {
        EventPortEventType::Created => 0,
        EventPortEventType::Modified => 1,
        EventPortEventType::Deleted => 2,
        EventPortEventType::Renamed => 3,
    }
}

/// The type of event that a code stands for.
pub open spec fn type_of(code: u8) -> EventPortEventType {
    if code == 0 {
        EventPortEventType::Created
    } else if code == 1 {
        EventPortEventType::Modified
    } else if code == 2 {
        EventPortEventType::Deleted
    } else {
        EventPortEventType::Renamed
    }
}

fn encode(event_type: EventPortEventType) -> (r: u8)
    ensures
        r == code_of(event_type),
{
    match event_type {
        EventPortEventType::Created => 0,
        EventPortEventType::Modified => 1,
        EventPortEventType::Deleted => 2,
        EventPortEventType::Renamed => 3,
    }
}

fn decode(code: u8) -> (r: EventPortEventType)
    ensures
        r == type_of(code),
{
    if code == 0 {
        EventPortEventType::Created
    } else if code == 1 {
        EventPortEventType::Modified
    } else if code == 2 {
        EventPortEventType::Deleted
    } else {
        EventPortEventType::Renamed
    }
}

/// The event that an item of the set stands for.
pub open spec fn event_of(item: (Seq<char>, Seq<char>, u8, bool)) -> BufferedEvent {
    BufferedEvent {
        path: CellPathView { cell: item.0, path: item.1 },
        event_type: type_of(item.2),
        is_dir: item.3,
    }
}

/// The item of the set that stands for an event.
pub open spec fn item_of(event: BufferedEvent) -> (Seq<char>, Seq<char>, u8, bool) {
    (event.path.cell, event.path.path, code_of(event.event_type), event.is_dir)
}

/// Where a path stands in the project.
#[derive(Debug, PartialEq, Eq, Hash)]
pub struct Located {
    /// The path relative to the project's root.
    pub relative: String,
    /// The path within its cell.
    pub cell_path: CellPath,
    /// Whether the ignore rules of the cell match the path; nothing where the cell has no rules.
    pub ignore_match: Option<bool>,
}

/// What becomes of an event on its way into the buffer.
#[derive(Debug, Clone, Copy, PartialEq, Eq, Structural)]
pub enum Verdict {
    /// The path lies in the output directory: nothing is recorded.
    Output,
    /// The path is that of a temporary file: it is counted as ignored.
    Temporary,
    /// The ignore rules of its cell match the path: it is counted as ignored.
    Ignored,
    /// The event is buffered.
    Buffered,
}

/// The verdict on an event for `path` that needs no knowledge of the path's cell, if there is one.
/// The output directory goes first, then the file name.
pub open spec fn early_verdict(
    path: Seq<char>,
    relative: Seq<char>,
    output_dir: Seq<char>,
) -> Option<Verdict> {
    if starts_with(relative, output_dir) {
        Some(Verdict::Output)
    } else if file_name_of(path) matches Some(name) && is_temporary(name) {
        Some(Verdict::Temporary)
    } else {
        None
    }
}

/// The verdict by the ignore rules of the path's cell.
pub open spec fn cell_verdict(ignore_match: Option<bool>) -> Verdict {
    if ignore_match == Some(true) {
        Verdict::Ignored
    } else {
        Verdict::Buffered
    }
}

/// The verdict on an event for `path`. The output directory goes first, then the file name, then
/// the ignore rules.
pub open spec fn verdict(
    path: Seq<char>,
    relative: Seq<char>,
    ignore_match: Option<bool>,
    output_dir: Seq<char>,
) -> Verdict {
    match early_verdict(path, relative, output_dir) {
        Some(verdict) => verdict,
        None => cell_verdict(ignore_match),
    }
}

/// Whether an event on which this is the verdict is counted as ignored.
pub open spec fn counts_as_ignored(verdict: Verdict) -> bool {
    verdict is Temporary || verdict is Ignored
}

/// The verdict on an event that needs no knowledge of the path's cell, if there is one.
pub(crate) fn verdict_before_cell(path: &str, relative: &str, output_dir: &str) -> (r: Option<
    Verdict,
>)
    ensures
        r == early_verdict(path@, relative@, output_dir@),
{
    // What a build writes is no news.
    if path_starts_with(relative, output_dir) {
        return Some(Verdict::Output);
    }
    if let Some(name) = path_file_name(path) {
        if is_temporary_name(name) {
            return Some(Verdict::Temporary);
        }
    }
    None
}

/// The mathematical model of an [`EventPortFileData`]: how many events were ignored, and those
/// that were not, each once, in the order in which they first came.
pub struct FileDataView {
    pub ignored: u64,
    pub events: Seq<BufferedEvent>,
}

impl FileDataView {
    /// The buffer with one more event, unless it is there already.
    pub open spec fn with_event(self, event: BufferedEvent) -> FileDataView {
        if self.events.contains(event) {
            self
        } else {
            FileDataView { ignored: self.ignored, events: self.events.push(event) }
        }
    }

    /// The buffer with one more event counted as ignored.
    pub open spec fn counted(self) -> FileDataView {
        FileDataView { ignored: (self.ignored + 1) as u64, events: self.events }
    }

    /// The buffer after one event on which the verdict is `verdict`.
    pub open spec fn after(self, verdict: Verdict, event: BufferedEvent) -> FileDataView {
        match verdict {
            Verdict::Output => self,
            Verdict::Temporary | Verdict::Ignored => self.counted(),
            Verdict::Buffered => self.with_event(event),
        }
    }

    /// The buffer after an event was looked at without knowledge of its cell.
    pub open spec fn screened(self, early: Option<Verdict>) -> FileDataView {
        if early == Some(Verdict::Temporary) {
            self.counted()
        } else {
            self
        }
    }
}

/// The changes that one event makes known.
pub open spec fn changes_of(event: BufferedEvent) -> Seq<FileChangeView> {
    let added_or_removed = if event.is_dir {
        FileChangeView::DirAddedOrRemoved(event.path)
    } else {
        FileChangeView::FileAddedOrRemoved(event.path)
    };
    match event.event_type {
        EventPortEventType::Created | EventPortEventType::Deleted => seq![added_or_removed],
        EventPortEventType::Renamed => seq![added_or_removed, added_or_removed],
        EventPortEventType::Modified => if event.is_dir {
            Seq::empty()
        } else {
            seq![FileChangeView::FileContentsChanged(event.path)]
        },
    }
}

/// The lines that one event adds to the statistics.
pub open spec fn stats_of(event: BufferedEvent) -> Seq<StatsEntryView> {
    let kind = if event.is_dir {
        FileWatcherKind::Directory
    } else {
        FileWatcherKind::File
    };
    let line = |e: FileWatcherEventType| StatsEntryView { path: event.path, event: e, kind };
    match event.event_type {
        EventPortEventType::Created => seq![line(FileWatcherEventType::Create)],
        EventPortEventType::Modified => seq![line(FileWatcherEventType::Modify)],
        EventPortEventType::Deleted => seq![line(FileWatcherEventType::Delete)],
        EventPortEventType::Renamed => seq![
            line(FileWatcherEventType::Delete),
            line(FileWatcherEventType::Create),
        ],
    }
}

/// The changes that a sequence of events makes known, in order.
pub open spec fn all_changes(events: Seq<BufferedEvent>) -> Seq<FileChangeView>
    decreases events.len(),
{
    if events.len() == 0 {
        Seq::empty()
    } else {
        all_changes(events.drop_last()) + changes_of(events.last())
    }
}

/// The lines that a sequence of events adds to the statistics, in order.
pub open spec fn all_stats(events: Seq<BufferedEvent>) -> Seq<StatsEntryView>
    decreases events.len(),
{
    if events.len() == 0 {
        Seq::empty()
    } else {
        all_stats(events.drop_last()) + stats_of(events.last())
    }
}

/// What a synchronisation hands out.
#[derive(Debug, PartialEq, Eq, Hash)]
pub struct SyncReport {
    /// How many events were buffered.
    pub event_count: usize,
    /// How many events were ignored.
    pub ignored: u64,
    /// The lines of the statistics.
    pub stats: Vec<StatsEntry>,
    /// The changes to make known.
    pub changes: Vec<FileChange>,
}

impl SyncReport {
    /// The lines of the statistics, as plain values.
    pub open spec fn stats_view(&self) -> Seq<StatsEntryView> {
        self.stats@.map_values(|s: StatsEntry| s@)
    }

    /// The changes, as plain values.
    pub open spec fn changes_view(&self) -> Seq<FileChangeView> {
        self.changes@.map_values(|c: FileChange| c@)
    }

    /// Whether this is the report on the buffer `data`.
    pub open spec fn reports(&self, data: FileDataView) -> bool {
        &&& self.event_count == data.events.len()
        &&& self.ignored == data.ignored
        &&& self.stats_view() == all_stats(data.events)
        &&& self.changes_view() == all_changes(data.events)
    }

    /// Adds a line to the statistics.
    fn add(&mut self, path: CellPath, event: FileWatcherEventType, kind: FileWatcherKind)
        ensures
            final(self).stats_view() == old(self).stats_view().push(
                StatsEntryView { path: path@, event, kind },
            ),
            final(self).changes == old(self).changes,
            final(self).event_count == old(self).event_count,
            final(self).ignored == old(self).ignored,
    {
        self.stats.push(StatsEntry { path, event, kind });
        assert(self.stats_view() =~= old(self).stats_view().push(
            StatsEntryView { path: path@, event, kind },
        ));
    }

    /// Adds a change.
    fn change(&mut self, change: FileChange)
        ensures
            final(self).changes_view() == old(self).changes_view().push(change@),
            final(self).stats == old(self).stats,
            final(self).event_count == old(self).event_count,
            final(self).ignored == old(self).ignored,
    {
        self.changes.push(change);
        assert(self.changes_view() =~= old(self).changes_view().push(change@));
    }

    /// Adds what one event says.
    fn report_event(&mut self, path: CellPath, event_type: EventPortEventType, is_dir: bool)
        ensures
            final(self).stats_view() == old(self).stats_view() + stats_of(
                (BufferedEvent { path: path@, event_type, is_dir }),
            ),
            final(self).changes_view() == old(self).changes_view() + changes_of(
                (BufferedEvent { path: path@, event_type, is_dir }),
            ),
            final(self).event_count == old(self).event_count,
            final(self).ignored == old(self).ignored,
    {
        match event_type {
            EventPortEventType::Created => {
                if is_dir {
                    self.change(FileChange::DirAddedOrRemoved(path.clone()));
                    self.add(path, FileWatcherEventType::Create, FileWatcherKind::Directory);
                } else {
                    self.change(FileChange::FileAddedOrRemoved(path.clone()));
                    self.add(path, FileWatcherEventType::Create, FileWatcherKind::File);
                }
            },
            EventPortEventType::Modified => {
                if is_dir {
                    // What changed within the directory is known by the events for its entries,
                    // so the directory itself appears in the statistics only.
                    self.add(path, FileWatcherEventType::Modify, FileWatcherKind::Directory);
                } else {
                    self.change(FileChange::FileContentsChanged(path.clone()));
                    self.add(path, FileWatcherEventType::Modify, FileWatcherKind::File);
                }
            },
            EventPortEventType::Deleted => {
                if is_dir {
                    self.change(FileChange::DirAddedOrRemoved(path.clone()));
                    self.add(path, FileWatcherEventType::Delete, FileWatcherKind::Directory);
                } else {
                    self.change(FileChange::FileAddedOrRemoved(path.clone()));
                    self.add(path, FileWatcherEventType::Delete, FileWatcherKind::File);
                }
            },
            EventPortEventType::Renamed => {
                // A rename is a deletion and a creation.
                if is_dir {
                    self.change(FileChange::DirAddedOrRemoved(path.clone()));
                    self.add(path.clone(), FileWatcherEventType::Delete, FileWatcherKind::Directory);
                    self.change(FileChange::DirAddedOrRemoved(path.clone()));
                    self.add(path, FileWatcherEventType::Create, FileWatcherKind::Directory);
                } else {
                    self.change(FileChange::FileAddedOrRemoved(path.clone()));
                    self.add(path.clone(), FileWatcherEventType::Delete, FileWatcherKind::File);
                    self.change(FileChange::FileAddedOrRemoved(path.clone()));
                    self.add(path, FileWatcherEventType::Create, FileWatcherKind::File);
                }
            },
        }
    }
}

/// The events since the last synchronisation. A port can send several events for one file: the
/// buffer keeps each event once.
pub struct EventPortFileData {
    ignored: u64,
    events: OrderedSet<(String, String, u8, bool)>,
}

impl View for EventPortFileData {
    type V = FileDataView;

    closed spec fn view(&self) -> FileDataView {
        FileDataView {
            ignored: self.ignored,
            events: set_items(self.events).map_values(|item| event_of(item)),
        }
    }
}

impl EventPortFileData {
    /// Every item stands for an event, and no event is there twice.
    pub closed spec fn wf(&self) -> bool {
        &&& forall|i: int|
            0 <= i < set_items(self.events).len() ==> (#[trigger] set_items(self.events)[i]).2 < 4
        &&& set_items(self.events).no_duplicates()
    }

    /// An empty buffer.
    pub fn new() -> (r: EventPortFileData)
        ensures
            r.wf(),
            r@ == (FileDataView { ignored: 0, events: Seq::empty() }),
    {
        let r = EventPortFileData { ignored: 0, events: set_new() };
        assert(r@.events =~= Seq::empty());
        r
    }

    /// How many events were ignored.
    pub fn ignored(&self) -> (r: u64)
        ensures
            r == self@.ignored,
    {
        self.ignored
    }

    /// In a well-formed buffer an event is there if and only if its item is.
    proof fn lemma_contains(&self, event: BufferedEvent)
        requires
            self.wf(),
        ensures
            self@.events.contains(event) <==> set_items(self.events).contains(item_of(event)),
    {
        let items = set_items(self.events);
        if self@.events.contains(event) {
            let i = choose|i: int| 0 <= i < self@.events.len() && self@.events[i] == event;
            assert(event_of(items[i]) == event);
            assert(items[i].2 < 4);
            assert(items[i] == item_of(event));
        }
        if items.contains(item_of(event)) {
            let i = choose|i: int| 0 <= i < items.len() && items[i] == item_of(event);
            assert(self@.events[i] == event_of(items[i]));
            assert(event_of(item_of(event)) == event);
        }
    }

    /// Looks at an event for the absolute path `path`, which is `relative` to the project's root,
    /// without knowledge of its cell. Returns the verdict; where there is none yet, the event is
    /// still to be [taken](EventPortFileData::take).
    pub fn screen(&mut self, path: &str, relative: &str, output_dir: &str) -> (r: Option<Verdict>)
        requires
            old(self).wf(),
            early_verdict(path@, relative@, output_dir@) == Some(Verdict::Temporary) ==> old(
                self,
            )@.ignored < u64::MAX,
        ensures
            final(self).wf(),
            r == early_verdict(path@, relative@, output_dir@),
            final(self)@ == old(self)@.screened(r),
    {
        let early = verdict_before_cell(path, relative, output_dir);
        if let Some(Verdict::Temporary) = early {
            self.ignored = self.ignored + 1;
        }
        early
    }

    /// Takes an event on which there was no verdict yet. `cell_path` is the path within its cell,
    /// and `ignore_match` says whether the ignore rules of the cell match it.
    pub fn take(
        &mut self,
        cell_path: CellPath,
        event_type: EventPortEventType,
        is_dir: bool,
        ignore_match: Option<bool>,
    ) -> (r: Verdict)
        requires
            old(self).wf(),
            cell_verdict(ignore_match) is Ignored ==> old(self)@.ignored < u64::MAX,
        ensures
            final(self).wf(),
            r == cell_verdict(ignore_match),
            final(self)@ == old(self)@.after(
                r,
                BufferedEvent { path: cell_path@, event_type, is_dir },
            ),
    {
        let ignore = match ignore_match {
            Some(matched) => matched,
            None => false,
        };
        if ignore {
            self.ignored = self.ignored + 1;
            Verdict::Ignored
        } else {
            let ghost event = BufferedEvent { path: cell_path@, event_type, is_dir };
            proof {
                self.lemma_contains(event);
            }
            set_insert(
                &mut self.events,
                (cell_path.cell, cell_path.path, encode(event_type), is_dir),
            );
            assert(event_of(item_of(event)) == event);
            assert(self@.events =~= old(self)@.with_event(event).events);
            Verdict::Buffered
        }
    }

    /// Takes one event for the absolute path `path` into the buffer. `located` says where the path
    /// stands in the project, or why that cannot be said; `output_dir` is the directory, relative
    /// to the project's root, that holds what a build writes.
    pub fn process<E>(
        &mut self,
        path: &str,
        event_type: EventPortEventType,
        is_dir: bool,
        located: Result<Located, E>,
        output_dir: &str,
    ) -> (r: Result<(), E>)
        requires
            old(self).wf(),
            located matches Ok(l) ==> (counts_as_ignored(
                verdict(path@, l.relative@, l.ignore_match, output_dir@),
            ) ==> old(self)@.ignored < u64::MAX),
        ensures
            final(self).wf(),
            match located {
                Ok(l) => r == Ok::<(), E>(()) && final(self)@ == old(self)@.after(
                    verdict(path@, l.relative@, l.ignore_match, output_dir@),
                    BufferedEvent { path: l.cell_path@, event_type, is_dir },
                ),
                Err(e) => r == Err::<(), E>(e) && final(self)@ == old(self)@,
            },
    {
        let located = match located {
            Ok(l) => l,
            Err(e) => {
                return Err(e);
            },
        };
        if self.screen(path, located.relative.as_str(), output_dir).is_none() {
            self.take(located.cell_path, event_type, is_dir, located.ignore_match);
        }
        Ok(())
    }

    /// Hands out what the buffer holds.
    pub fn sync(self) -> (r: SyncReport)
        requires
            self.wf(),
        ensures
            r.reports(self@),
    {
        let mut report = SyncReport {
            event_count: set_len(&self.events),
            ignored: self.ignored,
            stats: Vec::new(),
            changes: Vec::new(),
        };
        let ghost events = self@.events;
        let items = set_into_vec(self.events);
        let n: usize = items.len();
        let mut i: usize = 0;
        assert(report.stats_view() =~= all_stats(events.take(0)));
        assert(report.changes_view() =~= all_changes(events.take(0)));
        while i < n
            invariant
                n == items@.len(),
                n == events.len(),
                i <= n,
                forall|j: int| 0 <= j < n ==> event_of(item_view(#[trigger] items@[j])) == events[j],
                report.event_count == events.len(),
                report.ignored == self@.ignored,
                report.stats_view() == all_stats(events.take(i as int)),
                report.changes_view() == all_changes(events.take(i as int)),
            decreases n - i,
        {
            let item = &items[i];
            report.report_event(
                CellPath { cell: item.0.clone(), path: item.1.clone() },
                decode(item.2),
                item.3,
            );
            proof {
                let next = events.take(i + 1);
                assert(next.drop_last() == events.take(i as int));
                assert(next.last() == event_of(item_view(items@[i as int])));
            }
            i += 1;
        }
        assert(events.take(n as int) == events);
        report
    }
}

/// A buffer holds each event once.
pub proof fn law_each_event_once(data: EventPortFileData)
    requires
        data.wf(),
    ensures
        data@.events.no_duplicates(),
{
    let items = set_items(data.events);
    assert forall|i: int, j: int| 0 <= i < items.len() && 0 <= j < items.len() && i != j implies
        data@.events[i] != data@.events[j] by {
        assert(items[i] == item_of(event_of(items[i])));
        assert(items[j] == item_of(event_of(items[j])));
    }
}

/// An event that comes again changes nothing that its first coming did not.
pub proof fn law_repeated_event(data: FileDataView, event: BufferedEvent)
    ensures
        data.after(Verdict::Buffered, event).after(Verdict::Buffered, event) == data.after(
            Verdict::Buffered,
            event,
        ),
        data.after(Verdict::Buffered, event).events.contains(event),
{
    let once = data.with_event(event);
    if !data.events.contains(event) {
        assert(once.events[data.events.len() as int] == event);
    }
}

/// What is buffered stays, in its place, whatever comes after it.
pub proof fn law_buffered_events_stay(data: FileDataView, verdict: Verdict, event: BufferedEvent)
    ensures
        data.events.is_prefix_of(data.after(verdict, event).events),
        data.after(verdict, event).events.len() <= data.events.len() + 1,
{
}

/// An event counts once at most: as ignored or as buffered, never as both.
pub proof fn law_ignored_or_buffered(data: FileDataView, verdict: Verdict, event: BufferedEvent)
    ensures
        counts_as_ignored(verdict) ==> data.after(verdict, event).events == data.events,
        counts_as_ignored(verdict) && data.ignored < u64::MAX ==> data.after(verdict, event).ignored
            == data.ignored + 1,
        verdict is Buffered ==> data.after(verdict, event).ignored == data.ignored,
        verdict is Output ==> data.after(verdict, event) == data,
{
}

/// A rename says what a deletion and then a creation of the same path say.
pub proof fn law_rename_is_delete_and_create(path: CellPathView, is_dir: bool)
    ensures
        ({
            let event = |event_type| BufferedEvent { path, event_type, is_dir };
            &&& changes_of(event(EventPortEventType::Renamed)) == changes_of(
                event(EventPortEventType::Deleted),
            ) + changes_of(event(EventPortEventType::Created))
            &&& stats_of(event(EventPortEventType::Renamed)) == stats_of(
                event(EventPortEventType::Deleted),
            ) + stats_of(event(EventPortEventType::Created))
        }),
{
}

/// A report leaves out no event: each has its lines in the statistics, and each but the
/// modification of a directory has its changes.
pub proof fn law_every_event_is_reported(events: Seq<BufferedEvent>, i: int)
    requires
        0 <= i < events.len(),
    ensures
        forall|k: int|
            0 <= k < stats_of(events[i]).len() ==> all_stats(events).contains(
                #[trigger] stats_of(events[i])[k],
            ),
        forall|k: int|
            0 <= k < changes_of(events[i]).len() ==> all_changes(events).contains(
                #[trigger] changes_of(events[i])[k],
            ),
        stats_of(events[i]).len() > 0,
        changes_of(events[i]).len() == 0 <==> events[i].event_type is Modified && events[i].is_dir,
    decreases events.len(),
{
    let last = events.len() - 1;
    let before = events.drop_last();
    if i < last {
        law_every_event_is_reported(before, i);
        assert(before[i] == events[i]);
    }
    assert forall|k: int| 0 <= k < stats_of(events[i]).len() implies all_stats(events).contains(
        #[trigger] stats_of(events[i])[k],
    ) by {
        if i < last {
            let j = all_stats(before).index_of(stats_of(events[i])[k]);
            assert(all_stats(events)[j] == stats_of(events[i])[k]);
        } else {
            assert(all_stats(events)[all_stats(before).len() + k] == stats_of(events[i])[k]);
        }
    }
    assert forall|k: int| 0 <= k < changes_of(events[i]).len() implies all_changes(events).contains(
        #[trigger] changes_of(events[i])[k],
    ) by {
        if i < last {
            let j = all_changes(before).index_of(changes_of(events[i])[k]);
            assert(all_changes(events)[j] == changes_of(events[i])[k]);
        } else {
            assert(all_changes(events)[all_changes(before).len() + k] == changes_of(events[i])[k]);
        }
    }
}

/// A report invents nothing: each line and each change comes from an event of the buffer.
pub proof fn law_only_events_are_reported(events: Seq<BufferedEvent>)
    ensures
        forall|k: int|
            0 <= k < all_stats(events).len() ==> exists|i: int|
                0 <= i < events.len() && stats_of(#[trigger] events[i]).contains(
                    #[trigger] all_stats(events)[k],
                ),
        forall|k: int|
            0 <= k < all_changes(events).len() ==> exists|i: int|
                0 <= i < events.len() && changes_of(#[trigger] events[i]).contains(
                    #[trigger] all_changes(events)[k],
                ),
    decreases events.len(),
{
    if events.len() > 0 {
        let before = events.drop_last();
        let last = events.len() - 1;
        law_only_events_are_reported(before);
        assert forall|k: int| 0 <= k < all_stats(events).len() implies exists|i: int|
            0 <= i < events.len() && stats_of(#[trigger] events[i]).contains(
                #[trigger] all_stats(events)[k],
            ) by {
            if k < all_stats(before).len() {
                let i = choose|i: int|
                    0 <= i < before.len() && stats_of(#[trigger] before[i]).contains(
                        all_stats(before)[k],
                    );
                assert(events[i] == before[i]);
            } else {
                assert(stats_of(events[last])[k - all_stats(before).len()] == all_stats(events)[k]);
            }
        }
        assert forall|k: int| 0 <= k < all_changes(events).len() implies exists|i: int|
            0 <= i < events.len() && changes_of(#[trigger] events[i]).contains(
                #[trigger] all_changes(events)[k],
            ) by {
            if k < all_changes(before).len() {
                let i = choose|i: int|
                    0 <= i < before.len() && changes_of(#[trigger] before[i]).contains(
                        all_changes(before)[k],
                    );
                assert(events[i] == before[i]);
            } else {
                assert(changes_of(events[last])[k - all_changes(before).len()] == all_changes(
                    events,
                )[k]);
            }
        }
    }
}

/// What becomes of an event, by what is known of its path. In the output directory it leaves no
/// trace. Elsewhere the file name decides, then the ignore rules: a temporary file and a path that
/// the rules match are counted and not kept, and every other event is kept and not counted. Without
/// knowledge of the cell nothing is said just where the rules would decide.
pub proof fn law_what_becomes_of_an_event(
    data: FileDataView,
    path: Seq<char>,
    relative: Seq<char>,
    ignore_match: Option<bool>,
    output_dir: Seq<char>,
    event: BufferedEvent,
)
    requires
        data.ignored < u64::MAX,
    ensures
        ({
            let next = data.after(verdict(path, relative, ignore_match, output_dir), event);
            let is_output = starts_with(relative, output_dir);
            let has_temporary_name = file_name_of(path) is Some && is_temporary(
                file_name_of(path)->Some_0,
            );
            let is_ignored = has_temporary_name || ignore_match == Some(true);
            &&& is_output ==> next.ignored == data.ignored && next.events == data.events
            &&& !is_output && is_ignored ==> next.ignored == data.ignored + 1 && next.events
                == data.events
            &&& !is_output && !is_ignored ==> next.ignored == data.ignored
                && next.events.contains(event) && (forall|e: BufferedEvent| #[trigger]
                next.events.contains(e) <==> e == event || data.events.contains(e))
                && data.events.is_prefix_of(next.events) && next.events.len() == data.events.len()
                + if data.events.contains(event) {
                0int
            } else {
                1int
            }
            &&& early_verdict(path, relative, output_dir) is None <==> !is_output
                && !has_temporary_name
        }),
{
    if !data.events.contains(event) {
        let more = data.events.push(event);
        assert(more[data.events.len() as int] == event);
        assert forall|e: BufferedEvent| #[trigger] more.contains(e) <==> e == event
            || data.events.contains(e) by {
            if data.events.contains(e) {
                let i = choose|i: int| 0 <= i < data.events.len() && data.events[i] == e;
                assert(more[i] == e);
            }
            if more.contains(e) {
                let i = choose|i: int| 0 <= i < more.len() && more[i] == e;
                assert(i < data.events.len() ==> data.events[i] == e);
            }
        }
    }
}

/// Looking at an event without knowledge of its cell counts it where it has a temporary name, and
/// leaves the buffer as it is otherwise; it never keeps it.
pub proof fn law_screening_counts_temporary_files(
    data: FileDataView,
    path: Seq<char>,
    relative: Seq<char>,
    output_dir: Seq<char>,
)
    requires
        data.ignored < u64::MAX,
    ensures
        ({
            let next = data.screened(early_verdict(path, relative, output_dir));
            &&& next.events == data.events
            &&& next.ignored == data.ignored + if !starts_with(relative, output_dir)
                && file_name_of(path) is Some && is_temporary(file_name_of(path)->Some_0) {
                1int
            } else {
                0int
            }
        }),
{
}

/// Whether the report holds this change.
pub open spec fn tells_change(report: SyncReport, change: FileChangeView) -> bool {
    exists|k: int| 0 <= k < report.changes@.len() && (#[trigger] report.changes@[k])@ == change
}

/// Whether the report holds this line in its statistics.
pub open spec fn tells_line(report: SyncReport, line: StatsEntryView) -> bool {
    exists|k: int| 0 <= k < report.stats@.len() && (#[trigger] report.stats@[k])@ == line
}

/// What a report says of a path. It tells that the contents of a file changed if and only if the
/// buffer holds a modification of the file, and that a file or a directory was added or removed if
/// and only if it holds a creation, a deletion or a rename of it as such. The statistics have a
/// creation for each creation and each rename, a deletion for each deletion and each rename, and a
/// modification for each modification.
pub proof fn law_report_tells_what_was_buffered(
    report: SyncReport,
    data: FileDataView,
    path: CellPathView,
    is_dir: bool,
)
    requires
        report.reports(data),
    ensures
        ({
            let has = |event_type: EventPortEventType, is_dir: bool|
                data.events.contains(BufferedEvent { path, event_type, is_dir });
            let kind = if is_dir {
                FileWatcherKind::Directory
            } else {
                FileWatcherKind::File
            };
            let line = |event: FileWatcherEventType| StatsEntryView { path, event, kind };
            &&& report.event_count == data.events.len()
            &&& report.ignored == data.ignored
            &&& tells_change(report, FileChangeView::FileContentsChanged(path)) <==> has(
                EventPortEventType::Modified,
                false,
            )
            &&& tells_change(report, FileChangeView::FileAddedOrRemoved(path)) <==> has(
                EventPortEventType::Created,
                false,
            ) || has(EventPortEventType::Deleted, false) || has(EventPortEventType::Renamed, false)
            &&& tells_change(report, FileChangeView::DirAddedOrRemoved(path)) <==> has(
                EventPortEventType::Created,
                true,
            ) || has(EventPortEventType::Deleted, true) || has(EventPortEventType::Renamed, true)
            &&& tells_line(report, line(FileWatcherEventType::Create)) <==> has(
                EventPortEventType::Created,
                is_dir,
            ) || has(EventPortEventType::Renamed, is_dir)
            &&& tells_line(report, line(FileWatcherEventType::Delete)) <==> has(
                EventPortEventType::Deleted,
                is_dir,
            ) || has(EventPortEventType::Renamed, is_dir)
            &&& tells_line(report, line(FileWatcherEventType::Modify)) <==> has(
                EventPortEventType::Modified,
                is_dir,
            )
        }),
{
    lemma_contents_are_told(report, data, path);
    lemma_moves_are_told(report, data, path, false);
    lemma_moves_are_told(report, data, path, true);
    lemma_lines_are_told(report, data, path, is_dir, FileWatcherEventType::Create);
    lemma_lines_are_told(report, data, path, is_dir, FileWatcherEventType::Delete);
    lemma_lines_are_told(report, data, path, is_dir, FileWatcherEventType::Modify);
}

/// An event with these parts is in the buffer where it stands in it.
proof fn lemma_event_at(data: FileDataView, i: int)
    requires
        0 <= i < data.events.len(),
    ensures
        data.events.contains(
            BufferedEvent {
                path: data.events[i].path,
                event_type: data.events[i].event_type,
                is_dir: data.events[i].is_dir,
            },
        ),
{
    assert(data.events.contains(data.events[i]));
}

/// A report tells of changed contents where a modification of the file was buffered.
proof fn lemma_contents_are_told(report: SyncReport, data: FileDataView, path: CellPathView)
    requires
        report.reports(data),
    ensures
        tells_change(report, FileChangeView::FileContentsChanged(path)) <==> data.events.contains(
            BufferedEvent { path, event_type: EventPortEventType::Modified, is_dir: false },
        ),
{
    let change = FileChangeView::FileContentsChanged(path);
    let event = BufferedEvent { path, event_type: EventPortEventType::Modified, is_dir: false };
    lemma_tells_change(report, data, change);
    if tells_change(report, change) {
        let i = choose|i: int|
            0 <= i < data.events.len() && changes_of(#[trigger] data.events[i]).contains(change);
        lemma_event_at(data, i);
    }
    if data.events.contains(event) {
        lemma_event_is_told(report, data, event);
        assert(changes_of(event)[0] == change);
    }
}

/// A report tells that a path was added or removed where its creation, deletion or rename was
/// buffered.
proof fn lemma_moves_are_told(
    report: SyncReport,
    data: FileDataView,
    path: CellPathView,
    is_dir: bool,
)
    requires
        report.reports(data),
    ensures
        tells_change(
            report,
            if is_dir {
                FileChangeView::DirAddedOrRemoved(path)
            } else {
                FileChangeView::FileAddedOrRemoved(path)
            },
        ) <==> {
            ||| data.events.contains(
                BufferedEvent { path, event_type: EventPortEventType::Created, is_dir },
            )
            ||| data.events.contains(
                BufferedEvent { path, event_type: EventPortEventType::Deleted, is_dir },
            )
            ||| data.events.contains(
                BufferedEvent { path, event_type: EventPortEventType::Renamed, is_dir },
            )
        },
{
    let change = if is_dir {
        FileChangeView::DirAddedOrRemoved(path)
    } else {
        FileChangeView::FileAddedOrRemoved(path)
    };
    lemma_tells_change(report, data, change);
    if tells_change(report, change) {
        let i = choose|i: int|
            0 <= i < data.events.len() && changes_of(#[trigger] data.events[i]).contains(change);
        lemma_event_at(data, i);
        assert(!(data.events[i].event_type is Modified));
    }
    let created = BufferedEvent { path, event_type: EventPortEventType::Created, is_dir };
    let deleted = BufferedEvent { path, event_type: EventPortEventType::Deleted, is_dir };
    let renamed = BufferedEvent { path, event_type: EventPortEventType::Renamed, is_dir };
    if data.events.contains(created) {
        lemma_event_is_told(report, data, created);
        assert(changes_of(created)[0] == change);
    }
    if data.events.contains(deleted) {
        lemma_event_is_told(report, data, deleted);
        assert(changes_of(deleted)[0] == change);
    }
    if data.events.contains(renamed) {
        lemma_event_is_told(report, data, renamed);
        assert(changes_of(renamed)[0] == change);
    }
}

/// The statistics hold a line where an event was buffered that adds it.
proof fn lemma_lines_are_told(
    report: SyncReport,
    data: FileDataView,
    path: CellPathView,
    is_dir: bool,
    line_event: FileWatcherEventType,
)
    requires
        report.reports(data),
    ensures
        tells_line(
            report,
            StatsEntryView {
                path,
                event: line_event,
                kind: if is_dir {
                    FileWatcherKind::Directory
                } else {
                    FileWatcherKind::File
                },
            },
        ) <==> {
            let has = |event_type: EventPortEventType|
                data.events.contains(BufferedEvent { path, event_type, is_dir });
            match line_event {
                FileWatcherEventType::Create => has(EventPortEventType::Created) || has(
                    EventPortEventType::Renamed,
                ),
                FileWatcherEventType::Delete => has(EventPortEventType::Deleted) || has(
                    EventPortEventType::Renamed,
                ),
                FileWatcherEventType::Modify => has(EventPortEventType::Modified),
            }
        },
{
    let kind = if is_dir {
        FileWatcherKind::Directory
    } else {
        FileWatcherKind::File
    };
    let line = StatsEntryView { path, event: line_event, kind };
    lemma_tells_line(report, data, line);
    if tells_line(report, line) {
        let i = choose|i: int|
            0 <= i < data.events.len() && stats_of(#[trigger] data.events[i]).contains(line);
        lemma_event_at(data, i);
    }
    let own = BufferedEvent {
        path,
        event_type: match line_event {
            FileWatcherEventType::Create => EventPortEventType::Created,
            FileWatcherEventType::Delete => EventPortEventType::Deleted,
            FileWatcherEventType::Modify => EventPortEventType::Modified,
        },
        is_dir,
    };
    let renamed = BufferedEvent { path, event_type: EventPortEventType::Renamed, is_dir };
    if data.events.contains(own) {
        lemma_event_is_told(report, data, own);
        assert(stats_of(own)[0] == line);
    }
    if data.events.contains(renamed) {
        lemma_event_is_told(report, data, renamed);
        assert(stats_of(renamed)[0].event is Delete);
        assert(stats_of(renamed)[1].event is Create);
        assert(stats_of(renamed)[0].event == line_event ==> stats_of(renamed)[0] == line);
        assert(stats_of(renamed)[1].event == line_event ==> stats_of(renamed)[1] == line);
    }
}

/// A report holds all that an event of the buffer makes known.
proof fn lemma_event_is_told(report: SyncReport, data: FileDataView, event: BufferedEvent)
    requires
        report.reports(data),
        data.events.contains(event),
    ensures
        forall|k: int|
            0 <= k < changes_of(event).len() ==> tells_change(
                report,
                #[trigger] changes_of(event)[k],
            ),
        forall|k: int|
            0 <= k < stats_of(event).len() ==> tells_line(report, #[trigger] stats_of(event)[k]),
{
    let i = choose|i: int| 0 <= i < data.events.len() && data.events[i] == event;
    assert forall|k: int| 0 <= k < changes_of(event).len() implies tells_change(
        report,
        #[trigger] changes_of(event)[k],
    ) by {
        lemma_tells_change(report, data, changes_of(event)[k]);
        assert(changes_of(data.events[i]).contains(changes_of(event)[k]));
    }
    assert forall|k: int| 0 <= k < stats_of(event).len() implies tells_line(
        report,
        #[trigger] stats_of(event)[k],
    ) by {
        lemma_tells_line(report, data, stats_of(event)[k]);
        assert(stats_of(data.events[i]).contains(stats_of(event)[k]));
    }
}

/// A report holds a change if and only if an event of the buffer makes it known.
proof fn lemma_tells_change(report: SyncReport, data: FileDataView, change: FileChangeView)
    requires
        report.reports(data),
    ensures
        tells_change(report, change) <==> exists|i: int|
            0 <= i < data.events.len() && changes_of(#[trigger] data.events[i]).contains(change),
{
    let all = all_changes(data.events);
    law_only_events_are_reported(data.events);
    if tells_change(report, change) {
        let k = choose|k: int|
            0 <= k < report.changes@.len() && (#[trigger] report.changes@[k])@ == change;
        assert(report.changes_view()[k] == change);
        assert(all[k] == change);
    }
    if exists|i: int|
        0 <= i < data.events.len() && changes_of(#[trigger] data.events[i]).contains(change) {
        let i = choose|i: int|
            0 <= i < data.events.len() && changes_of(#[trigger] data.events[i]).contains(change);
        law_every_event_is_reported(data.events, i);
        let k = choose|k: int|
            0 <= k < changes_of(data.events[i]).len() && changes_of(data.events[i])[k] == change;
        assert(all.contains(changes_of(data.events[i])[k]));
        let m = choose|m: int| 0 <= m < all.len() && all[m] == change;
        assert(report.changes_view()[m] == report.changes@[m]@);
    }
}

/// A report holds a line if and only if an event of the buffer adds it.
proof fn lemma_tells_line(report: SyncReport, data: FileDataView, line: StatsEntryView)
    requires
        report.reports(data),
    ensures
        tells_line(report, line) <==> exists|i: int|
            0 <= i < data.events.len() && stats_of(#[trigger] data.events[i]).contains(line),
{
    let all = all_stats(data.events);
    law_only_events_are_reported(data.events);
    if tells_line(report, line) {
        let k = choose|k: int|
            0 <= k < report.stats@.len() && (#[trigger] report.stats@[k])@ == line;
        assert(report.stats_view()[k] == line);
        assert(all[k] == line);
    }
    if exists|i: int|
        0 <= i < data.events.len() && stats_of(#[trigger] data.events[i]).contains(line) {
        let i = choose|i: int|
            0 <= i < data.events.len() && stats_of(#[trigger] data.events[i]).contains(line);
        law_every_event_is_reported(data.events, i);
        let k = choose|k: int|
            0 <= k < stats_of(data.events[i]).len() && stats_of(data.events[i])[k] == line;
        assert(all.contains(stats_of(data.events[i])[k]));
        let m = choose|m: int| 0 <= m < all.len() && all[m] == line;
        assert(report.stats_view()[m] == report.stats@[m]@);
    }
}

/// A report goes through the events in their order: where the buffer holds some events and then
/// others, the report has what it would have on the ones and then what it would have on the others.
pub proof fn law_report_follows_the_order(
    report: SyncReport,
    first: SyncReport,
    second: SyncReport,
    a: Seq<BufferedEvent>,
    b: Seq<BufferedEvent>,
    ignored: u64,
)
    requires
        report.reports(FileDataView { ignored, events: a + b }),
        first.reports(FileDataView { ignored, events: a }),
        second.reports(FileDataView { ignored, events: b }),
    ensures
        report.changes@.map_values(|c: FileChange| c@) == first.changes@.map_values(
            |c: FileChange| c@,
        ) + second.changes@.map_values(|c: FileChange| c@),
        report.stats@.map_values(|s: StatsEntry| s@) == first.stats@.map_values(
            |s: StatsEntry| s@,
        ) + second.stats@.map_values(|s: StatsEntry| s@),
{
    lemma_reports_join(a, b);
}

/// What some events and then others make known is what the ones do and then what the others do.
proof fn lemma_reports_join(a: Seq<BufferedEvent>, b: Seq<BufferedEvent>)
    ensures
        all_changes(a + b) == all_changes(a) + all_changes(b),
        all_stats(a + b) == all_stats(a) + all_stats(b),
    decreases b.len(),
{
    if b.len() == 0 {
        assert(a + b =~= a);
        assert(all_changes(a) + all_changes(b) =~= all_changes(a));
        assert(all_stats(a) + all_stats(b) =~= all_stats(a));
    } else {
        assert((a + b).drop_last() =~= a + b.drop_last());
        lemma_reports_join(a, b.drop_last());
        assert(all_changes(a + b) =~= all_changes(a) + all_changes(b));
        assert(all_stats(a + b) =~= all_stats(a) + all_stats(b));
    }
}

/// How much a report on a single event says: one change and one line, but two of each for a rename,
/// whose deletion comes before its creation, and no change for the modification of a directory.
pub proof fn law_report_on_one_event(report: SyncReport, event: BufferedEvent, ignored: u64)
    requires
        report.reports(FileDataView { ignored, events: seq![event] }),
    ensures
        report.event_count == 1,
        report.changes@.len() == (if event.event_type is Renamed {
            2int
        } else if event.event_type is Modified && event.is_dir {
            0int
        } else {
            1int
        }),
        report.stats@.len() == (if event.event_type is Renamed {
            2int
        } else {
            1int
        }),
        event.event_type is Renamed ==> report.stats@[0].event is Delete
            && report.stats@[1].event is Create,
        forall|k: int|
            0 <= k < report.stats@.len() ==> (#[trigger] report.stats@[k]).path@ == event.path
                && report.stats@[k].kind == (if event.is_dir {
                FileWatcherKind::Directory
            } else {
                FileWatcherKind::File
            }),
{
    let events = seq![event];
    assert(events.drop_last() =~= Seq::empty());
    reveal_with_fuel(all_changes, 2);
    reveal_with_fuel(all_stats, 2);
    assert(all_changes(events) =~= changes_of(event));
    assert(all_stats(events) =~= stats_of(event));
    assert(report.stats_view().len() == report.stats@.len());
    assert(report.changes_view().len() == report.changes@.len());
    assert forall|k: int| 0 <= k < report.stats@.len() implies (
    #[trigger] report.stats@[k]).path@ == event.path && report.stats@[k].kind == (
    if event.is_dir {
        FileWatcherKind::Directory
    } else {
        FileWatcherKind::File
    }) by {
        assert(report.stats_view()[k] == report.stats@[k]@);
    }
    if event.event_type is Renamed {
        assert(report.stats_view()[0] == report.stats@[0]@);
        assert(report.stats_view()[1] == report.stats@[1]@);
    }
}

/// Which verdict is given: that of the output directory wherever the path lies in it, else that of
/// a temporary file wherever it has such a name, else what the ignore rules say. What is said
/// without knowledge of the cell is what is said with it, whatever the rules say.
pub proof fn law_verdicts(
    path: Seq<char>,
    relative: Seq<char>,
    ignore_match: Option<bool>,
    output_dir: Seq<char>,
)
    ensures
        ({
            let early = early_verdict(path, relative, output_dir);
            let given = verdict(path, relative, ignore_match, output_dir);
            let is_output = starts_with(relative, output_dir);
            let has_temporary_name = file_name_of(path) is Some && is_temporary(
                file_name_of(path)->Some_0,
            );
            &&& given is Output <==> is_output
            &&& given is Temporary <==> !is_output && has_temporary_name
            &&& given is Ignored <==> !is_output && !has_temporary_name && ignore_match == Some(true)
            &&& given is Buffered <==> !is_output && !has_temporary_name && ignore_match != Some(
                true,
            )
            &&& early is Some <==> is_output || has_temporary_name
            &&& early is Some ==> early == Some(given)
            &&& early is None ==> given == cell_verdict(ignore_match)
        }),
{
}

} // verus!
