//! What the watcher asks of the port and the file system, and what they answer.
use crate::event::{PendingEvent, PendingEventView};
use vstd::prelude::*;

verus! {

/// The texts of the strings.
pub open spec fn texts(v: Seq<String>) -> Seq<Seq<char>> {
    v.map_values(|s: String| s@)
}

/// The mathematical model of a list of events on their way to the buffer.
pub open spec fn pending_views(v: Seq<PendingEvent>) -> Seq<PendingEventView> {
    v.map_values(|e: PendingEvent| e@)
}

/// One entry of a directory, as the file system handed it out.
#[derive(Debug, PartialEq, Eq, Hash)]
pub enum DirEntry {
    /// The entry could not be read.
    Unreadable,
    /// The entry's path is not valid UTF-8.
    NotUtf8,
    /// The entry's path.
    Found(String),
}

impl View for DirEntry {
    type V = Option<Seq<char>>;

    open spec fn view(&self) -> Option<Seq<char>> {
        match self {
            DirEntry::Unreadable | DirEntry::NotUtf8 => None,
            DirEntry::Found(path) => Some(path@),
        }
    }
}

/// The paths of a listing, in order, without the entries that have none.
pub open spec fn found_paths(entries: Seq<DirEntry>) -> Seq<Seq<char>>
    decreases entries.len(),
{
    if entries.len() == 0 {
        Seq::empty()
    } else {
        match entries.last()@ {
            Some(path) => found_paths(entries.drop_last()).push(path),
            None => found_paths(entries.drop_last()),
        }
    }
}

/// What happened to a watched file, as far as the watcher asks.
#[derive(Debug, Clone, Copy, PartialEq, Eq, Structural, Hash)]
pub struct FileEvents {
    pub modified: bool,
    pub deleted: bool,
    pub renamed_from: bool,
}

/// An event that a port delivered.
#[derive(Debug, Clone, Copy, PartialEq, Eq, Structural, Hash)]
pub struct PortEvent {
    /// Whether the event comes from a watched file.
    pub is_file: bool,
    /// The cookie that was given when the file was associated.
    pub cookie: u64,
}

/// The events of a file for which its handle is associated with the port.
#[derive(Debug, Clone, Copy, PartialEq, Eq, Structural, Hash)]
pub struct WatchedEvents {
    pub modified: bool,
    pub attributes: bool,
    pub truncated: bool,
    pub accessed: bool,
}

/// The events for which every path is watched: changes of its contents, of its attributes and of
/// its length. Accesses are left out: there are too many of them.
pub open spec fn events_to_watch() -> WatchedEvents {
    WatchedEvents { modified: true, attributes: true, truncated: true, accessed: false }
}

/// The events for which every path is watched.
pub fn watched_events() -> (r: WatchedEvents)
    ensures
        r == events_to_watch(),
        r.modified && r.attributes && r.truncated && !r.accessed,
{
    WatchedEvents { modified: true, attributes: true, truncated: true, accessed: false }
}

/// How many seconds to pause after an error of the port.
pub fn pause_seconds() -> (r: u64)
    ensures
        r == 1,
{
    1
}

/// What is to be done next.
#[derive(Debug, PartialEq, Eq, Hash)]
pub enum Action {
    /// Make a handle for the path.
    Open(String),
    /// Associate the handle of the path with the port, under the cookie and for the events.
    Associate(String, u64, WatchedEvents),
    /// Find out whether the path is a directory.
    Inspect(String),
    /// List the directory.
    List(String),
    /// Refresh the handle of the path.
    Refresh(String),
    /// Find out what the port's last event says of the path. The event refers to the handle of the
    /// path, so this is asked only while that handle is in the table.
    ReadEvent(String),
    /// Put the event into the buffer.
    Buffer(PendingEvent),
    /// Wait for the port's next event.
    Wait,
    /// Pause for so many seconds, then wait for the port's next event.
    WaitAfterPause(u64),
}

/// The mathematical model of an [`Action`].
pub enum ActionView {
    Open(Seq<char>),
    Associate(Seq<char>, u64, WatchedEvents),
    Inspect(Seq<char>),
    List(Seq<char>),
    Refresh(Seq<char>),
    ReadEvent(Seq<char>),
    Buffer(PendingEventView),
    Wait,
    WaitAfterPause(u64),
}

impl View for Action {
    type V = ActionView;

    open spec fn view(&self) -> ActionView {
        match self {
            Action::Open(path) => ActionView::Open(path@),
            Action::Associate(path, cookie, events) => ActionView::Associate(
                path@,
                *cookie,
                *events,
            ),
            Action::Inspect(path) => ActionView::Inspect(path@),
            Action::List(path) => ActionView::List(path@),
            Action::Refresh(path) => ActionView::Refresh(path@),
            Action::ReadEvent(path) => ActionView::ReadEvent(path@),
            Action::Buffer(event) => ActionView::Buffer(event@),
            Action::Wait => ActionView::Wait,
            Action::WaitAfterPause(seconds) => ActionView::WaitAfterPause(*seconds),
        }
    }
}

/// What came of an action. `H` is the handle that ties a path to the port, `E` an error.
#[derive(Debug, PartialEq, Eq, Hash)]
pub enum Reply<H, E> {
    /// The new handle.
    Opened(Result<H, E>),
    /// Whether the port took the handle.
    Associated(Result<(), E>),
    /// Whether the path is a directory.
    Inspected(Result<bool, E>),
    /// What the directory holds.
    Listed(Result<Vec<DirEntry>, E>),
    /// Whether the handle could be refreshed.
    Refreshed(Result<(), E>),
    /// What the port's last event says happened to the file, if it says anything.
    EventRead(Option<FileEvents>),
    /// Whether the buffer could be reached.
    Buffered(Result<(), E>),
    /// The port's event, or the number of the error, where it has one, that came instead.
    Received(Result<PortEvent, Option<i32>>),
}

/// Whether a reply is one to this action.
pub open spec fn answers<H, E>(action: ActionView, reply: Reply<H, E>) -> bool {
    match action {
        ActionView::Open(_) => reply is Opened,
        ActionView::Associate(_, _, _) => reply is Associated,
        ActionView::Inspect(_) => reply is Inspected,
        ActionView::List(_) => reply is Listed,
        ActionView::Refresh(_) => reply is Refreshed,
        ActionView::ReadEvent(_) => reply is EventRead,
        ActionView::Buffer(_) => reply is Buffered,
        ActionView::Wait | ActionView::WaitAfterPause(_) => reply is Received,
    }
}

/// The lists of texts and of events are taken as they are, item by item.
pub proof fn law_lists_are_taken_as_they_are(strings: Seq<String>, events: Seq<PendingEvent>)
    ensures
        texts(strings).len() == strings.len(),
        forall|i: int| 0 <= i < strings.len() ==> #[trigger] texts(strings)[i] == strings[i]@,
        pending_views(events).len() == events.len(),
        forall|i: int|
            0 <= i < events.len() ==> (#[trigger] pending_views(events)[i]) == (PendingEventView {
                path: events[i].path@,
                event_type: events[i].event_type,
                is_dir: events[i].is_dir,
            }),
{
}

/// A listing gives its paths in its order: an entry that was found gives its path, and any other
/// gives none.
pub proof fn law_found_paths(a: Seq<DirEntry>, b: Seq<DirEntry>, entry: DirEntry)
    ensures
        found_paths(a + b) == found_paths(a) + found_paths(b),
        found_paths(seq![entry]) == match entry {
            DirEntry::Found(path) => seq![path@],
            DirEntry::Unreadable => Seq::empty(),
            DirEntry::NotUtf8 => Seq::empty(),
        },
        found_paths(Seq::<DirEntry>::empty()) == Seq::<Seq<char>>::empty(),
    decreases b.len(),
{
    reveal_with_fuel(found_paths, 2);
    assert(seq![entry].drop_last() =~= Seq::empty());
    if b.len() == 0 {
        assert(a + b =~= a);
        assert(found_paths(a) + found_paths(b) =~= found_paths(a));
    } else {
        assert((a + b).drop_last() =~= a + b.drop_last());
        law_found_paths(a, b.drop_last(), entry);
        assert(found_paths(a + b) =~= found_paths(a) + found_paths(b));
    }
}

/// A path is among those of a listing if and only if an entry was found that has it.
pub proof fn law_found_paths_are_those_of_entries(entries: Seq<DirEntry>, path: Seq<char>)
    ensures
        found_paths(entries).contains(path) <==> exists|j: int|
            0 <= j < entries.len() && (#[trigger] entries[j] matches DirEntry::Found(s) && s@
                == path),
    decreases entries.len(),
{
    if entries.len() > 0 {
        let before = entries.drop_last();
        law_found_paths_are_those_of_entries(before, path);
        let last = entries.len() - 1;
        if found_paths(entries).contains(path) {
            if found_paths(before).contains(path) {
                let j = choose|j: int|
                    0 <= j < before.len() && (#[trigger] before[j] matches DirEntry::Found(s) && s@
                        == path);
                assert(entries[j] == before[j]);
            } else {
                let k = choose|k: int|
                    0 <= k < found_paths(entries).len() && found_paths(entries)[k] == path;
                assert(k < found_paths(before).len() ==> found_paths(before)[k] == path);
                assert(entries[last]@ == Some(path));
            }
        }
        if exists|j: int|
            0 <= j < entries.len() && (#[trigger] entries[j] matches DirEntry::Found(s) && s@
                == path) {
            let j = choose|j: int|
                0 <= j < entries.len() && (#[trigger] entries[j] matches DirEntry::Found(s) && s@
                    == path);
            if j < last {
                assert(before[j] == entries[j]);
                let k = choose|k: int|
                    0 <= k < found_paths(before).len() && found_paths(before)[k] == path;
                assert(found_paths(entries)[k] == path);
            } else {
                assert(found_paths(entries)[found_paths(before).len() as int] == path);
            }
        }
    }
}

/// Every action is answered by what its doing gives, success or failure, whatever it holds.
pub proof fn law_every_outcome_answers<H, E>(
    path: Seq<char>,
    cookie: u64,
    events: WatchedEvents,
    event: PendingEventView,
    seconds: u64,
    handle: Result<H, E>,
    done: Result<(), E>,
    is_dir: Result<bool, E>,
    entries: Result<Vec<DirEntry>, E>,
    file_events: Option<FileEvents>,
    received: Result<PortEvent, Option<i32>>,
)
    ensures
        answers(ActionView::Open(path), Reply::<H, E>::Opened(handle)),
        answers(ActionView::Associate(path, cookie, events), Reply::<H, E>::Associated(done)),
        answers(ActionView::Inspect(path), Reply::<H, E>::Inspected(is_dir)),
        answers(ActionView::List(path), Reply::<H, E>::Listed(entries)),
        answers(ActionView::Refresh(path), Reply::<H, E>::Refreshed(done)),
        answers(ActionView::ReadEvent(path), Reply::<H, E>::EventRead(file_events)),
        answers(ActionView::Buffer(event), Reply::<H, E>::Buffered(done)),
        answers(ActionView::Wait, Reply::<H, E>::Received(received)),
        answers(ActionView::WaitAfterPause(seconds), Reply::<H, E>::Received(received)),
{
}

} // verus!
