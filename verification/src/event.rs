//! The events that the watcher buffers, and what it reports of them.
use vstd::prelude::*;

verus! {

/// What happened to a path.
#[derive(Debug, Clone, Copy, PartialEq, Eq, Structural, Hash)]
pub enum EventPortEventType {
    Created,
    Modified,
    Deleted,
    Renamed,
}

/// What a report says happened to a path.
#[derive(Debug, Clone, Copy, PartialEq, Eq, Structural, Hash)]
pub enum FileWatcherEventType {
    Create,
    Modify,
    Delete,
}

/// What a report says a path is.
#[derive(Debug, Clone, Copy, PartialEq, Eq, Structural, Hash)]
pub enum FileWatcherKind {
    File,
    Directory,
}

/// A path within a cell of the project.
#[derive(Debug, PartialEq, Eq, Hash)]
pub struct CellPath {
    /// The cell's name.
    pub cell: String,
    /// The path, relative to the cell's root.
    pub path: String,
}

/// The mathematical model of a [`CellPath`].
pub struct CellPathView {
    pub cell: Seq<char>,
    pub path: Seq<char>,
}

impl View for CellPath {
    type V = CellPathView;

    open spec fn view(&self) -> CellPathView {
        CellPathView { cell: self.cell@, path: self.path@ }
    }
}

impl Clone for CellPath {
    fn clone(&self) -> (r: CellPath)
        ensures
            r@ == self@,
    {
        CellPath { cell: self.cell.clone(), path: self.path.clone() }
    }
}

/// One buffered event: the path, what happened to it, and whether it is a directory.
pub struct BufferedEvent {
    pub path: CellPathView,
    pub event_type: EventPortEventType,
    pub is_dir: bool,
}

/// An event on its way to the buffer.
#[derive(Debug, PartialEq, Eq, Hash)]
pub struct PendingEvent {
    pub path: String,
    pub event_type: EventPortEventType,
    pub is_dir: bool,
}

/// The mathematical model of a [`PendingEvent`].
pub struct PendingEventView {
    pub path: Seq<char>,
    pub event_type: EventPortEventType,
    pub is_dir: bool,
}

impl View for PendingEvent {
    type V = PendingEventView;

    open spec fn view(&self) -> PendingEventView {
        PendingEventView { path: self.path@, event_type: self.event_type, is_dir: self.is_dir }
    }
}

impl Clone for PendingEvent {
    fn clone(&self) -> (r: PendingEvent)
        ensures
            r@ == self@,
    {
        PendingEvent {
            path: self.path.clone(),
            event_type: self.event_type,
            is_dir: self.is_dir,
        }
    }
}

/// A change that whoever caches the file system has to hear of.
#[derive(Debug, PartialEq, Eq, Hash)]
pub enum FileChange {
    FileAddedOrRemoved(CellPath),
    DirAddedOrRemoved(CellPath),
    FileContentsChanged(CellPath),
}

/// The mathematical model of a [`FileChange`].
pub enum FileChangeView {
    FileAddedOrRemoved(CellPathView),
    DirAddedOrRemoved(CellPathView),
    FileContentsChanged(CellPathView),
}

impl View for FileChange {
    type V = FileChangeView;

    open spec fn view(&self) -> FileChangeView {
        match self {
            FileChange::FileAddedOrRemoved(path) => FileChangeView::FileAddedOrRemoved(path@),
            FileChange::DirAddedOrRemoved(path) => FileChangeView::DirAddedOrRemoved(path@),
            FileChange::FileContentsChanged(path) => FileChangeView::FileContentsChanged(path@),
        }
    }
}

/// One line of the statistics.
#[derive(Debug, PartialEq, Eq, Hash)]
pub struct StatsEntry {
    pub path: CellPath,
    pub event: FileWatcherEventType,
    pub kind: FileWatcherKind,
}

/// The mathematical model of a [`StatsEntry`].
pub struct StatsEntryView {
    pub path: CellPathView,
    pub event: FileWatcherEventType,
    pub kind: FileWatcherKind,
}

impl View for StatsEntry {
    type V = StatsEntryView;

    open spec fn view(&self) -> StatsEntryView {
        StatsEntryView { path: self.path@, event: self.event, kind: self.kind }
    }
}

} // verus!
