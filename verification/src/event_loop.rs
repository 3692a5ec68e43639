//! The loop that takes the port's events.
use crate::cookie::{cookie_of, path_to_cookie};
use crate::event::{EventPortEventType, PendingEvent, PendingEventView};
use crate::path::{same_path, starts_with};
use crate::port::{
    answers, events_to_watch, pause_seconds, watched_events, Action, ActionView, FileEvents,
    PortEvent, Reply, WatchedEvents,
};
use crate::rescan::{Rescan, RescanNext, RescanPhaseView, RescanView};
use crate::walk::{Walk, WalkNext, WalkView};
use crate::watchers::{
    is_findable, keeps_order, law_forgetting_takes_nothing_else, law_forgotten_is_gone, Watchers,
    WatchersView,
};
use vstd::prelude::*;

verus! {

/// Reads `libc::EINTR`, the number of the error that a call gets which a signal interrupted. It is
/// 4 on illumos and Solaris, where there are event ports, and on Linux.
#[verifier::external_body]
fn interrupted_errno() -> (r: i32)
    ensures
        r == 4,
{
    libc::EINTR
}

/// Why the loop stopped.
#[derive(Debug, PartialEq, Eq, Hash)]
pub enum StopReason<E> {
    /// The project's root could not be watched.
    SetupFailed(E),
    /// There is nothing to watch.
    NothingWatched,
    /// The buffer can no longer be reached.
    BufferLost(E),
}

/// What the loop is at.
pub enum LoopView {
    /// The project is walked over for the first time.
    Starting(WalkView),
    /// The port's next event is waited for, after a pause or at once.
    Waiting(bool),
    /// An event came for a path, and it is to be found out what it says.
    Reading(Seq<char>),
    /// A path for which an event came may be a directory.
    Inspecting(Seq<char>, FileEvents),
    /// The handle of a path for which an event came is to be refreshed.
    Refreshing(Seq<char>, FileEvents, bool),
    /// The handle of a path for which an event came is to be associated again.
    Reassociating(Seq<char>, FileEvents, bool),
    /// A directory that was modified is rescanned.
    Rescanning(RescanView),
    /// An event goes to the buffer.
    Buffering(PendingEventView),
}

/// Where the loop stands after a reply: how it goes on, or why it stopped.
pub enum LoopNext<E> {
    On(LoopView),
    Stop(StopReason<E>),
}

/// The table after `path` and what lies below it were forgotten.
pub open spec fn forgotten<H>(table: WatchersView<H>, path: Seq<char>) -> WatchersView<H> {
    if path.len() == 0 {
        table
    } else {
        table.without_tree(path)
    }
}

/// The loop with an event on its way to the buffer.
pub open spec fn buffering<E>(
    path: Seq<char>,
    event_type: EventPortEventType,
    is_dir: bool,
) -> LoopNext<E> {
    LoopNext::On(LoopView::Buffering(PendingEventView { path, event_type, is_dir }))
}

impl LoopView {
    /// What is to be done next.
    pub open spec fn action(self) -> ActionView {
        match self {
            LoopView::Starting(walk) => walk.action(),
            LoopView::Waiting(false) => ActionView::Wait,
            LoopView::Waiting(true) => ActionView::WaitAfterPause(1),
            LoopView::Reading(path) => ActionView::ReadEvent(path),
            LoopView::Inspecting(path, _) => ActionView::Inspect(path),
            LoopView::Refreshing(path, _, _) => ActionView::Refresh(path),
            LoopView::Reassociating(path, _, _) => ActionView::Associate(
                path,
                cookie_of(path),
                events_to_watch(),
            ),
            LoopView::Rescanning(scan) => scan.action(),
            LoopView::Buffering(event) => ActionView::Buffer(event),
        }
    }

    /// The loop after the port gave an event: one that comes from no file, or whose cookie stands
    /// for no path, is passed over.
    pub open spec fn received<H, E>(table: WatchersView<H>, event: PortEvent) -> LoopNext<E> {
        if event.is_file && table.cookies.contains_key(event.cookie) {
            LoopNext::On(LoopView::Reading(table.cookies[event.cookie]))
        } else {
            LoopNext::On(LoopView::Waiting(false))
        }
    }

    /// The loop and the table once it is known whether `path`, for which an event came, is a
    /// directory.
    pub open spec fn inspected<H, E>(
        table: WatchersView<H>,
        path: Seq<char>,
        file_events: FileEvents,
        is_dir: bool,
    ) -> (LoopNext<E>, WatchersView<H>) {
        if file_events.deleted {
            (buffering(path, EventPortEventType::Deleted, is_dir), forgotten(table, path))
        } else if file_events.renamed_from {
            (buffering(path, EventPortEventType::Renamed, is_dir), forgotten(table, path))
        } else if table.watches(path) {
            (LoopNext::On(LoopView::Refreshing(path, file_events, is_dir)), table)
        } else {
            (LoopNext::On(LoopView::Waiting(false)), table)
        }
    }

    /// The loop when the handle of `path` is associated again. A directory that was modified is
    /// rescanned, and has no event of its own.
    pub open spec fn reassociated<E>(
        path: Seq<char>,
        file_events: FileEvents,
        is_dir: bool,
    ) -> LoopNext<E> {
        if is_dir && file_events.modified {
            LoopNext::On(LoopView::Rescanning(RescanView::start(path)))
        } else if is_dir {
            LoopNext::On(LoopView::Waiting(false))
        } else {
            buffering(path, EventPortEventType::Modified, false)
        }
    }

    /// The loop and the table after a reply.
    pub open spec fn next<H, E>(self, table: WatchersView<H>, reply: Reply<H, E>) -> (
        LoopNext<E>,
        WatchersView<H>,
    ) {
        match (self, reply) {
            (LoopView::Starting(walk), _) => {
                let next_table = walk.table(table, reply);
                (
                    match walk.next(reply) {
                        WalkNext::On(next) => LoopNext::On(LoopView::Starting(next)),
                        WalkNext::End(Err(e)) => LoopNext::Stop(StopReason::SetupFailed(e)),
                        WalkNext::End(Ok(_)) => if next_table.entries.len() == 0 {
                            LoopNext::Stop(StopReason::NothingWatched)
                        } else {
                            LoopNext::On(LoopView::Waiting(false))
                        },
                    },
                    next_table,
                )
            },
            (LoopView::Waiting(_), Reply::Received(Ok(event))) => (
                LoopView::received(table, event),
                table,
            ),
            (LoopView::Waiting(_), Reply::Received(Err(errno))) => (
                LoopNext::On(LoopView::Waiting(errno != Some(4i32))),
                table,
            ),
            (LoopView::Reading(path), Reply::EventRead(file_events)) => (
                match file_events {
                    Some(file_events) => LoopNext::On(LoopView::Inspecting(path, file_events)),
                    None => LoopNext::On(LoopView::Waiting(false)),
                },
                table,
            ),
            (LoopView::Inspecting(path, file_events), Reply::Inspected(is_dir)) => {
                LoopView::inspected(table, path, file_events, is_dir matches Ok(dir) && dir)
            },
            (LoopView::Refreshing(path, file_events, is_dir), Reply::Refreshed(Ok(_))) => (
                LoopNext::On(LoopView::Reassociating(path, file_events, is_dir)),
                table,
            ),
            (LoopView::Refreshing(path, file_events, is_dir), Reply::Refreshed(Err(_))) => (
                buffering(path, EventPortEventType::Deleted, is_dir),
                forgotten(table, path),
            ),
            (LoopView::Reassociating(path, file_events, is_dir), _) => (
                LoopView::reassociated(path, file_events, is_dir),
                table,
            ),
            (LoopView::Rescanning(scan), _) => (
                match scan.next(table, reply).0 {
                    RescanNext::On(next) => LoopNext::On(LoopView::Rescanning(next)),
                    RescanNext::End(_) => LoopNext::On(LoopView::Waiting(false)),
                },
                scan.next(table, reply).1,
            ),
            (LoopView::Buffering(_), Reply::Buffered(Ok(_))) => (
                LoopNext::On(LoopView::Waiting(false)),
                table,
            ),
            (LoopView::Buffering(_), Reply::Buffered(Err(e))) => (
                LoopNext::Stop(StopReason::BufferLost(e)),
                table,
            ),
            _ => (LoopNext::On(self), table),
        }
    }
}

/// What the loop is at.
enum LoopPhase {
    Starting(Walk),
    Waiting(bool),
    Reading(String),
    Inspecting(String, FileEvents),
    Refreshing(String, FileEvents, bool),
    Reassociating(String, FileEvents, bool),
    Rescanning(Rescan),
    Buffering(PendingEvent),
}

/// The loop that takes the port's events: it watches the project, and turns each event into what
/// the buffer is to hold.
pub struct EventLoop {
    phase: LoopPhase,
}

impl View for EventLoop {
    type V = LoopView;

    closed spec fn view(&self) -> LoopView {
        match self.phase {
            LoopPhase::Starting(walk) => LoopView::Starting(walk@),
            LoopPhase::Waiting(pause) => LoopView::Waiting(pause),
            LoopPhase::Reading(path) => LoopView::Reading(path@),
            LoopPhase::Inspecting(path, file_events) => LoopView::Inspecting(path@, file_events),
            LoopPhase::Refreshing(path, file_events, is_dir) => LoopView::Refreshing(
                path@,
                file_events,
                is_dir,
            ),
            LoopPhase::Reassociating(path, file_events, is_dir) => LoopView::Reassociating(
                path@,
                file_events,
                is_dir,
            ),
            LoopPhase::Rescanning(scan) => LoopView::Rescanning(scan@),
            LoopPhase::Buffering(event) => LoopView::Buffering(event@),
        }
    }
}

impl EventLoop {
    /// A rescan, where there is one, is well formed.
    pub closed spec fn wf(&self) -> bool {
        self.phase matches LoopPhase::Rescanning(scan) ==> scan.wf()
    }

    /// The loop for the project at `root`.
    pub fn start(root: &str) -> (r: EventLoop)
        ensures
            r.wf(),
            r@ == LoopView::Starting(WalkView::start(root@)),
    {
        EventLoop { phase: LoopPhase::Starting(Walk::start(root)) }
    }

    /// What is to be done next.
    pub fn action(&self) -> (r: Action)
        requires
            self.wf(),
        ensures
            r@ == self@.action(),
    {
        match &self.phase {
            LoopPhase::Starting(walk) => walk.action(),
            LoopPhase::Waiting(pause) => if *pause {
                Action::WaitAfterPause(pause_seconds())
            } else {
                Action::Wait
            },
            LoopPhase::Reading(path) => Action::ReadEvent(path.clone()),
            LoopPhase::Inspecting(path, _) => Action::Inspect(path.clone()),
            LoopPhase::Refreshing(path, _, _) => Action::Refresh(path.clone()),
            LoopPhase::Reassociating(path, _, _) => {
                let cookie: u64 = path_to_cookie(path.as_str());
                Action::Associate(path.clone(), cookie, watched_events())
            },
            LoopPhase::Rescanning(scan) => scan.action(),
            LoopPhase::Buffering(event) => Action::Buffer(event.clone()),
        }
    }

    /// Takes what came of the last action, and says why the loop stopped, if it did.
    pub fn step<H, E>(&mut self, table: &mut Watchers<H>, reply: Reply<H, E>) -> (r: Option<
        StopReason<E>,
    >)
        requires
            old(self).wf(),
            old(table).wf(),
            answers(old(self)@.action(), reply),
        ensures
            final(self).wf(),
            final(table).wf(),
            final(table)@ == old(self)@.next(old(table)@, reply).1,
            match old(self)@.next(old(table)@, reply).0 {
                LoopNext::On(next) => r is None && final(self)@ == next,
                LoopNext::Stop(reason) => r == Some(reason),
            },
    {
        let mut phase = LoopPhase::Waiting(false);
        std::mem::swap(&mut self.phase, &mut phase);
        match phase {
            LoopPhase::Starting(walk) => {
                let mut walk = walk;
                match walk.step(table, reply) {
                    None => {
                        self.phase = LoopPhase::Starting(walk);
                        None
                    },
                    Some(Err(e)) => Some(StopReason::SetupFailed(e)),
                    Some(Ok(_)) => if table.is_empty() {
                        Some(StopReason::NothingWatched)
                    } else {
                        None
                    },
                }
            },
            LoopPhase::Waiting(_) => match reply {
                Reply::Received(Ok(event)) => {
                    if event.is_file {
                        // A cookie that stands for no path belongs to a file that is no longer
                        // watched, an event for which was still on its way; its handle may be gone.
                        if let Some(path) = table.find(event.cookie) {
                            self.phase = LoopPhase::Reading(path);
                        }
                    }
                    None
                },
                Reply::Received(Err(errno)) => {
                    let pause = match errno {
                        Some(n) => n != interrupted_errno(),
                        None => true,
                    };
                    self.phase = LoopPhase::Waiting(pause);
                    None
                },
                _ => None,
            },
            LoopPhase::Reading(path) => match reply {
                Reply::EventRead(Some(file_events)) => {
                    self.phase = LoopPhase::Inspecting(path, file_events);
                    None
                },
                _ => None,
            },
            LoopPhase::Inspecting(path, file_events) => match reply {
                Reply::Inspected(is_dir) => {
                    let is_dir = match is_dir {
                        Ok(dir) => dir,
                        Err(_) => false,
                    };
                    if file_events.deleted {
                        table.remove_watcher_recursive(path.as_str());
                        self.buffer(path, EventPortEventType::Deleted, is_dir);
                    } else if file_events.renamed_from {
                        table.remove_watcher_recursive(path.as_str());
                        self.buffer(path, EventPortEventType::Renamed, is_dir);
                    } else if table.contains(path.as_str()) {
                        self.phase = LoopPhase::Refreshing(path, file_events, is_dir);
                    }
                    None
                },
                _ => None,
            },
            LoopPhase::Refreshing(path, file_events, is_dir) => match reply {
                Reply::Refreshed(Ok(_)) => {
                    self.phase = LoopPhase::Reassociating(path, file_events, is_dir);
                    None
                },
                _ => {
                    table.remove_watcher_recursive(path.as_str());
                    self.buffer(path, EventPortEventType::Deleted, is_dir);
                    None
                },
            },
            LoopPhase::Reassociating(path, file_events, is_dir) => {
                if is_dir {
                    if file_events.modified {
                        self.phase = LoopPhase::Rescanning(Rescan::start(path.as_str()));
                    }
                } else {
                    self.buffer(path, EventPortEventType::Modified, false);
                }
                None
            },
            LoopPhase::Rescanning(scan) => {
                let mut scan = scan;
                match scan.step(table, reply) {
                    None => {
                        self.phase = LoopPhase::Rescanning(scan);
                    },
                    Some(_) => {},
                }
                None
            },
            LoopPhase::Buffering(_) => match reply {
                Reply::Buffered(Err(e)) => Some(StopReason::BufferLost(e)),
                _ => None,
            },
        }
    }

    /// Sends an event on its way to the buffer.
    fn buffer(&mut self, path: String, event_type: EventPortEventType, is_dir: bool)
        ensures
            final(self).wf(),
            final(self)@ == LoopView::Buffering(
                (PendingEventView { path: path@, event_type, is_dir }),
            ),
    {
        self.phase = LoopPhase::Buffering(PendingEvent { path, event_type, is_dir });
    }
}

/// Whether the table has the handle that the walk asks the port to take.
pub open spec fn walk_is_ready<H>(walk: WalkView, table: WatchersView<H>) -> bool {
    walk.phase is Open || table.watches(walk.current)
}

/// Whether the table has the handle that the loop asks about, and something is watched once the
/// first path of the project has its handle.
pub open spec fn is_ready<H>(state: LoopView, table: WatchersView<H>) -> bool {
    match state {
        LoopView::Starting(walk) => {
            &&& walk_is_ready(walk, table)
            &&& walk.is_top && walk.phase is Open || table.entries.len() > 0
        },
        LoopView::Reading(path)
        | LoopView::Refreshing(path, _, _)
        | LoopView::Reassociating(path, _, _) => table.watches(path),
        LoopView::Rescanning(scan) => match scan.phase {
            RescanPhaseView::Walking(_, _, walk) => walk_is_ready(walk, table),
            _ => true,
        },
        _ => true,
    }
}

/// Whenever the loop asks that a handle be refreshed or associated, or that an event which refers
/// to a handle be read, its path is watched, so the handle is the one in the table; and the loop
/// never finds that nothing is watched.
pub proof fn law_handles_are_in_the_table<H, E>(
    root: Seq<char>,
    state: LoopView,
    table: WatchersView<H>,
    reply: Reply<H, E>,
)
    requires
        table.wf(),
        is_ready(state, table),
        answers(state.action(), reply),
    ensures
        is_ready(LoopView::Starting(WalkView::start(root)), WatchersView::<H>::empty()),
        state.action() matches ActionView::Refresh(path) ==> table.watches(path),
        state.action() matches ActionView::ReadEvent(path) ==> table.watches(path),
        state.action() matches ActionView::Associate(path, cookie, _) ==> table.watches(path)
            && cookie == cookie_of(path),
        match state.next(table, reply).0 {
            LoopNext::On(next) => is_ready(next, state.next(table, reply).1),
            LoopNext::Stop(reason) => !(reason is NothingWatched),
        },
{
    if let Reply::Opened(Ok(handle)) = reply {
        match state {
            LoopView::Starting(walk) => {
                table.lemma_inserted_wf(walk.current, handle);
                assert(table.inserted(walk.current, handle).watches(walk.current));
            },
            LoopView::Rescanning(scan) => {
                if let RescanPhaseView::Walking(_, _, walk) = scan.phase {
                    table.lemma_inserted_wf(walk.current, handle);
                    assert(table.inserted(walk.current, handle).watches(walk.current));
                }
            },
            _ => {},
        }
    }
}

/// The loop stops while it starts, when the root cannot be watched, and after that only when the
/// buffer is lost: no error of the port or of the file system stops it.
pub proof fn law_loop_goes_on<H, E>(state: LoopView, table: WatchersView<H>, reply: Reply<H, E>)
    requires
        answers(state.action(), reply),
        !(state is Starting),
        !(reply matches Reply::Buffered(Err(_))),
    ensures
        state.next(table, reply).0 is On,
        state.next(table, reply).0 matches LoopNext::On(next) ==> !(next is Starting),
{
}

/// Whatever the loop is at, it associates every path, one that it comes to for the first time and
/// one for which an event came, for the same events: all but accesses.
pub proof fn law_every_path_is_watched_for_the_same_events(state: LoopView)
    ensures
        state.action() matches ActionView::Associate(path, cookie, events) ==> cookie == cookie_of(
            path,
        ) && events.modified && events.attributes && events.truncated && !events.accessed,
{
}

/// Whether nothing that the loop is about to send is the modification of a directory: a rescan
/// sends creations and deletions only.
pub open spec fn sends_no_directory_modification(state: LoopView) -> bool {
    match state {
        LoopView::Rescanning(scan) => match scan.phase {
            RescanPhaseView::Announcing(event) => event.event_type is Created,
            RescanPhaseView::Deleting(events) => {
                &&& events.len() > 0
                &&& forall|i: int|
                    0 <= i < events.len() ==> (#[trigger] events[i]).event_type is Deleted
            },
            _ => true,
        },
        LoopView::Buffering(event) => !(event.event_type is Modified && event.is_dir),
        _ => true,
    }
}

/// The modification of a directory is never sent to the buffer, neither by the loop itself nor by a
/// rescan: what changed within the directory is announced instead. It is so at the start, and every
/// reply keeps it so.
pub proof fn law_directory_modification_is_not_buffered<H, E>(
    root: Seq<char>,
    state: LoopView,
    table: WatchersView<H>,
    reply: Reply<H, E>,
)
    requires
        sends_no_directory_modification(state),
        answers(state.action(), reply),
    ensures
        sends_no_directory_modification(LoopView::Starting(WalkView::start(root))),
        state.action() matches ActionView::Buffer(event) ==> !(event.event_type is Modified
            && event.is_dir),
        state.next(table, reply).0 matches LoopNext::On(next) ==> sends_no_directory_modification(
            next,
        ),
{
}

/// An event that was on its way when its path was forgotten is passed over.
pub proof fn law_late_events_are_passed_over<H, E>(
    table: WatchersView<H>,
    path: Seq<char>,
    p: Seq<char>,
    event: PortEvent,
)
    requires
        table.wf(),
        path.len() > 0,
        table.watches(p) && starts_with(p, path) || same_path(p, path),
        event.cookie == cookie_of(p),
    ensures
        LoopView::received::<H, E>(forgotten(table, path), event) == LoopNext::<E>::On(
            LoopView::Waiting(false),
        ),
{
    let next = forgotten(table, path);
    if same_path(p, path) {
        assert(table.tree_cookies(path).contains(event.cookie));
    } else {
        let i = table.index(p);
        assert(same_path(table.entries[i].0, p));
        assert(starts_with(table.entries[i].0, path));
        assert(table.tree_cookies(path).contains(event.cookie));
    }
    assert(!next.cookies.contains_key(event.cookie));
}

/// An event for a watched path that is found by its cookie is not passed over.
pub proof fn law_events_of_watched_paths_are_taken<H, E>(
    table: WatchersView<H>,
    i: int,
    event: PortEvent,
)
    requires
        is_findable(table),
        0 <= i < table.entries.len(),
        event.is_file,
        event.cookie == cookie_of(table.entries[i].0),
    ensures
        LoopView::received::<H, E>(table, event) matches LoopNext::On(LoopView::Reading(path))
            && same_path(path, table.entries[i].0),
{
}

/// What the loop asks for while it gets these replies, and after the last of them; where it then
/// stands, and the table it leaves. It comes to a halt at a reply that does not answer.
pub open spec fn run_loop<H, E>(
    state: LoopView,
    table: WatchersView<H>,
    script: Seq<Reply<H, E>>,
) -> (Seq<ActionView>, LoopNext<E>, WatchersView<H>)
    decreases script.len(),
{
    if script.len() == 0 || !answers(state.action(), script[0]) {
        (seq![state.action()], LoopNext::On(state), table)
    } else {
        let (next, next_table) = state.next(table, script[0]);
        match next {
            LoopNext::Stop(reason) => (seq![state.action()], LoopNext::Stop(reason), next_table),
            LoopNext::On(on) => {
                let rest = run_loop(on, next_table, script.skip(1));
                (seq![state.action()] + rest.0, rest.1, rest.2)
            },
        }
    }
}

/// One step of a run that goes on.
proof fn lemma_loop_step<H, E>(
    state: LoopView,
    table: WatchersView<H>,
    reply: Reply<H, E>,
    rest: Seq<Reply<H, E>>,
)
    requires
        answers(state.action(), reply),
        state.next(table, reply).0 is On,
    ensures
        ({
            let (next, next_table) = state.next(table, reply);
            let later = run_loop(next->On_0, next_table, rest);
            run_loop(state, table, seq![reply] + rest) == (
                seq![state.action()] + later.0,
                later.1,
                later.2,
            )
        }),
{
    assert((seq![reply] + rest).skip(1) =~= rest);
}

/// The beginning of every run for a path that is found by its cookie.
proof fn lemma_loop_event<H, E>(
    pause: bool,
    table: WatchersView<H>,
    cookie: u64,
    file_events: FileEvents,
    found: Result<bool, E>,
    rest: Seq<Reply<H, E>>,
)
    requires
        table.cookies.contains_key(cookie),
    ensures
        ({
            let path = table.cookies[cookie];
            let told = LoopView::Inspecting(path, file_events);
            let later = run_loop(told, table, seq![Reply::<H, E>::Inspected(found)] + rest);
            run_loop(
                LoopView::Waiting(pause),
                table,
                seq![
                    Reply::Received(Ok(PortEvent { is_file: true, cookie })),
                    Reply::EventRead(Some(file_events)),
                    Reply::Inspected(found),
                ] + rest,
            ) == (
                seq![LoopView::Waiting(pause).action(), ActionView::ReadEvent(path)] + later.0,
                later.1,
                later.2,
            )
        }),
{
    let path = table.cookies[cookie];
    let received = Reply::<H, E>::Received(Ok(PortEvent { is_file: true, cookie }));
    let read = Reply::<H, E>::EventRead(Some(file_events));
    let last = seq![Reply::<H, E>::Inspected(found)] + rest;
    let tail = seq![read] + last;
    assert(seq![received, read, Reply::<H, E>::Inspected(found)] + rest =~= seq![received] + tail);
    lemma_loop_step(LoopView::Waiting(pause), table, received, tail);
    lemma_loop_step(LoopView::Reading(path), table, read, last);
    let later = run_loop(LoopView::Inspecting(path, file_events), table, last);
    assert(seq![LoopView::Waiting(pause).action()] + (seq![ActionView::ReadEvent(path)] + later.0)
        =~= seq![LoopView::Waiting(pause).action(), ActionView::ReadEvent(path)] + later.0);
}

/// Whether `next` is `table` without what is at or below `path`, with all else as it was. The empty
/// path, below which everything lies, takes nothing away.
pub open spec fn is_without_tree<H>(
    table: WatchersView<H>,
    next: WatchersView<H>,
    path: Seq<char>,
) -> bool {
    &&& path.len() == 0 ==> next == table
    &&& path.len() > 0 ==> {
        &&& next.wf()
        &&& forall|p: Seq<char>| #[trigger]
            next.watches(p) <==> table.watches(p) && !starts_with(p, path)
        &&& forall|e: (Seq<char>, H)| #[trigger]
            next.entries.contains(e) <==> table.entries.contains(e) && !starts_with(e.0, path)
        &&& keeps_order(table.entries, next.entries)
        &&& forall|c: u64| #[trigger]
            next.cookies.contains_key(c) <==> table.cookies.contains_key(c) && c != cookie_of(path)
                && forall|i: int|
                0 <= i < table.entries.len() && starts_with((#[trigger] table.entries[i]).0, path)
                    ==> c != cookie_of(table.entries[i].0)
        &&& forall|c: u64| #[trigger]
            next.cookies.contains_key(c) ==> next.cookies[c] == table.cookies[c] && !starts_with(
                next.cookies[c],
                path,
            )
    }
}

/// What is forgotten is gone, and nothing else.
proof fn lemma_forgotten<H>(table: WatchersView<H>, path: Seq<char>)
    requires
        table.wf(),
    ensures
        is_without_tree(table, forgotten(table, path), path),
{
    if path.len() > 0 {
        table.lemma_without_tree_wf(path);
        law_forgetting_takes_nothing_else(table, path);
        law_forgotten_is_gone(table, path);
    }
}

/// A run through the answer of the buffer.
proof fn lemma_loop_buffered<H, E>(event: PendingEventView, table: WatchersView<H>)
    ensures
        run_loop(LoopView::Buffering(event), table, seq![Reply::<H, E>::Buffered(Ok(()))]) == (
            seq![ActionView::Buffer(event), ActionView::Wait],
            LoopNext::<E>::On(LoopView::Waiting(false)),
            table,
        ),
{
    let sent = Reply::<H, E>::Buffered(Ok(()));
    assert(seq![sent] =~= seq![sent] + Seq::empty());
    lemma_loop_step(LoopView::Buffering(event), table, sent, Seq::empty());
    assert(seq![ActionView::Buffer(event)] + seq![ActionView::Wait] =~= seq![
        ActionView::Buffer(event),
        ActionView::Wait,
    ]);
}

/// What is asked for when a handle is to be associated again.
spec fn association(path: Seq<char>) -> ActionView {
    ActionView::Associate(
        path,
        cookie_of(path),
        WatchedEvents { modified: true, attributes: true, truncated: true, accessed: false },
    )
}

/// A run from the association of a file's handle on.
proof fn lemma_loop_associated<H, E>(
    path: Seq<char>,
    file_events: FileEvents,
    table: WatchersView<H>,
    associated: Result<(), E>,
)
    ensures
        run_loop(
            LoopView::Reassociating(path, file_events, false),
            table,
            seq![Reply::<H, E>::Associated(associated), Reply::Buffered(Ok(()))],
        ) == (
            seq![
                association(path),
                ActionView::Buffer(
                    PendingEventView {
                        path,
                        event_type: EventPortEventType::Modified,
                        is_dir: false,
                    },
                ),
                ActionView::Wait,
            ],
            LoopNext::<E>::On(LoopView::Waiting(false)),
            table,
        ),
{
    let taken = Reply::<H, E>::Associated(associated);
    let sent = Reply::<H, E>::Buffered(Ok(()));
    let event = PendingEventView { path, event_type: EventPortEventType::Modified, is_dir: false };
    let again = LoopView::Reassociating(path, file_events, false);
    assert(seq![taken, sent] =~= seq![taken] + seq![sent]);
    assert(again.next(table, taken) == (LoopNext::<E>::On(LoopView::Buffering(event)), table));
    lemma_loop_step(again, table, taken, seq![sent]);
    lemma_loop_buffered::<H, E>(event, table);
    assert(seq![association(path)] + seq![ActionView::Buffer(event), ActionView::Wait] =~= seq![
        association(path),
        ActionView::Buffer(event),
        ActionView::Wait,
    ]);
}

/// A run through the answers that a path is there and that its handle is fresh.
proof fn lemma_loop_refreshed<H, E>(
    path: Seq<char>,
    file_events: FileEvents,
    table: WatchersView<H>,
    found: Result<bool, E>,
    rest: Seq<Reply<H, E>>,
)
    requires
        !file_events.deleted,
        !file_events.renamed_from,
        table.watches(path),
    ensures
        ({
            let is_dir = found == Ok::<bool, E>(true);
            let later = run_loop(LoopView::Reassociating(path, file_events, is_dir), table, rest);
            run_loop(
                LoopView::Inspecting(path, file_events),
                table,
                seq![Reply::<H, E>::Inspected(found)] + (seq![Reply::<H, E>::Refreshed(Ok(()))]
                    + rest),
            ) == (
                seq![ActionView::Inspect(path), ActionView::Refresh(path)] + later.0,
                later.1,
                later.2,
            )
        }),
{
    let is_dir = found == Ok::<bool, E>(true);
    let fresh = Reply::<H, E>::Refreshed(Ok(()));
    let told = LoopView::Inspecting(path, file_events);
    let refreshing = LoopView::Refreshing(path, file_events, is_dir);
    assert(told.next(table, Reply::<H, E>::Inspected(found)) == (
        LoopNext::<E>::On(refreshing),
        table,
    ));
    lemma_loop_step(told, table, Reply::<H, E>::Inspected(found), seq![fresh] + rest);
    lemma_loop_step(refreshing, table, fresh, rest);
    let later = run_loop(LoopView::Reassociating(path, file_events, is_dir), table, rest);
    assert(seq![ActionView::Inspect(path)] + (seq![ActionView::Refresh(path)] + later.0) =~= seq![
        ActionView::Inspect(path),
        ActionView::Refresh(path),
    ] + later.0);
}

/// An event that says that its path was deleted, or that it was renamed and not deleted, is sent on
/// as a deletion or as a rename of that path, and as what the path was found to be; whatever the
/// path is, it and all below it are no longer watched, and all else is. The loop then waits again.
pub proof fn law_deleted_and_renamed_paths<H, E>(
    pause: bool,
    table: WatchersView<H>,
    cookie: u64,
    file_events: FileEvents,
    found: Result<bool, E>,
)
    requires
        table.wf(),
        table.cookies.contains_key(cookie),
        file_events.deleted || file_events.renamed_from,
    ensures
        ({
            let path = table.cookies[cookie];
            let (asked, end, next) = run_loop(
                LoopView::Waiting(pause),
                table,
                seq![
                    Reply::Received(Ok(PortEvent { is_file: true, cookie })),
                    Reply::EventRead(Some(file_events)),
                    Reply::Inspected(found),
                    Reply::Buffered(Ok(())),
                ],
            );
            &&& asked.skip(1) == seq![
                ActionView::ReadEvent(path),
                ActionView::Inspect(path),
                ActionView::Buffer(
                    PendingEventView {
                        path,
                        event_type: if file_events.deleted {
                            EventPortEventType::Deleted
                        } else {
                            EventPortEventType::Renamed
                        },
                        is_dir: found == Ok::<bool, E>(true),
                    },
                ),
                ActionView::Wait,
            ]
            &&& end == LoopNext::<E>::On(LoopView::Waiting(false))
            &&& is_without_tree(table, next, path)
        }),
{
    let path = table.cookies[cookie];
    let event = PendingEventView {
        path,
        event_type: if file_events.deleted {
            EventPortEventType::Deleted
        } else {
            EventPortEventType::Renamed
        },
        is_dir: found == Ok::<bool, E>(true),
    };
    let told = LoopView::Inspecting(path, file_events);
    let sent = Reply::<H, E>::Buffered(Ok(()));
    let next = forgotten(table, path);
    lemma_forgotten(table, path);
    lemma_loop_event(pause, table, cookie, file_events, found, seq![sent]);
    assert(told.next(table, Reply::<H, E>::Inspected(found)) == (
        LoopNext::<E>::On(LoopView::Buffering(event)),
        next,
    ));
    lemma_loop_step(told, table, Reply::<H, E>::Inspected(found), seq![sent]);
    lemma_loop_buffered::<H, E>(event, next);
    let script = seq![
        Reply::<H, E>::Received(Ok(PortEvent { is_file: true, cookie })),
        Reply::EventRead(Some(file_events)),
        Reply::Inspected(found),
    ];
    assert(script + seq![sent] =~= seq![script[0], script[1], script[2], sent]);
    let asked = seq![LoopView::Waiting(pause).action(), ActionView::ReadEvent(path)] + (seq![
        ActionView::Inspect(path),
    ] + seq![ActionView::Buffer(event), ActionView::Wait]);
    assert(asked.skip(1) =~= seq![
        ActionView::ReadEvent(path),
        ActionView::Inspect(path),
        ActionView::Buffer(event),
        ActionView::Wait,
    ]);
}

/// An event for a file that was neither deleted nor renamed: its handle is refreshed and associated
/// again, and the file is sent on as modified, whether the port took the handle or not. Nothing
/// changes in the table.
pub proof fn law_changed_files<H, E>(
    pause: bool,
    table: WatchersView<H>,
    cookie: u64,
    file_events: FileEvents,
    found: Result<bool, E>,
    associated: Result<(), E>,
)
    requires
        table.wf(),
        table.cookies.contains_key(cookie),
        !file_events.deleted,
        !file_events.renamed_from,
        found != Ok::<bool, E>(true),
    ensures
        ({
            let path = table.cookies[cookie];
            let (asked, end, next) = run_loop(
                LoopView::Waiting(pause),
                table,
                seq![
                    Reply::Received(Ok(PortEvent { is_file: true, cookie })),
                    Reply::EventRead(Some(file_events)),
                    Reply::Inspected(found),
                    Reply::Refreshed(Ok(())),
                    Reply::Associated(associated),
                    Reply::Buffered(Ok(())),
                ],
            );
            &&& asked.skip(1) == seq![
                ActionView::ReadEvent(path),
                ActionView::Inspect(path),
                ActionView::Refresh(path),
                ActionView::Associate(
                    path,
                    cookie,
                    WatchedEvents {
                        modified: true,
                        attributes: true,
                        truncated: true,
                        accessed: false,
                    },
                ),
                ActionView::Buffer(
                    PendingEventView {
                        path,
                        event_type: EventPortEventType::Modified,
                        is_dir: false,
                    },
                ),
                ActionView::Wait,
            ]
            &&& end == LoopNext::<E>::On(LoopView::Waiting(false))
            &&& next == table
        }),
{
    let path = table.cookies[cookie];
    let event = PendingEventView { path, event_type: EventPortEventType::Modified, is_dir: false };
    let fresh = Reply::<H, E>::Refreshed(Ok(()));
    let taken = Reply::<H, E>::Associated(associated);
    let sent = Reply::<H, E>::Buffered(Ok(()));
    let rest = seq![fresh] + seq![taken, sent];
    assert(table.watches(path));
    lemma_loop_event(pause, table, cookie, file_events, found, rest);
    lemma_loop_refreshed(path, file_events, table, found, seq![taken, sent]);
    lemma_loop_associated(path, file_events, table, associated);
    let script = seq![
        Reply::<H, E>::Received(Ok(PortEvent { is_file: true, cookie })),
        Reply::EventRead(Some(file_events)),
        Reply::Inspected(found),
    ];
    assert(script + rest =~= seq![script[0], script[1], script[2], fresh, taken, sent]);
    let asked = seq![LoopView::Waiting(pause).action(), ActionView::ReadEvent(path)] + (seq![
        ActionView::Inspect(path),
        ActionView::Refresh(path),
    ] + seq![association(path), ActionView::Buffer(event), ActionView::Wait]);
    assert(asked.skip(1) =~= seq![
        ActionView::ReadEvent(path),
        ActionView::Inspect(path),
        ActionView::Refresh(path),
        association(path),
        ActionView::Buffer(event),
        ActionView::Wait,
    ]);
}

/// An event for a directory that was neither deleted nor renamed: its handle is refreshed and
/// associated again, and nothing is sent on for the directory itself. If it was modified, a rescan
/// of it begins, with its listing; if not, the loop waits again. Nothing changes in the table.
pub proof fn law_changed_directories<H, E>(
    pause: bool,
    table: WatchersView<H>,
    cookie: u64,
    file_events: FileEvents,
    associated: Result<(), E>,
)
    requires
        table.wf(),
        table.cookies.contains_key(cookie),
        !file_events.deleted,
        !file_events.renamed_from,
    ensures
        ({
            let path = table.cookies[cookie];
            let (asked, end, next) = run_loop(
                LoopView::Waiting(pause),
                table,
                seq![
                    Reply::Received(Ok(PortEvent { is_file: true, cookie })),
                    Reply::EventRead(Some(file_events)),
                    Reply::Inspected(Ok(true)),
                    Reply::Refreshed(Ok(())),
                    Reply::Associated(associated),
                ],
            );
            &&& asked.skip(1) == seq![
                ActionView::ReadEvent(path),
                ActionView::Inspect(path),
                ActionView::Refresh(path),
                ActionView::Associate(
                    path,
                    cookie,
                    WatchedEvents {
                        modified: true,
                        attributes: true,
                        truncated: true,
                        accessed: false,
                    },
                ),
                if file_events.modified {
                    ActionView::List(path)
                } else {
                    ActionView::Wait
                },
            ]
            &&& end == LoopNext::<E>::On(
                if file_events.modified {
                    LoopView::Rescanning(RescanView::start(path))
                } else {
                    LoopView::Waiting(false)
                },
            )
            &&& next == table
        }),
{
    let path = table.cookies[cookie];
    let found = Ok::<bool, E>(true);
    let fresh = Reply::<H, E>::Refreshed(Ok(()));
    let taken = Reply::<H, E>::Associated(associated);
    let rest = seq![fresh] + seq![taken];
    let again = LoopView::Reassociating(path, file_events, true);
    let last = if file_events.modified {
        LoopView::Rescanning(RescanView::start(path))
    } else {
        LoopView::Waiting(false)
    };
    assert(table.watches(path));
    lemma_loop_event(pause, table, cookie, file_events, found, rest);
    lemma_loop_refreshed(path, file_events, table, found, seq![taken]);
    assert(seq![taken] =~= seq![taken] + Seq::empty());
    assert(again.next(table, taken) == (LoopNext::<E>::On(last), table));
    lemma_loop_step(again, table, taken, Seq::empty());
    let script = seq![
        Reply::<H, E>::Received(Ok(PortEvent { is_file: true, cookie })),
        Reply::EventRead(Some(file_events)),
        Reply::Inspected(found),
    ];
    assert(script + rest =~= seq![script[0], script[1], script[2], fresh, taken]);
    let asked = seq![LoopView::Waiting(pause).action(), ActionView::ReadEvent(path)] + (seq![
        ActionView::Inspect(path),
        ActionView::Refresh(path),
    ] + (seq![association(path)] + seq![last.action()]));
    assert(asked.skip(1) =~= seq![
        ActionView::ReadEvent(path),
        ActionView::Inspect(path),
        ActionView::Refresh(path),
        association(path),
        last.action(),
    ]);
}

/// A path whose handle cannot be refreshed counts as deleted, whatever its event said: its deletion
/// is sent on, and it and all below it are no longer watched.
pub proof fn law_paths_that_cannot_be_refreshed<H, E>(
    pause: bool,
    table: WatchersView<H>,
    cookie: u64,
    file_events: FileEvents,
    found: Result<bool, E>,
    error: E,
)
    requires
        table.wf(),
        table.cookies.contains_key(cookie),
        !file_events.deleted,
        !file_events.renamed_from,
    ensures
        ({
            let path = table.cookies[cookie];
            let (asked, end, next) = run_loop(
                LoopView::Waiting(pause),
                table,
                seq![
                    Reply::Received(Ok(PortEvent { is_file: true, cookie })),
                    Reply::EventRead(Some(file_events)),
                    Reply::Inspected(found),
                    Reply::Refreshed(Err(error)),
                    Reply::Buffered(Ok(())),
                ],
            );
            &&& asked.skip(1) == seq![
                ActionView::ReadEvent(path),
                ActionView::Inspect(path),
                ActionView::Refresh(path),
                ActionView::Buffer(
                    PendingEventView {
                        path,
                        event_type: EventPortEventType::Deleted,
                        is_dir: found == Ok::<bool, E>(true),
                    },
                ),
                ActionView::Wait,
            ]
            &&& end == LoopNext::<E>::On(LoopView::Waiting(false))
            &&& is_without_tree(table, next, path)
        }),
{
    let path = table.cookies[cookie];
    let is_dir = found == Ok::<bool, E>(true);
    let event = PendingEventView { path, event_type: EventPortEventType::Deleted, is_dir };
    let told = LoopView::Inspecting(path, file_events);
    let refreshing = LoopView::Refreshing(path, file_events, is_dir);
    let stale = Reply::<H, E>::Refreshed(Err(error));
    let sent = Reply::<H, E>::Buffered(Ok(()));
    let rest = seq![stale] + seq![sent];
    let next = forgotten(table, path);
    lemma_forgotten(table, path);
    assert(table.watches(path));
    lemma_loop_event(pause, table, cookie, file_events, found, rest);
    assert(told.next(table, Reply::<H, E>::Inspected(found)) == (
        LoopNext::<E>::On(refreshing),
        table,
    ));
    lemma_loop_step(told, table, Reply::<H, E>::Inspected(found), rest);
    assert(refreshing.next(table, stale) == (
        LoopNext::<E>::On(LoopView::Buffering(event)),
        next,
    ));
    lemma_loop_step(refreshing, table, stale, seq![sent]);
    lemma_loop_buffered::<H, E>(event, next);
    let script = seq![
        Reply::<H, E>::Received(Ok(PortEvent { is_file: true, cookie })),
        Reply::EventRead(Some(file_events)),
        Reply::Inspected(found),
    ];
    assert(script + rest =~= seq![script[0], script[1], script[2], stale, sent]);
    let asked = seq![LoopView::Waiting(pause).action(), ActionView::ReadEvent(path)] + (seq![
        ActionView::Inspect(path),
    ] + (seq![ActionView::Refresh(path)] + seq![ActionView::Buffer(event), ActionView::Wait]));
    assert(asked.skip(1) =~= seq![
        ActionView::ReadEvent(path),
        ActionView::Inspect(path),
        ActionView::Refresh(path),
        ActionView::Buffer(event),
        ActionView::Wait,
    ]);
}

/// What the loop makes of the port's answers. It waits at once, or a second after an error other
/// than an interruption by a signal. An event of a file whose cookie stands for a path is read, as
/// one for that path; any other event is passed over, and so is one that says nothing. None of this
/// changes the table.
pub proof fn law_answers_of_the_port<H, E>(
    pause: bool,
    table: WatchersView<H>,
    answer: Result<PortEvent, Option<i32>>,
    path: Seq<char>,
)
    ensures
        LoopView::Waiting(pause).action() == (if pause {
            ActionView::WaitAfterPause(1)
        } else {
            ActionView::Wait
        }),
        ({
            let (after, next) = LoopView::Waiting(pause).next(table, Reply::<H, E>::Received(answer));
            &&& next == table
            &&& after matches LoopNext::On(on)
            &&& on.action() == match answer {
                Ok(event) => if event.is_file && table.cookies.contains_key(event.cookie) {
                    ActionView::ReadEvent(table.cookies[event.cookie])
                } else {
                    ActionView::Wait
                },
                Err(Some(4i32)) => ActionView::Wait,
                Err(_) => ActionView::WaitAfterPause(1),
            }
        }),
        LoopView::Reading(path).next(table, Reply::<H, E>::EventRead(None)) == (
            LoopNext::<E>::On(LoopView::Waiting(false)),
            table,
        ),
{
}

/// The loop begins with a walk over the project, and a rescan runs within it as on its own: it asks
/// for what they ask for, and the table becomes what they make of it. A walk that failed stops the
/// loop with its error, one that left nothing watched stops it too, and otherwise it waits; behind a
/// rescan it waits, however that ended. An event of its own that the buffer did not get stops it.
pub proof fn law_walks_and_rescans_run_within_the_loop<H, E>(
    walk: WalkView,
    scan: RescanView,
    event: PendingEventView,
    table: WatchersView<H>,
    reply: Reply<H, E>,
    error: E,
)
    ensures
        LoopView::Starting(walk).action() == walk.action(),
        answers(walk.action(), reply) ==> {
            let (after, next) = LoopView::Starting(walk).next(table, reply);
            &&& next == walk.table(table, reply)
            &&& after == match walk.next(reply) {
                WalkNext::On(on) => LoopNext::On(LoopView::Starting(on)),
                WalkNext::End(Err(e)) => LoopNext::Stop(StopReason::SetupFailed(e)),
                WalkNext::End(Ok(_)) => if next.entries.len() > 0 {
                    LoopNext::On(LoopView::Waiting(false))
                } else {
                    LoopNext::Stop(StopReason::NothingWatched)
                },
            }
        },
        LoopView::Rescanning(scan).action() == scan.action(),
        answers(scan.action(), reply) ==> {
            let (after, next) = LoopView::Rescanning(scan).next(table, reply);
            &&& next == scan.next(table, reply).1
            &&& scan.next(table, reply).0 matches RescanNext::On(on) ==> after == LoopNext::<E>::On(
                LoopView::Rescanning(on),
            )
            &&& scan.next(table, reply).0 is End ==> after == LoopNext::<E>::On(
                LoopView::Waiting(false),
            )
        },
        LoopView::Buffering(event).action() == ActionView::Buffer(event),
        LoopView::Buffering(event).next(table, Reply::<H, E>::Buffered(Err(error))) == (
            LoopNext::<E>::Stop(StopReason::BufferLost(error)),
            table,
        ),
{
}

/// An event for a path that is not watched, and that was neither deleted nor renamed, is passed
/// over: its handle, which is not there, is not asked for.
pub proof fn law_unwatched_paths_are_passed_over<H, E>(
    table: WatchersView<H>,
    path: Seq<char>,
    file_events: FileEvents,
    found: Result<bool, E>,
)
    requires
        !file_events.deleted,
        !file_events.renamed_from,
        !table.watches(path),
    ensures
        LoopView::Inspecting(path, file_events).next(table, Reply::<H, E>::Inspected(found)) == (
            LoopNext::<E>::On(LoopView::Waiting(false)),
            table,
        ),
{
}

} // verus!
