//! Bringing the table up to date with what a directory now holds.
use crate::event::{EventPortEventType, PendingEvent, PendingEventView};
use crate::path::{
    components, is_below, path_ancestors, path_is_below, paths_equal, Component,
};
use crate::port::{
    answers, found_paths, pending_views, texts, Action, ActionView, DirEntry, Reply,
};
use crate::walk::{Walk, WalkNext, WalkView};
use crate::watchers::{Watchers, WatchersView};
use vstd::prelude::*;

verus! {

/// Whether one of the listed paths has these components.
pub open spec fn is_listed(listed: Seq<Seq<char>>, parts: Seq<Component>) -> bool {
    exists|i: int| 0 <= i < listed.len() && components(#[trigger] listed[i]) == parts
}

/// Whether `path` lies below `dir` and is no longer there: neither it nor any path between `dir`
/// and it is listed.
pub open spec fn is_stale(path: Seq<char>, dir: Seq<char>, listed: Seq<Seq<char>>) -> bool {
    &&& is_below(path, dir)
    &&& forall|n: int|
        components(dir).len() < n <= components(path).len() ==> !is_listed(
            listed,
            #[trigger] components(path).take(n),
        )
}

/// Whether `path` is among `listed`.
fn contains_path(listed: &Vec<String>, path: &str) -> (r: bool)
    ensures
        r == is_listed(texts(listed@), components(path@)),
{
    let n: usize = listed.len();
    let mut i: usize = 0;
    while i < n
        invariant
            n == listed@.len(),
            i <= n,
            forall|j: int|
                0 <= j < i ==> components(#[trigger] texts(listed@)[j]) != components(path@),
        decreases n - i,
    {
        if paths_equal(listed[i].as_str(), path) {
            assert(components(texts(listed@)[i as int]) == components(path@));
            return true;
        }
        i += 1;
    }
    false
}

/// Whether `path` lies below `dir` and is no longer there.
pub fn path_is_stale(path: &str, dir: &str, listed: &Vec<String>) -> (r: bool)
    ensures
        r == is_stale(path@, dir@, texts(listed@)),
{
    if !path_is_below(path, dir) {
        return false;
    }
    let ghost parts = components(path@);
    let ghost base = components(dir@);
    let ghost all = texts(listed@);
    assert(parts.take(parts.len() as int) =~= parts);
    assert(base =~= parts.take(base.len() as int));
    assert(base.len() < parts.len()) by {
        if base.len() == parts.len() {
            assert(base =~= parts);
        }
    }
    if contains_path(listed, path) {
        return false;
    }
    let ancestors = path_ancestors(path);
    let n: usize = ancestors.len();
    let mut i: usize = 1;
    while i < n && !paths_equal(ancestors[i], dir)
        invariant
            n == ancestors@.len(),
            n == crate::path::ancestor_count(path@),
            forall|k: int|
                0 <= k < n ==> components((#[trigger] ancestors@[k])@) == parts.take(
                    parts.len() - k,
                ),
            parts == components(path@),
            base == components(dir@),
            all == texts(listed@),
            base.len() < parts.len(),
            base == parts.take(base.len() as int),
            1 <= i <= parts.len() - base.len(),
            i <= n,
            forall|m: int|
                parts.len() - i < m <= parts.len() ==> !is_listed(all, #[trigger] parts.take(m)),
        decreases n - i,
    {
        assert(components(ancestors@[i as int]@) == parts.take(parts.len() - i));
        assert(i != parts.len() - base.len());
        if contains_path(listed, ancestors[i]) {
            assert(is_listed(all, parts.take(parts.len() - i)));
            return false;
        }
        i += 1;
    }
    if i < n {
        assert(parts.take(parts.len() - i).len() == base.len());
    }
    true
}

/// The watched paths below `dir` that are no longer there, in the order of the table.
pub open spec fn stale_paths<H>(
    table: WatchersView<H>,
    dir: Seq<char>,
    listed: Seq<Seq<char>>,
) -> Seq<Seq<char>> {
    table.entries.filter(|e: (Seq<char>, H)| is_stale(e.0, dir, listed)).map_values(
        |e: (Seq<char>, H)| e.0,
    )
}

/// Whether a path below `path` is watched, as is the case for a directory that is not empty.
pub open spec fn watches_below<H>(table: WatchersView<H>, path: Seq<char>) -> bool {
    exists|i: int| 0 <= i < table.entries.len() && is_below((#[trigger] table.entries[i]).0, path)
}

/// The table without any of the `gone` paths and their cookies.
pub open spec fn without_all<H>(table: WatchersView<H>, gone: Seq<Seq<char>>) -> WatchersView<H>
    decreases gone.len(),
{
    if gone.len() == 0 {
        table
    } else {
        without_all(table.without(gone[0]), gone.skip(1))
    }
}

/// The events for paths that are gone from `table`. A path that had a watched path below it was a
/// directory.
pub open spec fn deletions<H>(
    table: WatchersView<H>,
    gone: Seq<Seq<char>>,
) -> Seq<PendingEventView> {
    gone.map_values(
        |p: Seq<char>|
            PendingEventView {
                path: p,
                event_type: EventPortEventType::Deleted,
                is_dir: watches_below(table, p),
            },
    )
}

/// Whether a path below `path` is watched.
pub fn has_watched_below<H>(table: &Watchers<H>, path: &str) -> (r: bool)
    ensures
        r == watches_below(table@, path@),
{
    let n: usize = table.len();
    let mut i: usize = 0;
    while i < n
        invariant
            n == table@.entries.len(),
            i <= n,
            forall|j: int| 0 <= j < i ==> !is_below((#[trigger] table@.entries[j]).0, path@),
        decreases n - i,
    {
        if path_is_below(table.path_at(i), path) {
            assert(is_below(table@.entries[i as int].0, path@));
            return true;
        }
        i += 1;
    }
    false
}

/// Forgets the watched paths below `dir` that are no longer there, and returns an event for each.
pub fn remove_stale<H>(table: &mut Watchers<H>, dir: &str, listed: &Vec<String>) -> (r: Vec<PendingEvent>)
    requires
        old(table).wf(),
    ensures
        pending_views(r@) == deletions(
            old(table)@,
            stale_paths(old(table)@, dir@, texts(listed@)),
        ),
        final(table)@ == without_all(
            old(table)@,
            stale_paths(old(table)@, dir@, texts(listed@)),
        ),
        final(table).wf(),
{
    let ghost before = table@;
    let ghost all = texts(listed@);
    let ghost pred = |e: (Seq<char>, H)| is_stale(e.0, dir@, all);
    let ghost first = |e: (Seq<char>, H)| e.0;
    let n: usize = table.len();
    let mut gone: Vec<String> = Vec::new();
    let mut i: usize = 0;
    assert(texts(gone@) =~= before.entries.take(0).filter(pred).map_values(first)) by {
        reveal(Seq::filter);
    }
    while i < n
        invariant
            n == before.entries.len(),
            i <= n,
            table@ == before,
            before.wf(),
            all == texts(listed@),
            pred == (|e: (Seq<char>, H)| is_stale(e.0, dir@, all)),
            first == (|e: (Seq<char>, H)| e.0),
            texts(gone@) == before.entries.take(i as int).filter(pred).map_values(first),
        decreases n - i,
    {
        reveal(Seq::filter);
        assert(before.entries.take(i + 1).drop_last() =~= before.entries.take(i as int));
        let path = table.path_at(i);
        let ghost kept = before.entries.take(i as int).filter(pred);
        assert(before.entries.take(i + 1).last() == before.entries[i as int]);
        if path_is_stale(path, dir, listed) {
            let ghost sofar = texts(gone@);
            gone.push(path.to_owned());
            assert(texts(gone@) =~= sofar.push(path@));
            assert(kept.push(before.entries[i as int]).map_values(first) =~= kept.map_values(
                first,
            ).push(path@));
            assert(pred(before.entries[i as int]));
            assert(before.entries.take(i + 1).filter(pred) == kept.push(before.entries[i as int]));
        } else {
            assert(!pred(before.entries[i as int]));
            assert(before.entries.take(i + 1).filter(pred) == kept);
        }
        assert(texts(gone@) =~= before.entries.take(i + 1).filter(pred).map_values(first));
        i += 1;
    }
    assert(before.entries.take(n as int) =~= before.entries);
    let ghost stale = stale_paths(before, dir@, all);
    assert(texts(gone@) =~= stale);

    // Whether a path was a directory shows in what is watched below it, so all events are made out
    // before any path leaves the table.
    let mut events: Vec<PendingEvent> = Vec::new();
    let count: usize = gone.len();
    let mut k: usize = 0;
    while k < count
        invariant
            count == gone@.len(),
            k <= count,
            texts(gone@) == stale,
            table@ == before,
            before.wf(),
            pending_views(events@) == deletions(before, stale.take(k as int)),
        decreases count - k,
    {
        let path = gone[k].clone();
        assert(path@ == stale[k as int]);
        let is_dir = has_watched_below(table, path.as_str());
        let ghost sent = pending_views(events@);
        let event = PendingEvent { path, event_type: EventPortEventType::Deleted, is_dir };
        let ghost seen = event@;
        events.push(event);
        assert(pending_views(events@) =~= sent.push(seen));
        assert(stale.take(k + 1) =~= stale.take(k as int).push(stale[k as int]));
        assert(deletions(before, stale.take(k + 1)) =~= sent.push(seen));
        k += 1;
    }
    assert(stale.take(count as int) =~= stale);

    let mut k: usize = 0;
    assert(stale.skip(0) =~= stale);
    while k < count
        invariant
            count == gone@.len(),
            k <= count,
            texts(gone@) == stale,
            table.wf(),
            without_all(table@, stale.skip(k as int)) == without_all(before, stale),
        decreases count - k,
    {
        assert(gone@[k as int]@ == stale[k as int]);
        assert(stale.skip(k as int)[0] == stale[k as int]);
        assert(stale.skip(k as int).skip(1) =~= stale.skip(k + 1));
        table.forget(gone[k].as_str());
        k += 1;
    }
    assert(stale.skip(count as int) =~= Seq::empty());
    events
}

/// The first entry from `at` on whose path is not watched, or the number of entries.
pub open spec fn next_unwatched<H>(
    entries: Seq<DirEntry>,
    at: int,
    table: WatchersView<H>,
) -> int
    decreases entries.len() - at,
{
    if at >= entries.len() {
        entries.len() as int
    } else if entries[at]@ matches Some(path) && !table.watches(path) {
        at
    } else {
        next_unwatched(entries, at + 1, table)
    }
}

/// What a rescan is at.
pub enum RescanPhaseView {
    /// The directory is to be listed.
    Listing,
    /// An entry that is not watched may be a directory.
    Inspecting(Seq<char>),
    /// An entry that is not watched, and that is a directory or not, is walked over.
    Walking(Seq<char>, bool, WalkView),
    /// The event for an entry that is now watched goes to the buffer.
    Announcing(PendingEventView),
    /// The events for the paths that are gone go to the buffer.
    Deleting(Seq<PendingEventView>),
}

/// The mathematical model of a [`Rescan`].
pub struct RescanView {
    /// The directory.
    pub dir: Seq<char>,
    /// What it was found to hold.
    pub entries: Seq<DirEntry>,
    /// How many entries have been looked at.
    pub next: int,
    /// What the rescan is at.
    pub phase: RescanPhaseView,
}

/// Where a rescan stands after a reply: how it goes on, or how it ended.
pub enum RescanNext<E> {
    On(RescanView),
    End(Result<(), E>),
}

/// The event for an entry that is watched from now on.
pub open spec fn created(path: Seq<char>, is_dir: bool) -> PendingEventView {
    PendingEventView { path, event_type: EventPortEventType::Created, is_dir }
}

impl RescanView {
    /// The beginning of a rescan of `dir`.
    pub open spec fn start(dir: Seq<char>) -> RescanView {
        RescanView { dir, entries: Seq::empty(), next: 0, phase: RescanPhaseView::Listing }
    }

    /// What is to be done next.
    pub open spec fn action(self) -> ActionView {
        match self.phase {
            RescanPhaseView::Listing => ActionView::List(self.dir),
            RescanPhaseView::Inspecting(path) => ActionView::Inspect(path),
            RescanPhaseView::Walking(_, _, walk) => walk.action(),
            RescanPhaseView::Announcing(event) => ActionView::Buffer(event),
            RescanPhaseView::Deleting(events) => ActionView::Buffer(events[0]),
        }
    }

    /// The rescan at another phase.
    pub open spec fn at(self, phase: RescanPhaseView) -> RescanView {
        RescanView { phase, ..self }
    }

    /// The rescan when it has done with an entry: it goes on with the next entry that is not
    /// watched, and behind the last one forgets the paths that are gone.
    pub open spec fn advance<H, E>(self, table: WatchersView<H>) -> (
        RescanNext<E>,
        WatchersView<H>,
    ) {
        let at = next_unwatched(self.entries, self.next, table);
        if at < self.entries.len() {
            (
                RescanNext::On(
                    RescanView {
                        next: at + 1,
                        phase: RescanPhaseView::Inspecting(self.entries[at]@.unwrap()),
                        ..self
                    },
                ),
                table,
            )
        } else {
            let stale = stale_paths(table, self.dir, found_paths(self.entries));
            (
                if stale.len() == 0 {
                    RescanNext::End(Ok(()))
                } else {
                    RescanNext::On(
                        RescanView {
                            next: self.entries.len() as int,
                            phase: RescanPhaseView::Deleting(deletions(table, stale)),
                            ..self
                        },
                    )
                },
                without_all(table, stale),
            )
        }
    }

    /// The rescan and the table after a reply.
    pub open spec fn next<H, E>(self, table: WatchersView<H>, reply: Reply<H, E>) -> (
        RescanNext<E>,
        WatchersView<H>,
    ) {
        match (self.phase, reply) {
            (RescanPhaseView::Listing, Reply::Listed(Ok(entries))) => RescanView {
                entries: entries@,
                next: 0,
                ..self
            }.advance(table),
            (RescanPhaseView::Listing, Reply::Listed(Err(e))) => (RescanNext::End(Err(e)), table),
            (RescanPhaseView::Inspecting(path), Reply::Inspected(is_dir)) => (
                RescanNext::On(
                    self.at(
                        RescanPhaseView::Walking(
                            path,
                            is_dir matches Ok(dir) && dir,
                            WalkView::start(path),
                        ),
                    ),
                ),
                table,
            ),
            (RescanPhaseView::Walking(path, is_dir, walk), _) => match walk.next(reply) {
                WalkNext::On(next) => (
                    RescanNext::On(self.at(RescanPhaseView::Walking(path, is_dir, next))),
                    walk.table(table, reply),
                ),
                WalkNext::End(Ok(_)) => (
                    RescanNext::On(self.at(RescanPhaseView::Announcing(created(path, is_dir)))),
                    walk.table(table, reply),
                ),
                WalkNext::End(Err(_)) => self.advance(walk.table(table, reply)),
            },
            (RescanPhaseView::Announcing(_), _) => self.advance(table),
            (RescanPhaseView::Deleting(events), _) => (
                if events.len() <= 1 {
                    RescanNext::End(Ok(()))
                } else {
                    RescanNext::On(self.at(RescanPhaseView::Deleting(events.skip(1))))
                },
                table,
            ),
            _ => (RescanNext::On(self), table),
        }
    }
}

/// What a rescan is at.
enum RescanPhase {
    Listing,
    Inspecting(String),
    Walking(String, bool, Walk),
    Announcing(PendingEvent),
    Deleting(Vec<PendingEvent>, usize),
}

impl View for RescanPhase {
    type V = RescanPhaseView;

    closed spec fn view(&self) -> RescanPhaseView {
        match self {
            RescanPhase::Listing => RescanPhaseView::Listing,
            RescanPhase::Inspecting(path) => RescanPhaseView::Inspecting(path@),
            RescanPhase::Walking(path, is_dir, walk) => RescanPhaseView::Walking(
                path@,
                *is_dir,
                walk@,
            ),
            RescanPhase::Announcing(event) => RescanPhaseView::Announcing(event@),
            RescanPhase::Deleting(events, at) => RescanPhaseView::Deleting(
                pending_views(events@).skip(*at as int),
            ),
        }
    }
}

/// A rescan of a directory. It watches the entries that are not watched yet, then forgets the
/// watched paths below the directory that are gone, and announces the ones and the others.
pub struct Rescan {
    dir: String,
    entries: Vec<DirEntry>,
    next: usize,
    listed: Vec<String>,
    phase: RescanPhase,
}

impl View for Rescan {
    type V = RescanView;

    closed spec fn view(&self) -> RescanView {
        RescanView {
            dir: self.dir@,
            entries: self.entries@,
            next: self.next as int,
            phase: self.phase@,
        }
    }
}

impl Rescan {
    /// The paths of the entries that have been looked at are noted, and where events for paths
    /// that are gone go to the buffer, there is one.
    pub closed spec fn wf(&self) -> bool {
        &&& self.next <= self.entries@.len()
        &&& texts(self.listed@) == found_paths(self.entries@.take(self.next as int))
        &&& self.phase matches RescanPhase::Deleting(events, at) ==> at < events@.len()
    }

    /// Begins the rescan of `dir`.
    pub fn start(dir: &str) -> (r: Rescan)
        ensures
            r.wf(),
            r@ == RescanView::start(dir@),
    {
        let scan = Rescan {
            dir: dir.to_owned(),
            entries: Vec::new(),
            next: 0,
            listed: Vec::new(),
            phase: RescanPhase::Listing,
        };
        assert(scan.entries@ =~= Seq::empty());
        assert(texts(scan.listed@) =~= found_paths(scan.entries@.take(0)));
        scan
    }

    /// What is to be done next.
    pub fn action(&self) -> (r: Action)
        requires
            self.wf(),
        ensures
            r@ == self@.action(),
    {
        match &self.phase {
            RescanPhase::Listing => Action::List(self.dir.clone()),
            RescanPhase::Inspecting(path) => Action::Inspect(path.clone()),
            RescanPhase::Walking(_, _, walk) => walk.action(),
            RescanPhase::Announcing(event) => Action::Buffer(event.clone()),
            RescanPhase::Deleting(events, at) => Action::Buffer(events[*at].clone()),
        }
    }

    /// The next entry that is not watched yet; nothing when all entries have been looked at.
    fn next_entry<H>(&mut self, table: &Watchers<H>) -> (r: Option<String>)
        requires
            old(self).wf(),
            !(old(self).phase is Deleting),
            table.wf(),
        ensures
            final(self).wf(),
            final(self)@.dir == old(self)@.dir,
            final(self)@.entries == old(self)@.entries,
            final(self).phase == old(self).phase,
            ({
                let at = next_unwatched(old(self)@.entries, old(self)@.next, table@);
                if at < old(self)@.entries.len() {
                    &&& final(self)@.next == at + 1
                    &&& r matches Some(path) && Some(path@) == old(self)@.entries[at]@
                } else {
                    &&& final(self)@.next == old(self)@.entries.len()
                    &&& r is None
                }
            }),
    {
        while self.next < self.entries.len()
            invariant
                self.wf(),
                table.wf(),
                self@.dir == old(self)@.dir,
                self@.entries == old(self)@.entries,
                self.phase == old(self).phase,
                next_unwatched(self@.entries, self@.next, table@) == next_unwatched(
                    old(self)@.entries,
                    old(self)@.next,
                    table@,
                ),
            decreases self.entries@.len() - self.next,
        {
            let at: usize = self.next;
            let ghost done = self.entries@.take(at + 1);
            assert(done.drop_last() =~= self.entries@.take(at as int));
            assert(done.last() == self.entries@[at as int]);
            self.next = at + 1;
            match &self.entries[at] {
                DirEntry::Unreadable => {},
                DirEntry::NotUtf8 => {},
                DirEntry::Found(path) => {
                    let path = path.clone();
                    let ghost sofar = texts(self.listed@);
                    self.listed.push(path.clone());
                    assert(texts(self.listed@) =~= sofar.push(path@));
                    if !table.contains(path.as_str()) {
                        return Some(path);
                    }
                },
            }
        }
        None
    }

    /// Goes on with the next entry, or, behind the last one, forgets the paths that are gone.
    fn advance<H, E>(&mut self, table: &mut Watchers<H>) -> (r: Option<Result<(), E>>)
        requires
            old(self).wf(),
            !(old(self).phase is Deleting),
            old(table).wf(),
        ensures
            final(self).wf(),
            final(table).wf(),
            final(table)@ == old(self)@.advance::<H, E>(old(table)@).1,
            match old(self)@.advance::<H, E>(old(table)@).0 {
                RescanNext::On(next) => r is None && final(self)@ == next,
                RescanNext::End(result) => r == Some(result),
            },
    {
        match self.next_entry(&*table) {
            Some(path) => {
                self.phase = RescanPhase::Inspecting(path);
                None
            },
            None => {
                assert(self.entries@.take(self.next as int) =~= self.entries@);
                let events = remove_stale(table, self.dir.as_str(), &self.listed);
                assert(pending_views(events@).len() == events@.len());
                if events.len() == 0 {
                    Some(Ok(()))
                } else {
                    let ghost views = pending_views(events@);
                    self.phase = RescanPhase::Deleting(events, 0);
                    assert(views.skip(0) =~= views);
                    None
                }
            },
        }
    }

    /// Takes what came of the last action, and says how the rescan ended, if it did.
    pub fn step<H, E>(&mut self, table: &mut Watchers<H>, reply: Reply<H, E>) -> (r: Option<
        Result<(), E>,
    >)
        requires
            old(self).wf(),
            old(table).wf(),
            answers(old(self)@.action(), reply),
        ensures
            final(self).wf(),
            final(table).wf(),
            final(table)@ == old(self)@.next(old(table)@, reply).1,
            match old(self)@.next(old(table)@, reply).0 {
                RescanNext::On(next) => r is None && final(self)@ == next,
                RescanNext::End(result) => r == Some(result),
            },
    {
        let mut phase = RescanPhase::Listing;
        std::mem::swap(&mut self.phase, &mut phase);
        match phase {
            RescanPhase::Listing => match reply {
                Reply::Listed(Ok(entries)) => {
                    self.entries = entries;
                    self.next = 0;
                    self.listed = Vec::new();
                    assert(texts(self.listed@) =~= found_paths(self.entries@.take(0)));
                    self.advance(table)
                },
                Reply::Listed(Err(e)) => Some(Err(e)),
                _ => None,
            },
            RescanPhase::Inspecting(path) => match reply {
                Reply::Inspected(is_dir) => {
                    let is_dir = match is_dir {
                        Ok(dir) => dir,
                        Err(_) => false,
                    };
                    let walk = Walk::start(path.as_str());
                    self.phase = RescanPhase::Walking(path, is_dir, walk);
                    None
                },
                _ => None,
            },
            RescanPhase::Walking(path, is_dir, walk) => {
                let mut walk = walk;
                match walk.step(table, reply) {
                    None => {
                        self.phase = RescanPhase::Walking(path, is_dir, walk);
                        None
                    },
                    Some(Ok(_)) => {
                        self.phase = RescanPhase::Announcing(
                            PendingEvent { path, event_type: EventPortEventType::Created, is_dir },
                        );
                        None
                    },
                    Some(Err(_)) => self.advance(table),
                }
            },
            RescanPhase::Announcing(_) => self.advance(table),
            RescanPhase::Deleting(events, at) => {
                if at < events.len() - 1 {
                    let ghost views = pending_views(events@);
                    self.phase = RescanPhase::Deleting(events, at + 1);
                    assert(views.skip(at as int).skip(1) =~= views.skip(at + 1));
                    None
                } else {
                    Some(Ok(()))
                }
            },
        }
    }
}

} // verus!
