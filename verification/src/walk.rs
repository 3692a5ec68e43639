//! Watching a path and everything below it.
use crate::cookie::{cookie_of, path_to_cookie};
use crate::path::{same_path, starts_with};
use crate::port::{
    answers, events_to_watch, found_paths, texts, watched_events, Action, ActionView, DirEntry,
    Reply, WatchedEvents,
};
use crate::watchers::{lemma_filter_take, Watchers, WatchersView};
use vstd::prelude::*;

verus! {

/// How far the walk is with the path at hand.
#[derive(Debug, Clone, Copy, PartialEq, Eq, Structural, Hash)]
pub enum WalkPhase {
    /// It has no handle yet.
    Open,
    /// It is in the table, and its handle is to be associated.
    Associate,
    /// It is associated, and may be a directory.
    Inspect,
    /// It is a directory, and is to be listed.
    List,
}

/// The mathematical model of a [`Walk`].
#[verifier::ext_equal]
pub struct WalkView {
    /// The path at hand.
    pub current: Seq<char>,
    /// How far the walk is with it.
    pub phase: WalkPhase,
    /// The paths that are still to be visited, the next one last.
    pub pending: Seq<Seq<char>>,
    /// Whether the path at hand is the one with which the walk began.
    pub is_top: bool,
}

/// Where a walk stands after a reply: how it goes on, or how it ended.
pub enum WalkNext<E> {
    On(WalkView),
    End(Result<(), E>),
}

impl WalkView {
    /// The beginning of a walk from `path`.
    pub open spec fn start(path: Seq<char>) -> WalkView {
        WalkView { current: path, phase: WalkPhase::Open, pending: Seq::empty(), is_top: true }
    }

    /// What is to be done next.
    pub open spec fn action(self) -> ActionView {
        match self.phase {
            WalkPhase::Open => ActionView::Open(self.current),
            WalkPhase::Associate => ActionView::Associate(
                self.current,
                cookie_of(self.current),
                events_to_watch(),
            ),
            WalkPhase::Inspect => ActionView::Inspect(self.current),
            WalkPhase::List => ActionView::List(self.current),
        }
    }

    /// The walk at the next phase of the path at hand.
    pub open spec fn at(self, phase: WalkPhase) -> WalkView {
        WalkView { phase, ..self }
    }

    /// The walk when it has done with the path at hand, and these paths are to be visited.
    pub open spec fn advance<E>(self, pending: Seq<Seq<char>>) -> WalkNext<E> {
        if pending.len() == 0 {
            WalkNext::End(Ok(()))
        } else {
            WalkNext::On(
                WalkView {
                    current: pending.last(),
                    phase: WalkPhase::Open,
                    pending: pending.drop_last(),
                    is_top: false,
                },
            )
        }
    }

    /// The walk when something failed for the path at hand: if it began with that path it has
    /// failed, else it goes on with the next one.
    pub open spec fn fail<E>(self, error: E) -> WalkNext<E> {
        if self.is_top {
            WalkNext::End(Err(error))
        } else {
            self.advance(self.pending)
        }
    }

    /// The walk after a reply.
    pub open spec fn next<H, E>(self, reply: Reply<H, E>) -> WalkNext<E> {
        match reply {
            Reply::Opened(Ok(_)) => WalkNext::On(self.at(WalkPhase::Associate)),
            Reply::Opened(Err(e)) => self.fail(e),
            Reply::Associated(Ok(_)) => WalkNext::On(self.at(WalkPhase::Inspect)),
            Reply::Associated(Err(e)) => self.fail(e),
            Reply::Inspected(Ok(true)) => WalkNext::On(self.at(WalkPhase::List)),
            Reply::Inspected(Ok(false)) => self.advance(self.pending),
            Reply::Inspected(Err(e)) => self.fail(e),
            Reply::Listed(Ok(entries)) => self.advance(
                self.pending + found_paths(entries@).reverse(),
            ),
            Reply::Listed(Err(e)) => self.fail(e),
            _ => WalkNext::On(self),
        }
    }

    /// The table after a reply: a path that has a handle is watched, whatever comes after.
    pub open spec fn table<H, E>(
        self,
        table: WatchersView<H>,
        reply: Reply<H, E>,
    ) -> WatchersView<H> {
        match reply {
            Reply::Opened(Ok(handle)) => table.inserted(self.current, handle),
            _ => table,
        }
    }
}

/// A walk over a path and everything below it, which watches each path that it comes to.
pub struct Walk {
    current: String,
    phase: WalkPhase,
    pending: Vec<String>,
    is_top: bool,
}

impl View for Walk {
    type V = WalkView;

    closed spec fn view(&self) -> WalkView {
        WalkView {
            current: self.current@,
            phase: self.phase,
            pending: texts(self.pending@),
            is_top: self.is_top,
        }
    }
}

impl Walk {
    /// Begins a walk from `path`.
    pub fn start(path: &str) -> (r: Walk)
        ensures
            r@ == WalkView::start(path@),
    {
        let walk = Walk {
            current: path.to_owned(),
            phase: WalkPhase::Open,
            pending: Vec::new(),
            is_top: true,
        };
        assert(walk@ =~= WalkView::start(path@));
        walk
    }

    /// What is to be done next.
    pub fn action(&self) -> (r: Action)
        ensures
            r@ == self@.action(),
    {
        let path = self.current.clone();
        match self.phase {
            WalkPhase::Open => Action::Open(path),
            WalkPhase::Associate => {
                let cookie: u64 = path_to_cookie(path.as_str());
                Action::Associate(path, cookie, watched_events())
            },
            WalkPhase::Inspect => Action::Inspect(path),
            WalkPhase::List => Action::List(path),
        }
    }

    /// Goes on with the next path that is to be visited.
    fn advance<E>(&mut self) -> (r: Option<Result<(), E>>)
        ensures
            match old(self)@.advance::<E>(old(self)@.pending) {
                WalkNext::On(next) => r is None && final(self)@ == next,
                WalkNext::End(result) => r == Some(result),
            },
    {
        match self.pending.pop() {
            Some(path) => {
                self.current = path;
                self.phase = WalkPhase::Open;
                self.is_top = false;
                assert(self@.pending =~= old(self)@.pending.drop_last());
                None
            },
            None => Some(Ok(())),
        }
    }

    /// Gives the path at hand up.
    fn fail<E>(&mut self, error: E) -> (r: Option<Result<(), E>>)
        ensures
            match old(self)@.fail::<E>(error) {
                WalkNext::On(next) => r is None && final(self)@ == next,
                WalkNext::End(result) => r == Some(result),
            },
    {
        if self.is_top {
            Some(Err(error))
        } else {
            self.advance()
        }
    }

    /// Puts the paths of a listing before those that are still to be visited, in its order.
    fn push_listing(&mut self, entries: &Vec<DirEntry>)
        ensures
            final(self)@ == (WalkView {
                pending: old(self)@.pending + found_paths(entries@).reverse(),
                ..old(self)@
            }),
    {
        let ghost before = self@;
        let mut i: usize = entries.len();
        assert(entries@.take(i as int) =~= entries@);
        assert(before.pending + found_paths(entries@).reverse() =~= texts(self.pending@)
            + found_paths(entries@.take(i as int)).reverse());
        while i > 0
            invariant
                i <= entries@.len(),
                self@.current == before.current,
                self@.phase == before.phase,
                self@.is_top == before.is_top,
                texts(self.pending@) + found_paths(entries@.take(i as int)).reverse()
                    == before.pending + found_paths(entries@).reverse(),
            decreases i,
        {
            let ghost prefix = entries@.take(i as int);
            let ghost sofar = texts(self.pending@);
            i -= 1;
            assert(prefix.drop_last() =~= entries@.take(i as int));
            match &entries[i] {
                DirEntry::Unreadable => {},
                DirEntry::NotUtf8 => {},
                DirEntry::Found(path) => {
                    self.pending.push(path.clone());
                    assert(texts(self.pending@) =~= sofar.push(path@));
                    assert(sofar + found_paths(prefix).reverse() =~= texts(self.pending@)
                        + found_paths(prefix.drop_last()).reverse());
                },
            }
        }
        assert(texts(self.pending@) =~= texts(self.pending@) + found_paths(
            entries@.take(0),
        ).reverse());
        assert(self@ =~= WalkView {
            pending: before.pending + found_paths(entries@).reverse(),
            ..before
        });
    }

    /// Takes what came of the last action, and says how the walk ended, if it did.
    pub fn step<H, E>(&mut self, table: &mut Watchers<H>, reply: Reply<H, E>) -> (r: Option<
        Result<(), E>,
    >)
        requires
            old(table).wf(),
            answers(old(self)@.action(), reply),
        ensures
            final(table).wf(),
            final(table)@ == old(self)@.table(old(table)@, reply),
            match old(self)@.next(reply) {
                WalkNext::On(next) => r is None && final(self)@ == next,
                WalkNext::End(result) => r == Some(result),
            },
    {
        match reply {
            Reply::Opened(Ok(handle)) => {
                table.insert(self.current.as_str(), handle);
                self.phase = WalkPhase::Associate;
                None
            },
            Reply::Opened(Err(e)) => self.fail(e),
            Reply::Associated(Ok(_)) => {
                self.phase = WalkPhase::Inspect;
                None
            },
            Reply::Associated(Err(e)) => self.fail(e),
            Reply::Inspected(Ok(is_dir)) => {
                if is_dir {
                    self.phase = WalkPhase::List;
                    None
                } else {
                    self.advance()
                }
            },
            Reply::Inspected(Err(e)) => self.fail(e),
            Reply::Listed(Ok(entries)) => {
                self.push_listing(&entries);
                self.advance()
            },
            Reply::Listed(Err(e)) => self.fail(e),
            _ => None,
        }
    }
}

/// All that the port and the file system answer about a path and, if it is a directory that can
/// be listed, about the paths that it holds.
pub enum Visit<H, E> {
    /// The path got no handle.
    NoHandle(E),
    /// The port did not take the handle.
    NotAssociated(H, E),
    /// Whether the path is a directory could not be found out.
    NotInspected(H, E),
    /// The path is not a directory.
    File(H),
    /// The path is a directory that could not be listed.
    NotListed(H, E),
    /// The path is a directory with these entries; those that have a path are answered for by the
    /// visits, in order.
    Directory(H, Vec<DirEntry>, Seq<Visit<H, E>>),
}

/// Whether every entry that has a path is answered for, all the way down.
pub open spec fn is_complete<H, E>(visit: Visit<H, E>) -> bool
    decreases visit,
{
    match visit {
        Visit::Directory(_, entries, visits) => {
            &&& visits.len() == found_paths(entries@).len()
            &&& forall|i: int| 0 <= i < visits.len() ==> is_complete(#[trigger] visits[i])
        },
        _ => true,
    }
}

/// The replies that a walk gets of a visit, in order.
pub open spec fn replies<H, E>(visit: Visit<H, E>) -> Seq<Reply<H, E>>
    decreases visit,
{
    match visit {
        Visit::NoHandle(e) => seq![Reply::Opened(Err(e))],
        Visit::NotAssociated(h, e) => seq![Reply::Opened(Ok(h)), Reply::Associated(Err(e))],
        Visit::NotInspected(h, e) => seq![
            Reply::Opened(Ok(h)),
            Reply::Associated(Ok(())),
            Reply::Inspected(Err(e)),
        ],
        Visit::File(h) => seq![
            Reply::Opened(Ok(h)),
            Reply::Associated(Ok(())),
            Reply::Inspected(Ok(false)),
        ],
        Visit::NotListed(h, e) => seq![
            Reply::Opened(Ok(h)),
            Reply::Associated(Ok(())),
            Reply::Inspected(Ok(true)),
            Reply::Listed(Err(e)),
        ],
        Visit::Directory(h, entries, visits) => seq![
            Reply::Opened(Ok(h)),
            Reply::Associated(Ok(())),
            Reply::Inspected(Ok(true)),
            Reply::Listed(Ok(entries)),
        ] + all_replies(visits),
    }
}

/// The replies that a walk gets of some visits, one after the other.
pub open spec fn all_replies<H, E>(visits: Seq<Visit<H, E>>) -> Seq<Reply<H, E>>
    decreases visits,
{
    if visits.len() == 0 {
        Seq::empty()
    } else {
        replies(visits[0]) + all_replies(visits.skip(1))
    }
}

/// The paths that a visit of `path` watches, each with its handle: the path itself and, where it
/// is a directory, all that is watched below it.
pub open spec fn watched<H, E>(path: Seq<char>, visit: Visit<H, E>) -> Seq<(Seq<char>, H)>
    decreases visit,
{
    match visit {
        Visit::NoHandle(_) => Seq::empty(),
        Visit::NotAssociated(h, _)
        | Visit::NotInspected(h, _)
        | Visit::File(h)
        | Visit::NotListed(h, _) => seq![(path, h)],
        Visit::Directory(h, entries, visits) => seq![(path, h)] + all_watched(
            found_paths(entries@),
            visits,
        ),
    }
}

/// The paths that the visits of `paths` watch, one after the other.
pub open spec fn all_watched<H, E>(
    paths: Seq<Seq<char>>,
    visits: Seq<Visit<H, E>>,
) -> Seq<(Seq<char>, H)>
    decreases visits,
{
    if visits.len() == 0 {
        Seq::empty()
    } else {
        watched(paths[0], visits[0]) + all_watched(paths.skip(1), visits.skip(1))
    }
}

/// How a walk that begins with this visit ends: it fails only where its first path fails.
pub open spec fn outcome<H, E>(visit: Visit<H, E>) -> Result<(), E> {
    match visit {
        Visit::NoHandle(e)
        | Visit::NotAssociated(_, e)
        | Visit::NotInspected(_, e)
        | Visit::NotListed(_, e) => Err(e),
        Visit::File(_) | Visit::Directory(_, _, _) => Ok(()),
    }
}

/// The table with all these paths watched, one after the other.
pub open spec fn inserted_all<H>(
    table: WatchersView<H>,
    paths: Seq<(Seq<char>, H)>,
) -> WatchersView<H>
    decreases paths.len(),
{
    if paths.len() == 0 {
        table
    } else {
        inserted_all(table.inserted(paths[0].0, paths[0].1), paths.skip(1))
    }
}

/// A walk over a sequence of replies: the table it leaves, and how it ended, if it ended with the
/// last reply and each reply was one to what it asked.
pub open spec fn run<H, E>(
    walk: WalkView,
    table: WatchersView<H>,
    script: Seq<Reply<H, E>>,
) -> (WatchersView<H>, Option<Result<(), E>>)
    decreases script.len(),
{
    if script.len() == 0 || !answers(walk.action(), script[0]) {
        (table, None)
    } else {
        let next_table = walk.table(table, script[0]);
        match walk.next(script[0]) {
            WalkNext::End(result) => if script.len() == 1 {
                (next_table, Some(result))
            } else {
                (next_table, None)
            },
            WalkNext::On(next) => run(next, next_table, script.skip(1)),
        }
    }
}

/// A run that has done with a path, and has these paths still to visit.
spec fn resume<H, E>(
    next: WalkNext<E>,
    table: WatchersView<H>,
    script: Seq<Reply<H, E>>,
) -> (WatchersView<H>, Option<Result<(), E>>) {
    match next {
        WalkNext::End(result) => if script.len() == 0 {
            (table, Some(result))
        } else {
            (table, None)
        },
        WalkNext::On(walk) => run(walk, table, script),
    }
}

/// One step of a run.
proof fn lemma_run_step<H, E>(
    walk: WalkView,
    table: WatchersView<H>,
    reply: Reply<H, E>,
    rest: Seq<Reply<H, E>>,
)
    requires
        answers(walk.action(), reply),
    ensures
        run(walk, table, seq![reply] + rest) == resume(
            walk.next(reply),
            walk.table(table, reply),
            rest,
        ),
{
    assert((seq![reply] + rest).skip(1) =~= rest);
}

/// Watching paths one list after the other is watching both lists.
proof fn lemma_inserted_all_add<H>(
    table: WatchersView<H>,
    a: Seq<(Seq<char>, H)>,
    b: Seq<(Seq<char>, H)>,
)
    ensures
        inserted_all(table, a + b) == inserted_all(inserted_all(table, a), b),
    decreases a.len(),
{
    if a.len() == 0 {
        assert(a + b =~= b);
    } else {
        assert((a + b).skip(1) =~= a.skip(1) + b);
        lemma_inserted_all_add(table.inserted(a[0].0, a[0].1), a.skip(1), b);
    }
}

/// A run through the first replies of a visit whose path gets a handle.
proof fn lemma_run_opened<H, E>(
    walk: WalkView,
    table: WatchersView<H>,
    handle: H,
    rest: Seq<Reply<H, E>>,
)
    requires
        walk.phase is Open,
    ensures
        run(walk, table, seq![Reply::Opened(Ok(handle))] + rest) == run(
            walk.at(WalkPhase::Associate),
            table.inserted(walk.current, handle),
            rest,
        ),
        run(
            walk,
            table,
            seq![Reply::Opened(Ok(handle)), Reply::Associated(Ok(()))] + rest,
        ) == run(walk.at(WalkPhase::Inspect), table.inserted(walk.current, handle), rest),
{
    let next_table = table.inserted(walk.current, handle);
    lemma_run_step(walk, table, Reply::Opened(Ok(handle)), rest);
    let tail = seq![Reply::<H, E>::Associated(Ok(()))] + rest;
    lemma_run_step(walk, table, Reply::Opened(Ok(handle)), tail);
    lemma_run_step(walk.at(WalkPhase::Associate), next_table, Reply::Associated(Ok(())), rest);
    assert(seq![Reply::Opened(Ok(handle)), Reply::Associated(Ok(()))] + rest =~= seq![
        Reply::Opened(Ok(handle)),
    ] + tail);
    assert(walk.at(WalkPhase::Associate).at(WalkPhase::Inspect) =~= walk.at(WalkPhase::Inspect));
}

/// How a run goes on behind the replies of a visit.
spec fn after<H, E>(walk: WalkView, visit: Visit<H, E>) -> WalkNext<E> {
    match outcome(visit) {
        Ok(_) => walk.advance(walk.pending),
        Err(e) => walk.fail(e),
    }
}

/// A run through the replies of a visit watches what the visit watches.
proof fn lemma_run_visit<H, E>(
    walk: WalkView,
    table: WatchersView<H>,
    visit: Visit<H, E>,
    rest: Seq<Reply<H, E>>,
)
    requires
        walk.phase is Open,
        is_complete(visit),
    ensures
        run(walk, table, replies(visit) + rest) == resume(
            after(walk, visit),
            inserted_all(table, watched(walk.current, visit)),
            rest,
        ),
    decreases visit,
{
    let script = replies(visit) + rest;
    reveal_with_fuel(inserted_all, 2);
    match visit {
        Visit::NoHandle(e) => {
            lemma_run_step(walk, table, Reply::Opened(Err(e)), rest);
        },
        Visit::NotAssociated(h, e) => {
            let tail = seq![Reply::<H, E>::Associated(Err(e))] + rest;
            assert(script =~= seq![Reply::Opened(Ok(h))] + tail);
            lemma_run_opened(walk, table, h, tail);
            lemma_run_step(
                walk.at(WalkPhase::Associate),
                table.inserted(walk.current, h),
                Reply::Associated(Err(e)),
                rest,
            );
        },
        Visit::NotInspected(h, e) => {
            let tail = seq![Reply::<H, E>::Inspected(Err(e))] + rest;
            assert(script =~= seq![Reply::Opened(Ok(h)), Reply::Associated(Ok(()))] + tail);
            lemma_run_opened(walk, table, h, tail);
            lemma_run_step(
                walk.at(WalkPhase::Inspect),
                table.inserted(walk.current, h),
                Reply::Inspected(Err(e)),
                rest,
            );
        },
        Visit::File(h) => {
            let tail = seq![Reply::<H, E>::Inspected(Ok(false))] + rest;
            assert(script =~= seq![Reply::Opened(Ok(h)), Reply::Associated(Ok(()))] + tail);
            lemma_run_opened(walk, table, h, tail);
            lemma_run_step(
                walk.at(WalkPhase::Inspect),
                table.inserted(walk.current, h),
                Reply::Inspected(Ok(false)),
                rest,
            );
        },
        Visit::NotListed(h, e) => {
            let last = seq![Reply::<H, E>::Listed(Err(e))] + rest;
            let tail = seq![Reply::<H, E>::Inspected(Ok(true))] + last;
            assert(script =~= seq![Reply::Opened(Ok(h)), Reply::Associated(Ok(()))] + tail);
            lemma_run_opened(walk, table, h, tail);
            let next_table = table.inserted(walk.current, h);
            lemma_run_step(walk.at(WalkPhase::Inspect), next_table, Reply::Inspected(Ok(true)), last);
            lemma_run_step(walk.at(WalkPhase::List), next_table, Reply::Listed(Err(e)), rest);
            assert(walk.at(WalkPhase::Inspect).at(WalkPhase::List) =~= walk.at(WalkPhase::List));
        },
        Visit::Directory(h, entries, visits) => {
            let paths = found_paths(entries@);
            let inner = all_replies(visits) + rest;
            let last = seq![Reply::<H, E>::Listed(Ok(entries))] + inner;
            let tail = seq![Reply::<H, E>::Inspected(Ok(true))] + last;
            assert(script =~= seq![Reply::Opened(Ok(h)), Reply::Associated(Ok(()))] + tail);
            lemma_run_opened(walk, table, h, tail);
            let next_table = table.inserted(walk.current, h);
            lemma_run_step(walk.at(WalkPhase::Inspect), next_table, Reply::Inspected(Ok(true)), last);
            lemma_run_step(walk.at(WalkPhase::List), next_table, Reply::Listed(Ok(entries)), inner);
            assert(walk.at(WalkPhase::Inspect).at(WalkPhase::List) =~= walk.at(WalkPhase::List));
            lemma_run_visits(walk, next_table, paths, visits, rest);
            lemma_inserted_all_add(table, seq![(walk.current, h)], all_watched(paths, visits));
            assert(seq![(walk.current, h)].skip(1) =~= Seq::empty());
        },
    }
}

/// A run through the replies of visits watches what the visits watch.
proof fn lemma_run_visits<H, E>(
    walk: WalkView,
    table: WatchersView<H>,
    paths: Seq<Seq<char>>,
    visits: Seq<Visit<H, E>>,
    rest: Seq<Reply<H, E>>,
)
    requires
        paths.len() == visits.len(),
        forall|i: int| 0 <= i < visits.len() ==> is_complete(#[trigger] visits[i]),
    ensures
        resume(
            walk.advance::<E>(walk.pending + paths.reverse()),
            table,
            all_replies(visits) + rest,
        ) == resume(
            walk.advance::<E>(walk.pending),
            inserted_all(table, all_watched(paths, visits)),
            rest,
        ),
    decreases visits,
{
    if visits.len() == 0 {
        assert(walk.pending + paths.reverse() =~= walk.pending);
        assert(all_replies(visits) + rest =~= rest);
    } else {
        let stack = walk.pending + paths.reverse();
        assert(stack.last() == paths[0]);
        let later = walk.pending + paths.skip(1).reverse();
        assert(stack.drop_last() =~= later);
        let next = WalkView {
            current: paths[0],
            phase: WalkPhase::Open,
            pending: later,
            is_top: false,
        };
        assert(walk.advance::<E>(stack) == WalkNext::<E>::On(next));
        let behind = all_replies(visits.skip(1)) + rest;
        assert(all_replies(visits) + rest =~= replies(visits[0]) + behind);
        lemma_run_visit(next, table, visits[0], behind);
        let first = inserted_all(table, watched(paths[0], visits[0]));
        assert(after(next, visits[0]) == walk.advance::<E>(later));
        assert forall|i: int| 0 <= i < visits.skip(1).len() implies is_complete(
            #[trigger] visits.skip(1)[i],
        ) by {
            assert(visits.skip(1)[i] == visits[i + 1]);
        }
        lemma_run_visits(walk, first, paths.skip(1), visits.skip(1), rest);
        lemma_inserted_all_add(
            table,
            watched(paths[0], visits[0]),
            all_watched(paths.skip(1), visits.skip(1)),
        );
    }
}

/// A walk visits the path with which it began and everything below it: whatever the file system
/// holds, the walk ends with the last reply, has watched each path that got a handle, directory
/// before entry and in the order of the listings, and has failed only if its first path failed.
pub proof fn law_walk_watches_the_tree<H, E>(
    path: Seq<char>,
    table: WatchersView<H>,
    visit: Visit<H, E>,
)
    requires
        is_complete(visit),
    ensures
        run(WalkView::start(path), table, replies(visit)) == (
            inserted_all(table, watched(path, visit)),
            Some(outcome(visit)),
        ),
{
    let walk = WalkView::start(path);
    assert(replies(visit) + Seq::empty() =~= replies(visit));
    lemma_run_visit(walk, table, visit, Seq::empty());
}

/// What was watched stays watched, and of the rest just the new paths are.
pub proof fn law_inserted_all_watches<H>(table: WatchersView<H>, paths: Seq<(Seq<char>, H)>)
    requires
        table.wf(),
    ensures
        inserted_all(table, paths).wf(),
        forall|p: Seq<char>| #[trigger]
            inserted_all(table, paths).watches(p) <==> table.watches(p) || exists|i: int|
                0 <= i < paths.len() && same_path(p, (#[trigger] paths[i]).0),
    decreases paths.len(),
{
    if paths.len() > 0 {
        let next = table.inserted(paths[0].0, paths[0].1);
        let rest = paths.skip(1);
        table.lemma_inserted_wf(paths[0].0, paths[0].1);
        law_inserted_all_watches(next, rest);
        assert forall|p: Seq<char>| #[trigger] inserted_all(table, paths).watches(p)
            <==> table.watches(p) || exists|i: int|
            0 <= i < paths.len() && same_path(p, (#[trigger] paths[i]).0) by {
            assert(inserted_all(next, rest).watches(p) <==> next.watches(p) || exists|i: int|
                0 <= i < rest.len() && same_path(p, (#[trigger] rest[i]).0));
            assert(next.watches(p) <==> table.watches(p) || same_path(p, paths[0].0));
            if exists|i: int| 0 <= i < paths.len() && same_path(p, (#[trigger] paths[i]).0) {
                let i = choose|i: int|
                    0 <= i < paths.len() && same_path(p, (#[trigger] paths[i]).0);
                if i > 0 {
                    assert(same_path(p, rest[i - 1].0));
                }
            }
            if exists|i: int| 0 <= i < rest.len() && same_path(p, (#[trigger] rest[i]).0) {
                let i = choose|i: int| 0 <= i < rest.len() && same_path(p, (#[trigger] rest[i]).0);
                assert(same_path(p, paths[i + 1].0));
            }
        }
    }
}

/// A walk that did not fail leaves at least one path watched.
pub proof fn law_walk_success_watches<H, E>(
    path: Seq<char>,
    table: WatchersView<H>,
    visit: Visit<H, E>,
)
    requires
        table.wf(),
        is_complete(visit),
        outcome(visit) is Ok,
    ensures
        inserted_all(table, watched(path, visit)).watches(path),
        inserted_all(table, watched(path, visit)).entries.len() > 0,
{
    law_inserted_all_watches(table, watched(path, visit));
    assert(same_path(path, watched(path, visit)[0].0));
    assert(inserted_all(table, watched(path, visit)).watches(path));
}

/// Whether every listing of a visit of `path` holds paths at or below the directory that was
/// listed, all the way down.
pub open spec fn lists_what_lies_below<H, E>(path: Seq<char>, visit: Visit<H, E>) -> bool
    decreases visit,
{
    match visit {
        Visit::Directory(_, entries, visits) => forall|i: int|
            0 <= i < visits.len() ==> starts_with(#[trigger] found_paths(entries@)[i], path)
                && lists_what_lies_below(found_paths(entries@)[i], visits[i]),
        _ => true,
    }
}

/// A walk from a path watches nothing but that path and paths below it.
pub proof fn law_walk_stays_below<H, E>(path: Seq<char>, visit: Visit<H, E>)
    requires
        is_complete(visit),
        lists_what_lies_below(path, visit),
    ensures
        forall|i: int|
            0 <= i < watched(path, visit).len() ==> starts_with(
                (#[trigger] watched(path, visit)[i]).0,
                path,
            ),
    decreases visit,
{
    if let Visit::Directory(h, entries, visits) = visit {
        let paths = found_paths(entries@);
        assert forall|i: int| 0 <= i < visits.len() implies starts_with(#[trigger] paths[i], path)
            && lists_what_lies_below(paths[i], visits[i]) by {}
        lemma_visits_stay_below(path, paths, visits);
        let rest = all_watched(paths, visits);
        assert forall|i: int| 0 <= i < watched(path, visit).len() implies starts_with(
            (#[trigger] watched(path, visit)[i]).0,
            path,
        ) by {
            if i > 0 {
                assert(watched(path, visit)[i] == rest[i - 1]);
            }
        }
    }
}

/// The visits of paths at or below a base watch nothing but paths at or below it.
proof fn lemma_visits_stay_below<H, E>(
    base: Seq<char>,
    paths: Seq<Seq<char>>,
    visits: Seq<Visit<H, E>>,
)
    requires
        paths.len() == visits.len(),
        forall|i: int| 0 <= i < visits.len() ==> is_complete(#[trigger] visits[i]),
        forall|i: int|
            0 <= i < visits.len() ==> starts_with(#[trigger] paths[i], base)
                && lists_what_lies_below(paths[i], visits[i]),
    ensures
        forall|i: int|
            0 <= i < all_watched(paths, visits).len() ==> starts_with(
                (#[trigger] all_watched(paths, visits)[i]).0,
                base,
            ),
    decreases visits,
{
    if visits.len() > 0 {
        let first = watched(paths[0], visits[0]);
        assert(is_complete(visits[0]));
        assert(starts_with(paths[0], base));
        law_walk_stays_below(paths[0], visits[0]);
        assert forall|i: int| 0 <= i < visits.skip(1).len() implies is_complete(
            #[trigger] visits.skip(1)[i],
        ) by {
            assert(visits.skip(1)[i] == visits[i + 1]);
        }
        assert forall|i: int| 0 <= i < visits.skip(1).len() implies starts_with(
            #[trigger] paths.skip(1)[i],
            base,
        ) && lists_what_lies_below(paths.skip(1)[i], visits.skip(1)[i]) by {
            assert(paths.skip(1)[i] == paths[i + 1]);
        }
        lemma_visits_stay_below(base, paths.skip(1), visits.skip(1));
        let rest = all_watched(paths.skip(1), visits.skip(1));
        assert forall|i: int| 0 <= i < all_watched(paths, visits).len() implies starts_with(
            (#[trigger] all_watched(paths, visits)[i]).0,
            base,
        ) by {
            if i < first.len() {
                assert(all_watched(paths, visits)[i] == first[i]);
                assert(starts_with(first[i].0, paths[0]));
            } else {
                assert(all_watched(paths, visits)[i] == rest[i - first.len()]);
            }
        }
    }
}

/// Whether `table` is `before` with nothing but paths at or below `path` watched in addition, none
/// of which has a cookie that stood for a path before.
spec fn adds_below<H>(
    before: WatchersView<H>,
    table: WatchersView<H>,
    path: Seq<char>,
) -> bool {
    let n = before.entries.len();
    &&& n <= table.entries.len()
    &&& table.entries.take(n as int) == before.entries
    &&& forall|i: int|
        n <= i < table.entries.len() ==> starts_with((#[trigger] table.entries[i]).0, path)
            && !before.cookies.contains_key(cookie_of(table.entries[i].0))
    &&& forall|c: u64| #[trigger]
        before.cookies.contains_key(c) ==> table.cookies.contains_key(c) && table.cookies[c]
            == before.cookies[c]
    &&& forall|c: u64| #[trigger]
        table.cookies.contains_key(c) && !before.cookies.contains_key(c) ==> exists|i: int|
            n <= i < table.entries.len() && cookie_of((#[trigger] table.entries[i]).0) == c
}

/// Watching paths at or below `path` adds nothing else.
proof fn lemma_inserted_all_adds_below<H>(
    before: WatchersView<H>,
    table: WatchersView<H>,
    path: Seq<char>,
    paths: Seq<(Seq<char>, H)>,
)
    requires
        adds_below(before, table, path),
        forall|i: int|
            0 <= i < before.entries.len() ==> !starts_with((#[trigger] before.entries[i]).0, path),
        forall|i: int|
            0 <= i < paths.len() ==> starts_with((#[trigger] paths[i]).0, path)
                && !before.cookies.contains_key(cookie_of(paths[i].0)),
    ensures
        adds_below(before, inserted_all(table, paths), path),
    decreases paths.len(),
{
    if paths.len() > 0 {
        let (p, handle) = paths[0];
        let next = table.inserted(p, handle);
        let n = before.entries.len();
        let k = table.index(p);
        assert(starts_with(paths[0].0, path));
        if table.watches(p) {
            assert(same_path(table.entries[k].0, p));
            if k < n {
                assert(table.entries.take(n as int)[k] == before.entries[k]);
            }
            assert(next.entries[k].0 == table.entries[k].0);
            assert(cookie_of(next.entries[k].0) == cookie_of(p));
        } else {
            assert(next.entries[table.entries.len() as int].0 == p);
        }
        assert(next.entries.take(n as int) =~= before.entries) by {
            assert(table.entries.take(n as int) =~= before.entries);
            assert forall|i: int| 0 <= i < n implies next.entries[i] == before.entries[i] by {
                assert(table.entries.take(n as int)[i] == before.entries[i]);
            }
        }
        assert forall|c: u64| #[trigger]
            next.cookies.contains_key(c) && !before.cookies.contains_key(c) implies exists|i: int|
            n <= i < next.entries.len() && cookie_of((#[trigger] next.entries[i]).0) == c by {
            if c != cookie_of(p) {
                assert(table.cookies.contains_key(c));
                let i = choose|i: int|
                    n <= i < table.entries.len() && cookie_of((#[trigger] table.entries[i]).0) == c;
                assert(next.entries[i].0 == table.entries[i].0);
            }
        }
        assert forall|i: int| 0 <= i < paths.skip(1).len() implies starts_with(
            (#[trigger] paths.skip(1)[i]).0,
            path,
        ) && !before.cookies.contains_key(cookie_of(paths.skip(1)[i].0)) by {
            assert(paths.skip(1)[i] == paths[i + 1]);
        }
        lemma_inserted_all_adds_below(before, next, path, paths.skip(1));
    }
}

/// Forgetting a path and what lies below it undoes the walk that watched them, whether the walk
/// succeeded or not, and forgetting it once more changes nothing. The paths must not have been
/// watched before, nor their cookies have stood for other paths.
pub proof fn law_forgetting_undoes_a_walk<H, E>(
    path: Seq<char>,
    table: WatchersView<H>,
    visit: Visit<H, E>,
)
    requires
        is_complete(visit),
        lists_what_lies_below(path, visit),
        forall|i: int|
            0 <= i < table.entries.len() ==> !starts_with((#[trigger] table.entries[i]).0, path),
        !table.cookies.contains_key(cookie_of(path)),
        forall|i: int|
            0 <= i < watched(path, visit).len() ==> !table.cookies.contains_key(
                cookie_of((#[trigger] watched(path, visit)[i]).0),
            ),
    ensures
        inserted_all(table, watched(path, visit)).without_tree(path) == table,
        run(WalkView::start(path), table, replies(visit)).0.without_tree(path) == table,
        table.without_tree(path) == table,
{
    let paths = watched(path, visit);
    let next = inserted_all(table, paths);
    let pred = |e: (Seq<char>, H)| !starts_with(e.0, path);
    let n = table.entries.len() as int;
    law_walk_watches_the_tree(path, table, visit);
    law_walk_stays_below(path, visit);
    assert(table.entries.take(n) =~= table.entries);
    assert(adds_below(table, table, path));
    lemma_inserted_all_adds_below(table, table, path, paths);
    assert forall|i: int| 0 <= i < next.entries.len() implies (pred(#[trigger] next.entries[i])
        <==> i < n) by {
        if i < n {
            assert(next.entries.take(n)[i] == table.entries[i]);
        }
    }
    lemma_filter_take(next.entries, pred, n);
    lemma_filter_take(table.entries, pred, n);
    assert(next.without_tree(path).entries =~= table.entries);
    assert forall|c: u64| next.tree_cookies(path).contains(c) implies !(
    #[trigger] table.cookies.contains_key(c)) by {
        if c != cookie_of(path) {
            let i = choose|i: int|
                0 <= i < next.entries.len() && starts_with((#[trigger] next.entries[i]).0, path)
                    && c == cookie_of(next.entries[i].0);
            assert(pred(next.entries[i]) <==> i < n);
        }
    }
    assert(next.without_tree(path).cookies =~= table.cookies) by {
        assert forall|c: u64| #[trigger] next.without_tree(path).cookies.contains_key(c)
            <==> table.cookies.contains_key(c) by {
            if next.cookies.contains_key(c) && !table.cookies.contains_key(c) {
                let i = choose|i: int|
                    n <= i < next.entries.len() && cookie_of((#[trigger] next.entries[i]).0) == c;
                assert(next.tree_cookies(path).contains(c));
            }
        }
    }
    assert(table.without_tree(path).entries =~= table.entries);
    assert(table.without_tree(path).cookies =~= table.cookies) by {
        assert forall|c: u64| table.tree_cookies(path).contains(c) implies c == cookie_of(path) by {
            if c != cookie_of(path) {
                let i = choose|i: int|
                    0 <= i < table.entries.len() && starts_with(
                        (#[trigger] table.entries[i]).0,
                        path,
                    ) && c == cookie_of(table.entries[i].0);
                assert(!starts_with(table.entries[i].0, path));
            }
        }
    }
}

/// A walk begins with its path: it asks for a handle of it, and has nothing else to visit.
pub proof fn law_walk_begins_with_its_path(path: Seq<char>)
    ensures
        WalkView::start(path).action() == ActionView::Open(path),
        WalkView::start(path).current == path,
        WalkView::start(path).pending.len() == 0,
        WalkView::start(path).is_top,
{
}

/// What a walk asks of the path at hand and what it does with it, reply by reply. A path that got a
/// handle is in the table at once, and no other reply changes the table. It is then associated,
/// inspected and, if it is a directory, listed.
pub proof fn law_walk_asks_of_one_path<H, E>(
    walk: WalkView,
    table: WatchersView<H>,
    reply: Reply<H, E>,
)
    requires
        answers(walk.action(), reply),
    ensures
        walk.phase is Open ==> walk.action() == ActionView::Open(walk.current),
        walk.phase is Associate ==> walk.action() == ActionView::Associate(
            walk.current,
            cookie_of(walk.current),
            WatchedEvents { modified: true, attributes: true, truncated: true, accessed: false },
        ),
        walk.phase is Inspect ==> walk.action() == ActionView::Inspect(walk.current),
        walk.phase is List ==> walk.action() == ActionView::List(walk.current),
        walk.table(table, reply) == match reply {
            Reply::Opened(Ok(handle)) => table.inserted(walk.current, handle),
            _ => table,
        },
        ({
            let goes_on = reply matches Reply::Opened(Ok(_)) || reply matches Reply::Associated(
                Ok(_),
            ) || reply matches Reply::Inspected(Ok(true));
            goes_on ==> {
                &&& walk.next(reply) matches WalkNext::On(next)
                &&& next.current == walk.current
                &&& next.pending == walk.pending
                &&& next.is_top == walk.is_top
                &&& walk.phase is Open ==> next.phase is Associate
                &&& walk.phase is Associate ==> next.phase is Inspect
                &&& walk.phase is Inspect ==> next.phase is List
            }
        }),
{
}

/// What comes after the path at hand. What a directory holds is visited next, in the order of its
/// listing, and then what was to be visited before; a path that is no directory, or for which
/// something failed, adds nothing. Only a failure of the path with which the walk began ends the
/// walk with an error; otherwise it ends when nothing is left to visit.
pub proof fn law_walk_visits_in_order<H, E>(walk: WalkView, reply: Reply<H, E>)
    requires
        answers(walk.action(), reply),
    ensures
        ({
            let error = match reply {
                Reply::Opened(Err(e))
                | Reply::Associated(Err(e))
                | Reply::Inspected(Err(e))
                | Reply::Listed(Err(e)) => Some(e),
                _ => None,
            };
            let held = match reply {
                Reply::Listed(Ok(entries)) => found_paths(entries@),
                _ => Seq::empty(),
            };
            let to_visit = held + walk.pending.reverse();
            let is_done = error is Some || reply is Listed || reply matches Reply::Inspected(
                Ok(false),
            );
            is_done ==> if error is Some && walk.is_top {
                walk.next(reply) == WalkNext::End(Err(error->Some_0))
            } else if to_visit.len() == 0 {
                walk.next(reply) == WalkNext::<E>::End(Ok(()))
            } else {
                &&& walk.next(reply) matches WalkNext::On(next)
                &&& next.current == to_visit[0]
                &&& next.pending.reverse() == to_visit.skip(1)
                &&& next.phase is Open
                &&& !next.is_top
            }
        }),
{
    let held = match reply {
        Reply::Listed(Ok(entries)) => found_paths(entries@),
        _ => Seq::empty(),
    };
    let to_visit = held + walk.pending.reverse();
    let stack = walk.pending + held.reverse();
    assert(stack.reverse() =~= to_visit);
    if reply is Listed {
    } else {
        assert(stack =~= walk.pending);
    }
    if stack.len() > 0 {
        assert(stack.last() == to_visit[0]);
        assert(stack.drop_last().reverse() =~= to_visit.skip(1));
    }
}

/// What a whole walk watches, from the top down: the path itself, first, if it got a handle; for a
/// directory that was listed all that the visits of its entries watch; and nothing else. It fails
/// if and only if something failed for the path itself, and with that error.
pub proof fn law_walk_watches_what_got_a_handle<H, E>(
    path: Seq<char>,
    visit: Visit<H, E>,
    w: (Seq<char>, H),
)
    requires
        is_complete(visit),
    ensures
        visit is NoHandle <==> watched(path, visit).len() == 0,
        visit is NotAssociated || visit is NotInspected || visit is File || visit is NotListed
            ==> watched(path, visit).len() == 1,
        visit matches Visit::File(h) ==> watched(path, visit)[0] == (path, h),
        visit matches Visit::NotAssociated(h, _) ==> watched(path, visit)[0] == (path, h),
        visit matches Visit::NotInspected(h, _) ==> watched(path, visit)[0] == (path, h),
        visit matches Visit::NotListed(h, _) ==> watched(path, visit)[0] == (path, h),
        visit matches Visit::Directory(h, entries, visits) ==> watched(path, visit)[0] == (path, h)
            && (watched(path, visit).contains(w) <==> w == (path, h) || exists|i: int|
            0 <= i < visits.len() && watched(
                found_paths(entries@)[i],
                #[trigger] visits[i],
            ).contains(w)),
        outcome(visit) is Ok <==> visit is File || visit is Directory,
        outcome(visit) matches Err(e) ==> (visit matches Visit::NoHandle(f) ==> e == f) && (
        visit matches Visit::NotAssociated(_, f) ==> e == f) && (
        visit matches Visit::NotInspected(_, f) ==> e == f) && (visit matches Visit::NotListed(
            _,
            f,
        ) ==> e == f),
{
    if let Visit::Directory(h, entries, visits) = visit {
        let paths = found_paths(entries@);
        let rest = all_watched(paths, visits);
        let all = watched(path, visit);
        lemma_all_watched_member(paths, visits, w);
        assert(all[0] == (path, h));
        if all.contains(w) {
            let k = choose|k: int| 0 <= k < all.len() && all[k] == w;
            if k > 0 {
                assert(rest[k - 1] == w);
            }
        }
        if rest.contains(w) {
            let k = choose|k: int| 0 <= k < rest.len() && rest[k] == w;
            assert(all[k + 1] == w);
        }
    }
}

/// Some visits watch just what one of them watches.
proof fn lemma_all_watched_member<H, E>(
    paths: Seq<Seq<char>>,
    visits: Seq<Visit<H, E>>,
    w: (Seq<char>, H),
)
    requires
        paths.len() == visits.len(),
    ensures
        all_watched(paths, visits).contains(w) <==> exists|i: int|
            0 <= i < visits.len() && watched(paths[i], #[trigger] visits[i]).contains(w),
    decreases visits.len(),
{
    if visits.len() > 0 {
        let first = watched(paths[0], visits[0]);
        let later = all_watched(paths.skip(1), visits.skip(1));
        let all = all_watched(paths, visits);
        lemma_all_watched_member(paths.skip(1), visits.skip(1), w);
        if all.contains(w) {
            let k = choose|k: int| 0 <= k < all.len() && all[k] == w;
            if k < first.len() {
                assert(first[k] == w);
                assert(watched(paths[0], visits[0]).contains(w));
            } else {
                assert(later[k - first.len()] == w);
                assert(later.contains(w));
                let i = choose|i: int|
                    0 <= i < visits.skip(1).len() && watched(
                        paths.skip(1)[i],
                        #[trigger] visits.skip(1)[i],
                    ).contains(w);
                assert(visits.skip(1)[i] == visits[i + 1]);
                assert(watched(paths[i + 1], visits[i + 1]).contains(w));
            }
        }
        if exists|i: int|
            0 <= i < visits.len() && watched(paths[i], #[trigger] visits[i]).contains(w) {
            let i = choose|i: int|
                0 <= i < visits.len() && watched(paths[i], #[trigger] visits[i]).contains(w);
            if i == 0 {
                let k = choose|k: int| 0 <= k < first.len() && first[k] == w;
                assert(all[k] == w);
            } else {
                assert(visits.skip(1)[i - 1] == visits[i]);
                assert(paths.skip(1)[i - 1] == paths[i]);
                assert(watched(paths.skip(1)[i - 1], visits.skip(1)[i - 1]).contains(w));
                let k = choose|k: int| 0 <= k < later.len() && later[k] == w;
                assert(all[first.len() + k] == w);
            }
        }
    }
}

} // verus!
