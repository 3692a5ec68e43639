//! What a rescan does from its beginning to its end.
use crate::cookie::cookie_of;
use crate::event::{EventPortEventType, PendingEventView};
use crate::path::{components, is_below, same_path, starts_with};
use crate::port::{
    answers, found_paths, law_found_paths_are_those_of_entries, ActionView, DirEntry, Reply,
};
use crate::rescan::{
    created, deletions, is_listed, is_stale, next_unwatched, stale_paths, watches_below,
    without_all, RescanNext, RescanPhaseView, RescanView,
};
use crate::walk::{
    inserted_all, is_complete, law_inserted_all_watches, law_walk_success_watches,
    law_walk_watches_the_tree, law_walk_watches_what_got_a_handle, outcome, replies, run, watched, Visit, WalkNext, WalkView,
};
use crate::watchers::{
    keeps_order, lemma_filter_all, lemma_filter_leaves, lemma_filter_member, stands_before,
    WatchersView,
};
use vstd::prelude::*;

verus! {

/// Forgetting paths one after the other forgets just these.
proof fn lemma_without_all<H>(table: WatchersView<H>, gone: Seq<Seq<char>>)
    requires
        table.wf(),
    ensures
        without_all(table, gone).wf(),
        forall|p: Seq<char>| #[trigger]
            without_all(table, gone).watches(p) <==> table.watches(p) && forall|k: int|
                0 <= k < gone.len() ==> !same_path(p, #[trigger] gone[k]),
        forall|i: int|
            0 <= i < without_all(table, gone).entries.len() ==> table.entries.contains(
                #[trigger] without_all(table, gone).entries[i],
            ),
    decreases gone.len(),
{
    if gone.len() > 0 {
        let next = table.without(gone[0]);
        let rest = gone.skip(1);
        table.lemma_without_wf(gone[0]);
        lemma_without_all(next, rest);
        assert forall|p: Seq<char>| #[trigger] without_all(table, gone).watches(p)
            <==> table.watches(p) && forall|k: int|
            0 <= k < gone.len() ==> !same_path(p, #[trigger] gone[k]) by {
            assert(without_all(next, rest).watches(p) <==> next.watches(p) && forall|k: int|
                0 <= k < rest.len() ==> !same_path(p, #[trigger] rest[k]));
            assert(next.watches(p) <==> table.watches(p) && !same_path(p, gone[0]));
            if forall|k: int| 0 <= k < gone.len() ==> !same_path(p, #[trigger] gone[k]) {
                assert forall|k: int| 0 <= k < rest.len() implies !same_path(
                    p,
                    #[trigger] rest[k],
                ) by {
                    assert(rest[k] == gone[k + 1]);
                }
            }
            if !same_path(p, gone[0]) && forall|k: int|
                0 <= k < rest.len() ==> !same_path(p, #[trigger] rest[k]) {
                assert forall|k: int| 0 <= k < gone.len() implies !same_path(
                    p,
                    #[trigger] gone[k],
                ) by {
                    if k > 0 {
                        assert(rest[k - 1] == gone[k]);
                    }
                }
            }
        }
        let pred = |e: (Seq<char>, H)| !same_path(e.0, gone[0]);
        assert forall|i: int| 0 <= i < without_all(table, gone).entries.len() implies
            table.entries.contains(#[trigger] without_all(table, gone).entries[i]) by {
            let e = without_all(next, rest).entries[i];
            assert(next.entries.contains(e));
            let j = choose|j: int| 0 <= j < next.entries.len() && next.entries[j] == e;
            lemma_filter_member(table.entries, pred, j);
        }
    }
}

/// The stale paths are the watched paths that are stale.
proof fn lemma_stale_paths<H>(
    table: WatchersView<H>,
    dir: Seq<char>,
    listed: Seq<Seq<char>>,
    p: Seq<char>,
)
    requires
        table.watches(p),
    ensures
        is_stale(p, dir, listed) <==> exists|k: int|
            0 <= k < stale_paths(table, dir, listed).len() && same_path(
                p,
                #[trigger] stale_paths(table, dir, listed)[k],
            ),
{
    let pred = |e: (Seq<char>, H)| is_stale(e.0, dir, listed);
    let stale = stale_paths(table, dir, listed);
    let kept = table.entries.filter(pred);
    if is_stale(p, dir, listed) {
        let i = table.index(p);
        assert(same_path(table.entries[i].0, p));
        assert(pred(table.entries[i]));
        table.entries.lemma_filter_contains(pred, i);
        let k = choose|k: int| 0 <= k < kept.len() && kept[k] == table.entries[i];
        assert(stale[k] == table.entries[i].0);
    }
    if exists|k: int| 0 <= k < stale.len() && same_path(p, #[trigger] stale[k]) {
        let k = choose|k: int| 0 <= k < stale.len() && same_path(p, #[trigger] stale[k]);
        lemma_filter_member(table.entries, pred, k);
        assert(stale[k] == kept[k].0);
    }
}

/// The end of a rescan forgets the watched paths that are stale, and no others.
pub proof fn law_only_stale_paths_are_forgotten<H>(
    table: WatchersView<H>,
    dir: Seq<char>,
    listed: Seq<Seq<char>>,
)
    requires
        table.wf(),
    ensures
        ({
            let next = without_all(table, stale_paths(table, dir, listed));
            &&& next.wf()
            &&& forall|p: Seq<char>| #[trigger]
                next.watches(p) <==> table.watches(p) && !is_stale(p, dir, listed)
            &&& forall|i: int|
                0 <= i < next.entries.len() ==> table.entries.contains(#[trigger] next.entries[i])
        }),
{
    let stale = stale_paths(table, dir, listed);
    let next = without_all(table, stale);
    lemma_without_all(table, stale);
    assert forall|p: Seq<char>| #[trigger] next.watches(p) <==> table.watches(p) && !is_stale(
        p,
        dir,
        listed,
    ) by {
        if table.watches(p) {
            lemma_stale_paths(table, dir, listed, p);
        }
    }
}

/// After a rescan each watched path below the directory is, or lies below, a path of the listing.
pub proof fn law_listed_paths_are_left<H>(
    table: WatchersView<H>,
    dir: Seq<char>,
    listed: Seq<Seq<char>>,
    p: Seq<char>,
)
    requires
        table.wf(),
        without_all(table, stale_paths(table, dir, listed)).watches(p),
        is_below(p, dir),
    ensures
        exists|i: int|
            0 <= i < listed.len() && starts_with(p, #[trigger] listed[i]) && is_below(
                listed[i],
                dir,
            ),
{
    law_only_stale_paths_are_forgotten(table, dir, listed);
    let parts = components(p);
    let base = components(dir);
    let n = choose|n: int|
        base.len() < n <= parts.len() && is_listed(listed, #[trigger] parts.take(n));
    let i = choose|i: int| 0 <= i < listed.len() && components(#[trigger] listed[i]) == parts.take(n);
    assert(starts_with(p, listed[i]));
    assert(base =~= parts.subrange(0, base.len() as int));
    assert(base =~= parts.take(n).subrange(0, base.len() as int));
    assert(starts_with(listed[i], dir));
    assert(components(listed[i]).len() != base.len());
}

/// A rescan leaves alone what is, or lies below, an entry that was listed, and what does not lie
/// below the directory.
pub proof fn law_listed_trees_stay<H>(
    table: WatchersView<H>,
    dir: Seq<char>,
    listed: Seq<Seq<char>>,
    p: Seq<char>,
)
    requires
        table.wf(),
        table.watches(p),
        !is_below(p, dir) || exists|i: int|
            0 <= i < listed.len() && starts_with(p, #[trigger] listed[i]) && is_below(
                listed[i],
                dir,
            ),
    ensures
        without_all(table, stale_paths(table, dir, listed)).watches(p),
{
    law_only_stale_paths_are_forgotten(table, dir, listed);
    if is_below(p, dir) {
        let i = choose|i: int|
            0 <= i < listed.len() && starts_with(p, #[trigger] listed[i]) && is_below(
                listed[i],
                dir,
            );
        let entry = components(listed[i]);
        let base = components(dir);
        let n = entry.len() as int;
        assert(entry =~= components(p).take(n));
        assert(base.len() <= n);
        if base.len() == n {
            assert(base =~= entry);
        }
        assert(is_listed(listed, components(p).take(n)));
        assert(!is_stale(p, dir, listed));
    }
}

/// What is answered about an entry that was not watched: whether it is a directory, the walk over
/// it, and, if that succeeded, whether the buffer could be reached.
pub struct EntryAnswer<H, E> {
    pub is_dir: Result<bool, E>,
    pub visit: Visit<H, E>,
    pub buffered: Result<(), E>,
}

/// Whether the answers are those for the entries from `at` on that are not watched when their turn
/// comes.
pub open spec fn answers_entries<H, E>(
    entries: Seq<DirEntry>,
    at: int,
    table: WatchersView<H>,
    given: Seq<EntryAnswer<H, E>>,
) -> bool
    decreases given.len(),
{
    let i = next_unwatched(entries, at, table);
    if i >= entries.len() {
        given.len() == 0
    } else {
        &&& given.len() > 0
        &&& is_complete(given[0].visit)
        &&& answers_entries(
            entries,
            i + 1,
            inserted_all(table, watched(entries[i]@.unwrap(), given[0].visit)),
            given.skip(1),
        )
    }
}

/// The table when all entries from `at` on have been looked at.
pub open spec fn scanned<H, E>(
    entries: Seq<DirEntry>,
    at: int,
    table: WatchersView<H>,
    given: Seq<EntryAnswer<H, E>>,
) -> WatchersView<H>
    decreases given.len(),
{
    let i = next_unwatched(entries, at, table);
    if i >= entries.len() || given.len() == 0 {
        table
    } else {
        scanned(
            entries,
            i + 1,
            inserted_all(table, watched(entries[i]@.unwrap(), given[0].visit)),
            given.skip(1),
        )
    }
}

/// The events for the entries from `at` on that are watched from now on: those that were not
/// watched when their turn came, and over which the walk succeeded.
pub open spec fn creations<H, E>(
    entries: Seq<DirEntry>,
    at: int,
    table: WatchersView<H>,
    given: Seq<EntryAnswer<H, E>>,
) -> Seq<PendingEventView>
    decreases given.len(),
{
    let i = next_unwatched(entries, at, table);
    if i >= entries.len() || given.len() == 0 {
        Seq::empty()
    } else {
        let path = entries[i]@.unwrap();
        let later = creations(
            entries,
            i + 1,
            inserted_all(table, watched(path, given[0].visit)),
            given.skip(1),
        );
        match outcome(given[0].visit) {
            Ok(_) => seq![created(path, given[0].is_dir matches Ok(dir) && dir)] + later,
            Err(_) => later,
        }
    }
}

/// The replies that a rescan gets of one answer.
pub open spec fn entry_replies<H, E>(answer: EntryAnswer<H, E>) -> Seq<Reply<H, E>> {
    match outcome(answer.visit) {
        Ok(_) => seq![Reply::Inspected(answer.is_dir)] + replies(answer.visit) + seq![
            Reply::Buffered(answer.buffered),
        ],
        Err(_) => seq![Reply::Inspected(answer.is_dir)] + replies(answer.visit),
    }
}

/// The replies that a rescan gets of the answers, one after the other.
pub open spec fn all_entry_replies<H, E>(given: Seq<EntryAnswer<H, E>>) -> Seq<Reply<H, E>>
    decreases given.len(),
{
    if given.len() == 0 {
        Seq::empty()
    } else {
        entry_replies(given[0]) + all_entry_replies(given.skip(1))
    }
}

/// A rescan over a sequence of replies: the table it leaves, the events it sent to the buffer, and
/// how it ended, if it ended with the last reply and each reply was one to what it asked.
pub open spec fn run_rescan<H, E>(
    scan: RescanView,
    table: WatchersView<H>,
    script: Seq<Reply<H, E>>,
) -> (WatchersView<H>, Seq<PendingEventView>, Option<Result<(), E>>)
    decreases script.len(),
{
    if script.len() == 0 || !answers(scan.action(), script[0]) {
        (table, Seq::empty(), None)
    } else {
        let sent = match scan.action() {
            ActionView::Buffer(event) => seq![event],
            _ => Seq::empty(),
        };
        let (next, next_table) = scan.next(table, script[0]);
        match next {
            RescanNext::End(result) => (
                next_table,
                sent,
                if script.len() == 1 {
                    Some(result)
                } else {
                    None
                },
            ),
            RescanNext::On(next) => {
                let rest = run_rescan(next, next_table, script.skip(1));
                (rest.0, sent + rest.1, rest.2)
            },
        }
    }
}

/// A run that has come to this point, where these replies are still to come.
spec fn resume_rescan<H, E>(
    next: RescanNext<E>,
    table: WatchersView<H>,
    script: Seq<Reply<H, E>>,
) -> (WatchersView<H>, Seq<PendingEventView>, Option<Result<(), E>>) {
    match next {
        RescanNext::End(result) => (
            table,
            Seq::empty(),
            if script.len() == 0 {
                Some(result)
            } else {
                None
            },
        ),
        RescanNext::On(scan) => run_rescan(scan, table, script),
    }
}

/// One step of a run.
proof fn lemma_rescan_step<H, E>(
    scan: RescanView,
    table: WatchersView<H>,
    reply: Reply<H, E>,
    rest: Seq<Reply<H, E>>,
)
    requires
        answers(scan.action(), reply),
    ensures
        ({
            let (next, next_table) = scan.next(table, reply);
            let after = resume_rescan(next, next_table, rest);
            let sent = match scan.action() {
                ActionView::Buffer(event) => seq![event],
                _ => Seq::empty(),
            };
            run_rescan(scan, table, seq![reply] + rest) == (after.0, sent + after.1, after.2)
        }),
{
    let script = seq![reply] + rest;
    assert(script.skip(1) =~= rest);
    let (next, next_table) = scan.next(table, reply);
    if next is End {
        let sent = match scan.action() {
            ActionView::Buffer(event) => seq![event],
            _ => Seq::empty(),
        };
        assert(sent + Seq::empty() =~= sent);
    }
}

/// Where a rescan goes on when the walk over an entry has ended.
spec fn after_walk<H, E>(
    scan: RescanView,
    path: Seq<char>,
    is_dir: bool,
    result: Result<(), E>,
    table: WatchersView<H>,
) -> (RescanNext<E>, WatchersView<H>) {
    match result {
        Ok(_) => (
            RescanNext::On(scan.at(RescanPhaseView::Announcing(created(path, is_dir)))),
            table,
        ),
        Err(_) => scan.advance(table),
    }
}

/// A rescan goes through the walk over an entry as the walk alone does.
proof fn lemma_rescan_walk<H, E>(
    scan: RescanView,
    path: Seq<char>,
    is_dir: bool,
    walk: WalkView,
    table: WatchersView<H>,
    script: Seq<Reply<H, E>>,
    rest: Seq<Reply<H, E>>,
)
    requires
        run(walk, table, script).1 is Some,
    ensures
        ({
            let (walked, result) = run(walk, table, script);
            let (next, next_table) = after_walk(scan, path, is_dir, result.unwrap(), walked);
            run_rescan(
                scan.at(RescanPhaseView::Walking(path, is_dir, walk)),
                table,
                script + rest,
            ) == resume_rescan(next, next_table, rest)
        }),
    decreases script.len(),
{
    let here = scan.at(RescanPhaseView::Walking(path, is_dir, walk));
    let reply = script[0];
    let tail = script.skip(1);
    assert(script + rest =~= seq![reply] + (tail + rest));
    lemma_rescan_step(here, table, reply, tail + rest);
    let walked = walk.table(table, reply);
    match walk.next(reply) {
        WalkNext::On(next) => {
            lemma_rescan_walk(scan, path, is_dir, next, walked, tail, rest);
            let on = here.at(RescanPhaseView::Walking(path, is_dir, next));
            assert(on == scan.at(RescanPhaseView::Walking(path, is_dir, next)));
            let after = run_rescan(on, walked, tail + rest);
            assert(Seq::empty() + after.1 =~= after.1);
        },
        WalkNext::End(result) => {
            assert(tail + rest =~= rest);
            let (next, next_table) = after_walk(scan, path, is_dir, result, walked);
            assert(here.next(table, reply) == (next, next_table));
            let after = resume_rescan(next, next_table, rest);
            assert(Seq::empty() + after.1 =~= after.1);
        },
    }
}

/// A run through the replies about one entry.
proof fn lemma_rescan_entry<H, E>(
    scan: RescanView,
    path: Seq<char>,
    table: WatchersView<H>,
    answer: EntryAnswer<H, E>,
    rest: Seq<Reply<H, E>>,
)
    requires
        scan.phase == RescanPhaseView::Inspecting(path),
        is_complete(answer.visit),
    ensures
        ({
            let walked = inserted_all(table, watched(path, answer.visit));
            let (next, next_table) = scan.advance::<H, E>(walked);
            let after = resume_rescan(next, next_table, rest);
            let sent = match outcome(answer.visit) {
                Ok(_) => seq![created(path, answer.is_dir matches Ok(dir) && dir)],
                Err(_) => Seq::empty(),
            };
            run_rescan(scan, table, entry_replies(answer) + rest) == (
                after.0,
                sent + after.1,
                after.2,
            )
        }),
{
    let is_dir = answer.is_dir matches Ok(dir) && dir;
    let visited = replies(answer.visit);
    let walked = inserted_all(table, watched(path, answer.visit));
    let walking = scan.at(RescanPhaseView::Walking(path, is_dir, WalkView::start(path)));
    law_walk_watches_the_tree(path, table, answer.visit);
    let (next, next_table) = scan.advance::<H, E>(walked);
    let after = resume_rescan(next, next_table, rest);
    match outcome(answer.visit) {
        Ok(_) => {
            let behind = seq![Reply::<H, E>::Buffered(answer.buffered)] + rest;
            assert(entry_replies(answer) + rest =~= seq![Reply::Inspected(answer.is_dir)] + (visited
                + behind));
            lemma_rescan_step(scan, table, Reply::Inspected(answer.is_dir), visited + behind);
            lemma_rescan_walk(scan, path, is_dir, WalkView::start(path), table, visited, behind);
            let event = created(path, is_dir);
            let announcing = scan.at(RescanPhaseView::Announcing(event));
            lemma_rescan_step(announcing, walked, Reply::Buffered(answer.buffered), rest);
            assert(announcing.next(walked, Reply::<H, E>::Buffered(answer.buffered)) == scan.advance::<
                H,
                E,
            >(walked));
            assert(Seq::empty() + (seq![event] + after.1) =~= seq![event] + after.1);
        },
        Err(_) => {
            assert(entry_replies(answer) + rest =~= seq![Reply::Inspected(answer.is_dir)] + (visited
                + rest));
            lemma_rescan_step(scan, table, Reply::Inspected(answer.is_dir), visited + rest);
            lemma_rescan_walk(scan, path, is_dir, WalkView::start(path), table, visited, rest);
            assert(Seq::empty() + after.1 =~= after.1);
        },
    }
}

/// A run through the replies about all entries from here on.
proof fn lemma_rescan_entries<H, E>(
    scan: RescanView,
    table: WatchersView<H>,
    given: Seq<EntryAnswer<H, E>>,
    rest: Seq<Reply<H, E>>,
)
    requires
        answers_entries(scan.entries, scan.next, table, given),
    ensures
        ({
            let (next, next_table) = scan.advance::<H, E>(table);
            let end_table = scanned(scan.entries, scan.next, table, given);
            let done = RescanView { next: scan.entries.len() as int, ..scan };
            let (last, last_table) = done.advance::<H, E>(end_table);
            let after = resume_rescan(last, last_table, rest);
            resume_rescan(next, next_table, all_entry_replies(given) + rest) == (
                after.0,
                creations(scan.entries, scan.next, table, given) + after.1,
                after.2,
            )
        }),
    decreases given.len(),
{
    let i = next_unwatched(scan.entries, scan.next, table);
    let (next, next_table) = scan.advance::<H, E>(table);
    let end_table = scanned(scan.entries, scan.next, table, given);
    let done = RescanView { next: scan.entries.len() as int, ..scan };
    let (last, last_table) = done.advance::<H, E>(end_table);
    let after = resume_rescan(last, last_table, rest);
    if i >= scan.entries.len() {
        assert(all_entry_replies(given) + rest =~= rest);
        assert(Seq::empty() + after.1 =~= after.1);
    } else {
        let path = scan.entries[i]@.unwrap();
        let inspecting = RescanView {
            next: i + 1,
            phase: RescanPhaseView::Inspecting(path),
            ..scan
        };
        assert(next == RescanNext::<E>::On(inspecting));
        let behind = all_entry_replies(given.skip(1)) + rest;
        assert(all_entry_replies(given) + rest =~= entry_replies(given[0]) + behind);
        lemma_rescan_entry(inspecting, path, table, given[0], behind);
        let walked = inserted_all(table, watched(path, given[0].visit));
        lemma_rescan_entries(inspecting, walked, given.skip(1), rest);
        let done2 = RescanView { next: scan.entries.len() as int, ..inspecting };
        assert(done2.advance::<H, E>(end_table) == done.advance::<H, E>(end_table));
        let later = creations(scan.entries, i + 1, walked, given.skip(1));
        match outcome(given[0].visit) {
            Ok(_) => {
                let event = created(path, given[0].is_dir matches Ok(dir) && dir);
                assert(seq![event] + (later + after.1) =~= (seq![event] + later) + after.1);
            },
            Err(_) => {
                assert(Seq::empty() + (later + after.1) =~= later + after.1);
            },
        }
    }
}

/// A run through the replies to the events for paths that are gone.
proof fn lemma_rescan_deletions<H, E>(
    scan: RescanView,
    table: WatchersView<H>,
    events: Seq<PendingEventView>,
    buffered: Seq<Result<(), E>>,
)
    requires
        events.len() > 0,
        buffered.len() == events.len(),
    ensures
        run_rescan(
            scan.at(RescanPhaseView::Deleting(events)),
            table,
            buffered.map_values(|r: Result<(), E>| Reply::<H, E>::Buffered(r)),
        ) == (table, events, Some(Ok::<(), E>(()))),
    decreases events.len(),
{
    let reply = |r: Result<(), E>| Reply::<H, E>::Buffered(r);
    let script = buffered.map_values(reply);
    let here = scan.at(RescanPhaseView::Deleting(events));
    let tail = buffered.skip(1).map_values(reply);
    assert(script =~= seq![reply(buffered[0])] + tail);
    lemma_rescan_step(here, table, reply(buffered[0]), tail);
    if events.len() > 1 {
        lemma_rescan_deletions(scan, table, events.skip(1), buffered.skip(1));
        assert(here.at(RescanPhaseView::Deleting(events.skip(1))) == scan.at(
            RescanPhaseView::Deleting(events.skip(1)),
        ));
        assert(seq![events[0]] + events.skip(1) =~= events);
    } else {
        assert(seq![events[0]] + Seq::empty() =~= events);
    }
}

/// A rescan brings the table up to date with its directory. Whatever the directory holds and
/// whatever is answered about its entries, the rescan watches the entries that are not watched,
/// and what lies below them, and announces each over which the walk succeeded as created; then it
/// forgets the watched paths below the directory that are gone, and announces each as deleted.
pub proof fn law_rescan_brings_up_to_date<H, E>(
    dir: Seq<char>,
    entries: Vec<DirEntry>,
    table: WatchersView<H>,
    given: Seq<EntryAnswer<H, E>>,
    buffered: Seq<Result<(), E>>,
)
    requires
        answers_entries(entries@, 0, table, given),
        buffered.len() == stale_paths(
            scanned(entries@, 0, table, given),
            dir,
            found_paths(entries@),
        ).len(),
    ensures
        ({
            let watching = scanned(entries@, 0, table, given);
            let stale = stale_paths(watching, dir, found_paths(entries@));
            run_rescan(
                RescanView::start(dir),
                table,
                seq![Reply::<H, E>::Listed(Ok(entries))] + all_entry_replies(given)
                    + buffered.map_values(|r: Result<(), E>| Reply::<H, E>::Buffered(r)),
            ) == (
                without_all(watching, stale),
                creations(entries@, 0, table, given) + deletions(watching, stale),
                Some(Ok::<(), E>(())),
            )
        }),
{
    let watching = scanned(entries@, 0, table, given);
    let stale = stale_paths(watching, dir, found_paths(entries@));
    let acks = buffered.map_values(|r: Result<(), E>| Reply::<H, E>::Buffered(r));
    let listed = Reply::<H, E>::Listed(Ok(entries));
    let behind = all_entry_replies(given) + acks;
    assert(seq![listed] + all_entry_replies(given) + acks =~= seq![listed] + behind);
    let start = RescanView::start(dir);
    lemma_rescan_step(start, table, listed, behind);
    let scan = RescanView { entries: entries@, next: 0, ..start };
    lemma_rescan_entries(scan, table, given, acks);
    let done = RescanView { next: entries@.len() as int, ..scan };
    let (last, last_table) = done.advance::<H, E>(watching);
    assert(next_unwatched(entries@, entries@.len() as int, watching) == entries@.len());
    let events = deletions(watching, stale);
    let sent = creations(entries@, 0, table, given);
    if stale.len() > 0 {
        lemma_rescan_deletions(done, last_table, events, buffered);
        assert(last == RescanNext::<E>::On(done.at(RescanPhaseView::Deleting(events))));
    } else {
        assert(events =~= Seq::empty());
        assert(acks.len() == 0);
    }
    assert(Seq::empty() + (sent + events) =~= sent + events);
}

/// A directory that cannot be listed is left as it is.
pub proof fn law_unlisted_directory_is_left<H, E>(dir: Seq<char>, table: WatchersView<H>, error: E)
    ensures
        run_rescan(
            RescanView::start(dir),
            table,
            seq![Reply::<H, E>::Listed(Err(error))],
        ) == (table, Seq::<PendingEventView>::empty(), Some(Err::<(), E>(error))),
{
}

/// A path that is gone is announced as a directory if and only if a path below it was watched.
pub proof fn law_deleted_directory<H>(
    table: WatchersView<H>,
    dir: Seq<char>,
    listed: Seq<Seq<char>>,
    k: int,
)
    requires
        0 <= k < stale_paths(table, dir, listed).len(),
    ensures
        ({
            let stale = stale_paths(table, dir, listed);
            let event = deletions(table, stale)[k];
            &&& event.path == stale[k]
            &&& event.event_type is Deleted
            &&& event.is_dir == watches_below(table, stale[k])
        }),
{
}

/// What was watched before a rescan is watched when it has looked at all entries.
proof fn lemma_scanned_watches<H, E>(
    entries: Seq<DirEntry>,
    at: int,
    table: WatchersView<H>,
    given: Seq<EntryAnswer<H, E>>,
)
    requires
        table.wf(),
    ensures
        scanned(entries, at, table, given).wf(),
        forall|p: Seq<char>| #[trigger]
            table.watches(p) ==> scanned(entries, at, table, given).watches(p),
    decreases given.len(),
{
    let i = next_unwatched(entries, at, table);
    if i < entries.len() && given.len() > 0 {
        let paths = watched(entries[i]@.unwrap(), given[0].visit);
        let next = inserted_all(table, paths);
        law_inserted_all_watches(table, paths);
        lemma_scanned_watches(entries, i + 1, next, given.skip(1));
        assert forall|p: Seq<char>| #[trigger] table.watches(p) implies scanned(
            entries,
            at,
            table,
            given,
        ).watches(p) by {
            assert(next.watches(p));
        }
    }
}

/// A path that a rescan finds gone, and below which a path was watched before the rescan, is
/// announced as a directory.
pub proof fn law_gone_directory_is_announced<H, E>(
    dir: Seq<char>,
    entries: Seq<DirEntry>,
    table: WatchersView<H>,
    given: Seq<EntryAnswer<H, E>>,
    k: int,
)
    requires
        table.wf(),
        ({
            let stale = stale_paths(
                scanned(entries, 0, table, given),
                dir,
                found_paths(entries),
            );
            0 <= k < stale.len() && watches_below(table, stale[k])
        }),
    ensures
        ({
            let watching = scanned(entries, 0, table, given);
            let stale = stale_paths(watching, dir, found_paths(entries));
            deletions(watching, stale)[k].is_dir
        }),
{
    let watching = scanned(entries, 0, table, given);
    let stale = stale_paths(watching, dir, found_paths(entries));
    lemma_scanned_watches(entries, 0, table, given);
    let i = choose|i: int|
        0 <= i < table.entries.len() && is_below((#[trigger] table.entries[i]).0, stale[k]);
    let p = table.entries[i].0;
    assert(same_path(table.entries[i].0, p));
    assert(table.watches(p));
    assert(watching.watches(p));
    let j = watching.index(p);
    assert(same_path(watching.entries[j].0, p));
    assert(is_below(watching.entries[j].0, stale[k]));
}

/// The entries that are passed over are watched.
proof fn lemma_next_unwatched<H>(entries: Seq<DirEntry>, at: int, table: WatchersView<H>)
    requires
        0 <= at <= entries.len(),
    ensures
        at <= next_unwatched(entries, at, table) <= entries.len(),
        forall|j: int|
            at <= j < next_unwatched(entries, at, table) ==> ((#[trigger] entries[j])@ matches Some(
                p,
            ) ==> table.watches(p)),
        next_unwatched(entries, at, table) < entries.len() ==> entries[next_unwatched(
            entries,
            at,
            table,
        )]@ is Some,
    decreases entries.len() - at,
{
    if at < entries.len() && !(entries[at]@ matches Some(p) && !table.watches(p)) {
        lemma_next_unwatched(entries, at + 1, table);
    }
}

/// Where the walks over all entries that were not watched succeeded, every entry is watched.
proof fn lemma_scanned_watches_entries<H, E>(
    entries: Seq<DirEntry>,
    at: int,
    table: WatchersView<H>,
    given: Seq<EntryAnswer<H, E>>,
)
    requires
        0 <= at <= entries.len(),
        table.wf(),
        answers_entries(entries, at, table, given),
        forall|k: int| 0 <= k < given.len() ==> outcome((#[trigger] given[k]).visit) is Ok,
    ensures
        forall|j: int|
            at <= j < entries.len() ==> ((#[trigger] entries[j])@ matches Some(p) ==> scanned(
                entries,
                at,
                table,
                given,
            ).watches(p)),
    decreases given.len(),
{
    let i = next_unwatched(entries, at, table);
    let end_table = scanned(entries, at, table, given);
    lemma_next_unwatched(entries, at, table);
    lemma_scanned_watches(entries, at, table, given);
    if i < entries.len() {
        let path = entries[i]@.unwrap();
        let paths = watched(path, given[0].visit);
        let next = inserted_all(table, paths);
        assert(outcome(given[0].visit) is Ok);
        law_inserted_all_watches(table, paths);
        law_walk_success_watches(path, table, given[0].visit);
        lemma_scanned_watches(entries, i + 1, next, given.skip(1));
        assert forall|k: int| 0 <= k < given.skip(1).len() implies outcome(
            (#[trigger] given.skip(1)[k]).visit,
        ) is Ok by {
            assert(given.skip(1)[k] == given[k + 1]);
        }
        lemma_scanned_watches_entries(entries, i + 1, next, given.skip(1));
        assert(end_table == scanned(entries, i + 1, next, given.skip(1)));
        assert(next.watches(path));
        assert(end_table.watches(path));
    }
}

/// The path of an entry is among the paths that were found.
proof fn lemma_found_paths(entries: Seq<DirEntry>, j: int)
    requires
        0 <= j < entries.len(),
        entries[j]@ is Some,
    ensures
        found_paths(entries).contains(entries[j]@.unwrap()),
    decreases entries.len(),
{
    let before = found_paths(entries.drop_last());
    let path = entries[j]@.unwrap();
    if j < entries.len() - 1 {
        lemma_found_paths(entries.drop_last(), j);
        assert(entries.drop_last()[j] == entries[j]);
        let k = choose|k: int| 0 <= k < before.len() && before[k] == path;
        assert(found_paths(entries)[k] == path);
    } else {
        assert(found_paths(entries)[before.len() as int] == path);
    }
}

/// Where every entry is watched, none is left to look at.
proof fn lemma_all_watched<H>(entries: Seq<DirEntry>, at: int, table: WatchersView<H>)
    requires
        0 <= at <= entries.len(),
        forall|j: int|
            at <= j < entries.len() ==> ((#[trigger] entries[j])@ matches Some(p) ==> table.watches(
                p,
            )),
    ensures
        next_unwatched(entries, at, table) == entries.len(),
    decreases entries.len() - at,
{
    if at < entries.len() {
        assert(entries[at]@ matches Some(p) ==> table.watches(p));
        lemma_all_watched(entries, at + 1, table);
    }
}

/// A rescan is done once: if every walk of a rescan succeeded, and the directory still holds the
/// same, a second rescan ends with its listing, sends no event and leaves the table as it is.
pub proof fn law_second_rescan_does_nothing<H, E>(
    dir: Seq<char>,
    entries: Vec<DirEntry>,
    table: WatchersView<H>,
    given: Seq<EntryAnswer<H, E>>,
    buffered: Seq<Result<(), E>>,
)
    requires
        table.wf(),
        answers_entries(entries@, 0, table, given),
        forall|k: int| 0 <= k < given.len() ==> outcome((#[trigger] given[k]).visit) is Ok,
        buffered.len() == stale_paths(
            scanned(entries@, 0, table, given),
            dir,
            found_paths(entries@),
        ).len(),
    ensures
        ({
            let listed = seq![Reply::<H, E>::Listed(Ok(entries))];
            let first = run_rescan(
                RescanView::start(dir),
                table,
                listed + all_entry_replies(given) + buffered.map_values(
                    |r: Result<(), E>| Reply::<H, E>::Buffered(r),
                ),
            );
            &&& first.2 == Some(Ok::<(), E>(()))
            &&& run_rescan(RescanView::start(dir), first.0, listed) == (
                first.0,
                Seq::<PendingEventView>::empty(),
                Some(Ok::<(), E>(())),
            )
        }),
{
    let listed = Reply::<H, E>::Listed(Ok(entries));
    let paths = found_paths(entries@);
    let watching = scanned(entries@, 0, table, given);
    let left = without_all(watching, stale_paths(watching, dir, paths));
    law_rescan_brings_up_to_date(dir, entries, table, given, buffered);
    lemma_scanned_watches(entries@, 0, table, given);
    lemma_scanned_watches_entries(entries@, 0, table, given);
    law_only_stale_paths_are_forgotten(watching, dir, paths);
    assert forall|j: int| 0 <= j < entries@.len() implies ((#[trigger] entries@[j])@ matches Some(
        p,
    ) ==> left.watches(p)) by {
        if let Some(p) = entries@[j]@ {
            assert(watching.watches(p));
            lemma_found_paths(entries@, j);
            let parts = components(p);
            let n = parts.len() as int;
            let k = choose|k: int| 0 <= k < paths.len() && paths[k] == p;
            assert(parts.take(n) =~= parts);
            assert(components(paths[k]) == parts.take(n));
            assert(is_listed(paths, parts.take(n)));
            if is_stale(p, dir, paths) {
                assert(components(dir).len() <= n);
                if components(dir).len() == n {
                    assert(components(dir) =~= parts);
                }
            }
            assert(!is_stale(p, dir, paths));
        }
    }
    lemma_all_watched(entries@, 0, left);
    let stale = stale_paths(left, dir, paths);
    assert(stale.len() == 0) by {
        if stale.len() > 0 {
            let pred = |e: (Seq<char>, H)| is_stale(e.0, dir, paths);
            lemma_filter_member(left.entries, pred, 0);
            let i = choose|i: int|
                0 <= i < left.entries.len() && #[trigger] left.entries[i] == left.entries.filter(
                    pred,
                )[0];
            assert(same_path(left.entries[i].0, left.entries[i].0));
            assert(left.watches(left.entries[i].0));
        }
    }
    lemma_rescan_step(RescanView::start(dir), left, listed, Seq::empty());
    assert(seq![listed] + Seq::empty() =~= seq![listed]);
}

/// A rescan begins with the listing of its directory, and one that cannot be had ends it, with that
/// error and without a change.
pub proof fn law_rescan_begins_with_a_listing<H, E>(
    dir: Seq<char>,
    table: WatchersView<H>,
    entries: Vec<DirEntry>,
    error: E,
)
    ensures
        ({
            let start = RescanView::start(dir);
            let listed = RescanView {
                dir,
                entries: entries@,
                next: 0,
                phase: RescanPhaseView::Listing,
            };
            &&& start.action() == ActionView::List(dir)
            &&& start.next(table, Reply::<H, E>::Listed(Ok(entries))) == listed.advance::<H, E>(
                table,
            )
            &&& start.next(table, Reply::<H, E>::Listed(Err(error))) == (
                RescanNext::<E>::End(Err(error)),
                table,
            )
        }),
{
}

/// A rescan looks at an entry only if it is not watched when its turn comes, and misses none. When
/// it has done with an entry, it turns to the first of the remaining ones whose path is not watched,
/// and asks whether that is a directory; the table stays as it is. An entry that is watched is
/// neither inspected nor opened nor announced.
pub proof fn law_only_unwatched_entries_are_looked_at<H, E>(
    scan: RescanView,
    table: WatchersView<H>,
)
    requires
        0 <= scan.next <= scan.entries.len(),
    ensures
        ({
            let (after, next_table) = scan.advance::<H, E>(table);
            let some_left = exists|j: int|
                scan.next <= j < scan.entries.len() && (#[trigger] scan.entries[j]
                    matches DirEntry::Found(s) && !table.watches(s@));
            &&& some_left ==> {
                &&& next_table == table
                &&& after matches RescanNext::On(next)
                &&& next.dir == scan.dir
                &&& next.entries == scan.entries
                &&& scan.next < next.next <= scan.entries.len()
                &&& next.action() matches ActionView::Inspect(path)
                &&& scan.entries[next.next - 1] matches DirEntry::Found(s)
                &&& s@ == path
                &&& !table.watches(path)
                &&& forall|j: int|
                    scan.next <= j < next.next - 1 ==> (#[trigger] scan.entries[j]
                        matches DirEntry::Found(t) ==> table.watches(t@))
            }
            &&& !some_left ==> !(after matches RescanNext::On(next)
                && next.phase is Inspecting)
        }),
{
    let at = next_unwatched(scan.entries, scan.next, table);
    lemma_next_unwatched(scan.entries, scan.next, table);
    lemma_next_unwatched_is_unwatched(scan.entries, scan.next, table);
    if at >= scan.entries.len() {
        assert forall|j: int| scan.next <= j < scan.entries.len() implies !(
        #[trigger] scan.entries[j] matches DirEntry::Found(s) && !table.watches(s@)) by {
            if let DirEntry::Found(s) = scan.entries[j] {
                assert(scan.entries[j]@ == Some(s@));
            }
        }
    } else {
        let s = scan.entries[at]->Found_0;
        assert(scan.entries[at] is Found);
        assert forall|j: int| scan.next <= j < at implies (#[trigger] scan.entries[j]
            matches DirEntry::Found(t) ==> table.watches(t@)) by {
            if let DirEntry::Found(t) = scan.entries[j] {
                assert(scan.entries[j]@ == Some(t@));
            }
        }
    }
}

/// The entry that is turned to is not watched.
proof fn lemma_next_unwatched_is_unwatched<H>(
    entries: Seq<DirEntry>,
    at: int,
    table: WatchersView<H>,
)
    requires
        0 <= at <= entries.len(),
    ensures
        ({
            let i = next_unwatched(entries, at, table);
            i < entries.len() ==> (entries[i]@ matches Some(path) && !table.watches(path))
        }),
    decreases entries.len() - at,
{
    if at < entries.len() && !(entries[at]@ matches Some(p) && !table.watches(p)) {
        lemma_next_unwatched_is_unwatched(entries, at + 1, table);
    }
}

/// What a rescan does with an entry: it finds out whether that is a directory, walks over it as any
/// walk does, and where the walk succeeded announces it as created, and as what was found out; then,
/// or where the walk failed, it has done with the entry, whether the buffer was reached or not.
pub proof fn law_rescan_of_one_entry<H, E>(
    scan: RescanView,
    table: WatchersView<H>,
    path: Seq<char>,
    is_dir: bool,
    walk: WalkView,
    reply: Reply<H, E>,
    found: Result<bool, E>,
    event: PendingEventView,
    buffered: Result<(), E>,
)
    requires
        answers(walk.action(), reply),
    ensures
        ({
            let inspecting = RescanView { phase: RescanPhaseView::Inspecting(path), ..scan };
            let inspected = inspecting.next(table, Reply::<H, E>::Inspected(found));
            &&& inspecting.action() == ActionView::Inspect(path)
            &&& inspected.1 == table
            &&& inspected.0 == RescanNext::<E>::On(
                RescanView {
                    phase: RescanPhaseView::Walking(
                        path,
                        found == Ok::<bool, E>(true),
                        WalkView::start(path),
                    ),
                    ..scan
                },
            )
        }),
        ({
            let walking = RescanView { phase: RescanPhaseView::Walking(path, is_dir, walk), ..scan };
            let walked = walking.next(table, reply);
            let next_table = walk.table(table, reply);
            &&& walking.action() == walk.action()
            &&& walk.next(reply) matches WalkNext::On(next) ==> walked == (
                RescanNext::<E>::On(
                    RescanView { phase: RescanPhaseView::Walking(path, is_dir, next), ..scan },
                ),
                next_table,
            )
            &&& walk.next(reply) matches WalkNext::End(Ok(_)) ==> walked.1 == next_table && (
            walked.0 matches RescanNext::On(next) && next.action() == ActionView::Buffer(
                PendingEventView { path, event_type: EventPortEventType::Created, is_dir },
            ) && next.dir == scan.dir && next.entries == scan.entries && next.next == scan.next
                && next.phase is Announcing)
            &&& walk.next(reply) matches WalkNext::End(Err(_)) ==> walked == scan.advance::<H, E>(
                next_table,
            )
        }),
        ({
            let announcing = RescanView { phase: RescanPhaseView::Announcing(event), ..scan };
            &&& announcing.action() == ActionView::Buffer(event)
            &&& announcing.next(table, Reply::<H, E>::Buffered(buffered)) == scan.advance::<H, E>(
                table,
            )
        }),
{
}

/// Whether a watched path stays: it does not lie below the directory, or it is, or lies below, an
/// entry that was found below the directory.
pub open spec fn stays(p: Seq<char>, dir: Seq<char>, entries: Seq<DirEntry>) -> bool {
    !is_below(p, dir) || exists|j: int|
        0 <= j < entries.len() && (#[trigger] entries[j] matches DirEntry::Found(q) && starts_with(
            p,
            q@,
        ) && is_below(q@, dir))
}

/// A path that lies below the directory stays if and only if it is, or lies below, an entry.
proof fn lemma_listed_stays<H>(
    table: WatchersView<H>,
    dir: Seq<char>,
    entries: Seq<DirEntry>,
    p: Seq<char>,
)
    requires
        table.wf(),
    ensures
        without_all(table, stale_paths(table, dir, found_paths(entries))).watches(p)
            <==> table.watches(p) && stays(p, dir, entries),
{
    let paths = found_paths(entries);
    let left = without_all(table, stale_paths(table, dir, paths));
    law_only_stale_paths_are_forgotten(table, dir, paths);
    assert(left.watches(p) <==> table.watches(p) && !is_stale(p, dir, paths));
    if left.watches(p) && is_below(p, dir) {
        law_listed_paths_are_left(table, dir, paths, p);
        let i = choose|i: int|
            0 <= i < paths.len() && starts_with(p, #[trigger] paths[i]) && is_below(paths[i], dir);
        assert(paths.contains(paths[i]));
        law_found_paths_are_those_of_entries(entries, paths[i]);
    }
    if table.watches(p) && exists|j: int|
        0 <= j < entries.len() && (#[trigger] entries[j] matches DirEntry::Found(q) && starts_with(
            p,
            q@,
        ) && is_below(q@, dir)) {
        let j = choose|j: int|
            0 <= j < entries.len() && (#[trigger] entries[j] matches DirEntry::Found(q)
                && starts_with(p, q@) && is_below(q@, dir));
        let q = entries[j]->Found_0;
        law_found_paths_are_those_of_entries(entries, q@);
        let i = choose|i: int| 0 <= i < paths.len() && paths[i] == q@;
        assert(starts_with(p, paths[i]));
        law_listed_trees_stay(table, dir, paths, p);
    }
    if table.watches(p) && !is_below(p, dir) {
        law_listed_trees_stay(table, dir, paths, p);
    }
}

/// What a rescan leaves watched that has no entry left to look at. Just those watched paths leave
/// the table that lie below the directory and that are, and lie below, no path of the listing that
/// lies below the directory.
pub proof fn law_end_of_a_rescan<H, E>(scan: RescanView, table: WatchersView<H>)
    requires
        table.wf(),
        0 <= scan.next <= scan.entries.len(),
        forall|j: int|
            scan.next <= j < scan.entries.len() ==> (#[trigger] scan.entries[j]
                matches DirEntry::Found(s) ==> table.watches(s@)),
    ensures
        ({
            let left = scan.advance::<H, E>(table).1;
            &&& left.wf()
            &&& forall|p: Seq<char>| #[trigger]
                left.watches(p) <==> table.watches(p) && stays(p, scan.dir, scan.entries)
        }),
{
    let paths = found_paths(scan.entries);
    let left = without_all(table, stale_paths(table, scan.dir, paths));
    assert(scan.advance::<H, E>(table).1 == left) by {
        lemma_end_advance::<H, E>(scan, table);
    }
    assert(left.wf()) by {
        law_only_stale_paths_are_forgotten(table, scan.dir, paths);
    }
    assert forall|p: Seq<char>| #[trigger] left.watches(p) <==> table.watches(p) && stays(
        p,
        scan.dir,
        scan.entries,
    ) by {
        lemma_listed_stays(table, scan.dir, scan.entries, p);
    }
}

/// What a rescan leaves as it was that has no entry left to look at: each entry of the table whose
/// path stays, with its handle and in the same order, and each cookie, with the path for which it
/// stands, but those of the paths that leave.
pub proof fn law_end_of_a_rescan_keeps_the_rest<H, E>(scan: RescanView, table: WatchersView<H>)
    requires
        table.wf(),
        0 <= scan.next <= scan.entries.len(),
        forall|j: int|
            scan.next <= j < scan.entries.len() ==> (#[trigger] scan.entries[j]
                matches DirEntry::Found(s) ==> table.watches(s@)),
    ensures
        ({
            let left = scan.advance::<H, E>(table).1;
            &&& forall|e: (Seq<char>, H)| #[trigger]
                left.entries.contains(e) <==> table.entries.contains(e) && stays(
                    e.0,
                    scan.dir,
                    scan.entries,
                )
            &&& keeps_order(table.entries, left.entries)
            &&& forall|c: u64| #[trigger]
                left.cookies.contains_key(c) <==> table.cookies.contains_key(c) && forall|i: int|
                    0 <= i < table.entries.len() && !stays(
                        (#[trigger] table.entries[i]).0,
                        scan.dir,
                        scan.entries,
                    ) ==> c != cookie_of(table.entries[i].0)
            &&& forall|c: u64| #[trigger]
                left.cookies.contains_key(c) ==> left.cookies[c] == table.cookies[c]
        }),
{
    let paths = found_paths(scan.entries);
    let stale = stale_paths(table, scan.dir, paths);
    let left = without_all(table, stale);
    let is_gone = |e: (Seq<char>, H)| is_stale(e.0, scan.dir, paths);
    let none_of = |e: (Seq<char>, H)|
        forall|k: int| 0 <= k < stale.len() ==> !same_path(e.0, #[trigger] stale[k]);
    assert(scan.advance::<H, E>(table).1 == left) by {
        lemma_end_advance::<H, E>(scan, table);
    }
    lemma_without_all_exactly(table, stale);
    lemma_filter_leaves(table.entries, none_of);
    lemma_filter_leaves(table.entries, is_gone);
    assert forall|i: int| 0 <= i < table.entries.len() implies (none_of(#[trigger] table.entries[i])
        <==> stays(table.entries[i].0, scan.dir, scan.entries)) by {
        let p = table.entries[i].0;
        assert(same_path(table.entries[i].0, p));
        assert(table.watches(p));
        lemma_stale_paths(table, scan.dir, paths, p);
        lemma_listed_stays(table, scan.dir, scan.entries, p);
        assert(left.watches(p) <==> !is_stale(p, scan.dir, paths)) by {
            law_only_stale_paths_are_forgotten(table, scan.dir, paths);
        }
    }
    assert forall|e: (Seq<char>, H)| #[trigger] left.entries.contains(e)
        <==> table.entries.contains(e) && stays(e.0, scan.dir, scan.entries) by {
        if table.entries.contains(e) {
            let i = choose|i: int| 0 <= i < table.entries.len() && table.entries[i] == e;
            assert(none_of(table.entries[i]) <==> stays(e.0, scan.dir, scan.entries));
        }
    }
    assert forall|c: u64| #[trigger] left.cookies.contains_key(c) <==> table.cookies.contains_key(c)
        && forall|i: int|
        0 <= i < table.entries.len() && !stays(
            (#[trigger] table.entries[i]).0,
            scan.dir,
            scan.entries,
        ) ==> c != cookie_of(table.entries[i].0) by {
        if exists|k: int| 0 <= k < stale.len() && c == cookie_of(#[trigger] stale[k]) {
            let k = choose|k: int| 0 <= k < stale.len() && c == cookie_of(#[trigger] stale[k]);
            lemma_filter_member(table.entries, is_gone, k);
            let i = choose|i: int|
                0 <= i < table.entries.len() && #[trigger] table.entries[i]
                    == table.entries.filter(is_gone)[k];
            assert(same_path(table.entries[i].0, stale[k]));
            assert(!none_of(table.entries[i]));
        }
        if exists|i: int|
            0 <= i < table.entries.len() && !stays(
                (#[trigger] table.entries[i]).0,
                scan.dir,
                scan.entries,
            ) && c == cookie_of(table.entries[i].0) {
            let i = choose|i: int|
                0 <= i < table.entries.len() && !stays(
                    (#[trigger] table.entries[i]).0,
                    scan.dir,
                    scan.entries,
                ) && c == cookie_of(table.entries[i].0);
            assert(!none_of(table.entries[i]));
            let k = choose|k: int|
                0 <= k < stale.len() && same_path(table.entries[i].0, #[trigger] stale[k]);
            assert(cookie_of(stale[k]) == c);
        }
    }
}

/// What is left by one filter after another is what both let through.
proof fn lemma_filter_twice<A>(
    s: Seq<A>,
    first: spec_fn(A) -> bool,
    second: spec_fn(A) -> bool,
    both: spec_fn(A) -> bool,
)
    requires
        forall|e: A| #[trigger] both(e) <==> first(e) && second(e),
    ensures
        s.filter(first).filter(second) == s.filter(both),
    decreases s.len(),
{
    reveal(Seq::filter);
    if s.len() > 0 {
        let before = s.drop_last();
        lemma_filter_twice(before, first, second, both);
        assert(both(s.last()) <==> first(s.last()) && second(s.last()));
        if first(s.last()) {
            assert(s.filter(first) =~= before.filter(first).push(s.last()));
            assert(s.filter(first).drop_last() =~= before.filter(first));
        }
    }
}

/// Forgetting paths one after the other takes away their entries and cookies, and no others.
proof fn lemma_without_all_exactly<H>(table: WatchersView<H>, gone: Seq<Seq<char>>)
    ensures
        without_all(table, gone).entries == table.entries.filter(
            |e: (Seq<char>, H)|
                forall|k: int| 0 <= k < gone.len() ==> !same_path(e.0, #[trigger] gone[k]),
        ),
        forall|c: u64| #[trigger]
            without_all(table, gone).cookies.contains_key(c) <==> table.cookies.contains_key(c)
                && forall|k: int| 0 <= k < gone.len() ==> c != cookie_of(#[trigger] gone[k]),
        forall|c: u64| #[trigger]
            without_all(table, gone).cookies.contains_key(c) ==> without_all(table, gone).cookies[c]
                == table.cookies[c],
    decreases gone.len(),
{
    let both = |e: (Seq<char>, H)|
        forall|k: int| 0 <= k < gone.len() ==> !same_path(e.0, #[trigger] gone[k]);
    if gone.len() == 0 {
        lemma_filter_all(table.entries, both);
    } else {
        let next = table.without(gone[0]);
        let rest = gone.skip(1);
        let first = |e: (Seq<char>, H)| !same_path(e.0, gone[0]);
        let second = |e: (Seq<char>, H)|
            forall|k: int| 0 <= k < rest.len() ==> !same_path(e.0, #[trigger] rest[k]);
        lemma_without_all_exactly(next, rest);
        assert forall|e: (Seq<char>, H)| #[trigger] both(e) <==> first(e) && second(e) by {
            if both(e) {
                assert(!same_path(e.0, gone[0]));
                assert forall|k: int| 0 <= k < rest.len() implies !same_path(
                    e.0,
                    #[trigger] rest[k],
                ) by {
                    assert(rest[k] == gone[k + 1]);
                }
            }
            if first(e) && second(e) {
                assert forall|k: int| 0 <= k < gone.len() implies !same_path(
                    e.0,
                    #[trigger] gone[k],
                ) by {
                    if k > 0 {
                        assert(rest[k - 1] == gone[k]);
                    }
                }
            }
        }
        lemma_filter_twice(table.entries, first, second, both);
        let left = without_all(table, gone);
        assert forall|c: u64| #[trigger] left.cookies.contains_key(c)
            <==> table.cookies.contains_key(c) && forall|k: int|
            0 <= k < gone.len() ==> c != cookie_of(#[trigger] gone[k]) by {
            if left.cookies.contains_key(c) {
                assert(next.cookies.contains_key(c));
                assert forall|k: int| 0 <= k < gone.len() implies c != cookie_of(
                    #[trigger] gone[k],
                ) by {
                    if k > 0 {
                        assert(rest[k - 1] == gone[k]);
                    }
                }
            }
            if table.cookies.contains_key(c) && forall|k: int|
                0 <= k < gone.len() ==> c != cookie_of(#[trigger] gone[k]) {
                assert(c != cookie_of(gone[0]));
                assert(next.cookies.contains_key(c));
                assert forall|k: int| 0 <= k < rest.len() implies c != cookie_of(
                    #[trigger] rest[k],
                ) by {
                    assert(rest[k] == gone[k + 1]);
                }
            }
        }
        assert forall|c: u64| #[trigger] left.cookies.contains_key(c) implies left.cookies[c]
            == table.cookies[c] by {
            assert(next.cookies.contains_key(c));
        }
    }
}

/// What a rescan announces that has no entry left to look at. Each path that leaves the table is
/// announced once as deleted, in the order of the table, and as a directory if and only if a path
/// below it was watched. If none leaves the rescan is over.
pub proof fn law_end_of_a_rescan_is_announced<H, E>(scan: RescanView, table: WatchersView<H>)
    requires
        table.wf(),
        0 <= scan.next <= scan.entries.len(),
        forall|j: int|
            scan.next <= j < scan.entries.len() ==> (#[trigger] scan.entries[j]
                matches DirEntry::Found(s) ==> table.watches(s@)),
    ensures
        ({
            let (after, left) = scan.advance::<H, E>(table);
            match after {
                RescanNext::End(result) => result is Ok && left == table,
                RescanNext::On(next) => {
                    &&& next.phase matches RescanPhaseView::Deleting(events)
                    &&& events.len() > 0
                    &&& next.action() == ActionView::Buffer(events[0])
                    &&& announces_what_left(table, left, events)
                },
            }
        }),
{
    lemma_end_advance::<H, E>(scan, table);
    lemma_announces_what_left(table, scan.dir, found_paths(scan.entries));
}

/// Where no entry is left to look at, the paths that are gone are forgotten.
proof fn lemma_end_advance<H, E>(scan: RescanView, table: WatchersView<H>)
    requires
        0 <= scan.next <= scan.entries.len(),
        forall|j: int|
            scan.next <= j < scan.entries.len() ==> (#[trigger] scan.entries[j]
                matches DirEntry::Found(s) ==> table.watches(s@)),
    ensures
        ({
            let stale = stale_paths(table, scan.dir, found_paths(scan.entries));
            let (after, left) = scan.advance::<H, E>(table);
            &&& left == without_all(table, stale)
            &&& stale.len() == 0 ==> after == RescanNext::<E>::End(Ok(())) && left == table
            &&& stale.len() > 0 ==> (after matches RescanNext::On(next) && next.phase
                == RescanPhaseView::Deleting(deletions(table, stale)))
        }),
{
    assert forall|j: int| scan.next <= j < scan.entries.len() implies ((
    #[trigger] scan.entries[j])@ matches Some(p) ==> table.watches(p)) by {
        if let DirEntry::Found(s) = scan.entries[j] {
            assert(table.watches(s@));
        }
    }
    lemma_all_watched(scan.entries, scan.next, table);
}

/// Whether the events announce what left the table: each path that left, once and in the order in
/// which it stood there, as deleted, and as a directory if and only if a path below it was watched.
pub open spec fn announces_what_left<H>(
    before: WatchersView<H>,
    left: WatchersView<H>,
    events: Seq<PendingEventView>,
) -> bool {
    &&& forall|k: int|
        0 <= k < events.len() ==> (#[trigger] events[k]).event_type is Deleted && before.watches(
            events[k].path,
        ) && !left.watches(events[k].path) && (events[k].is_dir <==> exists|i: int|
            0 <= i < before.entries.len() && is_below(
                (#[trigger] before.entries[i]).0,
                events[k].path,
            ))
    &&& forall|p: Seq<char>| #[trigger]
        before.watches(p) && !left.watches(p) ==> exists|k: int|
            0 <= k < events.len() && same_path((#[trigger] events[k]).path, p)
    &&& forall|m: int, k: int|
        0 <= m < k < events.len() ==> !same_path(
            (#[trigger] events[m]).path,
            (#[trigger] events[k]).path,
        ) && before.index(events[m].path) < before.index(events[k].path)
}

/// The events of the end of a rescan announce what leaves the table.
proof fn lemma_announces_what_left<H>(
    table: WatchersView<H>,
    dir: Seq<char>,
    listed: Seq<Seq<char>>,
)
    requires
        table.wf(),
    ensures
        ({
            let stale = stale_paths(table, dir, listed);
            announces_what_left(table, without_all(table, stale), deletions(table, stale))
        }),
{
    let pred = |e: (Seq<char>, H)| is_stale(e.0, dir, listed);
    let kept = table.entries.filter(pred);
    let stale = stale_paths(table, dir, listed);
    let left = without_all(table, stale);
    let events = deletions(table, stale);
    law_only_stale_paths_are_forgotten(table, dir, listed);
    lemma_filter_leaves(table.entries, pred);
    assert forall|k: int| 0 <= k < events.len() implies (#[trigger] events[k]).event_type is Deleted
        && table.watches(events[k].path) && !left.watches(events[k].path) && (events[k].is_dir
        <==> exists|i: int|
        0 <= i < table.entries.len() && is_below((#[trigger] table.entries[i]).0, events[k].path))
        by {
        lemma_filter_member(table.entries, pred, k);
        let i = choose|i: int| 0 <= i < table.entries.len() && #[trigger] table.entries[i] == kept[k];
        assert(events[k].path == kept[k].0);
        assert(same_path(table.entries[i].0, events[k].path));
        law_deleted_directory(table, dir, listed, k);
    }
    assert forall|p: Seq<char>| #[trigger] table.watches(p) && !left.watches(p) implies exists|k: int|
        0 <= k < events.len() && same_path((#[trigger] events[k]).path, p) by {
        lemma_stale_paths(table, dir, listed, p);
        let k = choose|k: int| 0 <= k < stale.len() && same_path(p, #[trigger] stale[k]);
        assert(events[k].path == stale[k]);
    }
    assert forall|m: int, k: int| 0 <= m < k < events.len() implies !same_path(
        (#[trigger] events[m]).path,
        (#[trigger] events[k]).path,
    ) && table.index(events[m].path) < table.index(events[k].path) by {
        assert(stands_before(table.entries, kept[m], kept[k]));
        let (i, j) = choose|i: int, j: int|
            0 <= i < j < table.entries.len() && #[trigger] table.entries[i] == kept[m]
                && #[trigger] table.entries[j] == kept[k];
        assert(events[m].path == table.entries[i].0);
        assert(events[k].path == table.entries[j].0);
        table.lemma_index(events[m].path, i);
        table.lemma_index(events[k].path, j);
        assert(!same_path(table.entries[i].0, table.entries[j].0));
    }
}

/// The events for what left the table go to the buffer one after the other, whether it was reached
/// or not, and with the last one the rescan is over. The table stays as it is.
pub proof fn law_deletions_go_out_in_turn<H, E>(
    scan: RescanView,
    table: WatchersView<H>,
    events: Seq<PendingEventView>,
    buffered: Seq<Result<(), E>>,
)
    requires
        events.len() > 0,
        buffered.len() == events.len(),
    ensures
        run_rescan(
            RescanView { phase: RescanPhaseView::Deleting(events), ..scan },
            table,
            buffered.map_values(|r: Result<(), E>| Reply::<H, E>::Buffered(r)),
        ) == (table, events, Some(Ok::<(), E>(()))),
{
    lemma_rescan_deletions(scan, table, events, buffered);
}

/// What a rescan announces as created was not watched before, and is an entry of the directory.
pub proof fn law_only_new_entries_are_created<H, E>(
    entries: Seq<DirEntry>,
    at: int,
    table: WatchersView<H>,
    given: Seq<EntryAnswer<H, E>>,
)
    requires
        table.wf(),
        0 <= at <= entries.len(),
    ensures
        forall|k: int|
            0 <= k < creations(entries, at, table, given).len() ==> {
                let event = #[trigger] creations(entries, at, table, given)[k];
                &&& event.event_type is Created
                &&& !table.watches(event.path)
                &&& exists|j: int|
                    at <= j < entries.len() && (#[trigger] entries[j] matches DirEntry::Found(s)
                        && s@ == event.path)
            },
    decreases given.len(),
{
    let i = next_unwatched(entries, at, table);
    let all = creations(entries, at, table, given);
    lemma_next_unwatched(entries, at, table);
    lemma_next_unwatched_is_unwatched(entries, at, table);
    if i < entries.len() && given.len() > 0 {
        let path = entries[i]@.unwrap();
        let paths = watched(path, given[0].visit);
        let next = inserted_all(table, paths);
        let later = creations(entries, i + 1, next, given.skip(1));
        law_inserted_all_watches(table, paths);
        law_only_new_entries_are_created(entries, i + 1, next, given.skip(1));
        let s = entries[i]->Found_0;
        assert(entries[i] is Found && s@ == path);
        assert forall|k: int| 0 <= k < all.len() implies {
            let event = #[trigger] all[k];
            &&& event.event_type is Created
            &&& !table.watches(event.path)
            &&& exists|j: int|
                at <= j < entries.len() && (#[trigger] entries[j] matches DirEntry::Found(s) && s@
                    == event.path)
        } by {
            let first = if outcome(given[0].visit) is Ok {
                1int
            } else {
                0int
            };
            if k < first {
                assert(all[k].path == path);
                assert(entries[i] matches DirEntry::Found(s) && s@ == all[k].path);
            } else {
                assert(all[k] == later[k - first]);
                assert(!next.watches(later[k - first].path));
                let j = choose|j: int|
                    i + 1 <= j < entries.len() && (#[trigger] entries[j] matches DirEntry::Found(s)
                        && s@ == later[k - first].path);
                assert(entries[j] matches DirEntry::Found(s) && s@ == all[k].path);
            }
        }
    }
}

/// Each entry over which a walk succeeded is announced once: there are as many creations as there
/// are such entries, and each says of its entry what was found out about it.
pub proof fn law_each_new_entry_is_created_once<H, E>(
    entries: Seq<DirEntry>,
    at: int,
    table: WatchersView<H>,
    given: Seq<EntryAnswer<H, E>>,
)
    requires
        answers_entries(entries, at, table, given),
    ensures
        creations(entries, at, table, given).map_values(|e: PendingEventView| e.is_dir)
            == given.filter(|a: EntryAnswer<H, E>| outcome(a.visit) is Ok).map_values(
            |a: EntryAnswer<H, E>| a.is_dir == Ok::<bool, E>(true),
        ),
    decreases given.len(),
{
    let i = next_unwatched(entries, at, table);
    let good = |a: EntryAnswer<H, E>| outcome(a.visit) is Ok;
    let dir_of = |a: EntryAnswer<H, E>| a.is_dir == Ok::<bool, E>(true);
    let all = creations(entries, at, table, given);
    if i >= entries.len() {
        reveal(Seq::filter);
        assert(all.map_values(|e: PendingEventView| e.is_dir) =~= given.filter(good).map_values(
            dir_of,
        ));
    } else {
        let path = entries[i]@.unwrap();
        let next = inserted_all(table, watched(path, given[0].visit));
        let rest = given.skip(1);
        law_each_new_entry_is_created_once(entries, i + 1, next, rest);
        assert(given =~= seq![given[0]] + rest);
        Seq::filter_distributes_over_add(seq![given[0]], rest, good);
        assert(seq![given[0]].filter(good) =~= (if good(given[0]) {
            seq![given[0]]
        } else {
            Seq::empty()
        })) by {
            reveal_with_fuel(Seq::filter, 2);
            assert(seq![given[0]].drop_last() =~= Seq::empty());
        }
        let later = creations(entries, i + 1, next, rest);
        assert(all.map_values(|e: PendingEventView| e.is_dir) =~= given.filter(good).map_values(
            dir_of,
        )) by {
            let a = later.map_values(|e: PendingEventView| e.is_dir);
            let b = rest.filter(good).map_values(dir_of);
            assert(a == b);
            if good(given[0]) {
                assert(all.map_values(|e: PendingEventView| e.is_dir) =~= seq![dir_of(given[0])]
                    + a);
                assert(given.filter(good).map_values(dir_of) =~= seq![dir_of(given[0])] + b);
            } else {
                assert(all =~= later);
                assert(given.filter(good) =~= rest.filter(good));
            }
        }
    }
}

/// A path that was watched before a rescan, and to which no walk of the rescan came, keeps its place
/// and its handle while entries are looked at; and if it is still there, it is left with its handle.
pub proof fn law_untouched_paths_keep_their_handles<H, E>(
    dir: Seq<char>,
    entries: Seq<DirEntry>,
    table: WatchersView<H>,
    given: Seq<EntryAnswer<H, E>>,
    i: int,
)
    requires
        table.wf(),
        answers_entries(entries, 0, table, given),
        0 <= i < table.entries.len(),
        forall|k: int|
            0 <= k < given.len() ==> keeps_off((#[trigger] given[k]).visit, table.entries[i].0),
    ensures
        ({
            let watching = scanned(entries, 0, table, given);
            let left = without_all(watching, stale_paths(watching, dir, found_paths(entries)));
            &&& watching.entries[i] == table.entries[i]
            &&& !is_stale(table.entries[i].0, dir, found_paths(entries)) ==> left.entries.contains(
                table.entries[i],
            )
        }),
{
    let e = table.entries[i];
    let watching = scanned(entries, 0, table, given);
    let paths = found_paths(entries);
    let left = without_all(watching, stale_paths(watching, dir, paths));
    lemma_scanned_keeps(entries, 0, table, given, i);
    lemma_scanned_watches(entries, 0, table, given);
    if !is_stale(e.0, dir, paths) {
        law_only_stale_paths_are_forgotten(watching, dir, paths);
        assert(same_path(watching.entries[i].0, e.0));
        assert(watching.watches(e.0));
        assert(left.watches(e.0));
        let k = left.index(e.0);
        assert(same_path(left.entries[k].0, e.0));
        assert(watching.entries.contains(left.entries[k]));
        let m = choose|m: int|
            0 <= m < watching.entries.len() && watching.entries[m] == left.entries[k];
        assert(m < i ==> !same_path(watching.entries[m].0, watching.entries[i].0));
        assert(i < m ==> !same_path(watching.entries[i].0, watching.entries[m].0));
    }
}

/// Whether no directory of a visit lists the path, all the way down.
pub open spec fn keeps_off<H, E>(visit: Visit<H, E>, path: Seq<char>) -> bool
    decreases visit,
{
    match visit {
        Visit::Directory(_, entries, visits) => forall|i: int|
            0 <= i < visits.len() ==> !same_path(#[trigger] found_paths(entries@)[i], path)
                && keeps_off(visits[i], path),
        _ => true,
    }
}

/// A visit that keeps off a path watches others only.
proof fn lemma_keeps_off<H, E>(top: Seq<char>, visit: Visit<H, E>, path: Seq<char>)
    requires
        is_complete(visit),
        !same_path(top, path),
        keeps_off(visit, path),
    ensures
        forall|k: int|
            0 <= k < watched(top, visit).len() ==> !same_path(
                (#[trigger] watched(top, visit)[k]).0,
                path,
            ),
    decreases visit,
{
    if let Visit::Directory(h, entries, visits) = visit {
        let paths = found_paths(entries@);
        assert forall|k: int| 0 <= k < watched(top, visit).len() implies !same_path(
            (#[trigger] watched(top, visit)[k]).0,
            path,
        ) by {
            let w = watched(top, visit)[k];
            assert(watched(top, visit).contains(w));
            law_walk_watches_what_got_a_handle(top, visit, w);
            if w != (top, h) {
                let i = choose|i: int|
                    0 <= i < visits.len() && watched(paths[i], #[trigger] visits[i]).contains(w);
                assert(!same_path(paths[i], path));
                lemma_keeps_off(paths[i], visits[i], path);
                let m = choose|m: int|
                    0 <= m < watched(paths[i], visits[i]).len() && watched(paths[i], visits[i])[m]
                        == w;
            }
        }
    }
}

/// Watching other paths leaves an entry where and as it is.
proof fn lemma_inserted_all_keeps<H>(
    table: WatchersView<H>,
    paths: Seq<(Seq<char>, H)>,
    i: int,
)
    requires
        0 <= i < table.entries.len(),
        forall|k: int|
            0 <= k < paths.len() ==> !same_path((#[trigger] paths[k]).0, table.entries[i].0),
    ensures
        i < inserted_all(table, paths).entries.len(),
        inserted_all(table, paths).entries[i] == table.entries[i],
    decreases paths.len(),
{
    if paths.len() > 0 {
        let next = table.inserted(paths[0].0, paths[0].1);
        assert(!same_path(paths[0].0, table.entries[i].0));
        if table.watches(paths[0].0) {
            assert(same_path(table.entries[table.index(paths[0].0)].0, paths[0].0));
        }
        assert forall|k: int| 0 <= k < paths.skip(1).len() implies !same_path(
            (#[trigger] paths.skip(1)[k]).0,
            next.entries[i].0,
        ) by {
            assert(paths.skip(1)[k] == paths[k + 1]);
        }
        lemma_inserted_all_keeps(next, paths.skip(1), i);
    }
}

/// Looking at entries leaves an entry of the table where and as it is if no walk came to its path.
proof fn lemma_scanned_keeps<H, E>(
    entries: Seq<DirEntry>,
    at: int,
    table: WatchersView<H>,
    given: Seq<EntryAnswer<H, E>>,
    i: int,
)
    requires
        table.wf(),
        0 <= at <= entries.len(),
        answers_entries(entries, at, table, given),
        0 <= i < table.entries.len(),
        forall|k: int|
            0 <= k < given.len() ==> keeps_off((#[trigger] given[k]).visit, table.entries[i].0),
    ensures
        i < scanned(entries, at, table, given).entries.len(),
        scanned(entries, at, table, given).entries[i] == table.entries[i],
    decreases given.len(),
{
    let j = next_unwatched(entries, at, table);
    lemma_next_unwatched(entries, at, table);
    lemma_next_unwatched_is_unwatched(entries, at, table);
    if j < entries.len() {
        let path = entries[j]@.unwrap();
        let paths = watched(path, given[0].visit);
        let next = inserted_all(table, paths);
        let p = table.entries[i].0;
        if same_path(path, p) {
            assert(same_path(table.entries[i].0, path));
            assert(table.watches(path));
        }
        assert(keeps_off(given[0].visit, p));
        lemma_keeps_off(path, given[0].visit, p);
        lemma_inserted_all_keeps(table, paths, i);
        law_inserted_all_watches(table, paths);
        assert forall|k: int| 0 <= k < given.skip(1).len() implies keeps_off(
            (#[trigger] given.skip(1)[k]).visit,
            next.entries[i].0,
        ) by {
            assert(given.skip(1)[k] == given[k + 1]);
        }
        lemma_scanned_keeps(entries, j + 1, next, given.skip(1), i);
    }
}

} // verus!
