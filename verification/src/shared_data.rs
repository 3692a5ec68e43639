//! The buffer that the watching thread fills and the synchronisation empties.
use crate::event::{BufferedEvent, CellPath, EventPortEventType};
use crate::file_data::{
    cell_verdict, counts_as_ignored, early_verdict, verdict, verdict_before_cell,
    EventPortFileData, FileDataView, Located, SyncReport, Verdict,
};
use crate::path::{file_name_of, starts_with};
use crate::temporary::is_temporary;
use vstd::prelude::*;

verus! {

/// The buffer, or the error that broke it.
pub struct SharedFileData<E> {
    data: Result<EventPortFileData, E>,
}

impl<E> View for SharedFileData<E> {
    type V = Result<FileDataView, E>;

    closed spec fn view(&self) -> Result<FileDataView, E> {
        match self.data {
            Ok(data) => Ok(data@),
            Err(e) => Err(e),
        }
    }
}

/// The state of the buffer after an event for `path`. An error takes the buffer's place, and stays
/// whatever comes after it.
pub open spec fn recorded<E>(
    state: Result<FileDataView, E>,
    path: Seq<char>,
    event_type: EventPortEventType,
    is_dir: bool,
    located: Result<Located, E>,
    output_dir: Seq<char>,
) -> Result<FileDataView, E> {
    match state {
        Ok(data) => match located {
            Ok(l) => Ok(
                data.after(
                    verdict(path, l.relative@, l.ignore_match, output_dir),
                    BufferedEvent { path: l.cell_path@, event_type, is_dir },
                ),
            ),
            Err(e) => Err(e),
        },
        Err(e) => Err(e),
    }
}

/// What came of looking at an event without knowledge of its cell.
#[derive(Debug, Clone, Copy, PartialEq, Eq, Structural)]
pub enum Screening {
    /// There is a verdict, and nothing more to do.
    Settled(Verdict),
    /// The cell of the path decides.
    CellDecides,
    /// There is no buffer: an error has taken its place.
    Broken,
}

/// What comes of looking at an event, with `early` as the verdict without knowledge of its cell.
pub open spec fn screening<E>(
    state: Result<FileDataView, E>,
    early: Option<Verdict>,
) -> Screening {
    match state {
        Ok(_) => match early {
            Some(verdict) => Screening::Settled(verdict),
            None => Screening::CellDecides,
        },
        Err(_) => Screening::Broken,
    }
}

/// The state of the buffer after an event was looked at without knowledge of its cell.
pub open spec fn screened<E>(
    state: Result<FileDataView, E>,
    early: Option<Verdict>,
) -> Result<FileDataView, E> {
    match state {
        Ok(data) => Ok(data.screened(early)),
        Err(e) => Err(e),
    }
}

/// The state of the buffer after an event was taken for which the cell decides.
pub open spec fn taken<E>(
    state: Result<FileDataView, E>,
    event: BufferedEvent,
    ignore_match: Option<bool>,
) -> Result<FileDataView, E> {
    match state {
        Ok(data) => Ok(data.after(cell_verdict(ignore_match), event)),
        Err(e) => Err(e),
    }
}

/// The state of the buffer after an error: the first one stays.
pub open spec fn failed<E>(state: Result<FileDataView, E>, error: E) -> Result<FileDataView, E> {
    match state {
        Ok(_) => Err(error),
        Err(e) => Err(e),
    }
}

impl<E> SharedFileData<E> {
    /// The buffer, where there is one, is well formed.
    pub closed spec fn wf(&self) -> bool {
        self.data matches Ok(data) ==> data.wf()
    }

    /// An empty buffer.
    pub fn new() -> (r: SharedFileData<E>)
        ensures
            r.wf(),
            r@ == Ok::<FileDataView, E>(FileDataView { ignored: 0, events: Seq::empty() }),
    {
        SharedFileData { data: Ok(EventPortFileData::new()) }
    }

    /// Whether an error has taken the place of the buffer.
    pub fn is_broken(&self) -> (r: bool)
        ensures
            r == (self@ is Err),
    {
        self.data.is_err()
    }

    /// Whether the count of ignored events has room for what [`SharedFileData::screen`] would add.
    pub fn can_screen(&self, path: &str, relative: &str, output_dir: &str) -> (r: bool)
        ensures
            r == (self@ matches Ok(data) ==> (early_verdict(path@, relative@, output_dir@) == Some(
                Verdict::Temporary,
            ) ==> data.ignored < u64::MAX)),
    {
        match &self.data {
            Ok(data) => match verdict_before_cell(path, relative, output_dir) {
                Some(Verdict::Temporary) => data.ignored() < u64::MAX,
                _ => true,
            },
            Err(_) => true,
        }
    }

    /// Whether the count of ignored events has room for what [`SharedFileData::take`] would add.
    pub fn can_take(&self, ignore_match: Option<bool>) -> (r: bool)
        ensures
            r == (self@ matches Ok(data) ==> (cell_verdict(ignore_match) is Ignored ==> data.ignored
                < u64::MAX)),
    {
        match (&self.data, ignore_match) {
            (Ok(data), Some(true)) => data.ignored() < u64::MAX,
            _ => true,
        }
    }

    /// Looks at an event for the absolute path `path`, which is `relative` to the project's root,
    /// without knowledge of its cell. Where the cell decides, the event is still to be
    /// [taken](SharedFileData::take).
    pub fn screen(&mut self, path: &str, relative: &str, output_dir: &str) -> (r: Screening)
        requires
            old(self).wf(),
            old(self)@ matches Ok(data) ==> (early_verdict(path@, relative@, output_dir@) == Some(
                Verdict::Temporary,
            ) ==> data.ignored < u64::MAX),
        ensures
            final(self).wf(),
            r == screening(old(self)@, early_verdict(path@, relative@, output_dir@)),
            final(self)@ == screened(old(self)@, early_verdict(path@, relative@, output_dir@)),
    {
        match &mut self.data {
            Ok(data) => match data.screen(path, relative, output_dir) {
                Some(verdict) => Screening::Settled(verdict),
                None => Screening::CellDecides,
            },
            Err(_) => Screening::Broken,
        }
    }

    /// Takes an event for which the cell decides. `cell_path` is the path within its cell, and
    /// `ignore_match` says whether the ignore rules of the cell match it.
    pub fn take(
        &mut self,
        cell_path: CellPath,
        event_type: EventPortEventType,
        is_dir: bool,
        ignore_match: Option<bool>,
    ) -> (r: Option<Verdict>)
        requires
            old(self).wf(),
            old(self)@ matches Ok(data) ==> (cell_verdict(ignore_match) is Ignored ==> data.ignored
                < u64::MAX),
        ensures
            final(self).wf(),
            r == (if old(self)@ is Ok {
                Some(cell_verdict(ignore_match))
            } else {
                None
            }),
            final(self)@ == taken(
                old(self)@,
                BufferedEvent { path: cell_path@, event_type, is_dir },
                ignore_match,
            ),
    {
        match &mut self.data {
            Ok(data) => Some(data.take(cell_path, event_type, is_dir, ignore_match)),
            Err(_) => None,
        }
    }

    /// Puts an error into the place of the buffer, where it is kept for the next synchronisation.
    pub fn fail(&mut self, error: E)
        requires
            old(self).wf(),
        ensures
            final(self).wf(),
            final(self)@ == failed(old(self)@, error),
    {
        if self.data.is_ok() {
            self.data = Err(error);
        }
    }

    /// Takes one event into the buffer. Where the path cannot be located the buffer is lost, and
    /// the error is kept for the next synchronisation.
    pub fn record(
        &mut self,
        path: &str,
        event_type: EventPortEventType,
        is_dir: bool,
        located: Result<Located, E>,
        output_dir: &str,
    )
        requires
            old(self).wf(),
            old(self)@ matches Ok(data) ==> (located matches Ok(l) ==> (counts_as_ignored(
                verdict(path@, l.relative@, l.ignore_match, output_dir@),
            ) ==> data.ignored < u64::MAX)),
        ensures
            final(self).wf(),
            final(self)@ == recorded(
                old(self)@,
                path@,
                event_type,
                is_dir,
                located,
                output_dir@,
            ),
    {
        match located {
            Ok(l) => {
                if let Screening::CellDecides = self.screen(path, l.relative.as_str(), output_dir) {
                    self.take(l.cell_path, event_type, is_dir, l.ignore_match);
                }
            },
            Err(e) => self.fail(e),
        }
    }

    /// Hands out what was buffered, or the error that broke the buffer, and starts a new one.
    pub fn sync2(&mut self) -> (r: Result<SyncReport, E>)
        requires
            old(self).wf(),
        ensures
            final(self).wf(),
            final(self)@ == Ok::<FileDataView, E>(FileDataView { ignored: 0, events: Seq::empty() }),
            match old(self)@ {
                Ok(data) => r matches Ok(report) && report.reports(data),
                Err(e) => r == Err::<SyncReport, E>(e),
            },
    {
        let mut fresh = SharedFileData { data: Ok(EventPortFileData::new()) };
        std::mem::swap(self, &mut fresh);
        match fresh.data {
            Ok(data) => Ok(data.sync()),
            Err(e) => Err(e),
        }
    }
}

/// An event is recorded in two steps: it is looked at without knowledge of its cell, and taken
/// where the cell decides. So the cell need not be found out for an event that is settled before.
pub proof fn law_recorded_in_two_steps<E>(
    state: Result<FileDataView, E>,
    path: Seq<char>,
    event_type: EventPortEventType,
    is_dir: bool,
    located: Result<Located, E>,
    output_dir: Seq<char>,
)
    ensures
        recorded(state, path, event_type, is_dir, located, output_dir) == match located {
            Ok(l) => {
                let early = early_verdict(path, l.relative@, output_dir);
                if screening(state, early) is CellDecides {
                    taken(
                        screened(state, early),
                        BufferedEvent { path: l.cell_path@, event_type, is_dir },
                        l.ignore_match,
                    )
                } else {
                    screened(state, early)
                }
            },
            Err(e) => failed(state, e),
        },
{
}

/// One event for a path, with where the path stands in the project.
pub struct Record<E> {
    pub path: Seq<char>,
    pub event_type: EventPortEventType,
    pub is_dir: bool,
    pub located: Result<Located, E>,
}

impl<E> Record<E> {
    /// What becomes of the event, if its path was located.
    pub open spec fn verdict(self, output_dir: Seq<char>) -> Verdict {
        let l = self.located->Ok_0;
        verdict(self.path, l.relative@, l.ignore_match, output_dir)
    }

    /// The event as the buffer would hold it, if its path was located.
    pub open spec fn event(self) -> BufferedEvent {
        BufferedEvent {
            path: self.located->Ok_0.cell_path@,
            event_type: self.event_type,
            is_dir: self.is_dir,
        }
    }
}

/// The state of a buffer after some events, one after the other.
pub open spec fn recorded_all<E>(
    state: Result<FileDataView, E>,
    records: Seq<Record<E>>,
    output_dir: Seq<char>,
) -> Result<FileDataView, E>
    decreases records.len(),
{
    if records.len() == 0 {
        state
    } else {
        let last = records.last();
        recorded(
            recorded_all(state, records.drop_last(), output_dir),
            last.path,
            last.event_type,
            last.is_dir,
            last.located,
            output_dir,
        )
    }
}

/// The events that are to be buffered, in the order in which they came.
pub open spec fn to_buffer<E>(records: Seq<Record<E>>, output_dir: Seq<char>) -> Seq<BufferedEvent>
    decreases records.len(),
{
    if records.len() == 0 {
        Seq::empty()
    } else {
        let before = to_buffer(records.drop_last(), output_dir);
        if records.last().verdict(output_dir) is Buffered {
            before.push(records.last().event())
        } else {
            before
        }
    }
}

/// How many of the events are to be counted as ignored.
pub open spec fn to_ignore<E>(records: Seq<Record<E>>, output_dir: Seq<char>) -> nat
    decreases records.len(),
{
    if records.len() == 0 {
        0
    } else {
        to_ignore(records.drop_last(), output_dir) + if counts_as_ignored(
            records.last().verdict(output_dir),
        ) {
            1nat
        } else {
            0nat
        }
    }
}

/// The events without those that came before.
pub open spec fn first_seen(events: Seq<BufferedEvent>) -> Seq<BufferedEvent>
    decreases events.len(),
{
    if events.len() == 0 {
        Seq::empty()
    } else {
        let before = first_seen(events.drop_last());
        if events.drop_last().contains(events.last()) {
            before
        } else {
            before.push(events.last())
        }
    }
}

/// Leaving out what came before leaves each event once.
pub proof fn law_first_seen(events: Seq<BufferedEvent>)
    ensures
        first_seen(events).no_duplicates(),
        forall|e: BufferedEvent| #[trigger]
            first_seen(events).contains(e) <==> events.contains(e),
    decreases events.len(),
{
    if events.len() > 0 {
        let before = events.drop_last();
        let last = events.last();
        law_first_seen(before);
        assert(first_seen(before).contains(last) <==> before.contains(last));
        assert forall|e: BufferedEvent| #[trigger] first_seen(events).contains(e)
            <==> events.contains(e) by {
            assert(first_seen(before).contains(e) <==> before.contains(e));
            if events.contains(e) {
                let i = choose|i: int| 0 <= i < events.len() && events[i] == e;
                if i < before.len() {
                    assert(before[i] == e);
                    let k = choose|k: int|
                        0 <= k < first_seen(before).len() && first_seen(before)[k] == e;
                    assert(first_seen(events)[k] == e);
                } else if !before.contains(last) {
                    assert(first_seen(events)[first_seen(before).len() as int] == e);
                }
            }
            if first_seen(events).contains(e) {
                let k = choose|k: int|
                    0 <= k < first_seen(events).len() && first_seen(events)[k] == e;
                if k < first_seen(before).len() {
                    assert(first_seen(before)[k] == e);
                    let i = choose|i: int| 0 <= i < before.len() && before[i] == e;
                    assert(events[i] == e);
                } else {
                    assert(events[events.len() - 1] == e);
                }
            }
        }
    }
}

/// Between two synchronisations the buffer gathers what came: the events that are neither in the
/// output directory nor ignored, each once and in the order in which they first came, and the
/// number of those that are ignored.
pub proof fn law_buffer_gathers_what_came<E>(records: Seq<Record<E>>, output_dir: Seq<char>)
    requires
        records.len() <= u64::MAX,
        forall|i: int| 0 <= i < records.len() ==> (#[trigger] records[i]).located is Ok,
    ensures
        recorded_all(
            Ok::<FileDataView, E>(FileDataView { ignored: 0, events: Seq::empty() }),
            records,
            output_dir,
        ) == Ok::<FileDataView, E>(
            FileDataView {
                ignored: to_ignore(records, output_dir) as u64,
                events: first_seen(to_buffer(records, output_dir)),
            },
        ),
        to_ignore(records, output_dir) <= records.len(),
    decreases records.len(),
{
    if records.len() > 0 {
        let before = records.drop_last();
        assert forall|i: int| 0 <= i < before.len() implies (#[trigger] before[i]).located is Ok by {
            assert(before[i] == records[i]);
        }
        law_buffer_gathers_what_came(before, output_dir);
        assert(records[records.len() - 1].located is Ok);
        let events = to_buffer(before, output_dir);
        let event = records.last().event();
        law_first_seen(events);
        assert(first_seen(events).contains(event) <==> events.contains(event));
        assert(events.push(event).drop_last() =~= events);
    }
}

/// The first path that cannot be located breaks the buffer, and its error is what the next
/// synchronisation returns.
pub proof fn law_first_error_breaks_the_buffer<E>(
    data: FileDataView,
    records: Seq<Record<E>>,
    output_dir: Seq<char>,
    i: int,
)
    requires
        0 <= i < records.len(),
        records[i].located is Err,
        forall|k: int| 0 <= k < i ==> (#[trigger] records[k]).located is Ok,
    ensures
        recorded_all(Ok::<FileDataView, E>(data), records, output_dir) == Err::<FileDataView, E>(
            records[i].located->Err_0,
        ),
    decreases records.len(),
{
    let before = records.drop_last();
    if i < before.len() {
        assert(before[i] == records[i]);
        assert forall|k: int| 0 <= k < i implies (#[trigger] before[k]).located is Ok by {
            assert(before[k] == records[k]);
        }
        law_first_error_breaks_the_buffer(data, before, output_dir, i);
    } else {
        lemma_no_error(data, before, output_dir);
    }
}

/// As long as every path is located there is no error.
proof fn lemma_no_error<E>(data: FileDataView, records: Seq<Record<E>>, output_dir: Seq<char>)
    requires
        forall|k: int| 0 <= k < records.len() ==> (#[trigger] records[k]).located is Ok,
    ensures
        recorded_all(Ok::<FileDataView, E>(data), records, output_dir) is Ok,
    decreases records.len(),
{
    if records.len() > 0 {
        let before = records.drop_last();
        assert forall|k: int| 0 <= k < before.len() implies (#[trigger] before[k]).located is Ok by {
            assert(before[k] == records[k]);
        }
        lemma_no_error(data, before, output_dir);
        assert(records[records.len() - 1].located is Ok);
    }
}

/// An error stays until the next synchronisation, whatever comes meanwhile.
pub proof fn law_error_stays<E>(
    error: E,
    path: Seq<char>,
    event_type: EventPortEventType,
    is_dir: bool,
    located: Result<Located, E>,
    output_dir: Seq<char>,
)
    ensures
        recorded(
            Err(error),
            path,
            event_type,
            is_dir,
            located,
            output_dir,
        ) == Err::<FileDataView, E>(error),
{
}

/// What recording an event does. An error that broke the buffer stays; a path that cannot be
/// located breaks it. Otherwise the event leaves no trace if its path lies in the output directory,
/// is counted and not kept if it has a temporary name or the ignore rules match its path, and is
/// kept, once, and not counted if neither is so.
pub proof fn law_what_recording_does<E>(
    state: Result<FileDataView, E>,
    path: Seq<char>,
    event_type: EventPortEventType,
    is_dir: bool,
    located: Result<Located, E>,
    output_dir: Seq<char>,
)
    requires
        state matches Ok(data) ==> data.ignored < u64::MAX,
    ensures
        ({
            let after = recorded(state, path, event_type, is_dir, located, output_dir);
            match (state, located) {
                (Err(first), _) => after == Err::<FileDataView, E>(first),
                (Ok(_), Err(e)) => after == Err::<FileDataView, E>(e),
                (Ok(data), Ok(l)) => {
                    let event = BufferedEvent { path: l.cell_path@, event_type, is_dir };
                    let is_output = starts_with(l.relative@, output_dir);
                    let is_ignored = file_name_of(path) is Some && is_temporary(
                        file_name_of(path)->Some_0,
                    ) || l.ignore_match == Some(true);
                    &&& after is Ok
                    &&& after->Ok_0.ignored == data.ignored + if !is_output && is_ignored {
                        1int
                    } else {
                        0int
                    }
                    &&& is_output || is_ignored || data.events.contains(event)
                        ==> after->Ok_0.events == data.events
                    &&& !is_output && !is_ignored && !data.events.contains(event)
                        ==> after->Ok_0.events == data.events.push(event)
                },
            }
        }),
{
}

/// What is answered to an event that is looked at without knowledge of its cell: that the buffer is
/// broken, where it is, and else the verdict, or that the cell decides where neither the output
/// directory nor the file name does.
pub proof fn law_what_screening_answers<E>(
    state: Result<FileDataView, E>,
    path: Seq<char>,
    relative: Seq<char>,
    output_dir: Seq<char>,
)
    ensures
        ({
            let answer = screening(state, early_verdict(path, relative, output_dir));
            let is_output = starts_with(relative, output_dir);
            let has_temporary_name = file_name_of(path) is Some && is_temporary(
                file_name_of(path)->Some_0,
            );
            &&& answer is Broken <==> state is Err
            &&& answer is CellDecides <==> state is Ok && !is_output && !has_temporary_name
            &&& answer == Screening::Settled(Verdict::Output) <==> state is Ok && is_output
            &&& answer == Screening::Settled(Verdict::Temporary) <==> state is Ok && !is_output
                && has_temporary_name
        }),
{
}

} // verus!
