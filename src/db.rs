//! A stream log: the record file of one stream, its offset index, and the rules for
//! appending to it and reading from it. Events are not deduplicated by source and id:
//! `Error::SourceIdConflict` is never raised here and stays for callers that answer it.
use vstd::prelude::*;
use crate::event::{encode_all, is_event_line, record, texts, Event};
use vstd::slice::slice_subrange;
use crate::index::{encode_offsets, entry, index_bytes, lemma_index_entries, lemma_index_prefix, push_entry};
use crate::lines::{
    as_ints, ends_clean, lemma_between_boundaries, lemma_concat, lemma_cut_tail, lemma_line_at_start, lemma_line_shape,
    lemma_prefix_lines, line_offsets, line_starts, lines, tail_start, NEWLINE,
};

verus! {

/// Whether a stream accepts data operations.
#[derive(Clone, Copy, Debug, PartialEq, Eq, Structural)]
pub enum RunState {
    Stopped,
    Running,
}

/// The ways an operation on a stream fails.
#[derive(Clone, Copy, Debug, PartialEq, Eq, Structural)]
pub enum Error {
    /// The expected revision did not hold.
    RevisionMismatch,
    /// An event with that source and id is already in the stream.
    SourceIdConflict,
    /// The stream is not running.
    Stopped,
    /// A record line is not an event.
    DecodeFailed,
    /// An event could not be written as JSON.
    EncodeFailed,
    /// An append was given no events.
    EmptyAppend,
    /// The record file would outgrow a 64-bit offset.
    TooLarge,
}

} // verus!

verus! {

/// The precondition of an append, checked against the stream's current revision.
#[derive(Clone, Copy, Debug, PartialEq, Eq, Structural)]
pub enum ExpectedRevision {
    /// Whatever the revision is.
    Any,
    /// The stream holds no event.
    NoStream,
    /// The stream holds at least one event.
    StreamExists,
    /// The stream holds exactly this many events.
    Exact(u64),
}

impl ExpectedRevision {
    /// Whether the precondition holds of a stream at revision `current`.
    pub open spec fn admits(self, current: nat) -> bool {
        match self {
            ExpectedRevision::Any => true,
            ExpectedRevision::NoStream => current == 0,
            ExpectedRevision::StreamExists => current > 0,
            ExpectedRevision::Exact(n) => current == n,
        }
    }

    /// Whether the precondition holds of a stream at revision `current`.
    pub fn matches(&self, current: u64) -> (r: bool)
        ensures
            r == self.admits(current as nat),
    {
        match self {
            ExpectedRevision::Any => true,
            ExpectedRevision::NoStream => current == 0,
            ExpectedRevision::StreamExists => current > 0,
            ExpectedRevision::Exact(n) => current == *n,
        }
    }
}

impl Default for ExpectedRevision {
    fn default() -> (r: Self)
        ensures
            r == ExpectedRevision::Any,
    {
        ExpectedRevision::Any
    }
}

} // verus!

verus! {

/// What a stream log is, for contracts: its run state, its directory, and the bytes
/// of its record file.
pub struct DatabaseView {
    pub state: RunState,
    pub path: Seq<char>,
    pub log: Seq<u8>,
}

/// The writes that make an accepted append durable: the record lines go to the end
/// of the record file first, then the index entries to the end of the index file.
pub struct AppendPlan {
    /// The stream's revision once the append is durable.
    pub revision: u64,
    /// The length of the record file before the append, where the records begin.
    pub log_offset: u64,
    /// The record lines of the appended events.
    pub records: Vec<u8>,
    /// The index entries of the appended events.
    pub index: Vec<u8>,
}

/// The part of the record file that holds a run of consecutive events.
#[derive(Clone, Copy, Debug, PartialEq, Eq, Structural)]
pub struct ReadWindow {
    /// Offset of the first byte of the first event.
    pub from: u64,
    /// Offset one past the newline of the last event.
    pub to: u64,
    /// How many events lie in between.
    pub count: u64,
}

/// The repairs that a start found necessary.
pub struct Repair {
    /// The length to cut the record file to, dropping a partial last line.
    pub log_len: u64,
    /// The index file rebuilt from the record file.
    pub index: Vec<u8>,
}

/// What a start did.
pub enum StartOutcome {
    /// The stream was already running; nothing changed.
    AlreadyRunning,
    /// The files were consistent and the stream now runs.
    Clean,
    /// The stream now runs once the files are repaired as given.
    Repaired(Repair),
}

/// A stream log: its run state, its directory, and, in memory, the offset of each
/// event's record line and the length of the record file.
pub struct Database {
    state: RunState,
    path: String,
    offsets: Vec<u64>,
    log_len: u64,
    log: Ghost<Seq<u8>>,
}

impl View for Database {
    type V = DatabaseView;

    closed spec fn view(&self) -> DatabaseView {
        DatabaseView { state: self.state, path: self.path@, log: self.log@ }
    }
}

/// The revision of a stream whose record file holds `log`: its number of events.
pub open spec fn revision_of(log: Seq<u8>) -> nat {
    lines(log).len()
}

/// The index file that belongs to the record file `log`.
pub open spec fn index_of(log: Seq<u8>) -> Seq<u8> {
    index_bytes(line_starts(log))
}

/// Appends `src` to `out`.
fn append_bytes(out: &mut Vec<u8>, src: &[u8])
    ensures
        final(out)@ == old(out)@ + src@,
{
    let mut i: usize = 0;
    while i < src.len()
        invariant
            i <= src@.len(),
            out@ == old(out)@ + src@.take(i as int),
        decreases src@.len() - i,
    {
        out.push(src[i]);
        i += 1;
        assert(out@ =~= old(out)@ + src@.take(i as int));
    }
    assert(src@.take(i as int) =~= src@);
}

/// Whether two byte strings are equal.
pub(crate) fn bytes_equal(a: &[u8], b: &[u8]) -> (r: bool)
    ensures
        r == (a@ == b@),
{
    if a.len() != b.len() {
        return false;
    }
    let mut i: usize = 0;
    while i < a.len()
        invariant
            i <= a@.len() == b@.len(),
            forall|k: int| 0 <= k < i ==> a@[k] == b@[k],
        decreases a@.len() - i,
    {
        if a[i] != b[i] {
            return false;
        }
        i += 1;
    }
    assert(a@ =~= b@);
    true
}

/// The record line of an event without newline holds one line, that event.
proof fn lemma_record(e: Seq<u8>)
    requires
        !e.contains(NEWLINE),
    ensures
        ends_clean(record(e)),
        line_starts(record(e)) == seq![0int],
        lines(record(e)) == seq![e],
{
    lemma_line_shape(e);
    if tail_start(e) > 0 {
        assert(e[tail_start(e) - 1] == NEWLINE);
    }
    assert(record(e).drop_last() =~= e);
    assert(e.subrange(0, e.len() as int) =~= e);
    assert(line_starts(e) =~= Seq::<int>::empty());
    assert(lines(e) =~= Seq::<Seq<u8>>::empty());
    assert(line_starts(record(e)) =~= seq![0int]);
    assert(lines(record(e)) =~= seq![e]);
}

impl Database {
    /// The in-memory offsets and length agree with the record file, which holds no
    /// partial line.
    pub closed spec fn wf(&self) -> bool {
        &&& ends_clean(self.log@)
        &&& self.log@.len() <= u64::MAX
        &&& self.log_len == self.log@.len()
        &&& as_ints(self.offsets@) == line_starts(self.log@)
    }

    /// One offset per event, and no more events than bytes.
    proof fn lemma_counts(&self)
        requires
            self.wf(),
        ensures
            self.offsets@.len() == revision_of(self.log@),
            revision_of(self.log@) <= self.log@.len() <= u64::MAX,
    {
        lemma_line_shape(self.log@);
        assert(self.offsets@.len() == as_ints(self.offsets@).len());
    }

    /// A stopped stream log for the directory `path`, with no events yet known.
    pub fn new(path: &str) -> (r: Database)
        ensures
            r.wf(),
            r@.state == RunState::Stopped,
            r@.path == path@,
            r@.log == Seq::<u8>::empty(),
    {
        let r = Database {
            state: RunState::Stopped,
            path: path.to_owned(),
            offsets: Vec::new(),
            log_len: 0,
            log: Ghost(Seq::empty()),
        };
        assert(as_ints(r.offsets@) =~= line_starts(Seq::<u8>::empty()));
        r
    }

    /// Starts the stream from the contents of its record file and index file. A
    /// partial last line is dropped; an index that does not match the record file is
    /// rebuilt from it.
    pub fn start(&mut self, log: &[u8], index: &[u8]) -> (r: StartOutcome)
        requires
            old(self).wf(),
            log@.len() <= u64::MAX,
        ensures
            final(self).wf(),
            old(self)@.state == RunState::Running ==> final(self)@ == old(self)@ && r is AlreadyRunning,
            old(self)@.state == RunState::Stopped ==> {
                &&& final(self)@.state == RunState::Running
                &&& final(self)@.path == old(self)@.path
                &&& final(self)@.log == log@.take(tail_start(log@))
                &&& lines(final(self)@.log) == lines(log@)
                &&& (r is Clean <==> ends_clean(log@) && index@ == index_of(log@))
                &&& !(r is AlreadyRunning)
                &&& (r matches StartOutcome::Repaired(rep) ==> rep.log_len == tail_start(log@)
                    && rep.index@ == index_of(log@))
            },
    {
        if let RunState::Running = self.state {
            return StartOutcome::AlreadyRunning;
        }
        let (starts, tail) = line_offsets(log);
        let rebuilt = encode_offsets(starts.as_slice());
        let clean = tail == log.len() as u64 && bytes_equal(index, rebuilt.as_slice());
        proof {
            lemma_cut_tail(log@);
        }
        self.state = RunState::Running;
        self.offsets = starts;
        self.log_len = tail;
        self.log = Ghost(log@.take(tail as int));
        if clean {
            StartOutcome::Clean
        } else {
            StartOutcome::Repaired(Repair { log_len: tail, index: rebuilt })
        }
    }

    /// The stream's revision: how many events it holds.
    pub fn revision(&self) -> (r: u64)
        requires
            self.wf(),
        ensures
            r == revision_of(self@.log),
    {
        proof {
            self.lemma_counts();
        }
        self.offsets.len() as u64
    }

    /// Whether the stream is running.
    pub fn state(&self) -> (r: RunState)
        ensures
            r == self@.state,
    {
        self.state
    }

    /// The size in bytes of the record file.
    pub fn file_len(&self) -> (r: u64)
        requires
            self.wf(),
        ensures
            r == self@.log.len(),
    {
        self.log_len
    }

    /// Appends a batch of events if the expected revision holds. The in-memory state
    /// moves on at once; the plan gives the bytes that make the append durable.
    pub fn append(&mut self, events: &Vec<Event>, expected: ExpectedRevision) -> (r: Result<AppendPlan, Error>)
        requires
            old(self).wf(),
        ensures
            final(self).wf(),
            r is Ok <==> {
                &&& old(self)@.state == RunState::Running
                &&& events@.len() > 0
                &&& expected.admits(revision_of(old(self)@.log))
                &&& old(self)@.log.len() + encode_all(events@).len() <= u64::MAX
            },
            r == Err::<AppendPlan, Error>(Error::Stopped) <==> old(self)@.state != RunState::Running,
            r == Err::<AppendPlan, Error>(Error::EmptyAppend) <==> old(self)@.state == RunState::Running
                && events@.len() == 0,
            r == Err::<AppendPlan, Error>(Error::TooLarge) <==> old(self)@.state == RunState::Running
                && events@.len() > 0 && expected.admits(revision_of(old(self)@.log))
                && old(self)@.log.len() + encode_all(events@).len() > u64::MAX,
            r == Err::<AppendPlan, Error>(Error::RevisionMismatch) <==> old(self)@.state == RunState::Running
                && events@.len() > 0 && !expected.admits(revision_of(old(self)@.log)),
            r is Err ==> final(self)@ == old(self)@,
            r matches Ok(p) ==> {
                &&& final(self)@.state == old(self)@.state
                &&& final(self)@.path == old(self)@.path
                &&& final(self)@.log == old(self)@.log + encode_all(events@)
                &&& lines(final(self)@.log) == lines(old(self)@.log) + texts(events@)
                &&& p.revision == revision_of(final(self)@.log)
                &&& p.revision == revision_of(old(self)@.log) + events@.len()
                &&& p.log_offset == old(self)@.log.len()
                &&& p.records@ == encode_all(events@)
                &&& p.index@ == index_of(final(self)@.log).skip(8 * revision_of(old(self)@.log) as int)
            },
    {
        proof {
            self.lemma_counts();
        }
        if let RunState::Stopped = self.state {
            return Err(Error::Stopped);
        }
        if events.len() == 0 {
            return Err(Error::EmptyAppend);
        }
        let count = self.offsets.len() as u64;
        if !expected.matches(count) {
            return Err(Error::RevisionMismatch);
        }
        let mut records: Vec<u8> = Vec::new();
        let mut starts: Vec<usize> = Vec::new();
        let mut i: usize = 0;
        while i < events.len()
            invariant
                i <= events@.len(),
                records@ == encode_all(events@.take(i as int)),
                ends_clean(records@),
                starts@.map_values(|x: usize| x as int) == line_starts(records@),
                lines(records@) == texts(events@.take(i as int)),
            decreases events@.len() - i,
        {
            let e = &events[i];
            let line = e.encode();
            let ghost before = records@;
            starts.push(records.len());
            append_bytes(&mut records, line.as_slice());
            proof {
                lemma_record(e@);
                lemma_concat(before, record(e@));
                assert(events@.take(i + 1).drop_last() =~= events@.take(i as int));
                assert(starts@.map_values(|x: usize| x as int) =~= line_starts(records@));
                assert(texts(events@.take(i + 1)) =~= texts(events@.take(i as int)).push(e@));
            }
            i += 1;
        }
        proof {
            assert(events@.take(i as int) =~= events@);
            lemma_line_shape(records@);
            assert forall|k: int| 0 <= k < starts@.len() implies #[trigger] starts@[k] < records@.len() by {
                assert(starts@.map_values(|x: usize| x as int)[k] == starts@[k] as int);
            }
        }
        if records.len() as u64 > u64::MAX - self.log_len {
            return Err(Error::TooLarge);
        }
        let ghost shifted = line_starts(records@).map_values(|x: int| x + self.log_len);
        let mut offsets = self.offsets.clone();
        let mut index: Vec<u8> = Vec::new();
        let mut j: usize = 0;
        while j < starts.len()
            invariant
                j <= starts@.len() == shifted.len(),
                records@.len() + self.log_len <= u64::MAX,
                forall|k: int| 0 <= k < starts@.len() ==> #[trigger] starts@[k] < records@.len(),
                starts@.map_values(|x: usize| x as int) == line_starts(records@),
                shifted == line_starts(records@).map_values(|x: int| x + self.log_len),
                as_ints(offsets@) == line_starts(self.log@) + shifted.take(j as int),
                index@ == index_bytes(shifted.take(j as int)),
            decreases starts@.len() - j,
        {
            assert(starts@.map_values(|x: usize| x as int)[j as int] == starts@[j as int] as int);
            let at = self.log_len + starts[j] as u64;
            let ghost prev = offsets@;
            offsets.push(at);
            push_entry(&mut index, at);
            proof {
                assert(shifted[j as int] == at as int);
                assert(as_ints(offsets@) =~= as_ints(prev).push(at as int));
                assert(shifted.take(j + 1) =~= shifted.take(j as int).push(shifted[j as int]));
                assert(shifted.take(j + 1).drop_last() =~= shifted.take(j as int));
                assert(as_ints(offsets@) =~= line_starts(self.log@) + shifted.take(j + 1));
            }
            j += 1;
        }
        proof {
            lemma_concat(self.log@, records@);
            assert(shifted.take(j as int) =~= shifted);
            assert(line_starts(self.log@ + records@).skip(self.offsets@.len() as int) =~= shifted);
            lemma_index_prefix(line_starts(self.log@), shifted);
            assert(lines(self.log@ + records@).len() == lines(self.log@).len() + events@.len());
        }
        let revision = count + starts.len() as u64;
        let log_offset = self.log_len;
        self.offsets = offsets;
        self.log_len = self.log_len + records.len() as u64;
        self.log = Ghost(self.log@ + records@);
        proof {
            lemma_line_shape(self.log@);
        }
        Ok(AppendPlan { revision, log_offset, records, index })
    }

    /// The part of the record file that holds up to `limit` events from index `start`
    /// on: the events at revisions `start + 1` to `min(start + limit, revision)`.
    /// There is none when `start` is past the last event or `limit` is zero.
    pub fn query_window(&self, start: u64, limit: usize) -> (r: Result<Option<ReadWindow>, Error>)
        requires
            self.wf(),
        ensures
            r is Err <==> self@.state != RunState::Running,
            r matches Err(e) ==> e == Error::Stopped,
            r == Ok::<Option<ReadWindow>, Error>(None) <==> self@.state == RunState::Running
                && (start >= revision_of(self@.log) || limit == 0),
            r matches Ok(Some(w)) ==> {
                let end = if start + limit < revision_of(self@.log) {
                    start + limit
                } else {
                    revision_of(self@.log) as int
                };
                &&& w.from <= w.to <= self@.log.len()
                &&& w.count == end - start
                &&& lines(self@.log.subrange(w.from as int, w.to as int)) == lines(self@.log).subrange(start as int, end)
            },
    {
        proof {
            self.lemma_counts();
        }
        if let RunState::Stopped = self.state {
            return Err(Error::Stopped);
        }
        let count = self.offsets.len() as u64;
        if start >= count || limit == 0 {
            return Ok(None);
        }
        let avail = count - start;
        let n: u64 = if (limit as u64) < avail { limit as u64 } else { avail };
        let end = start + n;
        let from = self.offsets[start as usize];
        let to = if end < count { self.offsets[end as usize] } else { self.log_len };
        proof {
            assert(as_ints(self.offsets@)[start as int] == from as int);
            if end < count {
                assert(as_ints(self.offsets@)[end as int] == to as int);
            }
            lemma_between_boundaries(self.log@, start as int, end as int);
        }
        Ok(Some(ReadWindow { from, to, count: n }))
    }

    /// Forgets the stream's events and stops it, as its files are removed.
    pub fn delete(&mut self)
        requires
            old(self).wf(),
        ensures
            final(self).wf(),
            final(self)@.state == RunState::Stopped,
            final(self)@.path == old(self)@.path,
            final(self)@.log == Seq::<u8>::empty(),
    {
        self.state = RunState::Stopped;
        self.offsets = Vec::new();
        self.log_len = 0;
        self.log = Ghost(Seq::empty());
        assert(as_ints(self.offsets@) =~= line_starts(Seq::<u8>::empty()));
    }

    /// The path of the record file.
    pub fn events_path(&self) -> (r: String)
        ensures
            r@ == self@.path + "/events.ndjson"@,
    {
        self.path.clone().concat("/events.ndjson")
    }

    /// The path of the index file.
    pub fn index_path(&self) -> (r: String)
        ensures
            r@ == self@.path + "/index.dat"@,
    {
        self.path.clone().concat("/index.dat")
    }

    /// The stream's directory.
    pub fn path(&self) -> (r: &String)
        ensures
            r@ == self@.path,
    {
        &self.path
    }
}

} // verus!

verus! {

/// The events that the complete lines of `bytes` hold, in order; a line that is not an
/// event fails the read.
pub fn read_events(bytes: &[u8]) -> (r: Result<Vec<Event>, Error>)
    ensures
        r is Ok <==> forall|i: int| 0 <= i < lines(bytes@).len() ==> is_event_line(#[trigger] lines(bytes@)[i]),
        r matches Ok(v) ==> texts(v@) == lines(bytes@),
        r matches Err(e) ==> e == Error::DecodeFailed,
{
    let mut out: Vec<Event> = Vec::new();
    let mut cur: usize = 0;
    let mut i: usize = 0;
    while i < bytes.len()
        invariant
            i <= bytes@.len(),
            cur == tail_start(bytes@.take(i as int)),
            texts(out@) == lines(bytes@.take(i as int)),
            forall|k: int| 0 <= k < lines(bytes@.take(i as int)).len() ==> is_event_line(#[trigger] lines(bytes@.take(i as int))[k]),
        decreases bytes@.len() - i,
    {
        proof {
            lemma_line_shape(bytes@.take(i as int));
            assert(bytes@.take(i + 1).drop_last() =~= bytes@.take(i as int));
        }
        if bytes[i] == NEWLINE {
            let line = slice_subrange(bytes, cur, i);
            proof {
                assert(line@ =~= bytes@.take(i as int).subrange(cur as int, i as int));
                lemma_prefix_lines(bytes@, i + 1);
                assert(bytes@.take(i + 1).last() == NEWLINE);
                assert(lines(bytes@.take(i + 1)) == lines(bytes@.take(i as int)).push(line@));
            }
            match Event::from_line(line) {
                Ok(e) => {
                    out.push(e);
                    proof {
                        assert(texts(out@) =~= lines(bytes@.take(i + 1)));
                    }
                },
                Err(_) => {
                    proof {
                        let k = lines(bytes@.take(i + 1)).len() - 1;
                        assert(lines(bytes@.take(i + 1))[k] == line@);
                        assert(lines(bytes@)[k] == line@);
                    }
                    return Err(Error::DecodeFailed);
                },
            }
            cur = i + 1;
        }
        i += 1;
    }
    assert(bytes@.take(i as int) =~= bytes@);
    Ok(out)
}

} // verus!

verus! {

/// In a record file without a partial line, entry `i` of its index is the offset at
/// which line `i` begins: the line's bytes sit there, followed by a newline. The index
/// holds 8 bytes per event.
pub proof fn lemma_index_locates_lines(log: Seq<u8>, i: int)
    requires
        ends_clean(log),
        log.len() <= u64::MAX,
        0 <= i < revision_of(log),
    ensures
        index_of(log).len() == 8 * revision_of(log),
        entry(index_of(log), i) == line_starts(log)[i],
        log.subrange(
            entry(index_of(log), i) as int,
            entry(index_of(log), i) + lines(log)[i].len(),
        ) == lines(log)[i],
        log[entry(index_of(log), i) + lines(log)[i].len()] == NEWLINE,
{
    lemma_line_shape(log);
    lemma_index_entries(line_starts(log));
    lemma_line_at_start(log, i);
}

/// The record lines of a batch of valid events hold those events, one per line.
pub proof fn lemma_encode_all(events: Seq<Event>)
    requires
        forall|i: int| 0 <= i < events.len() ==> is_event_line(#[trigger] events[i]@),
    ensures
        ends_clean(encode_all(events)),
        lines(encode_all(events)) == texts(events),
    decreases events.len(),
{
    if events.len() > 0 {
        let init = events.drop_last();
        lemma_encode_all(init);
        lemma_record(events.last()@);
        lemma_concat(encode_all(init), record(events.last()@));
        assert(texts(events) =~= texts(init).push(events.last()@));
    } else {
        assert(lines(encode_all(events)) =~= texts(events));
    }
}

/// A crash part way through writing an append's records leaves, once a start has
/// dropped the partial last line, the events from before and a first part of the
/// batch, each of them whole.
pub proof fn lemma_crash_keeps_whole_events(log: Seq<u8>, events: Seq<Event>, written: int)
    requires
        ends_clean(log),
        forall|i: int| 0 <= i < events.len() ==> is_event_line(#[trigger] events[i]@),
        0 <= written <= encode_all(events).len(),
    ensures
        ({
            let kept = lines(log + encode_all(events).take(written));
            &&& revision_of(log) <= kept.len() <= revision_of(log) + events.len()
            &&& kept == lines(log) + texts(events).take(kept.len() - revision_of(log))
        }),
{
    let part = encode_all(events).take(written);
    lemma_encode_all(events);
    lemma_prefix_lines(encode_all(events), written);
    lemma_concat(log, part);
    assert(lines(log + part).len() - revision_of(log) == lines(part).len());
}

/// The record file of a stream that was empty and then took the given batches, in order.
pub open spec fn log_after(batches: Seq<Seq<Event>>) -> Seq<u8>
    decreases batches.len(),
{
    if batches.len() == 0 {
        Seq::empty()
    } else {
        log_after(batches.drop_last()) + encode_all(batches.last())
    }
}

/// The events of the given batches, in order.
pub open spec fn all_texts(batches: Seq<Seq<Event>>) -> Seq<Seq<u8>>
    decreases batches.len(),
{
    if batches.len() == 0 {
        Seq::empty()
    } else {
        all_texts(batches.drop_last()) + texts(batches.last())
    }
}

/// A stream that was empty and then took a run of appends holds their events in order,
/// so its revision is the number of events appended.
pub proof fn lemma_revision_counts_events(batches: Seq<Seq<Event>>)
    requires
        forall|b: int, i: int|
            0 <= b < batches.len() && 0 <= i < batches[b].len() ==> is_event_line(#[trigger] batches[b][i]@),
    ensures
        ends_clean(log_after(batches)),
        lines(log_after(batches)) == all_texts(batches),
        revision_of(log_after(batches)) == all_texts(batches).len(),
    decreases batches.len(),
{
    if batches.len() == 0 {
        assert(lines(Seq::<u8>::empty()) =~= Seq::<Seq<u8>>::empty());
    } else {
        let init = batches.drop_last();
        assert forall|b: int, i: int| 0 <= b < init.len() && 0 <= i < init[b].len() implies is_event_line(
            #[trigger] init[b][i]@,
        ) by {
            assert(init[b] == batches[b]);
        }
        lemma_revision_counts_events(init);
        let last = batches.last();
        assert forall|i: int| 0 <= i < last.len() implies is_event_line(#[trigger] last[i]@) by {
            assert(batches[batches.len() - 1][i] == last[i]);
        }
        lemma_encode_all(last);
        lemma_concat(log_after(init), encode_all(last));
    }
}

} // verus!
