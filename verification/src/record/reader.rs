//! The reader of the log: it takes the bytes of a log apart into records,
//! puts the fragments of a user record together again, and steps over
//! damage to the start of the next block.

use vstd::prelude::*;
use vstd::slice::{slice_subrange, slice_to_vec};
use crate::record::writer::push_all;
use crate::record::{record_checksum, RecordType, BLOCK_SIZE, HEADER_SIZE};
use crate::util::coding::{decode_fixed_32, fixed32_value};
use crate::util::crc32::{extend, lemma_extend_concat, mask, value};
use crate::util::status::{Status, WickErr};

verus! {

/// Why the reader dropped a stretch of the log.
#[derive(Debug, Clone, Copy, PartialEq, Eq, Structural)]
pub enum Damage {
    /// A header with the reserved type or an unknown one.
    BadType,
    /// A header whose length reaches beyond the end of its block.
    BadLength,
    /// A record whose checksum does not match its type and payload.
    BadChecksum,
    /// A middle or last fragment with no first fragment before it.
    UnexpectedFragment,
    /// A new user record began before the one in progress had its last
    /// fragment.
    UnfinishedRecord,
    /// The log ended in the middle of a user record.
    UnexpectedEof,
}

impl Damage {
    /// The error that reports this damage.
    pub fn to_error(self) -> (e: WickErr)
        ensures
            e.t == Status::Corruption,
            e.msg.is_some(),
            e.raw.is_none(),
    {
        let msg: &'static str = match self {
            Damage::BadType => "bad record type",
            Damage::BadLength => "bad record length",
            Damage::BadChecksum => "checksum mismatch",
            Damage::UnexpectedFragment => "missing start of fragmented record",
            Damage::UnfinishedRecord => "partial record without end",
            Damage::UnexpectedEof => "log ends within a record",
        };
        WickErr::new(Status::Corruption, Some(msg))
    }
}

/// What the reader reports, in the model: a user record or damage.
pub enum Event {
    Record(Seq<u8>),
    Corruption(Damage),
}

/// What the reader reports: a user record or damage.
#[derive(Debug)]
pub enum LogEvent {
    Record(Vec<u8>),
    Corruption(Damage),
}

impl View for LogEvent {
    type V = Event;

    open spec fn view(&self) -> Event {
        match self {
            LogEvent::Record(r) => Event::Record(r@),
            LogEvent::Corruption(d) => Event::Corruption(*d),
        }
    }
}

/// Where a reader stands: its position in the log, and the fragments it has
/// gathered of a user record not yet complete.
pub struct ReaderState {
    pub pos: nat,
    pub partial: Option<Seq<u8>>,
}

/// The end of what can be read of the block that holds `pos`: the block's
/// end or the log's, whichever comes first.
pub open spec fn block_end(len: nat, pos: nat) -> nat
    recommends
        pos < len,
{
    let in_block = BLOCK_SIZE - pos % (BLOCK_SIZE as nat);
    if len - pos < in_block {
        len
    } else {
        (pos + in_block) as nat
    }
}

/// What lies at a position of the log.
pub enum Physical {
    /// Nothing more: the end of the log, or a tail too short for a header
    /// at its end.
    End,
    /// A block's tail too short for a header.
    Padding { next: nat },
    /// A damaged record; reading goes on at the next block.
    Bad { damage: Damage, next: nat },
    /// A sound record.
    Fragment { kind: RecordType, payload: Seq<u8>, next: nat },
}

/// The payload length that the header at `pos` states.
pub open spec fn stated_len(data: Seq<u8>, pos: nat) -> nat {
    (data[pos as int + 4] + 256 * data[pos as int + 5]) as nat
}

/// The record at `pos`, as far as it can be told from the bytes.
pub open spec fn physical(data: Seq<u8>, pos: nat) -> Physical {
    if pos >= data.len() {
        Physical::End
    } else {
        let end = block_end(data.len(), pos);
        if end - pos < HEADER_SIZE {
            if end == data.len() {
                Physical::End
            } else {
                Physical::Padding { next: end }
            }
        } else {
            let len = stated_len(data, pos);
            let tag = data[pos as int + 6];
            let payload = data.subrange(pos as int + HEADER_SIZE, pos as int + HEADER_SIZE + len);
            if tag == 0 || tag > 4 {
                Physical::Bad { damage: Damage::BadType, next: end }
            } else if HEADER_SIZE + len > end - pos {
                Physical::Bad { damage: Damage::BadLength, next: end }
            } else if fixed32_value(data.subrange(pos as int, pos as int + 4)) != record_checksum(
                tag,
                payload,
            ) {
                Physical::Bad { damage: Damage::BadChecksum, next: end }
            } else {
                Physical::Fragment {
                    kind: RecordType::spec_from_tag(tag).unwrap(),
                    payload,
                    next: (pos + HEADER_SIZE + len) as nat,
                }
            }
        }
    }
}

/// One move of the reader.
pub enum Step {
    /// The log is read through.
    Done,
    /// The reader moved on without a report.
    Quiet(ReaderState),
    /// The reader reports an event and moves on.
    Emit(Event, ReaderState),
}

/// The reader's move from a state: what the record at its position means
/// given the fragments gathered so far.
pub open spec fn step(data: Seq<u8>, st: ReaderState) -> Step {
    let dropped = ReaderState { pos: st.pos, partial: None };
    match physical(data, st.pos) {
        Physical::End => match st.partial {
            Some(_) => Step::Emit(Event::Corruption(Damage::UnexpectedEof), dropped),
            None => Step::Done,
        },
        Physical::Padding { next } => Step::Quiet(ReaderState { pos: next, partial: st.partial }),
        Physical::Bad { damage, next } => Step::Emit(
            Event::Corruption(damage),
            ReaderState { pos: next, partial: None },
        ),
        Physical::Fragment { kind, payload, next } => {
            let fresh = ReaderState { pos: next, partial: None };
            match (kind, st.partial) {
                (RecordType::Full, None) => Step::Emit(Event::Record(payload), fresh),
                (RecordType::First, None) => Step::Quiet(
                    ReaderState { pos: next, partial: Some(payload) },
                ),
                (RecordType::Middle, Some(acc)) => Step::Quiet(
                    ReaderState { pos: next, partial: Some(acc + payload) },
                ),
                (RecordType::Last, Some(acc)) => Step::Emit(Event::Record(acc + payload), fresh),
                (RecordType::Full, Some(_)) | (RecordType::First, Some(_)) => Step::Emit(
                    Event::Corruption(Damage::UnfinishedRecord),
                    dropped,
                ),
                _ => Step::Emit(Event::Corruption(Damage::UnexpectedFragment), fresh),
            }
        },
    }
}

/// How far a reader in state `st` is from the end, for termination.
pub open spec fn distance(data: Seq<u8>, st: ReaderState) -> (int, int) {
    (
        data.len() - st.pos,
        if st.partial.is_some() {
            1
        } else {
            0
        },
    )
}

/// Every move brings the reader nearer the end of the log.
pub proof fn lemma_step_advances(data: Seq<u8>, st: ReaderState)
    requires
        st.pos <= data.len(),
    ensures
        match step(data, st) {
            Step::Done => true,
            Step::Quiet(s2) | Step::Emit(_, s2) => {
                &&& st.pos <= s2.pos <= data.len()
                &&& s2.pos == st.pos ==> st.partial.is_some() && s2.partial.is_none()
            },
        },
{
}

/// The next event a reader in state `st` reports, and the state it is then
/// in; nothing at the end of the log.
pub open spec fn next_event(data: Seq<u8>, st: ReaderState) -> Option<(Event, ReaderState)>
    decreases data.len() - st.pos, (if st.partial.is_some() { 1int } else { 0int }),
    when st.pos <= data.len()
    via next_event_decreases
{
    match step(data, st) {
        Step::Done => None,
        Step::Quiet(s2) => next_event(data, s2),
        Step::Emit(e, s2) => Some((e, s2)),
    }
}

#[via_fn]
proof fn next_event_decreases(data: Seq<u8>, st: ReaderState) {
    lemma_step_advances(data, st);
}

/// All that a reader in state `st` reports up to the end of the log.
pub open spec fn events_from(data: Seq<u8>, st: ReaderState) -> Seq<Event>
    decreases data.len() - st.pos, (if st.partial.is_some() { 1int } else { 0int }),
    when st.pos <= data.len()
    via events_from_decreases
{
    match step(data, st) {
        Step::Done => Seq::empty(),
        Step::Quiet(s2) => events_from(data, s2),
        Step::Emit(e, s2) => seq![e] + events_from(data, s2),
    }
}

#[via_fn]
proof fn events_from_decreases(data: Seq<u8>, st: ReaderState) {
    lemma_step_advances(data, st);
}

/// The state of a reader at the start of a log.
pub open spec fn start() -> ReaderState {
    ReaderState { pos: 0, partial: None }
}

/// All that reading a log from its start reports.
pub open spec fn events(data: Seq<u8>) -> Seq<Event> {
    events_from(data, start())
}

/// The user records among some events, in order.
pub open spec fn records_of(evs: Seq<Event>) -> Seq<Seq<u8>>
    decreases evs.len(),
{
    if evs.len() == 0 {
        Seq::empty()
    } else {
        match evs.last() {
            Event::Record(r) => records_of(evs.drop_last()).push(r),
            Event::Corruption(_) => records_of(evs.drop_last()),
        }
    }
}

/// Unfolds `next_event` by one move of the reader.
pub proof fn lemma_next_event_step(data: Seq<u8>, st: ReaderState)
    requires
        st.pos <= data.len(),
    ensures
        next_event(data, st) == match step(data, st) {
            Step::Done => None,
            Step::Quiet(s2) => next_event(data, s2),
            Step::Emit(e, s2) => Some((e, s2)),
        },
{
}

/// All the events from a state are the next one, then all those from the
/// state after it.
pub proof fn lemma_events_unfold(data: Seq<u8>, st: ReaderState)
    requires
        st.pos <= data.len(),
    ensures
        events_from(data, st) == match next_event(data, st) {
            None => Seq::<Event>::empty(),
            Some((e, s2)) => seq![e] + events_from(data, s2),
        },
        next_event(data, st) matches Some((e, s2)) ==> s2.pos <= data.len(),
    decreases data.len() - st.pos, (if st.partial.is_some() { 1int } else { 0int }),
{
    lemma_step_advances(data, st);
    match step(data, st) {
        Step::Quiet(s2) => {
            lemma_events_unfold(data, s2);
        },
        _ => {},
    }
}

// what `read_physical` found, with a payload given by its place in the log
enum Found {
    End,
    Padding { next: usize },
    Bad { damage: Damage, next: usize },
    Fragment { kind: RecordType, start: usize, len: usize },
}

impl Found {
    spec fn model(self, data: Seq<u8>) -> Physical {
        match self {
            Found::End => Physical::End,
            Found::Padding { next } => Physical::Padding { next: next as nat },
            Found::Bad { damage, next } => Physical::Bad { damage, next: next as nat },
            Found::Fragment { kind, start, len } => Physical::Fragment {
                kind,
                payload: data.subrange(start as int, start + len),
                next: (start + len) as nat,
            },
        }
    }
}

fn read_physical(data: &[u8], pos: usize) -> (f: Found)
    requires
        pos <= data@.len(),
    ensures
        f.model(data@) == physical(data@, pos as nat),
        match f {
            Found::Fragment { kind, start, len } => {
                &&& start == pos + HEADER_SIZE
                &&& start + len <= data@.len() <= usize::MAX
                &&& kind != RecordType::Zero
            },
            Found::Padding { next } => pos < next <= data@.len(),
            Found::Bad { damage, next } => pos < next <= data@.len(),
            Found::End => true,
        },
{
    let total: usize = data.len();
    if pos >= total {
        return Found::End;
    }
    let in_block: usize = BLOCK_SIZE - pos % BLOCK_SIZE;
    let left: usize = if total - pos < in_block {
        total - pos
    } else {
        in_block
    };
    let end: usize = pos + left;
    if left < HEADER_SIZE {
        if end == total {
            return Found::End;
        } else {
            return Found::Padding { next: end };
        }
    }
    let len: usize = (data[pos + 4] as usize) + 256 * (data[pos + 5] as usize);
    let tag: u8 = data[pos + 6];
    let kind = match RecordType::from_tag(tag) {
        Some(k) => k,
        None => {
            return Found::Bad { damage: Damage::BadType, next: end };
        },
    };
    if tag == 0 {
        return Found::Bad { damage: Damage::BadType, next: end };
    }
    if HEADER_SIZE + len > left {
        return Found::Bad { damage: Damage::BadLength, next: end };
    }
    let start: usize = pos + HEADER_SIZE;
    let payload = slice_subrange(data, start, start + len);
    let mut one: Vec<u8> = Vec::new();
    one.push(tag);
    let crc: u32 = mask(extend(value(one.as_slice()), payload));
    proof {
        assert(one@ =~= seq![tag]);
        lemma_extend_concat(0, seq![tag], payload@);
    }
    let stored: u32 = decode_fixed_32(slice_subrange(data, pos, pos + 4));
    if stored != crc {
        return Found::Bad { damage: Damage::BadChecksum, next: end };
    }
    Found::Fragment { kind, start, len }
}

/// A reader over the bytes of a log.
pub struct Reader {
    data: Vec<u8>,
    pos: usize,
    // the fragments gathered of a user record whose last one is yet to come
    partial: Option<Vec<u8>>,
}

impl Reader {
    /// The reader's position lies within its log.
    pub closed spec fn wf(&self) -> bool {
        self.pos <= self.data@.len()
    }

    /// The bytes of the log being read.
    pub closed spec fn log(&self) -> Seq<u8> {
        self.data@
    }

    /// Where the reader stands.
    pub closed spec fn state(&self) -> ReaderState {
        ReaderState {
            pos: self.pos as nat,
            partial: match self.partial {
                Some(acc) => Some(acc@),
                None => None,
            },
        }
    }

    /// A reader at the start of the log `data`.
    pub fn new(data: Vec<u8>) -> (r: Self)
        ensures
            r.wf(),
            r.log() == data@,
            r.state() == start(),
    {
        Reader { data, pos: 0, partial: None }
    }

    /// Reads on to the next event: a user record or a report of damage.
    /// Returns nothing once the log is read through.
    pub fn read_record(&mut self) -> (r: Option<LogEvent>)
        requires
            old(self).wf(),
        ensures
            final(self).wf(),
            final(self).log() == old(self).log(),
            final(self).state().pos <= final(self).log().len(),
            match r {
                Some(e) => next_event(old(self).log(), old(self).state()) == Some(
                    (e@, final(self).state()),
                ),
                None => {
                    &&& next_event(old(self).log(), old(self).state()).is_none()
                    &&& next_event(final(self).log(), final(self).state()).is_none()
                },
            },
    {
        loop
            invariant
                self.wf(),
                old(self).wf(),
                self.log() == old(self).log(),
                next_event(old(self).log(), old(self).state()) == next_event(
                    self.log(),
                    self.state(),
                ),
            decreases self.data@.len() - self.pos, (if self.partial.is_some() { 1int } else { 0int }),
        {
            proof {
                lemma_next_event_step(self.log(), self.state());
                lemma_step_advances(self.log(), self.state());
            }
            let found = read_physical(self.data.as_slice(), self.pos);
            match found {
                Found::End => {
                    if self.partial.is_some() {
                        self.partial = None;
                        return Some(LogEvent::Corruption(Damage::UnexpectedEof));
                    } else {
                        return None;
                    }
                },
                Found::Padding { next } => {
                    self.pos = next;
                },
                Found::Bad { damage, next } => {
                    self.pos = next;
                    self.partial = None;
                    return Some(LogEvent::Corruption(damage));
                },
                Found::Fragment { kind, start, len } => {
                    let starts = match kind {
                        RecordType::Full | RecordType::First => true,
                        _ => false,
                    };
                    if starts && self.partial.is_some() {
                        self.partial = None;
                        return Some(LogEvent::Corruption(Damage::UnfinishedRecord));
                    }
                    let payload = slice_subrange(self.data.as_slice(), start, start + len);
                    let gathered: Option<Vec<u8>> = self.partial.take();
                    self.pos = start + len;
                    match (kind, gathered) {
                        (RecordType::Full, _) => {
                            return Some(LogEvent::Record(slice_to_vec(payload)));
                        },
                        (RecordType::First, _) => {
                            self.partial = Some(slice_to_vec(payload));
                        },
                        (RecordType::Middle, Some(acc)) => {
                            let mut acc = acc;
                            push_all(&mut acc, payload);
                            self.partial = Some(acc);
                        },
                        (RecordType::Last, Some(acc)) => {
                            let mut acc = acc;
                            push_all(&mut acc, payload);
                            return Some(LogEvent::Record(acc));
                        },
                        _ => {
                            return Some(LogEvent::Corruption(Damage::UnexpectedFragment));
                        },
                    }
                },
            }
        }
    }
}

/// The model of a run of reported events.
pub open spec fn events_view(evs: Seq<LogEvent>) -> Seq<Event> {
    evs.map_values(|e: LogEvent| e@)
}

/// Reads a log from start to end and returns all that the reader reports,
/// in order.
pub fn read_all(data: Vec<u8>) -> (out: Vec<LogEvent>)
    ensures
        events_view(out@) == events(data@),
{
    let mut reader = Reader::new(data);
    let mut out: Vec<LogEvent> = Vec::new();
    assert(events_view(out@) + events_from(reader.log(), reader.state()) =~= events(data@));
    loop
        invariant_except_break
            reader.wf(),
            reader.log() == data@,
            reader.state().pos <= data@.len(),
            events_view(out@) + events_from(reader.log(), reader.state()) == events(data@),
        ensures
            events_view(out@) == events(data@),
        decreases events_from(reader.log(), reader.state()).len(),
    {
        proof {
            lemma_events_unfold(reader.log(), reader.state());
        }
        let ghost before = out@;
        match reader.read_record() {
            Some(e) => {
                out.push(e);
                proof {
                    let after = events_from(reader.log(), reader.state());
                    assert(events_view(out@) =~= events_view(before) + seq![e@]);
                    assert((events_view(before) + seq![e@]) + after =~= events_view(before) + (
                    seq![e@] + after));
                }
            },
            None => {
                proof {
                    assert(events_view(out@) + Seq::<Event>::empty() =~= events_view(out@));
                }
                break ;
            },
        }
    }
    out
}

/// The model of a run of user records.
pub open spec fn records_view(records: Seq<Vec<u8>>) -> Seq<Seq<u8>> {
    records.map_values(|r: Vec<u8>| r@)
}

/// The records among two runs of events are those of the first, then those
/// of the second.
pub proof fn lemma_records_of_concat(a: Seq<Event>, b: Seq<Event>)
    ensures
        records_of(a + b) == records_of(a) + records_of(b),
    decreases b.len(),
{
    if b.len() == 0 {
        assert(a + b =~= a);
        assert(records_of(a) + records_of(b) =~= records_of(a));
    } else {
        lemma_records_of_concat(a, b.drop_last());
        assert((a + b).drop_last() =~= a + b.drop_last());
        assert((a + b).last() == b.last());
        match b.last() {
            Event::Record(r) => {
                assert((records_of(a) + records_of(b.drop_last())).push(r) =~= records_of(a) + (
                records_of(b.drop_last()).push(r)));
            },
            Event::Corruption(_) => {},
        }
    }
}

/// The records among one event: the record it reports, if it reports one.
pub proof fn lemma_records_of_one(e: Event)
    ensures
        records_of(seq![e]) == match e {
            Event::Record(r) => seq![r],
            Event::Corruption(_) => Seq::<Seq<u8>>::empty(),
        },
{
    let one = seq![e];
    assert(one.drop_last() =~= Seq::<Event>::empty());
    assert(records_of(one.drop_last()) =~= Seq::<Seq<u8>>::empty());
    match e {
        Event::Record(r) => {
            assert(Seq::<Seq<u8>>::empty().push(r) =~= seq![r]);
        },
        Event::Corruption(_) => {},
    }
}

/// Reads a log from start to end and returns the user records in it, in
/// order, passing over what is damaged.
pub fn read_records(data: Vec<u8>) -> (out: Vec<Vec<u8>>)
    ensures
        records_view(out@) == records_of(events(data@)),
{
    let mut reader = Reader::new(data);
    let mut out: Vec<Vec<u8>> = Vec::new();
    let ghost seen: Seq<Event> = Seq::empty();
    assert(seen + events_from(reader.log(), reader.state()) =~= events(data@));
    assert(records_view(out@) =~= records_of(seen));
    loop
        invariant_except_break
            reader.wf(),
            reader.log() == data@,
            reader.state().pos <= data@.len(),
            seen + events_from(reader.log(), reader.state()) == events(data@),
            records_view(out@) == records_of(seen),
        ensures
            records_view(out@) == records_of(events(data@)),
        decreases events_from(reader.log(), reader.state()).len(),
    {
        proof {
            lemma_events_unfold(reader.log(), reader.state());
        }
        let ghost before = out@;
        match reader.read_record() {
            Some(e) => {
                proof {
                    let after = events_from(reader.log(), reader.state());
                    assert((seen + seq![e@]) + after =~= seen + (seq![e@] + after));
                    lemma_records_of_concat(seen, seq![e@]);
                    lemma_records_of_one(e@);
                    seen = seen + seq![e@];
                }
                match e {
                    LogEvent::Record(r) => {
                        out.push(r);
                        proof {
                            assert(records_view(out@) =~= records_view(before).push(r@));
                            assert(records_view(before).push(r@) =~= records_view(before)
                                + seq![r@]);
                        }
                    },
                    LogEvent::Corruption(_) => {
                        proof {
                            assert(records_view(before) + Seq::<Seq<u8>>::empty()
                                =~= records_view(before));
                        }
                    },
                }
            },
            None => {
                proof {
                    assert(seen + Seq::<Event>::empty() =~= seen);
                }
                break ;
            },
        }
    }
    out
}

} // verus!
