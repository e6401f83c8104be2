//! A log cut short: the reader gives back the user records that are whole,
//! and of what was cut it reports no record, only damage at the most.

use vstd::prelude::*;
use crate::record::reader::{
    events, events_from, lemma_events_unfold, lemma_next_event_step, next_event, physical,
    records_of, stated_len, step, Damage, Event, Physical, ReaderState, Step,
};
use crate::record::round_trip::{
    all_records, completed, end_offset, holds_at, lemma_fragment_places, lemma_reads_fragment,
    lemma_reads_padding, lemma_reads_records, lemma_records_of_all, log_of,
};
use crate::record::writer::{
    fragment_len, fragments, framed, header_offset, lemma_fragment_step, lemma_framed_len,
    offset_after, offset_after_fragment, padding,
};
use crate::record::{record_bytes, RecordType, BLOCK_SIZE, HEADER_SIZE};

verus! {

/// Whether `data` ends, from `pos` on, with a beginning of `bytes` that is
/// not the whole of them.
pub open spec fn cut_at(data: Seq<u8>, pos: nat, bytes: Seq<u8>) -> bool {
    &&& pos <= data.len()
    &&& data.len() - pos < bytes.len()
    &&& data.subrange(pos as int, data.len() as int) == bytes.take(data.len() - pos)
}

/// No record, and one report of damage at the most.
pub open spec fn only_damage(evs: Seq<Event>) -> bool {
    evs.len() == 0 || (evs.len() == 1 && evs[0] is Corruption)
}

/// The log of some records is the log of the first `k`, then the log of
/// the others, written from where the first `k` left the writer.
pub proof fn lemma_log_of_split(off: nat, records: Seq<Seq<u8>>, k: nat)
    requires
        off < BLOCK_SIZE,
        k <= records.len(),
    ensures
        log_of(off, records) == log_of(off, records.take(k as int)) + log_of(
            end_offset(off, records.take(k as int)),
            records.skip(k as int),
        ),
        end_offset(off, records.take(k as int)) == (off + log_of(
            off,
            records.take(k as int),
        ).len()) % (BLOCK_SIZE as nat),
    decreases k,
{
    let head = records.take(k as int);
    if k == 0 {
        assert(records.skip(0) =~= records);
        assert(log_of(off, head) + log_of(off, records) =~= log_of(off, records));
    } else {
        let first = framed(off, records[0]);
        let off1 = offset_after(off, records[0]);
        let rest = records.drop_first();
        lemma_framed_len(off, records[0], true);
        lemma_log_of_split(off1, rest, (k - 1) as nat);
        assert(head.drop_first() =~= rest.take(k - 1));
        assert(records.skip(k as int) =~= rest.skip(k - 1));
        assert(head[0] == records[0]);
        let mid = log_of(off1, rest.take(k - 1));
        let tail = log_of(end_offset(off1, rest.take(k - 1)), rest.skip(k - 1));
        assert(first + (mid + tail) =~= (first + mid) + tail);
    }
}

/// At the end of the log the reader reports nothing more, but for a user
/// record that it was still gathering.
pub proof fn lemma_reads_end(data: Seq<u8>, st: ReaderState)
    requires
        st.pos <= data.len(),
        physical(data, st.pos) == Physical::End,
    ensures
        only_damage(events_from(data, st)),
{
    let dropped = ReaderState { pos: st.pos, partial: None };
    assert(events_from(data, dropped) =~= Seq::<Event>::empty());
    if st.partial.is_some() {
        assert(events_from(data, st) =~= seq![Event::Corruption(Damage::UnexpectedEof)]);
    }
}

/// A record whose end is missing is not read as a record: the reader
/// reports damage, or nothing, and is then at the end of the log.
pub proof fn lemma_reads_cut_record(
    data: Seq<u8>,
    at: nat,
    kind: RecordType,
    piece: Seq<u8>,
    partial: Option<Seq<u8>>,
)
    requires
        kind != RecordType::Zero,
        at % (BLOCK_SIZE as nat) + HEADER_SIZE + piece.len() <= BLOCK_SIZE,
        cut_at(data, at, record_bytes(kind, piece)),
    ensures
        only_damage(events_from(data, ReaderState { pos: at, partial })),
{
    let st = ReaderState { pos: at, partial };
    let rb = record_bytes(kind, piece);
    let n = piece.len();
    let avail = data.len() - at;
    assert(rb.len() == HEADER_SIZE + n);
    if avail < HEADER_SIZE {
        assert(physical(data, at) == Physical::End);
        lemma_reads_end(data, st);
    } else {
        let sub = data.subrange(at as int, data.len() as int);
        assert(sub[4] == data[at as int + 4] && sub[5] == data[at as int + 5] && sub[6]
            == data[at as int + 6]);
        assert(rb.take(avail)[4] == rb[4] && rb.take(avail)[5] == rb[5] && rb.take(avail)[6]
            == rb[6]);
        assert(rb[4] == (n % 256) as u8);
        assert(rb[5] == (n / 256) as u8);
        assert(rb[6] == kind.spec_tag());
        assert(stated_len(data, at) == n);
        let gone = ReaderState { pos: data.len(), partial: None };
        assert(physical(data, at) == (Physical::Bad {
            damage: Damage::BadLength,
            next: data.len(),
        }));
        assert(step(data, st) == Step::Emit(Event::Corruption(Damage::BadLength), gone));
        assert(events_from(data, gone) =~= Seq::<Event>::empty());
        assert(events_from(data, st) =~= seq![Event::Corruption(Damage::BadLength)]);
    }
}

/// Where `data` ends within the second of two runs of bytes, it holds the
/// first whole, and ends with a beginning of the second.
pub proof fn lemma_cut_second(data: Seq<u8>, pos: nat, a: Seq<u8>, b: Seq<u8>)
    requires
        cut_at(data, pos, a + b),
        data.len() - pos >= a.len(),
    ensures
        holds_at(data, pos, a),
        cut_at(data, pos + a.len(), b),
{
    let have = data.subrange(pos as int, data.len() as int);
    let avail = data.len() - pos;
    assert(data.subrange(pos as int, pos as int + a.len()) =~= have.take(a.len() as int));
    assert((a + b).take(avail).take(a.len() as int) =~= a);
    assert(data.subrange(pos as int + a.len(), data.len() as int) =~= have.skip(a.len() as int));
    assert((a + b).take(avail).skip(a.len() as int) =~= b.take(avail - a.len()));
}

/// Where `data` ends within the first of two runs of bytes, it ends with a
/// beginning of the first.
pub proof fn lemma_cut_first(data: Seq<u8>, pos: nat, a: Seq<u8>, b: Seq<u8>)
    requires
        cut_at(data, pos, a + b),
        data.len() - pos < a.len(),
    ensures
        cut_at(data, pos, a),
{
    let avail = data.len() - pos;
    assert((a + b).take(avail) =~= a.take(avail));
}

/// A log that ends in the tail of a block too short for a header has
/// nothing more to read there.
pub proof fn lemma_cut_in_padding(data: Seq<u8>, pos: nat)
    requires
        pos <= data.len(),
        data.len() - pos <= padding(pos % (BLOCK_SIZE as nat)).len(),
    ensures
        physical(data, pos) == Physical::End,
{
}

/// Moves of the reader that report nothing leave what it reports as it was.
pub proof fn lemma_events_same(data: Seq<u8>, st: ReaderState, st2: ReaderState)
    requires
        st.pos <= data.len(),
        st2.pos <= data.len(),
        next_event(data, st) == next_event(data, st2),
    ensures
        events_from(data, st) == events_from(data, st2),
{
    lemma_events_unfold(data, st);
    lemma_events_unfold(data, st2);
}

/// The fragments of a user record whose end is missing yield no record:
/// the reader reports damage, or nothing, and is then at the end of the
/// log.
pub proof fn lemma_reads_cut_fragments(
    data: Seq<u8>,
    pos: nat,
    rest: Seq<u8>,
    partial: Option<Seq<u8>>,
)
    requires
        cut_at(data, pos, fragments(pos % (BLOCK_SIZE as nat), rest, partial.is_none())),
    ensures
        only_damage(events_from(data, ReaderState { pos, partial })),
    decreases rest.len(), header_offset(pos % (BLOCK_SIZE as nat)),
{
    let off = pos % (BLOCK_SIZE as nat);
    let begin = partial.is_none();
    let n = fragment_len(off, rest.len());
    let end = n == rest.len();
    let kind = RecordType::spec_of_fragment(begin, end);
    let piece = rest.take(n as int);
    let pad = padding(off);
    let rec = record_bytes(kind, piece);
    let next_off = offset_after_fragment(off, rest.len());
    let all = fragments(off, rest, begin);
    lemma_fragment_step(off, rest, begin);
    lemma_fragment_places(pos, rest.len());
    let follow = if end {
        Seq::<u8>::empty()
    } else {
        fragments(next_off, rest.skip(n as int), false)
    };
    assert(all =~= pad + (rec + follow));
    assert(rec.len() == HEADER_SIZE + n);
    let st = ReaderState { pos, partial };
    if data.len() - pos <= pad.len() {
        lemma_cut_in_padding(data, pos);
        lemma_reads_end(data, st);
    } else {
        let at = (pos + pad.len()) as nat;
        let st_at = ReaderState { pos: at, partial };
        lemma_cut_second(data, pos, pad, rec + follow);
        if pad.len() > 0 {
            lemma_reads_padding(data, pos);
            lemma_next_event_step(data, st);
            assert(step(data, st) == Step::Quiet(st_at));
            lemma_events_same(data, st, st_at);
        }
        if data.len() - at < rec.len() {
            lemma_cut_first(data, at, rec, follow);
            lemma_reads_cut_record(data, at, kind, piece, partial);
        } else {
            lemma_cut_second(data, at, rec, follow);
            lemma_reads_fragment(data, pos, kind, piece, partial);
            let after = (at + rec.len()) as nat;
            let gathered = completed(partial, piece);
            let st_after = ReaderState { pos: after, partial: Some(gathered) };
            lemma_events_same(data, st, st_after);
            lemma_reads_cut_fragments(data, after, rest.skip(n as int), Some(gathered));
        }
    }
}

/// The log of one record is what is written for it.
pub proof fn lemma_log_of_one(off: nat, record: Seq<u8>)
    ensures
        log_of(off, seq![record]) == framed(off, record),
{
    let one = seq![record];
    assert(one.drop_first() =~= Seq::<Seq<u8>>::empty());
    assert(log_of(offset_after(off, record), one.drop_first()) =~= Seq::<u8>::empty());
    assert(framed(off, record) + Seq::<u8>::empty() =~= framed(off, record));
}

/// Events that are damage only add no record to those before them.
pub proof fn lemma_records_of_damage(evs: Seq<Event>, tail: Seq<Event>)
    requires
        only_damage(tail),
    ensures
        records_of(evs + tail) == records_of(evs),
{
    if tail.len() == 0 {
        assert(evs + tail =~= evs);
    } else {
        assert((evs + tail).drop_last() =~= evs);
    }
}

/// **Truncation.** Cut the log of `records` at `t` bytes, where the first
/// `k` records end at or before `t` and the next one, if there is one, does
/// not. Reading what is left reports just those `k` records, in order, and
/// after them no record: nothing, or the damage found where the log was
/// cut.
pub proof fn lemma_truncation(records: Seq<Seq<u8>>, k: nat, t: nat)
    requires
        k <= records.len(),
        log_of(0, records.take(k as int)).len() <= t <= log_of(0, records).len(),
        k < records.len() ==> t < log_of(0, records.take(k as int + 1)).len(),
    ensures
        ({
            let cut = log_of(0, records).take(t as int);
            let whole = log_of(0, records.take(k as int)).len();
            let tail = events_from(cut, ReaderState { pos: whole, partial: None });
            &&& events(cut) == all_records(records.take(k as int)) + tail
            &&& only_damage(tail)
            &&& records_of(events(cut)) == records.take(k as int)
        }),
{
    let data = log_of(0, records);
    let cut = data.take(t as int);
    let head = records.take(k as int);
    let done = log_of(0, head);
    let whole = done.len();
    let mid = ReaderState { pos: whole, partial: None };
    lemma_log_of_split(0, records, k);
    let off = end_offset(0, head);
    assert(cut.subrange(0, whole as int) =~= done);
    lemma_reads_records(cut, 0, head);
    if k == records.len() {
        assert(records.skip(k as int).len() == 0);
        assert(physical(cut, whole) == Physical::End);
        lemma_reads_end(cut, mid);
    } else {
        let next = framed(off, records[k as int]);
        let more = records.take(k as int + 1);
        lemma_log_of_split(0, more, k);
        assert(more.take(k as int) =~= head);
        assert(more.skip(k as int) =~= seq![records[k as int]]);
        lemma_log_of_one(off, records[k as int]);
        assert(log_of(0, more) == done + next);
        lemma_log_of_split(0, records, k + 1);
        let beyond = log_of(end_offset(0, more), records.skip(k as int + 1));
        assert(data == (done + next) + beyond);
        assert(cut.subrange(whole as int, cut.len() as int) =~= next.take(t - whole));
        assert(whole % (BLOCK_SIZE as nat) == off);
        lemma_reads_cut_fragments(cut, whole, records[k as int], None);
    }
    let tail = events_from(cut, mid);
    lemma_records_of_damage(all_records(head), tail);
    lemma_records_of_all(head);
}

} // verus!
