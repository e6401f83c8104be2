//! What is written is what is read: the reader gives back the user records
//! that the writer framed, in order and with nothing else.

use vstd::prelude::*;
use crate::record::reader::{
    events, events_from, lemma_events_unfold, lemma_next_event_step, next_event, physical,
    records_of, stated_len, step, Event, Physical, ReaderState, Step,
};
use crate::record::writer::{
    fragment_len, fragments, framed, header_offset, lemma_fragment_step, lemma_framed_len,
    offset_after, offset_after_fragment, padding,
};
use crate::record::{
    header_bytes, record_bytes, record_checksum, RecordType, BLOCK_SIZE, HEADER_SIZE,
};
use crate::util::coding::{fixed32, lemma_fixed32_round_trip};

verus! {

/// Whether `bytes` lie in `data` at `pos`.
pub open spec fn holds_at(data: Seq<u8>, pos: nat, bytes: Seq<u8>) -> bool {
    &&& pos + bytes.len() <= data.len()
    &&& data.subrange(pos as int, pos as int + bytes.len()) == bytes
}

/// The log that appending `records` one after another gives, for a writer
/// that starts at offset `off` in its block.
pub open spec fn log_of(off: nat, records: Seq<Seq<u8>>) -> Seq<u8>
    decreases records.len(),
{
    if records.len() == 0 {
        Seq::empty()
    } else {
        framed(off, records[0]) + log_of(offset_after(off, records[0]), records.drop_first())
    }
}

/// The offset in its block of a writer that started at `off` and has
/// written `records`.
pub open spec fn end_offset(off: nat, records: Seq<Seq<u8>>) -> nat
    decreases records.len(),
{
    if records.len() == 0 {
        off
    } else {
        end_offset(offset_after(off, records[0]), records.drop_first())
    }
}

/// **The offset counts the bytes written.** After any run of appends the
/// writer's offset in its block is its offset before plus the number of
/// bytes it wrote, modulo the block size, and so lies within the block.
pub proof fn lemma_offset_counts_bytes(off: nat, records: Seq<Seq<u8>>)
    requires
        off < BLOCK_SIZE,
    ensures
        end_offset(off, records) == (off + log_of(off, records).len()) % (BLOCK_SIZE as nat),
        end_offset(off, records) < BLOCK_SIZE,
    decreases records.len(),
{
    if records.len() > 0 {
        lemma_framed_len(off, records[0], true);
        lemma_offset_counts_bytes(offset_after(off, records[0]), records.drop_first());
    }
}

/// The events that report `records`, one each, and no damage.
pub open spec fn all_records(records: Seq<Seq<u8>>) -> Seq<Event> {
    records.map_values(|r: Seq<u8>| Event::Record(r))
}

/// Where a part of `data` holds some bytes, it holds each of them.
pub proof fn lemma_holds_at_index(data: Seq<u8>, pos: nat, bytes: Seq<u8>, k: int)
    requires
        holds_at(data, pos, bytes),
        0 <= k < bytes.len(),
    ensures
        data[pos + k] == bytes[k],
{
    assert(data.subrange(pos as int, pos as int + bytes.len())[k] == data[pos + k]);
}

/// Where a part of `data` holds two runs of bytes joined, it holds each at
/// its place.
pub proof fn lemma_holds_at_split(data: Seq<u8>, pos: nat, a: Seq<u8>, b: Seq<u8>)
    requires
        holds_at(data, pos, a + b),
    ensures
        holds_at(data, pos, a),
        holds_at(data, pos + a.len(), b),
{
    let whole = data.subrange(pos as int, pos as int + (a + b).len());
    assert(data.subrange(pos as int, pos as int + a.len()) =~= whole.subrange(0, a.len() as int));
    assert(whole.subrange(0, a.len() as int) =~= a);
    assert(data.subrange(pos as int + a.len(), pos as int + a.len() + b.len()) =~= whole.subrange(
        a.len() as int,
        (a + b).len() as int,
    ));
    assert(whole.subrange(a.len() as int, (a + b).len() as int) =~= b);
}

/// A record that lies whole within a block is read as it was written.
pub proof fn lemma_reads_record(data: Seq<u8>, pos: nat, kind: RecordType, payload: Seq<u8>)
    requires
        kind != RecordType::Zero,
        pos % (BLOCK_SIZE as nat) + HEADER_SIZE + payload.len() <= BLOCK_SIZE,
        holds_at(data, pos, record_bytes(kind, payload)),
    ensures
        physical(data, pos) == (Physical::Fragment {
            kind,
            payload,
            next: (pos + HEADER_SIZE + payload.len()) as nat,
        }),
{
    let n = payload.len();
    let rb = record_bytes(kind, payload);
    let c = record_checksum(kind.spec_tag(), payload);
    assert(rb.len() == HEADER_SIZE + n);
    lemma_holds_at_split(data, pos, header_bytes(kind, payload), payload);
    let tail = seq![(n % 256) as u8, (n / 256) as u8, kind.spec_tag()];
    lemma_holds_at_split(data, pos, fixed32(c), tail);
    lemma_holds_at_index(data, pos + 4, tail, 0);
    lemma_holds_at_index(data, pos + 4, tail, 1);
    lemma_holds_at_index(data, pos + 4, tail, 2);
    lemma_fixed32_round_trip(c);
    assert(stated_len(data, pos) == n);
    assert(data[pos as int + 6] == kind.spec_tag());
    assert(data.subrange(pos as int, pos as int + 4) == fixed32(c));
    assert(data.subrange(pos as int + HEADER_SIZE, pos as int + HEADER_SIZE + n) == payload);
    assert(RecordType::spec_from_tag(kind.spec_tag()) == Some(kind));
}

/// The tail of a block that is too short for a header is stepped over,
/// where the log goes on after it.
pub proof fn lemma_reads_padding(data: Seq<u8>, pos: nat)
    requires
        BLOCK_SIZE - pos % (BLOCK_SIZE as nat) < HEADER_SIZE,
        pos + (BLOCK_SIZE - pos % (BLOCK_SIZE as nat)) < data.len(),
    ensures
        physical(data, pos) == (Physical::Padding {
            next: (pos + (BLOCK_SIZE - pos % (BLOCK_SIZE as nat))) as nat,
        }),
{
}

/// The record that a reader with `partial` in hand completes by reading
/// `rest`.
pub open spec fn completed(partial: Option<Seq<u8>>, rest: Seq<u8>) -> Seq<u8> {
    match partial {
        Some(acc) => acc + rest,
        None => rest,
    }
}

/// Where the header of the next fragment goes, and where the fragment
/// ends, counted in the log and in the block alike.
pub proof fn lemma_fragment_places(pos: nat, left: nat)
    ensures
        ({
            let off = pos % (BLOCK_SIZE as nat);
            let at = pos + padding(off).len();
            let n = fragment_len(off, left);
            &&& at % (BLOCK_SIZE as nat) == header_offset(off)
            &&& header_offset(off) + HEADER_SIZE + n <= BLOCK_SIZE
            &&& (at + HEADER_SIZE + n) % (BLOCK_SIZE as int) == offset_after_fragment(off, left)
            &&& padding(off).len() > 0 ==> BLOCK_SIZE - off < HEADER_SIZE && padding(off).len()
                == BLOCK_SIZE - off
        }),
{
}

/// A reader in state `st` that comes upon one fragment, behind the padding
/// that may precede it, takes it in: `moved` is where it then stands with
/// what it has gathered.
pub proof fn lemma_reads_fragment(
    data: Seq<u8>,
    pos: nat,
    kind: RecordType,
    piece: Seq<u8>,
    partial: Option<Seq<u8>>,
)
    requires
        kind == RecordType::spec_of_fragment(partial.is_none(), true) || kind
            == RecordType::spec_of_fragment(partial.is_none(), false),
        holds_at(
            data,
            pos + padding(pos % (BLOCK_SIZE as nat)).len(),
            record_bytes(kind, piece),
        ),
        header_offset(pos % (BLOCK_SIZE as nat)) + HEADER_SIZE + piece.len() <= BLOCK_SIZE,
    ensures
        ({
            let at = pos + padding(pos % (BLOCK_SIZE as nat)).len();
            let after = (at + HEADER_SIZE + piece.len()) as nat;
            let st = ReaderState { pos, partial };
            let whole = completed(partial, piece);
            if kind == RecordType::Full || kind == RecordType::Last {
                next_event(data, st) == Some(
                    (Event::Record(whole), ReaderState { pos: after, partial: None }),
                )
            } else {
                next_event(data, st) == next_event(
                    data,
                    ReaderState { pos: after, partial: Some(whole) },
                )
            }
        }),
{
    let off = pos % (BLOCK_SIZE as nat);
    let at = (pos + padding(off).len()) as nat;
    let st = ReaderState { pos, partial };
    let st_at = ReaderState { pos: at, partial };
    lemma_fragment_places(pos, piece.len());
    lemma_reads_record(data, at, kind, piece);
    if padding(off).len() > 0 {
        lemma_reads_padding(data, pos);
        lemma_next_event_step(data, st);
        assert(step(data, st) == Step::Quiet(st_at));
    }
    assert(next_event(data, st) == next_event(data, st_at));
    lemma_next_event_step(data, st_at);
}

/// A reader that comes upon the fragments of a user record reports that
/// record next, whole, and then stands right behind them.
pub proof fn lemma_reads_fragments(
    data: Seq<u8>,
    pos: nat,
    rest: Seq<u8>,
    partial: Option<Seq<u8>>,
)
    requires
        holds_at(data, pos, fragments(pos % (BLOCK_SIZE as nat), rest, partial.is_none())),
    ensures
        next_event(data, ReaderState { pos, partial }) == Some(
            (
                Event::Record(completed(partial, rest)),
                ReaderState {
                    pos: pos + fragments(
                        pos % (BLOCK_SIZE as nat),
                        rest,
                        partial.is_none(),
                    ).len(),
                    partial: None,
                },
            ),
        ),
    decreases rest.len(), header_offset(pos % (BLOCK_SIZE as nat)),
{
    let off = pos % (BLOCK_SIZE as nat);
    let begin = partial.is_none();
    let n = fragment_len(off, rest.len());
    let end = n == rest.len();
    let kind = RecordType::spec_of_fragment(begin, end);
    let piece = rest.take(n as int);
    let pad = padding(off);
    let rec = record_bytes(kind, piece);
    let next_off = offset_after_fragment(off, rest.len());
    let all = fragments(off, rest, begin);
    lemma_fragment_step(off, rest, begin);
    lemma_fragment_places(pos, rest.len());
    let at = (pos + pad.len()) as nat;
    let after = (at + HEADER_SIZE + n) as nat;
    let follow = if end {
        Seq::<u8>::empty()
    } else {
        fragments(next_off, rest.skip(n as int), false)
    };
    assert(all =~= pad + (rec + follow));
    lemma_holds_at_split(data, pos, pad, rec + follow);
    lemma_holds_at_split(data, at, rec, follow);
    assert(rec.len() == HEADER_SIZE + n);
    lemma_reads_fragment(data, pos, kind, piece, partial);
    if end {
        assert(piece =~= rest);
        assert(all.len() == pad.len() + rec.len());
    } else {
        let gathered = completed(partial, piece);
        lemma_reads_fragments(data, after, rest.skip(n as int), Some(gathered));
        assert(gathered + rest.skip(n as int) =~= completed(partial, rest));
        assert(all.len() == pad.len() + rec.len() + follow.len());
    }
}

/// A reader that comes upon the log made of `records` reports those
/// records, each once, in order, and then goes on from behind them.
pub proof fn lemma_reads_records(data: Seq<u8>, pos: nat, records: Seq<Seq<u8>>)
    requires
        holds_at(data, pos, log_of(pos % (BLOCK_SIZE as nat), records)),
    ensures
        events_from(data, ReaderState { pos, partial: None }) == all_records(records)
            + events_from(
            data,
            ReaderState {
                pos: pos + log_of(pos % (BLOCK_SIZE as nat), records).len(),
                partial: None,
            },
        ),
    decreases records.len(),
{
    let off = pos % (BLOCK_SIZE as nat);
    let st = ReaderState { pos, partial: None };
    if records.len() == 0 {
        assert(all_records(records) + events_from(data, st) =~= events_from(data, st));
    } else {
        let first = framed(off, records[0]);
        let next_off = offset_after(off, records[0]);
        let others = log_of(next_off, records.drop_first());
        lemma_holds_at_split(data, pos, first, others);
        lemma_reads_fragments(data, pos, records[0], None);
        lemma_framed_len(off, records[0], true);
        let after = (pos + first.len()) as nat;
        assert(after % (BLOCK_SIZE as nat) == next_off);
        lemma_reads_records(data, after, records.drop_first());
        lemma_events_unfold(data, st);
        let end = ReaderState { pos: after + others.len(), partial: None };
        assert(all_records(records) =~= seq![Event::Record(records[0])] + all_records(
            records.drop_first(),
        ));
        assert(seq![Event::Record(records[0])] + (all_records(records.drop_first())
            + events_from(data, end)) =~= all_records(records) + events_from(data, end));
    }
}

/// **Round trip.** Reading the log that a writer starting at offset `off`
/// made of `records`, from the place where that log begins and up to its
/// end, reports those records, each once, in order, and no damage.
pub proof fn lemma_reads_log(data: Seq<u8>, pos: nat, records: Seq<Seq<u8>>)
    requires
        holds_at(data, pos, log_of(pos % (BLOCK_SIZE as nat), records)),
        pos + log_of(pos % (BLOCK_SIZE as nat), records).len() == data.len(),
    ensures
        events_from(data, ReaderState { pos, partial: None }) == all_records(records),
{
    lemma_reads_records(data, pos, records);
    let end = ReaderState { pos: data.len(), partial: None };
    assert(physical(data, data.len()) == Physical::End);
    assert(events_from(data, end) =~= Seq::<Event>::empty());
    assert(all_records(records) + Seq::<Event>::empty() =~= all_records(records));
}

/// **Round trip, from an empty log.** Whatever records are appended to an
/// empty log, reading the log gives back just those records, in order.
pub proof fn lemma_round_trip(records: Seq<Seq<u8>>)
    ensures
        events(log_of(0, records)) == all_records(records),
{
    let data = log_of(0, records);
    assert(data.subrange(0, data.len() as int) =~= data);
    lemma_reads_log(data, 0, records);
}

/// The records among the events that report `records` are `records`.
pub proof fn lemma_records_of_all(records: Seq<Seq<u8>>)
    ensures
        records_of(all_records(records)) == records,
    decreases records.len(),
{
    if records.len() == 0 {
        assert(records_of(all_records(records)) =~= records);
    } else {
        lemma_records_of_all(records.drop_last());
        assert(all_records(records).drop_last() =~= all_records(records.drop_last()));
        assert(records.drop_last().push(records.last()) =~= records);
    }
}

/// **Round trip, in records.** The user records read from the log of
/// `records` are `records`.
pub proof fn lemma_round_trip_records(records: Seq<Seq<u8>>)
    ensures
        records_of(events(log_of(0, records))) == records,
{
    lemma_round_trip(records);
    lemma_records_of_all(records);
}

} // verus!
