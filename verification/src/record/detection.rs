//! Damage to a record does not go unnoticed: a changed byte of its
//! checksum, its type or its payload makes the reader drop the record and
//! go on at the next block.

use vstd::prelude::*;
use crate::record::reader::{
    block_end, physical, stated_len, step, Damage, Event, Physical, ReaderState, Step,
};
use crate::record::HEADER_SIZE;
use crate::util::coding::{fixed32_value, lemma_fixed32_value_injective};
use crate::util::crc32::lemma_value_detects_change;

verus! {

/// **A changed byte is detected.** Where the log holds a sound record at
/// `pos`, change one byte of it other than the two that state its length.
/// The reader then finds damage there, a checksum that does not match or a
/// type that is none, reports it, drops what it had gathered, and goes on
/// at the end of the block.
pub proof fn lemma_changed_byte_detected(
    data: Seq<u8>,
    pos: nat,
    i: int,
    b: u8,
    partial: Option<Seq<u8>>,
)
    requires
        physical(data, pos) matches Physical::Fragment { next, .. } && pos <= i < next,
        i != pos + 4,
        i != pos + 5,
        b != data[i],
    ensures
        physical(data.update(i, b), pos) matches Physical::Bad { damage, next } && next
            == block_end(data.len(), pos) && (damage == Damage::BadChecksum || damage
            == Damage::BadType),
        step(data.update(i, b), ReaderState { pos, partial }) matches Step::Emit(
            Event::Corruption(_),
            s2,
        ) && s2 == (ReaderState { pos: block_end(data.len(), pos), partial: None }),
{
    let changed = data.update(i, b);
    let p = pos as int;
    let len = stated_len(data, pos);
    let tag = data[p + 6];
    let payload = data.subrange(p + HEADER_SIZE, p + HEADER_SIZE + len);
    let stored = data.subrange(p, p + 4);
    assert(stated_len(changed, pos) == len);
    let payload2 = changed.subrange(p + HEADER_SIZE, p + HEADER_SIZE + len);
    let stored2 = changed.subrange(p, p + 4);
    let covered = seq![tag] + payload;
    if i < p + 4 {
        assert(payload2 =~= payload);
        assert(stored2[i - p] == b);
        assert(stored[i - p] == data[i]);
        if fixed32_value(stored2) == fixed32_value(stored) {
            lemma_fixed32_value_injective(stored2, stored);
        }
    } else if i == p + 6 {
        assert(payload2 =~= payload);
        assert(stored2 =~= stored);
        if !(b == 0 || b > 4) {
            assert(seq![b] + payload =~= covered.update(0, b));
            lemma_value_detects_change(covered, 0, b);
        }
    } else {
        assert(stored2 =~= stored);
        assert(payload2 =~= payload.update(i - p - HEADER_SIZE, b));
        assert(payload[i - p - HEADER_SIZE] == data[i]);
        assert(seq![tag] + payload2 =~= covered.update(i - p - HEADER_SIZE + 1, b));
        lemma_value_detects_change(covered, i - p - HEADER_SIZE + 1, b);
    }
}

} // verus!
