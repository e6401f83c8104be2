//! The writer of the log: it frames user records, splitting them where a
//! block ends, and keeps track of its place in the current block.

use vstd::prelude::*;
use vstd::slice::slice_subrange;
use crate::record::{header_bytes, record_bytes, zeros, RecordType, BLOCK_SIZE, HEADER_SIZE};
use crate::util::coding::encode_fixed_32;
use crate::util::crc32::{extend, lemma_extend_concat, mask, spec_value, value};

verus! {

/// The offset in the block at which the next header goes, for a writer that
/// stands at `off`: the start of the next block where fewer than seven bytes
/// are left.
pub open spec fn header_offset(off: nat) -> nat {
    if BLOCK_SIZE - off < HEADER_SIZE {
        0
    } else {
        off
    }
}

/// The zero bytes that fill a block's tail too short for a header.
pub open spec fn padding(off: nat) -> Seq<u8> {
    if BLOCK_SIZE - off < HEADER_SIZE {
        zeros((BLOCK_SIZE - off) as nat)
    } else {
        Seq::empty()
    }
}

/// The number of payload bytes of the next fragment, for a writer at `off`
/// with `left` bytes still to write.
pub open spec fn fragment_len(off: nat, left: nat) -> nat {
    let space = (BLOCK_SIZE - header_offset(off) - HEADER_SIZE) as nat;
    if left < space {
        left
    } else {
        space
    }
}

/// The writer's offset after the next fragment.
pub open spec fn offset_after_fragment(off: nat, left: nat) -> nat {
    ((header_offset(off) + HEADER_SIZE + fragment_len(off, left)) % (BLOCK_SIZE as int)) as nat
}

/// The bytes written for `data`, the rest of a user record, by a writer at
/// offset `off` in its block; `begin` says whether `data` is the whole of it.
#[verifier::opaque]
pub open spec fn fragments(off: nat, data: Seq<u8>, begin: bool) -> Seq<u8>
    recommends
        off < BLOCK_SIZE,
    decreases data.len(), header_offset(off),
    when off < BLOCK_SIZE
{
    let n = fragment_len(off, data.len());
    let end = n == data.len();
    let kind = RecordType::spec_of_fragment(begin, end);
    let first = padding(off) + record_bytes(kind, data.take(n as int));
    if end {
        first
    } else {
        first + fragments(offset_after_fragment(off, data.len()), data.skip(n as int), false)
    }
}

/// The writer's offset after the fragments of `data`.
#[verifier::opaque]
pub open spec fn offset_after(off: nat, data: Seq<u8>) -> nat
    recommends
        off < BLOCK_SIZE,
    decreases data.len(), header_offset(off),
    when off < BLOCK_SIZE
{
    let n = fragment_len(off, data.len());
    if n == data.len() {
        offset_after_fragment(off, data.len())
    } else {
        offset_after(offset_after_fragment(off, data.len()), data.skip(n as int))
    }
}

/// The bytes that appending the user record `data` adds to the log.
pub open spec fn framed(off: nat, data: Seq<u8>) -> Seq<u8>
    recommends
        off < BLOCK_SIZE,
{
    fragments(off, data, true)
}

/// Writes user records to a log, as the bytes to append to it.
pub struct Writer {
    // where in the current block the next byte goes
    block_offset: usize,
    // the checksum of each type's tag alone, from which a record's checksum
    // is continued over its payload
    crc_cache: [u32; 5],
}

fn tag_crc(tag: u8) -> (crc: u32)
    ensures
        crc == spec_value(seq![tag]),
{
    let mut one: Vec<u8> = Vec::new();
    one.push(tag);
    assert(one@ =~= seq![tag]);
    value(one.as_slice())
}

fn push_zeros(dest: &mut Vec<u8>, n: usize)
    ensures
        final(dest)@ == old(dest)@ + zeros(n as nat),
{
    let mut i: usize = 0;
    assert(dest@ =~= old(dest)@ + zeros(0));
    while i < n
        invariant
            i <= n,
            dest@ == old(dest)@ + zeros(i as nat),
        decreases n - i,
    {
        dest.push(0u8);
        i += 1;
        assert(dest@ =~= old(dest)@ + zeros(i as nat));
    }
}

pub(crate) fn push_all(dest: &mut Vec<u8>, src: &[u8])
    ensures
        final(dest)@ == old(dest)@ + src@,
{
    let mut i: usize = 0;
    assert(dest@ =~= old(dest)@ + src@.take(0));
    while i < src.len()
        invariant
            i <= src.len(),
            dest@ == old(dest)@ + src@.take(i as int),
        decreases src.len() - i,
    {
        dest.push(src[i]);
        i += 1;
        assert(dest@ =~= old(dest)@ + src@.take(i as int));
    }
    assert(src@.take(i as int) =~= src@);
}

impl Writer {
    #[verifier::type_invariant]
    spec fn inv(self) -> bool {
        &&& self.block_offset < BLOCK_SIZE
        &&& forall|t: int| 0 <= t < 5 ==> self.crc_cache[t] == spec_value(seq![t as u8])
    }

    /// The writer's offset in its current block.
    pub closed spec fn offset(&self) -> nat {
        self.block_offset as nat
    }

    /// A writer for a log that already holds `position` bytes.
    pub fn new(position: u64) -> (w: Self)
        ensures
            w.offset() == position % (BLOCK_SIZE as u64),
    {
        let cache: [u32; 5] = [tag_crc(0), tag_crc(1), tag_crc(2), tag_crc(3), tag_crc(4)];
        Writer { block_offset: (position % (BLOCK_SIZE as u64)) as usize, crc_cache: cache }
    }

    pub fn block_offset(&self) -> (off: usize)
        ensures
            off == self.offset(),
            off < BLOCK_SIZE,
    {
        proof {
            use_type_invariant(self);
        }
        self.block_offset
    }

    /// Appends the user record `data` to `dest`, the bytes that go to the
    /// end of the log: one record if it fits in the current block, else a
    /// fragment for each block it reaches into.
    pub fn add_record(&mut self, data: &[u8], dest: &mut Vec<u8>)
        ensures
            final(dest)@ == old(dest)@ + framed(old(self).offset(), data@),
            final(self).offset() == offset_after(old(self).offset(), data@),
            final(self).offset() == (old(self).offset() + framed(old(self).offset(), data@).len())
                % (BLOCK_SIZE as nat),
    {
        proof {
            use_type_invariant(&*self);
            lemma_framed_len(old(self).offset(), data@, true);
        }
        let mut written: usize = 0;
        let mut begin = true;
        proof {
            assert(data@.skip(0) =~= data@);
        }
        loop
            invariant_except_break
                written <= data.len(),
                self.inv(),
                old(self).offset() < BLOCK_SIZE,
                old(dest)@ + fragments(old(self).offset(), data@, true) == dest@ + fragments(
                    self.offset(),
                    data@.skip(written as int),
                    begin,
                ),
                offset_after(old(self).offset(), data@) == offset_after(
                    self.offset(),
                    data@.skip(written as int),
                ),
            ensures
                dest@ == old(dest)@ + fragments(old(self).offset(), data@, true),
                self.offset() == offset_after(old(self).offset(), data@),
            decreases data.len() - written, header_offset(self.offset()),
        {
            let ghost off = self.offset();
            let ghost rest = data@.skip(written as int);
            let ghost before = dest@;
            let leftover: usize = BLOCK_SIZE - self.block_offset;
            // switch to a new block where what is left of this one cannot
            // hold a header
            if leftover < HEADER_SIZE {
                push_zeros(dest, leftover);
                self.block_offset = 0;
            }
            proof {
                assert(dest@ =~= before + padding(off));
            }
            let space: usize = BLOCK_SIZE - self.block_offset - HEADER_SIZE;
            let left: usize = data.len() - written;
            let to_write: usize = if left < space {
                left
            } else {
                space
            };
            let end = to_write == left;
            let kind = RecordType::of_fragment(begin, end);
            let piece = slice_subrange(data, written, written + to_write);
            proof {
                assert(piece@ =~= rest.take(to_write as int));
                assert(rest.skip(to_write as int) =~= data@.skip(written + to_write));
            }
            self.write(kind, piece, dest);
            proof {
                use_type_invariant(&*self);
                lemma_fragment_step(off, rest, begin);
                let first = padding(off) + record_bytes(kind, piece@);
                assert(dest@ == before + first) by {
                    assert((before + padding(off)) + record_bytes(kind, piece@) =~= before + first);
                }
                if !end {
                    let tail = fragments(self.offset(), data@.skip(written + to_write), false);
                    assert((before + first) + tail =~= before + (first + tail));
                }
            }
            written = written + to_write;
            begin = false;
            if end {
                break ;
            }
        }
    }

    // frames one record and moves on in the block
    fn write(&mut self, kind: RecordType, data: &[u8], dest: &mut Vec<u8>)
        requires
            data@.len() <= 0xffff,
            old(self).offset() + HEADER_SIZE + data@.len() <= BLOCK_SIZE,
        ensures
            final(dest)@ == old(dest)@ + record_bytes(kind, data@),
            final(self).offset() == (old(self).offset() + HEADER_SIZE + data@.len()) % (
            BLOCK_SIZE as int),
    {
        proof {
            use_type_invariant(&*self);
        }
        let size: usize = data.len();
        let tag: u8 = kind.tag();
        let crc: u32 = mask(extend(self.crc_cache[tag as usize], data));
        proof {
            lemma_extend_concat(0, seq![tag], data@);
        }
        let crc_bytes: [u8; 4] = encode_fixed_32(crc);
        let ghost before = dest@;
        dest.push(crc_bytes[0]);
        dest.push(crc_bytes[1]);
        dest.push(crc_bytes[2]);
        dest.push(crc_bytes[3]);
        dest.push((size % 256) as u8);
        dest.push((size / 256) as u8);
        dest.push(tag);
        proof {
            assert(dest@ =~= before + header_bytes(kind, data@));
        }
        push_all(dest, data);
        proof {
            assert(dest@ =~= before + record_bytes(kind, data@));
        }
        self.block_offset = (self.block_offset + HEADER_SIZE + size) % BLOCK_SIZE;
    }
}

/// What the first fragment of `data` is, and what follows it.
pub proof fn lemma_fragment_step(off: nat, data: Seq<u8>, begin: bool)
    requires
        off < BLOCK_SIZE,
    ensures
        ({
            let n = fragment_len(off, data.len());
            let end = n == data.len();
            let kind = RecordType::spec_of_fragment(begin, end);
            let first = padding(off) + record_bytes(kind, data.take(n as int));
            let next = offset_after_fragment(off, data.len());
            &&& n <= data.len()
            &&& next < BLOCK_SIZE
            &&& end ==> fragments(off, data, begin) == first && offset_after(off, data) == next
            &&& !end ==> fragments(off, data, begin) == first + fragments(
                next,
                data.skip(n as int),
                false,
            ) && offset_after(off, data) == offset_after(next, data.skip(n as int))
        }),
{
    reveal(fragments);
    reveal(offset_after);
}

/// The length of what is written for a user record, and the offset it
/// leaves the writer at: the offset before plus that length, modulo the
/// block size.
pub proof fn lemma_framed_len(off: nat, data: Seq<u8>, begin: bool)
    requires
        off < BLOCK_SIZE,
    ensures
        offset_after(off, data) < BLOCK_SIZE,
        offset_after(off, data) == (off + fragments(off, data, begin).len()) % (BLOCK_SIZE as nat),
    decreases data.len(), header_offset(off),
{
    lemma_fragment_step(off, data, begin);
    let n = fragment_len(off, data.len());
    let end = n == data.len();
    let kind = RecordType::spec_of_fragment(begin, end);
    let first = padding(off) + record_bytes(kind, data.take(n as int));
    assert(first.len() == padding(off).len() + HEADER_SIZE + n);
    if !end {
        let next = offset_after_fragment(off, data.len());
        lemma_framed_len(next, data.skip(n as int), false);
    }
}

/// **Fragments keep to their block.** The header of the next fragment
/// and its payload end no later than the block they begin in, so that no
/// header reaches over a block's end.
pub proof fn lemma_fragment_within_block(off: nat, left: nat)
    requires
        off < BLOCK_SIZE,
    ensures
        header_offset(off) + HEADER_SIZE + fragment_len(off, left) <= BLOCK_SIZE,
        fragment_len(off, left) <= BLOCK_SIZE - HEADER_SIZE,
{
}

/// **Padding.** Where fewer than seven bytes are left of the writer's
/// block, what it writes begins with just that many zero bytes, and goes on
/// as it would at the start of a block.
pub proof fn lemma_padding(off: nat, data: Seq<u8>)
    requires
        off < BLOCK_SIZE,
        BLOCK_SIZE - off < HEADER_SIZE,
    ensures
        framed(off, data) == zeros((BLOCK_SIZE - off) as nat) + framed(0, data),
        offset_after(off, data) == offset_after(0, data),
{
    lemma_fragment_step(off, data, true);
    lemma_fragment_step(0, data, true);
    let n = fragment_len(0, data.len());
    let kind = RecordType::spec_of_fragment(true, n == data.len());
    let rec = record_bytes(kind, data.take(n as int));
    assert(padding(0) + rec =~= rec);
    if n == data.len() {
        assert(framed(off, data) =~= zeros((BLOCK_SIZE - off) as nat) + framed(0, data));
    } else {
        let tail = fragments(offset_after_fragment(0, data.len()), data.skip(n as int), false);
        assert((padding(off) + rec) + tail =~= zeros((BLOCK_SIZE - off) as nat) + (rec + tail));
    }
}

/// A user record that fits in what is left of the block is written as one
/// record of the full type.
pub proof fn lemma_framed_whole(off: nat, data: Seq<u8>)
    requires
        off < BLOCK_SIZE,
        data.len() <= BLOCK_SIZE - header_offset(off) - HEADER_SIZE,
    ensures
        framed(off, data) == padding(off) + record_bytes(RecordType::Full, data),
{
    lemma_fragment_step(off, data, true);
    assert(data.take(data.len() as int) =~= data);
}

} // verus!
