//! The stuffing codec. A payload may hold the start byte; on the wire every start
//! byte of the payload is replaced by the distance to the next one, the last by
//! zero, and the frame's overhead byte tells where the first one was.

use crate::START_BYTE;
use vstd::prelude::*;

verus! {

/// The least index at or after `from` at which `data` holds the start byte, or the
/// length of `data` when there is none.
pub open spec fn next_start_byte(data: Seq<u8>, from: int) -> int
    decreases data.len() - from,
{
    if from >= data.len() {
        data.len() as int
    } else if data[from] == START_BYTE {
        from
    } else {
        next_start_byte(data, from + 1)
    }
}

/// The overhead byte of a payload: the index of its first start byte, or 255 when
/// it holds none. An index that does not fit in a byte is reduced modulo 256.
pub open spec fn overhead_of(data: Seq<u8>) -> u8 {
    let first = next_start_byte(data, 0);
    if first < data.len() {
        (first % 256) as u8
    } else {
        255u8
    }
}

/// What stuffing puts at `index`: a byte other than the start byte stays; a start
/// byte becomes the distance to the next start byte above it (modulo 256), and the
/// last start byte becomes zero.
pub open spec fn stuffed_byte(data: Seq<u8>, index: int) -> u8 {
    if data[index] != START_BYTE {
        data[index]
    } else {
        let next = next_start_byte(data, index + 1);
        if next < data.len() {
            ((next - index) % 256) as u8
        } else {
            0u8
        }
    }
}

/// The stuffed form of a payload.
pub open spec fn stuffed(data: Seq<u8>) -> Seq<u8> {
    Seq::new(data.len(), |i: int| stuffed_byte(data, i))
}

/// The chain walk that reverses stuffing, entered at `index`: the position is set
/// back to the start byte and the walk goes on at the position that the stored
/// offset points to. It ends at an offset of zero, at an offset that leads past
/// 255, and at a position outside `data`.
pub open spec fn unstuffed_from(data: Seq<u8>, index: int) -> Seq<u8>
    decreases data.len() - index,
{
    if 0 <= index < data.len() {
        let offset = data[index];
        let restored = data.update(index, START_BYTE);
        let next = index + offset;
        if offset == 0 || next > 255 || next >= data.len() {
            restored
        } else {
            unstuffed_from(restored, next)
        }
    } else {
        data
    }
}

/// The payload that a stuffed payload and its overhead byte stand for.
pub open spec fn unstuffed(data: Seq<u8>, overhead_byte: u8) -> Seq<u8> {
    unstuffed_from(data, overhead_byte as int)
}

/// `next_start_byte` finds a start byte, and passes none over.
pub proof fn lemma_next_start_byte(data: Seq<u8>, from: int)
    requires
        0 <= from <= data.len(),
    ensures
        from <= next_start_byte(data, from) <= data.len(),
        next_start_byte(data, from) < data.len() ==> data[next_start_byte(data, from)]
            == START_BYTE,
        forall|j: int| from <= j < next_start_byte(data, from) ==> data[j] != START_BYTE,
    decreases data.len() - from,
{
    if from < data.len() && data[from] != START_BYTE {
        lemma_next_start_byte(data, from + 1);
    }
}

/// Reversing the stuffing keeps the length.
pub proof fn lemma_unstuffed_len(data: Seq<u8>, index: int)
    ensures
        unstuffed_from(data, index).len() == data.len(),
    decreases data.len() - index,
{
    if 0 <= index < data.len() {
        let offset = data[index];
        let restored = data.update(index, START_BYTE);
        let next = index + offset;
        if !(offset == 0 || next > 255 || next >= data.len()) {
            lemma_unstuffed_len(restored, next);
        }
    }
}

/// A payload on the way back from its stuffed form: what lies below `index` is
/// restored, the rest is still stuffed.
spec fn restored_below(data: Seq<u8>, index: int) -> Seq<u8> {
    Seq::new(data.len(), |j: int| if j < index { data[j] } else { stuffed_byte(data, j) })
}

/// Entered at a start byte of the payload, the chain walk restores the rest of it.
proof fn lemma_chain_restores(data: Seq<u8>, index: int)
    requires
        data.len() <= 255,
        0 <= index < data.len(),
        data[index] == START_BYTE,
    ensures
        unstuffed_from(restored_below(data, index), index) == data,
    decreases data.len() - index,
{
    let partial = restored_below(data, index);
    let restored = partial.update(index, START_BYTE);
    let next = next_start_byte(data, index + 1);
    lemma_next_start_byte(data, index + 1);
    if next < data.len() {
        assert(restored =~= restored_below(data, next));
        lemma_chain_restores(data, next);
    }
}

/// Stuffing can be undone: for every payload of at most 255 bytes, and so for every
/// payload that a frame can carry, reversing the stuffing from the payload's
/// overhead byte gives the payload back.
pub proof fn lemma_stuffing_round_trip(data: Seq<u8>)
    requires
        data.len() <= 255,
    ensures
        unstuffed(stuffed(data), overhead_of(data)) == data,
{
    let first = next_start_byte(data, 0);
    lemma_next_start_byte(data, 0);
    if first < data.len() {
        assert(stuffed(data) =~= restored_below(data, first));
        lemma_chain_restores(data, first);
    }
}

/// The overhead byte of `data`.
pub fn overhead_byte(data: &Vec<u8>) -> (overhead: u8)
    ensures
        overhead == overhead_of(data@),
{
    let mut i: usize = 0;
    while i < data.len()
        invariant
            i <= data.len(),
            next_start_byte(data@, 0) == next_start_byte(data@, i as int),
        decreases data.len() - i,
    {
        if data[i] == START_BYTE {
            return (i % 256) as u8;
        }
        i = i + 1;
    }
    255
}

/// Stuffs a payload: every start byte in it is replaced by the distance to the
/// next one, the last by zero.
pub fn encode_data_cobs(data: Vec<u8>) -> (out: Vec<u8>)
    ensures
        out@ == stuffed(data@),
{
    let ghost orig = data@;
    let mut data = data;
    let n: usize = data.len();
    let mut next: usize = n;
    let mut i: usize = n;
    while i > 0
        invariant
            i <= n,
            n == orig.len(),
            data@.len() == n,
            i <= next <= n,
            next == next_start_byte(orig, i as int),
            forall|j: int| 0 <= j < i ==> data@[j] == orig[j],
            forall|j: int| i <= j < n ==> data@[j] == stuffed_byte(orig, j),
        decreases i,
    {
        i = i - 1;
        if data[i] == START_BYTE {
            let distance: u8 = if next < n {
                ((next - i) % 256) as u8
            } else {
                0
            };
            data.set(i, distance);
            next = i;
        }
    }
    data
}

/// Reverses the stuffing of a payload, entering the chain at `overhead_byte`.
pub fn decode_data_cobs(data: Vec<u8>, overhead_byte: u8) -> (out: Vec<u8>)
    ensures
        out@ == unstuffed(data@, overhead_byte),
{
    let ghost orig = data@;
    let mut data = data;
    let n: usize = data.len();
    let mut index: usize = overhead_byte as usize;
    while index < n
        invariant_except_break
            unstuffed_from(data@, index as int) == unstuffed(orig, overhead_byte),
        invariant
            data@.len() == n,
            index <= 255,
        ensures
            data@ == unstuffed(orig, overhead_byte),
        decreases n - index,
    {
        let offset: u8 = data[index];
        data.set(index, START_BYTE);
        let next: usize = index + offset as usize;
        if offset == 0 || next > 255 || next >= n {
            break;
        }
        index = next;
    }
    data
}

} // verus!
