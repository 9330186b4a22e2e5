//! Frames on their way through the parser: a frame gives its record, however it
//! is cut into pieces; a damaged frame gives none and does not cost the next one;
//! noise between frames is passed over.

use crate::crc::checksum;
use crate::frame::{frame_of, frame_with};
use crate::parser::{
    fed, lemma_drained_first_record, lemma_drained_quiet, lemma_drained_stops, lemma_fed_concat,
    lemma_fed_quiet_prefix, lemma_polled_each, lemma_polled_through, polled, polled_each,
    polled_through, TransferState, TransferStatus, TransferView,
};
use crate::stuffing::{lemma_stuffing_round_trip, overhead_of, stuffed};
use crate::{MAX_PACKET_SIZE, START_BYTE};
use vstd::prelude::*;

verus! {

/// The parser inside a frame for `record`: the header is read, and `count` bytes
/// of the payload.
spec fn reading(s: TransferView, record: Seq<u8>, count: int) -> TransferView {
    TransferView {
        table: s.table,
        state: if count < record.len() {
            TransferState::FindPayload
        } else {
            TransferState::FindCrc
        },
        status: TransferStatus::Continue,
        id_byte: 0,
        overhead_byte: overhead_of(record),
        payload_length: record.len() as u8,
        payload: stuffed(record).take(count),
    }
}

/// The parser at the end of a frame for `record`, with `payload` in its buffer.
pub open spec fn ended(
    s: TransferView,
    record: Seq<u8>,
    state: TransferState,
    status: TransferStatus,
    payload: Seq<u8>,
) -> TransferView {
    TransferView {
        table: s.table,
        state,
        status,
        id_byte: 0,
        overhead_byte: overhead_of(record),
        payload_length: record.len() as u8,
        payload,
    }
}

/// The parser after a frame that gave it `record`.
pub open spec fn delivered(s: TransferView, record: Seq<u8>) -> TransferView {
    ended(s, record, TransferState::FindStartByte, TransferStatus::NewData, record)
}

/// The parser after the checksum byte of a frame for `record` whose checksum is
/// wrong.
pub open spec fn refused(s: TransferView, record: Seq<u8>) -> TransferView {
    ended(s, record, TransferState::FindStartByte, TransferStatus::CrcError, stuffed(record))
}

/// A parser waits for a frame of `record`: it looks for a start byte, and the
/// record has a size that a frame can carry.
pub open spec fn awaits(s: TransferView, record: Seq<u8>) -> bool {
    &&& s.state == TransferState::FindStartByte
    &&& 0 < record.len() < MAX_PACKET_SIZE
}

/// The header of a frame and a part of its payload fill the buffer and give no
/// record.
proof fn lemma_frame_payload(
    s: TransferView,
    record: Seq<u8>,
    crc: u8,
    record_len: nat,
    count: int,
)
    requires
        awaits(s, record),
        0 <= count <= record.len(),
    ensures
        fed(s, frame_with(record, crc).take(4 + count), record_len).0 == reading(s, record, count),
        fed(s, frame_with(record, crc).take(4 + count), record_len).1.len() == 0,
    decreases count,
{
    let frame = frame_with(record, crc);
    if count == 0 {
        reveal_with_fuel(fed, 5);
    } else {
        lemma_frame_payload(s, record, crc, record_len, count - 1);
        assert(frame.take(4 + count).drop_last() == frame.take(4 + (count - 1)));
    }
}

/// A frame up to and including its checksum byte gives no record. A right checksum
/// leaves the record in the buffer and the parser waiting for the stop byte; a
/// wrong one is answered with `CrcError`, and the parser looks for a new frame.
pub proof fn lemma_frame_checked(s: TransferView, record: Seq<u8>, crc: u8, record_len: nat)
    requires
        awaits(s, record),
    ensures
        fed(s, frame_with(record, crc).drop_last(), record_len).1.len() == 0,
        crc == checksum(s.table, stuffed(record)) ==> fed(
            s,
            frame_with(record, crc).drop_last(),
            record_len,
        ).0 == ended(s, record, TransferState::FindStopByte, TransferStatus::Continue, record),
        crc != checksum(s.table, stuffed(record)) ==> fed(
            s,
            frame_with(record, crc).drop_last(),
            record_len,
        ).0 == refused(s, record),
{
    let frame = frame_with(record, crc);
    let count = record.len() as int;
    let upto = frame.drop_last();
    lemma_frame_payload(s, record, crc, record_len, count);
    lemma_stuffing_round_trip(record);
    assert(upto.drop_last() == frame.take(4 + count));
    assert(stuffed(record).take(count) == stuffed(record));
}

/// A frame gives the parser its record, with its last byte and not before, when
/// the record has the size that the caller waits for; a poll over the frame returns
/// that record and takes the whole frame.
pub proof fn lemma_frame_delivered(s: TransferView, record: Seq<u8>)
    requires
        awaits(s, record),
    ensures
        fed(s, frame_of(s.table, record), record.len()) == (delivered(s, record), seq![record]),
        fed(s, frame_of(s.table, record).drop_last(), record.len()).1.len() == 0,
        polled(s, frame_of(s.table, record), record.len()) == (
            delivered(s, record),
            Some(record),
            frame_of(s.table, record).len(),
        ),
{
    let crc = checksum(s.table, stuffed(record));
    let frame = frame_of(s.table, record);
    lemma_frame_checked(s, record, crc, record.len());
    lemma_drained_first_record(s, frame, record.len());
}

/// A frame whose record has not the size that the caller waits for gives no
/// record: its stop byte is answered with `PayloadError`.
pub proof fn lemma_frame_of_other_size(s: TransferView, record: Seq<u8>, record_len: nat)
    requires
        awaits(s, record),
        record.len() != record_len,
    ensures
        fed(s, frame_of(s.table, record), record_len) == (
            ended(
                s,
                record,
                TransferState::FindStartByte,
                TransferStatus::PayloadError,
                record,
            ),
            Seq::<Seq<u8>>::empty(),
        ),
{
    let crc = checksum(s.table, stuffed(record));
    lemma_frame_checked(s, record, crc, record_len);
}

/// A frame with a wrong checksum gives no record, and leaves the parser looking
/// for the next frame.
pub proof fn lemma_frame_refused(s: TransferView, record: Seq<u8>, crc: u8, record_len: nat)
    requires
        awaits(s, record),
        crc != checksum(s.table, stuffed(record)),
    ensures
        fed(s, frame_with(record, crc), record_len) == (
            refused(s, record).moved(TransferState::FindStartByte, TransferStatus::Continue),
            Seq::<Seq<u8>>::empty(),
        ),
{
    lemma_frame_checked(s, record, crc, record_len);
}

/// Bytes other than the start byte mean nothing to a parser that looks for a
/// frame: it goes on looking, and gives no record.
pub proof fn lemma_noise_ignored(s: TransferView, noise: Seq<u8>, record_len: nat)
    requires
        s.state == TransferState::FindStartByte,
        forall|i: int| 0 <= i < noise.len() ==> noise[i] != START_BYTE,
    ensures
        fed(s, noise, record_len).0.state == TransferState::FindStartByte,
        fed(s, noise, record_len).0.table == s.table,
        fed(s, noise, record_len).1.len() == 0,
    decreases noise.len(),
{
    if noise.len() > 0 {
        lemma_noise_ignored(s, noise.drop_last(), record_len);
    }
}

/// Noise before a frame does no harm: the frame still gives its record, and
/// nothing else comes out.
pub proof fn lemma_frame_after_noise(s: TransferView, noise: Seq<u8>, record: Seq<u8>)
    requires
        awaits(s, record),
        forall|i: int| 0 <= i < noise.len() ==> noise[i] != START_BYTE,
    ensures
        fed(s, noise + frame_of(s.table, record), record.len()) == (
            delivered(s, record),
            seq![record],
        ),
{
    let quiet = fed(s, noise, record.len());
    lemma_noise_ignored(s, noise, record.len());
    lemma_frame_delivered(quiet.0, record);
    lemma_fed_concat(s, noise, frame_of(s.table, record), record.len());
}

/// The parser finds its way back after a damaged frame. Of three frames in a row,
/// the second with a wrong checksum, the first and the third give their records, in
/// this order, and the second gives none: its checksum byte is answered with
/// `CrcError`.
pub proof fn lemma_resync_after_corruption(
    s: TransferView,
    first: Seq<u8>,
    second: Seq<u8>,
    third: Seq<u8>,
    crc: u8,
)
    requires
        awaits(s, first),
        second.len() == first.len(),
        third.len() == first.len(),
        crc != checksum(s.table, stuffed(second)),
    ensures
        fed(
            s,
            frame_of(s.table, first) + frame_with(second, crc) + frame_of(s.table, third),
            first.len(),
        ) == (delivered(s, third), seq![first, third]),
        polled_through(
            s,
            frame_of(s.table, first) + frame_with(second, crc) + frame_of(s.table, third),
            first.len(),
        ) == (delivered(s, third), seq![first, third]),
        fed(s, frame_of(s.table, first) + frame_with(second, crc).drop_last(), first.len()) == (
            refused(s, second),
            seq![first],
        ),
        polled(
            s,
            frame_of(s.table, first) + frame_with(second, crc) + frame_of(s.table, third),
            first.len(),
        ) == (delivered(s, first), Some(first), frame_of(s.table, first).len()),
        polled(
            delivered(s, first),
            frame_with(second, crc) + frame_of(s.table, third),
            first.len(),
        ) == (
            delivered(s, third),
            Some(third),
            frame_with(second, crc).len() + frame_of(s.table, third).len(),
        ),
{
    let size = first.len();
    let good = frame_of(s.table, first);
    let bad = frame_with(second, crc);
    let last = frame_of(s.table, third);
    lemma_polled_through(s, good + bad + last, size);
    let after_good = delivered(s, first);
    lemma_frame_delivered(s, first);
    lemma_frame_checked(after_good, second, crc, size);
    let after_bad = fed(after_good, bad, size).0;
    lemma_frame_delivered(after_bad, third);
    lemma_fed_concat(s, good, bad.drop_last(), size);
    lemma_fed_concat(s, good, bad, size);
    lemma_fed_concat(s, good + bad, last, size);
    assert(good + bad + last == good + (bad + last));
    lemma_drained_stops(s, good, bad + last, size);
    lemma_fed_concat(after_good, bad, last, size);
    lemma_drained_first_record(after_good, bad + last, size);
}

/// A frame may arrive in pieces. Cut at any byte boundary, the first piece gives
/// no record and is taken whole, and the second piece, polled from where the first
/// one ended, gives the record that the whole frame gives in one poll. So does the
/// frame when it is handed over one byte at a time.
pub proof fn lemma_frame_resumable(s: TransferView, record: Seq<u8>, cut: int)
    requires
        awaits(s, record),
        0 < cut < frame_of(s.table, record).len(),
    ensures
        polled(s, frame_of(s.table, record), record.len()) == (
            delivered(s, record),
            Some(record),
            frame_of(s.table, record).len(),
        ),
        polled(s, frame_of(s.table, record).take(cut), record.len()).1 is None,
        polled(s, frame_of(s.table, record).take(cut), record.len()).2 == cut,
        polled(
            polled(s, frame_of(s.table, record).take(cut), record.len()).0,
            frame_of(s.table, record).skip(cut),
            record.len(),
        ) == (delivered(s, record), Some(record), (frame_of(s.table, record).len() - cut) as nat),
        polled_each(s, frame_of(s.table, record), record.len()) == (
            delivered(s, record),
            seq![record],
        ),
{
    let size = record.len();
    lemma_polled_each(s, frame_of(s.table, record), size);
    let frame = frame_of(s.table, record);
    let head = frame.take(cut);
    let tail = frame.skip(cut);
    lemma_frame_delivered(s, record);
    assert(frame.drop_last().take(cut) == head);
    lemma_fed_quiet_prefix(s, frame.drop_last(), size, cut);
    lemma_drained_quiet(s, head, size);
    let middle = fed(s, head, size).0;
    assert(head + tail.drop_last() == frame.drop_last());
    lemma_fed_concat(s, head, tail.drop_last(), size);
    lemma_drained_first_record(middle, tail, size);
}

} // verus!
