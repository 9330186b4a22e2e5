//! The frame parser as a state machine over plain values: what one byte does to
//! it, what a batch of bytes does, and what follows from that for streams that
//! arrive in parts.

use crate::crc::{calculated, crc_table};
use crate::stuffing::{lemma_unstuffed_len, unstuffed};
use crate::{MAX_PACKET_SIZE, POLYNOMIAL, START_BYTE, STOP_BYTE};
use vstd::prelude::*;

verus! {

/// How the last byte left the frame that is being read.
#[derive(Clone, Copy, Debug, PartialEq, Eq, Structural)]
pub enum TransferStatus {
    /// The byte was taken and the frame is not finished.
    Continue,
    /// The byte finished a frame, and its record was handed out.
    NewData,
    /// There was no byte to take.
    NoData,
    /// The checksum byte did not match the payload.
    CrcError,
    /// The length byte was out of range, or the payload has not the size of the
    /// record that was asked for.
    PayloadError,
    /// The byte after the checksum was not the stop byte.
    StopByteError,
}

/// What the parser waits for.
#[derive(Clone, Copy, Debug, PartialEq, Eq, Structural)]
pub enum TransferState {
    /// Between frames: every byte but the start byte is passed over.
    FindStartByte,
    /// The next byte is the identifier.
    FindIdByte,
    /// The next byte is the overhead byte.
    FindOverheadByte,
    /// The next byte is the length of the payload, 1 to 253.
    FindPayloadLength,
    /// The next bytes are the stuffed payload.
    FindPayload,
    /// The next byte is the checksum of the stuffed payload.
    FindCrc,
    /// The next byte is the stop byte.
    FindStopByte,
}

/// The state of a session as a plain value: the checksum table that it holds and
/// the parser's place in the frame that it is reading.
#[verifier::ext_equal]
pub struct TransferView {
    pub table: Seq<u8>,
    pub state: TransferState,
    pub status: TransferStatus,
    pub id_byte: u8,
    pub overhead_byte: u8,
    pub payload_length: u8,
    pub payload: Seq<u8>,
}

impl TransferView {
    /// The state of a session that has seen no byte yet.
    pub open spec fn initial() -> TransferView {
        TransferView {
            table: crc_table(POLYNOMIAL),
            state: TransferState::FindStartByte,
            status: TransferStatus::Continue,
            id_byte: 0,
            overhead_byte: 0,
            payload_length: 0,
            payload: Seq::empty(),
        }
    }

    /// What holds of a session at all times. The checksum table is that of
    /// `POLYNOMIAL`. The buffer never outgrows the declared length, which never
    /// exceeds 253; while the payload is read the buffer is short of it, and from
    /// then on to the end of the frame it holds exactly the declared number of bytes.
    pub open spec fn wf(self) -> bool {
        &&& self.table == crc_table(POLYNOMIAL)
        &&& self.payload.len() <= self.payload_length
        &&& self.payload_length < MAX_PACKET_SIZE
        &&& self.state == TransferState::FindPayload ==> self.payload.len() < self.payload_length
        &&& (self.state == TransferState::FindCrc || self.state == TransferState::FindStopByte)
            ==> self.payload.len() == self.payload_length && self.payload_length > 0
    }

    /// The same state with another phase and status.
    pub open spec fn moved(self, state: TransferState, status: TransferStatus) -> TransferView {
        TransferView { state, status, ..self }
    }
}

/// What one byte does to the parser: the state after it and the record that it
/// completes, if it completes one. `record_len` is the size of the record that the
/// caller waits for.
pub open spec fn step(s: TransferView, byte: u8, record_len: nat) -> (
    TransferView,
    Option<Seq<u8>>,
) {
    match s.state {
        TransferState::FindStartByte => if byte == START_BYTE {
            (s.moved(TransferState::FindIdByte, TransferStatus::Continue), None)
        } else {
            (s.moved(TransferState::FindStartByte, TransferStatus::Continue), None)
        },
        TransferState::FindIdByte => (
            TransferView {
                id_byte: byte,
                ..s.moved(TransferState::FindOverheadByte, TransferStatus::Continue)
            },
            None,
        ),
        TransferState::FindOverheadByte => (
            TransferView {
                overhead_byte: byte,
                ..s.moved(TransferState::FindPayloadLength, TransferStatus::Continue)
            },
            None,
        ),
        TransferState::FindPayloadLength => if 0 < byte < MAX_PACKET_SIZE {
            (
                TransferView {
                    payload_length: byte,
                    payload: Seq::empty(),
                    ..s.moved(TransferState::FindPayload, TransferStatus::Continue)
                },
                None,
            )
        } else {
            (s.moved(TransferState::FindStartByte, TransferStatus::PayloadError), None)
        },
        TransferState::FindPayload => if s.payload.len() < s.payload_length {
            let payload = s.payload.push(byte);
            let state = if payload.len() == s.payload_length {
                TransferState::FindCrc
            } else {
                TransferState::FindPayload
            };
            (TransferView { payload, ..s.moved(state, TransferStatus::Continue) }, None)
        } else {
            (s.moved(TransferState::FindPayload, TransferStatus::Continue), None)
        },
        TransferState::FindCrc => {
            if calculated(s.table, s.payload, Some(s.payload_length)) == byte {
                (
                    TransferView {
                        payload: unstuffed(s.payload, s.overhead_byte),
                        ..s.moved(TransferState::FindStopByte, TransferStatus::Continue)
                    },
                    None,
                )
            } else {
                (s.moved(TransferState::FindStartByte, TransferStatus::CrcError), None)
            }
        },
        TransferState::FindStopByte => if byte != STOP_BYTE {
            (s.moved(TransferState::FindStartByte, TransferStatus::StopByteError), None)
        } else if s.payload.len() != record_len {
            (s.moved(TransferState::FindStartByte, TransferStatus::PayloadError), None)
        } else {
            (s.moved(TransferState::FindStartByte, TransferStatus::NewData), Some(s.payload))
        },
    }
}

/// What a batch of bytes does to the parser when it takes them one at a time and
/// stops at the first record: the state it is left in, that record, and how many
/// bytes it took.
pub open spec fn drained(s: TransferView, input: Seq<u8>, record_len: nat) -> (
    TransferView,
    Option<Seq<u8>>,
    nat,
)
    decreases input.len(),
{
    if input.len() == 0 {
        (s, None, 0)
    } else {
        let (next, record) = step(s, input[0], record_len);
        if record is Some {
            (next, record, 1)
        } else {
            let (last, found, taken) = drained(next, input.skip(1), record_len);
            (last, found, taken + 1)
        }
    }
}

/// One poll over the bytes that are at hand: with none the status becomes `NoData`
/// and nothing else changes; otherwise the bytes are drained up to the first record.
pub open spec fn polled(s: TransferView, input: Seq<u8>, record_len: nat) -> (
    TransferView,
    Option<Seq<u8>>,
    nat,
) {
    if input.len() == 0 {
        (s.moved(s.state, TransferStatus::NoData), None, 0)
    } else {
        drained(s, input, record_len)
    }
}

/// Everything that a stream of bytes does to the parser when it takes them one at
/// a time and does not stop: the state it is left in, and the records that came
/// out, in their order.
pub open spec fn fed(s: TransferView, input: Seq<u8>, record_len: nat) -> (
    TransferView,
    Seq<Seq<u8>>,
)
    decreases input.len(),
{
    if input.len() == 0 {
        (s, Seq::empty())
    } else {
        let (before, records) = fed(s, input.drop_last(), record_len);
        let (after, record) = step(before, input.last(), record_len);
        (after, records + emitted(record))
    }
}

/// The records that one byte gives: one or none.
pub open spec fn emitted(record: Option<Seq<u8>>) -> Seq<Seq<u8>> {
    match record {
        Some(bytes) => seq![bytes],
        None => Seq::empty(),
    }
}

/// A record comes out at the stop byte of a frame whose payload has the size that
/// the caller waits for, and nowhere else. It is the payload in the buffer, and the
/// status is `NewData` then and only then.
pub proof fn lemma_record_at_stop_byte(s: TransferView, byte: u8, record_len: nat)
    ensures
        step(s, byte, record_len).1 is Some <==> s.state == TransferState::FindStopByte && byte
            == STOP_BYTE && s.payload.len() == record_len,
        step(s, byte, record_len).1 is Some ==> step(s, byte, record_len).1 == Some(s.payload),
        step(s, byte, record_len).1 is Some <==> step(s, byte, record_len).0.status
            == TransferStatus::NewData,
{
}

/// The length byte is taken when it is one of 1 to 253, and only then; any other
/// is answered with `PayloadError`, and the parser looks for a new frame.
pub proof fn lemma_length_byte(s: TransferView, byte: u8, record_len: nat)
    requires
        s.state == TransferState::FindPayloadLength,
    ensures
        1 <= byte <= 253 ==> step(s, byte, record_len).0.state == TransferState::FindPayload
            && step(s, byte, record_len).0.status == TransferStatus::Continue && step(
            s,
            byte,
            record_len,
        ).0.payload_length == byte,
        !(1 <= byte <= 253) ==> step(s, byte, record_len).0.state
            == TransferState::FindStartByte && step(s, byte, record_len).0.status
            == TransferStatus::PayloadError,
        step(s, byte, record_len).1 is None,
{
}

/// No byte brings a session out of order, and none changes the checksum table.
pub proof fn lemma_step_keeps_wf(s: TransferView, byte: u8, record_len: nat)
    ensures
        s.wf() ==> step(s, byte, record_len).0.wf(),
        step(s, byte, record_len).0.table == s.table,
{
    lemma_unstuffed_len(s.payload, s.overhead_byte as int);
}

/// No stream of bytes brings a session out of order, and none changes the
/// checksum table.
pub proof fn lemma_fed_keeps_wf(s: TransferView, input: Seq<u8>, record_len: nat)
    ensures
        s.wf() ==> fed(s, input, record_len).0.wf(),
        fed(s, input, record_len).0.table == s.table,
    decreases input.len(),
{
    if input.len() > 0 {
        lemma_fed_keeps_wf(s, input.drop_last(), record_len);
        lemma_step_keeps_wf(fed(s, input.drop_last(), record_len).0, input.last(), record_len);
    }
}

/// A stream may come in two parts: the second part goes on where the first one
/// ended, and the records of both parts together are the records of the whole.
pub proof fn lemma_fed_concat(s: TransferView, first: Seq<u8>, second: Seq<u8>, record_len: nat)
    ensures
        fed(s, first + second, record_len).0 == fed(
            fed(s, first, record_len).0,
            second,
            record_len,
        ).0,
        fed(s, first + second, record_len).1 == fed(s, first, record_len).1 + fed(
            fed(s, first, record_len).0,
            second,
            record_len,
        ).1,
    decreases second.len(),
{
    if second.len() > 0 {
        assert((first + second).drop_last() == first + second.drop_last());
        lemma_fed_concat(s, first, second.drop_last(), record_len);
    }
}

/// The first byte of a stream, and then the rest of it.
pub proof fn lemma_fed_front(s: TransferView, input: Seq<u8>, record_len: nat)
    requires
        input.len() > 0,
    ensures
        fed(s, input, record_len).0 == fed(
            step(s, input[0], record_len).0,
            input.skip(1),
            record_len,
        ).0,
        fed(s, input, record_len).1 == emitted(step(s, input[0], record_len).1) + fed(
            step(s, input[0], record_len).0,
            input.skip(1),
            record_len,
        ).1,
{
    reveal_with_fuel(fed, 2);
    let head = input.take(1);
    assert(head + input.skip(1) == input);
    lemma_fed_concat(s, head, input.skip(1), record_len);
}

/// A poll over a single byte is one step of the parser.
pub proof fn lemma_polled_one(s: TransferView, byte: u8, record_len: nat)
    ensures
        polled(s, seq![byte], record_len) == (
            step(s, byte, record_len).0,
            step(s, byte, record_len).1,
            1nat,
        ),
{
    reveal_with_fuel(drained, 2);
}

/// A stream that gives no record gives none in any part of it either.
pub proof fn lemma_fed_quiet_prefix(s: TransferView, input: Seq<u8>, record_len: nat, count: int)
    requires
        0 <= count <= input.len(),
        fed(s, input, record_len).1.len() == 0,
    ensures
        fed(s, input.take(count), record_len).1.len() == 0,
{
    assert(input.take(count) + input.skip(count) == input);
    lemma_fed_concat(s, input.take(count), input.skip(count), record_len);
}

/// What draining a batch is in terms of the stream: the parser takes a part of the
/// batch from its start, and all of it when no record comes; the state it is left
/// in is the one after that part; and the record it returns is the only one that
/// the part gives, given by its last byte.
pub proof fn lemma_drained_prefix(s: TransferView, input: Seq<u8>, record_len: nat)
    ensures
        drained(s, input, record_len).2 <= input.len(),
        drained(s, input, record_len).1 is None ==> drained(s, input, record_len).2
            == input.len(),
        drained(s, input, record_len).1 is Some ==> drained(s, input, record_len).2 > 0 && fed(
            s,
            input.take(drained(s, input, record_len).2 - 1),
            record_len,
        ).1.len() == 0,
        fed(s, input.take(drained(s, input, record_len).2 as int), record_len) == (
            drained(s, input, record_len).0,
            emitted(drained(s, input, record_len).1),
        ),
    decreases input.len(),
{
    if input.len() > 0 {
        let (next, record) = step(s, input[0], record_len);
        let rest = input.skip(1);
        if record is Some {
            lemma_fed_front(s, input.take(1), record_len);
        } else {
            lemma_drained_prefix(next, rest, record_len);
            let taken = drained(next, rest, record_len).2 as int;
            lemma_fed_front(s, input.take(taken + 1), record_len);
            assert(input.take(taken + 1).skip(1) == rest.take(taken));
            if drained(next, rest, record_len).1 is Some {
                lemma_fed_front(s, input.take(taken), record_len);
                assert(input.take(taken).skip(1) == rest.take(taken - 1));
            }
        }
    }
}

/// Draining a batch that gives no record takes all of it.
pub proof fn lemma_drained_quiet(s: TransferView, input: Seq<u8>, record_len: nat)
    requires
        fed(s, input, record_len).1.len() == 0,
    ensures
        drained(s, input, record_len) == (fed(s, input, record_len).0, None::<Seq<u8>>, input.len()),
{
    lemma_drained_prefix(s, input, record_len);
    let taken = drained(s, input, record_len).2 as int;
    lemma_fed_quiet_prefix(s, input, record_len, taken);
    assert(input.take(input.len() as int) == input);
}

/// Draining a batch whose last byte gives the first record takes all of it and
/// returns that record.
pub proof fn lemma_drained_first_record(s: TransferView, input: Seq<u8>, record_len: nat)
    requires
        input.len() > 0,
        fed(s, input.drop_last(), record_len).1.len() == 0,
        fed(s, input, record_len).1.len() == 1,
    ensures
        drained(s, input, record_len) == (
            fed(s, input, record_len).0,
            Some(fed(s, input, record_len).1[0]),
            input.len(),
        ),
{
    lemma_drained_prefix(s, input, record_len);
    let taken = drained(s, input, record_len).2 as int;
    assert(input.take(input.len() as int) == input);
    if taken < input.len() {
        lemma_fed_quiet_prefix(s, input.drop_last(), record_len, taken);
        assert(input.drop_last().take(taken) == input.take(taken));
    }
}

/// Bytes that follow the first record do not matter to a poll: it stops there.
pub proof fn lemma_drained_stops(s: TransferView, input: Seq<u8>, more: Seq<u8>, record_len: nat)
    requires
        drained(s, input, record_len).1 is Some,
    ensures
        drained(s, input + more, record_len) == drained(s, input, record_len),
    decreases input.len(),
{
    let whole = input + more;
    let (next, record) = step(s, input[0], record_len);
    if record is None {
        assert(whole.skip(1) == input.skip(1) + more);
        lemma_drained_stops(next, input.skip(1), more, record_len);
    }
}

/// What a stream does to the parser when every byte of it is polled by itself:
/// the state it is left in, and the records that the polls returned, in their order.
pub open spec fn polled_each(s: TransferView, input: Seq<u8>, record_len: nat) -> (
    TransferView,
    Seq<Seq<u8>>,
)
    decreases input.len(),
{
    if input.len() == 0 {
        (s, Seq::empty())
    } else {
        let (before, records) = polled_each(s, input.drop_last(), record_len);
        let (after, record, _) = polled(before, seq![input.last()], record_len);
        (after, records + emitted(record))
    }
}

/// One poll for each byte does what the stream does.
pub proof fn lemma_polled_each(s: TransferView, input: Seq<u8>, record_len: nat)
    ensures
        polled_each(s, input, record_len) == fed(s, input, record_len),
    decreases input.len(),
{
    if input.len() > 0 {
        lemma_polled_each(s, input.drop_last(), record_len);
        lemma_polled_one(fed(s, input.drop_last(), record_len).0, input.last(), record_len);
    }
}

/// What a batch of bytes does to the parser when it is polled again and again,
/// each time from the byte after the last one taken, until nothing is left: the
/// state it is left in, and the records that the polls returned, in their order.
pub open spec fn polled_through(s: TransferView, input: Seq<u8>, record_len: nat) -> (
    TransferView,
    Seq<Seq<u8>>,
)
    decreases input.len(),
    via polled_through_decreases
{
    if input.len() == 0 {
        (s, Seq::empty())
    } else {
        let (next, record, taken) = polled(s, input, record_len);
        let (last, records) = polled_through(next, input.skip(taken as int), record_len);
        (last, emitted(record) + records)
    }
}

#[via_fn]
proof fn polled_through_decreases(s: TransferView, input: Seq<u8>, record_len: nat) {
    if input.len() > 0 {
        lemma_drained_prefix(s, input, record_len);
    }
}

/// Polling a batch until nothing is left does what the stream does: no record is
/// lost, none comes twice, and their order is kept.
pub proof fn lemma_polled_through(s: TransferView, input: Seq<u8>, record_len: nat)
    ensures
        polled_through(s, input, record_len) == fed(s, input, record_len),
    decreases input.len(),
{
    if input.len() > 0 {
        let (next, record, taken) = drained(s, input, record_len);
        lemma_drained_prefix(s, input, record_len);
        lemma_polled_through(next, input.skip(taken as int), record_len);
        assert(input.take(taken as int) + input.skip(taken as int) == input);
        lemma_fed_concat(s, input.take(taken as int), input.skip(taken as int), record_len);
    }
}

/// The batches in which a stream arrives do not matter: polled through in two
/// parts, cut at any place, it leaves the parser in the state and gives the records
/// that it gives in one part.
pub proof fn lemma_polled_through_parts(
    s: TransferView,
    input: Seq<u8>,
    record_len: nat,
    cut: int,
)
    requires
        0 <= cut <= input.len(),
    ensures
        polled_through(
            polled_through(s, input.take(cut), record_len).0,
            input.skip(cut),
            record_len,
        ).0 == polled_through(s, input, record_len).0,
        polled_through(s, input.take(cut), record_len).1 + polled_through(
            polled_through(s, input.take(cut), record_len).0,
            input.skip(cut),
            record_len,
        ).1 == polled_through(s, input, record_len).1,
{
    let middle = fed(s, input.take(cut), record_len).0;
    lemma_polled_through(s, input, record_len);
    lemma_polled_through(s, input.take(cut), record_len);
    lemma_polled_through(middle, input.skip(cut), record_len);
    assert(input.take(cut) + input.skip(cut) == input);
    lemma_fed_concat(s, input.take(cut), input.skip(cut), record_len);
}

} // verus!
