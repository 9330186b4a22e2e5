//! Framing of fixed-size records for a byte-oriented serial link.
//!
//! A record goes out as a frame: start byte, identifier, overhead byte, length,
//! stuffed payload, checksum, stop byte. Incoming bytes are read one at a time by a
//! parser that keeps its place between calls, so that a frame may arrive in any
//! number of pieces, and that finds the next frame after noise or a damaged one.
//!
//! The library does no input or output: [`SerialTransfer::send`] returns the bytes
//! to write, and [`SerialTransfer::available`] and [`SerialTransfer::step`] take the
//! bytes that were read.

use vstd::prelude::*;

pub mod crc;
pub mod delivery;
pub mod frame;
pub mod parser;
pub mod stuffing;

use crate::crc::CRC;
use crate::frame::frame_of;
use crate::parser::{
    drained, lemma_step_keeps_wf, polled, step, TransferState, TransferStatus, TransferView,
};
use crate::stuffing::{decode_data_cobs, encode_data_cobs, overhead_byte};

verus! {

/// Marks the start of a frame on the wire.
pub const START_BYTE: u8 = 0x7E;

/// Marks the end of a frame on the wire.
pub const STOP_BYTE: u8 = 0x81;

/// The least length byte that is out of range: a payload has 1 to 253 bytes.
pub const MAX_PACKET_SIZE: u8 = 0xFE;

/// The generator polynomial of the frame checksum.
pub const POLYNOMIAL: u8 = 0x9B;

/// A record as a plain value, where there is one.
pub open spec fn record_view(record: Option<Vec<u8>>) -> Option<Seq<u8>> {
    match record {
        Some(bytes) => Some(bytes@),
        None => None,
    }
}

/// Why a record cannot be framed.
#[derive(Clone, Copy, Debug, PartialEq, Eq, Structural)]
pub enum TransferError {
    /// The record is empty or has more than 253 bytes.
    PayloadError,
}

/// One end of a link: it frames outgoing records and reads incoming frames byte by
/// byte, keeping its place between calls.
pub struct SerialTransfer {
    crc: CRC,
    status: TransferStatus,
    transfer_state: TransferState,
    id_byte: u8,
    overhead_byte: u8,
    payload_length: u8,
    payload: Vec<u8>,
}

impl View for SerialTransfer {
    type V = TransferView;

    closed spec fn view(&self) -> TransferView {
        TransferView {
            table: self.crc@,
            state: self.transfer_state,
            status: self.status,
            id_byte: self.id_byte,
            overhead_byte: self.overhead_byte,
            payload_length: self.payload_length,
            payload: self.payload@,
        }
    }
}

impl SerialTransfer {
    /// A session that has seen no byte yet. Its checksum table is that of
    /// `POLYNOMIAL`.
    pub fn new() -> (session: SerialTransfer)
        ensures
            session@ == TransferView::initial(),
            session@.wf(),
    {
        SerialTransfer {
            crc: CRC::new(POLYNOMIAL),
            status: TransferStatus::Continue,
            transfer_state: TransferState::FindStartByte,
            id_byte: 0,
            overhead_byte: 0,
            payload_length: 0,
            payload: Vec::new(),
        }
    }

    /// How the last byte that was taken left its frame, or `NoData` after a poll
    /// that found no byte.
    pub fn status(&self) -> (status: TransferStatus)
        ensures
            status == self@.status,
    {
        self.status
    }

    /// Frames a record for the link. A record of 1 to 253 bytes gives its frame; any
    /// other is refused.
    pub fn send(&self, data: Vec<u8>) -> (frame: Result<Vec<u8>, TransferError>)
        ensures
            frame is Ok <==> 0 < data@.len() < MAX_PACKET_SIZE,
            frame is Ok ==> frame->Ok_0@ == frame_of(self@.table, data@),
            frame is Err ==> frame->Err_0 == TransferError::PayloadError,
    {
        let length: usize = data.len();
        if length == 0 || length >= MAX_PACKET_SIZE as usize {
            return Err(TransferError::PayloadError);
        }
        let overhead: u8 = overhead_byte(&data);
        let mut buffer: Vec<u8> = encode_data_cobs(data);
        let crc: u8 = self.crc.calculate(&buffer, None);
        let ghost body = buffer@;
        assert(body.take(body.len() as int) == body);
        let mut packet: Vec<u8> = Vec::new();
        packet.push(START_BYTE);
        packet.push(0);
        packet.push(overhead);
        packet.push(length as u8);
        packet.append(&mut buffer);
        packet.push(crc);
        packet.push(STOP_BYTE);
        Ok(packet)
    }

    /// Takes the bytes that the link has at hand, one at a time, up to the first
    /// record: returns that record, if one came, and the number of bytes taken.
    /// The bytes after it are left for the next call. With no byte at hand the
    /// status becomes `NoData`.
    pub fn available(&mut self, input: &[u8], record_len: usize) -> (out: (
        Option<Vec<u8>>,
        usize,
    ))
        ensures
            final(self)@ == polled(old(self)@, input@, record_len as nat).0,
            record_view(out.0) == polled(old(self)@, input@, record_len as nat).1,
            out.1 == polled(old(self)@, input@, record_len as nat).2,
            out.1 <= input@.len(),
            old(self)@.wf() ==> final(self)@.wf(),
    {
        if input.len() == 0 {
            self.status = TransferStatus::NoData;
            return (None, 0);
        }
        let ghost start = self@;
        let mut taken: usize = 0;
        assert(input@.skip(0) == input@);
        while taken < input.len()
            invariant
                taken <= input@.len(),
                input@.len() > 0,
                start == old(self)@,
                start.wf() ==> self@.wf(),
                drained(start, input@, record_len as nat).0 == drained(
                    self@,
                    input@.skip(taken as int),
                    record_len as nat,
                ).0,
                drained(start, input@, record_len as nat).1 == drained(
                    self@,
                    input@.skip(taken as int),
                    record_len as nat,
                ).1,
                drained(start, input@, record_len as nat).2 == drained(
                    self@,
                    input@.skip(taken as int),
                    record_len as nat,
                ).2 + taken,
            decreases input@.len() - taken,
        {
            proof {
                assert(input@.skip(taken as int).skip(1) == input@.skip(taken + 1));
            }
            let record = self.step(input[taken], record_len);
            taken = taken + 1;
            if record.is_some() {
                return (record, taken);
            }
        }
        (None, taken)
    }

    /// Takes one byte from the link.
    pub fn step(&mut self, byte: u8, record_len: usize) -> (record: Option<Vec<u8>>)
        ensures
            final(self)@ == step(old(self)@, byte, record_len as nat).0,
            record_view(record) == step(old(self)@, byte, record_len as nat).1,
            old(self)@.wf() ==> final(self)@.wf(),
    {
        proof {
            lemma_step_keeps_wf(self@, byte, record_len as nat);
        }
        self.status = TransferStatus::Continue;
        match self.transfer_state {
            TransferState::FindStartByte => {
                if byte == START_BYTE {
                    self.transfer_state = TransferState::FindIdByte;
                }
                None
            },
            TransferState::FindIdByte => {
                self.id_byte = byte;
                self.transfer_state = TransferState::FindOverheadByte;
                None
            },
            TransferState::FindOverheadByte => {
                self.overhead_byte = byte;
                self.transfer_state = TransferState::FindPayloadLength;
                None
            },
            TransferState::FindPayloadLength => {
                if byte > 0 && byte < MAX_PACKET_SIZE {
                    self.payload.clear();
                    self.payload_length = byte;
                    self.transfer_state = TransferState::FindPayload;
                } else {
                    self.transfer_state = TransferState::FindStartByte;
                    self.status = TransferStatus::PayloadError;
                }
                None
            },
            TransferState::FindPayload => {
                if self.payload.len() < self.payload_length as usize {
                    self.payload.push(byte);
                    if self.payload.len() == self.payload_length as usize {
                        self.transfer_state = TransferState::FindCrc;
                    }
                }
                None
            },
            TransferState::FindCrc => {
                let calculated = self.crc.calculate(&self.payload, Some(self.payload_length));
                if calculated == byte {
                    self.payload = decode_data_cobs(self.payload.clone(), self.overhead_byte);
                    self.transfer_state = TransferState::FindStopByte;
                } else {
                    self.transfer_state = TransferState::FindStartByte;
                    self.status = TransferStatus::CrcError;
                }
                None
            },
            TransferState::FindStopByte => {
                self.transfer_state = TransferState::FindStartByte;
                if byte != STOP_BYTE {
                    self.status = TransferStatus::StopByteError;
                    None
                } else if self.payload.len() != record_len {
                    self.status = TransferStatus::PayloadError;
                    None
                } else {
                    self.status = TransferStatus::NewData;
                    Some(self.payload.clone())
                }
            },
        }
    }
}

} // verus!
