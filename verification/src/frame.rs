//! The layout of a frame on the wire.

use crate::crc::checksum;
use crate::stuffing::{overhead_of, stuffed};
use crate::{START_BYTE, STOP_BYTE};
use vstd::prelude::*;

verus! {

/// A frame that carries `record` with `crc` in the checksum's place: the start
/// byte, the identifier (always zero), the overhead byte, the length, the stuffed
/// payload, the checksum and the stop byte.
pub open spec fn frame_with(record: Seq<u8>, crc: u8) -> Seq<u8> {
    seq![START_BYTE, 0u8, overhead_of(record), record.len() as u8] + stuffed(record) + seq![
        crc,
        STOP_BYTE,
    ]
}

/// The frame of `record`: its checksum is taken over the stuffed payload.
pub open spec fn frame_of(table: Seq<u8>, record: Seq<u8>) -> Seq<u8> {
    frame_with(record, checksum(table, stuffed(record)))
}

} // verus!
