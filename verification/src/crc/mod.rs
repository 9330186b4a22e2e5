//! The checksum engine: an 8-bit checksum that is folded over the bytes of a buffer
//! through a lookup table built from a generator polynomial.

use vstd::prelude::*;

verus! {

/// One shift of the checksum register: the register moves left by one bit, and the
/// polynomial is folded in when the bit that falls out was set.
pub open spec fn shift_step(reg: u8, polynomial: u8) -> u8 {
    if reg & 0x80 != 0 {
        (reg << 1) ^ polynomial
    } else {
        reg << 1
    }
}

/// The register after `rounds` shifts.
pub open spec fn shifted(reg: u8, polynomial: u8, rounds: nat) -> u8
    decreases rounds,
{
    if rounds == 0 {
        reg
    } else {
        shift_step(shifted(reg, polynomial, (rounds - 1) as nat), polynomial)
    }
}

/// The table entry of a byte value: the value after eight shifts.
pub open spec fn table_entry(polynomial: u8, value: u8) -> u8 {
    shifted(value, polynomial, 8)
}

/// The lookup table of a polynomial: one entry for each of the 256 byte values.
pub open spec fn crc_table(polynomial: u8) -> Seq<u8> {
    Seq::new(256, |i: int| table_entry(polynomial, i as u8))
}

/// The checksum of `data` under `table`: starting from zero, each byte is xored
/// into the running value and the result is looked up in the table.
pub open spec fn checksum(table: Seq<u8>, data: Seq<u8>) -> u8
    decreases data.len(),
{
    if data.len() == 0 {
        0
    } else {
        table[(checksum(table, data.drop_last()) ^ data.last()) as int]
    }
}

/// How many bytes of a buffer of `len` bytes a checksum covers: all of them when no
/// length is given, otherwise the given length, cut off at the end of the buffer.
pub open spec fn covered_len(len: nat, length: Option<u8>) -> nat {
    match length {
        Some(l) => if (l as nat) < len { l as nat } else { len },
        None => len,
    }
}

/// The checksum that `calculate` gives for `data` and `length` under `table`.
pub open spec fn calculated(table: Seq<u8>, data: Seq<u8>, length: Option<u8>) -> u8 {
    checksum(table, data.take(covered_len(data.len(), length) as int))
}

/// The checksum engine: the lookup table of one polynomial.
pub struct CRC {
    table: [u8; 256],
}

impl View for CRC {
    type V = Seq<u8>;

    closed spec fn view(&self) -> Seq<u8> {
        self.table@
    }
}

impl CRC {
    /// Builds the lookup table of `polynomial`.
    pub fn new(polynomial: u8) -> (crc: CRC)
        ensures
            crc@ == crc_table(polynomial),
    {
        let mut table: [u8; 256] = [0; 256];
        let mut i: usize = 0;
        while i < 256
            invariant
                i <= 256,
                forall|k: int| 0 <= k < i ==> table@[k] == table_entry(polynomial, k as u8),
            decreases 256 - i,
        {
            let mut reg: u8 = i as u8;
            let mut round: usize = 0;
            while round < 8
                invariant
                    round <= 8,
                    i < 256,
                    reg == shifted(i as u8, polynomial, round as nat),
                decreases 8 - round,
            {
                if reg & 0x80 != 0 {
                    reg = (reg << 1) ^ polynomial;
                } else {
                    reg = reg << 1;
                }
                round = round + 1;
            }
            table[i] = reg;
            i = i + 1;
        }
        CRC { table }
    }

    /// The checksum of the first `length` bytes of `data`, or of all of `data` when
    /// no length is given. A length beyond the end of `data` is cut off there.
    pub fn calculate(&self, data: &Vec<u8>, length: Option<u8>) -> (sum: u8)
        ensures
            sum == calculated(self@, data@, length),
    {
        let n: usize = match length {
            Some(l) => if (l as usize) < data.len() { l as usize } else { data.len() },
            None => data.len(),
        };
        let mut sum: u8 = 0;
        let mut i: usize = 0;
        while i < n
            invariant
                i <= n <= data.len(),
                sum == checksum(self@, data@.take(i as int)),
            decreases n - i,
        {
            proof {
                assert(data@.take(i + 1).drop_last() == data@.take(i as int));
            }
            sum = self.table[(sum ^ data[i]) as usize];
            i = i + 1;
        }
        sum
    }
}

/// The checksum is a function of its inputs: two engines built from one polynomial
/// hold the same table, and under the same table the same bytes with the same
/// length have the same checksum.
pub proof fn lemma_checksum_deterministic(
    first: CRC,
    second: CRC,
    polynomial: u8,
    data: Seq<u8>,
    length: Option<u8>,
)
    requires
        first@ == crc_table(polynomial),
        second@ == crc_table(polynomial),
    ensures
        first@ == second@,
        calculated(first@, data, length) == calculated(second@, data, length),
{
}

/// A length beyond the end of the buffer is the same as none: the checksum then
/// covers the whole buffer.
pub proof fn lemma_length_cut_off(table: Seq<u8>, data: Seq<u8>, length: u8)
    requires
        length >= data.len(),
    ensures
        calculated(table, data, Some(length)) == calculated(table, data, None),
        calculated(table, data, None) == checksum(table, data),
{
    assert(data.take(data.len() as int) == data);
}

} // verus!
