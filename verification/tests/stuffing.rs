use serial_transfer::stuffing::{decode_data_cobs, encode_data_cobs, overhead_byte};
use serial_transfer::START_BYTE;

fn round_trip(payload: &Vec<u8>) -> Vec<u8> {
    let overhead = overhead_byte(payload);
    decode_data_cobs(encode_data_cobs(payload.clone()), overhead)
}

fn filler(count: usize) -> Vec<u8> {
    (0..count).map(|i| ((i * 7 + 3) % 126) as u8).collect()
}

#[test]
fn start_byte_has_its_wire_value() {
    assert_eq!(START_BYTE, 0x7E);
}

#[test]
fn payload_without_start_byte_is_unchanged() {
    let payload = vec![1, 2, 3, 0x7D, 0x7F, 0x81, 0x00, 0xFF];
    assert_eq!(encode_data_cobs(payload.clone()), payload);
    assert_eq!(overhead_byte(&payload), 255);
}

#[test]
fn single_start_byte_becomes_zero() {
    assert_eq!(encode_data_cobs(vec![0x7E, 1, 2]), vec![0, 1, 2]);
    assert_eq!(overhead_byte(&vec![0x7E, 1, 2]), 0);
    assert_eq!(encode_data_cobs(vec![1, 2, 0x7E]), vec![1, 2, 0]);
    assert_eq!(overhead_byte(&vec![1, 2, 0x7E]), 2);
}

#[test]
fn start_bytes_are_chained_by_distance() {
    assert_eq!(encode_data_cobs(vec![5, 0x7E, 0x7E, 7]), vec![5, 1, 0, 7]);
    assert_eq!(overhead_byte(&vec![5, 0x7E, 0x7E, 7]), 1);
    assert_eq!(encode_data_cobs(vec![0x7E, 0x7E, 0x7E]), vec![1, 1, 0]);
    assert_eq!(encode_data_cobs(vec![0x7E, 9, 9, 9, 0x7E, 9, 0x7E]), vec![4, 9, 9, 9, 2, 9, 0]);
}

#[test]
fn distance_may_equal_the_start_byte() {
    let mut payload = filler(200);
    payload[10] = 0x7E;
    payload[136] = 0x7E;
    let stuffed = encode_data_cobs(payload.clone());
    assert_eq!(stuffed[10], 126);
    assert_eq!(stuffed[136], 0);
    assert_eq!(decode_data_cobs(stuffed, 10), payload);
}

#[test]
fn empty_payload_stays_empty() {
    assert_eq!(encode_data_cobs(Vec::new()), Vec::<u8>::new());
    assert_eq!(overhead_byte(&Vec::new()), 255);
    assert_eq!(decode_data_cobs(Vec::new(), 0), Vec::<u8>::new());
}

#[test]
fn decode_restores_the_chain() {
    assert_eq!(decode_data_cobs(vec![0, 1, 2], 0), vec![0x7E, 1, 2]);
    assert_eq!(decode_data_cobs(vec![5, 1, 0, 7], 1), vec![5, 0x7E, 0x7E, 7]);
    assert_eq!(decode_data_cobs(vec![4, 9, 9, 9, 2, 9, 0], 0), vec![0x7E, 9, 9, 9, 0x7E, 9, 0x7E]);
}

#[test]
fn decode_with_overhead_out_of_bounds_changes_nothing() {
    assert_eq!(decode_data_cobs(vec![1, 2, 3], 255), vec![1, 2, 3]);
    assert_eq!(decode_data_cobs(vec![1, 2, 3], 3), vec![1, 2, 3]);
    assert_eq!(decode_data_cobs(vec![0, 0, 0], 200), vec![0, 0, 0]);
}

#[test]
fn decode_ends_the_chain_at_offset_zero() {
    let mut stuffed = filler(200);
    stuffed[0] = 0;
    let mut expected = stuffed.clone();
    expected[0] = 0x7E;
    assert_eq!(decode_data_cobs(stuffed, 0), expected);
}

#[test]
fn decode_ends_the_chain_when_the_offset_leaves_the_payload() {
    assert_eq!(decode_data_cobs(vec![9, 5, 9], 1), vec![9, 0x7E, 9]);
    assert_eq!(decode_data_cobs(vec![2, 9, 1], 0), vec![0x7E, 9, 0x7E]);
}

#[test]
fn decode_ends_the_chain_when_the_index_would_wrap() {
    let mut stuffed: Vec<u8> = vec![1; 300];
    stuffed[250] = 10;
    let decoded = decode_data_cobs(stuffed.clone(), 250);
    let mut expected = stuffed;
    expected[250] = 0x7E;
    assert_eq!(decoded, expected);
}

#[test]
fn round_trip_of_a_record_that_begins_with_the_start_byte() {
    assert_eq!(round_trip(&vec![0x7E, 0x01, 0x02]), vec![0x7E, 0x01, 0x02]);
}

#[test]
fn round_trip_with_one_start_byte_at_each_place() {
    for length in [1usize, 2, 3, 125, 126, 127, 128, 200, 252, 253] {
        for place in 0..length {
            let mut payload = filler(length);
            payload[place] = 0x7E;
            assert_eq!(round_trip(&payload), payload);
        }
    }
}

#[test]
fn round_trip_with_two_start_bytes_at_each_pair_of_places() {
    for length in [2usize, 3, 17, 127, 128, 253] {
        for first in 0..length {
            for second in (first + 1)..length {
                let mut payload = filler(length);
                payload[first] = 0x7E;
                payload[second] = 0x7E;
                assert_eq!(round_trip(&payload), payload);
            }
        }
    }
}

#[test]
fn round_trip_with_every_placement_in_short_payloads() {
    for length in 1usize..=10 {
        for mask in 0u32..(1 << length) {
            let mut payload = filler(length);
            for place in 0..length {
                if mask & (1 << place) != 0 {
                    payload[place] = 0x7E;
                }
            }
            assert_eq!(round_trip(&payload), payload);
        }
    }
}

#[test]
fn round_trip_of_payloads_made_of_start_bytes() {
    for length in 1usize..=253 {
        let payload = vec![0x7E; length];
        assert_eq!(overhead_byte(&payload), 0);
        assert_eq!(round_trip(&payload), payload);
    }
}

#[test]
fn round_trip_of_scattered_payloads() {
    let mut seed: u32 = 0x2545_F491;
    for length in 1usize..=253 {
        let mut payload = Vec::with_capacity(length);
        for _ in 0..length {
            seed = seed.wrapping_mul(1_664_525).wrapping_add(1_013_904_223);
            let byte = (seed >> 24) as u8;
            payload.push(if byte % 5 == 0 { 0x7E } else { byte });
        }
        assert_eq!(round_trip(&payload), payload);
        assert_eq!(encode_data_cobs(payload.clone()).len(), length);
    }
}

#[test]
fn round_trip_of_a_long_payload_with_an_early_start_byte() {
    let mut payload = filler(200);
    payload[0] = 0x7E;
    assert_eq!(overhead_byte(&payload), 0);
    assert_eq!(round_trip(&payload), payload);
}

#[test]
fn overhead_byte_is_the_first_of_several() {
    assert_eq!(overhead_byte(&vec![1, 2, 3, 0x7E, 0x7E, 0x7E]), 3);
    let mut payload = filler(253);
    payload[252] = 0x7E;
    assert_eq!(overhead_byte(&payload), 252);
}

#[test]
fn long_payloads_are_stuffed_modulo_256() {
    let mut payload: Vec<u8> = vec![1; 600];
    payload[300] = 0x7E;
    payload[599] = 0x7E;
    assert_eq!(overhead_byte(&payload), 44);
    let stuffed = encode_data_cobs(payload);
    assert_eq!(stuffed[300], 43);
    assert_eq!(stuffed[599], 0);
    assert_eq!(stuffed[0], 1);
}
