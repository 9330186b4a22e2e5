use serial_transfer::crc::CRC;

fn ascending(count: usize) -> Vec<u8> {
    (0..count).map(|i| (i % 256) as u8).collect()
}

#[test]
fn checksum_of_nothing_is_zero() {
    let crc = CRC::new(0x9B);
    assert_eq!(crc.calculate(&Vec::new(), None), 0);
    assert_eq!(crc.calculate(&Vec::new(), Some(0)), 0);
    assert_eq!(crc.calculate(&Vec::new(), Some(200)), 0);
}

#[test]
fn checksum_of_one_byte_is_its_table_entry() {
    let crc = CRC::new(0x9B);
    assert_eq!(crc.calculate(&vec![0x00], None), 0x00);
    assert_eq!(crc.calculate(&vec![0x01], None), 0x9B);
    assert_eq!(crc.calculate(&vec![0x02], None), 0xAD);
    assert_eq!(crc.calculate(&vec![0x03], None), 0x36);
    assert_eq!(crc.calculate(&vec![0x7E], None), 0xEB);
    assert_eq!(crc.calculate(&vec![0x80], None), 0x0B);
    assert_eq!(crc.calculate(&vec![0xFE], None), 0xE0);
}

#[test]
fn table_has_an_entry_for_the_highest_byte_value() {
    let crc = CRC::new(0x9B);
    assert_eq!(crc.calculate(&vec![0xFF], None), 0x7B);
    let other = CRC::new(0x07);
    assert_eq!(other.calculate(&vec![0xFF], None), 0xF3);
}

#[test]
fn checksum_of_the_digits() {
    let digits: Vec<u8> = b"123456789".to_vec();
    assert_eq!(CRC::new(0x9B).calculate(&digits, None), 0xEA);
    assert_eq!(CRC::new(0x07).calculate(&digits, None), 0xF4);
}

#[test]
fn checksum_of_short_buffers() {
    let crc = CRC::new(0x9B);
    assert_eq!(crc.calculate(&vec![1, 2, 3], None), 0x44);
    assert_eq!(crc.calculate(&vec![0, 1, 2], None), 0xBB);
    assert_eq!(crc.calculate(&vec![1, 2], None), 0xBB);
    assert_eq!(crc.calculate(&vec![0x7E, 1, 2], None), 0xA9);
}

#[test]
fn length_limits_the_bytes_that_count() {
    let crc = CRC::new(0x9B);
    let data = vec![1, 2, 3, 4, 5];
    assert_eq!(crc.calculate(&data, Some(2)), crc.calculate(&vec![1, 2], None));
    assert_eq!(crc.calculate(&data, Some(2)), 0xBB);
    assert_eq!(crc.calculate(&data, Some(0)), 0);
    assert_eq!(crc.calculate(&data, Some(5)), crc.calculate(&data, None));
}

#[test]
fn length_beyond_the_buffer_stops_at_its_end() {
    let crc = CRC::new(0x9B);
    let data = vec![1, 2, 3];
    assert_eq!(crc.calculate(&data, Some(4)), 0x44);
    assert_eq!(crc.calculate(&data, Some(255)), 0x44);
}

#[test]
fn no_length_covers_a_buffer_longer_than_a_byte_can_count() {
    let crc = CRC::new(0x9B);
    let data = ascending(300);
    let mut expected: u8 = 0;
    for byte in &data {
        expected = crc.calculate(&vec![expected ^ byte], None);
    }
    assert_eq!(crc.calculate(&data, None), expected);
    assert_ne!(crc.calculate(&data, None), crc.calculate(&data, Some(255)));
    assert_eq!(crc.calculate(&data, Some(255)), crc.calculate(&ascending(255), None));
}

#[test]
fn building_twice_gives_the_same_table() {
    for polynomial in [0x00u8, 0x07, 0x9B, 0xFF] {
        let first = CRC::new(polynomial);
        let second = CRC::new(polynomial);
        for value in 0..=255u8 {
            let one = vec![value];
            assert_eq!(first.calculate(&one, None), second.calculate(&one, None));
        }
    }
}

#[test]
fn same_input_gives_the_same_checksum() {
    let crc = CRC::new(0x9B);
    let data = ascending(253);
    let first = crc.calculate(&data, None);
    let second = crc.calculate(&data, None);
    assert_eq!(first, second);
    assert_eq!(crc.calculate(&data, Some(100)), crc.calculate(&data, Some(100)));
}

#[test]
fn zero_polynomial_gives_a_zero_table() {
    let crc = CRC::new(0x00);
    for value in 0..=255u8 {
        assert_eq!(crc.calculate(&vec![value], None), 0);
    }
}
