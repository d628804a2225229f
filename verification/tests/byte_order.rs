use frame_factor::networking::byte_order::{read_be, read_le, write_be, write_le};

#[test]
fn write_be_puts_the_high_byte_first() {
    assert_eq!(write_be(0x0102_0304, 4), vec![1, 2, 3, 4]);
    assert_eq!(write_be(20, 4), vec![0, 0, 0, 20]);
    assert_eq!(write_be(0, 0), Vec::<u8>::new());
}

#[test]
fn write_be_keeps_the_low_bytes_of_a_wide_value() {
    assert_eq!(write_be(0x01_0203, 2), vec![2, 3]);
}

#[test]
fn write_be_sixteen_bytes() {
    let value: u128 = 0x0011_2233_4455_6677_8899_aabb_ccdd_eeff;
    assert_eq!(
        write_be(value, 16),
        vec![
            0x00, 0x11, 0x22, 0x33, 0x44, 0x55, 0x66, 0x77, 0x88, 0x99, 0xaa, 0xbb, 0xcc, 0xdd,
            0xee, 0xff
        ]
    );
    assert_eq!(write_be(value, 16), value.to_be_bytes().to_vec());
}

#[test]
fn read_be_reverses_write_be() {
    assert_eq!(read_be(&[1, 2, 3, 4]), 0x0102_0304);
    assert_eq!(read_be(&[]), 0);
    assert_eq!(read_be(&[0xff; 16]), u128::MAX);
    let value: u128 = 0x8000_0000_0000_0000_0000_0000_0000_0001;
    assert_eq!(read_be(&write_be(value, 16)), value);
}

#[test]
fn write_le_puts_the_low_byte_first() {
    assert_eq!(write_le(0x0102_0304, 4), vec![4, 3, 2, 1]);
    assert_eq!(write_le(1, 8), vec![1, 0, 0, 0, 0, 0, 0, 0]);
    assert_eq!(write_le(0x01_0203, 2), vec![3, 2]);
    assert_eq!(write_le(u64::MAX as u128, 8), u64::MAX.to_le_bytes().to_vec());
}

#[test]
fn read_le_reverses_write_le() {
    assert_eq!(read_le(&[4, 3, 2, 1]), 0x0102_0304);
    assert_eq!(read_le(&[]), 0);
    assert_eq!(read_le(&write_le(0xdead_beef, 8)), 0xdead_beef);
    assert_eq!(read_le(&[0xff; 16]), u128::MAX);
}
