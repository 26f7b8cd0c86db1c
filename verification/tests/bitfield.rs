use bitfield_access::bitmask;
use bitfield_access::read_field;
use bitfield_access::try_read_field;
use bitfield_access::try_write_field;
use bitfield_access::write_field;
use bitfield_access::BitBound;
use bitfield_access::BitRange;
use bitfield_access::BitfieldAccess;
use bitfield_access::BitfieldError;

#[test]
fn test_read_field() {
    let buffer: Vec<u8> = vec![0x12, 0x34, 0x56, 0x78];

    // Test reading a single byte
    assert_eq!(buffer.read_field::<u8>(BitRange::new(4, 8)), 0x2);
    assert_eq!(buffer.read_field::<u8>(BitRange::new(8, 16)), 0x34);

    // Test reading across byte boundaries
    assert_eq!(buffer.read_field::<u16>(BitRange::new(4, 20)), 0x2345);

    // Test reading the entire buffer
    assert_eq!(buffer.read_field::<u32>(BitRange::full()), 0x12345678);

    // Test reading a single bit
    assert_eq!(buffer.read_field::<u8>(BitRange::new(7, 8)), 0x0);
    assert_eq!(buffer.read_field::<u8>(BitRange::inclusive(17, 17)), 0x1);
}

#[test]
fn test_write_field() {
    // Test writing a single byte
    let mut buffer: Vec<u8> = vec![0x12, 0x34, 0x56, 0x78];
    buffer.write_field::<u8>(BitRange::new(4, 8), 0xA);
    assert_eq!(buffer, vec![0x1A, 0x34, 0x56, 0x78]);
    buffer.write_field::<u8>(BitRange::new(0, 8), 0xBC);
    assert_eq!(buffer, vec![0xBC, 0x34, 0x56, 0x78]);

    // Test writing across byte boundaries
    let mut buffer: Vec<u8> = vec![0x12, 0x34, 0x56, 0x78];
    buffer.write_field::<u8>(BitRange::new(12, 20), 0xBC);
    assert_eq!(buffer, vec![0x12, 0x3B, 0xC6, 0x78]);

    // Test writing the entire buffer
    let mut buffer: Vec<u8> = vec![0x12, 0x34, 0x56, 0x78];
    buffer.write_field::<u32>(BitRange::full(), 0x87654321u32);
    assert_eq!(buffer, vec![0x87, 0x65, 0x43, 0x21]);

    // Test writing a single bit
    let mut buffer: Vec<u8> = vec![0x12, 0x34, 0x56, 0x78];
    buffer.write_field::<u8>(BitRange::new(7, 8), 0x1);
    assert_eq!(buffer, vec![0x13, 0x34, 0x56, 0x78]);
    buffer.write_field::<u8>(BitRange::inclusive(8, 8), 0x1);
    assert_eq!(buffer, vec![0x13, 0xB4, 0x56, 0x78]);
    buffer.write_field::<u8>(BitRange::new(30, 31), 0x1);
    assert_eq!(buffer, vec![0x13, 0xB4, 0x56, 0x7A]);
}

#[test]
fn free_functions_match_trait_methods() {
    let mut buffer: Vec<u8> = vec![0x12, 0x34, 0x56, 0x78];
    assert_eq!(read_field::<u16>(&buffer, BitRange::new(4, 20)), 0x2345);
    write_field::<u8>(&mut buffer, BitRange::new(12, 20), 0xBC);
    assert_eq!(buffer, vec![0x12, 0x3B, 0xC6, 0x78]);
}

#[test]
fn round_trip_returns_written_value() {
    let mut buffer: Vec<u8> = vec![0x12, 0x34, 0x56, 0x78];
    buffer.write_field::<u8>(BitRange::new(12, 20), 0xBC);
    assert_eq!(buffer.read_field::<u8>(BitRange::new(12, 20)), 0xBC);
    // Bits outside the field are unchanged.
    assert_eq!(buffer.read_field::<u16>(BitRange::new(0, 12)), 0x123);
    assert_eq!(buffer.read_field::<u16>(BitRange::new(20, 32)), 0x678);

    let mut buffer: Vec<u8> = vec![0x00, 0x00];
    buffer.write_field::<u8>(BitRange::new(3, 9), 0x2B);
    assert_eq!(buffer.read_field::<u8>(BitRange::new(3, 9)), 0x2B);
    assert_eq!(buffer.read_field::<u8>(BitRange::new(0, 3)), 0x0);
    assert_eq!(buffer.read_field::<u8>(BitRange::new(9, 16)), 0x0);
}

#[test]
fn writing_twice_equals_writing_once() {
    let mut once: Vec<u8> = vec![0x12, 0x34, 0x56, 0x78];
    once.write_field::<u16>(BitRange::new(5, 19), 0x1A2B);
    let mut twice = once.clone();
    twice.write_field::<u16>(BitRange::new(5, 19), 0x1A2B);
    assert_eq!(twice, once);
}

#[test]
fn whole_bytes_read_back_identically() {
    let buffer: Vec<u8> = vec![0x12, 0x34, 0x56, 0x78];
    for k in 0..buffer.len() {
        assert_eq!(
            buffer.read_field::<u8>(BitRange::new(8 * k, 8 * k + 8)),
            buffer[k]
        );
    }
}

#[test]
fn full_width_read_is_big_endian() {
    let buffer: Vec<u8> = vec![0x01, 0x02, 0x03, 0x04, 0x05, 0x06, 0x07, 0x08];
    assert_eq!(
        buffer.read_field::<u64>(BitRange::full()),
        0x0102030405060708
    );
    let buffer: Vec<u8> = vec![0xAB, 0xCD];
    assert_eq!(buffer.read_field::<u16>(BitRange::full()), 0xABCD);
}

#[test]
fn bound_forms_resolve_as_documented() {
    let buffer: Vec<u8> = vec![0x12, 0x34, 0x56, 0x78];
    // An exclusive start bound begins one past its index.
    let range = BitRange { start: BitBound::Excluded(3), end: BitBound::Excluded(8) };
    assert_eq!(buffer.read_field::<u8>(range), 0x2);
    // A missing start bound begins at bit 0.
    let range = BitRange { start: BitBound::Unbounded, end: BitBound::Excluded(8) };
    assert_eq!(buffer.read_field::<u8>(range), 0x12);
    // A missing end bound runs to the end of the buffer.
    let range = BitRange { start: BitBound::Included(24), end: BitBound::Unbounded };
    assert_eq!(buffer.read_field::<u8>(range), 0x78);
}

#[test]
fn over_wide_write_is_rejected() {
    let mut buffer: Vec<u8> = vec![0x12, 0x34, 0x56, 0x78];
    // Width 9 exceeds u8's 8 bits.
    let r = try_write_field::<u8>(&mut buffer, BitRange::new(0, 9), 0x00);
    assert_eq!(r, Err(BitfieldError::FieldTooWide));
    assert_eq!(buffer, vec![0x12, 0x34, 0x56, 0x78]);
}

#[test]
fn over_wide_read_is_rejected() {
    let buffer: Vec<u8> = vec![0x12, 0x34, 0x56, 0x78];
    let r = try_read_field::<u8>(&buffer, BitRange::new(4, 20));
    assert_eq!(r, Err(BitfieldError::FieldTooWide));
}

#[test]
fn out_of_range_value_is_rejected() {
    let mut buffer: Vec<u8> = vec![0x12, 0x34, 0x56, 0x78];
    // Max representable in 4 bits is 0xF.
    let r = try_write_field::<u8>(&mut buffer, BitRange::new(4, 8), 0x1F);
    assert_eq!(r, Err(BitfieldError::ValueOutOfRange));
    assert_eq!(buffer, vec![0x12, 0x34, 0x56, 0x78]);
}

#[test]
fn out_of_bounds_ranges_are_rejected() {
    let buffer: Vec<u8> = vec![0x12, 0x34, 0x56, 0x78];
    let r = try_read_field::<u8>(&buffer, BitRange::new(30, 40));
    assert_eq!(r, Err(BitfieldError::IndexOutOfBounds));
    // An empty range is out of bounds too.
    let r = try_read_field::<u8>(&buffer, BitRange::new(5, 5));
    assert_eq!(r, Err(BitfieldError::IndexOutOfBounds));
    // A reversed range as well.
    let r = try_read_field::<u8>(&buffer, BitRange::new(8, 4));
    assert_eq!(r, Err(BitfieldError::IndexOutOfBounds));
    // A range rejection takes precedence over a width rejection.
    let mut buffer: Vec<u8> = vec![0x12, 0x34, 0x56, 0x78];
    let r = try_write_field::<u8>(&mut buffer, BitRange::new(30, 41), 0x00);
    assert_eq!(r, Err(BitfieldError::IndexOutOfBounds));
    assert_eq!(buffer, vec![0x12, 0x34, 0x56, 0x78]);
}

#[test]
fn checked_operations_accept_valid_requests() {
    let mut buffer: Vec<u8> = vec![0x12, 0x34, 0x56, 0x78];
    assert_eq!(
        try_read_field::<u16>(&buffer, BitRange::new(4, 20)),
        Ok(0x2345)
    );
    assert_eq!(
        try_write_field::<u8>(&mut buffer, BitRange::new(4, 8), 0xF),
        Ok(())
    );
    assert_eq!(buffer, vec![0x1F, 0x34, 0x56, 0x78]);
    assert_eq!(
        try_write_field::<u32>(&mut buffer, BitRange::full(), 0xDEADBEEF),
        Ok(())
    );
    assert_eq!(buffer, vec![0xDE, 0xAD, 0xBE, 0xEF]);
}

#[test]
fn bitmask_sets_exactly_the_low_bits() {
    assert_eq!(bitmask::<u8>(0), 0x00);
    assert_eq!(bitmask::<u8>(4), 0x0F);
    assert_eq!(bitmask::<u8>(8), 0xFF);
    assert_eq!(bitmask::<u16>(9), 0x01FF);
    assert_eq!(bitmask::<u32>(32), 0xFFFF_FFFF);
    assert_eq!(bitmask::<u64>(63), 0x7FFF_FFFF_FFFF_FFFF);
    assert_eq!(bitmask::<u64>(64), u64::MAX);
}

#[test]
fn full_width_write_and_read_at_maximum_width() {
    let mut buffer: Vec<u8> = vec![0x00; 8];
    buffer.write_field::<u64>(BitRange::full(), u64::MAX);
    assert_eq!(buffer, vec![0xFF; 8]);
    assert_eq!(buffer.read_field::<u64>(BitRange::full()), u64::MAX);
    // A 64-bit field not aligned to a byte boundary.
    let mut buffer: Vec<u8> = vec![0x00; 9];
    buffer.write_field::<u64>(BitRange::new(3, 67), 0xA5A5_A5A5_A5A5_A5A5);
    assert_eq!(
        buffer.read_field::<u64>(BitRange::new(3, 67)),
        0xA5A5_A5A5_A5A5_A5A5
    );
    assert_eq!(buffer.read_field::<u8>(BitRange::new(0, 3)), 0x0);
    assert_eq!(buffer.read_field::<u8>(BitRange::new(67, 72)), 0x0);
}
