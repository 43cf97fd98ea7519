use loader_core::descriptor::{
    parse_descriptors, serialize_descriptors, MemoryDescriptor, CONVENTIONAL_MEMORY,
    DESCRIPTOR_SIZE, LOADER_DATA, PAGE_SIZE,
};
use loader_core::error::LoaderError;

fn sample() -> MemoryDescriptor {
    MemoryDescriptor {
        memory_type: 7,
        reserved_pad: 0,
        physical_start: 0x0010_0000,
        virtual_start: 0xFFFF_8000_0010_0000,
        page_count: 20,
        attribute_bits: 0x8000_0000_0000_000F,
    }
}

fn sample_bytes() -> Vec<u8> {
    vec![
        0x07, 0x00, 0x00, 0x00, // memory type
        0x00, 0x00, 0x00, 0x00, // padding
        0x00, 0x00, 0x10, 0x00, 0x00, 0x00, 0x00, 0x00, // physical start
        0x00, 0x00, 0x10, 0x00, 0x00, 0x80, 0xFF, 0xFF, // virtual start
        0x14, 0x00, 0x00, 0x00, 0x00, 0x00, 0x00, 0x00, // page count
        0x0F, 0x00, 0x00, 0x00, 0x00, 0x00, 0x00, 0x80, // attribute bits
    ]
}

fn counting_bytes(len: usize, seed: u8) -> Vec<u8> {
    let mut bytes = Vec::new();
    let mut i = 0usize;
    while i < len {
        bytes.push(seed.wrapping_add((i as u8).wrapping_mul(7)));
        i += 1;
    }
    bytes
}

#[test]
fn constants_match_the_firmware_interface() {
    assert_eq!(PAGE_SIZE, 4096);
    assert_eq!(DESCRIPTOR_SIZE, 40);
    assert_eq!(CONVENTIONAL_MEMORY, 7);
    assert_eq!(LOADER_DATA, 2);
}

#[test]
fn decode_reads_each_field_at_its_offset() {
    assert_eq!(MemoryDescriptor::decode(&sample_bytes()), Ok(sample()));
}

#[test]
fn decode_weights_bytes_little_endian() {
    let mut bytes = vec![0u8; 40];
    bytes[0] = 0x78;
    bytes[1] = 0x56;
    bytes[2] = 0x34;
    bytes[3] = 0x12;
    bytes[4] = 0xEF;
    bytes[5] = 0xBE;
    bytes[6] = 0xAD;
    bytes[7] = 0xDE;
    let mut i = 0;
    while i < 8 {
        bytes[8 + i] = (i + 1) as u8;
        bytes[24 + i] = 0xFF;
        i += 1;
    }
    let descriptor = MemoryDescriptor::decode(&bytes).unwrap();
    assert_eq!(descriptor.memory_type, 0x1234_5678);
    assert_eq!(descriptor.reserved_pad, 0xDEAD_BEEF);
    assert_eq!(descriptor.physical_start, 0x0807_0605_0403_0201);
    assert_eq!(descriptor.virtual_start, 0);
    assert_eq!(descriptor.page_count, u64::MAX);
    assert_eq!(descriptor.attribute_bits, 0);
}

#[test]
fn decode_rejects_a_short_record() {
    assert_eq!(MemoryDescriptor::decode(&[]), Err(LoaderError::MalformedMap));
    assert_eq!(MemoryDescriptor::decode(&sample_bytes()[..39]), Err(LoaderError::MalformedMap));
}

#[test]
fn decode_ignores_bytes_behind_the_record() {
    let mut bytes = sample_bytes();
    bytes.extend_from_slice(&[0xAA; 8]);
    assert_eq!(MemoryDescriptor::decode(&bytes), Ok(sample()));
}

#[test]
fn encode_writes_the_forty_bytes_of_the_layout() {
    assert_eq!(sample().encode(), sample_bytes());
}

#[test]
fn encode_writes_extreme_values() {
    let descriptor = MemoryDescriptor {
        memory_type: u32::MAX,
        reserved_pad: 0x0102_0304,
        physical_start: u64::MAX,
        virtual_start: 0,
        page_count: 1,
        attribute_bits: 0x0100_0000_0000_0000,
    };
    let bytes = descriptor.encode();
    assert_eq!(bytes.len(), 40);
    assert_eq!(&bytes[0..4], &[0xFF; 4]);
    assert_eq!(&bytes[4..8], &[0x04, 0x03, 0x02, 0x01]);
    assert_eq!(&bytes[8..16], &[0xFF; 8]);
    assert_eq!(&bytes[16..24], &[0x00; 8]);
    assert_eq!(&bytes[24..32], &[0x01, 0, 0, 0, 0, 0, 0, 0]);
    assert_eq!(&bytes[32..40], &[0, 0, 0, 0, 0, 0, 0, 0x01]);
    assert_eq!(MemoryDescriptor::decode(&bytes), Ok(descriptor));
}

#[test]
fn record_round_trip_reproduces_the_bytes() {
    let mut seed = 0u8;
    loop {
        let bytes = counting_bytes(40, seed);
        let descriptor = MemoryDescriptor::decode(&bytes).unwrap();
        assert_eq!(descriptor.encode(), bytes);
        if seed == 255 {
            break;
        }
        seed += 1;
    }
}

#[test]
fn record_round_trip_keeps_the_padding() {
    let mut bytes = sample_bytes();
    bytes[4] = 0x11;
    bytes[7] = 0x99;
    let descriptor = MemoryDescriptor::decode(&bytes).unwrap();
    assert_eq!(descriptor.reserved_pad, 0x9900_0011);
    assert_eq!(descriptor.encode(), bytes);
}

#[test]
fn is_conventional_tells_free_memory() {
    let mut descriptor = sample();
    assert!(descriptor.is_conventional());
    descriptor.memory_type = LOADER_DATA;
    assert!(!descriptor.is_conventional());
    descriptor.memory_type = 0;
    assert!(!descriptor.is_conventional());
}

#[test]
fn parse_reads_every_record_in_buffer_order() {
    let mut second = sample();
    second.memory_type = 0;
    second.physical_start = 0;
    second.page_count = 1;
    let mut buffer = sample_bytes();
    buffer.extend_from_slice(&second.encode());
    assert_eq!(parse_descriptors(&buffer, 40, 2), Ok(vec![sample(), second]));
}

#[test]
fn parse_steps_by_the_stride_and_ignores_the_rest() {
    let mut second = sample();
    second.physical_start = 0x2000;
    let mut buffer = sample_bytes();
    buffer.extend_from_slice(&[0xAA; 8]);
    buffer.extend_from_slice(&second.encode());
    buffer.extend_from_slice(&[0x55; 8]);
    assert_eq!(buffer.len(), 96);
    assert_eq!(parse_descriptors(&buffer, 48, 2), Ok(vec![sample(), second]));
}

#[test]
fn parse_accepts_the_empty_map() {
    assert_eq!(parse_descriptors(&[], 40, 0), Ok(vec![]));
    assert_eq!(parse_descriptors(&[], 48, 0), Ok(vec![]));
}

#[test]
fn parse_rejects_a_stride_below_the_record_size() {
    let buffer = counting_bytes(78, 3);
    assert_eq!(parse_descriptors(&buffer, 39, 2), Err(LoaderError::MalformedMap));
    assert_eq!(parse_descriptors(&buffer, 0, 0), Err(LoaderError::MalformedMap));
    assert_eq!(parse_descriptors(&[], 0, 0), Err(LoaderError::MalformedMap));
    assert_eq!(parse_descriptors(&[], 39, 0), Err(LoaderError::MalformedMap));
}

#[test]
fn parse_rejects_a_buffer_that_is_no_multiple_of_the_stride() {
    let buffer = counting_bytes(81, 1);
    assert_eq!(parse_descriptors(&buffer, 40, 2), Err(LoaderError::MalformedMap));
    assert_eq!(parse_descriptors(&buffer[..79], 40, 1), Err(LoaderError::MalformedMap));
    assert_eq!(parse_descriptors(&buffer[..80], 48, 1), Err(LoaderError::MalformedMap));
}

#[test]
fn parse_rejects_a_count_that_does_not_fill_the_buffer() {
    let buffer = counting_bytes(80, 1);
    assert_eq!(parse_descriptors(&buffer, 40, 1), Err(LoaderError::MalformedMap));
    assert_eq!(parse_descriptors(&buffer, 40, 3), Err(LoaderError::MalformedMap));
    assert_eq!(parse_descriptors(&buffer, 40, 0), Err(LoaderError::MalformedMap));
    assert_eq!(parse_descriptors(&buffer, 40, usize::MAX), Err(LoaderError::MalformedMap));
    assert!(parse_descriptors(&buffer, 40, 2).is_ok());
}

#[test]
fn serialize_writes_bare_records_at_the_record_stride() {
    let mut second = sample();
    second.page_count = 3;
    let mut expected = sample_bytes();
    expected.extend_from_slice(&second.encode());
    assert_eq!(serialize_descriptors(&[sample(), second], 40), Ok(expected));
}

#[test]
fn serialize_fills_the_stride_with_zeroes() {
    let mut expected = sample_bytes();
    expected.extend_from_slice(&[0u8; 8]);
    expected.extend_from_slice(&sample_bytes());
    expected.extend_from_slice(&[0u8; 8]);
    assert_eq!(serialize_descriptors(&[sample(), sample()], 48), Ok(expected));
}

#[test]
fn serialize_of_nothing_is_empty() {
    assert_eq!(serialize_descriptors(&[], 40), Ok(vec![]));
    assert_eq!(serialize_descriptors(&[], 64), Ok(vec![]));
}

#[test]
fn serialize_rejects_a_stride_below_the_record_size() {
    assert_eq!(serialize_descriptors(&[sample()], 39), Err(LoaderError::MalformedMap));
    assert_eq!(serialize_descriptors(&[], 0), Err(LoaderError::MalformedMap));
}

#[test]
fn buffer_round_trip_reproduces_the_bytes() {
    let buffer = counting_bytes(40 * 5, 9);
    let descriptors = parse_descriptors(&buffer, 40, 5).unwrap();
    assert_eq!(descriptors.len(), 5);
    assert_eq!(serialize_descriptors(&descriptors, 40), Ok(buffer));
}

#[test]
fn parse_of_serialized_gives_the_records_at_any_stride() {
    let mut records = Vec::new();
    let mut i = 0u64;
    while i < 6 {
        let mut record = sample();
        record.physical_start = 0x1000 * (6 - i);
        record.page_count = i;
        record.reserved_pad = i as u32;
        records.push(record);
        i += 1;
    }
    for stride in [40usize, 41, 48, 64, 4096] {
        let buffer = serialize_descriptors(&records, stride).unwrap();
        assert_eq!(buffer.len(), 6 * stride);
        assert_eq!(parse_descriptors(&buffer, stride, 6), Ok(records.clone()));
    }
}
