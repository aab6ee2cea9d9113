use bif::layout::{
    push_u32, read_u32, DEFAULT_SEPARATION, HEADER_SIZE, PAIR_SIZE, SENTINEL, VERSION,
};
use bif::naming::frame_name;
use bif::{decode, encode, extract_image, extract_images, Bif, BifError, Image};

const MAGIC: [u8; 8] = [0x89, 0x42, 0x49, 0x46, 0x0d, 0x0a, 0x1a, 0x0a];

fn header(version: u32, total: u32, unit: u32) -> Vec<u8> {
    let mut data = MAGIC.to_vec();
    data.extend_from_slice(&version.to_le_bytes());
    data.extend_from_slice(&total.to_le_bytes());
    data.extend_from_slice(&unit.to_le_bytes());
    data.resize(64, 0);
    data
}

fn with_table(mut data: Vec<u8>, pairs: &[(u32, u32)]) -> Vec<u8> {
    for (timestamp, offset) in pairs {
        data.extend_from_slice(&timestamp.to_le_bytes());
        data.extend_from_slice(&offset.to_le_bytes());
    }
    data
}

fn path() -> String {
    String::from("index.bif")
}

#[test]
fn two_one_byte_images_round_trip() {
    let images = vec![vec![0xAAu8], vec![0xBBu8]];
    let encoded = encode(&images, path(), 500, 1000).unwrap();
    let bif = decode(path(), &encoded.bytes).unwrap();
    assert_eq!(bif.images.len(), 2);
    assert_eq!(bif.images[0].timestamp, 0);
    assert_eq!(bif.images[0].size, 1);
    assert_eq!(bif.images[0].offset, 88);
    assert_eq!(bif.images[1].timestamp, 500);
    assert_eq!(bif.images[1].size, 1);
    assert_eq!(bif.images[1].offset, 89);
    assert_eq!(bif.images[0].name, "frame_00000000000000000000");
    assert_eq!(bif.images[1].name, "frame_00000000000000500000");
    assert_eq!(bif.total_images, 2);
    assert_eq!(bif.version, 0);
    assert_eq!(bif.path, "index.bif");
}

#[test]
fn two_one_byte_images_exact_bytes() {
    let images = vec![vec![0xAAu8], vec![0xBBu8]];
    let encoded = encode(&images, path(), 500, 1000).unwrap();
    let mut expected = MAGIC.to_vec();
    expected.extend_from_slice(&[0, 0, 0, 0]);
    expected.extend_from_slice(&[2, 0, 0, 0]);
    expected.extend_from_slice(&[0u8; 48]);
    expected.extend_from_slice(&[0, 0, 0, 0, 88, 0, 0, 0]);
    expected.extend_from_slice(&[0xF4, 0x01, 0, 0, 89, 0, 0, 0]);
    expected.extend_from_slice(&[0xFF, 0xFF, 0xFF, 0xFF, 90, 0, 0, 0]);
    expected.extend_from_slice(&[0xAA, 0xBB]);
    assert_eq!(encoded.bytes, expected);
}

#[test]
fn encode_reports_metadata_without_entries() {
    let images = vec![vec![1u8, 2, 3], vec![4u8]];
    let encoded = encode(&images, String::from("out.bif"), 2, 250).unwrap();
    assert_eq!(encoded.index.path, "out.bif");
    assert_eq!(encoded.index.version, VERSION);
    assert_eq!(encoded.index.total_images, 2);
    assert_eq!(encoded.index.framewise_separation, 250);
    assert!(encoded.index.images.is_empty());
}

#[test]
fn zero_images_round_trip() {
    let images: Vec<Vec<u8>> = Vec::new();
    let encoded = encode(&images, path(), 1, 1000).unwrap();
    assert_eq!(encoded.bytes.len(), 72);
    assert_eq!(&encoded.bytes[64..68], &[0xFF, 0xFF, 0xFF, 0xFF]);
    assert_eq!(&encoded.bytes[68..72], &[72, 0, 0, 0]);
    let bif = decode(path(), &encoded.bytes).unwrap();
    assert!(bif.images.is_empty());
    assert_eq!(bif.total_images, 0);
}

#[test]
fn round_trip_keeps_count_sizes_and_payloads() {
    let images: Vec<Vec<u8>> = vec![
        vec![1u8; 5],
        vec![2u8; 300],
        vec![3u8; 1],
        vec![4u8; 70000],
    ];
    let encoded = encode(&images, path(), 3, 40).unwrap();
    let bif = decode(path(), &encoded.bytes).unwrap();
    assert_eq!(bif.images.len(), images.len());
    assert_eq!(bif.total_images as usize, images.len());
    let mut offset = 64 + 8 * 5;
    for (i, image) in bif.images.iter().enumerate() {
        assert_eq!(image.size, images[i].len());
        assert_eq!(image.timestamp, 3 * i as u32);
        assert_eq!(image.offset as usize, offset);
        offset += images[i].len();
    }
    assert_eq!(offset, encoded.bytes.len());
    let sentinel_at = HEADER_SIZE + PAIR_SIZE * images.len();
    assert_eq!(read_u32(&encoded.bytes, sentinel_at), SENTINEL);
    assert_eq!(read_u32(&encoded.bytes, sentinel_at + 4) as usize, encoded.bytes.len());
    let extracted = extract_images(&bif, &encoded.bytes).unwrap();
    assert_eq!(extracted.len(), images.len());
    for (i, one) in extracted.iter().enumerate() {
        assert_eq!(one.data, images[i]);
    }
}

#[test]
fn round_trip_with_empty_payloads() {
    let images: Vec<Vec<u8>> = vec![vec![], vec![9u8, 9], vec![], vec![]];
    let encoded = encode(&images, path(), 1, 1000).unwrap();
    let bif = decode(path(), &encoded.bytes).unwrap();
    assert_eq!(bif.images.len(), 4);
    assert_eq!(bif.images[0].size, 0);
    assert_eq!(bif.images[1].size, 2);
    assert_eq!(bif.images[2].size, 0);
    assert_eq!(bif.images[3].size, 0);
    assert_eq!(bif.images[0].offset, 104);
    assert_eq!(bif.images[1].offset, 104);
    assert_eq!(bif.images[2].offset, 106);
    assert_eq!(bif.images[3].offset, 106);
}

#[test]
fn decoded_offsets_strictly_increase() {
    let images: Vec<Vec<u8>> = vec![vec![1u8; 3], vec![2u8; 1], vec![3u8; 8], vec![4u8; 2]];
    let encoded = encode(&images, path(), 10, 1000).unwrap();
    let bif = decode(path(), &encoded.bytes).unwrap();
    for pair in bif.images.windows(2) {
        assert!(pair[0].offset < pair[1].offset);
        assert_eq!(pair[0].offset as usize + pair[0].size, pair[1].offset as usize);
    }
}

#[test]
fn encoder_leaves_the_separation_field_zero() {
    let images = vec![vec![7u8]];
    let encoded = encode(&images, path(), 4, 250).unwrap();
    assert_eq!(&encoded.bytes[16..64], &[0u8; 48][..]);
    let bif = decode(path(), &encoded.bytes).unwrap();
    assert_eq!(bif.framewise_separation, DEFAULT_SEPARATION);
}

#[test]
fn wrong_magic_is_invalid_format() {
    let mut data = with_table(header(0, 0, 0), &[(SENTINEL, 72)]);
    data[3] = 0x47;
    assert_eq!(decode(path(), &data).unwrap_err(), BifError::InvalidFormat);
    let short = [0u8; 8];
    assert_eq!(decode(path(), &short).unwrap_err(), BifError::InvalidFormat);
}

#[test]
fn version_one_is_unsupported() {
    let data = with_table(header(1, 0, 0), &[(SENTINEL, 72)]);
    assert_eq!(decode(path(), &data).unwrap_err(), BifError::UnsupportedVersion);
}

#[test]
fn zero_separation_decodes_as_default() {
    let data = with_table(header(0, 1, 0), &[(7, 80), (SENTINEL, 90)]);
    let bif = decode(path(), &data).unwrap();
    assert_eq!(bif.framewise_separation, 1000);
    assert_eq!(bif.images[0].name, "frame_00000000000000007000");
}

#[test]
fn stored_separation_is_kept() {
    let data = with_table(header(0, 1, 40), &[(7, 80), (SENTINEL, 90)]);
    let bif = decode(path(), &data).unwrap();
    assert_eq!(bif.framewise_separation, 40);
    assert_eq!(bif.images.len(), 1);
    assert_eq!(bif.images[0].name, "frame_00000000000000000280");
    assert_eq!(bif.images[0].timestamp, 7);
    assert_eq!(bif.images[0].offset, 80);
    assert_eq!(bif.images[0].size, 10);
}

#[test]
fn declared_three_but_two_entries_is_corrupt() {
    let data = with_table(header(0, 3, 0), &[(0, 88), (1, 90), (SENTINEL, 95)]);
    assert_eq!(decode(path(), &data).unwrap_err(), BifError::CorruptIndex);
}

#[test]
fn declared_fewer_than_present_is_corrupt() {
    let data = with_table(header(0, 1, 0), &[(0, 88), (1, 90), (SENTINEL, 95)]);
    assert_eq!(decode(path(), &data).unwrap_err(), BifError::CorruptIndex);
}

#[test]
fn offsets_running_backwards_are_corrupt() {
    let data = with_table(header(0, 2, 0), &[(0, 90), (1, 88), (SENTINEL, 95)]);
    assert_eq!(decode(path(), &data).unwrap_err(), BifError::CorruptIndex);
}

#[test]
fn first_entry_may_sit_at_offset_zero() {
    let data = with_table(header(0, 1, 0), &[(0, 0), (SENTINEL, 5)]);
    let bif = decode(path(), &data).unwrap();
    assert_eq!(bif.images.len(), 1);
    assert_eq!(bif.images[0].offset, 0);
    assert_eq!(bif.images[0].size, 5);
}

#[test]
fn truncated_data_is_an_io_error() {
    let full = with_table(header(0, 1, 0), &[(0, 80), (SENTINEL, 81)]);
    for len in [0usize, 7, 8, 11, 12, 19, 20, 63, 64, 71, 72, 79] {
        assert_eq!(
            decode(path(), &full[..len]).unwrap_err(),
            BifError::IoError,
            "length {}",
            len
        );
    }
    assert!(decode(path(), &full[..80]).is_ok());
}

#[test]
fn table_without_sentinel_is_an_io_error() {
    let data = with_table(header(0, 2, 0), &[(0, 80), (1, 81)]);
    assert_eq!(decode(path(), &data).unwrap_err(), BifError::IoError);
}

#[test]
fn pairs_behind_the_sentinel_are_not_read() {
    let data = with_table(header(0, 1, 0), &[(0, 88), (SENTINEL, 90), (5, 1)]);
    let bif = decode(path(), &data).unwrap();
    assert_eq!(bif.images.len(), 1);
    assert_eq!(bif.images[0].size, 2);
}

#[test]
fn timestamps_reaching_the_sentinel_are_too_large() {
    let images = vec![vec![1u8], vec![2u8]];
    assert_eq!(
        encode(&images, path(), 0xFFFF_FFFF, 1000).unwrap_err(),
        BifError::TooLarge
    );
    let three = vec![vec![1u8], vec![2u8], vec![3u8]];
    assert_eq!(
        encode(&three, path(), 0x8000_0000, 1000).unwrap_err(),
        BifError::TooLarge
    );
    assert!(encode(&images, path(), 0xFFFF_FFFE, 1000).is_ok());
    let one = vec![vec![1u8]];
    assert!(encode(&one, path(), 0xFFFF_FFFF, 1000).is_ok());
}

#[test]
fn largest_timestamp_round_trips() {
    let images = vec![vec![1u8], vec![2u8]];
    let encoded = encode(&images, path(), 0xFFFF_FFFE, 1000).unwrap();
    let bif = decode(path(), &encoded.bytes).unwrap();
    assert_eq!(bif.images[1].timestamp, 0xFFFF_FFFE);
    assert_eq!(bif.images[1].name, "frame_00000004294967294000");
}

#[test]
fn frame_names_are_twenty_digits() {
    assert_eq!(frame_name(0), "frame_00000000000000000000");
    assert_eq!(frame_name(7), "frame_00000000000000000007");
    assert_eq!(frame_name(1234567890), "frame_00000000001234567890");
    assert_eq!(frame_name(u64::MAX), "frame_18446744073709551615");
    assert_eq!(
        frame_name(0xFFFF_FFFE * 0xFFFF_FFFF),
        format!("frame_{:020}", 0xFFFF_FFFEu64 * 0xFFFF_FFFFu64)
    );
}

#[test]
fn format_constants() {
    assert_eq!(bif::layout::MAGIC, [0x89, b'B', b'I', b'F', 0x0d, 0x0a, 0x1a, 0x0a]);
    assert_eq!(bif::layout::MAGIC, MAGIC);
    assert_eq!(HEADER_SIZE, 0x40);
    assert_eq!(PAIR_SIZE, 8);
    assert_eq!(SENTINEL, u32::MAX);
    assert_eq!(VERSION, 0);
    assert_eq!(DEFAULT_SEPARATION, 1000);
}

#[test]
fn little_endian_fields() {
    let mut out = vec![9u8];
    push_u32(&mut out, 0x0403_0201);
    assert_eq!(out, vec![9, 1, 2, 3, 4]);
    assert_eq!(read_u32(&out, 1), 0x0403_0201);
    push_u32(&mut out, SENTINEL);
    assert_eq!(read_u32(&out, 5), 0xFFFF_FFFF);
    assert_eq!(HEADER_SIZE, 64);
}

fn image(name: &str, offset: u32, size: usize) -> Image {
    Image { name: String::from(name), timestamp: 0, offset, size }
}

#[test]
fn extract_image_cuts_the_payload() {
    let data: Vec<u8> = (0u8..20).collect();
    let one = extract_image(&data, &image("frame_00000000000000001000", 5, 4)).unwrap();
    assert_eq!(one.data, vec![5, 6, 7, 8]);
    assert_eq!(one.file_name, "frame_00000000000000001000.jpg");
    let last = extract_image(&data, &image("x", 16, 4)).unwrap();
    assert_eq!(last.data, vec![16, 17, 18, 19]);
    assert_eq!(last.file_name, "x.jpg");
}

#[test]
fn extract_image_past_the_end_is_an_io_error() {
    let data: Vec<u8> = (0u8..20).collect();
    assert_eq!(extract_image(&data, &image("x", 17, 4)).unwrap_err(), BifError::IoError);
    assert_eq!(extract_image(&data, &image("x", 30, 1)).unwrap_err(), BifError::IoError);
    assert_eq!(extract_image(&data, &image("x", 0, 21)).unwrap_err(), BifError::IoError);
}

#[test]
fn extract_image_of_no_bytes_reads_nothing() {
    let data: Vec<u8> = (0u8..20).collect();
    let none = extract_image(&data, &image("x", 30, 0)).unwrap();
    assert!(none.data.is_empty());
    assert_eq!(none.file_name, "x.jpg");
}

#[test]
fn extract_images_fails_as_a_whole() {
    let data: Vec<u8> = (0u8..20).collect();
    let bif = Bif {
        path: path(),
        version: 0,
        total_images: 2,
        framewise_separation: 1000,
        images: vec![image("a", 0, 10), image("b", 10, 11)],
    };
    assert_eq!(extract_images(&bif, &data).unwrap_err(), BifError::IoError);
    let sound = Bif {
        path: path(),
        version: 0,
        total_images: 2,
        framewise_separation: 1000,
        images: vec![image("a", 0, 10), image("b", 10, 10)],
    };
    let extracted = extract_images(&sound, &data).unwrap();
    assert_eq!(extracted.len(), 2);
    assert_eq!(extracted[0].file_name, "a.jpg");
    assert_eq!(extracted[0].data, (0u8..10).collect::<Vec<u8>>());
    assert_eq!(extracted[1].file_name, "b.jpg");
    assert_eq!(extracted[1].data, (10u8..20).collect::<Vec<u8>>());
}
