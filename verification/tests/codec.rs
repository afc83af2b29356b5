use framestream::image_decoder::{
    decode_named_images, decode_snapshot, encode_snapshot, field_to_text, RawFrame,
    DESCRIPTION_FIELD_SIZE, HEADER_SIZE, NAME_FIELD_SIZE,
};

fn raw(name: &str, width: u32, height: u32, channels: u32, bytes: Vec<u8>) -> RawFrame {
    RawFrame { name: name.to_string(), width, height, channels, bytes }
}

/// A record header written byte by byte, independent of the encoder.
fn push_record(buffer: &mut Vec<u8>, name: &[u8], width: u32, height: u32, channels: u32) {
    let mut field = [0u8; 64];
    field[..name.len()].copy_from_slice(name);
    buffer.extend_from_slice(&field);
    buffer.extend_from_slice(&width.to_le_bytes());
    buffer.extend_from_slice(&height.to_le_bytes());
    buffer.extend_from_slice(&channels.to_le_bytes());
}

#[test]
fn round_trip_empty_record_list() {
    let buffer = encode_snapshot("status line", &Vec::new());
    assert_eq!(buffer.len(), DESCRIPTION_FIELD_SIZE);
    let (description, images) = decode_snapshot(&buffer);
    assert_eq!(description, "status line");
    assert_eq!(images.len(), 0);
}

#[test]
fn round_trip_three_records() {
    let frames = vec![
        raw("Main", 2, 1, 1, vec![9, 250]),
        raw("left", 1, 1, 3, vec![1, 2, 3]),
        raw("right", 1, 2, 4, vec![1, 2, 3, 4, 5, 6, 7, 8]),
    ];
    let buffer = encode_snapshot("cycle 7", &frames);
    let (description, images) = decode_snapshot(&buffer);
    assert_eq!(description, "cycle 7");
    assert_eq!(images.len(), 3);
    for (image, frame) in images.iter().zip(frames.iter()) {
        assert_eq!(image.name, frame.name);
        assert_eq!(image.width, frame.width);
        assert_eq!(image.height, frame.height);
        assert_eq!(image.channels, frame.channels);
        assert_eq!(image.pixels, frame.bytes.as_slice());
    }
}

#[test]
fn round_trip_zero_sized_image() {
    let frames = vec![raw("empty", 0, 5, 3, Vec::new())];
    let buffer = encode_snapshot("", &frames);
    let (description, images) = decode_snapshot(&buffer);
    assert_eq!(description, "");
    assert_eq!(images.len(), 1);
    assert_eq!(images[0].name, "empty");
    assert_eq!(images[0].pixels.len(), 0);
}

#[test]
fn truncated_final_payload_drops_only_the_tail() {
    let frames = vec![
        raw("keep", 2, 2, 1, vec![1, 2, 3, 4]),
        raw("torn", 3, 1, 1, vec![7, 8, 9]),
    ];
    let buffer = encode_snapshot("d", &frames);
    for cut in 1..=3 {
        let truncated = &buffer[..buffer.len() - cut];
        let (description, images) = decode_snapshot(truncated);
        assert_eq!(description, "d");
        assert_eq!(images.len(), 1);
        assert_eq!(images[0].name, "keep");
        assert_eq!(images[0].pixels, &[1, 2, 3, 4]);
    }
}

#[test]
fn truncated_header_drops_the_record() {
    let frames = vec![raw("a", 1, 1, 1, vec![5]), raw("b", 1, 1, 1, vec![6])];
    let buffer = encode_snapshot("d", &frames);
    // Cut into the second record's header, keeping the first record whole.
    let keep = DESCRIPTION_FIELD_SIZE + HEADER_SIZE + 1 + 10;
    let (_, images) = decode_snapshot(&buffer[..keep]);
    assert_eq!(images.len(), 1);
    assert_eq!(images[0].name, "a");
}

#[test]
fn oversized_declared_payload_is_dropped() {
    let mut buffer = vec![0u8; DESCRIPTION_FIELD_SIZE];
    push_record(&mut buffer, b"huge", 1000, 1000, 4, );
    buffer.extend_from_slice(&[1, 2, 3]);
    let (_, images) = decode_snapshot(&buffer);
    assert_eq!(images.len(), 0);
}

#[test]
fn buffer_shorter_than_description_field() {
    let (description, images) = decode_snapshot(&[1, 2, 3]);
    assert_eq!(description, "");
    assert_eq!(images.len(), 0);
}

#[test]
fn name_without_nul_fills_the_whole_field() {
    let mut buffer = Vec::new();
    let name = [b'a'; 64];
    push_record(&mut buffer, &name, 1, 1, 1);
    buffer.push(77);
    let images = decode_named_images(&buffer);
    assert_eq!(images.len(), 1);
    assert_eq!(images[0].name.len(), NAME_FIELD_SIZE);
    assert_eq!(images[0].name, "a".repeat(64));
    assert_eq!(images[0].pixels, &[77]);
}

#[test]
fn name_is_cut_at_first_nul() {
    let mut buffer = Vec::new();
    let mut name = [0u8; 64];
    name[..5].copy_from_slice(b"front");
    name[6] = b'x';
    push_record(&mut buffer, &name, 0, 0, 0);
    let images = decode_named_images(&buffer);
    assert_eq!(images.len(), 1);
    assert_eq!(images[0].name, "front");
}

#[test]
fn invalid_utf8_name_becomes_placeholder() {
    let mut buffer = Vec::new();
    push_record(&mut buffer, &[0xff, 0xfe, b'a'], 0, 0, 0);
    let images = decode_named_images(&buffer);
    assert_eq!(images.len(), 1);
    assert_eq!(images[0].name, "<invalid utf8>");
}

#[test]
fn header_integers_are_little_endian() {
    let mut buffer = Vec::new();
    push_record(&mut buffer, b"dims", 0x0102, 0x01, 0x03, );
    buffer.extend_from_slice(&vec![0u8; 0x0102 * 3]);
    let images = decode_named_images(&buffer);
    assert_eq!(images.len(), 1);
    assert_eq!(images[0].width, 258);
    assert_eq!(images[0].height, 1);
    assert_eq!(images[0].channels, 3);
    // The width bytes stand least-significant first.
    assert_eq!(&buffer[64..68], &[0x02, 0x01, 0x00, 0x00]);
}

#[test]
fn description_ignores_bytes_after_nul() {
    let mut buffer = vec![0u8; DESCRIPTION_FIELD_SIZE];
    buffer[..2].copy_from_slice(b"ok");
    buffer[3] = b'z';
    let (description, images) = decode_snapshot(&buffer);
    assert_eq!(description, "ok");
    assert_eq!(images.len(), 0);
}

#[test]
fn field_to_text_full_and_trimmed() {
    assert_eq!(field_to_text(b"abc\0def"), "abc");
    assert_eq!(field_to_text(b"abc"), "abc");
    assert_eq!(field_to_text(b""), "");
    assert_eq!(field_to_text(&[0xc3, 0x28]), "<invalid utf8>");
}

#[test]
fn round_trip_full_width_name() {
    let name = "a".repeat(NAME_FIELD_SIZE);
    let frames = vec![raw(&name, 1, 1, 1, vec![1])];
    let buffer = encode_snapshot("d", &frames);
    let (_, images) = decode_snapshot(&buffer);
    assert_eq!(images.len(), 1);
    assert_eq!(images[0].name, name);
}

#[test]
fn round_trip_full_width_description() {
    let description = "d".repeat(DESCRIPTION_FIELD_SIZE);
    let buffer = encode_snapshot(&description, &Vec::new());
    let (decoded, _) = decode_snapshot(&buffer);
    assert_eq!(decoded, description);
}
