use stego::codec::decode_image;
use stego::codec::embed_payload;
use stego::codec::encode_image;
use stego::codec::extract_payload;
use stego::pixels::PixelChannelStore;
use stego::StegoError;

fn make_png(width: u32, height: u32, data: Vec<u8>) -> Vec<u8> {
    let img = image::RgbaImage::from_raw(width, height, data).unwrap();
    let mut cursor = std::io::Cursor::new(Vec::new());
    let encoder = image::codecs::png::PngEncoder::new(&mut cursor);
    image::ImageEncoder::write_image(
        encoder,
        img.as_raw(),
        width,
        height,
        image::ExtendedColorType::Rgba8,
    )
    .unwrap();
    cursor.into_inner()
}

fn black_rgba(pixels: usize) -> Vec<u8> {
    let mut data = Vec::new();
    for _ in 0..pixels {
        data.extend_from_slice(&[0u8, 0, 0, 255]);
    }
    data
}

#[test]
fn buffer_round_trip_no_password() {
    let mut store = PixelChannelStore::new(5, 5, vec![0xAAu8; 100]).unwrap();
    let payload = vec![1u8, 2, 3, 250, 0, 77];
    embed_payload(&mut store, &payload).unwrap();
    let extracted = extract_payload(&store).unwrap();
    assert_eq!(extracted, payload);
}

#[test]
fn buffer_capacity_boundary() {
    // A 4x4 RGBA image has 64 channel bytes, so 64 bits of capacity:
    // 32 header bits + 32 payload bits exactly fill it.
    let mut store = PixelChannelStore::new(4, 4, black_rgba(16)).unwrap();
    let four = vec![9u8, 8, 7, 6];
    assert!(embed_payload(&mut store, &four).is_ok());
    let extracted = extract_payload(&store).unwrap();
    assert_eq!(extracted, four);

    let mut store = PixelChannelStore::new(4, 4, black_rgba(16)).unwrap();
    let five = vec![9u8, 8, 7, 6, 5];
    let err = embed_payload(&mut store, &five).unwrap_err();
    assert!(matches!(err, StegoError::CapacityError(_)));
}

#[test]
fn buffer_untouched_past_frame() {
    let mut store = PixelChannelStore::new(5, 5, vec![0xFFu8; 100]).unwrap();
    let payload = vec![0x41u8];
    embed_payload(&mut store, &payload).unwrap();
    // 32 header bits + 8 payload bits: bytes beyond offset 40 are untouched.
    for i in 40..100 {
        assert_eq!(store.data[i], 0xFF);
    }
    // Embedded bytes differ from the carrier at most in their lowest bit.
    for i in 0..40 {
        assert_eq!(store.data[i] & 0xFE, 0xFE);
    }
}

#[test]
fn corruption_detection_truncated_buffer() {
    // Embed four bytes into a 64-byte buffer, then truncate the pixel
    // buffer below what the header claims.
    let mut store = PixelChannelStore::new(4, 4, black_rgba(16)).unwrap();
    embed_payload(&mut store, &vec![1u8, 2, 3, 4]).unwrap();
    let mut truncated = store.data.clone();
    truncated.truncate(40);
    let short = PixelChannelStore::new(10, 1, truncated).unwrap();
    let err = extract_payload(&short).unwrap_err();
    assert!(matches!(err, StegoError::InsufficientDataError(_)));
}

#[test]
fn header_too_large_is_insufficient() {
    // A header declaring 100 payload bytes inside a 64-bit image.
    let mut data = black_rgba(16);
    // 100 = 64 + 32 + 4: set the matching big-endian header bits.
    data[25] |= 1;
    data[26] |= 1;
    data[29] |= 1;
    let store = PixelChannelStore::new(4, 4, data).unwrap();
    let err = extract_payload(&store).unwrap_err();
    assert!(matches!(err, StegoError::InsufficientDataError(_)));
}

#[test]
fn concrete_scenario_black_image_ab() {
    // A 4x4 fully-opaque black RGBA image, secret "AB", no password.
    let png = make_png(4, 4, black_rgba(16));
    let out = encode_image(&png, &[0x41, 0x42], None).unwrap();
    // The output is a valid PNG.
    let reparsed = image::load_from_memory(&out).unwrap();
    assert_eq!(reparsed.width(), 4);
    assert_eq!(reparsed.height(), 4);
    let secret = decode_image(&out, None).unwrap();
    assert_eq!(secret, vec![0x41, 0x42]);
}

#[test]
fn encode_round_trip_larger_image() {
    let png = make_png(20, 10, vec![0x5Au8; 20 * 10 * 4]);
    let secret: Vec<u8> = (0u8..80).collect();
    let out = encode_image(&png, &secret, None).unwrap();
    let back = decode_image(&out, None).unwrap();
    assert_eq!(back, secret);
}

#[test]
fn encode_capacity_error_through_image() {
    let png = make_png(4, 4, black_rgba(16));
    let err = encode_image(&png, &[1, 2, 3, 4, 5], None).unwrap_err();
    assert!(matches!(err, StegoError::CapacityError(_)));
}

#[test]
fn format_error_on_garbage() {
    let garbage = vec![0x13u8, 0x37, 0x00, 0x01, 0x02];
    let err = encode_image(&garbage, &[1], None).unwrap_err();
    assert!(matches!(err, StegoError::FormatError(_)));
    let err = decode_image(&garbage, None).unwrap_err();
    assert!(matches!(err, StegoError::FormatError(_)));
}

#[test]
fn decode_image_too_small() {
    // A 2x2 image has 16 bits of capacity, fewer than the 32 header bits.
    let png = make_png(2, 2, black_rgba(4));
    let err = decode_image(&png, None).unwrap_err();
    assert!(matches!(err, StegoError::InsufficientDataError(_)));
}

#[test]
fn error_message_carries_detail() {
    let png = make_png(4, 4, black_rgba(16));
    let err = encode_image(&png, &[1, 2, 3, 4, 5], None).unwrap_err();
    assert_eq!(err.message(), "secret data too large to encode in image");
}

#[test]
fn empty_secret_round_trips() {
    let png = make_png(4, 4, black_rgba(16));
    let out = encode_image(&png, &[], None).unwrap();
    let back = decode_image(&out, None).unwrap();
    assert_eq!(back, Vec::<u8>::new());
}
