use stego::codec::decode_image;
use stego::codec::encode_image;
use stego::crypto::decrypt_secret;
use stego::crypto::encrypt_secret;
use stego::StegoError;

fn make_png(width: u32, height: u32, data: Vec<u8>) -> Vec<u8> {
    let img = image::RgbaImage::from_raw(width, height, data).unwrap();
    let mut cursor = std::io::Cursor::new(Vec::new());
    let encoder = image::codecs::png::PngEncoder::new(&mut cursor);
    image::ImageEncoder::write_image(
        encoder,
        img.as_raw(),
        width,
        height,
        image::ExtendedColorType::Rgba8,
    )
    .unwrap();
    cursor.into_inner()
}

#[test]
fn crypto_round_trip() {
    let secret = b"attack at dawn";
    let blob = encrypt_secret(secret, b"hunter2").unwrap();
    assert_eq!(blob.len(), secret.len() + 28);
    let back = decrypt_secret(&blob, b"hunter2").unwrap();
    assert_eq!(back, secret);
}

#[test]
fn crypto_wrong_password_fails() {
    let blob = encrypt_secret(b"payload", b"right").unwrap();
    let err = decrypt_secret(&blob, b"wrong").unwrap_err();
    assert!(matches!(err, StegoError::DecryptionError(_)));
}

#[test]
fn crypto_short_blob_fails() {
    let err = decrypt_secret(&[1u8, 2, 3], b"pw").unwrap_err();
    assert!(matches!(err, StegoError::DecryptionError(_)));
}

#[test]
fn crypto_tampered_blob_fails() {
    let mut blob = encrypt_secret(b"payload", b"pw").unwrap();
    let last = blob.len() - 1;
    blob[last] ^= 1;
    let err = decrypt_secret(&blob, b"pw").unwrap_err();
    assert!(matches!(err, StegoError::DecryptionError(_)));
}

#[test]
fn nonce_uniqueness() {
    // Two seals of the same plaintext under the same password must draw
    // different nonces, and so produce different blobs.
    let a = encrypt_secret(b"same plaintext", b"same password").unwrap();
    let b = encrypt_secret(b"same plaintext", b"same password").unwrap();
    assert_ne!(a[0..12], b[0..12]);
    assert_ne!(a, b);
}

#[test]
fn round_trip_with_password() {
    let png = make_png(16, 16, vec![0x33u8; 16 * 16 * 4]);
    let secret = b"the cake is a lie";
    let out = encode_image(&png, secret, Some(b"open sesame")).unwrap();
    let back = decode_image(&out, Some(b"open sesame")).unwrap();
    assert_eq!(back, secret);
}

#[test]
fn wrong_password_rejection() {
    let png = make_png(16, 16, vec![0x33u8; 16 * 16 * 4]);
    let out = encode_image(&png, b"secret", Some(b"pw1")).unwrap();
    let err = decode_image(&out, Some(b"pw2")).unwrap_err();
    assert!(matches!(err, StegoError::DecryptionError(_)));
}

#[test]
fn decode_without_password_of_plain_embed_differs_from_secret_when_encrypted() {
    // Encrypting changes what is embedded: without the password the raw
    // blob comes back, not the secret.
    let png = make_png(16, 16, vec![0x33u8; 16 * 16 * 4]);
    let out = encode_image(&png, b"secret", Some(b"pw")).unwrap();
    let raw = decode_image(&out, None).unwrap();
    assert_eq!(raw.len(), b"secret".len() + 28);
    assert_ne!(raw, b"secret");
}

#[test]
fn encrypted_payload_needs_more_capacity() {
    // 4x4 image: 4 plain bytes fit, but encryption adds 28 bytes of
    // nonce and tag, so the same secret no longer fits.
    let png = make_png(4, 4, vec![0u8; 64]);
    let err = encode_image(&png, &[1, 2, 3, 4], Some(b"pw")).unwrap_err();
    assert!(matches!(err, StegoError::CapacityError(_)));
}
