use stego::bits::bits_to_bytes;
use stego::bits::bytes_to_bits;
use stego::pixels::PixelChannelStore;

#[test]
fn bits_of_known_bytes() {
    let bits = bytes_to_bits(&vec![0xA5, 0x01]);
    assert_eq!(bits, vec![1, 0, 1, 0, 0, 1, 0, 1, 0, 0, 0, 0, 0, 0, 0, 1]);
}

#[test]
fn bit_packer_round_trip() {
    let original = vec![0u8, 255, 0x41, 0x42, 7];
    let bits = bytes_to_bits(&original);
    assert_eq!(bits.len(), 8 * original.len());
    let packed = bits_to_bytes(&bits);
    assert_eq!(packed, original);
}

#[test]
fn pack_known_bits() {
    let bits = vec![0, 1, 0, 0, 0, 0, 0, 1];
    assert_eq!(bits_to_bytes(&bits), vec![0x41]);
}

#[test]
fn pixel_store_basics() {
    let mut store = PixelChannelStore::new(2, 2, vec![9u8; 16]).unwrap();
    assert_eq!(store.capacity(), 16);
    assert_eq!(store.read_channel_byte(3), 9);
    store.write_channel_byte(3, 42);
    assert_eq!(store.read_channel_byte(3), 42);
    assert_eq!(store.read_channel_byte(2), 9);
}

#[test]
fn pixel_store_rejects_bad_length() {
    assert!(PixelChannelStore::new(2, 2, vec![0u8; 15]).is_none());
    assert!(PixelChannelStore::new(2, 2, vec![0u8; 17]).is_none());
}
