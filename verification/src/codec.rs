use vstd::prelude::*;
use vstd::arithmetic::div_mod::lemma_fundamental_div_mod;
use vstd::arithmetic::div_mod::lemma_fundamental_div_mod_converse;
use vstd::arithmetic::power2::lemma2_to64;
use vstd::arithmetic::power2::lemma_pow2_strictly_increases;
use vstd::arithmetic::power2::lemma_pow2_unfold;
use vstd::arithmetic::power2::pow2;

use crate::bits::be32_bytes;
use crate::bits::bit_of;
use crate::bits::bits_of_bytes;
use crate::bits::bits_value;
use crate::bits::byte_bits;
use crate::bits::lemma_be32_bits_value;
use crate::bits::lemma_bits_value_byte;
use crate::bits::lemma_bits_value_nonneg;
use crate::bits::weight_of;
use crate::crypto::decrypt_spec;
use crate::errors::StegoError;
use crate::pixels::PixelChannelStore;

verus! {

/// Replaces the least-significant bit of `v` with `bit`, leaving the
/// upper seven bits unchanged.
pub open spec fn with_lsb(v: u8, bit: u8) -> u8 {
    (v as int / 2 * 2 + bit) as u8
}

/// The framed byte string: the payload length as a 32-bit big-endian
/// prefix, followed by the payload itself.
pub open spec fn frame_bytes(payload: Seq<u8>) -> Seq<u8>
    recommends
        payload.len() <= u32::MAX,
{
    be32_bytes(payload.len() as u32) + payload
}

/// The frame's bit stream: 32 header bits, then the payload's bits,
/// most-significant bit first within each byte.
pub open spec fn frame_bits(payload: Seq<u8>) -> Seq<u8> {
    bits_of_bytes(frame_bytes(payload))
}

/// Whether a payload of `n` bytes fits a carrier of `cap` channel bytes:
/// the length must fit the 32-bit header, and header plus payload bits
/// must fit the capacity.
pub open spec fn fits(n: int, cap: int) -> bool {
    n <= u32::MAX && 32 + 8 * n <= cap
}

/// The carrier buffer after embedding: each channel byte covered by the
/// frame carries one frame bit in its least-significant bit; channel
/// bytes beyond the frame are untouched.
pub open spec fn embedded_seq(buf: Seq<u8>, payload: Seq<u8>) -> Seq<u8> {
    Seq::new(
        buf.len(),
        |i: int|
            if i < frame_bits(payload).len() {
                with_lsb(buf[i], frame_bits(payload)[i])
            } else {
                buf[i]
            },
    )
}

/// The least-significant bits of a buffer's channel bytes.
pub open spec fn lsb_bits(buf: Seq<u8>) -> Seq<u8> {
    Seq::new(buf.len(), |i: int| (buf[i] as int % 2) as u8)
}

/// The payload length declared by a buffer's 32-bit big-endian header.
pub open spec fn header_value(buf: Seq<u8>) -> int
    recommends
        buf.len() >= 32,
{
    bits_value(lsb_bits(buf).take(32))
}

/// Byte `i` of the payload carried by a buffer, packed from the eight
/// least-significant bits that follow the header.
pub open spec fn payload_byte(buf: Seq<u8>, i: int) -> u8 {
    bits_value(lsb_bits(buf).subrange(32 + 8 * i, 32 + 8 * i + 8)) as u8
}

/// The payload a buffer carries, of the length its header declares.
pub open spec fn extracted_payload(buf: Seq<u8>) -> Seq<u8>
    recommends
        buf.len() >= 32,
        32 + 8 * header_value(buf) <= buf.len(),
{
    Seq::new(header_value(buf) as nat, |i: int| payload_byte(buf, i))
}

/// Embeds the framed payload into the least-significant bits of the
/// store's channel bytes, in row-major channel order.  Leaves the store
/// untouched and fails with `CapacityError` exactly when the framed
/// payload does not fit the image's bit capacity.
pub fn embed_payload(store: &mut PixelChannelStore, payload: &Vec<u8>) -> (r: Result<
    (),
    StegoError,
>)
    ensures
        final(store).width == old(store).width,
        final(store).height == old(store).height,
        fits(payload@.len() as int, old(store)@.len() as int) ==> r is Ok && final(store)@
            == embedded_seq(old(store)@, payload@),
        !fits(payload@.len() as int, old(store)@.len() as int) ==> (r matches Err(e) && e
            is CapacityError && e.detail() == "secret data too large to encode in image"@
            && final(store)@ == old(store)@),
{
    let cap = store.capacity();
    let n = payload.len();
    proof {
        lemma_fundamental_div_mod(cap as int, 8);
    }
    // Conservative pre-check that ignores the 32-bit header cost; the
    // strict check below decides.
    if n > cap / 8 {
        return Err(
            StegoError::CapacityError("secret data too large to encode in image".to_owned()),
        );
    }
    proof {
        if cap >= 32 {
            lemma_fundamental_div_mod((cap - 32) as int, 8);
        }
    }
    // Strict check: the header plus the payload bits must fit.
    if cap < 32 || n > (cap - 32) / 8 || n as u64 > u32::MAX as u64 {
        return Err(
            StegoError::CapacityError("secret data too large to encode in image".to_owned()),
        );
    }
    let n32: u32 = n as u32;
    proof {
        lemma_fundamental_div_mod(n32 as int, 0x1000000);
    }
    let mut framed: Vec<u8> = Vec::new();
    framed.push((n32 / 0x1000000) as u8);
    framed.push(((n32 / 0x10000) % 256) as u8);
    framed.push(((n32 / 256) % 256) as u8);
    framed.push((n32 % 256) as u8);
    proof {
        assert(framed@ =~= be32_bytes(n32));
    }
    let mut k: usize = 0;
    while k < n
        invariant
            k <= n,
            n == payload.len(),
            framed@ == be32_bytes(n32) + payload@.take(k as int),
        decreases n - k,
    {
        framed.push(payload[k]);
        proof {
            assert(framed@ =~= be32_bytes(n32) + payload@.take(k + 1));
        }
        k += 1;
    }
    proof {
        assert(payload@.take(n as int) =~= payload@);
        assert(framed@ =~= frame_bytes(payload@));
    }
    let total: usize = 32 + n * 8;
    let ghost buf0 = store@;
    proof {
        assert(frame_bits(payload@).len() == (4 + n) * 8);
    }
    let mut i: usize = 0;
    while i < total
        invariant
            i <= total,
            total == 32 + n * 8,
            n == payload.len(),
            total <= buf0.len(),
            store@.len() == buf0.len(),
            store.width == old(store).width,
            store.height == old(store).height,
            framed@ == frame_bytes(payload@),
            framed@.len() == 4 + n,
            total == frame_bits(payload@).len(),
            forall|j: int|
                0 <= j < i ==> store@[j] == with_lsb(buf0[j], frame_bits(payload@)[j]),
            forall|j: int| i <= j < buf0.len() ==> store@[j] == buf0[j],
        decreases total - i,
    {
        proof {
            lemma_fundamental_div_mod(i as int, 8);
        }
        let b = framed[i / 8];
        let w = weight_of(i % 8);
        let bit = (b / w) % 2;
        proof {
            assert(bit == bit_of(frame_bytes(payload@)[i as int / 8], i as int % 8));
            assert(frame_bits(payload@)[i as int] == bit);
        }
        let v = store.read_channel_byte(i);
        proof {
            lemma_fundamental_div_mod(v as int, 2);
        }
        store.write_channel_byte(i, v / 2 * 2 + bit);
        i += 1;
    }
    proof {
        assert(store@ =~= embedded_seq(buf0, payload@));
    }
    Ok(())
}

/// Reads the 32-bit big-endian length header from the least-significant
/// bits of the first 32 channel bytes, then packs the payload bits that
/// follow into bytes.  Fails with `InsufficientDataError` exactly when
/// the buffer holds fewer than 32 bits or fewer bits than the header
/// declares.
pub fn extract_payload(store: &PixelChannelStore) -> (r: Result<Vec<u8>, StegoError>)
    ensures
        match r {
            Ok(s) => store@.len() >= 32 && 32 + 8 * header_value(store@) <= store@.len() && s@
                == extracted_payload(store@),
            Err(e) => e is InsufficientDataError && (store@.len() < 32 || 32 + 8 * header_value(
                store@,
            ) > store@.len()) && e.detail() == (if store@.len() < 32 {
                "image too small or corrupted"@
            } else {
                "image does not contain enough data"@
            }),
        },
{
    let cap = store.capacity();
    if cap < 32 {
        return Err(StegoError::InsufficientDataError("image too small or corrupted".to_owned()));
    }
    let mut n: u32 = 0;
    let mut i: usize = 0;
    proof {
        lemma2_to64();
    }
    while i < 32
        invariant
            i <= 32,
            cap == store@.len(),
            cap >= 32,
            n as int == bits_value(lsb_bits(store@).take(i as int)),
            (n as int) < pow2(i as nat),
        decreases 32 - i,
    {
        let b = store.read_channel_byte(i);
        proof {
            assert(lsb_bits(store@).take(i + 1).drop_last() =~= lsb_bits(store@).take(i as int));
            assert(lsb_bits(store@).take(i + 1).last() == (store@[i as int] as int % 2) as u8);
            lemma_pow2_unfold((i + 1) as nat);
            lemma2_to64();
            if i < 31 {
                lemma_pow2_strictly_increases(i as nat, 31);
            }
        }
        n = n * 2 + (b % 2) as u32;
        i += 1;
    }
    proof {
        assert(lsb_bits(store@).take(32) =~= lsb_bits(store@).take(32int));
        assert(n as int == header_value(store@));
    }
    let declared = n as usize;
    proof {
        lemma_fundamental_div_mod((cap - 32) as int, 8);
    }
    if declared > (cap - 32) / 8 {
        return Err(
            StegoError::InsufficientDataError("image does not contain enough data".to_owned()),
        );
    }
    let mut secret: Vec<u8> = Vec::with_capacity(declared);
    let mut idx: usize = 0;
    while idx < declared
        invariant
            idx <= declared,
            cap == store@.len(),
            declared == header_value(store@),
            32 + 8 * declared <= cap,
            secret@.len() == idx,
            forall|t: int| 0 <= t < idx ==> secret@[t] == payload_byte(store@, t),
        decreases declared - idx,
    {
        let base: usize = 32 + 8 * idx;
        let mut byte: u8 = 0;
        let mut j: usize = 0;
        proof {
            lemma2_to64();
        }
        while j < 8
            invariant
                j <= 8,
                idx < declared,
                base == 32 + 8 * idx,
                32 + 8 * declared <= cap,
                cap == store@.len(),
                byte as int == bits_value(
                    lsb_bits(store@).subrange(base as int, base as int + j as int),
                ),
                (byte as int) < pow2(j as nat),
            decreases 8 - j,
        {
            let b = store.read_channel_byte(base + j);
            proof {
                assert(lsb_bits(store@).subrange(base as int, base + j + 1).drop_last()
                    =~= lsb_bits(store@).subrange(base as int, base + j));
                assert(lsb_bits(store@).subrange(base as int, base + j + 1).last() == (store@[base
                    + j] as int % 2) as u8);
                lemma_pow2_unfold((j + 1) as nat);
                lemma2_to64();
                if j < 7 {
                    lemma_pow2_strictly_increases(j as nat, 7);
                }
            }
            byte = byte * 2 + b % 2;
            j += 1;
        }
        proof {
            assert(byte == payload_byte(store@, idx as int));
        }
        secret.push(byte);
        idx += 1;
    }
    proof {
        lemma_bits_value_nonneg(lsb_bits(store@).take(32));
        assert(secret@ =~= extracted_payload(store@));
    }
    Ok(secret)
}

/// The least-significant bit of an embedded channel byte is exactly the
/// frame bit it carries, and the upper seven bits are preserved.
proof fn lemma_lsb_of_with_lsb(v: u8, bit: u8)
    requires
        bit < 2,
    ensures
        with_lsb(v, bit) as int % 2 == bit,
        with_lsb(v, bit) as int / 2 == v as int / 2,
{
    lemma_fundamental_div_mod(v as int, 2);
    let k = v as int / 2;
    assert((k * 2 + bit) % 2 == bit && (k * 2 + bit) / 2 == k) by (nonlinear_arith)
        requires
            0 <= bit < 2,
            0 <= k,
    ;
}

/// Round trip at the carrier-buffer level: when a payload's frame fits a
/// buffer, the embedded buffer's header declares the payload's length,
/// and extraction returns exactly the payload, whatever the carrier
/// bytes were.
pub proof fn lemma_embed_extract_round_trip(buf: Seq<u8>, payload: Seq<u8>)
    requires
        fits(payload.len() as int, buf.len() as int),
    ensures
        embedded_seq(buf, payload).len() == buf.len(),
        header_value(embedded_seq(buf, payload)) == payload.len(),
        32 + 8 * header_value(embedded_seq(buf, payload)) <= buf.len(),
        extracted_payload(embedded_seq(buf, payload)) == payload,
{
    let e = embedded_seq(buf, payload);
    let n32 = payload.len() as u32;
    let fb = frame_bits(payload);
    let total = 32 + 8 * payload.len() as int;
    assert(frame_bytes(payload).len() == 4 + payload.len());
    assert(fb.len() == total);
    assert forall|i: int| 0 <= i < total implies lsb_bits(e)[i] == fb[i] && fb[i] < 2 by {
        assert(fb[i] == bit_of(frame_bytes(payload)[i / 8], i % 8));
        assert(fb[i] < 2);
        lemma_lsb_of_with_lsb(buf[i], fb[i]);
    }
    assert(lsb_bits(e).take(32) =~= bits_of_bytes(be32_bytes(n32))) by {
        assert forall|i: int| 0 <= i < 32 implies lsb_bits(e).take(32)[i] == bits_of_bytes(
            be32_bytes(n32),
        )[i] by {
            lemma_fundamental_div_mod(i, 8);
            assert(frame_bytes(payload)[i / 8] == be32_bytes(n32)[i / 8]);
        }
    }
    lemma_be32_bits_value(n32);
    assert(header_value(e) == payload.len());
    assert forall|t: int| 0 <= t < payload.len() implies payload_byte(e, t) == payload[t] by {
        let sub = lsb_bits(e).subrange(32 + 8 * t, 32 + 8 * t + 8);
        assert(sub =~= byte_bits(payload[t])) by {
            assert forall|j: int| 0 <= j < 8 implies sub[j] == byte_bits(payload[t])[j] by {
                let i = 32 + 8 * t + j;
                lemma_fundamental_div_mod_converse(i, 8, 4 + t, j);
                assert(frame_bytes(payload)[4 + t] == payload[t]);
                assert(sub[j] == lsb_bits(e)[i]);
                assert(fb[i] == bit_of(payload[t], j));
            }
        }
        lemma_bits_value_byte(payload[t]);
    }
    assert(extracted_payload(e) =~= payload);
}

/// The RGBA decoding of a byte string, named: `Ok((width, height,
/// channel buffer))` when the bytes parse as a raster image within the
/// reader's default allocation limits, and the diagnostic text
/// otherwise.  Relied on to be a function of the bytes alone.
pub uninterp spec fn rgba_of(bytes: Seq<u8>) -> Result<(u32, u32, Seq<u8>), Seq<char>>;

/// The PNG serialization of an RGBA channel buffer with the given
/// dimensions, named: a function of dimensions and buffer alone.
pub uninterp spec fn png_of(width: u32, height: u32, data: Seq<u8>) -> Seq<u8>;

/// Relies on image::ImageReader (format guessed from the bytes, default
/// allocation limits), decode, and DynamicImage::to_rgba8: decoding is
/// a function of the input bytes alone, and the RGBA buffer holds
/// width * height * 4 channel bytes in row-major order.
#[verifier::external_body]
fn decode_rgba(img_bytes: &[u8]) -> (r: Result<PixelChannelStore, String>)
    ensures
        match r {
            Ok(s) => rgba_of(img_bytes@) == Ok::<(u32, u32, Seq<u8>), Seq<char>>((s.width, s.height, s@)) && s.wf(),
            Err(m) => rgba_of(img_bytes@) == Err::<(u32, u32, Seq<u8>), Seq<char>>(m@),
        },
{
    let reader = image::ImageReader::new(std::io::Cursor::new(img_bytes))
        .with_guessed_format()
        .map_err(|e| format!("image format guess error: {}", e))?;
    let img = reader.decode().map_err(|e| format!("image decode error: {}", e))?.to_rgba8();
    let (width, height) = img.dimensions();
    let data = img.into_raw();
    Ok(PixelChannelStore { width, height, data })
}

/// Relies on image::codecs::png::PngEncoder::write_image: lossless PNG
/// serialization, a function of the dimensions and the buffer alone.
/// With a matching buffer length, serialization to an in-memory vector
/// fails only when the width or the height is zero.  Decoding the
/// produced PNG recovers exactly the same RGBA buffer, provided the
/// buffer stays within the reader's default allocation limit of
/// 512 MiB; a larger stego image is still produced, but the reader
/// refuses to decode it.
#[verifier::external_body]
fn encode_png(width: u32, height: u32, data: &Vec<u8>) -> (r: Result<Vec<u8>, String>)
    requires
        data@.len() == width as int * height as int * 4,
    ensures
        r matches Ok(out) ==> out@ == png_of(width, height, data@) && (data@.len() <= 0x2000_0000
            ==> rgba_of(out@) == Ok::<(u32, u32, Seq<u8>), Seq<char>>((width, height, data@))),
        width >= 1 && height >= 1 ==> r is Ok,
{
    let mut cursor = std::io::Cursor::new(Vec::new());
    let encoder = image::codecs::png::PngEncoder::new(&mut cursor);
    let color = image::ExtendedColorType::Rgba8;
    if let Err(e) = image::ImageEncoder::write_image(encoder, data.as_slice(), width, height, color)
    {
        return Err(format!("image encode error: {}", e));
    }
    Ok(cursor.into_inner())
}

/// Round trip with a password: a framed blob that fits the carrier and
/// authenticates under the password is recovered by extraction and
/// decrypts to the original secret.
pub proof fn lemma_encrypted_round_trip(
    buf: Seq<u8>,
    blob: Seq<u8>,
    secret: Seq<u8>,
    password: Seq<u8>,
)
    requires
        fits(blob.len() as int, buf.len() as int),
        decrypt_spec(blob, password) == Some(secret),
    ensures
        decrypt_spec(extracted_payload(embedded_seq(buf, blob)), password) == Some(secret),
{
    lemma_embed_extract_round_trip(buf, blob);
}

/// Embeds a secret into a carrier image and returns the stego image as
/// PNG bytes.  The carrier is decoded to RGBA (any raster format), the
/// secret is encrypted first when a password is given, and the framed
/// payload is written into the channel bytes' least-significant bits.
pub fn encode_image(img_bytes: &[u8], secret_bytes: &[u8], password: Option<&[u8]>) -> (r: Result<
    Vec<u8>,
    StegoError,
>)
    ensures
        password is None ==> match rgba_of(img_bytes@) {
            Result::Err(d) => r matches Err(e) && e is FormatError && e.detail() == d,
            Result::Ok(t) => if fits(secret_bytes@.len() as int, t.2.len() as int) {
                r matches Ok(out) && out@ == png_of(t.0, t.1, embedded_seq(t.2, secret_bytes@)) && (
                t.2.len() <= 0x2000_0000 ==> rgba_of(out@) == Ok::<(u32, u32, Seq<u8>), Seq<char>>(
                    (t.0, t.1, embedded_seq(t.2, secret_bytes@)),
                ))
            } else {
                r matches Err(e) && e is CapacityError && e.detail()
                    == "secret data too large to encode in image"@
            },
        },
        password matches Some(pw) ==> match r {
            Ok(out) => rgba_of(img_bytes@) matches Ok(t) && (exists|blob: Seq<u8>|
                decrypt_spec(blob, pw@) == Some(secret_bytes@) && blob.len() == secret_bytes@.len()
                    + 28 && fits(blob.len() as int, t.2.len() as int) && out@ == png_of(
                    t.0,
                    t.1,
                    #[trigger] embedded_seq(t.2, blob),
                ) && (t.2.len() <= 0x2000_0000 ==> rgba_of(out@) == Ok::<(u32, u32, Seq<u8>), Seq<char>>(
                    (t.0, t.1, embedded_seq(t.2, blob)),
                ))),
            Err(e) => (e is EncryptionError && secret_bytes@.len() > 0x10_0000_0000 && e.detail()
                == "encryption error"@) || (e is FormatError && secret_bytes@.len()
                <= 0x10_0000_0000 && (rgba_of(img_bytes@) matches Err(d) && e.detail() == d)) || (e
                is CapacityError && secret_bytes@.len() <= 0x10_0000_0000 && (rgba_of(img_bytes@)
                matches Ok(t) && !fits(secret_bytes@.len() as int + 28, t.2.len() as int))
                && e.detail() == "secret data too large to encode in image"@),
        },
        password is Some ==> ((rgba_of(img_bytes@) matches Ok(t) && fits(
            secret_bytes@.len() as int + 28,
            t.2.len() as int,
        )) ==> r is Ok),
{
    let payload: Vec<u8> = match password {
        Some(pw) => {
            match crate::crypto::encrypt_secret(secret_bytes, pw) {
                Ok(blob) => blob,
                Err(e) => {
                    return Err(e);
                },
            }
        },
        None => vstd::slice::slice_to_vec(secret_bytes),
    };
    let mut store = match decode_rgba(img_bytes) {
        Ok(s) => s,
        Err(m) => {
            return Err(StegoError::FormatError(m));
        },
    };
    let ghost carrier = store@;
    if let Err(e) = embed_payload(&mut store, &payload) {
        return Err(e);
    }
    match encode_png(store.width, store.height, &store.data) {
        Ok(out) => {
            proof {
                if let Some(pw) = password {
                    let t = rgba_of(img_bytes@)->Ok_0;
                    assert(t == (store.width, store.height, carrier));
                    assert(embedded_seq(t.2, payload@) == embedded_seq(carrier, payload@));
                    assert(out@ == png_of(t.0, t.1, embedded_seq(t.2, payload@)));
                    assert(t.2.len() <= 0x2000_0000 ==> rgba_of(out@) == Ok::<(u32, u32, Seq<u8>), Seq<char>>(
                        (t.0, t.1, embedded_seq(t.2, payload@)),
                    ));
                    assert(fits(payload@.len() as int, t.2.len() as int));
                    assert(exists|blob: Seq<u8>|
                        decrypt_spec(blob, pw@) == Some(secret_bytes@) && blob.len()
                            == secret_bytes@.len() + 28 && fits(
                            blob.len() as int,
                            t.2.len() as int,
                        ) && out@ == png_of(t.0, t.1, #[trigger] embedded_seq(t.2, blob)) && (
                        t.2.len() <= 0x2000_0000 ==> rgba_of(out@) == Ok::<(u32, u32, Seq<u8>), Seq<char>>(
                            (t.0, t.1, embedded_seq(t.2, blob)),
                        )));
                }
            }
            Ok(out)
        },
        Err(m) => {
            proof {
                // Unreachable: the frame fit, so the image holds at
                // least 32 channel bytes and is not zero-sized, and a
                // nonempty RGBA buffer always serializes.
                assert(store@.len() >= 32);
                assert(store.width >= 1 && store.height >= 1) by (nonlinear_arith)
                    requires
                        store.width as int * store.height as int * 4 >= 32,
                ;
                assert(false);
            }
            Err(StegoError::EncodeError(m))
        },
    }
}

/// Recovers the secret embedded in a stego image: decodes the image,
/// reads the length header and payload from the channel bytes'
/// least-significant bits, and, when a password is given, authenticates
/// and decrypts the payload.
pub fn decode_image(img_bytes: &[u8], password: Option<&[u8]>) -> (r: Result<Vec<u8>, StegoError>)
    ensures
        match rgba_of(img_bytes@) {
            Result::Err(d) => r matches Err(e) && e is FormatError && e.detail() == d,
            Result::Ok(t) => if t.2.len() < 32 || 32 + 8 * header_value(t.2) > t.2.len() {
                r matches Err(e) && e is InsufficientDataError && e.detail() == (if t.2.len() < 32 {
                    "image too small or corrupted"@
                } else {
                    "image does not contain enough data"@
                })
            } else {
                match password {
                    Option::None => r matches Ok(s) && s@ == extracted_payload(t.2),
                    Option::Some(pw) => match decrypt_spec(extracted_payload(t.2), pw@) {
                        Option::Some(p) => r matches Ok(s) && s@ == p,
                        Option::None => r matches Err(e) && e is DecryptionError && e.detail() == (
                        if extracted_payload(t.2).len() < 12 {
                            "encrypted data too short"@
                        } else {
                            "decryption error: wrong password or corrupted data"@
                        }),
                    },
                }
            },
        },
{
    let store = match decode_rgba(img_bytes) {
        Ok(s) => s,
        Err(m) => {
            return Err(StegoError::FormatError(m));
        },
    };
    let extracted = match extract_payload(&store) {
        Ok(s) => s,
        Err(e) => {
            return Err(e);
        },
    };
    match password {
        Some(pw) => crate::crypto::decrypt_secret(extracted.as_slice(), pw),
        None => Ok(extracted),
    }
}

} // verus!
