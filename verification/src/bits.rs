use vstd::prelude::*;
use vstd::arithmetic::div_mod::lemma_div_denominator;
use vstd::arithmetic::div_mod::lemma_fundamental_div_mod;
use vstd::arithmetic::div_mod::lemma_fundamental_div_mod_converse;
use vstd::arithmetic::power2::lemma2_to64;
use vstd::arithmetic::power2::lemma_pow2_strictly_increases;
use vstd::arithmetic::power2::lemma_pow2_unfold;
use vstd::arithmetic::power2::pow2;

verus! {

/// Weight of bit position `j` within a byte, counting from the most
/// significant bit: 2^(7-j).
pub open spec fn msb_weight(j: int) -> int {
    if j == 0 {
        128
    } else if j == 1 {
        64
    } else if j == 2 {
        32
    } else if j == 3 {
        16
    } else if j == 4 {
        8
    } else if j == 5 {
        4
    } else if j == 6 {
        2
    } else {
        1
    }
}

/// Bit `j` of byte `b`, with bit 0 the most significant.
pub open spec fn bit_of(b: u8, j: int) -> u8 {
    ((b as int / msb_weight(j)) % 2) as u8
}

/// The eight bits of one byte, most-significant bit first.
pub open spec fn byte_bits(b: u8) -> Seq<u8> {
    Seq::new(8, |j: int| bit_of(b, j))
}

/// All bits of a byte sequence: eight bits per byte, in byte order,
/// most-significant bit first within each byte.
pub open spec fn bits_of_bytes(bytes: Seq<u8>) -> Seq<u8> {
    Seq::new(bytes.len() * 8, |i: int| bit_of(bytes[i / 8], i % 8))
}

/// The value of a bit string read most-significant bit first.
pub open spec fn bits_value(bits: Seq<u8>) -> int
    decreases bits.len(),
{
    if bits.len() == 0 {
        0
    } else {
        2 * bits_value(bits.drop_last()) + bits.last()
    }
}

/// The big-endian value of a byte string.
pub open spec fn bytes_value(bytes: Seq<u8>) -> int
    decreases bytes.len(),
{
    if bytes.len() == 0 {
        0
    } else {
        256 * bytes_value(bytes.drop_last()) + bytes.last()
    }
}

/// The four big-endian bytes of a 32-bit integer.
pub open spec fn be32_bytes(n: u32) -> Seq<u8> {
    seq![
        (n as int / 0x1000000) as u8,
        ((n as int / 0x10000) % 256) as u8,
        ((n as int / 256) % 256) as u8,
        ((n as int) % 256) as u8,
    ]
}

/// A bit string's value is never negative.
pub proof fn lemma_bits_value_nonneg(bits: Seq<u8>)
    ensures
        0 <= bits_value(bits),
    decreases bits.len(),
{
    if bits.len() > 0 {
        lemma_bits_value_nonneg(bits.drop_last());
    }
}

/// Concatenating bit strings multiplies the left value by 2^(right length).
pub proof fn lemma_bits_value_append(a: Seq<u8>, b: Seq<u8>)
    ensures
        bits_value(a + b) == bits_value(a) * pow2(b.len()) + bits_value(b),
    decreases b.len(),
{
    if b.len() == 0 {
        assert(a + b =~= a);
        assert(pow2(0) == 1) by {
            lemma2_to64();
        }
    } else {
        lemma_bits_value_append(a, b.drop_last());
        assert((a + b).drop_last() =~= a + b.drop_last());
        lemma_pow2_unfold(b.len());
        assert((a + b).last() == b.last());
        assert(2 * (bits_value(a) * pow2((b.len() - 1) as nat)) == bits_value(a) * pow2(
            b.len(),
        )) by (nonlinear_arith)
            requires
                pow2(b.len()) == 2 * pow2((b.len() - 1) as nat),
        ;
    }
}

/// The first `k` bits of a byte are worth the byte's value shifted down
/// by the remaining 8-k positions.
proof fn lemma_byte_bits_prefix_value(b: u8, k: int)
    requires
        0 <= k <= 8,
    ensures
        bits_value(byte_bits(b).take(k)) == b as int / (pow2((8 - k) as nat) as int),
    decreases k,
{
    lemma2_to64();
    if k == 0 {
        assert(byte_bits(b).take(0).len() == 0);
        assert(b as int / 256 == 0);
    } else {
        lemma_byte_bits_prefix_value(b, k - 1);
        let s = byte_bits(b).take(k);
        assert(s.drop_last() =~= byte_bits(b).take(k - 1));
        assert(s.last() == bit_of(b, k - 1));
        let p = pow2((8 - k) as nat) as int;
        let q = pow2((9 - k) as nat) as int;
        assert(msb_weight(k - 1) == p);
        assert(q == 2 * p) by {
            lemma_pow2_unfold((9 - k) as nat);
        }
        lemma_div_denominator(b as int, p, 2);
        lemma_fundamental_div_mod(b as int / p, 2);
    }
}

/// Reading a byte's eight bits back most-significant-first recovers the byte.
pub proof fn lemma_bits_value_byte(b: u8)
    ensures
        bits_value(byte_bits(b)) == b,
{
    lemma_byte_bits_prefix_value(b, 8);
    assert(byte_bits(b).take(8) =~= byte_bits(b));
    assert(pow2(0) == 1) by {
        lemma2_to64();
    }
    assert(b as int / 1 == b as int);
}

/// Appending one byte appends its eight bits.
pub proof fn lemma_bits_of_bytes_push(bytes: Seq<u8>, b: u8)
    ensures
        bits_of_bytes(bytes.push(b)) == bits_of_bytes(bytes) + byte_bits(b),
{
    let lhs = bits_of_bytes(bytes.push(b));
    let rhs = bits_of_bytes(bytes) + byte_bits(b);
    assert(lhs.len() == rhs.len());
    assert forall|i: int| 0 <= i < lhs.len() implies lhs[i] == rhs[i] by {
        lemma_fundamental_div_mod(i, 8);
        if i < 8 * bytes.len() {
            assert(i / 8 < bytes.len());
            assert(bytes.push(b)[i / 8] == bytes[i / 8]);
        } else {
            assert(i / 8 == bytes.len());
            assert(bytes.push(b)[i / 8] == b);
            assert(i % 8 == i - 8 * bytes.len());
        }
    }
    assert(lhs =~= rhs);
}

/// The bits of a byte string are worth its big-endian byte value.
pub proof fn lemma_bits_value_of_bytes(bytes: Seq<u8>)
    ensures
        bits_value(bits_of_bytes(bytes)) == bytes_value(bytes),
    decreases bytes.len(),
{
    if bytes.len() == 0 {
        assert(bits_of_bytes(bytes) =~= Seq::<u8>::empty());
    } else {
        let dl = bytes.drop_last();
        let l = bytes.last();
        lemma_bits_value_of_bytes(dl);
        assert(dl.push(l) =~= bytes);
        lemma_bits_of_bytes_push(dl, l);
        lemma_bits_value_append(bits_of_bytes(dl), byte_bits(l));
        lemma_bits_value_byte(l);
        assert(pow2(8) == 256) by {
            lemma2_to64();
        }
        assert(bits_of_bytes(bytes) == bits_of_bytes(dl) + byte_bits(l));
        assert(byte_bits(l).len() == 8);
        assert(bits_value(bits_of_bytes(bytes)) == bytes_value(dl) * 256 + l);
        assert(bytes_value(bytes) == 256 * bytes_value(dl) + l);
    }
}

/// The big-endian bytes of a 32-bit integer are worth that integer.
pub proof fn lemma_bytes_value_be32(n: u32)
    ensures
        bytes_value(be32_bytes(n)) == n,
{
    let s = be32_bytes(n);
    lemma_fundamental_div_mod(n as int, 0x1000000);
    assert(n as int / 0x1000000 < 256);
    let b0 = n as int / 0x1000000;
    let b1 = (n as int / 0x10000) % 256;
    let b2 = (n as int / 256) % 256;
    let b3 = n as int % 256;
    assert(s[0] == b0 && s[1] == b1 && s[2] == b2 && s[3] == b3);
    let t3 = seq![s[0], s[1], s[2]];
    let t2 = seq![s[0], s[1]];
    let t1 = seq![s[0]];
    assert(s.drop_last() =~= t3);
    assert(t3.drop_last() =~= t2);
    assert(t2.drop_last() =~= t1);
    assert(t1.drop_last() =~= Seq::<u8>::empty());
    assert(bytes_value(Seq::<u8>::empty()) == 0);
    assert(bytes_value(t1) == b0);
    assert(bytes_value(t2) == 256 * b0 + b1);
    assert(bytes_value(t3) == 256 * (256 * b0 + b1) + b2);
    assert(bytes_value(s) == 256 * (256 * (256 * b0 + b1) + b2) + b3);
    lemma_fundamental_div_mod(n as int, 256);
    lemma_div_denominator(n as int, 256, 256);
    lemma_fundamental_div_mod(n as int / 256, 256);
    lemma_div_denominator(n as int, 0x10000, 256);
    lemma_fundamental_div_mod(n as int / 0x10000, 256);
}

/// The 32 bits of a big-endian length header are worth the length itself.
pub proof fn lemma_be32_bits_value(n: u32)
    ensures
        bits_of_bytes(be32_bytes(n)).len() == 32,
        bits_value(bits_of_bytes(be32_bytes(n))) == n,
{
    lemma_bits_value_of_bytes(be32_bytes(n));
    lemma_bytes_value_be32(n);
}

/// The bytes packed from a bit string, eight bits per byte,
/// most-significant bit first.
pub open spec fn packed_bytes(bits: Seq<u8>) -> Seq<u8> {
    Seq::new(bits.len() / 8, |t: int| bits_value(bits.subrange(8 * t, 8 * t + 8)) as u8)
}

/// Packing undoes unpacking: the bytes packed from a byte string's bits
/// are the byte string itself.
pub proof fn lemma_pack_unpack(bytes: Seq<u8>)
    ensures
        packed_bytes(bits_of_bytes(bytes)) == bytes,
{
    let bits = bits_of_bytes(bytes);
    assert(bits.len() / 8 == bytes.len());
    assert forall|t: int| 0 <= t < bytes.len() implies packed_bytes(bits)[t] == bytes[t] by {
        assert(bits.subrange(8 * t, 8 * t + 8) =~= byte_bits(bytes[t])) by {
            assert forall|j: int| 0 <= j < 8 implies bits.subrange(8 * t, 8 * t + 8)[j]
                == byte_bits(bytes[t])[j] by {
                let i = 8 * t + j;
                lemma_fundamental_div_mod_converse(i, 8, t, j);
            }
        }
        lemma_bits_value_byte(bytes[t]);
    }
    assert(packed_bytes(bits) =~= bytes);
}

/// The weight 2^(7-j) of bit position `j` within a byte.
pub fn weight_of(j: usize) -> (w: u8)
    requires
        j < 8,
    ensures
        w as int == msb_weight(j as int),
        w >= 1,
{
    if j == 0 {
        128
    } else if j == 1 {
        64
    } else if j == 2 {
        32
    } else if j == 3 {
        16
    } else if j == 4 {
        8
    } else if j == 5 {
        4
    } else if j == 6 {
        2
    } else {
        1
    }
}

/// Unpacks a byte string into its bits, eight per byte,
/// most-significant bit first.  Deterministic; the result holds
/// `8 * len(bytes)` entries, each 0 or 1.
pub fn bytes_to_bits(bytes: &Vec<u8>) -> (r: Vec<u8>)
    requires
        bytes@.len() * 8 <= usize::MAX,
    ensures
        r@ == bits_of_bytes(bytes@),
{
    let mut r: Vec<u8> = Vec::new();
    let mut k: usize = 0;
    while k < bytes.len()
        invariant
            k <= bytes.len(),
            bytes@.len() * 8 <= usize::MAX,
            r@ == bits_of_bytes(bytes@.take(k as int)),
            r@.len() == 8 * k,
        decreases bytes.len() - k,
    {
        let b = bytes[k];
        let mut j: usize = 0;
        while j < 8
            invariant
                j <= 8,
                k < bytes@.len(),
                b == bytes@[k as int],
                r@ == bits_of_bytes(bytes@.take(k as int)) + byte_bits(b).take(j as int),
                r@.len() == 8 * k + j,
            decreases 8 - j,
        {
            r.push((b / weight_of(j)) % 2);
            proof {
                assert(r@ =~= bits_of_bytes(bytes@.take(k as int)) + byte_bits(b).take(j + 1));
            }
            j += 1;
        }
        proof {
            lemma_bits_of_bytes_push(bytes@.take(k as int), b);
            assert(bytes@.take(k as int).push(b) =~= bytes@.take(k + 1));
            assert(byte_bits(b).take(8) =~= byte_bits(b));
        }
        k += 1;
    }
    proof {
        assert(bytes@.take(bytes@.len() as int) =~= bytes@);
    }
    r
}

/// Packs a bit string back into bytes, eight bits per byte,
/// most-significant bit first: the inverse of `bytes_to_bits`.  The
/// caller guarantees, through framing, that the bit count is a multiple
/// of eight; only each bit's lowest binary digit is read.
pub fn bits_to_bytes(bits: &Vec<u8>) -> (r: Vec<u8>)
    requires
        bits@.len() % 8 == 0,
        forall|i: int| 0 <= i < bits@.len() ==> bits@[i] < 2,
    ensures
        r@ == packed_bytes(bits@),
{
    let count = bits.len() / 8;
    proof {
        lemma_fundamental_div_mod(bits@.len() as int, 8);
        lemma2_to64();
    }
    let mut r: Vec<u8> = Vec::new();
    let mut t: usize = 0;
    while t < count
        invariant
            t <= count,
            count == bits@.len() / 8,
            8 * count == bits@.len(),
            bits@.len() <= usize::MAX,
            forall|i: int| 0 <= i < bits@.len() ==> bits@[i] < 2,
            r@.len() == t,
            forall|u: int| 0 <= u < t ==> r@[u] == packed_bytes(bits@)[u],
        decreases count - t,
    {
        let mut byte: u8 = 0;
        let mut j: usize = 0;
        proof {
            lemma2_to64();
        }
        while j < 8
            invariant
                j <= 8,
                t < count,
                8 * count == bits@.len(),
                bits@.len() <= usize::MAX,
                forall|i: int| 0 <= i < bits@.len() ==> bits@[i] < 2,
                byte as int == bits_value(bits@.subrange(8 * t, 8 * t + j)),
                (byte as int) < pow2(j as nat),
            decreases 8 - j,
        {
            let b = bits[8 * t + j];
            proof {
                assert(bits@.subrange(8 * t, 8 * t + j + 1).drop_last() =~= bits@.subrange(
                    8 * t,
                    8 * t + j,
                ));
                assert(bits@.subrange(8 * t, 8 * t + j + 1).last() == bits@[8 * t + j]);
                lemma_pow2_unfold((j + 1) as nat);
                lemma2_to64();
                if j < 7 {
                    lemma_pow2_strictly_increases(j as nat, 7);
                }
            }
            byte = byte * 2 + b;
            j += 1;
        }
        r.push(byte);
        t += 1;
    }
    proof {
        assert(r@ =~= packed_bytes(bits@));
    }
    r
}

} // verus!
