//! The perceptual fingerprint: an average hash over an 8×8 luminance thumbnail.

use vstd::prelude::*;

verus! {

/// The side of the thumbnail that is hashed.
pub const THUMBNAIL_SIDE: u32 = 8;

/// The number of pixels of the thumbnail.
pub const THUMBNAIL_PIXELS: usize = 64;

/// The number of bytes of a fingerprint.
pub const FINGERPRINT_BYTES: usize = 8;

/// The sum of the luminances of `luma`.
pub open spec fn total(luma: Seq<u8>) -> int
    decreases luma.len(),
{
    if luma.len() == 0 {
        0
    } else {
        total(luma.drop_last()) + luma.last()
    }
}

/// The mean luminance of `luma`, rounded down; 0 for no pixels.
pub open spec fn mean(luma: Seq<u8>) -> int {
    if luma.len() == 0 {
        0
    } else {
        total(luma) / (luma.len() as int)
    }
}

/// Whether pixel `k` of `luma` is brighter than the mean.
pub open spec fn above_mean(luma: Seq<u8>, k: int) -> bool {
    luma[k] > mean(luma)
}

/// Whether bit `i` of `byte` is set, bit 0 being the lowest.
pub open spec fn bit(byte: u8, i: int) -> bool {
    (byte >> (i as u8)) & 1 == 1
}

/// The value of bit `i` of a byte.
pub open spec fn bit_weight(i: int) -> int {
    if i == 0 {
        1
    } else if i == 1 {
        2
    } else if i == 2 {
        4
    } else if i == 3 {
        8
    } else if i == 4 {
        16
    } else if i == 5 {
        32
    } else if i == 6 {
        64
    } else {
        128
    }
}

/// Byte `j` of the hash with only its lowest `bits` bits filled in: bit `i` stands
/// for pixel `8 * j + i`.
pub open spec fn partial_byte(luma: Seq<u8>, j: int, bits: int) -> int
    decreases bits,
{
    if bits <= 0 {
        0
    } else {
        partial_byte(luma, j, bits - 1) + if above_mean(luma, 8 * j + bits - 1) {
            bit_weight(bits - 1)
        } else {
            0
        }
    }
}

/// The fingerprint of a thumbnail of 64 luminances in row-major order: 8 bytes,
/// where bit `i` of byte `j` is set exactly when pixel `8 * j + i` is brighter than
/// the mean.
pub open spec fn fingerprint_of(luma: Seq<u8>) -> Seq<u8> {
    Seq::new(8, |j: int| partial_byte(luma, j, 8) as u8)
}

proof fn lemma_total_bound(luma: Seq<u8>)
    ensures
        0 <= total(luma) <= 255 * luma.len(),
    decreases luma.len(),
{
    if luma.len() > 0 {
        lemma_total_bound(luma.drop_last());
    }
}

proof fn lemma_partial_bound(luma: Seq<u8>, j: int, bits: int)
    requires
        0 <= bits <= 8,
    ensures
        0 <= partial_byte(luma, j, bits) < (if bits == 8 {
            256
        } else {
            bit_weight(bits)
        }),
    decreases bits,
{
    if bits > 0 {
        lemma_partial_bound(luma, j, bits - 1);
    }
}

proof fn lemma_shift_is_weight(i: u8)
    requires
        i < 8,
    ensures
        (1u8 << i) == bit_weight(i as int),
{
    assert(i == 0 ==> (1u8 << i) == 1) by (bit_vector);
    assert(i == 1 ==> (1u8 << i) == 2) by (bit_vector);
    assert(i == 2 ==> (1u8 << i) == 4) by (bit_vector);
    assert(i == 3 ==> (1u8 << i) == 8) by (bit_vector);
    assert(i == 4 ==> (1u8 << i) == 16) by (bit_vector);
    assert(i == 5 ==> (1u8 << i) == 32) by (bit_vector);
    assert(i == 6 ==> (1u8 << i) == 64) by (bit_vector);
    assert(i == 7 ==> (1u8 << i) == 128) by (bit_vector);
}

proof fn lemma_set_bit(byte: u8, i: u8)
    requires
        i < 8,
        byte < bit_weight(i as int),
    ensures
        (byte | (1u8 << i)) == byte + bit_weight(i as int),
        forall|k: int| 0 <= k < i ==> #[trigger] bit(byte | (1u8 << i), k) == bit(byte, k),
        bit(byte | (1u8 << i), i as int),
        !bit(byte, i as int),
{
    assert(i < 8 && byte < (1u8 << i) ==> (byte | (1u8 << i)) == byte + (1u8 << i)) by (bit_vector);
    lemma_shift_is_weight(i);
    assert(i < 8 ==> ((byte | (1u8 << i)) >> i) & 1 == 1) by (bit_vector);
    assert(i < 8 && byte < (1u8 << i) ==> (byte >> i) & 1 == 0) by (bit_vector);
    assert forall|k: int| 0 <= k < i implies bit(byte | (1u8 << i), k) == bit(byte, k) by {
        let kk = k as u8;
        assert(kk < i && i < 8 ==> ((byte | (1u8 << i)) >> kk) & 1 == (byte >> kk) & 1)
            by (bit_vector);
    }
}

proof fn lemma_high_bits_clear(byte: u8, i: u8)
    requires
        i < 8,
        byte < bit_weight(i as int),
    ensures
        forall|k: int| i <= k < 8 ==> !bit(byte, k),
{
    lemma_shift_is_weight(i);
    assert forall|k: int| i <= k < 8 implies !bit(byte, k) by {
        let kk = k as u8;
        assert(i <= kk && kk < 8 && byte < (1u8 << i) ==> (byte >> kk) & 1 == 0) by (bit_vector);
    }
}

/// The bits of a partly filled byte are the marks of its pixels: bit `i` below
/// `bits` is set exactly when pixel `8 * j + i` is brighter than the mean, and no
/// higher bit is set.
pub proof fn lemma_partial_bits(luma: Seq<u8>, j: int, bits: int)
    requires
        0 <= bits <= 8,
    ensures
        0 <= partial_byte(luma, j, bits) < 256,
        forall|i: int|
            0 <= i < bits ==> #[trigger] bit(partial_byte(luma, j, bits) as u8, i) == above_mean(
                luma,
                8 * j + i,
            ),
        forall|i: int| bits <= i < 8 ==> !#[trigger] bit(partial_byte(luma, j, bits) as u8, i),
    decreases bits,
{
    lemma_partial_bound(luma, j, bits);
    if bits == 0 {
        assert forall|i: int| 0 <= i < 8 implies !bit(0u8, i) by {
            let ii = i as u8;
            assert(ii < 8 ==> (0u8 >> ii) & 1 == 0) by (bit_vector);
        }
    } else {
        lemma_partial_bits(luma, j, bits - 1);
        lemma_partial_bound(luma, j, bits - 1);
        let lower = partial_byte(luma, j, bits - 1) as u8;
        let top = (bits - 1) as u8;
        lemma_set_bit(lower, top);
        let whole = partial_byte(luma, j, bits) as u8;
        if above_mean(luma, 8 * j + bits - 1) {
            assert(whole == lower | (1u8 << top));
            lemma_partial_bits_high(whole, bits);
        } else {
            assert(whole == lower);
        }
        assert forall|i: int| 0 <= i < bits implies #[trigger] bit(whole, i) == above_mean(
            luma,
            8 * j + i,
        ) by {
            if i < bits - 1 {
                assert(bit(lower, i) == above_mean(luma, 8 * j + i));
                assert(bit(lower | (1u8 << top), i) == bit(lower, i));
            } else {
                assert(i == top as int);
            }
        }
        assert forall|i: int| bits <= i < 8 implies !#[trigger] bit(whole, i) by {
            assert(!bit(lower, i));
        }
    }
}

proof fn lemma_partial_bits_high(byte: u8, bits: int)
    requires
        0 < bits <= 8,
        byte < (if bits == 8 {
            256
        } else {
            bit_weight(bits)
        }),
    ensures
        forall|i: int| bits <= i < 8 ==> !bit(byte, i),
{
    if bits < 8 {
        lemma_high_bits_clear(byte, bits as u8);
    }
}

/// A byte is what its eight bits say.
pub proof fn lemma_bits_decide_byte(a: u8, b: u8)
    requires
        forall|i: int| 0 <= i < 8 ==> bit(a, i) == bit(b, i),
    ensures
        a == b,
{
    assert(bit(a, 0) == bit(b, 0) && bit(a, 1) == bit(b, 1) && bit(a, 2) == bit(b, 2) && bit(a, 3)
        == bit(b, 3) && bit(a, 4) == bit(b, 4) && bit(a, 5) == bit(b, 5) && bit(a, 6) == bit(b, 6)
        && bit(a, 7) == bit(b, 7));
    assert((((a >> 0u8) & 1 == 1) == ((b >> 0u8) & 1 == 1) && ((a >> 1u8) & 1 == 1) == ((b >> 1u8)
        & 1 == 1) && ((a >> 2u8) & 1 == 1) == ((b >> 2u8) & 1 == 1) && ((a >> 3u8) & 1 == 1) == ((b
        >> 3u8) & 1 == 1) && ((a >> 4u8) & 1 == 1) == ((b >> 4u8) & 1 == 1) && ((a >> 5u8) & 1 == 1)
        == ((b >> 5u8) & 1 == 1) && ((a >> 6u8) & 1 == 1) == ((b >> 6u8) & 1 == 1) && ((a >> 7u8)
        & 1 == 1) == ((b >> 7u8) & 1 == 1)) ==> a == b) by (bit_vector);
}

/// Bit `i` of byte `j` of a fingerprint is set exactly when pixel `8 * j + i` of the
/// thumbnail is brighter than its mean.
pub proof fn lemma_fingerprint_bits(luma: Seq<u8>)
    ensures
        fingerprint_of(luma).len() == 8,
        forall|j: int, i: int|
            0 <= j < 8 && 0 <= i < 8 ==> #[trigger] bit(fingerprint_of(luma)[j], i) == above_mean(
                luma,
                8 * j + i,
            ),
{
    assert forall|j: int, i: int| 0 <= j < 8 && 0 <= i < 8 implies #[trigger] bit(
        fingerprint_of(luma)[j],
        i,
    ) == above_mean(luma, 8 * j + i) by {
        lemma_partial_bits(luma, j, 8);
    }
}

/// Two thumbnails whose pixels are brighter than their own mean at the same places
/// have the same fingerprint, byte for byte.
pub proof fn lemma_equal_masks_equal_fingerprints(first: Seq<u8>, second: Seq<u8>)
    requires
        forall|k: int| 0 <= k < 64 ==> above_mean(first, k) == above_mean(second, k),
    ensures
        fingerprint_of(first) == fingerprint_of(second),
{
    lemma_fingerprint_bits(first);
    lemma_fingerprint_bits(second);
    assert forall|j: int| 0 <= j < 8 implies fingerprint_of(first)[j] == fingerprint_of(
        second,
    )[j] by {
        assert forall|i: int| 0 <= i < 8 implies bit(fingerprint_of(first)[j], i) == bit(
            fingerprint_of(second)[j],
            i,
        ) by {
            assert(above_mean(first, 8 * j + i) == above_mean(second, 8 * j + i));
        }
        lemma_bits_decide_byte(fingerprint_of(first)[j], fingerprint_of(second)[j]);
    }
    assert(fingerprint_of(first) =~= fingerprint_of(second));
}

/// The mean luminance of a thumbnail, rounded down.
pub fn mean_luminance(luma: &Vec<u8>) -> (average: u8)
    requires
        luma.len() == THUMBNAIL_PIXELS,
    ensures
        average == mean(luma@),
{
    let mut sum: u32 = 0;
    let mut k: usize = 0;
    while k < 64
        invariant
            luma.len() == 64,
            k <= 64,
            sum == total(luma@.subrange(0, k as int)),
            sum <= 255 * k,
        decreases 64 - k,
    {
        assert(luma@.subrange(0, k + 1).drop_last() =~= luma@.subrange(0, k as int));
        sum = sum + luma[k] as u32;
        k = k + 1;
    }
    assert(luma@.subrange(0, 64) =~= luma@);
    (sum / 64) as u8
}

/// The fingerprint of a thumbnail of 64 luminances in row-major order.
pub fn fingerprint(luma: &Vec<u8>) -> (hash: Vec<u8>)
    requires
        luma.len() == THUMBNAIL_PIXELS,
    ensures
        hash@ == fingerprint_of(luma@),
        hash.len() == FINGERPRINT_BYTES,
        forall|j: int, i: int|
            0 <= j < 8 && 0 <= i < 8 ==> #[trigger] bit(hash[j], i) == above_mean(
                luma@,
                8 * j + i,
            ),
{
    let average = mean_luminance(luma);
    let mut hash: Vec<u8> = Vec::with_capacity(8);
    let mut j: usize = 0;
    while j < 8
        invariant
            luma.len() == 64,
            average == mean(luma@),
            j <= 8,
            hash.len() == j,
            forall|r: int| 0 <= r < j ==> hash[r] == partial_byte(luma@, r, 8) as u8,
        decreases 8 - j,
    {
        let mut byte: u8 = 0;
        let mut i: u8 = 0;
        while i < 8
            invariant
                luma.len() == 64,
                average == mean(luma@),
                j < 8,
                i <= 8,
                byte == partial_byte(luma@, j as int, i as int),
            decreases 8 - i,
        {
            proof {
                lemma_partial_bound(luma@, j as int, i as int);
            }
            if luma[8 * j + i as usize] > average {
                proof {
                    lemma_set_bit(byte, i);
                }
                byte = byte | (1u8 << i);
            }
            i = i + 1;
        }
        hash.push(byte);
        j = j + 1;
    }
    proof {
        assert(hash@ =~= fingerprint_of(luma@));
        lemma_fingerprint_bits(luma@);
    }
    hash
}

} // verus!
