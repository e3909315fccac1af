use vstd::prelude::*;

verus! {

/// Whether bit `k` (counted from the least significant) of `byte` is set.
pub open spec fn bit_of(byte: u8, k: u8) -> bool {
    (byte >> k) & 1u8 == 1u8
}

/// `byte` with bit `k` set to `value`.
pub open spec fn with_bit(byte: u8, k: u8, value: bool) -> u8 {
    if value {
        byte | (1u8 << k)
    } else {
        byte & !(1u8 << k)
    }
}

/// Whether bit `index` of a bitmap is set; bits past the end read as clear.
pub open spec fn bit_at(bits: Seq<u8>, index: int) -> bool {
    0 <= index < 8 * bits.len() && bit_of(bits[index / 8], (index % 8) as u8)
}

/// The bitmap `bits` with bit `index` set to `value`.
pub open spec fn set_bit_at(bits: Seq<u8>, index: int, value: bool) -> Seq<u8> {
    bits.update(index / 8, with_bit(bits[index / 8], (index % 8) as u8, value))
}

/// Writing one bit of a byte changes that bit and no other.
pub proof fn lemma_with_bit(byte: u8, k: u8, value: bool, j: u8)
    requires
        k < 8,
        j < 8,
    ensures
        bit_of(with_bit(byte, k, value), j) == (if j == k {
            value
        } else {
            bit_of(byte, j)
        }),
{
    assert(((byte | (1u8 << k)) >> j) & 1u8 == (if j == k {
        1u8
    } else {
        (byte >> j) & 1u8
    })) by (bit_vector)
        requires
            k < 8,
            j < 8,
    ;
    assert(((byte & !(1u8 << k)) >> j) & 1u8 == (if j == k {
        0u8
    } else {
        (byte >> j) & 1u8
    })) by (bit_vector)
        requires
            k < 8,
            j < 8,
    ;
}

/// Writing one bit of a bitmap changes that bit and no other.
pub proof fn lemma_set_bit_at(bits: Seq<u8>, index: int, value: bool, other: int)
    requires
        0 <= index < 8 * bits.len(),
    ensures
        set_bit_at(bits, index, value).len() == bits.len(),
        bit_at(set_bit_at(bits, index, value), other) == (if other == index {
            value
        } else {
            bit_at(bits, other)
        }),
{
    if 0 <= other < 8 * bits.len() {
        if other / 8 == index / 8 {
            lemma_with_bit(bits[index / 8], (index % 8) as u8, value, (other % 8) as u8);
        }
    }
}

/// No bit of the zero byte is set.
pub proof fn lemma_zero_byte(k: u8)
    requires
        k < 8,
    ensures
        !bit_of(0u8, k),
{
    assert((0u8 >> k) & 1u8 == 0u8) by (bit_vector)
        requires
            k < 8,
    ;
}

/// A byte with every bit set is `0xff`, and only that byte.
pub proof fn lemma_full_byte(byte: u8)
    ensures
        byte == 0xffu8 <==> (forall|k: u8| k < 8 ==> bit_of(byte, k)),
{
    if byte != 0xffu8 {
        assert(!((byte >> 0u8) & 1u8 == 1u8) || !((byte >> 1u8) & 1u8 == 1u8)
            || !((byte >> 2u8) & 1u8
            == 1u8) || !((byte >> 3u8) & 1u8 == 1u8) || !((byte >> 4u8) & 1u8 == 1u8) || !((byte
            >> 5u8) & 1u8 == 1u8) || !((byte >> 6u8) & 1u8 == 1u8) || !((byte >> 7u8) & 1u8 == 1u8))
            by (bit_vector)
            requires
                byte != 0xffu8,
        ;
        assert(!bit_of(byte, 0) || !bit_of(byte, 1) || !bit_of(byte, 2) || !bit_of(byte, 3)
            || !bit_of(byte, 4) || !bit_of(byte, 5) || !bit_of(byte, 6) || !bit_of(byte, 7));
    } else {
        assert forall|k: u8| k < 8 implies bit_of(byte, k) by {
            assert((0xffu8 >> k) & 1u8 == 1u8) by (bit_vector)
                requires
                    k < 8,
            ;
        }
    }
}

/// Reads bit `index` of `bitmap`; a bit past the end reads as clear.
pub fn bitmap_get(bitmap: &[u8], index: usize) -> (set: bool)
    ensures
        set == bit_at(bitmap@, index as int),
{
    let byte_index: usize = index / 8;
    let bit_index: u8 = (index % 8) as u8;
    if byte_index >= bitmap.len() {
        false
    } else {
        let byte: u8 = bitmap[byte_index];
        assert(((byte >> bit_index) & 1u8 != 0u8) == ((byte >> bit_index) & 1u8 == 1u8))
            by (bit_vector);
        (byte >> bit_index) & 1u8 != 0
    }
}

/// Sets bit `index` of `bitmap` to `value`.
pub fn bitmap_set<const N: usize>(bitmap: &mut [u8; N], index: usize, value: bool)
    requires
        index < 8 * N,
    ensures
        final(bitmap)@ == set_bit_at(old(bitmap)@, index as int, value),
{
    let byte_index: usize = index / 8;
    let bit_index: u8 = (index % 8) as u8;
    let byte: u8 = bitmap[byte_index];
    if value {
        bitmap[byte_index] = byte | (1u8 << bit_index);
    } else {
        bitmap[byte_index] = byte & !(1u8 << bit_index);
    }
}

} // verus!
