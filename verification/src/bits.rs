//! Bytes and 32-bit words as sequences of bits, most significant bit first.
use crate::error::EtchError;
use vstd::arithmetic::power2::{lemma2_to64, lemma_pow2_strictly_increases, lemma_pow2_unfold, pow2};
use vstd::prelude::*;

verus! {

/// The `width` lowest binary digits of `value`, the most significant first.
pub open spec fn bits_of(value: nat, width: nat) -> Seq<bool>
    decreases width,
{
    if width == 0 {
        Seq::empty()
    } else {
        bits_of(value / 2, (width - 1) as nat).push(value % 2 == 1)
    }
}

/// The number whose binary digits, the most significant first, are `bits`.
pub open spec fn value_of(bits: Seq<bool>) -> nat
    decreases bits.len(),
{
    if bits.len() == 0 {
        0
    } else {
        2 * value_of(bits.drop_last()) + if bits.last() {
            1nat
        } else {
            0nat
        }
    }
}

/// Eight bits for each byte, in the order of the bytes.
pub open spec fn bytes_to_bits(bytes: Seq<u8>) -> Seq<bool> {
    Seq::new(8 * bytes.len(), |i: int| bits_of(bytes[i / 8] as nat, 8)[i % 8])
}

/// Thirty-two bits for each word, in the order of the words.
pub open spec fn words_to_bits(words: Seq<u32>) -> Seq<bool> {
    Seq::new(32 * words.len(), |i: int| bits_of(words[i / 32] as nat, 32)[i % 32])
}

/// One byte for each group of eight bits; bits after the last whole group do
/// not count.
pub open spec fn bits_to_bytes(bits: Seq<bool>) -> Seq<u8> {
    Seq::new(bits.len() / 8, |k: int| value_of(bits.subrange(8 * k, 8 * k + 8)) as u8)
}

/// One word for each group of thirty-two bits; bits after the last whole
/// group do not count.
pub open spec fn bits_to_words(bits: Seq<bool>) -> Seq<u32> {
    Seq::new(bits.len() / 32, |k: int| value_of(bits.subrange(32 * k, 32 * k + 32)) as u32)
}

/// `bits_of` yields as many digits as it is asked for.
pub proof fn lemma_bits_of_len(value: nat, width: nat)
    ensures
        bits_of(value, width).len() == width,
    decreases width,
{
    if width > 0 {
        lemma_bits_of_len(value / 2, (width - 1) as nat);
    }
}

/// A number of `n` binary digits is below `2^n`.
pub proof fn lemma_value_of_bound(bits: Seq<bool>)
    ensures
        value_of(bits) < pow2(bits.len()),
    decreases bits.len(),
{
    if bits.len() == 0 {
        lemma2_to64();
    } else {
        lemma_value_of_bound(bits.drop_last());
        lemma_pow2_unfold(bits.len());
    }
}

/// The digits of a number that fits into `width` digits give the number back.
pub proof fn lemma_value_of_bits_of(value: nat, width: nat)
    requires
        value < pow2(width),
    ensures
        value_of(bits_of(value, width)) == value,
    decreases width,
{
    if width == 0 {
        lemma2_to64();
    } else {
        lemma_pow2_unfold(width);
        lemma_value_of_bits_of(value / 2, (width - 1) as nat);
        let digits = bits_of(value, width);
        assert(digits.drop_last() =~= bits_of(value / 2, (width - 1) as nat));
    }
}

/// The number that digits stand for has these digits.
pub proof fn lemma_bits_of_value_of(bits: Seq<bool>)
    ensures
        bits_of(value_of(bits), bits.len()) == bits,
    decreases bits.len(),
{
    if bits.len() > 0 {
        lemma_bits_of_value_of(bits.drop_last());
        assert(bits =~= bits.drop_last().push(bits.last()));
    }
}

/// Packing the bits of a byte sequence into bytes gives the sequence back.
pub proof fn lemma_bytes_round_trip(bytes: Seq<u8>)
    ensures
        bits_to_bytes(bytes_to_bits(bytes)) == bytes,
{
    let bits = bytes_to_bits(bytes);
    assert forall|k: int| 0 <= k < bytes.len() implies #[trigger] bits_to_bytes(bits)[k]
        == bytes[k] by {
        lemma_bits_of_len(bytes[k] as nat, 8);
        assert(bits.subrange(8 * k, 8 * k + 8) =~= bits_of(bytes[k] as nat, 8));
        lemma2_to64();
        lemma_value_of_bits_of(bytes[k] as nat, 8);
    }
    assert(bits_to_bytes(bits) =~= bytes);
}

/// Packing the bits of a word sequence into words gives the sequence back.
pub proof fn lemma_words_round_trip(words: Seq<u32>)
    ensures
        bits_to_words(words_to_bits(words)) == words,
{
    let bits = words_to_bits(words);
    assert forall|k: int| 0 <= k < words.len() implies #[trigger] bits_to_words(bits)[k]
        == words[k] by {
        lemma_bits_of_len(words[k] as nat, 32);
        assert(bits.subrange(32 * k, 32 * k + 32) =~= bits_of(words[k] as nat, 32));
        lemma2_to64();
        lemma_value_of_bits_of(words[k] as nat, 32);
    }
    assert(bits_to_words(bits) =~= words);
}

/// Unpacking the bytes that whole groups of eight bits were packed into gives
/// the bits back.
pub proof fn lemma_bits_round_trip(bits: Seq<bool>)
    requires
        bits.len() % 8 == 0,
    ensures
        bytes_to_bits(bits_to_bytes(bits)) == bits,
{
    let bytes = bits_to_bytes(bits);
    assert forall|i: int| 0 <= i < bits.len() implies #[trigger] bytes_to_bits(bytes)[i]
        == bits[i] by {
        let k = i / 8;
        let group = bits.subrange(8 * k, 8 * k + 8);
        lemma_value_of_bound(group);
        lemma2_to64();
        lemma_bits_of_value_of(group);
        assert(group[i % 8] == bits[i]);
    }
    assert(bytes_to_bits(bytes) =~= bits);
}

/// Packing bits into bytes goes group by group: after whole groups of eight
/// bits, the bits that follow are packed as they are alone.
pub proof fn lemma_bits_to_bytes_add(first: Seq<bool>, second: Seq<bool>)
    requires
        first.len() % 8 == 0,
    ensures
        bits_to_bytes(first + second) == bits_to_bytes(first) + bits_to_bytes(second),
{
    let both = first + second;
    let groups = first.len() / 8;
    assert forall|k: int| 0 <= k < both.len() / 8 implies #[trigger] bits_to_bytes(both)[k] == (
    bits_to_bytes(first) + bits_to_bytes(second))[k] by {
        if k < groups {
            assert(both.subrange(8 * k, 8 * k + 8) =~= first.subrange(8 * k, 8 * k + 8));
        } else {
            assert(both.subrange(8 * k, 8 * k + 8) =~= second.subrange(
                8 * (k - groups),
                8 * (k - groups) + 8,
            ));
        }
    }
    assert(bits_to_bytes(both) =~= bits_to_bytes(first) + bits_to_bytes(second));
}

/// Appends the eight bits of `byte`.
fn push_byte(bits: &mut Vec<bool>, byte: u8)
    ensures
        final(bits)@ == old(bits)@ + bits_of(byte as nat, 8),
{
    let mut i: u32 = 8;
    while i > 0
        invariant
            i <= 8,
            bits@ == old(bits)@ + bits_of((byte >> i) as nat, (8 - i) as nat),
        decreases i,
    {
        i -= 1;
        let bit = (byte >> i) & 1 != 0;
        proof {
            let next = (i + 1) as u32;
            assert((byte >> i) / 2 == byte >> next) by (bit_vector)
                requires
                    i < 8,
                    next == i + 1,
            ;
            assert(((byte >> i) & 1 != 0) == ((byte >> i) % 2 == 1)) by (bit_vector);
            assert(bits_of((byte >> i) as nat, (8 - i) as nat) == bits_of(
                (byte >> next) as nat,
                (8 - next) as nat,
            ).push(bit));
        }
        bits.push(bit);
        assert(bits@ =~= old(bits)@ + bits_of((byte >> i) as nat, (8 - i) as nat));
    }
    assert(byte >> 0u32 == byte) by (bit_vector);
}

/// Appends the thirty-two bits of `word`.
fn push_word(bits: &mut Vec<bool>, word: u32)
    ensures
        final(bits)@ == old(bits)@ + bits_of(word as nat, 32),
{
    let mut i: u32 = 32;
    while i > 0
        invariant
            i <= 32,
            bits@ == old(bits)@ + bits_of((word >> i) as nat, (32 - i) as nat),
        decreases i,
    {
        i -= 1;
        let bit = (word >> i) & 1 != 0;
        proof {
            let next = (i + 1) as u32;
            assert((word >> i) / 2 == word >> next) by (bit_vector)
                requires
                    i < 32,
                    next == i + 1,
            ;
            assert(((word >> i) & 1 != 0) == ((word >> i) % 2 == 1)) by (bit_vector);
            assert(bits_of((word >> i) as nat, (32 - i) as nat) == bits_of(
                (word >> next) as nat,
                (32 - next) as nat,
            ).push(bit));
        }
        bits.push(bit);
        assert(bits@ =~= old(bits)@ + bits_of((word >> i) as nat, (32 - i) as nat));
    }
    assert(word >> 0u32 == word) by (bit_vector);
}

/// The bits of a byte sequence: eight for each byte, the most significant
/// first. Never fails.
pub fn rip_binary(byte_data: Vec<u8>) -> (result: Result<Vec<bool>, EtchError>)
    ensures
        result is Ok,
        result->Ok_0@ == bytes_to_bits(byte_data@),
{
    let mut binary_data: Vec<bool> = Vec::new();
    let mut n: usize = 0;
    while n < byte_data.len()
        invariant
            n <= byte_data.len(),
            binary_data@ == bytes_to_bits(byte_data@.take(n as int)),
        decreases byte_data.len() - n,
    {
        let byte = byte_data[n];
        push_byte(&mut binary_data, byte);
        proof {
            lemma_bits_of_len(byte as nat, 8);
            assert(binary_data@ =~= bytes_to_bits(byte_data@.take(n + 1)));
        }
        n += 1;
    }
    assert(byte_data@.take(n as int) =~= byte_data@);
    Ok(binary_data)
}

/// The bits of a word sequence: thirty-two for each word, the most
/// significant first. Never fails.
pub fn rip_binary_u32(bytes: Vec<u32>) -> (result: Result<Vec<bool>, EtchError>)
    ensures
        result is Ok,
        result->Ok_0@ == words_to_bits(bytes@),
{
    let mut binary_data: Vec<bool> = Vec::new();
    let mut n: usize = 0;
    while n < bytes.len()
        invariant
            n <= bytes.len(),
            binary_data@ == words_to_bits(bytes@.take(n as int)),
        decreases bytes.len() - n,
    {
        let word = bytes[n];
        push_word(&mut binary_data, word);
        proof {
            lemma_bits_of_len(word as nat, 32);
            assert(binary_data@ =~= words_to_bits(bytes@.take(n + 1)));
        }
        n += 1;
    }
    assert(bytes@.take(n as int) =~= bytes@);
    Ok(binary_data)
}

/// The byte that the eight bits from `start` on stand for.
fn pack_byte(bits: &Vec<bool>, start: usize) -> (byte: u8)
    requires
        start + 8 <= bits.len(),
    ensures
        byte == value_of(bits@.subrange(start as int, start + 8)),
{
    let mut byte: u8 = 0;
    let mut j: usize = 0;
    while j < 8
        invariant
            j <= 8,
            start + 8 <= bits.len(),
            byte == value_of(bits@.subrange(start as int, start + j)),
        decreases 8 - j,
    {
        let bit = bits[start + j];
        proof {
            let done = bits@.subrange(start as int, start + j);
            let more = bits@.subrange(start as int, start + j + 1);
            lemma_value_of_bound(done);
            lemma_value_of_bound(more);
            lemma2_to64();
            if j < 7 {
                lemma_pow2_strictly_increases(j as nat, 7);
            }
            if j + 1 < 8 {
                lemma_pow2_strictly_increases((j + 1) as nat, 8);
            }
            assert(more.drop_last() =~= done);
            assert(byte << 1u32 == 2 * byte) by (bit_vector)
                requires
                    byte < 128,
            ;
        }
        byte = (byte << 1u32) + if bit {
            1
        } else {
            0
        };
        j += 1;
    }
    byte
}

/// The word that the thirty-two bits from `start` on stand for.
fn pack_word(bits: &Vec<bool>, start: usize) -> (word: u32)
    requires
        start + 32 <= bits.len(),
    ensures
        word == value_of(bits@.subrange(start as int, start + 32)),
{
    let mut word: u32 = 0;
    let mut j: usize = 0;
    while j < 32
        invariant
            j <= 32,
            start + 32 <= bits.len(),
            word == value_of(bits@.subrange(start as int, start + j)),
        decreases 32 - j,
    {
        let bit = bits[start + j];
        proof {
            let done = bits@.subrange(start as int, start + j);
            let more = bits@.subrange(start as int, start + j + 1);
            lemma_value_of_bound(done);
            lemma_value_of_bound(more);
            lemma2_to64();
            if j < 31 {
                lemma_pow2_strictly_increases(j as nat, 31);
            }
            if j + 1 < 32 {
                lemma_pow2_strictly_increases((j + 1) as nat, 32);
            }
            assert(more.drop_last() =~= done);
            assert(word << 1u32 == 2 * word) by (bit_vector)
                requires
                    word < 0x8000_0000u32,
            ;
        }
        word = (word << 1u32) + if bit {
            1
        } else {
            0
        };
        j += 1;
    }
    word
}

/// Packs bits into bytes, eight bits to a byte, the most significant first.
/// Fails with `IncompleteByte` exactly when the number of bits is not a
/// multiple of eight.
pub fn translate_u8(binary_data: Vec<bool>) -> (result: Result<Vec<u8>, EtchError>)
    ensures
        binary_data@.len() % 8 != 0 ==> result == Err::<Vec<u8>, EtchError>(
            EtchError::IncompleteByte,
        ),
        binary_data@.len() % 8 == 0 ==> result is Ok && result->Ok_0@ == bits_to_bytes(
            binary_data@,
        ),
{
    let groups = binary_data.len() / 8;
    if binary_data.len() % 8 != 0 {
        return Err(EtchError::IncompleteByte);
    }
    let mut byte_data: Vec<u8> = Vec::new();
    let mut k: usize = 0;
    while k < groups
        invariant
            k <= groups,
            groups * 8 == binary_data.len(),
            byte_data@ == bits_to_bytes(binary_data@).take(k as int),
        decreases groups - k,
    {
        let byte = pack_byte(&binary_data, 8 * k);
        byte_data.push(byte);
        assert(byte_data@ =~= bits_to_bytes(binary_data@).take(k + 1));
        k += 1;
    }
    assert(bits_to_bytes(binary_data@).take(k as int) =~= bits_to_bytes(binary_data@));
    Ok(byte_data)
}

/// Packs bits into 32-bit words, thirty-two bits to a word, the most
/// significant first. Fails with `IncompleteWord` exactly when the number of
/// bits is not a multiple of thirty-two.
pub fn translate_u32(binary_data: Vec<bool>) -> (result: Result<Vec<u32>, EtchError>)
    ensures
        binary_data@.len() % 32 != 0 ==> result == Err::<Vec<u32>, EtchError>(
            EtchError::IncompleteWord,
        ),
        binary_data@.len() % 32 == 0 ==> result is Ok && result->Ok_0@ == bits_to_words(
            binary_data@,
        ),
{
    let groups = binary_data.len() / 32;
    if binary_data.len() % 32 != 0 {
        return Err(EtchError::IncompleteWord);
    }
    let mut word_data: Vec<u32> = Vec::new();
    let mut k: usize = 0;
    while k < groups
        invariant
            k <= groups,
            groups * 32 == binary_data.len(),
            word_data@ == bits_to_words(binary_data@).take(k as int),
        decreases groups - k,
    {
        let word = pack_word(&binary_data, 32 * k);
        word_data.push(word);
        assert(word_data@ =~= bits_to_words(binary_data@).take(k + 1));
        k += 1;
    }
    assert(bits_to_words(binary_data@).take(k as int) =~= bits_to_words(binary_data@));
    Ok(word_data)
}

} // verus!
