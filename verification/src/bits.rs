//! The mathematical model of a bit stream: sequences of bits, least
//! significant first, and how they relate to machine words and to bytes.

use vstd::prelude::*;

verus! {

/// Whether bit `i` of `word` is set, counting from the least significant bit.
/// Positions outside `0..32` hold no bit.
pub open spec fn bit(word: u32, i: int) -> bool {
    0 <= i < 32 && (word >> (i as u32)) & 1 == 1
}

/// The bits `lo..hi` of `word`, the least significant of them first.
pub open spec fn word_bits(word: u32, lo: int, hi: int) -> Seq<bool> {
    Seq::new((hi - lo) as nat, |k: int| bit(word, lo + k))
}

/// The low `width` bits of `value`, least significant first.
pub open spec fn low_bits(width: int, value: u16) -> Seq<bool> {
    word_bits(value as u32, 0, width)
}

/// The natural number whose binary digits are `bits`, least significant first.
pub open spec fn value_of(bits: Seq<bool>) -> nat
    decreases bits.len(),
{
    if bits.len() == 0 {
        0
    } else {
        (if bits[0] { 1nat } else { 0nat }) + 2 * value_of(bits.drop_first())
    }
}

/// A word of `n` ones in its low end.
pub open spec fn ones(n: u64) -> u64 {
    ((1u64 << n) - 1) as u64
}

/// `count` zero bits.
pub open spec fn zeros(count: int) -> Seq<bool> {
    Seq::new(count as nat, |k: int| false)
}

/// How many zero bits fill `count` bits up to whole bytes.
pub open spec fn padding(count: int) -> int {
    (8 - count % 8) % 8
}

/// The byte spelled by the first eight bits of `bits`, or by all of them
/// where there are fewer: the missing high bits count as zero.
pub open spec fn first_byte(bits: Seq<bool>) -> u8 {
    value_of(bits.take(if bits.len() < 8 { bits.len() as int } else { 8 })) as u8
}

/// The bytes that hold `bits`, eight to a byte, the first bit in the least
/// significant place of the first byte. The last byte is filled up with
/// zeros.
pub open spec fn bytes_of_bits(bits: Seq<bool>) -> Seq<u8> {
    Seq::new(((bits.len() + 7) / 8) as nat, |k: int| first_byte(bits.skip(8 * k)))
}

/// The bits held by `bytes`, read as one contiguous little-endian sequence.
pub open spec fn bits_of_bytes(bytes: Seq<u8>) -> Seq<bool> {
    Seq::new(8 * bytes.len(), |i: int| bit(bytes[i / 8] as u32, i % 8))
}

/// The two bytes of a 16-bit number in little-endian order.
pub open spec fn pair_bytes(pair: u16) -> Seq<u8> {
    seq![(pair & 0xff) as u8, (pair >> 8) as u8]
}

proof fn lemma_bit_shr(word: u32, by: u32, i: u32)
    by (bit_vector)
    requires
        by < 32,
        i < 32,
    ensures
        ((word >> by) >> i) & 1 == (if i + by < 32 { (word >> ((i + by) as u32)) & 1 } else { 0 }),
{
}

/// Shifting a word right by `by` moves every bit `by` places down.
pub proof fn lemma_word_bits_shr(word: u32, by: int, lo: int, hi: int)
    requires
        0 <= by < 32,
        0 <= lo <= hi,
    ensures
        word_bits(word >> (by as u32), lo, hi) == word_bits(word, lo + by, hi + by),
{
    let shifted = word_bits(word >> (by as u32), lo, hi);
    let direct = word_bits(word, lo + by, hi + by);
    assert forall|k: int| 0 <= k < hi - lo implies #[trigger] shifted[k] == direct[k] by {
        if lo + k < 32 {
            lemma_bit_shr(word, by as u32, (lo + k) as u32);
        }
    }
    assert(shifted =~= direct);
}

proof fn lemma_low_bit_split(word: u32, n: u64)
    by (bit_vector)
    requires
        1 <= n <= 32,
    ensures
        (word as u64) & ones(n) == (word & 1) + 2 * (((word >> 1u32) as u64) & ones(
            (n - 1) as u64,
        )),
        (word & 1) == 0 || (word & 1) == 1,
        (word as u64) & ones(0) == 0,
        (word >> 0u32) == word,
{
}

/// The number spelled by the low `n` bits of a word is the word under a mask
/// of `n` ones.
pub proof fn lemma_value_of_low_bits(word: u32, n: int)
    requires
        0 <= n <= 32,
    ensures
        value_of(word_bits(word, 0, n)) == (word as u64) & ones(n as u64),
    decreases n,
{
    let bits = word_bits(word, 0, n);
    if n == 0 {
        lemma_low_bit_split(word, 1);
    } else {
        lemma_word_bits_shr(word, 1, 0, n - 1);
        assert(bits.drop_first() =~= word_bits(word, 1, n));
        lemma_value_of_low_bits(word >> 1u32, n - 1);
        lemma_low_bit_split(word, n as u64);
        assert(bits[0] == bit(word, 0));
    }
}

/// The bits of a byte sequence with one more byte are the bits before
/// followed by the bits of that byte.
pub proof fn lemma_bits_of_bytes_push(bytes: Seq<u8>, byte: u8)
    ensures
        bits_of_bytes(bytes.push(byte)) == bits_of_bytes(bytes) + word_bits(byte as u32, 0, 8),
{
    let whole = bits_of_bytes(bytes.push(byte));
    let parts = bits_of_bytes(bytes) + word_bits(byte as u32, 0, 8);
    assert forall|i: int| 0 <= i < whole.len() implies #[trigger] whole[i] == parts[i] by {
        if i >= 8 * bytes.len() {
            assert(i / 8 == bytes.len());
            assert(i % 8 == i - 8 * bytes.len());
        } else {
            assert(i / 8 < bytes.len());
        }
    }
    assert(whole =~= parts);
}

/// The bits of a single byte.
pub proof fn lemma_bits_of_single(byte: u8)
    ensures
        bits_of_bytes(seq![byte]) == word_bits(byte as u32, 0, 8),
{
    lemma_bits_of_bytes_push(Seq::empty(), byte);
    assert(Seq::<u8>::empty().push(byte) =~= seq![byte]);
    assert(bits_of_bytes(Seq::<u8>::empty()) + word_bits(byte as u32, 0, 8) =~= word_bits(
        byte as u32,
        0,
        8,
    ));
}

proof fn lemma_ones_bound(n: u64)
    by (bit_vector)
    requires
        n <= 32,
    ensures
        ones(n) <= 0xffff_ffff,
        n <= 31 ==> ones(n) <= 0x7fff_ffff,
        n <= 16 ==> ones(n) <= 0xffff,
        n <= 8 ==> ones(n) <= 0xff,
        n == 0 ==> ones(n) == 0,
{
}

proof fn lemma_double_plus_bit(rest: u32, low: u32, n: u64, i: u32)
    by (bit_vector)
    requires
        n < 32,
        (rest as u64) <= ones(n),
        low <= 1,
        i < 32,
    ensures
        low + 2 * rest <= ones((n + 1) as u64),
        i == 0 ==> ((((low + 2 * rest) as u32) >> i) & 1 == 1) == (low == 1),
        i > 0 ==> ((((low + 2 * rest) as u32) >> i) & 1 == 1) == ((rest >> ((i - 1) as u32)) & 1
            == 1),
        (0u32 >> i) & 1 == 0,
{
}

/// A number spelled by at most 32 bits fits in that many bits, and its bits
/// are the ones that spell it.
pub proof fn lemma_bits_of_value(bits: Seq<bool>)
    requires
        bits.len() <= 32,
    ensures
        value_of(bits) <= ones(bits.len() as u64),
        forall|i: int|
            0 <= i < 32 ==> #[trigger] bit(value_of(bits) as u32, i) == (i < bits.len()
                && bits[i]),
    decreases bits.len(),
{
    lemma_ones_bound(bits.len() as u64);
    if bits.len() == 0 {
        assert forall|i: int| 0 <= i < 32 implies !#[trigger] bit(0u32, i) by {
            lemma_double_plus_bit(0, 0, 0, i as u32);
        }
    } else {
        let rest = bits.drop_first();
        lemma_bits_of_value(rest);
        let low: u32 = if bits[0] { 1 } else { 0 };
        let n: u64 = rest.len() as u64;
        lemma_ones_bound(n);
        let r: u32 = value_of(rest) as u32;
        lemma_double_plus_bit(r, low, n, 0);
        assert forall|i: int| 0 <= i < 32 implies #[trigger] bit(value_of(bits) as u32, i) == (i
            < bits.len() && bits[i]) by {
            lemma_double_plus_bit(r, low, n, i as u32);
            if i > 0 {
                assert(bit(r, i - 1) == (i - 1 < rest.len() && rest[i - 1]));
            }
        }
    }
}

/// The bits of two byte sequences in a row are the bits of the first
/// followed by the bits of the second.
pub proof fn lemma_bits_of_bytes_concat(front: Seq<u8>, back: Seq<u8>)
    ensures
        bits_of_bytes(front + back) == bits_of_bytes(front) + bits_of_bytes(back),
{
    let whole = bits_of_bytes(front + back);
    let parts = bits_of_bytes(front) + bits_of_bytes(back);
    assert forall|i: int| 0 <= i < whole.len() implies #[trigger] whole[i] == parts[i] by {
        if i >= 8 * front.len() {
            let j = i - 8 * front.len();
            assert(i / 8 == front.len() + j / 8);
            assert(i % 8 == j % 8);
        } else {
            assert(i / 8 < front.len());
        }
    }
    assert(whole =~= parts);
}

/// The bits of a stretch of bytes are the matching stretch of the bits.
pub proof fn lemma_bits_of_bytes_subrange(bytes: Seq<u8>, from: int, to: int)
    requires
        0 <= from <= to <= bytes.len(),
    ensures
        bits_of_bytes(bytes.subrange(from, to)) == bits_of_bytes(bytes).subrange(8 * from, 8 * to),
{
    let part = bits_of_bytes(bytes.subrange(from, to));
    let cut = bits_of_bytes(bytes).subrange(8 * from, 8 * to);
    assert forall|i: int| 0 <= i < part.len() implies #[trigger] part[i] == cut[i] by {
        assert((8 * from + i) / 8 == from + i / 8);
        assert((8 * from + i) % 8 == i % 8);
    }
    assert(part =~= cut);
}

proof fn lemma_packed_bit(bits: Seq<bool>, i: int)
    requires
        0 <= i < 8 * ((bits.len() + 7) / 8),
    ensures
        bits_of_bytes(bytes_of_bits(bits))[i] == (i < bits.len() && bits[i]),
{
    let k = i / 8;
    let j = i % 8;
    let tail = bits.skip(8 * k);
    let count: int = if tail.len() < 8 { tail.len() as int } else { 8 };
    let chunk = tail.take(count);
    lemma_bits_of_value(chunk);
    lemma_ones_bound(chunk.len() as u64);
    assert(bytes_of_bits(bits)[k] == first_byte(tail));
    assert(first_byte(tail) as u32 == value_of(chunk) as u32);
    assert(bit(value_of(chunk) as u32, j) == (j < chunk.len() && chunk[j]));
    if j < count {
        assert(chunk[j] == bits[8 * k + j]);
    }
}

/// Packing bits into bytes and reading the bytes back as bits gives the
/// same bits, followed by the zeros that fill the last byte.
pub proof fn lemma_bits_of_packed_bytes(bits: Seq<bool>)
    ensures
        bits_of_bytes(bytes_of_bits(bits)) == bits + zeros(padding(bits.len() as int)),
{
    let back = bits_of_bytes(bytes_of_bits(bits));
    let padded = bits + zeros(padding(bits.len() as int));
    assert(back.len() == 8 * ((bits.len() + 7) / 8));
    assert(back.len() == padded.len());
    assert forall|i: int| 0 <= i < back.len() implies #[trigger] back[i] == padded[i] by {
        lemma_packed_bit(bits, i);
    }
    assert(back =~= padded);
}

} // verus!
