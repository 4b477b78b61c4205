//! Unpacking bits from a byte source.

use vstd::prelude::*;
use std::io::{Error, Read};
use crate::bits::{
    bits_of_bytes, ones, value_of, word_bits, lemma_bits_of_bytes_push, lemma_bits_of_single,
    lemma_value_of_low_bits, lemma_word_bits_shr,
};
use crate::stream::take_u8;

verus! {

/// How many more bytes a reader that holds `avail` bits has to take in
/// before it can serve `width` bits.
pub open spec fn bytes_needed(avail: int, width: int) -> int {
    if avail >= width {
        0
    } else {
        (width - avail + 7) / 8
    }
}

/// What a reader has done so far, as far as its own bookkeeping goes.
pub struct ReaderView {
    /// The bytes that the source has delivered, in order.
    pub taken: Seq<u8>,
    /// The bits that were taken in and not yet consumed, oldest first.
    pub pending: Seq<bool>,
}

impl ReaderView {
    /// A reader that has done nothing yet.
    pub open spec fn fresh() -> ReaderView {
        ReaderView { taken: Seq::empty(), pending: Seq::empty() }
    }

    /// The source has delivered `bytes`: their bits join the pending bits.
    pub open spec fn fed(self, bytes: Seq<u8>) -> ReaderView {
        ReaderView { taken: self.taken + bytes, pending: self.pending + bits_of_bytes(bytes) }
    }

    /// The number spelled by the first `width` pending bits.
    pub open spec fn front(self, width: int) -> nat {
        value_of(self.pending.take(width))
    }

    /// The first `width` pending bits are consumed.
    pub open spec fn skipped(self, width: int) -> ReaderView {
        ReaderView { taken: self.taken, pending: self.pending.skip(width) }
    }

    /// The pending bits are dropped.
    pub open spec fn emptied(self) -> ReaderView {
        ReaderView { taken: self.taken, pending: Seq::empty() }
    }
}

/// The register that holds the bytes read last: the bits from `offset` up
/// are still to be consumed, the oldest in the lowest place.
struct Window {
    last_read: u32,
    offset: u8,
}

proof fn lemma_absorb_bit(last: u32, byte: u32, out: u32, i: u32)
    by (bit_vector)
    requires
        byte < 256,
        out == (last >> 8u32) | (byte << 24u32),
        i < 32,
    ensures
        i < 24 ==> ((out >> i) & 1 == 1) == ((last >> ((i + 8) as u32)) & 1 == 1),
        24 <= i ==> ((out >> i) & 1 == 1) == ((byte >> ((i - 24) as u32)) & 1 == 1),
{
}

proof fn lemma_front_mask(word: u32, width: u32)
    by (bit_vector)
    requires
        width <= 16,
    ensures
        (1u32 << width) >= 1,
        (word & ((1u32 << width) - 1) as u32) == (word as u64) & ones(width as u64),
        (word & ((1u32 << width) - 1) as u32) <= 0xffff,
{
}

impl Window {
    #[verifier::type_invariant]
    spec fn well_formed(self) -> bool {
        self.offset <= 32
    }

    /// The bits still to be consumed, oldest first.
    spec fn bits(self) -> Seq<bool> {
        word_bits(self.last_read, self.offset as int, 32)
    }

    fn empty() -> (window: Self)
        ensures
            window.bits() == Seq::<bool>::empty(),
    {
        let window = Window { last_read: 0, offset: 32 };
        assert(window.bits() =~= Seq::<bool>::empty());
        window
    }

    fn len(&self) -> (count: u8)
        ensures
            count == self.bits().len(),
            count <= 32,
    {
        proof {
            use_type_invariant(self);
        }
        32 - self.offset
    }

    /// Takes one byte in above the bits held: the register moves down by
    /// eight places and the byte enters at the top.
    fn absorb(&mut self, byte: u8)
        requires
            old(self).bits().len() <= 24,
        ensures
            final(self).bits() == old(self).bits() + word_bits(byte as u32, 0, 8),
    {
        proof {
            use_type_invariant(&*self);
        }
        let out: u32 = (self.last_read >> 8) | ((byte as u32) << 24);
        let offset: u8 = self.offset - 8;
        proof {
            let after = word_bits(out, offset as int, 32);
            let joined = self.bits() + word_bits(byte as u32, 0, 8);
            assert forall|k: int| 0 <= k < 32 - offset implies #[trigger] after[k] == joined[k] by {
                lemma_absorb_bit(self.last_read, byte as u32, out, (offset + k) as u32);
            }
            assert(after =~= joined);
        }
        *self = Window { last_read: out, offset };
    }

    /// The number spelled by the first `width` bits held.
    fn front(&self, width: u8) -> (value: u16)
        requires
            width <= 16,
            width <= self.bits().len(),
        ensures
            value == value_of(self.bits().take(width as int)),
    {
        proof {
            use_type_invariant(self);
        }
        if self.offset < 32 {
            let word: u32 = self.last_read >> self.offset;
            proof {
                lemma_front_mask(word, width as u32);
                lemma_word_bits_shr(self.last_read, self.offset as int, 0, width as int);
                lemma_value_of_low_bits(word, width as int);
                assert(self.bits().take(width as int) =~= word_bits(
                    self.last_read,
                    self.offset as int,
                    self.offset + width,
                ));
            }
            (word & ((1u32 << width) - 1)) as u16
        } else {
            assert(self.bits().take(0) =~= Seq::<bool>::empty());
            0
        }
    }

    /// Consumes the first `width` bits held.
    fn skip(&mut self, width: u8)
        requires
            width <= old(self).bits().len(),
        ensures
            final(self).bits() == old(self).bits().skip(width as int),
    {
        proof {
            use_type_invariant(&*self);
        }
        let offset: u8 = self.offset + width;
        proof {
            assert(word_bits(self.last_read, offset as int, 32) =~= self.bits().skip(width as int));
        }
        self.offset = offset;
    }

    /// Drops the bits held.
    fn clear(&mut self)
        ensures
            final(self).bits() == Seq::<bool>::empty(),
    {
        self.offset = 32;
        assert(self.bits() =~= Seq::<bool>::empty());
    }
}

/// Reads values of up to sixteen bits from a byte source, least significant
/// bit first.
///
/// Bytes are taken from the source one at a time, and only when the bits
/// held do not suffice.
pub struct BitReader<R> {
    inner: R,
    window: Window,
    taken: Ghost<Seq<u8>>,
}

impl<R> View for BitReader<R> {
    type V = ReaderView;

    closed spec fn view(&self) -> ReaderView {
        ReaderView { taken: self.taken@, pending: self.window.bits() }
    }
}

impl<R: Read> BitReader<R> {
    /// Wraps `inner`. Nothing is pending and nothing has been taken.
    pub fn new(inner: R) -> (reader: Self)
        ensures
            reader@ == ReaderView::fresh(),
            reader.inner() == inner,
    {
        BitReader { inner, window: Window::empty(), taken: Ghost(Seq::empty()) }
    }

    /// Reads and consumes one bit.
    pub fn read_bit(&mut self) -> (outcome: Result<bool, Error>)
        ensures
            old(self)@.taken.is_prefix_of(final(self)@.taken),
            ({
                let fresh = final(self)@.taken.skip(old(self)@.taken.len() as int);
                let needed = bytes_needed(old(self)@.pending.len() as int, 1);
                match outcome {
                    Ok(bit) => {
                        &&& fresh.len() == needed
                        &&& final(self)@ == old(self)@.fed(fresh).skipped(1)
                        &&& bit == (old(self)@.fed(fresh).front(1) != 0)
                    },
                    Err(_) => fresh.len() < needed && final(self)@ == old(self)@.fed(fresh),
                }
            }),
            old(self)@.pending.len() >= 1 ==> final(self).inner() == old(self).inner(),
    {
        match self.read_bits(1) {
            Ok(value) => Ok(value != 0),
            Err(e) => Err(e),
        }
    }

    /// Reads and consumes the next `bitwidth` bits, as the number that they
    /// spell least significant bit first.
    ///
    /// Where the source fails before enough bits are there, its error is
    /// returned and nothing is consumed.
    pub fn read_bits(&mut self, bitwidth: u8) -> (outcome: Result<u16, Error>)
        requires
            bitwidth <= 16,
        ensures
            old(self)@.taken.is_prefix_of(final(self)@.taken),
            ({
                let fresh = final(self)@.taken.skip(old(self)@.taken.len() as int);
                let needed = bytes_needed(old(self)@.pending.len() as int, bitwidth as int);
                match outcome {
                    Ok(value) => {
                        &&& fresh.len() == needed
                        &&& final(self)@ == old(self)@.fed(fresh).skipped(bitwidth as int)
                        &&& value == old(self)@.fed(fresh).front(bitwidth as int)
                    },
                    Err(_) => fresh.len() < needed && final(self)@ == old(self)@.fed(fresh),
                }
            }),
            old(self)@.pending.len() >= bitwidth ==> final(self).inner() == old(self).inner(),
    {
        match self.peek_bits(bitwidth) {
            Ok(value) => {
                self.skip_bits(bitwidth);
                Ok(value)
            },
            Err(e) => Err(e),
        }
    }

    /// Returns the next `bitwidth` bits without consuming them. Bytes are
    /// taken from the source until that many bits are pending.
    ///
    /// Where the source fails first, its error is returned; the bytes that
    /// it delivered before stay pending.
    pub fn peek_bits(&mut self, bitwidth: u8) -> (outcome: Result<u16, Error>)
        requires
            bitwidth <= 16,
        ensures
            old(self)@.taken.is_prefix_of(final(self)@.taken),
            ({
                let fresh = final(self)@.taken.skip(old(self)@.taken.len() as int);
                let needed = bytes_needed(old(self)@.pending.len() as int, bitwidth as int);
                &&& final(self)@ == old(self)@.fed(fresh)
                &&& match outcome {
                    Ok(value) => fresh.len() == needed && value == final(self)@.front(
                        bitwidth as int,
                    ),
                    Err(_) => fresh.len() < needed,
                }
            }),
            old(self)@.pending.len() >= bitwidth ==> final(self)@ == old(self)@
                && final(self).inner() == old(self).inner(),
    {
        let ghost start = self@;
        let ghost mut fresh: Seq<u8> = Seq::empty();
        proof {
            assert(start.fed(fresh) =~= start) by {
                assert(start.taken + fresh =~= start.taken);
                assert(bits_of_bytes(fresh) =~= Seq::<bool>::empty());
                assert(start.pending + bits_of_bytes(fresh) =~= start.pending);
            }
        }
        while self.window.len() < bitwidth
            invariant
                bitwidth <= 16,
                start == old(self)@,
                self@ == start.fed(fresh),
                self@.pending.len() == start.pending.len() + 8 * fresh.len(),
                fresh.len() > 0 ==> start.pending.len() + 8 * (fresh.len() - 1) < bitwidth,
                start.pending.len() >= bitwidth ==> self.inner() == old(self).inner(),
            decreases bytes_needed(self@.pending.len() as int, bitwidth as int),
        {
            match self.fill_next_u8() {
                Ok(_) => {},
                Err(e) => {
                    proof {
                        assert(self@.taken.skip(start.taken.len() as int) =~= fresh);
                    }
                    return Err(e);
                },
            }
            proof {
                let byte = self@.taken.last();
                let grown = fresh.push(byte);
                lemma_bits_of_bytes_push(fresh, byte);
                lemma_bits_of_single(byte);
                assert(self@.taken =~= start.taken + grown);
                assert(self@.pending =~= start.pending + bits_of_bytes(grown));
                assert(self@ == start.fed(grown));
                fresh = grown;
            }
        }
        proof {
            assert(self@.taken.skip(start.taken.len() as int) =~= fresh);
        }
        Ok(self.window.front(bitwidth))
    }

    /// Consumes `bitwidth` pending bits. No byte is taken from the source:
    /// the bits have to be pending already.
    pub fn skip_bits(&mut self, bitwidth: u8)
        requires
            bitwidth <= old(self)@.pending.len(),
        ensures
            final(self)@ == old(self)@.skipped(bitwidth as int),
            final(self).inner() == old(self).inner(),
    {
        self.window.skip(bitwidth);
    }

    /// Takes one byte from the source and puts its bits behind the pending
    /// ones. Where the source fails, nothing changes in the reader.
    fn fill_next_u8(&mut self) -> (outcome: Result<(), Error>)
        requires
            old(self)@.pending.len() <= 24,
        ensures
            match outcome {
                Ok(_) => final(self)@ == old(self)@.fed(seq![final(self)@.taken.last()]),
                Err(_) => final(self)@ == old(self)@,
            },
    {
        let outcome = take_u8(&mut self.inner);
        self.after_fetch(outcome)
    }
}

impl<R> BitReader<R> {
    /// Takes the source's answer to a request for one byte. Where it
    /// delivered one, the byte's bits go behind the pending ones; where it
    /// did not, nothing changes and its error is handed on.
    fn after_fetch(&mut self, outcome: Result<u8, Error>) -> (result: Result<(), Error>)
        requires
            old(self)@.pending.len() <= 24,
        ensures
            final(self).inner() == old(self).inner(),
            match outcome {
                Ok(byte) => result is Ok && final(self)@ == old(self)@.fed(seq![byte]),
                Err(e) => result == Err::<(), Error>(e) && final(self)@ == old(self)@,
            },
    {
        match outcome {
            Ok(byte) => {
                self.window.absorb(byte);
                proof {
                    self.taken@ = self.taken@.push(byte);
                    lemma_bits_of_single(byte);
                    assert(old(self)@.taken + seq![byte] =~= old(self)@.taken.push(byte));
                }
                Ok(())
            },
            Err(e) => Err(e),
        }
    }

    /// The source as it stands.
    pub closed spec fn inner(&self) -> R {
        self.inner
    }

    /// Drops the pending bits. The source is not touched: the next read
    /// takes its bytes from where the source stands.
    pub fn reset(&mut self)
        ensures
            final(self)@ == old(self)@.emptied(),
            final(self).inner() == old(self).inner(),
    {
        self.window.clear();
    }

    /// The source, to look at.
    pub fn as_inner_ref(&self) -> (source: &R)
        ensures
            *source == self.inner(),
    {
        &self.inner
    }

    /// The source, to work on. What the reader holds stays as it is.
    pub fn as_inner_mut(&mut self) -> (source: &mut R)
        ensures
            *source == old(self).inner(),
            final(self).inner() == *final(source),
            final(self)@ == old(self)@,
    {
        &mut self.inner
    }

    /// Gives the source back. Bits that are still pending are lost.
    pub fn into_inner(self) -> (source: R)
        ensures
            source == self.inner(),
    {
        self.inner
    }
}

} // verus!
