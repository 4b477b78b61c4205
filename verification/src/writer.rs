//! Packing bits into a byte sink.

use vstd::prelude::*;
use std::io::{Error, Write};
use crate::bits::{
    bytes_of_bits, first_byte, low_bits, ones, pair_bytes, word_bits, lemma_value_of_low_bits,
    lemma_word_bits_shr,
};
use crate::stream::{flush_sink, put_u16_le, put_u8};

verus! {

/// What a writer has done so far, as far as its own bookkeeping goes.
pub struct WriterView {
    /// The bytes of every call that the sink has completed, in order.
    pub emitted: Seq<u8>,
    /// The bits that were written and not yet handed to the sink, oldest
    /// first.
    pub pending: Seq<bool>,
    /// How many flush requests the sink has completed.
    pub flushes: nat,
}

impl WriterView {
    /// A writer that has done nothing yet.
    pub open spec fn fresh() -> WriterView {
        WriterView { emitted: Seq::empty(), pending: Seq::empty(), flushes: 0 }
    }

    /// The low `width` bits of `value` join the pending bits.
    pub open spec fn held(self, width: int, value: u16) -> WriterView {
        WriterView { pending: self.pending + low_bits(width, value), ..self }
    }

    /// Once sixteen bits are pending, the first sixteen leave as two bytes.
    pub open spec fn settled(self) -> WriterView {
        if self.pending.len() >= 16 {
            WriterView {
                emitted: self.emitted + bytes_of_bits(self.pending.take(16)),
                pending: self.pending.skip(16),
                ..self
            }
        } else {
            self
        }
    }

    /// One write of `width` bits.
    pub open spec fn written(self, width: int, value: u16) -> WriterView {
        self.held(width, value).settled()
    }

    /// The first `count` bytes of the pending bits have left.
    pub open spec fn drained(self, count: int) -> WriterView {
        WriterView {
            emitted: self.emitted + bytes_of_bits(self.pending).take(count),
            pending: self.pending.skip(
                if 8 * count < self.pending.len() {
                    8 * count
                } else {
                    self.pending.len() as int
                },
            ),
            ..self
        }
    }

    /// Every pending bit has left, the last byte filled up with zeros, and
    /// the sink has completed one more flush request.
    pub open spec fn flushed(self) -> WriterView {
        WriterView {
            emitted: self.emitted + bytes_of_bits(self.pending),
            pending: Seq::empty(),
            flushes: self.flushes + 1,
        }
    }
}

/// The register that collects bits for the sink: `end` of them, in the low
/// end of `buf`, the oldest in the least significant place.
struct Accumulator {
    buf: u32,
    end: u8,
}

proof fn lemma_append_bit(buf: u32, end: u32, value: u32, width: u32, low: u32, out: u32, i: u32)
    by (bit_vector)
    requires
        1 <= width < 16,
        end + width <= 32,
        (buf as u64) >> (end as u64) == 0,
        low == value & ((1u32 << width) - 1) as u32,
        out == buf | (low << end),
        i < 32,
    ensures
        i < end ==> ((out >> i) & 1 == 1) == ((buf >> i) & 1 == 1),
        end <= i < end + width ==> ((out >> i) & 1 == 1) == ((value >> ((i - end) as u32)) & 1 == 1),
        (out as u64) >> ((end + width) as u64) == 0,
{
}

proof fn lemma_shift_ranges(width: u32)
    by (bit_vector)
    requires
        width < 32,
    ensures
        (1u32 << width) >= 1,
{
}

proof fn lemma_pair_split(buf: u32, pair: u16)
    by (bit_vector)
    requires
        pair == (buf & 0xffff) as u16,
    ensures
        (pair & 0xff) as u8 == ((buf as u64) & ones(8)) as u8,
        (pair >> 8) as u8 == (((buf >> 8u32) as u64) & ones(8)) as u8,
        buf & 0xffff <= 0xffff,
{
}

proof fn lemma_drop_keeps_room(buf: u32, end: u32, by: u32)
    by (bit_vector)
    requires
        end <= 32,
        by < 32,
        (buf as u64) >> (end as u64) == 0,
    ensures
        by <= end ==> ((buf >> by) as u64) >> ((end - by) as u64) == 0,
        by > end ==> buf >> by == 0,
{
}

proof fn lemma_low_byte(buf: u32, end: u32, count: u64)
    by (bit_vector)
    requires
        end <= 32,
        (buf as u64) >> (end as u64) == 0,
        count == (if end < 8 { end as u64 } else { 8u64 }),
    ensures
        ((buf as u64) & ones(count)) as u8 == (buf & 0xff) as u8,
        buf & 0xff <= 0xff,
{
}

impl Accumulator {
    #[verifier::type_invariant]
    spec fn well_formed(self) -> bool {
        &&& self.end <= 32
        &&& (self.buf as u64) >> (self.end as u64) == 0
    }

    /// The collected bits, oldest first.
    spec fn bits(self) -> Seq<bool> {
        word_bits(self.buf, 0, self.end as int)
    }

    fn empty() -> (acc: Self)
        ensures
            acc.bits() == Seq::<bool>::empty(),
    {
        assert((0u32 as u64) >> (0u8 as u64) == 0) by (bit_vector);
        let acc = Accumulator { buf: 0, end: 0 };
        assert(acc.bits() =~= Seq::<bool>::empty());
        acc
    }

    fn len(&self) -> (count: u8)
        ensures
            count == self.bits().len(),
            count <= 32,
    {
        proof {
            use_type_invariant(self);
        }
        self.end
    }

    /// Puts the low `width` bits of `value` above the bits already held.
    fn append(&mut self, width: u8, value: u16)
        requires
            width < 16,
            old(self).bits().len() + width <= 32,
        ensures
            final(self).bits() == old(self).bits() + low_bits(width as int, value),
    {
        proof {
            use_type_invariant(&*self);
        }
        if width > 0 {
            proof {
                lemma_shift_ranges(width as u32);
            }
            let mask: u32 = (1u32 << width) - 1;
            let low: u32 = (value as u32) & mask;
            let out: u32 = self.buf | (low << self.end);
            let end: u8 = self.end + width;
            proof {
                let before = self.bits();
                let after = word_bits(out, 0, end as int);
                let joined = before + low_bits(width as int, value);
                lemma_append_bit(self.buf, self.end as u32, value as u32, width as u32, low, out, 0);
                assert forall|i: int| 0 <= i < end implies #[trigger] after[i] == joined[i] by {
                    lemma_append_bit(
                        self.buf,
                        self.end as u32,
                        value as u32,
                        width as u32,
                        low,
                        out,
                        i as u32,
                    );
                }
                assert(after =~= joined);
            }
            *self = Accumulator { buf: out, end };
        } else {
            assert(self.bits() + low_bits(0, value) =~= self.bits());
        }
    }

    /// The first sixteen bits as a number: its little-endian bytes are the
    /// two bytes that hold them.
    fn low_pair(&self) -> (pair: u16)
        requires
            self.bits().len() >= 16,
        ensures
            pair_bytes(pair) == bytes_of_bits(self.bits().take(16)),
    {
        let pair = (self.buf & 0xffff) as u16;
        proof {
            use_type_invariant(self);
            let first = self.bits().take(16);
            lemma_pair_split(self.buf, pair);
            lemma_value_of_low_bits(self.buf, 8);
            lemma_value_of_low_bits(self.buf >> 8u32, 8);
            lemma_word_bits_shr(self.buf, 8, 0, 8);
            assert(first.skip(0).take(8) =~= word_bits(self.buf, 0, 8));
            assert(first.skip(8).take(8) =~= word_bits(self.buf, 8, 16));
            assert(pair_bytes(pair) =~= bytes_of_bits(first));
        }
        pair
    }

    /// The first byte of the bits held, filled up with zeros where fewer
    /// than eight are there.
    fn low_byte(&self) -> (byte: u8)
        ensures
            byte == first_byte(self.bits()),
    {
        let byte = (self.buf & 0xff) as u8;
        proof {
            use_type_invariant(self);
            let count: int = if self.end < 8 { self.end as int } else { 8 };
            lemma_low_byte(self.buf, self.end as u32, count as u64);
            lemma_value_of_low_bits(self.buf, count);
            assert(self.bits().take(count) =~= word_bits(self.buf, 0, count));
        }
        byte
    }

    /// Lets the first `count` bits go, or all of them where fewer are held.
    fn discard(&mut self, count: u8)
        requires
            count == 8 || count == 16,
        ensures
            final(self).bits() == old(self).bits().skip(
                if count < old(self).bits().len() {
                    count as int
                } else {
                    old(self).bits().len() as int
                },
            ),
    {
        proof {
            use_type_invariant(&*self);
            lemma_drop_keeps_room(self.buf, self.end as u32, count as u32);
        }
        let out: u32 = self.buf >> count;
        let end: u8 = self.end.saturating_sub(count);
        proof {
            if count <= self.end {
                lemma_word_bits_shr(self.buf, count as int, 0, end as int);
                assert(word_bits(self.buf, count as int, self.end as int) =~= self.bits().skip(
                    count as int,
                ));
            } else {
                assert((0u32 as u64) >> (0u8 as u64) == 0) by (bit_vector);
                assert(word_bits(out, 0, 0) =~= self.bits().skip(self.end as int));
            }
        }
        *self = Accumulator { buf: out, end };
    }
}

/// Writes values of up to fifteen bits into a byte sink, packing them
/// least significant bit first.
///
/// Bits collect in a register and leave for the sink sixteen at a time, as
/// two bytes in little-endian order. [`BitWriter::flush`] sends what is left.
pub struct BitWriter<W> {
    inner: W,
    acc: Accumulator,
    emitted: Ghost<Seq<u8>>,
    flushes: Ghost<nat>,
}

impl<W> View for BitWriter<W> {
    type V = WriterView;

    closed spec fn view(&self) -> WriterView {
        WriterView { emitted: self.emitted@, pending: self.acc.bits(), flushes: self.flushes@ }
    }
}

impl<W: Write> BitWriter<W> {
    /// Wraps `inner`. Nothing is pending and nothing has been emitted.
    pub fn new(inner: W) -> (writer: Self)
        ensures
            writer@ == WriterView::fresh(),
            writer.inner() == inner,
    {
        BitWriter {
            inner,
            acc: Accumulator::empty(),
            emitted: Ghost(Seq::empty()),
            flushes: Ghost(0),
        }
    }

    /// Writes one bit.
    pub fn write_bit(&mut self, bit: bool) -> (outcome: Result<(), Error>)
        requires
            old(self)@.pending.len() + 1 <= 32,
        ensures
            match outcome {
                Ok(_) => final(self)@ == old(self)@.written(1, if bit { 1u16 } else { 0u16 }),
                Err(_) => final(self)@ == old(self)@.held(1, if bit { 1u16 } else { 0u16 })
                    && old(self)@.pending.len() + 1 >= 16,
            },
            old(self)@.pending.len() + 1 < 16 ==> outcome is Ok && final(self).inner() == old(
                self,
            ).inner(),
    {
        self.write_bits(1, if bit { 1 } else { 0 })
    }

    /// Writes the low `bitwidth` bits of `bits`, least significant first,
    /// above the bits already pending. Once sixteen bits are pending, the
    /// first sixteen go to the sink as two bytes.
    ///
    /// Where the sink refuses them, its error is returned and the bits stay
    /// pending.
    pub fn write_bits(&mut self, bitwidth: u8, bits: u16) -> (outcome: Result<(), Error>)
        requires
            bitwidth < 16,
            old(self)@.pending.len() + bitwidth <= 32,
        ensures
            match outcome {
                Ok(_) => final(self)@ == old(self)@.written(bitwidth as int, bits),
                Err(_) => final(self)@ == old(self)@.held(bitwidth as int, bits) && old(
                    self,
                )@.pending.len() + bitwidth >= 16,
            },
            old(self)@.pending.len() + bitwidth < 16 ==> outcome is Ok && final(self).inner()
                == old(self).inner(),
    {
        self.acc.append(bitwidth, bits);
        self.flush_if_needed()
    }

    /// Sends every pending bit to the sink, a byte at a time, the last byte
    /// filled up with zeros, and then asks the sink to flush.
    ///
    /// Where the sink fails, its error is returned; the bytes that it took
    /// before are emitted and their bits are no longer pending. With nothing
    /// pending, no byte is sent.
    pub fn flush(&mut self) -> (outcome: Result<(), Error>)
        ensures
            old(self)@.emitted.is_prefix_of(final(self)@.emitted),
            final(self)@.emitted.len() - old(self)@.emitted.len() <= (old(self)@.pending.len()
                + 7) / 8,
            match outcome {
                Ok(_) => final(self)@ == old(self)@.flushed(),
                Err(_) => final(self)@ == old(self)@.drained(
                    final(self)@.emitted.len() - old(self)@.emitted.len(),
                ),
            },
    {
        let ghost start = self@;
        let ghost total = bytes_of_bits(start.pending);
        let ghost mut sent: int = 0;
        proof {
            assert(start.drained(0) =~= start) by {
                assert(start.emitted + total.take(0) =~= start.emitted);
                assert(start.pending.skip(0) =~= start.pending);
            }
        }
        while self.acc.len() > 0
            invariant
                0 <= sent <= total.len(),
                start == old(self)@,
                total == bytes_of_bits(start.pending),
                self@ == start.drained(sent),
                self@.pending.len() > 0 ==> 8 * sent < start.pending.len(),
            decreases total.len() - sent,
        {
            let byte = self.acc.low_byte();
            let outcome = put_u8(&mut self.inner, byte);
            match self.after_byte(byte, outcome) {
                Ok(_) => {},
                Err(e) => {
                    return Err(e);
                },
            }
            proof {
                assert(byte == total[sent]);
                assert(total.take(sent + 1) =~= total.take(sent).push(byte));
                assert(self@.emitted =~= start.emitted + total.take(sent + 1));
                assert(self@.pending =~= start.drained(sent + 1).pending);
                sent = sent + 1;
            }
        }
        proof {
            assert(self@.pending =~= Seq::<bool>::empty());
            assert(total.take(sent) =~= total) by {
                if sent < total.len() {
                    assert(8 * sent < start.pending.len());
                }
            }
            assert(self@ == start.drained(total.len() as int));
            assert(self@.emitted == start.flushed().emitted);
            assert(start.emitted.is_prefix_of(self@.emitted));
        }
        let outcome = flush_sink(&mut self.inner);
        self.after_flush(outcome)
    }

    /// Sends the first sixteen pending bits to the sink once there are that
    /// many.
    fn flush_if_needed(&mut self) -> (outcome: Result<(), Error>)
        ensures
            match outcome {
                Ok(_) => final(self)@ == old(self)@.settled(),
                Err(_) => final(self)@ == old(self)@ && old(self)@.pending.len() >= 16,
            },
            old(self)@.pending.len() < 16 ==> outcome is Ok && final(self).inner() == old(
                self,
            ).inner(),
    {
        if self.acc.len() >= 16 {
            let pair = self.acc.low_pair();
            let outcome = put_u16_le(&mut self.inner, pair);
            self.after_pair(pair, outcome)
        } else {
            Ok(())
        }
    }
}

impl<W> BitWriter<W> {
    /// Takes the sink's answer to the two bytes of `pair`. Where it took
    /// them, they are emitted and their sixteen bits are no longer pending;
    /// where it did not, nothing changes and its error is handed on.
    fn after_pair(&mut self, pair: u16, outcome: Result<(), Error>) -> (result: Result<
        (),
        Error,
    >)
        requires
            old(self)@.pending.len() >= 16,
            pair_bytes(pair) == bytes_of_bits(old(self)@.pending.take(16)),
        ensures
            result == outcome,
            final(self).inner() == old(self).inner(),
            match outcome {
                Ok(_) => final(self)@ == old(self)@.settled(),
                Err(_) => final(self)@ == old(self)@,
            },
    {
        match outcome {
            Ok(done) => {
                self.acc.discard(16);
                proof {
                    self.emitted@ = self.emitted@ + pair_bytes(pair);
                }
                Ok(done)
            },
            Err(e) => Err(e),
        }
    }

    /// Takes the sink's answer to `byte`, the first byte of the pending
    /// bits. Where it took the byte, the byte is emitted and its bits are no
    /// longer pending; where it did not, nothing changes and its error is
    /// handed on.
    fn after_byte(&mut self, byte: u8, outcome: Result<(), Error>) -> (result: Result<(), Error>)
        requires
            byte == first_byte(old(self)@.pending),
        ensures
            result == outcome,
            final(self).inner() == old(self).inner(),
            match outcome {
                Ok(_) => {
                    &&& final(self)@.flushes == old(self)@.flushes
                    &&& final(self)@.emitted == old(self)@.emitted.push(byte)
                    &&& final(self)@.pending == old(self)@.pending.skip(
                        if 8 < old(self)@.pending.len() {
                            8
                        } else {
                            old(self)@.pending.len() as int
                        },
                    )
                },
                Err(_) => final(self)@ == old(self)@,
            },
    {
        match outcome {
            Ok(done) => {
                self.acc.discard(8);
                proof {
                    self.emitted@ = self.emitted@.push(byte);
                }
                Ok(done)
            },
            Err(e) => Err(e),
        }
    }

    /// Takes the sink's answer to a flush request. Where it completed the
    /// request, that is counted; where it did not, nothing changes and its
    /// error is handed on.
    fn after_flush(&mut self, outcome: Result<(), Error>) -> (result: Result<(), Error>)
        ensures
            result == outcome,
            final(self).inner() == old(self).inner(),
            match outcome {
                Ok(_) => final(self)@ == (WriterView {
                    flushes: old(self)@.flushes + 1,
                    ..old(self)@
                }),
                Err(_) => final(self)@ == old(self)@,
            },
    {
        match outcome {
            Ok(done) => {
                proof {
                    self.flushes@ = self.flushes@ + 1;
                }
                Ok(done)
            },
            Err(e) => Err(e),
        }
    }

    /// The sink as it stands.
    pub closed spec fn inner(&self) -> W {
        self.inner
    }

    /// The sink, to look at.
    pub fn as_inner_ref(&self) -> (sink: &W)
        ensures
            *sink == self.inner(),
    {
        &self.inner
    }

    /// The sink, to work on. What the writer holds stays as it is.
    pub fn as_inner_mut(&mut self) -> (sink: &mut W)
        ensures
            *sink == old(self).inner(),
            final(self).inner() == *final(sink),
            final(self)@ == old(self)@,
    {
        &mut self.inner
    }

    /// Gives the sink back. Bits that are still pending are lost.
    pub fn into_inner(self) -> (sink: W)
        ensures
            sink == self.inner(),
    {
        self.inner
    }
}

} // verus!
