//! What holds of the writer and the reader together, stated over the views
//! that their contracts use.

use vstd::prelude::*;
use crate::bits::{
    bits_of_bytes, bytes_of_bits, low_bits, ones, padding, value_of, zeros,
    lemma_bits_of_bytes_concat, lemma_bits_of_bytes_subrange, lemma_bits_of_packed_bytes,
    lemma_value_of_low_bits,
};
use crate::reader::{bytes_needed, ReaderView};
use crate::writer::WriterView;

verus! {

/// What a writer holds after a fresh start and the writes `fields`, each a
/// width and a value, every one of which the sink took.
pub open spec fn written_all(fields: Seq<(u8, u16)>) -> WriterView
    decreases fields.len(),
{
    if fields.len() == 0 {
        WriterView::fresh()
    } else {
        written_all(fields.drop_last()).written(fields.last().0 as int, fields.last().1)
    }
}

/// The bytes that have reached the sink once `fields` are written to a
/// fresh writer and the writer is flushed.
pub open spec fn encoded(fields: Seq<(u8, u16)>) -> Seq<u8> {
    written_all(fields).flushed().emitted
}

/// One read of `width` bits by a reader in state `view` whose source holds
/// `source` in all, `view.taken` included: the value and the state after it,
/// or nothing where the source runs out.
pub open spec fn read_step(view: ReaderView, source: Seq<u8>, width: int) -> Option<
    (nat, ReaderView),
> {
    let at = view.taken.len() as int;
    let needed = bytes_needed(view.pending.len() as int, width);
    if at + needed <= source.len() {
        let fed = view.fed(source.subrange(at, at + needed));
        Some((fed.front(width), fed.skipped(width)))
    } else {
        None
    }
}

/// The reads `widths`, in order, by a fresh reader on a source that holds
/// `source`: the values and the state after them, or nothing where the
/// source runs out.
pub open spec fn read_all(source: Seq<u8>, widths: Seq<u8>) -> Option<(Seq<nat>, ReaderView)>
    decreases widths.len(),
{
    if widths.len() == 0 {
        Some((Seq::empty(), ReaderView::fresh()))
    } else {
        match read_all(source, widths.drop_last()) {
            Some((values, view)) => match read_step(view, source, widths.last() as int) {
                Some((value, after)) => Some((values.push(value), after)),
                None => None,
            },
            None => None,
        }
    }
}

/// The values that the reads `widths` give on a source that holds `source`.
pub open spec fn decoded(source: Seq<u8>, widths: Seq<u8>) -> Option<Seq<nat>> {
    match read_all(source, widths) {
        Some((values, _)) => Some(values),
        None => None,
    }
}

/// The widths of `fields`, in order.
pub open spec fn widths_of(fields: Seq<(u8, u16)>) -> Seq<u8> {
    Seq::new(fields.len(), |i: int| fields[i].0)
}

/// `value` with all but its low `width` bits cleared.
pub open spec fn masked(width: u8, value: u16) -> nat {
    ((value as u64) & ones(width as u64)) as nat
}

/// The values of `fields`, each masked to its width.
pub open spec fn masked_values(fields: Seq<(u8, u16)>) -> Seq<nat> {
    Seq::new(fields.len(), |i: int| masked(fields[i].0, fields[i].1))
}

/// The bits that the writes `fields` put on the stream, in order.
pub open spec fn all_bits(fields: Seq<(u8, u16)>) -> Seq<bool>
    decreases fields.len(),
{
    if fields.len() == 0 {
        Seq::empty()
    } else {
        all_bits(fields.drop_last()) + low_bits(fields.last().0 as int, fields.last().1)
    }
}

/// Every width of `fields` is one that a single write takes.
pub open spec fn writable(fields: Seq<(u8, u16)>) -> bool {
    forall|i: int| 0 <= i < fields.len() ==> (#[trigger] fields[i]).0 < 16
}

/// After any writes to a fresh writer that the sink took, fewer than
/// sixteen bits are pending, and the bytes emitted and the bits pending are,
/// read in a row, the bits written.
pub proof fn written_bits(fields: Seq<(u8, u16)>)
    requires
        writable(fields),
    ensures
        bits_of_bytes(written_all(fields).emitted) + written_all(fields).pending == all_bits(
            fields,
        ),
        written_all(fields).pending.len() < 16,
    decreases fields.len(),
{
    if fields.len() == 0 {
        assert(bits_of_bytes(Seq::<u8>::empty()) + Seq::<bool>::empty() =~= Seq::<bool>::empty());
    } else {
        let before = written_all(fields.drop_last());
        assert(writable(fields.drop_last()));
        written_bits(fields.drop_last());
        let held = before.held(fields.last().0 as int, fields.last().1);
        if held.pending.len() >= 16 {
            let pair = held.pending.take(16);
            lemma_bits_of_bytes_concat(before.emitted, bytes_of_bits(pair));
            lemma_bits_of_packed_bytes(pair);
            assert(pair + zeros(padding(16)) =~= pair);
            assert(bits_of_bytes(held.settled().emitted) + held.settled().pending =~= bits_of_bytes(
                before.emitted,
            ) + held.pending);
        }
        assert(bits_of_bytes(before.emitted) + held.pending =~= all_bits(fields));
    }
}

/// Wire format: the bytes that reach the sink, read as one contiguous
/// little-endian bit sequence, are the bits written, in the order in which
/// they were written, followed by the zeros that fill the last byte.
pub proof fn encoded_bits(fields: Seq<(u8, u16)>)
    requires
        writable(fields),
    ensures
        bits_of_bytes(encoded(fields)) == all_bits(fields) + zeros(
            padding(all_bits(fields).len() as int),
        ),
{
    let held = written_all(fields);
    written_bits(fields);
    lemma_bits_of_bytes_concat(held.emitted, bytes_of_bits(held.pending));
    lemma_bits_of_packed_bytes(held.pending);
    assert(all_bits(fields).len() == 8 * held.emitted.len() + held.pending.len());
    assert(padding(all_bits(fields).len() as int) == padding(held.pending.len() as int));
    assert(bits_of_bytes(encoded(fields)) =~= all_bits(fields) + zeros(
        padding(held.pending.len() as int),
    ));
}

/// The reader has taken a whole number of the source's bytes and consumed
/// the first `used` of their bits.
spec fn lined_up(view: ReaderView, source: Seq<u8>, used: int) -> bool {
    &&& view.taken.len() <= source.len()
    &&& view.taken == source.take(view.taken.len() as int)
    &&& 0 <= used <= 8 * view.taken.len()
    &&& view.pending == bits_of_bytes(source).subrange(used, 8 * (view.taken.len() as int))
}

/// A reader that is lined up on a source with `width` more bits in it reads
/// the next `width` bits of the source and stays lined up.
proof fn lemma_read_step(view: ReaderView, source: Seq<u8>, used: int, width: int)
    requires
        lined_up(view, source, used),
        0 <= width <= 16,
        used + width <= 8 * source.len(),
    ensures
        read_step(view, source, width) matches Some((value, after)) && value == value_of(
            bits_of_bytes(source).subrange(used, used + width),
        ) && lined_up(after, source, used + width),
{
    let stream = bits_of_bytes(source);
    let at = view.taken.len() as int;
    let needed = bytes_needed(view.pending.len() as int, width);
    assert(at + needed <= source.len());
    let fed = view.fed(source.subrange(at, at + needed));
    lemma_bits_of_bytes_subrange(source, at, at + needed);
    assert(fed.taken =~= source.take(at + needed));
    assert(fed.pending =~= stream.subrange(used, 8 * (at + needed)));
    assert(fed.pending.take(width) =~= stream.subrange(used, used + width));
    assert(fed.skipped(width).pending =~= stream.subrange(used + width, 8 * (at + needed)));
}

/// On a source whose bits begin with the bits of `fields`, reading the
/// widths of `fields` gives their values, masked.
proof fn lemma_read_all(source: Seq<u8>, fields: Seq<(u8, u16)>)
    requires
        writable(fields),
        all_bits(fields).is_prefix_of(bits_of_bytes(source)),
    ensures
        read_all(source, widths_of(fields)) matches Some((values, view)) && values
            == masked_values(fields) && lined_up(view, source, all_bits(fields).len() as int),
    decreases fields.len(),
{
    let stream = bits_of_bytes(source);
    if fields.len() == 0 {
        assert(masked_values(fields) =~= Seq::<nat>::empty());
        assert(source.take(0) =~= Seq::<u8>::empty());
        assert(stream.subrange(0, 0) =~= Seq::<bool>::empty());
    } else {
        let earlier = fields.drop_last();
        let width = fields.last().0;
        let value = fields.last().1;
        let used = all_bits(earlier).len() as int;
        assert(writable(earlier));
        assert(all_bits(earlier).is_prefix_of(stream));
        lemma_read_all(source, earlier);
        assert(widths_of(fields).drop_last() =~= widths_of(earlier));
        let (values, view) = read_all(source, widths_of(earlier))->Some_0;
        lemma_read_step(view, source, used, width as int);
        let whole = all_bits(fields);
        let last = low_bits(width as int, value);
        assert(whole == all_bits(earlier) + last);
        assert(whole == stream.subrange(0, whole.len() as int));
        assert forall|i: int| 0 <= i < width implies stream.subrange(used, used + width)[i]
            == #[trigger] last[i] by {
            assert(whole[used + i] == last[i]);
            assert(stream.subrange(0, whole.len() as int)[used + i] == stream[used + i]);
        }
        assert(stream.subrange(used, used + width) =~= last);
        lemma_value_of_low_bits(value as u32, width as int);
        assert(masked_values(fields) =~= masked_values(earlier).push(masked(width, value)));
    }
}

/// Round trip: where values of up to fifteen bits are written to a fresh
/// writer and the writer is flushed, a fresh reader on the bytes that
/// reached the sink, asked for the same widths in the same order, gets each
/// value back, masked to its width.
pub proof fn round_trip(fields: Seq<(u8, u16)>)
    requires
        writable(fields),
    ensures
        decoded(encoded(fields), widths_of(fields)) == Some(masked_values(fields)),
{
    encoded_bits(fields);
    lemma_read_all(encoded(fields), fields);
}

/// Peeking is repeatable: after a peek of `width` bits, for which the
/// source delivered `fresh`, a second peek of `width` bits needs no byte
/// from the source, leaves the reader as it is and sees the same value.
pub proof fn peek_twice(view: ReaderView, fresh: Seq<u8>, width: u8)
    requires
        fresh.len() == bytes_needed(view.pending.len() as int, width as int),
    ensures
        bytes_needed(view.fed(fresh).pending.len() as int, width as int) == 0,
        view.fed(fresh).fed(Seq::empty()) == view.fed(fresh),
        view.fed(fresh).fed(Seq::empty()).front(width as int) == view.fed(fresh).front(
            width as int,
        ),
{
    let once = view.fed(fresh);
    let twice = once.fed(Seq::empty());
    assert(twice.taken =~= once.taken);
    assert(twice.pending =~= once.pending);
}

/// Flush drains fully: after a flush that the sink took, no bit is pending,
/// and a second flush right after it sends no byte: it only passes the
/// flush request on.
pub proof fn flush_twice(view: WriterView)
    ensures
        view.flushed().pending.len() == 0,
        view.flushed().flushed() == (WriterView {
            flushes: view.flushed().flushes + 1,
            ..view.flushed()
        }),
        view.flushed().drained(0) == view.flushed(),
{
    let once = view.flushed();
    assert(bytes_of_bits(once.pending) =~= Seq::<u8>::empty());
    assert(once.drained(0).emitted =~= once.emitted);
    assert(once.drained(0).pending =~= once.pending);
    assert(once.flushed().emitted =~= once.emitted);
}

/// Reset discards the buffer, not the position: after a reset, a read of
/// `width` bits takes all the bytes that hold so many bits from the source,
/// which go on from where the source stood, and its value is spelled by
/// their bits alone.
pub proof fn read_after_reset(view: ReaderView, fresh: Seq<u8>, width: u8)
    requires
        fresh.len() == bytes_needed(0, width as int),
    ensures
        view.emptied().taken == view.taken,
        bytes_needed(view.emptied().pending.len() as int, width as int) == (width + 7) / 8,
        view.emptied().fed(fresh).taken == view.taken + fresh,
        view.emptied().fed(fresh).front(width as int) == value_of(
            bits_of_bytes(fresh).take(width as int),
        ),
{
    assert(view.emptied().fed(fresh).pending =~= bits_of_bytes(fresh));
}

} // verus!
