//! A bit-precise binary codec.
//!
//! A record is described by an ordered list of field descriptors, each giving
//! a field's width in bits together with its policy (plain bits, a reserved
//! constant, a nested record, a raw byte array, or a length-prefixed byte
//! sequence).  A generic engine drives one shared bit cursor across the
//! descriptors, packing field values into a byte buffer most-significant-bit
//! first, or extracting them back out.  Whole records always begin and end on
//! a byte boundary; the fields inside them need not.

use vstd::prelude::*;

pub mod bits;
pub mod cursor;
pub mod schema;
pub mod record;
pub mod laws;
pub mod codec;

use crate::bits::{byte_bits, lemma_byte_of_bits, lemma_stream_concat, stream_bit};
use crate::codec::copy_bytes;
use crate::cursor::BitCursor;

verus! {

/// The error of a failed pack or unpack, by kind.
#[derive(Debug, PartialEq, Eq, Structural, Clone, Copy)]
pub enum BitWrapError {
    /// The destination or source buffer lacks the bytes required for the
    /// current field, nested record, array or sequence.
    BufferTooShort,
    /// A decoded field value violates an attached equality constraint.
    ValueMismatch,
    /// A decoded field value violates an attached inclusive range constraint.
    ValueOutOfRange,
    /// A decoded raw value is not accepted by the field's conversion: it is
    /// not one of the field's recognised tags.
    ConversionFailure,
}

impl BitWrapError {
    /// A short description of the error, for reporting.
    pub fn message(&self) -> (r: &'static str)
        ensures
            self is BufferTooShort ==> r@ == "index out of bounds"@,
            self is ValueMismatch ==> r@ == "value mismatch"@,
            self is ValueOutOfRange ==> r@ == "value out of range"@,
            self is ConversionFailure ==> r@ == "conversion failure"@,
            r@.len() > 0,
    {
        let r = match self {
            BitWrapError::BufferTooShort => "index out of bounds",
            BitWrapError::ValueMismatch => "value mismatch",
            BitWrapError::ValueOutOfRange => "value out of range",
            BitWrapError::ConversionFailure => "conversion failure",
        };
        proof {
            reveal_strlit("index out of bounds");
            reveal_strlit("value mismatch");
            reveal_strlit("value out of range");
            reveal_strlit("conversion failure");
        }
        r
    }
}

/// Anything that can be packed into, and extracted from, a byte buffer.
///
/// Packing writes `wire()`, a whole number of bytes of bits, at the start
/// of the destination, and leaves the bytes after them as they were; it
/// fails, with `BufferTooShort` and the destination's length unchanged,
/// exactly when the destination cannot hold them.  Unpacking mutates the
/// value in place and reports the bytes consumed; what it leaves behind is
/// each implementor's `unpack_rel` relation.
pub trait BitWrapExt: Sized {
    /// The bit stream that a successful pack writes, most significant bit
    /// of each byte first; always a whole number of bytes.
    spec fn wire(&self) -> Seq<bool>;

    /// Unpacking `src` in state `pre` may leave `post`, consuming `used`
    /// bytes.
    spec fn unpack_rel(pre: Self, src: Seq<u8>, post: Self, used: int) -> bool;

    /// Unpacking `src` in state `pre` is sure to succeed.
    spec fn unpack_accepts(pre: Self, src: Seq<u8>) -> bool;

    /// Unpacking `src` in state `pre` may fail with `e`.
    spec fn unpack_rejects(pre: Self, src: Seq<u8>, e: BitWrapError) -> bool;

    /// Build byte array
    fn pack(&self, dst: &mut [u8]) -> (r: Result<usize, BitWrapError>)
        ensures
            final(dst)@.len() == old(dst)@.len(),
            r is Ok <==> self.wire().len() <= 8 * old(dst)@.len(),
            r matches Ok(n) ==> {
                &&& 8 * n == self.wire().len()
                &&& forall|j: int|
                    0 <= j < self.wire().len() ==> #[trigger] stream_bit(final(dst)@, j)
                        == self.wire()[j]
                &&& forall|k: int|
                    0 <= k < old(dst)@.len() && self.wire().len() <= 8 * k
                        ==> #[trigger] final(dst)@[k] == old(dst)@[k]
            },
            r matches Err(e) ==> e == BitWrapError::BufferTooShort,
    ;

    /// Extract object field values from byte array
    fn unpack(&mut self, src: &[u8]) -> (r: Result<usize, BitWrapError>)
        ensures
            r matches Ok(n) ==> 0 <= n <= src@.len() && Self::unpack_rel(
                *old(self),
                src@,
                *final(self),
                n as int,
            ),
            Self::unpack_accepts(*old(self), src@) ==> r is Ok,
            r matches Err(e) ==> Self::unpack_rejects(*old(self), src@, e),
    ;
}

impl BitWrapExt for Vec<u8> {
    /// The bytes themselves, bit for bit.
    open spec fn wire(&self) -> Seq<bool> {
        byte_bits(self@)
    }

    /// Unpacking appends the whole source to the value.
    open spec fn unpack_rel(pre: Vec<u8>, src: Seq<u8>, post: Vec<u8>, used: int) -> bool {
        post@ == pre@ + src && used == src.len()
    }

    /// Unpacking bytes always succeeds.
    open spec fn unpack_accepts(pre: Vec<u8>, src: Seq<u8>) -> bool {
        true
    }

    /// Unpacking bytes never fails.
    open spec fn unpack_rejects(pre: Vec<u8>, src: Seq<u8>, e: BitWrapError) -> bool {
        false
    }

    fn pack(&self, dst: &mut [u8]) -> (r: Result<usize, BitWrapError>) {
        let mut cur = BitCursor::new();
        let ghost s0 = dst@;
        match copy_bytes(dst, &mut cur, self.as_slice()) {
            Ok(()) => {
                proof {
                    assert forall|k: int|
                        0 <= k < s0.len() && self.wire().len() <= 8 * k implies #[trigger] dst@[k]
                        == s0[k] by {
                        lemma_byte_of_bits(dst@, s0, k);
                    }
                }
                Ok(self.len())
            },
            Err(e) => Err(e),
        }
    }

    fn unpack(&mut self, src: &[u8]) -> (r: Result<usize, BitWrapError>) {
        let n = src.len();
        let ghost v0 = self@;
        let mut k: usize = 0;
        while k < n
            invariant
                0 <= k <= n,
                n == src@.len(),
                self@ == v0 + src@.subrange(0, k as int),
            decreases n - k,
        {
            self.push(src[k]);
            proof {
                assert(src@.subrange(0, k + 1) == src@.subrange(0, k as int).push(src@[k as int]));
            }
            k = k + 1;
        }
        proof {
            assert(src@.subrange(0, n as int) == src@);
        }
        Ok(n)
    }
}

/// The byte ranges of `src` from `pos` on split into chunks, one per listed
/// item, each chunk unpacking (from some starting state) into its item, and
/// together reaching exactly the end of `src`.
pub open spec fn chain_seg<T: BitWrapExt>(src: Seq<u8>, pos: int, items: Seq<T>, end: int) -> bool
    decreases items.len(),
{
    if items.len() == 0 {
        end == pos
    } else {
        exists|start: T, used: int|
            0 < used <= src.len() - pos && #[trigger] T::unpack_rel(
                start,
                src.subrange(pos, src.len() as int),
                items[0],
                used,
            ) && chain_seg(src, pos + used, items.skip(1), end)
    }
}

/// A chain extends on the right by one more unpacked item.
pub proof fn lemma_chain_extend<T: BitWrapExt>(
    src: Seq<u8>,
    pos: int,
    items: Seq<T>,
    mid: int,
    start: T,
    item: T,
    used: int,
)
    requires
        chain_seg(src, pos, items, mid),
        0 < used <= src.len() - mid,
        T::unpack_rel(start, src.subrange(mid, src.len() as int), item, used),
    ensures
        chain_seg(src, pos, items.push(item), mid + used),
    decreases items.len(),
{
    if items.len() == 0 {
        assert(items.push(item)[0] == item);
        assert(items.push(item).skip(1) =~= Seq::<T>::empty());
        assert(chain_seg(src, pos + used, items.push(item).skip(1), mid + used));
    } else {
        let (st0, u0): (T, int) = choose|st0: T, u0: int|
            0 < u0 <= src.len() - pos && #[trigger] T::unpack_rel(
                st0,
                src.subrange(pos, src.len() as int),
                items[0],
                u0,
            ) && chain_seg(src, pos + u0, items.skip(1), mid);
        lemma_chain_extend(src, pos + u0, items.skip(1), mid, start, item, used);
        assert(items.push(item)[0] == items[0]);
        assert forall|k: int| 0 <= k < items.push(item).skip(1).len() implies items.push(
            item,
        ).skip(1)[k] == items.skip(1).push(item)[k] by {
            if k < items.len() - 1 {
                assert(items.push(item).skip(1)[k] == items[k + 1]);
                assert(items.skip(1).push(item)[k] == items[k + 1]);
            } else {
                assert(items.push(item).skip(1)[k] == item);
                assert(items.skip(1).push(item)[k] == item);
            }
        }
        assert(items.push(item).skip(1) =~= items.skip(1).push(item));
        assert(chain_seg(src, pos + u0, items.push(item).skip(1), mid + used));
        assert(0 < u0 <= src.len() - pos && T::unpack_rel(
            st0,
            src.subrange(pos, src.len() as int),
            items.push(item)[0],
            u0,
        ));
    }
}

impl<T: BitWrapExt + Default> BitWrapExt for Vec<T> {
    /// The items' bit streams, one after another.
    open spec fn wire(&self) -> Seq<bool> {
        wire_concat(self@, self@.len() as int)
    }

    /// Unpacking keeps the items already held and appends one item per
    /// chunk of the source, the chunks covering the whole source.  What
    /// state a fresh item starts from is up to `T::default`, of which
    /// nothing is known; the relation leaves it open.
    open spec fn unpack_rel(pre: Vec<T>, src: Seq<u8>, post: Vec<T>, used: int) -> bool {
        &&& used == src.len()
        &&& post@.len() >= pre@.len()
        &&& post@.subrange(0, pre@.len() as int) == pre@
        &&& chain_seg(src, 0, post@.skip(pre@.len() as int), src.len() as int)
    }

    /// An empty source is sure to unpack, into no items.
    open spec fn unpack_accepts(pre: Vec<T>, src: Seq<u8>) -> bool {
        src.len() == 0
    }

    /// Unpacking a list can fail only when there was input to consume.
    open spec fn unpack_rejects(pre: Vec<T>, src: Seq<u8>, e: BitWrapError) -> bool {
        src.len() > 0
    }

    fn pack(&self, dst: &mut [u8]) -> (r: Result<usize, BitWrapError>) {
        let ghost s0 = dst@;
        let len = dst.len();
        let mut skip: usize = 0;
        let mut idx: usize = 0;
        while idx < self.len()
            invariant
                0 <= idx <= self@.len(),
                dst@.len() == len,
                s0.len() == len,
                s0 == old(dst)@,
                8 * skip == wire_concat(self@, idx as int).len(),
                skip <= len,
                forall|j: int|
                    0 <= j < 8 * skip ==> #[trigger] stream_bit(dst@, j) == wire_concat(
                        self@,
                        idx as int,
                    )[j],
                forall|k: int| skip <= k < len ==> #[trigger] dst@[k] == s0[k],
            decreases self@.len() - idx,
        {
            let ghost pre = dst@;
            let ghost prefix = wire_concat(self@, idx as int);
            let (head, rest) = dst.split_at_mut(skip);
            proof {
                assert(head@ == pre.subrange(0, skip as int));
                assert(rest@ == pre.subrange(skip as int, len as int));
            }
            let ghost head0 = head@;
            let ghost rest0 = rest@;
            let r = self[idx].pack(rest);
            match r {
                Ok(wrote) => {
                    proof {
                        lemma_wire_concat_mono(self@, idx as int + 1, self@.len() as int);
                        assert(wire_concat(self@, idx as int + 1) == prefix + self@[
                            idx as int].wire());
                        assert(head@ == head0);
                        assert(dst@ == head@ + rest@);
                        assert forall|j: int|
                            0 <= j < 8 * (skip + wrote) implies #[trigger] stream_bit(dst@, j)
                            == wire_concat(self@, idx as int + 1)[j] by {
                            lemma_stream_concat(head0, rest@, j);
                            if j < 8 * skip {
                                lemma_stream_concat(head0, rest0, j);
                                assert(pre =~= head0 + rest0);
                                assert(stream_bit(pre, j) == stream_bit(head0, j));
                            }
                        }
                        assert forall|k: int|
                            skip + wrote <= k < len implies #[trigger] dst@[k] == s0[k] by {
                            assert(dst@[k] == rest@[k - skip]);
                            assert(rest@[k - skip] == rest0[k - skip]);
                            assert(rest0[k - skip] == pre[k]);
                        }
                    }
                    skip = skip + wrote;
                },
                Err(e) => {
                    proof {
                        lemma_wire_concat_mono(self@, idx as int + 1, self@.len() as int);
                        assert(wire_concat(self@, idx as int + 1) == prefix + self@[
                            idx as int].wire());
                        assert(self@[idx as int].wire().len() > 8 * (len - skip));
                        assert(wire_concat(self@, self@.len() as int).len() > 8 * len);
                        assert(head@ == head0);
                        assert(dst@ == head@ + rest@);
                        assert(dst@.len() == len);
                    }
                    return Err(e);
                },
            }
            idx = idx + 1;
        }
        Ok(skip)
    }

    fn unpack(&mut self, src: &[u8]) -> (r: Result<usize, BitWrapError>) {
        let n = src.len();
        let ghost pre = self@;
        let mut skip: usize = 0;
        while skip < n
            invariant
                0 <= skip <= n,
                n == src@.len(),
                self@.len() >= pre.len(),
                self@.subrange(0, pre.len() as int) == pre,
                chain_seg(src@, 0, self@.skip(pre.len() as int), skip as int),
            decreases n - skip,
        {
            let ghost items = self@.skip(pre.len() as int);
            let mut item = T::default();
            let ghost start = item;
            let piece = vstd::slice::slice_subrange(src, skip, n);
            let used = match item.unpack(piece) {
                Ok(u) => u,
                Err(_) => {
                    return Err(BitWrapError::BufferTooShort);
                },
            };
            if used == 0 {
                // A zero-size item would never let the loop reach the end
                // of the source: treat it as missing input.
                return Err(BitWrapError::BufferTooShort);
            }
            proof {
                lemma_chain_extend(src@, 0, items, skip as int, start, item, used as int);
                assert(self@.push(item).skip(pre.len() as int) =~= items.push(item));
                assert(self@.push(item).subrange(0, pre.len() as int) =~= pre);
            }
            self.push(item);
            skip = skip + used;
        }
        Ok(skip)
    }
}

/// The bit streams of the first `n` items, one after another.
pub open spec fn wire_concat<T: BitWrapExt>(items: Seq<T>, n: int) -> Seq<bool>
    decreases n,
{
    if n <= 0 {
        Seq::empty()
    } else {
        wire_concat(items, n - 1) + items[n - 1].wire()
    }
}

/// An item list's bit stream grows with the items taken.
pub proof fn lemma_wire_concat_mono<T: BitWrapExt>(items: Seq<T>, i: int, n: int)
    requires
        0 <= i <= n,
    ensures
        wire_concat(items, i).len() <= wire_concat(items, n).len(),
    decreases n,
{
    if i < n {
        lemma_wire_concat_mono(items, i, n - 1);
    }
}

} // verus!
