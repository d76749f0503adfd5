//! The primitive bit codec: packing and unpacking one unsigned field of
//! 1 to 64 bits at the cursor's position, crossing byte boundaries as
//! needed, most significant bit first.

use vstd::prelude::*;
use vstd::arithmetic::power2::*;
use vstd::bits::{
    lemma_u64_low_bits_mask_is_mod, lemma_u64_pow2_no_overflow, lemma_u64_shl_is_mul,
    low_bits_mask,
};
use crate::BitWrapError;
use crate::bits::{
    bits_value, field_bit, lemma_bits_value_bound, lemma_bits_value_in_byte,
    lemma_bits_value_split, lemma_div8_range, lemma_stream_update_other, next8, pad_clear,
    stream_bit, u64_bit, u8_bit,
};
use crate::cursor::BitCursor;

verus! {

/// The cursor points into the buffer `s`: its byte offset never passes the
/// end, and while a byte is partly consumed that byte exists.
pub open spec fn cursor_in(c: BitCursor, s: Seq<u8>) -> bool {
    &&& c.wf()
    &&& c.byte <= s.len()
    &&& (!c.aligned() ==> c.byte < s.len())
}

/// Read `width` bits at the cursor, most significant first, and advance the
/// cursor past them.
///
/// Fails with `BufferTooShort`, exactly when the `width` bits starting at
/// the cursor would run past the end of `src`, without moving the cursor.
pub fn unpack_bits(src: &[u8], cur: &mut BitCursor, width: usize) -> (r: Result<
    u64,
    BitWrapError,
>)
    requires
        cursor_in(*old(cur), src@),
        1 <= width <= 64,
    ensures
        r is Ok <==> old(cur).pos() + width <= 8 * src@.len(),
        r is Err ==> *final(cur) == *old(cur) && r == Err::<u64, BitWrapError>(
            BitWrapError::BufferTooShort,
        ),
        r matches Ok(v) ==> {
            &&& v as nat == bits_value(src@, old(cur).pos(), width as int)
            &&& v < pow2(width as nat)
            &&& cursor_in(*final(cur), src@)
            &&& final(cur).pos() == old(cur).pos() + width
        },
{
    let len = src.len();
    let ghost p0 = old(cur).pos();

    // Exact bounds check: the field's last bit must land inside the buffer.
    if cur.avail == 8 {
        let need = (width + 7) / 8;
        if len - cur.byte < need {
            return Err(BitWrapError::BufferTooShort);
        }
    } else {
        if width > cur.avail {
            let extra = (width - cur.avail + 7) / 8;
            if len - (cur.byte + 1) < extra {
                return Err(BitWrapError::BufferTooShort);
            }
        }
    }
    assert(p0 + width <= 8 * src@.len());

    let mut value: u64 = 0;
    let mut w = width;

    proof {
        lemma_pow2_pos(width as nat);
        assert(bits_value(src@, p0, 0) == 0);
    }

    while w > cur.avail
        invariant
            cursor_in(*cur, src@),
            1 <= w <= width <= 64,
            cur.pos() == p0 + (width - w),
            p0 + width <= 8 * src@.len(),
            src@.len() == len,
            value as nat == bits_value(src@, p0, width - w) * pow2(w as nat),
            w == width || cur.aligned(),
        decreases w,
    {
        let ghost p = cur.pos();
        let ghost done = width - w;
        let avail = cur.avail;
        let shift = w - avail;
        let m: u8 = 0xFFu8 >> ((8 - avail) as u8);
        let b = src[cur.byte];
        let chunk: u64 = (b & m) as u64;

        proof {
            // This byte's unread low bits are the next `avail` stream bits.
            assert(8 * cur.byte + (8 - avail) == p);
            lemma_bits_value_in_byte(src@, cur.byte as int, 8 - avail as int, avail as int);
            assert((b >> 0u8) == b) by (bit_vector);
            assert(chunk as nat == bits_value(src@, p, avail as int));
            assert(chunk < pow2(avail as nat)) by {
                lemma_bits_value_bound(src@, p, avail as int);
            }
        }

        let piece: u64 = chunk << (shift as u64);

        proof {
            // The shifted chunk is the chunk scaled by two to the shift.
            lemma_pow2_adds((avail) as nat, shift as nat);
            lemma_pow2_pos(shift as nat);
            assert(chunk * pow2(shift as nat) < pow2(w as nat)) by (nonlinear_arith)
                requires
                    chunk < pow2(avail as nat),
                    pow2(avail as nat) * pow2(shift as nat) == pow2(w as nat),
                    pow2(shift as nat) > 0,
            ;
            assert(pow2(w as nat) <= pow2(64)) by {
                if (w as nat) < 64 {
                    lemma_pow2_strictly_increases(w as nat, 64);
                }
            }
            lemma2_to64_rest();
            assert(chunk * pow2(shift as nat) <= u64::MAX);
            lemma_u64_shl_is_mul(chunk, shift as u64);
            assert(piece == chunk * pow2(shift as nat));
        }

        let prev = value;
        value = value | piece;

        proof {
            assert(prev as nat == bits_value(src@, p0, done) * pow2(w as nat));
            if done == 0 {
                assert(bits_value(src@, p0, 0) == 0);
                assert(prev as nat == 0 * pow2(w as nat));
                assert(prev == 0);
                assert(0u64 | piece == piece) by (bit_vector);
                assert(value == piece);
            } else {
                // prev is a multiple of two to the w, piece lies below it:
                // the or is a carry-free sum.
                let ww = w as u64;
                assert(w <= 63);
                assert(prev as nat % pow2(w as nat) == 0) by (nonlinear_arith)
                    requires
                        prev as nat == bits_value(src@, p0, width - w) * pow2(w as nat),
                        pow2(w as nat) > 0,
                ;
                lemma_u64_pow2_no_overflow(w as nat);
                lemma_u64_low_bits_mask_is_mod(prev, w as nat);
                assert(low_bits_mask(w as nat) == (pow2(w as nat) - 1) as nat);
                lemma_u64_shl_is_mul(1u64, ww);
                assert(1u64 << ww == pow2(w as nat));
                assert(prev & (((1u64 << ww) - 1) as u64) == 0);
                assert(piece < (1u64 << ww));
                assert(prev | piece == prev + piece) by (bit_vector)
                    requires
                        ww < 64,
                        prev & (((1u64 << ww) - 1) as u64) == 0,
                        piece < (1u64 << ww),
                ;
            }
            // Re-associate: the accumulated high part plus the new chunk is
            // the value of the longer prefix, still scaled.
            let a = bits_value(src@, p0, done);
            lemma_bits_value_split(src@, p0, done, avail as int);
            lemma_pow2_adds(avail as nat, shift as nat);
            assert((a * pow2(avail as nat) + chunk) * pow2(shift as nat) == a * (pow2(
                avail as nat,
            ) * pow2(shift as nat)) + chunk * pow2(shift as nat)) by (nonlinear_arith);
            assert(value as nat == bits_value(src@, p0, done + avail) * pow2(shift as nat));
        }

        cur.byte = cur.byte + 1;
        w = w - avail;
        cur.avail = 8;

        proof {
            assert(cur.byte <= src@.len()) by {
                assert(8 * (cur.byte - 1) + 8 <= p0 + width <= 8 * src@.len());
            }
        }
    }

    // Terminal step: the remaining w bits sit inside the current byte.
    let ghost p = cur.pos();
    let ghost done = width - w;
    let avail = cur.avail;
    let m: u8 = 0xFFu8 >> ((8 - w) as u8);
    proof {
        assert(cur.byte < src@.len()) by {
            assert(8 * cur.byte + (8 - avail) + w <= p0 + width <= 8 * src@.len());
        }
    }
    let b = src[cur.byte];
    let sh = avail - w;
    let chunk: u64 = ((b >> (sh as u8)) & m) as u64;

    proof {
        assert(8 * cur.byte + (8 - avail) == p);
        lemma_bits_value_in_byte(src@, cur.byte as int, 8 - avail as int, w as int);
        assert(chunk as nat == bits_value(src@, p, w as int));
        lemma_bits_value_bound(src@, p, w as int);
    }

    let prev = value;
    value = value | chunk;

    proof {
        if done == 0 {
            assert(prev == 0);
            assert(0u64 | chunk == chunk) by (bit_vector);
        } else {
            let ww = w as u64;
            assert(w <= 63);
            assert(prev as nat % pow2(w as nat) == 0) by (nonlinear_arith)
                requires
                    prev as nat == bits_value(src@, p0, width - w) * pow2(w as nat),
                    pow2(w as nat) > 0,
            ;
            lemma_u64_pow2_no_overflow(w as nat);
            lemma_u64_low_bits_mask_is_mod(prev, w as nat);
            lemma_u64_shl_is_mul(1u64, ww);
            assert(prev & (((1u64 << ww) - 1) as u64) == 0);
            assert(chunk < (1u64 << ww));
            assert(prev | chunk == prev + chunk) by (bit_vector)
                requires
                    ww < 64,
                    prev & (((1u64 << ww) - 1) as u64) == 0,
                    chunk < (1u64 << ww),
            ;
        }
        lemma_bits_value_split(src@, p0, done, w as int);
        lemma2_to64();
        assert(pow2(0) == 1);
        assert(bits_value(src@, p0, done) * pow2(w as nat) + chunk as nat == bits_value(
            src@,
            p0,
            width as int,
        ));
        lemma_bits_value_bound(src@, p0, width as int);
    }

    if w == avail {
        cur.byte = cur.byte + 1;
        cur.avail = 8;
        proof {
            assert(cur.byte <= src@.len()) by {
                assert(8 * (cur.byte - 1) + 8 <= p0 + width <= 8 * src@.len());
            }
        }
    } else {
        cur.avail = avail - w;
    }

    Ok(value)
}
/// Write the low `width` bits of `value` at the cursor, most significant
/// first, and advance the cursor past them.  The caller hands over the
/// still-unused low bits of the current byte clear; the field's bits are
/// or-ed in, and every byte the field runs into is cleared before it is
/// first written, so the unused tail of the last byte is left clear for the
/// next field.
///
/// Fails with `BufferTooShort`, exactly when the `width` bits starting at
/// the cursor would run past the end of `dst`, touching nothing.
pub fn pack_bits(dst: &mut [u8], cur: &mut BitCursor, value: u64, width: usize) -> (r: Result<
    (),
    BitWrapError,
>)
    requires
        cursor_in(*old(cur), old(dst)@),
        1 <= width <= 64,
        !old(cur).aligned() ==> pad_clear(old(dst)@, old(cur).pos()),
    ensures
        final(dst)@.len() == old(dst)@.len(),
        r is Ok <==> old(cur).pos() + width <= 8 * old(dst)@.len(),
        r is Err ==> final(dst)@ == old(dst)@ && *final(cur) == *old(cur) && r == Err::<
            (),
            BitWrapError,
        >(BitWrapError::BufferTooShort),
        r is Ok ==> {
            &&& cursor_in(*final(cur), final(dst)@)
            &&& final(cur).pos() == old(cur).pos() + width
            &&& forall|j: int|
                0 <= j < old(cur).pos() ==> #[trigger] stream_bit(final(dst)@, j) == stream_bit(
                    old(dst)@,
                    j,
                )
            &&& forall|j: int|
                old(cur).pos() <= j < old(cur).pos() + width ==> #[trigger] stream_bit(
                    final(dst)@,
                    j,
                ) == field_bit(value, width as int, j - old(cur).pos())
            &&& pad_clear(final(dst)@, old(cur).pos() + width)
            &&& forall|j: int|
                next8(old(cur).pos() + width) <= j < 8 * old(dst)@.len()
                    ==> #[trigger] stream_bit(final(dst)@, j) == stream_bit(old(dst)@, j)
        },
{
    let len = dst.len();
    let ghost s0 = dst@;
    let ghost p0 = old(cur).pos();

    // Exact bounds check before any byte is touched.
    if cur.avail == 8 {
        let need = (width + 7) / 8;
        if len - cur.byte < need {
            return Err(BitWrapError::BufferTooShort);
        }
        // The field starts a fresh byte: clear it before or-ing into it.
        let ghost sprev = dst@;
        dst[cur.byte] = 0;
        proof {
            let bi = cur.byte as int;
            assert(dst@ == sprev.update(bi, 0u8));
            assert forall|j: int|
                0 <= j < 8 * len && !(8 * bi <= j < 8 * bi + 8) implies #[trigger] stream_bit(
                dst@,
                j,
            ) == stream_bit(sprev, j) by {
                lemma_stream_update_other(sprev, bi, 0u8, j);
            }
            assert forall|j: int| 8 * bi <= j < 8 * bi + 8 implies !(#[trigger] stream_bit(
                dst@,
                j,
            )) by {
                lemma_div8_range(j, bi);
                let kk = (7 - (j - 8 * bi)) as u8;
                assert(!u8_bit(0u8, kk)) by (bit_vector);
            }
        }
    } else {
        if width > cur.avail {
            let extra = (width - cur.avail + 7) / 8;
            if len - (cur.byte + 1) < extra {
                return Err(BitWrapError::BufferTooShort);
            }
        }
        proof {
            // The tail of the current byte reaches exactly to its end.
            lemma_div8_range(p0 + 7, cur.byte as int + 1);
            assert(next8(p0) == 8 * (cur.byte + 1));
        }
    }
    assert(p0 + width <= 8 * dst@.len());

    let mut w = width;

    while w > cur.avail
        invariant
            cur.wf(),
            dst@.len() == len,
            s0.len() == len,
            cur.byte < len,
            1 <= w <= width <= 64,
            0 <= p0,
            cur.pos() == p0 + (width - w),
            p0 + width <= 8 * len,
            forall|j: int| 0 <= j < p0 ==> #[trigger] stream_bit(dst@, j) == stream_bit(s0, j),
            forall|j: int|
                p0 <= j < cur.pos() ==> #[trigger] stream_bit(dst@, j) == field_bit(
                    value,
                    width as int,
                    j - p0,
                ),
            forall|j: int|
                cur.pos() <= j < 8 * (cur.byte + 1) ==> !(#[trigger] stream_bit(dst@, j)),
            forall|j: int|
                8 * (cur.byte + 1) <= j < 8 * len ==> #[trigger] stream_bit(dst@, j)
                    == stream_bit(s0, j),
        decreases w,
    {
        let ghost p = cur.pos();
        let ghost sprev = dst@;
        let avail = cur.avail;
        let shift = w - avail;
        let m: u8 = 0xFFu8 >> ((8 - avail) as u8);
        let hi: u8 = #[verifier::truncate] ((value >> (shift as u64)) as u8);
        let chunk: u8 = hi & m;
        let bi_exec = cur.byte;
        let b = dst[bi_exec];
        let b2: u8 = b | chunk;
        dst[bi_exec] = b2;

        proof {
            let bi = bi_exec as int;
            let av = avail as u8;
            let shv = shift as u64;
            assert(8 * bi + (8 - avail) == p);
            assert(p + avail == 8 * (bi + 1));
            assert(dst@ == sprev.update(bi, b2));
            // Outside the touched byte nothing moved.
            assert forall|j: int|
                0 <= j < 8 * len && !(8 * bi <= j < 8 * bi + 8) implies #[trigger] stream_bit(
                dst@,
                j,
            ) == stream_bit(sprev, j) by {
                lemma_stream_update_other(sprev, bi, b2, j);
            }
            // Inside it: the bits above the cursor are kept, the rest now
            // hold the top `avail` bits of the remaining value.
            assert forall|j: int| 8 * bi <= j < p implies #[trigger] stream_bit(dst@, j)
                == stream_bit(sprev, j) by {
                lemma_div8_range(j, bi);
                let kk = (7 - (j - 8 * bi)) as u8;
                assert(u8_bit(b2, kk) == u8_bit(b, kk)) by (bit_vector)
                    requires
                        b2 == b | ((#[verifier::truncate] ((value >> shv) as u8)) & (0xFFu8 >> ((8
                            - av) as u8))),
                        av <= kk < 8,
                        1 <= av <= 8,
                ;
            }
            assert forall|j: int| p <= j < p + avail implies #[trigger] stream_bit(dst@, j)
                == field_bit(value, width as int, j - p0) by {
                lemma_div8_range(j, bi);
                let kk = (7 - (j - 8 * bi)) as u8;
                assert(!stream_bit(sprev, j));
                assert(!u8_bit(b, kk));
                assert(u8_bit(b2, kk) == u64_bit(value, (shv + kk) as u64)) by (bit_vector)
                    requires
                        b2 == b | ((#[verifier::truncate] ((value >> shv) as u8)) & (0xFFu8 >> ((8
                            - av) as u8))),
                        !u8_bit(b, kk),
                        kk < av,
                        1 <= av <= 8,
                        shv + av <= 64,
                ;
                assert(width - 1 - (j - p0) == shv + kk);
            }
        }

        cur.byte = cur.byte + 1;
        proof {
            assert(cur.byte < len) by {
                assert(8 * cur.byte + (w - avail) <= p0 + width <= 8 * len);
                assert(w - avail >= 1);
            }
        }
        let ghost smid = dst@;
        let bj_exec = cur.byte;
        dst[bj_exec] = 0;

        proof {
            let bj = bj_exec as int;
            assert(dst@ == smid.update(bj, 0u8));
            assert forall|j: int|
                0 <= j < 8 * len && !(8 * bj <= j < 8 * bj + 8) implies #[trigger] stream_bit(
                dst@,
                j,
            ) == stream_bit(smid, j) by {
                lemma_stream_update_other(smid, bj, 0u8, j);
            }
            assert forall|j: int| 8 * bj <= j < 8 * bj + 8 implies !(#[trigger] stream_bit(
                dst@,
                j,
            )) by {
                lemma_div8_range(j, bj);
                let kk = (7 - (j - 8 * bj)) as u8;
                assert(!u8_bit(0u8, kk)) by (bit_vector);
            }
            // Re-establish the loop shape for the advanced cursor.
            assert(p + avail == 8 * bj);
            assert forall|j: int| 0 <= j < p0 implies #[trigger] stream_bit(dst@, j)
                == stream_bit(s0, j) by {
                assert(stream_bit(dst@, j) == stream_bit(smid, j));
            }
            assert forall|j: int| p0 <= j < p + avail implies #[trigger] stream_bit(dst@, j)
                == field_bit(value, width as int, j - p0) by {
                assert(smid.len() == len);
                assert(0 <= bj < smid.len());
                assert(j < 8 * bj);
                lemma_stream_update_other(smid, bj, 0u8, j);
                assert(stream_bit(dst@, j) == stream_bit(smid, j));
            }
            assert forall|j: int| 8 * (bj + 1) <= j < 8 * len implies #[trigger] stream_bit(
                dst@,
                j,
            ) == stream_bit(s0, j) by {
                assert(stream_bit(dst@, j) == stream_bit(smid, j));
                assert(stream_bit(smid, j) == stream_bit(sprev, j));
            }
        }

        w = w - avail;
        cur.avail = 8;
    }

    // Terminal step: the remaining w bits land inside the current byte.
    let ghost p = cur.pos();
    let ghost sprev = dst@;
    let avail = cur.avail;
    let m: u8 = 0xFFu8 >> ((8 - w) as u8);
    let lo: u8 = #[verifier::truncate] (value as u8);
    let chunk: u8 = lo & m;
    let sh = avail - w;
    let bi_exec = cur.byte;
    let b = dst[bi_exec];
    let b2: u8 = b | (chunk << (sh as u8));
    dst[bi_exec] = b2;

    proof {
        let bi = bi_exec as int;
        let ws = w as u8;
        let shv = sh as u8;
        assert(8 * bi + (8 - avail) == p);
        assert(p + avail == 8 * (bi + 1));
        assert(dst@ == sprev.update(bi, b2));
        assert forall|j: int|
            0 <= j < 8 * len && !(8 * bi <= j < 8 * bi + 8) implies #[trigger] stream_bit(dst@, j)
            == stream_bit(sprev, j) by {
            lemma_stream_update_other(sprev, bi, b2, j);
        }
        assert forall|j: int|
            8 * bi <= j < 8 * bi + 8 && !(p <= j < p + w) implies #[trigger] stream_bit(dst@, j)
            == stream_bit(sprev, j) by {
            lemma_div8_range(j, bi);
            let kk = (7 - (j - 8 * bi)) as u8;
            assert(u8_bit(b2, kk) == (u8_bit(b, kk) || (shv <= kk < shv + ws && u8_bit(
                (#[verifier::truncate] (value as u8)) & (0xFFu8 >> ((8 - ws) as u8)),
                (kk - shv) as u8,
            )))) by (bit_vector)
                requires
                    b2 == b | (((#[verifier::truncate] (value as u8)) & (0xFFu8 >> ((8
                        - ws) as u8))) << shv),
                    kk < 8,
                    1 <= ws <= 8,
                    shv + ws <= 8,
            ;
            if shv <= kk < shv + ws {
                assert(p <= j < p + w);
            }
            if u8_bit(b, kk) {
                assert(stream_bit(sprev, j));
            }
        }
        assert forall|j: int| p <= j < p + w implies #[trigger] stream_bit(dst@, j) == field_bit(
            value,
            width as int,
            j - p0,
        ) by {
            lemma_div8_range(j, bi);
            let kk = (7 - (j - 8 * bi)) as u8;
            assert(!stream_bit(sprev, j));
            assert(!u8_bit(b, kk));
            assert(u8_bit(b2, kk) == u64_bit(value, (kk - shv) as u64)) by (bit_vector)
                requires
                    b2 == b | (((#[verifier::truncate] (value as u8)) & (0xFFu8 >> ((8
                        - ws) as u8))) << shv),
                    !u8_bit(b, kk),
                    shv <= kk,
                    kk < shv + ws,
                    1 <= ws <= 8,
                    shv + ws <= 8,
            ;
            assert(width - 1 - (j - p0) == kk - shv);
        }
    }

    if w == avail {
        cur.byte = cur.byte + 1;
        cur.avail = 8;
        proof {
            assert(cur.byte <= len) by {
                assert(8 * (cur.byte - 1) + 8 <= p0 + width <= 8 * len);
            }
            assert(next8(p0 + width) == p0 + width) by {
                lemma_div8_range(p0 + width - 1, cur.byte - 1);
            }
        }
    } else {
        cur.avail = sh;
        proof {
            assert(next8(p0 + width) == 8 * (cur.byte + 1)) by {
                lemma_div8_range(p0 + width + 7, cur.byte as int + 1);
            }
        }
    }

    Ok(())
}

/// Copy a whole byte string at a byte-aligned cursor, advancing it past
/// the copied bytes.
///
/// Fails with `BufferTooShort`, exactly when the bytes would run past the
/// end of `dst`, touching nothing.
pub fn copy_bytes(dst: &mut [u8], cur: &mut BitCursor, data: &[u8]) -> (r: Result<
    (),
    BitWrapError,
>)
    requires
        cursor_in(*old(cur), old(dst)@),
        old(cur).aligned(),
    ensures
        final(dst)@.len() == old(dst)@.len(),
        r is Ok <==> old(cur).pos() + 8 * data@.len() <= 8 * old(dst)@.len(),
        r is Err ==> final(dst)@ == old(dst)@ && *final(cur) == *old(cur) && r == Err::<
            (),
            BitWrapError,
        >(BitWrapError::BufferTooShort),
        r is Ok ==> {
            &&& cursor_in(*final(cur), final(dst)@)
            &&& final(cur).aligned()
            &&& final(cur).pos() == old(cur).pos() + 8 * data@.len()
            &&& forall|j: int|
                0 <= j < old(cur).pos() ==> #[trigger] stream_bit(final(dst)@, j) == stream_bit(
                    old(dst)@,
                    j,
                )
            &&& forall|j: int|
                old(cur).pos() <= j < old(cur).pos() + 8 * data@.len() ==> #[trigger] stream_bit(
                    final(dst)@,
                    j,
                ) == stream_bit(data@, j - old(cur).pos())
            &&& forall|j: int|
                old(cur).pos() + 8 * data@.len() <= j < 8 * old(dst)@.len()
                    ==> #[trigger] stream_bit(final(dst)@, j) == stream_bit(old(dst)@, j)
        },
{
    let n = data.len();
    let len = dst.len();
    let ghost s0 = dst@;
    let ghost p0 = old(cur).pos();
    let b0 = cur.byte;

    if len - b0 < n {
        return Err(BitWrapError::BufferTooShort);
    }

    let mut k: usize = 0;
    while k < n
        invariant
            0 <= k <= n,
            b0 + n <= len,
            dst@.len() == len,
            s0.len() == len,
            data@.len() == n,
            forall|t: int| b0 <= t < b0 + k ==> #[trigger] dst@[t] == data@[t - b0],
            forall|t: int| 0 <= t < len && !(b0 <= t < b0 + k) ==> #[trigger] dst@[t] == s0[t],
        decreases n - k,
    {
        dst[b0 + k] = data[k];
        k = k + 1;
    }

    cur.byte = b0 + n;

    proof {
        assert(p0 == 8 * b0);
        assert forall|j: int| p0 <= j < p0 + 8 * data@.len() implies #[trigger] stream_bit(
            dst@,
            j,
        ) == stream_bit(data@, j - p0) by {
            let q = j / 8;
            let t = j % 8;
            vstd::arithmetic::div_mod::lemma_fundamental_div_mod(j, 8);
            vstd::arithmetic::div_mod::lemma_mod_division_less_than_divisor(j, 8);
            assert(b0 <= q < b0 + n);
            assert(dst@[q] == data@[q - b0]);
            lemma_div8_range(j - p0, q - b0);
        }
        assert forall|j: int| 0 <= j < p0 implies #[trigger] stream_bit(dst@, j) == stream_bit(
            s0,
            j,
        ) by {
            let q = j / 8;
            let t = j % 8;
            vstd::arithmetic::div_mod::lemma_fundamental_div_mod(j, 8);
            vstd::arithmetic::div_mod::lemma_mod_division_less_than_divisor(j, 8);
            assert(q < b0);
            assert(dst@[q] == s0[q]);
        }
        assert forall|j: int| p0 + 8 * data@.len() <= j < 8 * len implies #[trigger] stream_bit(
            dst@,
            j,
        ) == stream_bit(s0, j) by {
            let q = j / 8;
            let t = j % 8;
            vstd::arithmetic::div_mod::lemma_fundamental_div_mod(j, 8);
            vstd::arithmetic::div_mod::lemma_mod_division_less_than_divisor(j, 8);
            assert(q >= b0 + n);
            assert(dst@[q] == s0[q]);
        }
    }

    Ok(())
}

} // verus!
