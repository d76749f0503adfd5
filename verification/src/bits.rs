//! The mathematical model of the wire format: a byte buffer read as a stream
//! of bits, most significant bit of each byte first, and the value of a run
//! of such bits read as an unsigned integer, most significant bit first.

use vstd::prelude::*;
use vstd::arithmetic::power2::*;
use vstd::arithmetic::div_mod::*;

verus! {

/// Bit `k` of the byte `b`, counting from the least significant bit.
pub open spec fn u8_bit(b: u8, k: u8) -> bool {
    (b >> k) & 1 == 1
}

/// Bit `k` of the word `v`, counting from the least significant bit.
pub open spec fn u64_bit(v: u64, k: u64) -> bool {
    (v >> k) & 1 == 1
}

/// Bit `j` of the byte stream `s`: the stream lays each byte out most
/// significant bit first, so bit 0 is the top bit of `s[0]`.
pub open spec fn stream_bit(s: Seq<u8>, j: int) -> bool
    recommends
        0 <= j < 8 * s.len(),
{
    u8_bit(s[j / 8], (7 - j % 8) as u8)
}

/// Bit `i`, most significant first, of the `w`-bit field value `v`:
/// bit 0 is the highest-order bit of the field.
pub open spec fn field_bit(v: u64, w: int, i: int) -> bool
    recommends
        0 <= i < w <= 64,
{
    u64_bit(v, (w - 1 - i) as u64)
}

/// The unsigned value of the `w` bits of `s` starting at bit position `p`,
/// most significant bit first.
pub open spec fn bits_value(s: Seq<u8>, p: int, w: int) -> nat
    decreases w,
{
    if w <= 0 {
        0
    } else {
        2 * bits_value(s, p, w - 1) + (if stream_bit(s, p + w - 1) {
            1nat
        } else {
            0nat
        })
    }
}

/// A run of bits holds a value below two to its length.
pub proof fn lemma_bits_value_bound(s: Seq<u8>, p: int, w: int)
    requires
        w >= 0,
    ensures
        bits_value(s, p, w) < pow2(w as nat),
    decreases w,
{
    if w == 0 {
        lemma_pow2_pos(0);
    } else {
        lemma_bits_value_bound(s, p, w - 1);
        lemma_pow2_unfold(w as nat);
    }
}

/// Reading a run of `m + n` bits splits at any point: the first `m` bits are
/// the high-order part of the result.
pub proof fn lemma_bits_value_split(s: Seq<u8>, p: int, m: int, n: int)
    requires
        m >= 0,
        n >= 0,
    ensures
        bits_value(s, p, m + n) == bits_value(s, p, m) * pow2(n as nat) + bits_value(
            s,
            p + m,
            n,
        ),
    decreases n,
{
    if n == 0 {
        lemma2_to64();
        assert(pow2(0) == 1);
        assert(bits_value(s, p + m, 0) == 0);
        assert(bits_value(s, p, m) * 1 == bits_value(s, p, m));
    } else {
        lemma_bits_value_split(s, p, m, n - 1);
        lemma_pow2_unfold(n as nat);
        let a = bits_value(s, p, m);
        let ih = bits_value(s, p, m + n - 1);
        let c = bits_value(s, p + m, n - 1);
        let pp = pow2((n - 1) as nat);
        let last: nat = if stream_bit(s, p + m + n - 1) {
            1
        } else {
            0
        };
        assert(ih == a * pp + c);
        assert(pow2(n as nat) == 2 * pp);
        assert(bits_value(s, p, m + n) == 2 * ih + last);
        assert(bits_value(s, p + m, n) == 2 * c + last);
        assert(a * (2 * pp) == 2 * (a * pp)) by (nonlinear_arith);
        assert(bits_value(s, p, m + n) == 2 * (a * pp + c) + last);
        assert(2 * (a * pp + c) + last == a * (2 * pp) + (2 * c + last));
        assert(bits_value(s, p, m + n) == a * pow2(n as nat) + bits_value(s, p + m, n));
    }
}

/// The `w` low bits of `v` as a bit stream, most significant first.
pub open spec fn uint_bits(v: u64, w: int) -> Seq<bool> {
    Seq::new(w as nat, |i: int| field_bit(v, w, i))
}

/// A byte string as a bit stream, most significant bit of each byte first.
pub open spec fn byte_bits(b: Seq<u8>) -> Seq<bool> {
    Seq::new((8 * b.len()) as nat, |j: int| stream_bit(b, j))
}

/// The next byte boundary at or after bit position `p`.
pub open spec fn next8(p: int) -> int {
    ((p + 7) / 8) * 8
}

/// The bits from position `p` up to the next byte boundary are all clear.
/// Holds vacuously when `p` sits on a boundary.
pub open spec fn pad_clear(s: Seq<u8>, p: int) -> bool {
    forall|j: int| p <= j < next8(p) ==> !(#[trigger] stream_bit(s, j))
}

/// The quotient and remainder of a bit position split into byte and offset.
pub proof fn lemma_bit_index(b: int, t: int)
    requires
        0 <= t < 8,
    ensures
        (8 * b + t) / 8 == b,
        (8 * b + t) % 8 == t,
{
    lemma_fundamental_div_mod_converse(8 * b + t, 8, b, t);
}

/// A position on a byte boundary is its own next boundary.
pub proof fn lemma_next8_aligned(p: int)
    requires
        0 <= p,
        p % 8 == 0,
    ensures
        next8(p) == p,
{
    let m = p / 8;
    lemma_fundamental_div_mod(p, 8);
    lemma_div8_range(p + 7, m);
}

/// The next byte boundary never moves backwards.
pub proof fn lemma_next8_mono(p: int, q: int)
    requires
        p <= q,
    ensures
        next8(p) <= next8(q),
{
    lemma_div_is_ordered(p + 7, q + 7, 8);
    assert(((p + 7) / 8) * 8 <= ((q + 7) / 8) * 8) by (nonlinear_arith)
        requires
            (p + 7) / 8 <= (q + 7) / 8,
    ;
}

/// Writing one more piece of a growing bit stream: the prefix written so
/// far and the new piece together make the longer prefix, the bits before
/// the whole region stay, and the bits from the next boundary after its
/// end stay.
pub proof fn lemma_extend_written(
    s0: Seq<u8>,
    pre: Seq<u8>,
    now: Seq<u8>,
    p0: int,
    pmid: int,
    prefix: Seq<bool>,
    piece: Seq<bool>,
)
    requires
        0 <= p0 <= pmid,
        pmid == p0 + prefix.len(),
        s0.len() == pre.len(),
        pre.len() == now.len(),
        forall|j: int| 0 <= j < p0 ==> #[trigger] stream_bit(pre, j) == stream_bit(s0, j),
        forall|j: int| p0 <= j < pmid ==> #[trigger] stream_bit(pre, j) == prefix[j - p0],
        forall|j: int|
            next8(pmid) <= j < 8 * pre.len() ==> #[trigger] stream_bit(pre, j) == stream_bit(
                s0,
                j,
            ),
        forall|j: int| 0 <= j < pmid ==> #[trigger] stream_bit(now, j) == stream_bit(pre, j),
        forall|j: int|
            pmid <= j < pmid + piece.len() ==> #[trigger] stream_bit(now, j) == piece[j - pmid],
        forall|j: int|
            next8(pmid + piece.len()) <= j < 8 * now.len() ==> #[trigger] stream_bit(now, j)
                == stream_bit(pre, j),
    ensures
        forall|j: int| 0 <= j < p0 ==> #[trigger] stream_bit(now, j) == stream_bit(s0, j),
        forall|j: int|
            p0 <= j < pmid + piece.len() ==> #[trigger] stream_bit(now, j) == (prefix + piece)[j
                - p0],
        forall|j: int|
            next8(pmid + piece.len()) <= j < 8 * now.len() ==> #[trigger] stream_bit(now, j)
                == stream_bit(s0, j),
{
    let pend = pmid + piece.len();
    lemma_next8_mono(pmid, pend);
    assert forall|j: int| p0 <= j < pend implies #[trigger] stream_bit(now, j) == (prefix
        + piece)[j - p0] by {
        if j < pmid {
            assert(stream_bit(now, j) == stream_bit(pre, j));
            assert((prefix + piece)[j - p0] == prefix[j - p0]);
        } else {
            assert((prefix + piece)[j - p0] == piece[j - pmid]);
        }
    }
    assert forall|j: int| next8(pend) <= j < 8 * now.len() implies #[trigger] stream_bit(now, j)
        == stream_bit(s0, j) by {
        assert(stream_bit(now, j) == stream_bit(pre, j));
        assert(next8(pmid) <= j);
        assert(stream_bit(pre, j) == stream_bit(s0, j));
    }
}

/// Bits of two byte strings laid end to end: positions below the first
/// string's end read from it, the rest read from the second.
pub proof fn lemma_stream_concat(a: Seq<u8>, b: Seq<u8>, j: int)
    requires
        0 <= j < 8 * (a.len() + b.len()),
    ensures
        j < 8 * a.len() ==> stream_bit(a + b, j) == stream_bit(a, j),
        8 * a.len() <= j ==> stream_bit(a + b, j) == stream_bit(b, j - 8 * a.len()),
{
    let q = j / 8;
    let t = j % 8;
    lemma_fundamental_div_mod(j, 8);
    lemma_mod_division_less_than_divisor(j, 8);
    if j < 8 * a.len() {
        assert(q < a.len());
        assert((a + b)[q] == a[q]);
    } else {
        assert(a.len() <= q < a.len() + b.len());
        assert((a + b)[q] == b[q - a.len()]);
        lemma_div8_range(j - 8 * a.len(), q - a.len());
    }
}

/// A bit position inside the byte at index `b` splits as that byte and the
/// offset within it.
pub proof fn lemma_div8_range(j: int, b: int)
    requires
        8 * b <= j < 8 * b + 8,
    ensures
        j / 8 == b,
        j % 8 == j - 8 * b,
{
    lemma_fundamental_div_mod_converse(j, 8, b, j - 8 * b);
}

/// Replacing the byte at index `bi` leaves every bit outside that byte as
/// it was.
pub proof fn lemma_stream_update_other(s: Seq<u8>, bi: int, v: u8, j: int)
    requires
        0 <= bi < s.len(),
        0 <= j < 8 * s.len(),
        j < 8 * bi || 8 * bi + 8 <= j,
    ensures
        stream_bit(s.update(bi, v), j) == stream_bit(s, j),
{
    let q = j / 8;
    let t = j % 8;
    lemma_fundamental_div_mod(j, 8);
    lemma_mod_division_less_than_divisor(j, 8);
    assert(j == 8 * q + t);
    assert(0 <= q < s.len());
    assert(q != bi);
    assert(s.update(bi, v)[q] == s[q]);
}

/// Bytes whose eight bits agree are equal.
pub proof fn lemma_u8_bits_extensional(a: u8, b: u8)
    requires
        forall|k: u8| k < 8 ==> #[trigger] u8_bit(a, k) == u8_bit(b, k),
    ensures
        a == b,
{
    assert(u8_bit(a, 0) == u8_bit(b, 0));
    assert(u8_bit(a, 1) == u8_bit(b, 1));
    assert(u8_bit(a, 2) == u8_bit(b, 2));
    assert(u8_bit(a, 3) == u8_bit(b, 3));
    assert(u8_bit(a, 4) == u8_bit(b, 4));
    assert(u8_bit(a, 5) == u8_bit(b, 5));
    assert(u8_bit(a, 6) == u8_bit(b, 6));
    assert(u8_bit(a, 7) == u8_bit(b, 7));
    assert(a == b) by (bit_vector)
        requires
            u8_bit(a, 0) == u8_bit(b, 0),
            u8_bit(a, 1) == u8_bit(b, 1),
            u8_bit(a, 2) == u8_bit(b, 2),
            u8_bit(a, 3) == u8_bit(b, 3),
            u8_bit(a, 4) == u8_bit(b, 4),
            u8_bit(a, 5) == u8_bit(b, 5),
            u8_bit(a, 6) == u8_bit(b, 6),
            u8_bit(a, 7) == u8_bit(b, 7),
    ;
}

/// Two streams whose bits agree across the byte at index `b` hold the same
/// byte there.
pub proof fn lemma_byte_of_bits(s1: Seq<u8>, s2: Seq<u8>, b: int)
    requires
        0 <= b < s1.len(),
        b < s2.len(),
        forall|j: int| 8 * b <= j < 8 * b + 8 ==> #[trigger] stream_bit(s1, j) == stream_bit(
            s2,
            j,
        ),
    ensures
        s1[b] == s2[b],
{
    assert forall|k: u8| k < 8 implies #[trigger] u8_bit(s1[b], k) == u8_bit(s2[b], k) by {
        let t = 7 - k as int;
        lemma_bit_index(b, t);
        assert(stream_bit(s1, 8 * b + t) == stream_bit(s2, 8 * b + t));
    }
    lemma_u8_bits_extensional(s1[b], s2[b]);
}

/// A byte-aligned run of bits that spells out a byte string reads back as
/// exactly those bytes.
pub proof fn lemma_bytes_match(s: Seq<u8>, pos: int, data: Seq<u8>)
    requires
        0 <= pos,
        pos % 8 == 0,
        pos + 8 * data.len() <= 8 * s.len(),
        forall|j: int|
            pos <= j < pos + 8 * data.len() ==> #[trigger] stream_bit(s, j) == stream_bit(
                data,
                j - pos,
            ),
    ensures
        s.subrange(pos / 8, pos / 8 + data.len()) == data,
{
    let b0 = pos / 8;
    lemma_fundamental_div_mod(pos, 8);
    assert(pos == 8 * b0);
    assert forall|b: int|
        0 <= b < data.len() implies #[trigger] s.subrange(b0, b0 + data.len() as int)[b]
        == data[b] by {
        assert(s.subrange(b0, b0 + data.len() as int)[b] == s[b0 + b]);
        assert forall|k: u8| k < 8 implies #[trigger] u8_bit(s[b0 + b], k) == u8_bit(
            data[b],
            k,
        ) by {
            let t = 7 - k as int;
            lemma_div8_range(8 * (b0 + b) + t, b0 + b);
            lemma_div8_range(8 * b + t, b);
            assert(stream_bit(s, pos + (8 * b + t)) == stream_bit(data, 8 * b + t));
        }
        lemma_u8_bits_extensional(s[b0 + b], data[b]);
    }
    assert(s.subrange(b0, b0 + data.len()) =~= data);
}

/// The value of `n` bits inside a single byte: bits `[c, c + n)` (most
/// significant first) of the byte `s[b]` are that byte shifted and masked.
pub proof fn lemma_bits_value_in_byte(s: Seq<u8>, b: int, c: int, n: int)
    requires
        0 <= b < s.len(),
        0 <= c,
        1 <= n,
        c + n <= 8,
    ensures
        bits_value(s, 8 * b + c, n) == ((s[b] >> ((8 - c - n) as u8)) & (0xFFu8 >> ((8
            - n) as u8))) as nat,
    decreases n,
{
    let x = s[b];
    let cc = c as u8;
    let nn = n as u8;
    if n == 1 {
        lemma_bit_index(b, c);
        assert(stream_bit(s, 8 * b + c) == u8_bit(x, (7 - c) as u8));
        assert(bits_value(s, 8 * b + c, 1) == 2 * bits_value(s, 8 * b + c, 0) + (if stream_bit(
            s,
            8 * b + c,
        ) {
            1nat
        } else {
            0nat
        }));
        assert(((x >> ((7 - cc) as u8)) & (0xFFu8 >> 7)) == (if u8_bit(x, (7 - cc) as u8) {
            1u8
        } else {
            0u8
        })) by (bit_vector)
            requires
                cc < 8,
        ;
    } else {
        lemma_bits_value_in_byte(s, b, c, n - 1);
        lemma_bit_index(b, c + n - 1);
        assert(stream_bit(s, 8 * b + c + (n - 1)) == u8_bit(x, (7 - (c + n - 1)) as u8));
        let last: u8 = if u8_bit(x, (7 - (c + n - 1)) as u8) {
            1u8
        } else {
            0u8
        };
        assert(((x >> ((8 - cc - nn) as u8)) & (0xFFu8 >> ((8 - nn) as u8))) == 2 * ((x >> ((9
            - cc - nn) as u8)) & (0xFFu8 >> ((9 - nn) as u8))) + (if u8_bit(
            x,
            (8 - cc - nn) as u8,
        ) {
            1u8
        } else {
            0u8
        })) by (bit_vector)
            requires
                2 <= nn <= 8,
                cc + nn <= 8,
        ;
    }
}

/// Boundary-width identity: a value of any width, laid out most
/// significant bit first at any bit offset, reads back exactly, whatever
/// the offset's position within its byte.
pub proof fn lemma_bits_round_trip(s: Seq<u8>, p: int, v: u64, w: int)
    requires
        0 <= w <= 64,
        v < pow2(w as nat),
        forall|j: int| p <= j < p + w ==> #[trigger] stream_bit(s, j) == field_bit(v, w, j - p),
    ensures
        bits_value(s, p, w) == v,
{
    lemma_bits_value_of_field(s, p, v, w);
    lemma_pow2_pos(w as nat);
    lemma_small_mod(v as nat, pow2(w as nat));
}

/// A run of bits that spells out the field bits of `v` reads back as `v`
/// reduced to its low `w` bits.
pub proof fn lemma_bits_value_of_field(s: Seq<u8>, p: int, v: u64, w: int)
    requires
        0 <= w <= 64,
        forall|j: int| p <= j < p + w ==> #[trigger] stream_bit(s, j) == field_bit(v, w, j - p),
    ensures
        bits_value(s, p, w) == v as nat % pow2(w as nat),
    decreases w,
{
    if w == 0 {
        lemma2_to64();
        assert(v as nat % 1 == 0);
    } else {
        let half = v / 2;
        assert forall|j: int| p <= j < p + (w - 1) implies #[trigger] stream_bit(s, j)
            == field_bit(half, w - 1, j - p) by {
            let k = (w - 1 - (j - p)) as u64;
            assert(u64_bit(v, k) == u64_bit(v / 2, (k - 1) as u64)) by (bit_vector)
                requires
                    1 <= k < 64,
            ;
        }
        lemma_bits_value_of_field(s, p, half, w - 1);
        assert(stream_bit(s, p + w - 1) == field_bit(v, w, w - 1));
        assert(u64_bit(v, 0) == (v as nat % 2 == 1)) by (bit_vector);
        lemma_pow2_unfold(w as nat);
        lemma_pow2_pos((w - 1) as nat);
        lemma_mod_breakdown(v as int, 2, pow2((w - 1) as nat) as int);
    }
}

} // verus!
