//! The mathematical model of the packed-bit format.
//!
//! A byte stream and a word stream are both read as one long bit string,
//! most-significant bit first. `bytes_bits` and `words_bits` give those bit
//! strings; `bits_val` reads a bit string back as a number. `pack_spec` and
//! `unpack_spec` are the two directions of the codec on whole sequences, and
//! `lemma_pack_unpack` states the round trip precisely, including the
//! trailing zero words that byte padding can introduce.
use vstd::prelude::*;

verus! {

/// Bit `i` of byte `b`, most-significant bit first, for `0 <= i < 8`.
pub open spec fn byte_bit(b: u8, i: int) -> bool {
    ((b >> ((7 - i) as u8)) & 1) == 1
}

/// All the bits of a byte sequence, most-significant bit of each byte first.
pub open spec fn bytes_bits(bs: Seq<u8>) -> Seq<bool> {
    Seq::new((bs.len() * 8) as nat, |i: int| byte_bit(bs[i / 8], i % 8))
}

/// Bit `i` of the `w`-bit word `x`, most-significant bit first,
/// for `0 <= i < w <= 16`.
pub open spec fn word_bit(x: u16, w: int, i: int) -> bool {
    ((x >> ((w - 1 - i) as u16)) & 1) == 1
}

/// The `w` bits of word `x`, most-significant bit first.
pub open spec fn word_bits(x: u16, w: nat) -> Seq<bool> {
    Seq::new(w, |i: int| word_bit(x, w as int, i))
}

/// The number a bit string denotes when read most-significant bit first.
pub open spec fn bits_val(bits: Seq<bool>) -> nat
    decreases bits.len(),
{
    if bits.len() == 0 {
        0
    } else {
        2 * bits_val(bits.drop_last()) + if bits.last() {
            1nat
        } else {
            0nat
        }
    }
}

pub open spec fn pow2(n: nat) -> nat
    decreases n,
{
    if n == 0 {
        1nat
    } else {
        2 * pow2((n - 1) as nat)
    }
}

pub proof fn lemma_bits_val_bound(bits: Seq<bool>)
    ensures
        bits_val(bits) < pow2(bits.len()),
    decreases bits.len(),
{
    if bits.len() > 0 {
        lemma_bits_val_bound(bits.drop_last());
    }
}

pub proof fn lemma_pow2_shift(n: nat)
    requires
        n <= 16,
    ensures
        pow2(n) == (1u32 << (n as u32)),
    decreases n,
{
    if n == 0 {
        assert(1u32 << 0u32 == 1) by (bit_vector);
    } else {
        lemma_pow2_shift((n - 1) as nat);
        let m: u32 = (n - 1) as u32;
        assert(m < 16 ==> 1u32 << ((m + 1) as u32) == 2 * (1u32 << m)) by (bit_vector);
    }
}

/// Reading the `w`-bit representation of `x` back as a number gives `x`.
pub proof fn lemma_word_bits_val(x: u16, w: nat)
    requires
        w <= 16,
        (x as nat) < pow2(w),
    ensures
        bits_val(word_bits(x, w)) == x,
    decreases w,
{
    if w == 0 {
        assert(word_bits(x, 0) =~= Seq::<bool>::empty());
    } else {
        let y: u16 = x >> 1u16;
        let wu: u32 = w as u32;
        lemma_pow2_shift(w);
        lemma_pow2_shift((w - 1) as nat);
        assert((x as u32) < (1u32 << wu) && 1 <= wu <= 16 ==> ((x >> 1u16) as u32) < (1u32 << (
        wu - 1) as u32)) by (bit_vector);
        assert forall|i: int| 0 <= i < w - 1 implies word_bits(x, w)[i] == word_bits(
            y,
            (w - 1) as nat,
        )[i] by {
            let a: u16 = (w - 1 - i) as u16;
            assert(1 <= a <= 15 ==> ((x >> a) & 1) == (((x >> 1u16) >> ((a - 1) as u16)) & 1))
                by (bit_vector);
        }
        assert(word_bits(x, w).drop_last() =~= word_bits(y, (w - 1) as nat));
        lemma_word_bits_val(y, (w - 1) as nat);
        assert(word_bits(x, w).last() == ((x & 1) == 1)) by {
            assert(((x >> 0u16) & 1) == (x & 1)) by (bit_vector);
        }
        assert(2 * ((x >> 1u16) as nat) + (if (x & 1) == 1 {
            1nat
        } else {
            0nat
        }) == x as nat) by (bit_vector);
    }
}

/// Each bit of a short bit string can be recovered from its value.
pub proof fn lemma_bits_val_bits(bits: Seq<bool>)
    requires
        bits.len() <= 16,
    ensures
        forall|i: int|
            0 <= i < bits.len() ==> word_bit(
                bits_val(bits) as u16,
                bits.len() as int,
                i,
            ) == bits[i],
    decreases bits.len(),
{
    let n = bits.len() as int;
    if n > 0 {
        let prev = bits.drop_last();
        lemma_bits_val_bits(prev);
        lemma_bits_val_bound(prev);
        lemma_pow2_shift((n - 1) as nat);
        lemma_pow2_shift(n as nat);
        lemma_bits_val_bound(bits);
        assert(pow2((n - 1) as nat) <= 0x8000) by {
            lemma_pow2_increases((n - 1) as nat, 15);
            lemma_pow2_shift(15);
            assert(1u32 << 15u32 == 0x8000) by (bit_vector);
        }
        assert(pow2(n as nat) <= 0x10000) by {
            lemma_pow2_increases(n as nat, 16);
            lemma_pow2_shift(16);
            assert(1u32 << 16u32 == 0x10000) by (bit_vector);
        }
        let u: u16 = bits_val(prev) as u16;
        let b01: u16 = if bits.last() {
            1u16
        } else {
            0u16
        };
        let v: u16 = bits_val(bits) as u16;
        assert(bits_val(bits) == 2 * bits_val(prev) + b01);
        assert(v == 2 * u + b01);
        assert forall|i: int| 0 <= i < n implies word_bit(v, n, i) == bits[i] by {
            if i == n - 1 {
                assert(u < 0x8000 && b01 <= 1 && v == 2 * u + b01 ==> ((v >> 0u16) & 1) == b01)
                    by (bit_vector);
            } else {
                let a: u16 = (n - 1 - i) as u16;
                assert(u < 0x8000 && b01 <= 1 && v == 2 * u + b01 && 1 <= a <= 15 ==> ((v >> a)
                    & 1) == ((u >> ((a - 1) as u16)) & 1)) by (bit_vector);
                assert(word_bit(u, n - 1, i) == prev[i]);
            }
        }
    }
}

pub proof fn lemma_pow2_increases(a: nat, b: nat)
    requires
        a <= b,
    ensures
        pow2(a) <= pow2(b),
    decreases b,
{
    if a < b {
        lemma_pow2_increases(a, (b - 1) as nat);
    }
}

/// A byte's bits are the 8-bit word bits of its value.
pub proof fn lemma_byte_bit_word_bit(b: u8, i: int)
    requires
        0 <= i < 8,
    ensures
        byte_bit(b, i) == word_bit(b as u16, 8, i),
{
    let sh: u8 = (7 - i) as u8;
    assert(sh < 8 ==> (((b >> sh) & 1) == 1) == ((((b as u16) >> (sh as u16)) & 1) == 1))
        by (bit_vector);
}

/// How many zero bits bring a bit string of length `n` up to whole bytes.
pub open spec fn pad_len(n: int) -> int {
    if n % 8 == 0 {
        0
    } else {
        8 - n % 8
    }
}

/// A bit string padded with zero bits to a whole number of bytes.
pub open spec fn pad_bits(bits: Seq<bool>) -> Seq<bool> {
    bits + Seq::new(pad_len(bits.len() as int) as nat, |i: int| false)
}

/// The byte whose bits are the given 8 bits.
pub open spec fn byte_of_bits(bits: Seq<bool>) -> u8 {
    bits_val(bits) as u8
}

/// The bytes whose bits are the given bit string (a whole number of bytes).
pub open spec fn bytes_of_bits(bits: Seq<bool>) -> Seq<u8> {
    Seq::new((bits.len() as int / 8) as nat, |i: int| byte_of_bits(bits.subrange(8 * i, 8 * i + 8)))
}

/// All the bits of a word sequence at width `w`, in order.
pub open spec fn words_bits(ws: Seq<u16>, w: nat) -> Seq<bool>
    decreases ws.len(),
{
    if ws.len() == 0 {
        Seq::empty()
    } else {
        words_bits(ws.drop_last(), w) + word_bits(ws.last(), w)
    }
}

/// The packed byte stream for a word sequence: the words' bits, padded with
/// zero bits to whole bytes.
pub open spec fn pack_spec(ws: Seq<u16>, w: nat) -> Seq<u8> {
    bytes_of_bits(pad_bits(words_bits(ws, w)))
}

/// Bit `i` of a byte stream, read as zero past the end.
pub open spec fn stream_bit(bs: Seq<u8>, i: int) -> bool {
    0 <= i < bs.len() * 8 && bytes_bits(bs)[i]
}

/// `n` consecutive stream bits starting at `start`.
pub open spec fn ext_bits(bs: Seq<u8>, start: int, n: nat) -> Seq<bool> {
    Seq::new(n, |j: int| stream_bit(bs, start + j))
}

/// How many `w`-bit words a byte stream of length `len` yields: one for every
/// word whose first bit lies within the stream.
pub open spec fn num_words(len: nat, w: nat) -> nat {
    if w == 0 {
        0
    } else {
        (((len * 8 + w - 1) as int) / (w as int)) as nat
    }
}

/// The words a packed byte stream unpacks to at width `w`.
pub open spec fn unpack_spec(bs: Seq<u8>, w: nat) -> Seq<u16> {
    Seq::new(
        num_words(bs.len(), w),
        |k: int| bits_val(ext_bits(bs, k * (w as int), w as nat)) as u16,
    )
}

pub proof fn lemma_words_bits_len(ws: Seq<u16>, w: nat)
    ensures
        words_bits(ws, w).len() == ws.len() * w,
    decreases ws.len(),
{
    if ws.len() > 0 {
        lemma_words_bits_len(ws.drop_last(), w);
        assert((ws.len() - 1) * w + w == ws.len() * w) by (nonlinear_arith);
    }
}

/// Bit `k*w + j` of a word sequence's bits is bit `j` of word `k`.
pub proof fn lemma_words_bits_index(ws: Seq<u16>, w: nat, k: int, j: int)
    requires
        0 <= k < ws.len(),
        0 <= j < w,
    ensures
        words_bits(ws, w)[k * w + j] == word_bit(ws[k], w as int, j),
    decreases ws.len(),
{
    lemma_words_bits_len(ws, w);
    lemma_words_bits_len(ws.drop_last(), w);
    if k == ws.len() - 1 {
        assert(k * w + j - (ws.len() - 1) * w == j);
    } else {
        assert(k * w + j < (ws.len() - 1) * w) by (nonlinear_arith)
            requires
                0 <= k < ws.len() - 1,
                0 <= j < w,
        ;
        lemma_words_bits_index(ws.drop_last(), w, k, j);
    }
}

pub proof fn lemma_bits_val_zero(bits: Seq<bool>)
    requires
        forall|i: int| 0 <= i < bits.len() ==> !bits[i],
    ensures
        bits_val(bits) == 0,
    decreases bits.len(),
{
    if bits.len() > 0 {
        lemma_bits_val_zero(bits.drop_last());
    }
}

/// Rebuilding bytes from a whole-byte bit string and reading their bits
/// gives the bit string back.
pub proof fn lemma_bits_of_bytes_of_bits(bits: Seq<bool>)
    requires
        bits.len() % 8 == 0,
    ensures
        bytes_bits(bytes_of_bits(bits)) == bits,
{
    let bs = bytes_of_bits(bits);
    assert(bs.len() * 8 == bits.len());
    assert forall|i: int| 0 <= i < bits.len() implies bytes_bits(bs)[i] == bits[i] by {
        let k = i / 8;
        let j = i % 8;
        let chunk = bits.subrange(8 * k, 8 * k + 8);
        lemma_bits_val_bits(chunk);
        lemma_bits_val_bound(chunk);
        assert(pow2(8) == 256) by {
            lemma_pow2_shift(8);
            assert(1u32 << 8u32 == 256) by (bit_vector);
        }
        assert(bs[k] == byte_of_bits(chunk));
        assert((bits_val(chunk) as u8) as u16 == bits_val(chunk) as u16);
        lemma_byte_bit_word_bit(bs[k], j);
        assert(word_bit(bits_val(chunk) as u16, 8, j) == chunk[j]);
        assert(chunk[j] == bits[8 * k + j]);
        assert(8 * k + j == i);
    }
    assert(bytes_bits(bs) =~= bits);
}

/// Byte streams with the same bits are the same bytes.
pub proof fn lemma_bytes_bits_inj(a: Seq<u8>, b: Seq<u8>)
    requires
        a.len() == b.len(),
        bytes_bits(a) == bytes_bits(b),
    ensures
        a == b,
{
    assert(pow2(8) == 256) by {
        lemma_pow2_shift(8);
        assert(1u32 << 8u32 == 256) by (bit_vector);
    }
    assert forall|k: int| 0 <= k < a.len() implies a[k] == b[k] by {
        lemma_word_bits_val(a[k] as u16, 8);
        lemma_word_bits_val(b[k] as u16, 8);
        assert forall|j: int| 0 <= j < 8 implies #[trigger] word_bits(a[k] as u16, 8)[j]
            == word_bits(b[k] as u16, 8)[j] by {
            lemma_byte_bit_word_bit(a[k], j);
            lemma_byte_bit_word_bit(b[k], j);
            assert(bytes_bits(a)[8 * k + j] == byte_bit(a[(8 * k + j) / 8], (8 * k + j) % 8));
            assert((8 * k + j) / 8 == k && (8 * k + j) % 8 == j);
        }
        assert(word_bits(a[k] as u16, 8) =~= word_bits(b[k] as u16, 8));
    }
    assert(a =~= b);
}

/// The 8 bits of one byte, most-significant first.
pub open spec fn byte_bits(b: u8) -> Seq<bool> {
    Seq::new(8, |i: int| byte_bit(b, i))
}

pub proof fn lemma_bytes_bits_push(bs: Seq<u8>, b: u8)
    ensures
        bytes_bits(bs.push(b)) == bytes_bits(bs) + byte_bits(b),
{
    let n = bs.len() as int;
    assert forall|i: int| 0 <= i < n * 8 + 8 implies bytes_bits(bs.push(b))[i] == (bytes_bits(bs)
        + byte_bits(b))[i] by {
        if i < n * 8 {
            assert(i / 8 < n);
            assert(bs.push(b)[i / 8] == bs[i / 8]);
        } else {
            assert(i / 8 == n) by {
                vstd::arithmetic::div_mod::lemma_hoist_over_denominator(i - 8 * n, n, 8);
                vstd::arithmetic::div_mod::lemma_basic_div(i - 8 * n, 8);
            }
            assert(i % 8 == i - 8 * n) by {
                vstd::arithmetic::div_mod::lemma_fundamental_div_mod(i, 8);
            }
            assert(bs.push(b)[i / 8] == b);
        }
    }
    assert(bytes_bits(bs.push(b)) =~= bytes_bits(bs) + byte_bits(b));
}

pub proof fn lemma_pow2_le_65536(n: nat)
    requires
        n <= 16,
    ensures
        pow2(n) <= 65536,
{
    lemma_pow2_increases(n, 16);
    lemma_pow2_shift(16);
    assert(1u32 << 16u32 == 65536) by (bit_vector);
}

/// Word `k` exists in a stream exactly when its first bit lies within it.
pub proof fn lemma_num_words_iff(len: nat, w: nat, k: int)
    requires
        w >= 1,
        k >= 0,
    ensures
        (k < num_words(len, w)) == (k * w < len * 8),
{
    let wi = w as int;
    let m = len as int * 8;
    vstd::arithmetic::div_mod::lemma_hoist_over_denominator(m - 1, 1, w);
    assert(num_words(len, w) == (m - 1) / wi + 1);
    if k * wi < m {
        vstd::arithmetic::div_mod::lemma_div_is_ordered(k * wi, m - 1, wi);
        vstd::arithmetic::div_mod::lemma_div_by_multiple(k, wi);
        assert(k <= (m - 1) / wi);
    }
    if k < num_words(len, w) {
        assert(k <= (m - 1) / wi);
        vstd::arithmetic::div_mod::lemma_fundamental_div_mod(m - 1, wi);
        vstd::arithmetic::mul::lemma_mul_inequality(k, (m - 1) / wi, wi);
        assert(k * wi <= ((m - 1) / wi) * wi);
        assert(((m - 1) / wi) * wi <= m - 1) by (nonlinear_arith)
            requires
                wi >= 1,
                m - 1 >= ((m - 1) / wi) * wi + 0,
                (m - 1) % wi >= 0,
                m - 1 == wi * ((m - 1) / wi) + (m - 1) % wi,
        ;
    }
}

/// How many all-zero words the padding appends on a round trip.
pub open spec fn extra_words(n: nat, w: nat) -> nat {
    if w == 0 {
        0
    } else {
        (((pad_len((n * w) as int) + w - 1) as int) / (w as int)) as nat
    }
}

/// The packed-bit round trip, characterized exactly: unpacking what was
/// packed gives the words back, followed by `extra_words` zero words that
/// stand for the byte padding. For widths of 8 and up that is at most one
/// zero word, and none at all when the words end on a byte boundary.
pub proof fn lemma_pack_unpack(ws: Seq<u16>, w: nat)
    requires
        1 <= w <= 16,
        forall|i: int| 0 <= i < ws.len() ==> (ws[i] as nat) < pow2(w),
    ensures
        unpack_spec(pack_spec(ws, w), w) == ws + Seq::new(
            extra_words(ws.len(), w),
            |i: int| 0u16,
        ),
{
    let n = ws.len() as int;
    let wi = w as int;
    let m = n * wi;
    lemma_words_bits_len(ws, w);
    let bits = words_bits(ws, w);
    let p = pad_len(m);
    let padded = pad_bits(bits);
    assert(0 <= p < 8);
    assert((m + p) % 8 == 0) by (nonlinear_arith)
        requires
            p == pad_len(m),
            m >= 0,
    ;
    let bytes = pack_spec(ws, w);
    lemma_bits_of_bytes_of_bits(padded);
    assert(bytes.len() * 8 == m + p);
    let extra = extra_words(ws.len(), w) as int;
    assert((p + wi - 1) / wi == extra);
    // the word count: n full words plus however many words the padding spans
    assert(num_words(bytes.len(), w) == n + extra) by {
        assert(bytes.len() * 8 + wi - 1 == (p + wi - 1) + n * wi);
        vstd::arithmetic::div_mod::lemma_hoist_over_denominator(p + wi - 1, n, w);
        assert((p + wi - 1) / wi + n == ((p + wi - 1) + n * wi) / wi);
    }
    let out = unpack_spec(bytes, w);
    let expect = ws + Seq::new(extra_words(ws.len(), w), |i: int| 0u16);
    assert(out.len() == expect.len());
    assert forall|k: int| 0 <= k < out.len() implies out[k] == expect[k] by {
        if k < n {
            let chunk = ext_bits(bytes, k * wi, w);
            assert forall|j: int| 0 <= j < wi implies chunk[j] == word_bits(ws[k], w)[j] by {
                assert(0 <= k * wi + j < m) by (nonlinear_arith)
                    requires
                        0 <= k < n,
                        0 <= j < wi,
                        m == n * wi,
                ;
                assert(stream_bit(bytes, k * wi + j) == padded[k * wi + j]);
                assert(padded[k * wi + j] == bits[k * wi + j]);
                lemma_words_bits_index(ws, w, k, j);
            }
            assert(chunk =~= word_bits(ws[k], w));
            lemma_word_bits_val(ws[k], w);
        } else {
            let chunk = ext_bits(bytes, k * wi, w);
            assert forall|j: int| 0 <= j < wi implies !chunk[j] by {
                assert(k * wi + j >= m) by (nonlinear_arith)
                    requires
                        k >= n,
                        j >= 0,
                        m == n * wi,
                        wi >= 1,
                ;
                if k * wi + j < m + p {
                    assert(stream_bit(bytes, k * wi + j) == padded[k * wi + j]);
                    assert(!padded[k * wi + j]);
                }
            }
            lemma_bits_val_zero(chunk);
        }
    }
    assert(out =~= expect);
}

/// At widths of a byte or more the round-trip artifact is at most one zero
/// word, present exactly when the words do not end on a byte boundary.
pub proof fn lemma_pack_unpack_wide(ws: Seq<u16>, w: nat)
    requires
        8 <= w <= 16,
        forall|i: int| 0 <= i < ws.len() ==> (ws[i] as nat) < pow2(w),
    ensures
        unpack_spec(pack_spec(ws, w), w) == if (ws.len() * w) % 8 == 0 {
            ws
        } else {
            ws.push(0u16)
        },
{
    lemma_pack_unpack(ws, w);
    let n = ws.len() as int;
    let wi = w as int;
    let p = pad_len(n * wi);
    assert(0 <= p < 8);
    if p == 0 {
        assert((p + wi - 1) / wi == 0) by (nonlinear_arith)
            requires
                p == 0,
                8 <= wi <= 16,
        ;
        assert(extra_words(ws.len(), w) == 0);
        assert(ws + Seq::new(0, |i: int| 0u16) =~= ws);
    } else {
        assert((p + wi - 1) / wi == 1) by (nonlinear_arith)
            requires
                1 <= p < 8,
                8 <= wi <= 16,
        ;
        assert(extra_words(ws.len(), w) == 1);
        assert(ws + Seq::new(1, |i: int| 0u16) =~= ws.push(0u16));
    }
}

} // verus!
