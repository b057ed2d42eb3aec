//! The packed-bit codec as a stream: `BitStream` either deals out the words
//! of a byte stream one `next` at a time, or collects written words into a
//! byte stream. Words are 1 to 16 bits wide, packed most-significant-bit
//! first with no padding between words; only the final partial byte is
//! zero-padded, by `flush`.
use crate::bits::byte_bit;
use crate::bits::bytes_bits;
use crate::bits::ext_bits;
use crate::bits::lemma_bytes_bits_push;
use crate::bits::lemma_num_words_iff;
use crate::bits::lemma_pow2_le_65536;
use crate::bits::lemma_pow2_shift;
use crate::bits::num_words;
use crate::bits::pad_bits;
use crate::bits::pow2;
use crate::bits::stream_bit;
use crate::bits::unpack_spec;
use crate::bits::word_bit;
use crate::bits::word_bits;
use crate::bits::bits_val;
use crate::bits::lemma_bits_val_bound;
use crate::CodecError;
use vstd::prelude::*;

verus! {

/// A byte stream together with a bit cursor. Reading (`read_stream`, `next`)
/// consumes `data` word by word from `cursor`; writing (`write_stream`,
/// `write`, `flush`) grows `data`, holding the unfinished byte in `partial`
/// with its top `filled` bits meaningful. The fields are public so that
/// contracts elsewhere can speak about the stream's state.
pub struct BitStream {
    /// The packed bytes: the source when reading, the sink when writing.
    pub data: Vec<u8>,
    /// Width of one word in bits, between 1 and 16.
    pub word_size: usize,
    /// Reading: how many bits have been consumed.
    pub cursor: usize,
    /// Writing: how many bits of `partial` are meaningful.
    pub filled: usize,
    /// Writing: the unfinished byte, filled from the most significant bit.
    pub partial: u8,
}

impl BitStream {
    /// Well-formedness while reading.
    pub open spec fn read_wf(&self) -> bool {
        &&& 1 <= self.word_size <= 16
        &&& self.cursor as int % self.word_size as int == 0
        &&& self.cursor as int <= self.data@.len() * 8 + 15
        &&& self.data@.len() * 8 + 16 <= usize::MAX
    }

    /// How many words have been read so far.
    pub open spec fn words_read(&self) -> int {
        self.cursor as int / self.word_size as int
    }

    /// Well-formedness while writing: the unused low bits of `partial` are 0.
    pub open spec fn write_wf(&self) -> bool {
        &&& 1 <= self.word_size <= 16
        &&& self.filled < 8
        &&& forall|i: int| self.filled <= i < 8 ==> !byte_bit(self.partial, i)
    }

    /// Every bit written so far: the whole bytes, then the partial byte.
    pub open spec fn written(&self) -> Seq<bool> {
        bytes_bits(self.data@) + Seq::new(self.filled as nat, |i: int| byte_bit(self.partial, i))
    }

    /// Opens a byte stream for reading words of `word_size` bits.
    pub fn read_stream(data: Vec<u8>, word_size: usize) -> (r: Result<Self, CodecError>)
        requires
            data@.len() * 8 + 16 <= usize::MAX,
        ensures
            match r {
                Ok(s) => {
                    &&& 1 <= word_size <= 16
                    &&& s.read_wf()
                    &&& s.data@ == data@
                    &&& s.word_size == word_size
                    &&& s.words_read() == 0
                },
                Err(e) => e == CodecError::InvalidWidth && !(1 <= word_size <= 16),
            },
    {
        if word_size < 1 || word_size > 16 {
            return Err(CodecError::InvalidWidth);
        }
        Ok(BitStream { data, word_size, cursor: 0, filled: 0, partial: 0 })
    }

    /// Deals out the next word: the `word_size` bits at the cursor, zero
    /// padded past the end of the bytes, as long as the word's first bit
    /// still lies within them; `None` once it does not.
    pub fn next(&mut self) -> (r: Option<u16>)
        requires
            old(self).read_wf(),
        ensures
            final(self).read_wf(),
            final(self).data@ == old(self).data@,
            final(self).word_size == old(self).word_size,
            if old(self).words_read() < num_words(
                old(self).data@.len(),
                old(self).word_size as nat,
            ) {
                &&& r == Some(
                    unpack_spec(old(self).data@, old(self).word_size as nat)[old(
                        self,
                    ).words_read()],
                )
                &&& final(self).words_read() == old(self).words_read() + 1
            } else {
                &&& r == None::<u16>
                &&& final(self).words_read() == old(self).words_read()
            },
    {
        let ghost k = self.words_read();
        let ghost w = self.word_size as nat;
        let ghost bs = self.data@;
        proof {
            vstd::arithmetic::div_mod::lemma_fundamental_div_mod(
                self.cursor as int,
                self.word_size as int,
            );
            assert(self.cursor as int == k * w);
            lemma_num_words_iff(bs.len(), w, k);
        }
        if self.cursor / 8 >= self.data.len() {
            assert((self.cursor as int) >= bs.len() * 8) by {
                vstd::arithmetic::div_mod::lemma_fundamental_div_mod(self.cursor as int, 8);
            };
            return None;
        }
        assert((self.cursor as int) < bs.len() * 8) by {
            vstd::arithmetic::div_mod::lemma_fundamental_div_mod(self.cursor as int, 8);
        };
        let start = self.cursor;
        let mut acc: u16 = 0;
        let mut j: usize = 0;
        proof {
            assert(ext_bits(bs, start as int, 0) =~= Seq::<bool>::empty());
        }
        while j < self.word_size
            invariant
                0 <= j <= self.word_size,
                *self == (BitStream { cursor: start, ..*old(self) }),
                old(self).read_wf(),
                start as int == k * w,
                w == self.word_size as nat,
                bs == self.data@,
                start as int + 16 <= usize::MAX,
                acc as nat == bits_val(ext_bits(bs, start as int, j as nat)),
                (acc as nat) < pow2(j as nat),
            decreases self.word_size - j,
        {
            let idx = start + j;
            let bit: bool = if idx / 8 < self.data.len() {
                let byte = self.data[idx / 8];
                let sh: u8 = (7 - (idx % 8)) as u8;
                ((byte >> sh) & 1) == 1
            } else {
                false
            };
            proof {
                if idx / 8 < bs.len() {
                    assert((idx as int) < bs.len() * 8) by {
                        vstd::arithmetic::div_mod::lemma_fundamental_div_mod(idx as int, 8);
                    };
                    assert(bit == bytes_bits(bs)[idx as int]);
                } else {
                    assert((idx as int) >= bs.len() * 8) by {
                        vstd::arithmetic::div_mod::lemma_fundamental_div_mod(idx as int, 8);
                    };
                }
                assert(bit == stream_bit(bs, start as int + j));
                assert(ext_bits(bs, start as int, (j + 1) as nat).drop_last() =~= ext_bits(
                    bs,
                    start as int,
                    j as nat,
                ));
                assert(ext_bits(bs, start as int, (j + 1) as nat).last() == bit);
                lemma_pow2_le_65536((j + 1) as nat);
            }
            acc = 2 * acc + (if bit {
                1
            } else {
                0
            });
            j += 1;
        }
        proof {
            assert(acc as nat == bits_val(ext_bits(bs, k * (w as int), w)));
            lemma_bits_val_bound(ext_bits(bs, k * (w as int), w));
            lemma_pow2_le_65536(w);
            assert(acc == unpack_spec(bs, w)[k]);
        }
        self.cursor = start + self.word_size;
        proof {
            vstd::arithmetic::div_mod::lemma_div_by_multiple(k + 1, w as int);
            assert((k + 1) * (w as int) == k * (w as int) + w) by (nonlinear_arith);
            assert(self.words_read() == k + 1);
            assert(self.cursor as int % self.word_size as int == 0) by {
                vstd::arithmetic::div_mod::lemma_fundamental_div_mod(
                    self.cursor as int,
                    self.word_size as int,
                );
                vstd::arithmetic::div_mod::lemma_div_by_multiple(k + 1, w as int);
            };
        }
        Some(acc)
    }

    /// Opens an empty sink that packs words of `word_size` bits.
    pub fn write_stream(word_size: usize) -> (r: Result<Self, CodecError>)
        ensures
            match r {
                Ok(s) => {
                    &&& 1 <= word_size <= 16
                    &&& s.write_wf()
                    &&& s.word_size == word_size
                    &&& s.data@ == Seq::<u8>::empty()
                    &&& s.written() == Seq::<bool>::empty()
                },
                Err(e) => e == CodecError::InvalidWidth && !(1 <= word_size <= 16),
            },
    {
        if word_size < 1 || word_size > 16 {
            return Err(CodecError::InvalidWidth);
        }
        let s = BitStream { data: Vec::new(), word_size, cursor: 0, filled: 0, partial: 0 };
        proof {
            assert forall|i: int| 0 <= i < 8 implies !byte_bit(0u8, i) by {
                let sh: u8 = (7 - i) as u8;
                assert((0u8 >> sh) & 1 == 0) by (bit_vector);
            }
            assert(s.written() =~= Seq::<bool>::empty());
        }
        Ok(s)
    }

    /// Appends one word's bits to the stream. The word must fit in
    /// `word_size` bits; one that does not is refused with a range error and
    /// the stream is left as it was.
    pub fn write(&mut self, word: u16) -> (r: Result<(), CodecError>)
        requires
            old(self).write_wf(),
        ensures
            final(self).write_wf(),
            final(self).word_size == old(self).word_size,
            match r {
                Ok(()) => {
                    &&& (word as nat) < pow2(old(self).word_size as nat)
                    &&& final(self).written() == old(self).written() + word_bits(
                        word,
                        old(self).word_size as nat,
                    )
                },
                Err(e) => {
                    &&& e == CodecError::WordTooLarge
                    &&& (word as nat) >= pow2(old(self).word_size as nat)
                    &&& *final(self) == *old(self)
                },
            },
    {
        let ghost w = self.word_size as nat;
        proof {
            lemma_pow2_shift(w);
        }
        let ws16: u16 = self.word_size as u16;
        if self.word_size < 16 && (word >> ws16) != 0 {
            proof {
                assert(word >> ws16 != 0 && ws16 < 16 ==> (word as u32) >= (1u32 << (
                ws16 as u32))) by (bit_vector);
            }
            return Err(CodecError::WordTooLarge);
        }
        proof {
            if self.word_size < 16 {
                assert(word >> ws16 == 0 && ws16 < 16 ==> (word as u32) < (1u32 << (
                ws16 as u32))) by (bit_vector);
            } else {
                lemma_pow2_le_65536(16);
                assert(pow2(16) == 65536) by {
                    assert(1u32 << 16u32 == 65536) by (bit_vector);
                }
            }
        }
        let ghost at_entry = *self;
        let mut j: usize = 0;
        while j < self.word_size
            invariant
                0 <= j <= self.word_size,
                self.word_size == at_entry.word_size,
                w == self.word_size as nat,
                self.write_wf(),
                self.written() == at_entry.written() + word_bits(word, w).take(j as int),
            decreases self.word_size - j,
        {
            let sh: u16 = (self.word_size - 1 - j) as u16;
            let bit: bool = ((word >> sh) & 1) == 1;
            proof {
                assert(bit == word_bit(word, w as int, j as int));
            }
            self.push_bit(bit);
            proof {
                assert(word_bits(word, w).take(j + 1).drop_last() =~= word_bits(word, w).take(
                    j as int,
                ));
                assert(self.written() =~= at_entry.written() + word_bits(word, w).take(j + 1));
            }
            j += 1;
        }
        proof {
            assert(word_bits(word, w).take(w as int) =~= word_bits(word, w));
        }
        Ok(())
    }

    /// Appends a single bit, moving the partial byte into `data` when full.
    fn push_bit(&mut self, bit: bool)
        requires
            old(self).write_wf(),
        ensures
            final(self).write_wf(),
            final(self).word_size == old(self).word_size,
            final(self).written() == old(self).written().push(bit),
    {
        let ghost before = *self;
        let n = self.filled;
        if bit {
            let sh: u8 = (7 - n) as u8;
            let mask: u8 = 1u8 << sh;
            self.partial = self.partial | mask;
            proof {
                let p = before.partial;
                let q = self.partial;
                assert forall|i: int| 0 <= i < 8 implies byte_bit(q, i) == (i == n || byte_bit(
                    p,
                    i,
                )) by {
                    let a: u8 = (7 - i) as u8;
                    let b: u8 = (7 - n) as u8;
                    assert(a < 8 && b < 8 && q == (p | (1u8 << b)) ==> ((((q >> a) & 1) == 1) == (a
                        == b || ((p >> a) & 1) == 1))) by (bit_vector);
                    assert((a == b) == (i == n));
                    assert(byte_bit(q, i) == (((q >> a) & 1) == 1));
                    assert(byte_bit(p, i) == (((p >> a) & 1) == 1));
                }
            }
        } else {
            proof {
                assert(!byte_bit(self.partial, n as int));
            }
        }
        proof {
            assert(byte_bit(self.partial, n as int) == bit);
            assert forall|i: int| 0 <= i < 8 && i != n implies byte_bit(self.partial, i)
                == byte_bit(before.partial, i) by {}
        }
        self.filled = n + 1;
        if self.filled == 8 {
            proof {
                lemma_bytes_bits_push(before.data@, self.partial);
                assert(self.written() =~= before.written().push(bit)) by {
                    assert(crate::bits::byte_bits(self.partial) =~= Seq::new(
                        8,
                        |i: int| byte_bit(self.partial, i),
                    ));
                }
            }
            self.data.push(self.partial);
            self.partial = 0;
            self.filled = 0;
            proof {
                assert forall|i: int| 0 <= i < 8 implies !byte_bit(0u8, i) by {
                    let sh: u8 = (7 - i) as u8;
                    assert((0u8 >> sh) & 1 == 0) by (bit_vector);
                }
                assert(self.written() =~= before.written().push(bit));
            }
        } else {
            proof {
                assert(self.written() =~= before.written().push(bit));
            }
        }
    }

    /// Writes out the final partial byte, zero-padding its unfilled low
    /// bits, so that `data` holds every written bit.
    pub fn flush(&mut self) -> (r: Result<(), CodecError>)
        requires
            old(self).write_wf(),
        ensures
            r == Ok::<(), CodecError>(()),
            final(self).write_wf(),
            final(self).word_size == old(self).word_size,
            final(self).filled == 0,
            bytes_bits(final(self).data@) == pad_bits(old(self).written()),
            final(self).written() == pad_bits(old(self).written()),
    {
        let ghost before = *self;
        let ghost n = before.written().len() as int;
        proof {
            assert(n == before.data@.len() * 8 + before.filled);
            assert(n % 8 == before.filled as int) by {
                vstd::arithmetic::div_mod::lemma_mod_multiples_vanish(
                    before.data@.len() as int,
                    before.filled as int,
                    8,
                );
            }
        }
        if self.filled > 0 {
            proof {
                lemma_bytes_bits_push(before.data@, before.partial);
            }
            self.data.push(self.partial);
            self.partial = 0;
            self.filled = 0;
            proof {
                assert forall|i: int| 0 <= i < 8 implies !byte_bit(0u8, i) by {
                    let sh: u8 = (7 - i) as u8;
                    assert((0u8 >> sh) & 1 == 0) by (bit_vector);
                }
                assert(bytes_bits(self.data@) =~= pad_bits(before.written()));
                assert(self.written() =~= bytes_bits(self.data@));
            }
        } else {
            proof {
                assert(pad_bits(before.written()) =~= before.written());
                assert(self.written() =~= bytes_bits(self.data@));
            }
        }
        Ok(())
    }

    /// Hands the packed bytes out, consuming the stream.
    pub fn into_bytes(self) -> (r: Vec<u8>)
        ensures
            r@ == self.data@,
    {
        self.data
    }
}

} // verus!
