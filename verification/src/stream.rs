//! Growable output buffer and bounded input buffer, each with a bit cursor.
//!
//! The output stream appends bits; its model is the sequence of bits written
//! so far ([`OutputMemoryStream::bits`]).  The input stream walks a fixed
//! buffer; its model is the buffer's full bit sequence
//! ([`InputMemoryStream::data`]) together with a cursor.  Reads past the end
//! fail with an end-of-stream error instead of touching memory out of
//! bounds.

use crate::bits::{byte_bits, lemma_u8_bit_widen, to_bits, u64_bit, u8_bit};
use vstd::arithmetic::div_mod::{lemma_basic_div, lemma_fundamental_div_mod,
    lemma_fundamental_div_mod_converse};
use vstd::arithmetic::power2::{lemma2_to64, lemma_pow2_pos, pow2};
use vstd::pervasive::VecAdditionalExecFns;
use vstd::prelude::*;

verus! {

/// Everything that can go wrong while encoding or decoding.
#[derive(Clone, Copy, Debug, PartialEq, Eq, Structural)]
pub enum GameIoError {
    /// The bytes of a text value do not form valid text.
    Utf8Error,
    /// A reference named a network identifier that no known object carries.
    UnregisteredGameObject(usize),
    /// A read asked for more bits than the buffer still holds: requested
    /// bits first, remaining bits second.
    UnexpectedEof(usize, usize),
    /// A replication header carried an action byte outside the known range.
    InvalidAction(u8),
    /// A chunk named a class identifier that the registry does not know.
    UnknownClassId(u32),
    /// The backing storage could not grow.
    Oom,
}

/// Output byte buffer with a bit-granular write cursor.
pub struct OutputMemoryStream {
    buffer: Vec<u8>,
    head: usize,
}

/// Input byte buffer with a bit-granular read cursor.
pub struct InputMemoryStream {
    buffer: Vec<u8>,
    head: usize,
}

impl OutputMemoryStream {
    /// The bits written so far, in wire order.
    pub closed spec fn bits(&self) -> Seq<bool> {
        byte_bits(self.buffer@).take(self.head as int)
    }

    /// The buffer holds exactly the written bits, rounded up to whole
    /// bytes, and every bit past the cursor is still zero.
    pub closed spec fn wf(&self) -> bool {
        &&& self.head <= 8 * self.buffer@.len()
        &&& 8 * self.buffer@.len() < self.head + 8
        &&& self.head <= usize::MAX - 7
        &&& forall|i: int|
            self.head <= i < 8 * self.buffer@.len() ==> !#[trigger] byte_bits(self.buffer@)[i]
    }

    /// A fresh, empty output stream.
    pub fn new() -> (r: Self)
        ensures
            r.wf(),
            r.bits() == Seq::<bool>::empty(),
    {
        let r = Self { buffer: Vec::new(), head: 0 };
        proof {
            assert(r.bits() =~= Seq::<bool>::empty());
        }
        r
    }

    /// The written bytes.  The written bits appear in order; the last byte
    /// is padded with zero bits up to the byte boundary.
    pub fn buffer(&self) -> (r: &Vec<u8>)
        requires
            self.wf(),
        ensures
            8 * r@.len() < self.bits().len() + 8,
            self.bits().len() <= 8 * r@.len(),
            self.bits() == byte_bits(r@).take(self.bits().len() as int),
            forall|i: int| self.bits().len() <= i < 8 * r@.len() ==> !#[trigger] byte_bits(r@)[i],
    {
        &self.buffer
    }

    /// Appends the `bits` low-order bits of `v`, splitting them over the
    /// current and the next byte when they cross a byte boundary and
    /// growing the buffer by one byte when needed.
    pub fn write_u8_bits(&mut self, v: u8, bits: usize) -> (r: Result<(), GameIoError>)
        requires
            old(self).wf(),
            1 <= bits <= 8,
            (v as nat) < pow2(bits as nat),
            old(self).bits().len() + bits <= usize::MAX - 7,
        ensures
            final(self).wf(),
            r == Ok::<(), GameIoError>(()),
            final(self).bits() == old(self).bits() + to_bits(v as u64, bits as nat),
    {
        let ghost head = self.head as int;
        if self.buffer.len() * 8 - self.head < bits {
            let ghost pre = self.buffer@;
            self.buffer.push(0);
            proof {
                assert forall|i: int| head <= i < 8 * self.buffer@.len() implies !#[trigger] byte_bits(
                    self.buffer@,
                )[i] by {
                    if i < 8 * pre.len() {
                        assert(i / 8 < pre.len()) by (nonlinear_arith)
                            requires
                                0 <= i < 8 * pre.len(),
                        ;
                        assert(byte_bits(self.buffer@)[i] == byte_bits(pre)[i]);
                    } else {
                        assert(i / 8 == pre.len()) by (nonlinear_arith)
                            requires
                                8 * pre.len() <= i < 8 * (pre.len() + 1),
                        ;
                        assert(forall|k: u8| k < 8 ==> !#[trigger] u8_bit(0u8, k)) by (bit_vector);
                    }
                }
                assert forall|i: int| 0 <= i < head implies byte_bits(self.buffer@)[i]
                    == byte_bits(pre)[i] by {
                    assert(i / 8 < pre.len()) by (nonlinear_arith)
                        requires
                            0 <= i < 8 * pre.len(),
                    ;
                }
                assert(self.bits() =~= old(self).bits());
            }
        }
        let ghost buf1 = self.buffer@;
        let byte_offset = self.head / 8;
        let bit_offset = self.head % 8;
        let ghost q = byte_offset as int;
        let ghost r = bit_offset as u8;
        proof {
            lemma_fundamental_div_mod(head, 8);
            assert(byte_offset < self.buffer@.len()) by (nonlinear_arith)
                requires
                    q == byte_offset as int,
                    8 * q + r == head,
                    r < 8,
                    head < 8 * self.buffer@.len(),
            ;
        }
        let mask: u8 = !(0xFFu8 << bit_offset);
        let merged: u8 = (self.buffer[byte_offset] & mask) | (v << bit_offset);
        self.buffer.set(byte_offset, merged);
        let bits_free = 8 - bit_offset;
        let second = bits_free < bits;
        if second {
            proof {
                assert(byte_offset + 1 < self.buffer@.len()) by (nonlinear_arith)
                    requires
                        q == byte_offset as int,
                        8 * q + r == head,
                        r < 8,
                        8 - r < bits <= 8,
                        head + bits <= 8 * self.buffer@.len(),
                ;
            }
            self.buffer.set(byte_offset + 1, v >> bits_free);
        }
        self.head = self.head + bits;
        proof {
            let b1 = buf1[q] as u8;
            let buf2 = self.buffer@;
            let n = bits as u8;
            lemma_u8_bound_shift(v, bits as nat);
            // Every bit position of the reshaped buffer, by case on its byte.
            assert forall|j: int| 0 <= j < 8 * buf2.len() implies #[trigger] byte_bits(buf2)[j]
                == spec_written_bit(byte_bits(buf1), head, v, bits as nat, j) by {
                let jq = j / 8;
                let ji = (j % 8) as u8;
                lemma_fundamental_div_mod(j, 8);
                if jq < q {
                    assert(byte_bits(buf2)[j] == byte_bits(buf1)[j]);
                    assert(j < head) by (nonlinear_arith)
                        requires
                            8 * jq + ji == j,
                            ji < 8,
                            jq < q,
                            8 * q + r == head,
                    ;
                } else if jq == q {
                    assert(buf2[jq] == merged);
                    lemma_merge_bits(b1, v, r, n, ji);
                    assert(j - head == ji - r) by (nonlinear_arith)
                        requires
                            8 * jq + ji == j,
                            jq == q,
                            8 * q + r == head,
                    ;
                } else if jq == q + 1 && second {
                    assert(buf2[jq] == v >> ((8 - r) as u8));
                    lemma_second_byte_bits(v, r, n, ji);
                    assert(j - head == ji + 8 - r) by (nonlinear_arith)
                        requires
                            8 * jq + ji == j,
                            jq == q + 1,
                            8 * q + r == head,
                    ;
                } else {
                    assert(j >= 8 * (q + 1)) by (nonlinear_arith)
                        requires
                            8 * jq + ji == j,
                            0 <= ji < 8,
                            jq > q,
                    ;
                    assert(false) by (nonlinear_arith)
                        requires
                            j >= 8 * (q + 1),
                            j < 8 * buf2.len(),
                            8 * q + r == head,
                            r < 8,
                            8 * buf2.len() < head + bits + 8,
                            bits <= 8,
                            !(8 - r < bits) ==> 8 * buf2.len() <= 8 * (q + 1),
                            (8 - r < bits && j / 8 > q + 1) ==> 8 * buf2.len() <= 8 * (q + 1)
                                + 8,
                            j / 8 == jq,
                            second == (8 - r < bits),
                            second ==> jq > q + 1,
                    ;
                }
            }
            assert(self.bits() =~= old(self).bits() + to_bits(v as u64, bits as nat));
            assert forall|i: int| self.head <= i < 8 * buf2.len() implies !#[trigger] byte_bits(
                buf2,
            )[i] by {}
        }
        Ok(())
    }
}

impl InputMemoryStream {
    /// Every bit the buffer holds, in wire order.
    pub closed spec fn data(&self) -> Seq<bool> {
        byte_bits(self.buffer@)
    }

    /// The read position, in bits from the start of the buffer.
    pub closed spec fn cursor(&self) -> nat {
        self.head as nat
    }

    /// The cursor never passes the end of the buffer.
    pub closed spec fn wf(&self) -> bool {
        &&& self.head <= 8 * self.buffer@.len()
        &&& 8 * self.buffer@.len() <= usize::MAX
    }

    /// An input stream over a received buffer, with the cursor at the
    /// start.
    pub fn new(buffer: Vec<u8>) -> (r: Self)
        requires
            buffer@.len() <= usize::MAX / 8,
        ensures
            r.wf(),
            r.data() == byte_bits(buffer@),
            r.cursor() == 0,
    {
        Self { buffer, head: 0 }
    }

    /// An input stream over a freshly zeroed buffer of one receive window,
    /// ready to be filled by a transport.
    pub fn owned() -> (r: Self)
        ensures
            r.wf(),
            r.cursor() == 0,
            r.data().len() == 8 * 1470,
            forall|i: int| 0 <= i < r.data().len() ==> !r.data()[i],
    {
        let mut buffer: Vec<u8> = Vec::new();
        let mut k: usize = 0;
        while k < 1470
            invariant
                k <= 1470,
                buffer@.len() == k,
                forall|j: int| 0 <= j < k ==> buffer@[j] == 0u8,
            decreases 1470 - k,
        {
            buffer.push(0);
            k = k + 1;
        }
        let r = Self { buffer, head: 0 };
        proof {
            assert forall|i: int| 0 <= i < r.data().len() implies !r.data()[i] by {
                assert(0 <= i / 8 < 1470) by (nonlinear_arith)
                    requires
                        0 <= i < 8 * 1470,
                ;
                assert(forall|k: u8| k < 8 ==> !#[trigger] u8_bit(0u8, k)) by (bit_vector);
            }
        }
        r
    }

    /// The buffer's bit count fits the machine's address space.
    pub proof fn lemma_data_bound(&self)
        requires
            self.wf(),
        ensures
            self.data().len() <= usize::MAX,
            self.cursor() <= self.data().len(),
    {
    }

    /// How many bits remain between the cursor and the end of the buffer.
    pub fn remaining_bit_count(&self) -> (r: usize)
        requires
            self.wf(),
        ensures
            r == self.data().len() - self.cursor(),
    {
        self.buffer.len() * 8 - self.head
    }

    /// Reads `bits` bits into the low-order bits of a byte, joining the
    /// current and the next byte when the span crosses a byte boundary and
    /// masking everything above the span off.  Fails without moving the
    /// cursor when fewer than `bits` bits remain.
    pub fn read_u8_bits(&mut self, bits: usize) -> (r: Result<u8, GameIoError>)
        requires
            old(self).wf(),
            1 <= bits <= 8,
        ensures
            final(self).wf(),
            final(self).data() == old(self).data(),
            old(self).cursor() + bits <= old(self).data().len() ==> {
                &&& r is Ok
                &&& (r->Ok_0 as nat) == crate::bits::from_bits(
                    old(self).data().subrange(
                        old(self).cursor() as int,
                        old(self).cursor() + bits,
                    ),
                )
                &&& final(self).cursor() == old(self).cursor() + bits
            },
            old(self).cursor() + bits > old(self).data().len() ==> {
                &&& r == Err::<u8, GameIoError>(
                    GameIoError::UnexpectedEof(
                        bits,
                        (old(self).data().len() - old(self).cursor()) as usize,
                    ),
                )
                &&& *final(self) == *old(self)
            },
    {
        let remaining = self.buffer.len() * 8 - self.head;
        if remaining < bits {
            return Err(GameIoError::UnexpectedEof(bits, remaining));
        }
        let ghost head = self.head as int;
        let byte_offset = self.head / 8;
        let bit_offset = self.head % 8;
        let ghost q = byte_offset as int;
        let ghost r0 = bit_offset as u8;
        proof {
            lemma_fundamental_div_mod(head, 8);
            assert(byte_offset < self.buffer@.len()) by (nonlinear_arith)
                requires
                    q == byte_offset as int,
                    8 * q + r0 == head,
                    r0 < 8,
                    head < 8 * self.buffer@.len(),
            ;
        }
        let b0 = self.buffer[byte_offset];
        let bits_free = 8 - bit_offset;
        let mut out: u8 = b0 >> bit_offset;
        let spill = bits_free < bits;
        if spill {
            proof {
                assert(byte_offset + 1 < self.buffer@.len()) by (nonlinear_arith)
                    requires
                        q == byte_offset as int,
                        8 * q + r0 == head,
                        r0 < 8,
                        8 - r0 < bits <= 8,
                        head + bits <= 8 * self.buffer@.len(),
                ;
            }
            out = out | (self.buffer[byte_offset + 1] << bits_free);
        }
        out = out & (0xFFu8 >> (8 - bits));
        self.head = self.head + bits;
        proof {
            let n = bits as u8;
            let b1 = if q + 1 < self.buffer@.len() {
                self.buffer@[q + 1]
            } else {
                0u8
            };
            let seg = old(self).data().subrange(head, head + bits);
            assert forall|i: int| 0 <= i < bits implies seg[i] == u64_bit(out as u64, i as u64) by {
                let iu = i as u8;
                if i < 8 - r0 {
                    lemma_fundamental_div_mod_converse(head + i, 8, q, r0 + i);
                    assert(seg[i] == u8_bit(b0, (r0 + iu) as u8));
                    lemma_read_bits_first(b0, b1, r0, n, iu, spill);
                } else {
                    lemma_fundamental_div_mod_converse(head + i, 8, q + 1, r0 + i - 8);
                    assert(seg[i] == u8_bit(b1, (r0 + iu - 8) as u8));
                    lemma_read_bits_spill(b0, b1, r0, n, iu);
                }
                lemma_u8_bit_widen(out, iu);
            }
            if spill {
                lemma_read_out_low(b0, b1, r0, n, true);
            } else {
                lemma_read_out_low(b0, b1, r0, n, false);
            }
            lemma_u8_shift_bound(out, bits as nat);
            crate::bits::lemma_bits_of_value(seg, out as u64, bits as nat);
        }
        Ok(out)
    }
}

/// The low bits of the joined read: bit `i` of the result is bit `r + i`
/// of the first byte while the span stays inside it.
proof fn lemma_read_bits_first(b0: u8, b1: u8, r: u8, n: u8, i: u8, spill: bool)
    by (bit_vector)
    requires
        r < 8,
        1 <= n <= 8,
        i < n,
        i < 8 - r,
        spill == (8 - r < n),
    ensures
        u8_bit(
            (if spill {
                (b0 >> r) | (b1 << ((8 - r) as u8))
            } else {
                b0 >> r
            }) & (0xFFu8 >> ((8 - n) as u8)),
            i,
        ) == u8_bit(b0, (r + i) as u8),
{
}

/// The high bits of the joined read: once the span crosses the boundary,
/// bit `i` of the result is bit `r + i - 8` of the next byte.
proof fn lemma_read_bits_spill(b0: u8, b1: u8, r: u8, n: u8, i: u8)
    by (bit_vector)
    requires
        r < 8,
        1 <= n <= 8,
        i < n,
        8 - r <= i,
    ensures
        u8_bit(
            ((b0 >> r) | (b1 << ((8 - r) as u8))) & (0xFFu8 >> ((8 - n) as u8)),
            i,
        ) == u8_bit(b1, (r + i - 8) as u8),
{
}

/// The mask keeps nothing at or above the requested width.
proof fn lemma_read_out_low(b0: u8, b1: u8, r: u8, n: u8, spill: bool)
    by (bit_vector)
    requires
        r < 8,
        1 <= n <= 8,
    ensures
        n == 8 || ((if spill {
            (b0 >> r) | (b1 << ((8 - r) as u8))
        } else {
            b0 >> r
        }) & (0xFFu8 >> ((8 - n) as u8))) >> n == 0,
{
}

/// A byte with nothing above its `n` low bits is below `pow2(n)`.
proof fn lemma_u8_shift_bound(v: u8, n: nat)
    requires
        n <= 8,
        n == 8 || (v >> (n as u8)) == 0,
    ensures
        (v as nat) < pow2(n),
{
    if n == 8 {
        lemma2_to64();
    } else {
        vstd::bits::lemma_u8_shr_is_div(v, n as u8);
        vstd::bits::lemma_u8_pow2_no_overflow(n);
        lemma_pow2_pos(n);
        lemma_fundamental_div_mod(v as int, pow2(n) as int);
    }
}

impl OutputMemoryStream {
    /// Appends the `bits` low-order bits of `v`, least significant byte
    /// first, for any width up to 64.
    pub fn write_u64_bits(&mut self, v: u64, bits: usize) -> (r: Result<(), GameIoError>)
        requires
            old(self).wf(),
            1 <= bits <= 64,
            (v as nat) < pow2(bits as nat),
            old(self).bits().len() + bits <= usize::MAX - 7,
        ensures
            final(self).wf(),
            r == Ok::<(), GameIoError>(()),
            final(self).bits() == old(self).bits() + to_bits(v, bits as nat),
    {
        proof {
            lemma2_to64();
            assert(v >> 0u64 == v) by (bit_vector);
        }
        let mut remaining = bits;
        let mut cur = v;
        while remaining > 8
            invariant
                self.wf(),
                1 <= remaining <= bits <= 64,
                (bits - remaining) % 8 == 0,
                cur == v >> ((bits - remaining) as u64),
                (cur as nat) < pow2(remaining as nat),
                self.bits() == old(self).bits() + to_bits(v, (bits - remaining) as nat),
                old(self).bits().len() + bits <= usize::MAX - 7,
            decreases remaining,
        {
            let ghost done = (bits - remaining) as nat;
            let chunk = cur as u8;
            proof {
                lemma2_to64();
            }
            self.write_u8_bits(chunk, 8)?;
            proof {
                crate::bits::lemma_to_bits_split(v, done, 8);
                assert(to_bits(chunk as u64, 8) =~= to_bits(cur, 8)) by {
                    assert forall|i: int| 0 <= i < 8 implies to_bits(chunk as u64, 8)[i]
                        == to_bits(cur, 8)[i] by {
                        crate::bits::lemma_truncate_bits(cur, i as u64);
                    }
                }
                assert(old(self).bits() + to_bits(v, done) + to_bits(cur, 8) =~= old(self).bits()
                    + to_bits(v, (done + 8) as nat));
            }
            cur = cur >> 8u64;
            remaining = remaining - 8;
            proof {
                lemma_chunk_shift(v, (bits - remaining - 8) as nat);
                lemma_shr8_bound(v >> ((bits - remaining - 8) as u64), (remaining + 8) as nat);
            }
        }
        let ghost done = (bits - remaining) as nat;
        let chunk = cur as u8;
        proof {
            lemma2_to64();
            if remaining < 8 {
                vstd::arithmetic::power2::lemma_pow2_strictly_increases(remaining as nat, 8);
            }
        }
        self.write_u8_bits(chunk, remaining)?;
        proof {
            crate::bits::lemma_to_bits_split(v, done, remaining as nat);
            assert(to_bits(chunk as u64, remaining as nat) =~= to_bits(cur, remaining as nat)) by {
                assert forall|i: int| 0 <= i < remaining implies to_bits(
                    chunk as u64,
                    remaining as nat,
                )[i] == to_bits(cur, remaining as nat)[i] by {
                    crate::bits::lemma_truncate_bits(cur, i as u64);
                }
            }
            assert(old(self).bits() + to_bits(v, done) + to_bits(cur, remaining as nat) =~= old(
                self,
            ).bits() + to_bits(v, bits as nat));
        }
        Ok(())
    }
}

impl OutputMemoryStream {
    /// Appends a flag as the `bits` low-order bits of zero or one.
    pub fn write_bool_bits(&mut self, v: bool, bits: usize) -> (r: Result<(), GameIoError>)
        requires
            old(self).wf(),
            1 <= bits <= 8,
            old(self).bits().len() + bits <= usize::MAX - 7,
        ensures
            final(self).wf(),
            r == Ok::<(), GameIoError>(()),
            final(self).bits() == old(self).bits() + to_bits(
                if v {
                    1u64
                } else {
                    0u64
                },
                bits as nat,
            ),
    {
        proof {
            lemma2_to64();
            if bits > 1 {
                vstd::arithmetic::power2::lemma_pow2_strictly_increases(1, bits as nat);
            }
        }
        self.write_u8_bits(if v { 1 } else { 0 }, bits)
    }

    /// Appends the `bits` low-order bits of a 16-bit value.
    pub fn write_u16_bits(&mut self, v: u16, bits: usize) -> (r: Result<(), GameIoError>)
        requires
            old(self).wf(),
            1 <= bits <= 16,
            (v as nat) < pow2(bits as nat),
            old(self).bits().len() + bits <= usize::MAX - 7,
        ensures
            final(self).wf(),
            r == Ok::<(), GameIoError>(()),
            final(self).bits() == old(self).bits() + to_bits(v as u64, bits as nat),
    {
        self.write_u64_bits(v as u64, bits)
    }

    /// Appends the `bits` low-order bits of a 32-bit value.
    pub fn write_u32_bits(&mut self, v: u32, bits: usize) -> (r: Result<(), GameIoError>)
        requires
            old(self).wf(),
            1 <= bits <= 32,
            (v as nat) < pow2(bits as nat),
            old(self).bits().len() + bits <= usize::MAX - 7,
        ensures
            final(self).wf(),
            r == Ok::<(), GameIoError>(()),
            final(self).bits() == old(self).bits() + to_bits(v as u64, bits as nat),
    {
        self.write_u64_bits(v as u64, bits)
    }

    /// Appends the `bits` low-order bits of a machine word.
    pub fn write_usize_bits(&mut self, v: usize, bits: usize) -> (r: Result<(), GameIoError>)
        requires
            old(self).wf(),
            1 <= bits <= 64,
            (v as nat) < pow2(bits as nat),
            old(self).bits().len() + bits <= usize::MAX - 7,
        ensures
            final(self).wf(),
            r == Ok::<(), GameIoError>(()),
            final(self).bits() == old(self).bits() + to_bits(v as u64, bits as nat),
    {
        self.write_u64_bits(v as u64, bits)
    }

    /// Appends the `bits` low-order bits of the two's-complement pattern of
    /// a signed byte.
    pub fn write_i8_bits(&mut self, v: i8, bits: usize) -> (r: Result<(), GameIoError>)
        requires
            old(self).wf(),
            1 <= bits <= 8,
            ((v as u8) as nat) < pow2(bits as nat),
            old(self).bits().len() + bits <= usize::MAX - 7,
        ensures
            final(self).wf(),
            r == Ok::<(), GameIoError>(()),
            final(self).bits() == old(self).bits() + to_bits((v as u8) as u64, bits as nat),
    {
        self.write_u8_bits(v as u8, bits)
    }

    /// Appends the `bits` low-order bits of the two's-complement pattern of
    /// a signed 16-bit value.
    pub fn write_i16_bits(&mut self, v: i16, bits: usize) -> (r: Result<(), GameIoError>)
        requires
            old(self).wf(),
            1 <= bits <= 16,
            ((v as u16) as nat) < pow2(bits as nat),
            old(self).bits().len() + bits <= usize::MAX - 7,
        ensures
            final(self).wf(),
            r == Ok::<(), GameIoError>(()),
            final(self).bits() == old(self).bits() + to_bits((v as u16) as u64, bits as nat),
    {
        self.write_u64_bits((v as u16) as u64, bits)
    }

    /// Appends the `bits` low-order bits of the two's-complement pattern of
    /// a signed 32-bit value.
    pub fn write_i32_bits(&mut self, v: i32, bits: usize) -> (r: Result<(), GameIoError>)
        requires
            old(self).wf(),
            1 <= bits <= 32,
            ((v as u32) as nat) < pow2(bits as nat),
            old(self).bits().len() + bits <= usize::MAX - 7,
        ensures
            final(self).wf(),
            r == Ok::<(), GameIoError>(()),
            final(self).bits() == old(self).bits() + to_bits((v as u32) as u64, bits as nat),
    {
        self.write_u64_bits((v as u32) as u64, bits)
    }

    /// Appends the `bits` low-order bits of the two's-complement pattern of
    /// a signed 64-bit value.
    pub fn write_i64_bits(&mut self, v: i64, bits: usize) -> (r: Result<(), GameIoError>)
        requires
            old(self).wf(),
            1 <= bits <= 64,
            ((v as u64) as nat) < pow2(bits as nat),
            old(self).bits().len() + bits <= usize::MAX - 7,
        ensures
            final(self).wf(),
            r == Ok::<(), GameIoError>(()),
            final(self).bits() == old(self).bits() + to_bits(v as u64, bits as nat),
    {
        self.write_u64_bits(v as u64, bits)
    }

    /// Appends the `bits` low-order bits of the two's-complement pattern of
    /// a signed machine word.
    pub fn write_isize_bits(&mut self, v: isize, bits: usize) -> (r: Result<(), GameIoError>)
        requires
            old(self).wf(),
            1 <= bits <= 64,
            ((v as usize) as nat) < pow2(bits as nat),
            old(self).bits().len() + bits <= usize::MAX - 7,
        ensures
            final(self).wf(),
            r == Ok::<(), GameIoError>(()),
            final(self).bits() == old(self).bits() + to_bits((v as usize) as u64, bits as nat),
    {
        self.write_u64_bits((v as usize) as u64, bits)
    }
}

impl InputMemoryStream {
    /// Reads `bits` bits as a flag: any non-zero pattern reads as true.
    pub fn read_bool_bits(&mut self, bits: usize) -> (r: Result<bool, GameIoError>)
        requires
            old(self).wf(),
            1 <= bits <= 8,
        ensures
            final(self).wf(),
            final(self).data() == old(self).data(),
            old(self).cursor() + bits <= old(self).data().len() ==> {
                &&& r is Ok
                &&& r->Ok_0 == (crate::bits::from_bits(
                    old(self).data().subrange(
                        old(self).cursor() as int,
                        old(self).cursor() + bits,
                    ),
                ) > 0)
                &&& final(self).cursor() == old(self).cursor() + bits
            },
            old(self).cursor() + bits > old(self).data().len() ==> {
                &&& r == Err::<bool, GameIoError>(
                    GameIoError::UnexpectedEof(
                        bits,
                        (old(self).data().len() - old(self).cursor()) as usize,
                    ),
                )
                &&& *final(self) == *old(self)
            },
    {
        let b = self.read_u8_bits(bits)?;
        Ok(b > 0)
    }

    /// Reads `bits` bits into the low-order bits of a 16-bit value.
    pub fn read_u16_bits(&mut self, bits: usize) -> (r: Result<u16, GameIoError>)
        requires
            old(self).wf(),
            1 <= bits <= 16,
        ensures
            final(self).wf(),
            final(self).data() == old(self).data(),
            old(self).cursor() + bits <= old(self).data().len() ==> {
                &&& r is Ok
                &&& (r->Ok_0 as nat) == crate::bits::from_bits(
                    old(self).data().subrange(
                        old(self).cursor() as int,
                        old(self).cursor() + bits,
                    ),
                )
                &&& final(self).cursor() == old(self).cursor() + bits
            },
            old(self).cursor() + bits > old(self).data().len() ==> {
                &&& r == Err::<u16, GameIoError>(
                    GameIoError::UnexpectedEof(
                        bits,
                        (old(self).data().len() - old(self).cursor()) as usize,
                    ),
                )
                &&& *final(self) == *old(self)
            },
    {
        let v = self.read_u64_bits(bits)?;
        proof {
            lemma2_to64();
            lemma_read_fits(
                old(self).data().subrange(old(self).cursor() as int, old(self).cursor() + bits),
                bits as nat,
                16,
            );
        }
        Ok(v as u16)
    }

    /// Reads `bits` bits into the low-order bits of a 32-bit value.
    pub fn read_u32_bits(&mut self, bits: usize) -> (r: Result<u32, GameIoError>)
        requires
            old(self).wf(),
            1 <= bits <= 32,
        ensures
            final(self).wf(),
            final(self).data() == old(self).data(),
            old(self).cursor() + bits <= old(self).data().len() ==> {
                &&& r is Ok
                &&& (r->Ok_0 as nat) == crate::bits::from_bits(
                    old(self).data().subrange(
                        old(self).cursor() as int,
                        old(self).cursor() + bits,
                    ),
                )
                &&& final(self).cursor() == old(self).cursor() + bits
            },
            old(self).cursor() + bits > old(self).data().len() ==> {
                &&& r == Err::<u32, GameIoError>(
                    GameIoError::UnexpectedEof(
                        bits,
                        (old(self).data().len() - old(self).cursor()) as usize,
                    ),
                )
                &&& *final(self) == *old(self)
            },
    {
        let v = self.read_u64_bits(bits)?;
        proof {
            lemma2_to64();
            lemma_read_fits(
                old(self).data().subrange(old(self).cursor() as int, old(self).cursor() + bits),
                bits as nat,
                32,
            );
        }
        Ok(v as u32)
    }

    /// Reads `bits` bits into the low-order bits of a machine word.
    pub fn read_usize_bits(&mut self, bits: usize) -> (r: Result<usize, GameIoError>)
        requires
            old(self).wf(),
            1 <= bits <= 64,
            bits <= usize::BITS,
        ensures
            final(self).wf(),
            final(self).data() == old(self).data(),
            old(self).cursor() + bits <= old(self).data().len() ==> {
                &&& r is Ok
                &&& (r->Ok_0 as nat) == crate::bits::from_bits(
                    old(self).data().subrange(
                        old(self).cursor() as int,
                        old(self).cursor() + bits,
                    ),
                )
                &&& final(self).cursor() == old(self).cursor() + bits
            },
            old(self).cursor() + bits > old(self).data().len() ==> {
                &&& r == Err::<usize, GameIoError>(
                    GameIoError::UnexpectedEof(
                        bits,
                        (old(self).data().len() - old(self).cursor()) as usize,
                    ),
                )
                &&& *final(self) == *old(self)
            },
    {
        let v = self.read_u64_bits(bits)?;
        proof {
            crate::bits::lemma_from_bits_bound(
                old(self).data().subrange(old(self).cursor() as int, old(self).cursor() + bits),
            );
            lemma_word_fits(v, bits as nat);
        }
        Ok(v as usize)
    }

    /// Reads `bits` bits as the two's-complement pattern of a signed byte,
    /// zero-extending short patterns.
    pub fn read_i8_bits(&mut self, bits: usize) -> (r: Result<i8, GameIoError>)
        requires
            old(self).wf(),
            1 <= bits <= 8,
        ensures
            final(self).wf(),
            final(self).data() == old(self).data(),
            old(self).cursor() + bits <= old(self).data().len() ==> {
                &&& r is Ok
                &&& ((r->Ok_0 as u8) as nat) == crate::bits::from_bits(
                    old(self).data().subrange(
                        old(self).cursor() as int,
                        old(self).cursor() + bits,
                    ),
                )
                &&& final(self).cursor() == old(self).cursor() + bits
            },
            old(self).cursor() + bits > old(self).data().len() ==> {
                &&& r == Err::<i8, GameIoError>(
                    GameIoError::UnexpectedEof(
                        bits,
                        (old(self).data().len() - old(self).cursor()) as usize,
                    ),
                )
                &&& *final(self) == *old(self)
            },
    {
        let b = self.read_u8_bits(bits)?;
        proof {
            lemma_i8_pattern(b);
        }
        Ok(b as i8)
    }

    /// Reads `bits` bits as the two's-complement pattern of a signed 16-bit
    /// value, zero-extending short patterns.
    pub fn read_i16_bits(&mut self, bits: usize) -> (r: Result<i16, GameIoError>)
        requires
            old(self).wf(),
            1 <= bits <= 16,
        ensures
            final(self).wf(),
            final(self).data() == old(self).data(),
            old(self).cursor() + bits <= old(self).data().len() ==> {
                &&& r is Ok
                &&& ((r->Ok_0 as u16) as nat) == crate::bits::from_bits(
                    old(self).data().subrange(
                        old(self).cursor() as int,
                        old(self).cursor() + bits,
                    ),
                )
                &&& final(self).cursor() == old(self).cursor() + bits
            },
            old(self).cursor() + bits > old(self).data().len() ==> {
                &&& r == Err::<i16, GameIoError>(
                    GameIoError::UnexpectedEof(
                        bits,
                        (old(self).data().len() - old(self).cursor()) as usize,
                    ),
                )
                &&& *final(self) == *old(self)
            },
    {
        let v = self.read_u16_bits(bits)?;
        proof {
            lemma_i16_pattern(v);
        }
        Ok(v as i16)
    }

    /// Reads `bits` bits as the two's-complement pattern of a signed 32-bit
    /// value, zero-extending short patterns.
    pub fn read_i32_bits(&mut self, bits: usize) -> (r: Result<i32, GameIoError>)
        requires
            old(self).wf(),
            1 <= bits <= 32,
        ensures
            final(self).wf(),
            final(self).data() == old(self).data(),
            old(self).cursor() + bits <= old(self).data().len() ==> {
                &&& r is Ok
                &&& ((r->Ok_0 as u32) as nat) == crate::bits::from_bits(
                    old(self).data().subrange(
                        old(self).cursor() as int,
                        old(self).cursor() + bits,
                    ),
                )
                &&& final(self).cursor() == old(self).cursor() + bits
            },
            old(self).cursor() + bits > old(self).data().len() ==> {
                &&& r == Err::<i32, GameIoError>(
                    GameIoError::UnexpectedEof(
                        bits,
                        (old(self).data().len() - old(self).cursor()) as usize,
                    ),
                )
                &&& *final(self) == *old(self)
            },
    {
        let v = self.read_u32_bits(bits)?;
        proof {
            lemma_i32_pattern(v);
        }
        Ok(v as i32)
    }

    /// Reads `bits` bits as the two's-complement pattern of a signed 64-bit
    /// value, zero-extending short patterns.
    pub fn read_i64_bits(&mut self, bits: usize) -> (r: Result<i64, GameIoError>)
        requires
            old(self).wf(),
            1 <= bits <= 64,
        ensures
            final(self).wf(),
            final(self).data() == old(self).data(),
            old(self).cursor() + bits <= old(self).data().len() ==> {
                &&& r is Ok
                &&& ((r->Ok_0 as u64) as nat) == crate::bits::from_bits(
                    old(self).data().subrange(
                        old(self).cursor() as int,
                        old(self).cursor() + bits,
                    ),
                )
                &&& final(self).cursor() == old(self).cursor() + bits
            },
            old(self).cursor() + bits > old(self).data().len() ==> {
                &&& r == Err::<i64, GameIoError>(
                    GameIoError::UnexpectedEof(
                        bits,
                        (old(self).data().len() - old(self).cursor()) as usize,
                    ),
                )
                &&& *final(self) == *old(self)
            },
    {
        let v = self.read_u64_bits(bits)?;
        proof {
            lemma_i64_pattern(v);
        }
        Ok(v as i64)
    }

    /// Reads `bits` bits as the two's-complement pattern of a signed
    /// machine word, zero-extending short patterns.
    pub fn read_isize_bits(&mut self, bits: usize) -> (r: Result<isize, GameIoError>)
        requires
            old(self).wf(),
            1 <= bits <= 64,
            bits <= usize::BITS,
        ensures
            final(self).wf(),
            final(self).data() == old(self).data(),
            old(self).cursor() + bits <= old(self).data().len() ==> {
                &&& r is Ok
                &&& ((r->Ok_0 as usize) as nat) == crate::bits::from_bits(
                    old(self).data().subrange(
                        old(self).cursor() as int,
                        old(self).cursor() + bits,
                    ),
                )
                &&& final(self).cursor() == old(self).cursor() + bits
            },
            old(self).cursor() + bits > old(self).data().len() ==> {
                &&& r == Err::<isize, GameIoError>(
                    GameIoError::UnexpectedEof(
                        bits,
                        (old(self).data().len() - old(self).cursor()) as usize,
                    ),
                )
                &&& *final(self) == *old(self)
            },
    {
        let v = self.read_usize_bits(bits)?;
        proof {
            lemma_isize_pattern(v);
        }
        Ok(v as isize)
    }
}


impl OutputMemoryStream {
    /// Appends the `bits` low-order bits of a little-endian byte string.
    pub fn write_any_bits(&mut self, v: &[u8], bits: usize) -> (r: Result<(), GameIoError>)
        requires
            old(self).wf(),
            1 <= bits <= 8 * v@.len(),
            old(self).bits().len() + bits <= usize::MAX - 7,
        ensures
            final(self).wf(),
            r == Ok::<(), GameIoError>(()),
            final(self).bits() == old(self).bits() + crate::bits::byte_bits(v@).take(bits as int),
    {
        proof {
            lemma2_to64();
            assert(byte_bits(v@).take(0) =~= Seq::<bool>::empty());
            assert(self.bits() + byte_bits(v@).take(0) =~= self.bits());
        }
        let mut idx: usize = 0;
        let mut left = bits;
        while left > 8
            invariant
                self.wf(),
                1 <= left <= bits <= 8 * v@.len(),
                8 * idx == bits - left,
                old(self).bits().len() + bits <= usize::MAX - 7,
                self.bits() == old(self).bits() + byte_bits(v@).take(8 * idx),
            decreases left,
        {
            proof {
                lemma2_to64();
                assert(idx < v@.len()) by (nonlinear_arith)
                    requires
                        8 * idx < bits,
                        bits <= 8 * v@.len(),
                ;
            }
            let b = v[idx];
            self.write_u8_bits(b, 8)?;
            proof {
                crate::bits::lemma_byte_bits_chunk(v@, idx as int);
                assert(byte_bits(v@).take(8 * (idx + 1)) =~= byte_bits(v@).take(8 * idx)
                    + byte_bits(v@).subrange(8 * idx, 8 * idx + 8));
                assert(old(self).bits() + byte_bits(v@).take(8 * idx) + to_bits(b as u64, 8)
                    =~= old(self).bits() + byte_bits(v@).take(8 * (idx + 1)));
            }
            idx = idx + 1;
            left = left - 8;
        }
        proof {
            assert(idx < v@.len()) by (nonlinear_arith)
                requires
                    8 * idx < bits,
                    bits <= 8 * v@.len(),
            ;
        }
        let b = v[idx];
        let chunk = b & (0xFFu8 >> (8 - left));
        proof {
            lemma_mask_bound(b, left as u8);
            lemma_u8_shift_bound(chunk, left as nat);
        }
        self.write_u8_bits(chunk, left)?;
        proof {
            let all = byte_bits(v@);
            assert forall|i: int| 8 * idx <= i < bits implies all[i] == to_bits(
                chunk as u64,
                left as nat,
            )[i - 8 * idx] by {
                lemma_fundamental_div_mod_converse(i, 8, idx as int, i - 8 * idx);
                lemma_mask_keep(b, left as u8, (i - 8 * idx) as u8);
                lemma_u8_bit_widen(chunk, (i - 8 * idx) as u8);
            }
            assert(old(self).bits() + all.take(8 * idx) + to_bits(chunk as u64, left as nat)
                =~= old(self).bits() + all.take(bits as int));
        }
        Ok(())
    }

    /// Appends a whole byte string.  When the cursor sits on a byte
    /// boundary the bytes are copied in directly; otherwise each byte is
    /// split across the boundary.
    pub fn write_any(&mut self, v: &[u8]) -> (r: Result<(), GameIoError>)
        requires
            old(self).wf(),
            old(self).bits().len() + 8 * v@.len() <= usize::MAX - 7,
        ensures
            final(self).wf(),
            r == Ok::<(), GameIoError>(()),
            final(self).bits() == old(self).bits() + crate::bits::byte_bits(v@),
    {
        if v.len() == 0 {
            proof {
                assert(byte_bits(v@) =~= Seq::<bool>::empty());
                assert(self.bits() + byte_bits(v@) =~= self.bits());
            }
            return Ok(());
        }
        if self.head % 8 == 0 {
            let ghost pre = self.buffer@;
            proof {
                assert(8 * pre.len() == self.head) by (nonlinear_arith)
                    requires
                        self.head % 8 == 0,
                        self.head <= 8 * pre.len(),
                        8 * pre.len() < self.head + 8,
                ;
            }
            self.buffer.extend_from_slice(v);
            self.head = self.head + 8 * v.len();
            proof {
                crate::bits::lemma_byte_bits_concat(pre, v@);
                assert(self.bits() =~= old(self).bits() + byte_bits(v@));
                assert forall|i: int|
                    self.head <= i < 8 * self.buffer@.len() implies !#[trigger] byte_bits(
                    self.buffer@,
                )[i] by {}
            }
            Ok(())
        } else {
            proof {
                assert(byte_bits(v@).take(8 * v@.len() as int) =~= byte_bits(v@));
            }
            self.write_any_bits(v, 8 * v.len())
        }
    }
}

impl InputMemoryStream {
    /// Reads `bits` bits into a little-endian byte string whose last byte
    /// is zero-padded above the span.  Fails without moving the cursor when
    /// fewer than `bits` bits remain.
    pub fn read_any_bits(&mut self, bits: usize) -> (r: Result<Vec<u8>, GameIoError>)
        requires
            old(self).wf(),
            1 <= bits <= usize::MAX - 7,
        ensures
            final(self).wf(),
            final(self).data() == old(self).data(),
            old(self).cursor() + bits <= old(self).data().len() ==> {
                &&& r is Ok
                &&& 8 * r->Ok_0@.len() < bits + 8
                &&& bits <= 8 * r->Ok_0@.len()
                &&& crate::bits::byte_bits(r->Ok_0@).take(bits as int) == old(
                    self,
                ).data().subrange(old(self).cursor() as int, old(self).cursor() + bits)
                &&& forall|i: int|
                    bits <= i < 8 * r->Ok_0@.len() ==> !#[trigger] crate::bits::byte_bits(
                        r->Ok_0@,
                    )[i]
                &&& final(self).cursor() == old(self).cursor() + bits
            },
            old(self).cursor() + bits > old(self).data().len() ==> {
                &&& r == Err::<Vec<u8>, GameIoError>(
                    GameIoError::UnexpectedEof(
                        bits,
                        (old(self).data().len() - old(self).cursor()) as usize,
                    ),
                )
                &&& *final(self) == *old(self)
            },
    {
        let remaining_now = self.remaining_bit_count();
        if remaining_now < bits {
            return Err(GameIoError::UnexpectedEof(bits, remaining_now));
        }
        let ghost start = self.cursor() as int;
        let mut out: Vec<u8> = Vec::new();
        let mut left = bits;
        proof {
            assert(byte_bits(out@) =~= Seq::<bool>::empty());
        }
        while left > 8
            invariant
                self.wf(),
                self.data() == old(self).data(),
                start == old(self).cursor() as int,
                1 <= left <= bits,
                8 * out@.len() == bits - left,
                start + bits <= self.data().len(),
                self.cursor() == start + 8 * out@.len(),
                byte_bits(out@) == self.data().subrange(start, start + 8 * out@.len()),
            decreases left,
        {
            let b = self.read_u8_bits(8)?;
            proof {
                let seg = self.data().subrange(
                    start + 8 * out@.len(),
                    start + 8 * out@.len() + 8,
                );
                crate::bits::lemma_from_bits_to_bits(seg);
                crate::bits::lemma_byte_bits_push(out@, b);
                assert(byte_bits(out@) + to_bits(b as u64, 8) =~= self.data().subrange(
                    start,
                    start + 8 * out@.len() + 8,
                ));
            }
            out.push(b);
            left = left - 8;
        }
        let b = self.read_u8_bits(left)?;
        let ghost prev = out@;
        let ghost done = 8 * out@.len();
        proof {
            let seg = self.data().subrange(start + done, start + bits as int);
            crate::bits::lemma_from_bits_bound(seg);
            crate::bits::lemma_from_bits_to_bits(seg);
            crate::bits::lemma_byte_bits_push(prev, b);
            assert forall|i: int| 0 <= i < 8 implies to_bits(b as u64, 8)[i] == (if i < left {
                seg[i]
            } else {
                false
            }) by {
                if i >= left {
                    crate::bits::lemma_high_bits_zero(b as u64, left as nat, i as u64);
                }
            }
        }
        out.push(b);
        proof {
            let all = byte_bits(out@);
            let d = old(self).data();
            let seg = d.subrange(start + done, start + bits as int);
            assert(out@ == prev.push(b));
            assert(all =~= byte_bits(prev) + to_bits(b as u64, 8));
            assert forall|i: int| 0 <= i < bits implies all[i] == d[start + i] by {
                if i < done {
                    assert(all[i] == byte_bits(prev)[i]);
                    assert(byte_bits(prev)[i] == d.subrange(start, start + done)[i]);
                } else {
                    assert(all[i] == to_bits(b as u64, 8)[i - done]);
                    assert(seg[i - done] == d[start + i]);
                }
            }
            assert(all.take(bits as int) =~= d.subrange(start, start + bits as int));
            assert((b as nat) < pow2(left as nat)) by {
                crate::bits::lemma_from_bits_bound(seg);
            }
            assert forall|i: int| bits <= i < 8 * out@.len() implies !all[i] by {
                assert(all[i] == to_bits(b as u64, 8)[i - done]);
                crate::bits::lemma_high_bits_zero(b as u64, left as nat, (i - done) as u64);
            }
        }
        Ok(out)
    }

    /// Reads `count` whole bytes.  When the cursor sits on a byte boundary
    /// the bytes are copied out directly; otherwise each byte is joined
    /// across the boundary.  Fails without moving the cursor when fewer
    /// than `count` bytes remain.
    pub fn read_any(&mut self, count: usize) -> (r: Result<Vec<u8>, GameIoError>)
        requires
            old(self).wf(),
            count <= usize::MAX / 8,
        ensures
            final(self).wf(),
            final(self).data() == old(self).data(),
            old(self).cursor() + 8 * count <= old(self).data().len() ==> {
                &&& r is Ok
                &&& r->Ok_0@.len() == count
                &&& crate::bits::byte_bits(r->Ok_0@) == old(self).data().subrange(
                    old(self).cursor() as int,
                    old(self).cursor() + 8 * count,
                )
                &&& final(self).cursor() == old(self).cursor() + 8 * count
            },
            old(self).cursor() + 8 * count > old(self).data().len() ==> {
                &&& r == Err::<Vec<u8>, GameIoError>(
                    GameIoError::UnexpectedEof(
                        (8 * count) as usize,
                        (old(self).data().len() - old(self).cursor()) as usize,
                    ),
                )
                &&& *final(self) == *old(self)
            },
    {
        let remaining_now = self.remaining_bit_count();
        if remaining_now < 8 * count {
            return Err(GameIoError::UnexpectedEof(8 * count, remaining_now));
        }
        if count == 0 {
            let out: Vec<u8> = Vec::new();
            proof {
                assert(byte_bits(out@) =~= old(self).data().subrange(
                    old(self).cursor() as int,
                    old(self).cursor() as int,
                ));
            }
            return Ok(out);
        }
        let ghost start = self.cursor() as int;
        if self.head % 8 == 0 {
            let base = self.head / 8;
            proof {
                lemma_fundamental_div_mod(self.head as int, 8);
            }
            let mut out: Vec<u8> = Vec::new();
            let mut k: usize = 0;
            while k < count
                invariant
                    self.wf(),
                    start == self.cursor() as int,
                    self.head % 8 == 0,
                    base == self.head / 8,
                    8 * (base as int) == start,
                    k <= count,
                    out@.len() == k,
                    start + 8 * count <= self.data().len(),
                    forall|j: int| 0 <= j < k ==> out@[j] == self.buffer@[base + j],
                decreases count - k,
            {
                proof {
                    assert(base + k < self.buffer@.len()) by (nonlinear_arith)
                        requires
                            8 * (base as int) == start,
                            start + 8 * count <= 8 * self.buffer@.len(),
                            k < count,
                    ;
                }
                let b = self.buffer[base + k];
                out.push(b);
                k = k + 1;
            }
            self.head = self.head + 8 * count;
            proof {
                assert forall|j: int| 0 <= j < 8 * count implies byte_bits(out@)[j] == old(
                    self,
                ).data()[start + j] by {
                    lemma_fundamental_div_mod(j, 8);
                    let jq = j / 8;
                    let ji = j % 8;
                    lemma_fundamental_div_mod_converse(start + j, 8, base + jq, ji);
                    assert(out@[jq] == self.buffer@[base + jq]);
                }
                assert(byte_bits(out@) =~= old(self).data().subrange(
                    start,
                    start + 8 * count,
                ));
            }
            Ok(out)
        } else {
            let out = self.read_any_bits(8 * count)?;
            proof {
                assert(out@.len() == count) by (nonlinear_arith)
                    requires
                        8 * out@.len() < 8 * count + 8,
                        8 * count <= 8 * out@.len(),
                ;
                assert(byte_bits(out@).take(8 * count as int) =~= byte_bits(out@));
            }
            Ok(out)
        }
    }
}

impl OutputMemoryStream {
    /// Appends a flag as one whole byte: one for true, zero for false.
    pub fn write_bool(&mut self, v: bool) -> (r: Result<(), GameIoError>)
        requires
            old(self).wf(),
            old(self).bits().len() + 8 <= usize::MAX - 7,
        ensures
            final(self).wf(),
            r == Ok::<(), GameIoError>(()),
            final(self).bits() == old(self).bits() + to_bits(
                if v {
                    1u64
                } else {
                    0u64
                },
                8,
            ),
    {
        proof {
            lemma2_to64();
        }
        self.write_u8_bits(if v { 1 } else { 0 }, 8)
    }

    /// Appends one byte.
    pub fn write_u8(&mut self, v: u8) -> (r: Result<(), GameIoError>)
        requires
            old(self).wf(),
            old(self).bits().len() + 8 <= usize::MAX - 7,
        ensures
            final(self).wf(),
            r == Ok::<(), GameIoError>(()),
            final(self).bits() == old(self).bits() + to_bits(v as u64, 8),
    {
        proof {
            lemma2_to64();
        }
        self.write_u8_bits(v, 8)
    }

    /// Appends a 16-bit value, least significant byte first.
    pub fn write_u16(&mut self, v: u16) -> (r: Result<(), GameIoError>)
        requires
            old(self).wf(),
            old(self).bits().len() + 16 <= usize::MAX - 7,
        ensures
            final(self).wf(),
            r == Ok::<(), GameIoError>(()),
            final(self).bits() == old(self).bits() + to_bits(v as u64, 16),
    {
        proof {
            lemma2_to64();
        }
        self.write_u64_bits(v as u64, 16)
    }

    /// Appends a 32-bit value, least significant byte first.
    pub fn write_u32(&mut self, v: u32) -> (r: Result<(), GameIoError>)
        requires
            old(self).wf(),
            old(self).bits().len() + 32 <= usize::MAX - 7,
        ensures
            final(self).wf(),
            r == Ok::<(), GameIoError>(()),
            final(self).bits() == old(self).bits() + to_bits(v as u64, 32),
    {
        proof {
            lemma2_to64();
        }
        self.write_u64_bits(v as u64, 32)
    }

    /// Appends a 64-bit value, least significant byte first.
    pub fn write_u64(&mut self, v: u64) -> (r: Result<(), GameIoError>)
        requires
            old(self).wf(),
            old(self).bits().len() + 64 <= usize::MAX - 7,
        ensures
            final(self).wf(),
            r == Ok::<(), GameIoError>(()),
            final(self).bits() == old(self).bits() + to_bits(v, 64),
    {
        proof {
            lemma2_to64();
            vstd::arithmetic::power2::lemma2_to64_rest();
        }
        self.write_u64_bits(v, 64)
    }

    /// Appends a machine word at the machine's full word width, least
    /// significant byte first.
    pub fn write_usize(&mut self, v: usize) -> (r: Result<(), GameIoError>)
        requires
            old(self).wf(),
            old(self).bits().len() + usize::BITS <= usize::MAX - 7,
        ensures
            final(self).wf(),
            r == Ok::<(), GameIoError>(()),
            final(self).bits() == old(self).bits() + to_bits(v as u64, usize::BITS as nat),
    {
        proof {
            lemma_usize_width();
        }
        self.write_u64_bits(v as u64, usize::BITS as usize)
    }

    /// Appends the two's-complement pattern of a signed byte.
    pub fn write_i8(&mut self, v: i8) -> (r: Result<(), GameIoError>)
        requires
            old(self).wf(),
            old(self).bits().len() + 8 <= usize::MAX - 7,
        ensures
            final(self).wf(),
            r == Ok::<(), GameIoError>(()),
            final(self).bits() == old(self).bits() + to_bits((v as u8) as u64, 8),
    {
        proof {
            lemma2_to64();
        }
        self.write_u8_bits(v as u8, 8)
    }

    /// Appends the two's-complement pattern of a signed 16-bit value.
    pub fn write_i16(&mut self, v: i16) -> (r: Result<(), GameIoError>)
        requires
            old(self).wf(),
            old(self).bits().len() + 16 <= usize::MAX - 7,
        ensures
            final(self).wf(),
            r == Ok::<(), GameIoError>(()),
            final(self).bits() == old(self).bits() + to_bits((v as u16) as u64, 16),
    {
        proof {
            lemma2_to64();
        }
        self.write_u64_bits((v as u16) as u64, 16)
    }

    /// Appends the two's-complement pattern of a signed 32-bit value.
    pub fn write_i32(&mut self, v: i32) -> (r: Result<(), GameIoError>)
        requires
            old(self).wf(),
            old(self).bits().len() + 32 <= usize::MAX - 7,
        ensures
            final(self).wf(),
            r == Ok::<(), GameIoError>(()),
            final(self).bits() == old(self).bits() + to_bits((v as u32) as u64, 32),
    {
        proof {
            lemma2_to64();
        }
        self.write_u64_bits((v as u32) as u64, 32)
    }

    /// Appends the two's-complement pattern of a signed 64-bit value.
    pub fn write_i64(&mut self, v: i64) -> (r: Result<(), GameIoError>)
        requires
            old(self).wf(),
            old(self).bits().len() + 64 <= usize::MAX - 7,
        ensures
            final(self).wf(),
            r == Ok::<(), GameIoError>(()),
            final(self).bits() == old(self).bits() + to_bits(v as u64, 64),
    {
        proof {
            lemma2_to64();
            vstd::arithmetic::power2::lemma2_to64_rest();
        }
        self.write_u64_bits(v as u64, 64)
    }

    /// Appends the two's-complement pattern of a signed machine word at the
    /// machine's full word width.
    pub fn write_isize(&mut self, v: isize) -> (r: Result<(), GameIoError>)
        requires
            old(self).wf(),
            old(self).bits().len() + usize::BITS <= usize::MAX - 7,
        ensures
            final(self).wf(),
            r == Ok::<(), GameIoError>(()),
            final(self).bits() == old(self).bits() + to_bits(
                (v as usize) as u64,
                usize::BITS as nat,
            ),
    {
        proof {
            lemma_usize_width();
        }
        self.write_u64_bits((v as usize) as u64, usize::BITS as usize)
    }
}

impl InputMemoryStream {
    /// Reads one whole byte as a flag: any non-zero byte reads as true.
    pub fn read_bool(&mut self) -> (r: Result<bool, GameIoError>)
        requires
            old(self).wf(),
        ensures
            final(self).wf(),
            final(self).data() == old(self).data(),
            old(self).cursor() + 8 <= old(self).data().len() ==> {
                &&& r is Ok
                &&& r->Ok_0 == (crate::bits::from_bits(
                    old(self).data().subrange(old(self).cursor() as int, (old(self).cursor() + 8) as int),
                ) > 0)
                &&& final(self).cursor() == old(self).cursor() + 8
            },
            old(self).cursor() + 8 > old(self).data().len() ==> {
                &&& r == Err::<bool, GameIoError>(
                    GameIoError::UnexpectedEof(
                        8,
                        (old(self).data().len() - old(self).cursor()) as usize,
                    ),
                )
                &&& *final(self) == *old(self)
            },
    {
        self.read_bool_bits(8)
    }

    /// Reads one byte.
    pub fn read_u8(&mut self) -> (r: Result<u8, GameIoError>)
        requires
            old(self).wf(),
        ensures
            final(self).wf(),
            final(self).data() == old(self).data(),
            old(self).cursor() + 8 <= old(self).data().len() ==> {
                &&& r is Ok
                &&& (r->Ok_0 as nat) == crate::bits::from_bits(
                    old(self).data().subrange(old(self).cursor() as int, (old(self).cursor() + 8) as int),
                )
                &&& final(self).cursor() == old(self).cursor() + 8
            },
            old(self).cursor() + 8 > old(self).data().len() ==> {
                &&& r == Err::<u8, GameIoError>(
                    GameIoError::UnexpectedEof(
                        8,
                        (old(self).data().len() - old(self).cursor()) as usize,
                    ),
                )
                &&& *final(self) == *old(self)
            },
    {
        self.read_u8_bits(8)
    }

    /// Reads a 16-bit value, least significant byte first.
    pub fn read_u16(&mut self) -> (r: Result<u16, GameIoError>)
        requires
            old(self).wf(),
        ensures
            final(self).wf(),
            final(self).data() == old(self).data(),
            old(self).cursor() + 16 <= old(self).data().len() ==> {
                &&& r is Ok
                &&& (r->Ok_0 as nat) == crate::bits::from_bits(
                    old(self).data().subrange(old(self).cursor() as int, (old(self).cursor() + 16) as int),
                )
                &&& final(self).cursor() == old(self).cursor() + 16
            },
            old(self).cursor() + 16 > old(self).data().len() ==> {
                &&& r == Err::<u16, GameIoError>(
                    GameIoError::UnexpectedEof(
                        16,
                        (old(self).data().len() - old(self).cursor()) as usize,
                    ),
                )
                &&& *final(self) == *old(self)
            },
    {
        self.read_u16_bits(16)
    }

    /// Reads a 32-bit value, least significant byte first.
    pub fn read_u32(&mut self) -> (r: Result<u32, GameIoError>)
        requires
            old(self).wf(),
        ensures
            final(self).wf(),
            final(self).data() == old(self).data(),
            old(self).cursor() + 32 <= old(self).data().len() ==> {
                &&& r is Ok
                &&& (r->Ok_0 as nat) == crate::bits::from_bits(
                    old(self).data().subrange(old(self).cursor() as int, (old(self).cursor() + 32) as int),
                )
                &&& final(self).cursor() == old(self).cursor() + 32
            },
            old(self).cursor() + 32 > old(self).data().len() ==> {
                &&& r == Err::<u32, GameIoError>(
                    GameIoError::UnexpectedEof(
                        32,
                        (old(self).data().len() - old(self).cursor()) as usize,
                    ),
                )
                &&& *final(self) == *old(self)
            },
    {
        self.read_u32_bits(32)
    }

    /// Reads a 64-bit value, least significant byte first.
    pub fn read_u64(&mut self) -> (r: Result<u64, GameIoError>)
        requires
            old(self).wf(),
        ensures
            final(self).wf(),
            final(self).data() == old(self).data(),
            old(self).cursor() + 64 <= old(self).data().len() ==> {
                &&& r is Ok
                &&& (r->Ok_0 as nat) == crate::bits::from_bits(
                    old(self).data().subrange(old(self).cursor() as int, (old(self).cursor() + 64) as int),
                )
                &&& final(self).cursor() == old(self).cursor() + 64
            },
            old(self).cursor() + 64 > old(self).data().len() ==> {
                &&& r == Err::<u64, GameIoError>(
                    GameIoError::UnexpectedEof(
                        64,
                        (old(self).data().len() - old(self).cursor()) as usize,
                    ),
                )
                &&& *final(self) == *old(self)
            },
    {
        self.read_u64_bits(64)
    }

    /// Reads a machine word at the machine's full word width, least
    /// significant byte first.
    pub fn read_usize(&mut self) -> (r: Result<usize, GameIoError>)
        requires
            old(self).wf(),
        ensures
            final(self).wf(),
            final(self).data() == old(self).data(),
            old(self).cursor() + usize::BITS <= old(self).data().len() ==> {
                &&& r is Ok
                &&& (r->Ok_0 as nat) == crate::bits::from_bits(
                    old(self).data().subrange(
                        old(self).cursor() as int,
                        (old(self).cursor() + usize::BITS) as int,
                    ),
                )
                &&& final(self).cursor() == old(self).cursor() + usize::BITS
            },
            old(self).cursor() + usize::BITS > old(self).data().len() ==> {
                &&& r == Err::<usize, GameIoError>(
                    GameIoError::UnexpectedEof(
                        usize::BITS as usize,
                        (old(self).data().len() - old(self).cursor()) as usize,
                    ),
                )
                &&& *final(self) == *old(self)
            },
    {
        self.read_usize_bits(usize::BITS as usize)
    }

    /// Reads the two's-complement pattern of a signed byte.
    pub fn read_i8(&mut self) -> (r: Result<i8, GameIoError>)
        requires
            old(self).wf(),
        ensures
            final(self).wf(),
            final(self).data() == old(self).data(),
            old(self).cursor() + 8 <= old(self).data().len() ==> {
                &&& r is Ok
                &&& ((r->Ok_0 as u8) as nat) == crate::bits::from_bits(
                    old(self).data().subrange(old(self).cursor() as int, (old(self).cursor() + 8) as int),
                )
                &&& final(self).cursor() == old(self).cursor() + 8
            },
            old(self).cursor() + 8 > old(self).data().len() ==> {
                &&& r == Err::<i8, GameIoError>(
                    GameIoError::UnexpectedEof(
                        8,
                        (old(self).data().len() - old(self).cursor()) as usize,
                    ),
                )
                &&& *final(self) == *old(self)
            },
    {
        self.read_i8_bits(8)
    }

    /// Reads the two's-complement pattern of a signed 16-bit value.
    pub fn read_i16(&mut self) -> (r: Result<i16, GameIoError>)
        requires
            old(self).wf(),
        ensures
            final(self).wf(),
            final(self).data() == old(self).data(),
            old(self).cursor() + 16 <= old(self).data().len() ==> {
                &&& r is Ok
                &&& ((r->Ok_0 as u16) as nat) == crate::bits::from_bits(
                    old(self).data().subrange(old(self).cursor() as int, (old(self).cursor() + 16) as int),
                )
                &&& final(self).cursor() == old(self).cursor() + 16
            },
            old(self).cursor() + 16 > old(self).data().len() ==> {
                &&& r == Err::<i16, GameIoError>(
                    GameIoError::UnexpectedEof(
                        16,
                        (old(self).data().len() - old(self).cursor()) as usize,
                    ),
                )
                &&& *final(self) == *old(self)
            },
    {
        self.read_i16_bits(16)
    }

    /// Reads the two's-complement pattern of a signed 32-bit value.
    pub fn read_i32(&mut self) -> (r: Result<i32, GameIoError>)
        requires
            old(self).wf(),
        ensures
            final(self).wf(),
            final(self).data() == old(self).data(),
            old(self).cursor() + 32 <= old(self).data().len() ==> {
                &&& r is Ok
                &&& ((r->Ok_0 as u32) as nat) == crate::bits::from_bits(
                    old(self).data().subrange(old(self).cursor() as int, (old(self).cursor() + 32) as int),
                )
                &&& final(self).cursor() == old(self).cursor() + 32
            },
            old(self).cursor() + 32 > old(self).data().len() ==> {
                &&& r == Err::<i32, GameIoError>(
                    GameIoError::UnexpectedEof(
                        32,
                        (old(self).data().len() - old(self).cursor()) as usize,
                    ),
                )
                &&& *final(self) == *old(self)
            },
    {
        self.read_i32_bits(32)
    }

    /// Reads the two's-complement pattern of a signed 64-bit value.
    pub fn read_i64(&mut self) -> (r: Result<i64, GameIoError>)
        requires
            old(self).wf(),
        ensures
            final(self).wf(),
            final(self).data() == old(self).data(),
            old(self).cursor() + 64 <= old(self).data().len() ==> {
                &&& r is Ok
                &&& ((r->Ok_0 as u64) as nat) == crate::bits::from_bits(
                    old(self).data().subrange(old(self).cursor() as int, (old(self).cursor() + 64) as int),
                )
                &&& final(self).cursor() == old(self).cursor() + 64
            },
            old(self).cursor() + 64 > old(self).data().len() ==> {
                &&& r == Err::<i64, GameIoError>(
                    GameIoError::UnexpectedEof(
                        64,
                        (old(self).data().len() - old(self).cursor()) as usize,
                    ),
                )
                &&& *final(self) == *old(self)
            },
    {
        self.read_i64_bits(64)
    }

    /// Reads the two's-complement pattern of a signed machine word at the
    /// machine's full word width.
    pub fn read_isize(&mut self) -> (r: Result<isize, GameIoError>)
        requires
            old(self).wf(),
        ensures
            final(self).wf(),
            final(self).data() == old(self).data(),
            old(self).cursor() + usize::BITS <= old(self).data().len() ==> {
                &&& r is Ok
                &&& ((r->Ok_0 as usize) as nat) == crate::bits::from_bits(
                    old(self).data().subrange(
                        old(self).cursor() as int,
                        (old(self).cursor() + usize::BITS) as int,
                    ),
                )
                &&& final(self).cursor() == old(self).cursor() + usize::BITS
            },
            old(self).cursor() + usize::BITS > old(self).data().len() ==> {
                &&& r == Err::<isize, GameIoError>(
                    GameIoError::UnexpectedEof(
                        usize::BITS as usize,
                        (old(self).data().len() - old(self).cursor()) as usize,
                    ),
                )
                &&& *final(self) == *old(self)
            },
    {
        self.read_isize_bits(usize::BITS as usize)
    }
}

/// The machine word width in bits matches the machine word's range.
pub proof fn lemma_usize_width()
    ensures
        pow2(usize::BITS as nat) == usize::MAX as nat + 1,
        usize::BITS == 32 || usize::BITS == 64,
{
    lemma2_to64();
    vstd::arithmetic::power2::lemma2_to64_rest();
}

/// Masking with the low mask of a width keeps the bits below the width and
/// clears everything above it.
proof fn lemma_mask_keep(b: u8, n: u8, i: u8)
    by (bit_vector)
    requires
        1 <= n <= 8,
        i < n,
    ensures
        u8_bit(b & (0xFFu8 >> ((8 - n) as u8)), i) == u8_bit(b, i),
{
}

/// What remains above the mask of a width is nothing.
proof fn lemma_mask_bound(b: u8, n: u8)
    by (bit_vector)
    requires
        1 <= n <= 8,
    ensures
        n == 8 || (b & (0xFFu8 >> ((8 - n) as u8))) >> n == 0,
{
}

/// Reinterpreting a pattern as signed and back is the identity.
proof fn lemma_i8_pattern(b: u8)
    by (bit_vector)
    ensures
        (b as i8) as u8 == b,
{
}

/// Reinterpreting a pattern as signed and back is the identity.
proof fn lemma_i16_pattern(v: u16)
    by (bit_vector)
    ensures
        (v as i16) as u16 == v,
{
}

/// Reinterpreting a pattern as signed and back is the identity.
proof fn lemma_i32_pattern(v: u32)
    by (bit_vector)
    ensures
        (v as i32) as u32 == v,
{
}

/// Reinterpreting a pattern as signed and back is the identity.
proof fn lemma_i64_pattern(v: u64)
    by (bit_vector)
    ensures
        (v as i64) as u64 == v,
{
}

/// Reinterpreting a pattern as signed and back is the identity.
proof fn lemma_isize_pattern(v: usize)
    by (bit_vector)
    ensures
        (v as isize) as usize == v,
{
}

/// A value read at up to the machine word width fits a machine word.
proof fn lemma_word_fits(v: u64, bits: nat)
    requires
        bits <= usize::BITS,
        (v as nat) < pow2(bits),
    ensures
        ((v as usize) as nat) == v as nat,
{
    lemma2_to64();
    if bits < usize::BITS as nat {
        vstd::arithmetic::power2::lemma_pow2_strictly_increases(bits, usize::BITS as nat);
    }
}

/// A value read at a width fits every integer type at least that wide.
proof fn lemma_read_fits(s: Seq<bool>, bits: nat, width: nat)
    requires
        s.len() == bits,
        bits <= width,
        width <= 64,
    ensures
        crate::bits::from_bits(s) < pow2(width),
{
    crate::bits::lemma_from_bits_bound(s);
    if bits < width {
        vstd::arithmetic::power2::lemma_pow2_strictly_increases(bits, width);
    }
}

/// Two right shifts combine into one.
proof fn lemma_chunk_shift(v: u64, done: nat)
    requires
        done + 8 <= 64,
    ensures
        (v >> (done as u64)) >> 8u64 == v >> ((done + 8) as u64),
{
    let d = done as u64;
    assert(d <= 56 ==> ((v >> d) >> 8u64 == v >> ((d + 8) as u64))) by (bit_vector);
}

/// A bounded chunk shifted up past the accumulated low bits neither
/// overlaps them nor overflows the word.
proof fn lemma_accumulate(acc: u64, b: u64, shift: nat, width: nat)
    requires
        1 <= width,
        shift + width <= 64,
        (acc as nat) < pow2(shift),
        (b as nat) < pow2(width),
    ensures
        (b << (shift as u64)) as nat == (b as nat) * pow2(shift),
        (acc as nat) + (b as nat) * pow2(shift) < pow2(shift + width),
        (acc as nat) + (b as nat) * pow2(shift) <= u64::MAX as nat,
{
    lemma2_to64();
    vstd::arithmetic::power2::lemma_pow2_adds(shift, width);
    if shift + width < 64 {
        vstd::arithmetic::power2::lemma_pow2_strictly_increases(shift + width, 64);
    }
    lemma_pow2_pos(shift);
    lemma_pow2_pos(width);
    assert((acc as nat) + (b as nat) * pow2(shift) < pow2(shift) * pow2(width))
        by (nonlinear_arith)
        requires
            (acc as nat) < pow2(shift),
            (b as nat) < pow2(width),
            pow2(shift) >= 1,
            pow2(width) >= 1,
    ;
    assert((b as nat) * pow2(shift) <= u64::MAX as nat) by (nonlinear_arith)
        requires
            (b as nat) < pow2(width),
            pow2(shift) >= 1,
            pow2(shift) * pow2(width) <= pow2(64),
            pow2(64) == 0x10000000000000000,
    ;
    vstd::bits::lemma_u64_shl_is_mul(b, shift as u64);
}

/// Shifting a bounded value right by eight drops its bound by eight bits.
proof fn lemma_shr8_bound(x: u64, w: nat)
    requires
        8 <= w <= 64,
        (x as nat) < pow2(w),
    ensures
        ((x >> 8u64) as nat) < pow2((w - 8) as nat),
{
    vstd::bits::lemma_u64_shr_is_div(x, 8u64);
    lemma2_to64();
    vstd::arithmetic::power2::lemma_pow2_adds((w - 8) as nat, 8);
    assert((x as nat) / 256 < pow2((w - 8) as nat)) by (nonlinear_arith)
        requires
            (x as nat) < pow2((w - 8) as nat) * 256,
    ;
}

impl InputMemoryStream {
    /// Reads `bits` bits into the low-order bits of a 64-bit word, least
    /// significant byte first, for any width up to 64.  Fails without
    /// moving the cursor when fewer than `bits` bits remain.
    pub fn read_u64_bits(&mut self, bits: usize) -> (r: Result<u64, GameIoError>)
        requires
            old(self).wf(),
            1 <= bits <= 64,
        ensures
            final(self).wf(),
            final(self).data() == old(self).data(),
            old(self).cursor() + bits <= old(self).data().len() ==> {
                &&& r is Ok
                &&& (r->Ok_0 as nat) == crate::bits::from_bits(
                    old(self).data().subrange(
                        old(self).cursor() as int,
                        old(self).cursor() + bits,
                    ),
                )
                &&& final(self).cursor() == old(self).cursor() + bits
            },
            old(self).cursor() + bits > old(self).data().len() ==> {
                &&& r == Err::<u64, GameIoError>(
                    GameIoError::UnexpectedEof(
                        bits,
                        (old(self).data().len() - old(self).cursor()) as usize,
                    ),
                )
                &&& *final(self) == *old(self)
            },
    {
        let remaining_now = self.remaining_bit_count();
        if remaining_now < bits {
            return Err(GameIoError::UnexpectedEof(bits, remaining_now));
        }
        let ghost start = self.cursor() as int;
        let mut remaining = bits;
        let mut acc: u64 = 0;
        let mut shift: usize = 0;
        proof {
            lemma2_to64();
            assert(old(self).data().subrange(start, start) =~= Seq::<bool>::empty());
        }
        while remaining > 8
            invariant
                self.wf(),
                self.data() == old(self).data(),
                1 <= remaining <= bits <= 64,
                shift == bits - remaining,
                shift % 8 == 0,
                start == old(self).cursor() as int,
                self.cursor() == start + shift,
                start + bits <= self.data().len(),
                (acc as nat) == crate::bits::from_bits(
                    self.data().subrange(start, start + shift),
                ),
                (acc as nat) < pow2(shift as nat),
            decreases remaining,
        {
            let b = self.read_u8_bits(8)?;
            proof {
                crate::bits::lemma_from_bits_bound(
                    self.data().subrange(start + shift, start + shift + 8),
                );
                lemma_accumulate(acc, b as u64, shift as nat, 8);
                assert(self.data().subrange(start, start + shift + 8) =~= self.data().subrange(
                    start,
                    start + shift,
                ) + self.data().subrange(start + shift, start + shift + 8));
                crate::bits::lemma_from_bits_concat(
                    self.data().subrange(start, start + shift),
                    self.data().subrange(start + shift, start + shift + 8),
                );
            }
            acc = acc + ((b as u64) << shift);
            shift = shift + 8;
            remaining = remaining - 8;
        }
        let b = self.read_u8_bits(remaining)?;
        proof {
            let d = old(self).data();
            let sa = d.subrange(start, start + shift);
            let sb = d.subrange(start + shift, start + bits);
            crate::bits::lemma_from_bits_bound(sb);
            lemma_accumulate(acc, b as u64, shift as nat, remaining as nat);
            assert(sa + sb =~= d.subrange(start, start + bits));
            crate::bits::lemma_from_bits_concat(sa, sb);
            assert((acc as nat) == crate::bits::from_bits(sa));
            assert((b as nat) == crate::bits::from_bits(sb));
            assert(pow2(shift as nat) * (b as nat) == (b as nat) * pow2(shift as nat))
                by (nonlinear_arith);
            assert(crate::bits::from_bits(d.subrange(start, start + bits)) == (acc as nat) + (
            b as nat) * pow2(shift as nat));
            assert(((b as u64) << (shift as u64)) as nat == (b as nat) * pow2(shift as nat));
        }
        let out = acc + ((b as u64) << shift);
        proof {
            assert(((b as u64) << shift) == ((b as u64) << (shift as u64)));
        }
        Ok(out)
    }
}

/// What each bit position must hold after a write of the low `n` bits of
/// `v` at cursor `head` over previous content `old_bits`: unchanged below
/// the cursor, the bits of `v` across the written span, zero above it.
spec fn spec_written_bit(old_bits: Seq<bool>, head: int, v: u8, n: nat, j: int) -> bool {
    if j < head {
        old_bits[j]
    } else if j < head + n {
        u64_bit(v as u64, (j - head) as u64)
    } else {
        false
    }
}

/// A value below `pow2(n)` has nothing above its `n` low bits.
proof fn lemma_u8_bound_shift(v: u8, n: nat)
    requires
        n <= 8,
        (v as nat) < pow2(n),
    ensures
        n == 8 || (v >> (n as u8)) == 0,
{
    if n < 8 {
        vstd::bits::lemma_u8_shr_is_div(v, n as u8);
        vstd::bits::lemma_u8_pow2_no_overflow(n);
        lemma_pow2_pos(n);
        lemma_basic_div(v as int, pow2(n) as int);
    }
}

/// The byte at the cursor after masking and merging: bits below the cursor
/// offset keep their old value, bits across the written span take the bits
/// of `v`, bits above the span are cleared.
proof fn lemma_merge_bits(b: u8, v: u8, r: u8, n: u8, i: u8)
    by (bit_vector)
    requires
        r < 8,
        1 <= n <= 8,
        i < 8,
        n == 8 || (v >> n) == 0,
    ensures
        i < r ==> u8_bit((b & !(0xFFu8 << r)) | (v << r), i) == u8_bit(b, i),
        r <= i && i - r < n ==> u8_bit((b & !(0xFFu8 << r)) | (v << r), i) == u64_bit(
            v as u64,
            (i - r) as u64,
        ),
        r <= i && i - r >= n ==> !u8_bit((b & !(0xFFu8 << r)) | (v << r), i),
{
}

/// The spill byte after a boundary-crossing write: it holds the high part
/// of `v`, shifted down past the bits that fitted in the previous byte, and
/// nothing else.
proof fn lemma_second_byte_bits(v: u8, r: u8, n: u8, i: u8)
    by (bit_vector)
    requires
        0 < r < 8,
        1 <= n <= 8,
        i < 8,
        n == 8 || (v >> n) == 0,
    ensures
        i + 8 - r < n ==> u8_bit(v >> ((8 - r) as u8), i) == u64_bit(v as u64, (i + 8 - r) as u64),
        i + 8 - r >= n ==> !u8_bit(v >> ((8 - r) as u8), i),
{
}

} // verus!
