//! The typed codec layer: length-prefixed byte runs, text, optional
//! values, homogeneous sequences, and descriptor-driven records, all
//! layered on the bit streams.
//!
//! Each shape has a specification encoder (`enc_*`), a specification
//! decoder (`dec_*`), and executable writer and reader whose contracts are
//! stated against them.  A decoder consumes exactly what the matching
//! encoder produced, so round trips follow from the contracts alone.

use crate::bits::{byte_bits, from_bits, to_bits};
use crate::reflect::{
    field_views, value_has_kind, values_match, FieldValView, FieldValue, Ty, UserDefinedType,
};
use crate::stream::{GameIoError, InputMemoryStream, OutputMemoryStream};
use vstd::arithmetic::power2::pow2;
use vstd::prelude::*;
use vstd::utf8::{decode_utf8, encode_utf8, valid_utf8};

verus! {

/// The machine word width, in bits: every length prefix and word value on
/// the wire is this wide.
pub open spec fn word_bits() -> nat {
    usize::BITS as nat
}

/// The wire form of a machine word.
pub open spec fn enc_word(v: usize) -> Seq<bool> {
    to_bits(v as u64, word_bits())
}

/// The wire form of a length-prefixed byte run: the count as a machine
/// word, then the bytes in order.
pub open spec fn enc_bytes(b: Seq<u8>) -> Seq<bool> {
    enc_word(b.len() as usize) + byte_bits(b)
}

/// The wire form of text: its UTF-8 bytes as a length-prefixed byte run.
pub open spec fn enc_string(s: Seq<char>) -> Seq<bool> {
    enc_bytes(encode_utf8(s))
}

/// The bytes denoted by a whole-byte bit span.
pub open spec fn bits_to_bytes(s: Seq<bool>) -> Seq<u8> {
    Seq::new(s.len() / 8, |k: int| from_bits(s.subrange(8 * k, 8 * k + 8)) as u8)
}

/// Decodes a machine word at `head`: its value and the next cursor, or
/// nothing when fewer bits remain.
pub open spec fn dec_word(data: Seq<bool>, head: nat) -> Option<(usize, nat)> {
    if head + word_bits() <= data.len() {
        Some(
            (
                from_bits(data.subrange(head as int, (head + word_bits()) as int)) as usize,
                (head + word_bits()) as nat,
            ),
        )
    } else {
        None
    }
}

/// Decodes a length-prefixed byte run at `head`: the bytes and the next
/// cursor, or nothing when the prefix or the run is cut short.
pub open spec fn dec_bytes(data: Seq<bool>, head: nat) -> Option<(Seq<u8>, nat)> {
    match dec_word(data, head) {
        Some((len, h1)) => {
            if h1 + 8 * len <= data.len() {
                Some(
                    (
                        bits_to_bytes(data.subrange(h1 as int, h1 + 8 * len)),
                        (h1 + 8 * len) as nat,
                    ),
                )
            } else {
                None
            }
        },
        None => None,
    }
}

/// Reassembling a byte sequence from its own bits gives it back.
pub proof fn lemma_bytes_of_bits(a: Seq<u8>)
    ensures
        bits_to_bytes(byte_bits(a)) =~= a,
{
    assert forall|k: int| 0 <= k < a.len() implies bits_to_bytes(byte_bits(a))[k] == a[k] by {
        crate::bits::lemma_byte_bits_chunk(a, k);
        crate::bits::lemma_pow2_values();
        crate::bits::lemma_bits_round_trip(a[k] as u64, 8);
    }
    assert(byte_bits(a).len() / 8 == a.len()) by (nonlinear_arith)
        requires
            byte_bits(a).len() == 8 * a.len(),
    ;
}

/// Relies on `String::from_utf8`: it returns the text whose UTF-8 encoding
/// is the given bytes, and refuses bytes that are not valid UTF-8.
#[verifier::external_body]
fn utf8_to_string(bytes: Vec<u8>) -> (r: Option<String>)
    ensures
        r is Some <==> valid_utf8(bytes@),
        r is Some ==> r->0@ == decode_utf8(bytes@),
{
    String::from_utf8(bytes).ok()
}

impl OutputMemoryStream {
    /// Appends a length-prefixed byte run: the count as a machine word,
    /// then the bytes.
    pub fn write_bytes(&mut self, v: &[u8]) -> (r: Result<(), GameIoError>)
        requires
            old(self).wf(),
            old(self).bits().len() + usize::BITS + 8 * v@.len() <= usize::MAX - 7,
        ensures
            final(self).wf(),
            r == Ok::<(), GameIoError>(()),
            final(self).bits() == old(self).bits() + enc_bytes(v@),
    {
        self.write_usize(v.len())?;
        self.write_any(v)?;
        proof {
            assert(old(self).bits() + enc_word(v@.len() as usize) + byte_bits(v@) =~= old(
                self,
            ).bits() + enc_bytes(v@));
        }
        Ok(())
    }

    /// Appends text as its UTF-8 bytes, length-prefixed.
    pub fn write_str(&mut self, v: &str) -> (r: Result<(), GameIoError>)
        requires
            old(self).wf(),
            old(self).bits().len() + usize::BITS + 8 * encode_utf8(v@).len() <= usize::MAX - 7,
        ensures
            final(self).wf(),
            r == Ok::<(), GameIoError>(()),
            final(self).bits() == old(self).bits() + enc_string(v@),
    {
        let bytes = v.as_bytes();
        self.write_bytes(bytes)
    }

    /// Appends text held in an owned string.
    pub fn write_string(&mut self, v: &String) -> (r: Result<(), GameIoError>)
        requires
            old(self).wf(),
            old(self).bits().len() + usize::BITS + 8 * encode_utf8(v@).len() <= usize::MAX - 7,
        ensures
            final(self).wf(),
            r == Ok::<(), GameIoError>(()),
            final(self).bits() == old(self).bits() + enc_string(v@),
    {
        self.write_str(v.as_str())
    }
}

impl InputMemoryStream {
    /// Reads a length-prefixed byte run.
    pub fn read_bytes(&mut self) -> (r: Result<Vec<u8>, GameIoError>)
        requires
            old(self).wf(),
        ensures
            final(self).wf(),
            final(self).data() == old(self).data(),
            match dec_bytes(old(self).data(), old(self).cursor()) {
                Some((b, h)) => {
                    &&& r is Ok
                    &&& r->Ok_0@ == b
                    &&& final(self).cursor() == h
                },
                None => r matches Err(GameIoError::UnexpectedEof(_, _)),
            },
    {
        let len = self.read_usize()?;
        let remaining = self.remaining_bit_count();
        if len > remaining / 8 {
            let requested = if len <= usize::MAX / 8 {
                8 * len
            } else {
                usize::MAX
            };
            proof {
                self.lemma_data_bound();
                vstd::arithmetic::div_mod::lemma_fundamental_div_mod(remaining as int, 8);
                assert(remaining < 8 * len) by (nonlinear_arith)
                    requires
                        (len as int) > remaining as int / 8,
                        remaining == 8 * (remaining as int / 8) + remaining as int % 8,
                        0 <= remaining as int % 8 < 8,
                ;
            }
            return Err(GameIoError::UnexpectedEof(requested, remaining));
        }
        proof {
            self.lemma_data_bound();
            vstd::arithmetic::div_mod::lemma_fundamental_div_mod(remaining as int, 8);
            assert(8 * len <= remaining) by (nonlinear_arith)
                requires
                    (len as int) <= remaining as int / 8,
                    remaining == 8 * (remaining as int / 8) + remaining as int % 8,
                    0 <= remaining as int % 8 < 8,
            ;
            vstd::arithmetic::div_mod::lemma_fundamental_div_mod(usize::MAX as int, 8);
            assert(len <= usize::MAX / 8) by (nonlinear_arith)
                requires
                    8 * len <= usize::MAX,
                    usize::MAX as int == 8 * (usize::MAX as int / 8) + usize::MAX as int % 8,
                    0 <= usize::MAX as int % 8 < 8,
            ;
        }
        let bytes = self.read_any(len)?;
        proof {
            let d = old(self).data();
            let h1 = old(self).cursor() + word_bits();
            assert(bits_to_bytes(d.subrange(h1 as int, h1 + 8 * len)) =~= bytes@) by {
                lemma_bytes_of_bits(bytes@);
            }
        }
        Ok(bytes)
    }

    /// Reads length-prefixed UTF-8 bytes and decodes them to text,
    /// refusing byte runs that do not form valid text.
    pub fn read_string(&mut self) -> (r: Result<String, GameIoError>)
        requires
            old(self).wf(),
        ensures
            final(self).wf(),
            final(self).data() == old(self).data(),
            match dec_bytes(old(self).data(), old(self).cursor()) {
                Some((b, h)) => {
                    &&& valid_utf8(b) ==> {
                        &&& r is Ok
                        &&& r->Ok_0@ == decode_utf8(b)
                        &&& final(self).cursor() == h
                    }
                    &&& !valid_utf8(b) ==> r == Err::<String, GameIoError>(GameIoError::Utf8Error)
                },
                None => r matches Err(GameIoError::UnexpectedEof(_, _)),
            },
    {
        let bytes = self.read_bytes()?;
        match utf8_to_string(bytes) {
            Some(s) => Ok(s),
            None => Err(GameIoError::Utf8Error),
        }
    }
}

/// The wire form of an optional value: a presence flag of one bit, then
/// the payload at the chosen width only when present.
pub open spec fn enc_option_u64(v: Option<u64>, bits: nat) -> Seq<bool> {
    match v {
        Some(p) => to_bits(1, 1) + to_bits(p, bits),
        None => to_bits(0, 1),
    }
}

/// Decodes an optional value at `head`: the flag bit first, the payload
/// only when the flag was set.
pub open spec fn dec_option_u64(data: Seq<bool>, head: nat, bits: nat) -> Option<
    (Option<u64>, nat),
> {
    if head + 1 <= data.len() {
        if from_bits(data.subrange(head as int, head + 1 as int)) > 0 {
            if head + 1 + bits <= data.len() {
                Some(
                    (
                        Some(from_bits(data.subrange(head as int + 1, head as int + 1 + bits as int)) as u64),
                        head + 1 + bits,
                    ),
                )
            } else {
                None
            }
        } else {
            Some((None, head + 1))
        }
    } else {
        None
    }
}

/// The bits of a run of 32-bit values, each at full width, in order.
pub open spec fn u32_bits(vs: Seq<u32>) -> Seq<bool> {
    Seq::new(vs.len() * 32, |i: int| crate::bits::u64_bit(vs[i / 32] as u64, (i % 32) as u64))
}

/// The wire form of a homogeneous list: the count as a machine word, then
/// each element at full width, in order.
pub open spec fn enc_u32_seq(vs: Seq<u32>) -> Seq<bool> {
    enc_word(vs.len() as usize) + u32_bits(vs)
}

/// Decodes a list of 32-bit values at `head`: the count, then exactly
/// that many elements in order.
pub open spec fn dec_u32_seq(data: Seq<bool>, head: nat) -> Option<(Seq<u32>, nat)> {
    match dec_word(data, head) {
        Some((len, h1)) => {
            if h1 + 32 * len <= data.len() {
                Some(
                    (
                        Seq::new(
                            len as nat,
                            |k: int|
                                from_bits(
                                    data.subrange(h1 + 32 * k, h1 + 32 * k + 32),
                                ) as u32,
                        ),
                        (h1 + 32 * len) as nat,
                    ),
                )
            } else {
                None
            }
        },
        None => None,
    }
}

/// One element's slice of a list's bits is that element's bits.
proof fn lemma_u32_bits_chunk(vs: Seq<u32>, k: int)
    requires
        0 <= k < vs.len(),
    ensures
        u32_bits(vs).subrange(32 * k, 32 * k + 32) =~= to_bits(vs[k] as u64, 32),
{
    let chunk = u32_bits(vs).subrange(32 * k, 32 * k + 32);
    let lifted = to_bits(vs[k] as u64, 32);
    assert forall|i: int| 0 <= i < 32 implies chunk[i] == lifted[i] by {
        vstd::arithmetic::div_mod::lemma_fundamental_div_mod_converse(32 * k + i, 32, k, i);
    }
}

impl OutputMemoryStream {
    /// Appends an optional value: one presence bit, then the payload's
    /// `bits` low-order bits only when a value is present.
    pub fn write_option_u64_bits(&mut self, v: &Option<u64>, bits: usize) -> (r: Result<
        (),
        GameIoError,
    >)
        requires
            old(self).wf(),
            1 <= bits <= 64,
            (v matches Some(p) ==> (p as nat) < pow2(bits as nat)),
            old(self).bits().len() + 1 + bits <= usize::MAX - 7,
        ensures
            final(self).wf(),
            r == Ok::<(), GameIoError>(()),
            final(self).bits() == old(self).bits() + enc_option_u64(*v, bits as nat),
    {
        match v {
            Some(p) => {
                self.write_bool_bits(true, 1)?;
                self.write_u64_bits(*p, bits)?;
                proof {
                    assert(old(self).bits() + to_bits(1, 1) + to_bits(*p, bits as nat) =~= old(
                        self,
                    ).bits() + enc_option_u64(*v, bits as nat));
                }
            },
            None => {
                self.write_bool_bits(false, 1)?;
            },
        }
        Ok(())
    }

    /// Appends a list of 32-bit values: the count as a machine word, then
    /// each element at full width, in order.
    pub fn write_u32_seq(&mut self, v: &[u32]) -> (r: Result<(), GameIoError>)
        requires
            old(self).wf(),
            old(self).bits().len() + usize::BITS + 32 * v@.len() <= usize::MAX - 7,
        ensures
            final(self).wf(),
            r == Ok::<(), GameIoError>(()),
            final(self).bits() == old(self).bits() + enc_u32_seq(v@),
    {
        self.write_usize(v.len())?;
        let ghost mid = self.bits();
        let mut i: usize = 0;
        proof {
            assert(mid + u32_bits(v@).take(0) =~= mid);
        }
        while i < v.len()
            invariant
                self.wf(),
                i <= v@.len(),
                mid == old(self).bits() + enc_word(v@.len() as usize),
                mid.len() + 32 * v@.len() <= usize::MAX - 7,
                self.bits() == mid + u32_bits(v@).take(32 * i),
            decreases v@.len() - i,
        {
            self.write_u32(v[i])?;
            proof {
                lemma_u32_bits_chunk(v@, i as int);
                assert(u32_bits(v@).take(32 * (i + 1)) =~= u32_bits(v@).take(32 * i) + u32_bits(
                    v@,
                ).subrange(32 * i, 32 * i + 32));
                assert(mid + u32_bits(v@).take(32 * i) + to_bits(v@[i as int] as u64, 32)
                    =~= mid + u32_bits(v@).take(32 * (i + 1)));
            }
            i = i + 1;
        }
        proof {
            assert(u32_bits(v@).take(32 * v@.len() as int) =~= u32_bits(v@));
            assert(mid + u32_bits(v@) =~= old(self).bits() + enc_u32_seq(v@));
        }
        Ok(())
    }
}

impl InputMemoryStream {
    /// Reads an optional value: the presence bit, then the payload's
    /// `bits` bits only when the flag was set.
    pub fn read_option_u64_bits(&mut self, bits: usize) -> (r: Result<Option<u64>, GameIoError>)
        requires
            old(self).wf(),
            1 <= bits <= 64,
        ensures
            final(self).wf(),
            final(self).data() == old(self).data(),
            match dec_option_u64(old(self).data(), old(self).cursor(), bits as nat) {
                Some((v, h)) => {
                    &&& r is Ok
                    &&& r->Ok_0 == v
                    &&& final(self).cursor() == h
                },
                None => r matches Err(GameIoError::UnexpectedEof(_, _)),
            },
    {
        let present = self.read_bool_bits(1)?;
        if present {
            let p = self.read_u64_bits(bits)?;
            Ok(Some(p))
        } else {
            Ok(None)
        }
    }

    /// Reads a list of 32-bit values: the count, then exactly that many
    /// elements in order, order preserved.
    pub fn read_u32_seq(&mut self) -> (r: Result<Vec<u32>, GameIoError>)
        requires
            old(self).wf(),
        ensures
            final(self).wf(),
            final(self).data() == old(self).data(),
            match dec_u32_seq(old(self).data(), old(self).cursor()) {
                Some((vs, h)) => {
                    &&& r is Ok
                    &&& r->Ok_0@ == vs
                    &&& final(self).cursor() == h
                },
                None => r matches Err(GameIoError::UnexpectedEof(_, _)),
            },
    {
        let len = self.read_usize()?;
        let remaining = self.remaining_bit_count();
        if len > remaining / 32 {
            let requested = if len <= usize::MAX / 32 {
                32 * len
            } else {
                usize::MAX
            };
            proof {
                self.lemma_data_bound();
                vstd::arithmetic::div_mod::lemma_fundamental_div_mod(remaining as int, 32);
                assert(remaining < 32 * len) by (nonlinear_arith)
                    requires
                        (len as int) > remaining as int / 32,
                        remaining == 32 * (remaining as int / 32) + remaining as int % 32,
                        0 <= remaining as int % 32 < 32,
                ;
            }
            return Err(GameIoError::UnexpectedEof(requested, remaining));
        }
        proof {
            self.lemma_data_bound();
            vstd::arithmetic::div_mod::lemma_fundamental_div_mod(remaining as int, 32);
            assert(32 * len <= remaining) by (nonlinear_arith)
                requires
                    (len as int) <= remaining as int / 32,
                    remaining == 32 * (remaining as int / 32) + remaining as int % 32,
                    0 <= remaining as int % 32 < 32,
            ;
        }
        let ghost h1 = self.cursor();
        let mut out: Vec<u32> = Vec::new();
        let mut i: usize = 0;
        while i < len
            invariant
                self.wf(),
                self.data() == old(self).data(),
                i <= len,
                out@.len() == i,
                h1 + 32 * len <= self.data().len(),
                self.cursor() == h1 + 32 * i,
                forall|k: int|
                    0 <= k < i ==> (#[trigger] out@[k]) as nat == from_bits(
                        self.data().subrange(h1 + 32 * k, h1 + 32 * k + 32),
                    ),
            decreases len - i,
        {
            let v = self.read_u32()?;
            out.push(v);
            i = i + 1;
        }
        proof {
            let (vs, h) = dec_u32_seq(old(self).data(), old(self).cursor())->0;
            assert(out@ =~= vs);
        }
        Ok(out)
    }
}

/// The wire form of one reflected value: integers and float patterns at
/// 32 bits, text length-prefixed.
pub open spec fn enc_field(f: FieldValView) -> Seq<bool> {
    match f {
        FieldValView::Int(v) => to_bits(v as u64, 32),
        FieldValView::Text(s) => enc_string(s),
        FieldValView::Float(p) => to_bits(p as u64, 32),
    }
}

/// The wire form of a record: each field's value in declared order, with
/// nothing between them.
pub open spec fn enc_fields(fs: Seq<FieldValView>) -> Seq<bool>
    decreases fs.len(),
{
    if fs.len() == 0 {
        Seq::<bool>::empty()
    } else {
        enc_field(fs[0]) + enc_fields(fs.skip(1))
    }
}

/// Decodes one reflected value of kind `t` at `head`.
pub open spec fn dec_field(data: Seq<bool>, head: nat, t: Ty) -> Option<(FieldValView, nat)> {
    match t {
        Ty::Int => {
            if head + 32 <= data.len() {
                Some(
                    (
                        FieldValView::Int(
                            from_bits(data.subrange(head as int, head as int + 32)) as u32,
                        ),
                        head + 32,
                    ),
                )
            } else {
                None
            }
        },
        Ty::Float => {
            if head + 32 <= data.len() {
                Some(
                    (
                        FieldValView::Float(
                            from_bits(data.subrange(head as int, head as int + 32)) as u32,
                        ),
                        head + 32,
                    ),
                )
            } else {
                None
            }
        },
        Ty::Text => {
            match dec_bytes(data, head) {
                Some((b, h)) => {
                    if valid_utf8(b) {
                        Some((FieldValView::Text(decode_utf8(b)), h))
                    } else {
                        None
                    }
                },
                None => None,
            }
        },
    }
}

/// Decodes a record at `head`, one value per kind in declared order.
pub open spec fn dec_fields(data: Seq<bool>, head: nat, ts: Seq<Ty>) -> Option<
    (Seq<FieldValView>, nat),
>
    decreases ts.len(),
{
    if ts.len() == 0 {
        Some((Seq::<FieldValView>::empty(), head))
    } else {
        match dec_field(data, head, ts[0]) {
            Some((f, h1)) => {
                match dec_fields(data, h1, ts.skip(1)) {
                    Some((rest, h2)) => Some((seq![f] + rest, h2)),
                    None => None,
                }
            },
            None => None,
        }
    }
}

/// A record's encoding splits at any field boundary.
proof fn lemma_enc_fields_append(fs1: Seq<FieldValView>, fs2: Seq<FieldValView>)
    ensures
        enc_fields(fs1 + fs2) == enc_fields(fs1) + enc_fields(fs2),
    decreases fs1.len(),
{
    if fs1.len() == 0 {
        assert(fs1 + fs2 =~= fs2);
        assert(enc_fields(fs1) + enc_fields(fs2) =~= enc_fields(fs2));
    } else {
        assert((fs1 + fs2).skip(1) =~= fs1.skip(1) + fs2);
        lemma_enc_fields_append(fs1.skip(1), fs2);
        assert(enc_field((fs1 + fs2)[0]) + (enc_fields(fs1.skip(1)) + enc_fields(fs2))
            =~= enc_field(fs1[0]) + enc_fields(fs1.skip(1)) + enc_fields(fs2));
    }
}

/// Appending one field appends its encoding.
proof fn lemma_enc_fields_snoc(fs: Seq<FieldValView>, i: int)
    requires
        0 <= i < fs.len(),
    ensures
        enc_fields(fs.take(i + 1)) == enc_fields(fs.take(i)) + enc_field(fs[i]),
{
    assert(fs.take(i + 1) =~= fs.take(i) + seq![fs[i]]);
    lemma_enc_fields_append(fs.take(i), seq![fs[i]]);
    lemma_enc_fields_single(fs[i]);
}

/// The encoding of a one-field record is that field's encoding.
proof fn lemma_enc_fields_single(f: FieldValView)
    ensures
        enc_fields(seq![f]) == enc_field(f),
{
    let single = seq![f];
    assert(single.len() == 1);
    assert(single[0] == f);
    assert(single.skip(1) =~= Seq::<FieldValView>::empty());
    assert(enc_fields(single.skip(1)) == Seq::<bool>::empty());
    assert(enc_fields(single) == enc_field(f) + enc_fields(single.skip(1)));
    assert(enc_field(f) + Seq::<bool>::empty() =~= enc_field(f));
}

impl OutputMemoryStream {
    /// Appends a record's fields in declared order, dispatching on each
    /// descriptor's kind.
    pub fn write_reflected(&mut self, layout: &UserDefinedType, fields: &Vec<FieldValue>) -> (r:
        Result<(), GameIoError>)
        requires
            old(self).wf(),
            values_match(layout.kinds(), field_views(fields@)),
            old(self).bits().len() + enc_fields(field_views(fields@)).len() <= usize::MAX - 7,
        ensures
            final(self).wf(),
            r == Ok::<(), GameIoError>(()),
            final(self).bits() == old(self).bits() + enc_fields(field_views(fields@)),
    {
        let ghost fvs = field_views(fields@);
        let mut i: usize = 0;
        proof {
            assert(enc_fields(fvs.take(0)) =~= Seq::<bool>::empty());
            assert(self.bits() + enc_fields(fvs.take(0)) =~= self.bits());
        }
        while i < fields.len()
            invariant
                self.wf(),
                i <= fields@.len(),
                fvs == field_views(fields@),
                values_match(layout.kinds(), fvs),
                layout.kinds().len() == fields@.len(),
                old(self).bits().len() + enc_fields(fvs).len() <= usize::MAX - 7,
                self.bits() == old(self).bits() + enc_fields(fvs.take(i as int)),
            decreases fields@.len() - i,
        {
            proof {
                lemma_enc_fields_snoc(fvs, i as int);
                assert(fvs.take(fvs.len() as int) =~= fvs);
                lemma_enc_fields_len_monotone(fvs, i as int);
            }
            match &fields[i] {
                FieldValue::Int(v) => {
                    self.write_u32(*v)?;
                },
                FieldValue::Text(s) => {
                    proof {
                        crate::stream::lemma_usize_width();
                    }
                    self.write_string(s)?;
                },
                FieldValue::Float(p) => {
                    self.write_u32(*p)?;
                },
            }
            proof {
                assert(old(self).bits() + enc_fields(fvs.take(i as int)) + enc_field(fvs[i as int])
                    =~= old(self).bits() + enc_fields(fvs.take(i as int + 1)));
            }
            i = i + 1;
        }
        proof {
            assert(fvs.take(fields@.len() as int) =~= fvs);
        }
        Ok(())
    }
}

impl OutputMemoryStream {
    /// Appends field values in order, dispatching on each value's own
    /// kind; the manager's snapshot path uses this where no descriptor
    /// list is at hand.
    pub fn write_field_values(&mut self, fields: &Vec<FieldValue>) -> (r: Result<(), GameIoError>)
        requires
            old(self).wf(),
            old(self).bits().len() + enc_fields(field_views(fields@)).len() <= usize::MAX - 7,
        ensures
            final(self).wf(),
            r == Ok::<(), GameIoError>(()),
            final(self).bits() == old(self).bits() + enc_fields(field_views(fields@)),
    {
        let ghost fvs = field_views(fields@);
        let mut i: usize = 0;
        proof {
            assert(enc_fields(fvs.take(0)) =~= Seq::<bool>::empty());
            assert(self.bits() + enc_fields(fvs.take(0)) =~= self.bits());
        }
        while i < fields.len()
            invariant
                self.wf(),
                i <= fields@.len(),
                fvs == field_views(fields@),
                old(self).bits().len() + enc_fields(fvs).len() <= usize::MAX - 7,
                self.bits() == old(self).bits() + enc_fields(fvs.take(i as int)),
            decreases fields@.len() - i,
        {
            proof {
                lemma_enc_fields_snoc(fvs, i as int);
                lemma_enc_fields_len_monotone(fvs, i as int);
            }
            match &fields[i] {
                FieldValue::Int(v) => {
                    self.write_u32(*v)?;
                },
                FieldValue::Text(s) => {
                    proof {
                        crate::stream::lemma_usize_width();
                    }
                    self.write_string(s)?;
                },
                FieldValue::Float(p) => {
                    self.write_u32(*p)?;
                },
            }
            proof {
                assert(old(self).bits() + enc_fields(fvs.take(i as int)) + enc_field(fvs[i as int])
                    =~= old(self).bits() + enc_fields(fvs.take(i as int + 1)));
            }
            i = i + 1;
        }
        proof {
            assert(fvs.take(fields@.len() as int) =~= fvs);
        }
        Ok(())
    }
}

/// An encoded prefix of a record is no longer than the whole record's
/// encoding.
proof fn lemma_enc_fields_len_monotone(fs: Seq<FieldValView>, i: int)
    requires
        0 <= i < fs.len(),
    ensures
        enc_fields(fs.take(i)).len() + enc_field(fs[i]).len() <= enc_fields(fs).len(),
{
    assert(fs =~= fs.take(i + 1) + fs.skip(i + 1));
    lemma_enc_fields_append(fs.take(i + 1), fs.skip(i + 1));
    lemma_enc_fields_snoc(fs, i);
}

impl InputMemoryStream {
    /// Reads a record's fields in declared order, dispatching on each
    /// descriptor's kind.
    pub fn read_reflected(&mut self, layout: &UserDefinedType) -> (r: Result<
        Vec<FieldValue>,
        GameIoError,
    >)
        requires
            old(self).wf(),
        ensures
            final(self).wf(),
            final(self).data() == old(self).data(),
            match dec_fields(old(self).data(), old(self).cursor(), layout.kinds()) {
                Some((fs, h)) => {
                    &&& r is Ok
                    &&& field_views(r->Ok_0@) == fs
                    &&& final(self).cursor() == h
                },
                None => {
                    &&& r is Err
                    &&& (r matches Err(GameIoError::UnexpectedEof(_, _)) || r == Err::<
                        Vec<FieldValue>,
                        GameIoError,
                    >(GameIoError::Utf8Error))
                },
            },
    {
        let ghost kinds = layout.kinds();
        let ghost start = self.cursor();
        let mut out: Vec<FieldValue> = Vec::new();
        let mut i: usize = 0;
        proof {
            assert(kinds.skip(0) =~= kinds);
            assert(field_views(out@) =~= Seq::<FieldValView>::empty());
        }
        while i < layout.fields.len()
            invariant
                self.wf(),
                self.data() == old(self).data(),
                start == old(self).cursor(),
                i <= layout.fields@.len(),
                kinds == layout.kinds(),
                kinds.len() == layout.fields@.len(),
                out@.len() == i,
                dec_fields(self.data(), start, kinds) == match dec_fields(
                    self.data(),
                    self.cursor(),
                    kinds.skip(i as int),
                ) {
                    Some((rest, h)) => Some((field_views(out@) + rest, h)),
                    None => None::<(Seq<FieldValView>, nat)>,
                },
            decreases layout.fields@.len() - i,
        {
            let ghost cur = self.cursor();
            let ghost prev = out@;
            let field = match layout.fields[i].ty {
                Ty::Int => {
                    let v = self.read_u32()?;
                    FieldValue::Int(v)
                },
                Ty::Text => {
                    let s = match self.read_string() {
                        Ok(s) => s,
                        Err(e) => {
                            proof {
                                lemma_skip_nonempty(kinds, i as int);
                            }
                            return Err(e);
                        },
                    };
                    FieldValue::Text(s)
                },
                Ty::Float => {
                    let p = self.read_u32()?;
                    FieldValue::Float(p)
                },
            };
            proof {
                lemma_skip_nonempty(kinds, i as int);
            }
            out.push(field);
            i = i + 1;
            proof {
                assert(out@ == prev.push(field));
                assert(kinds.skip(i - 1).skip(1) =~= kinds.skip(i as int));
                match dec_field(self.data(), cur, kinds[i - 1]) {
                    Some((f, h1)) => {
                        assert(field_views(out@) =~= field_views(prev).push(f));
                        assert forall|rest: Seq<FieldValView>|
                            true implies field_views(prev) + (seq![f] + rest) == field_views(
                            out@,
                        ) + rest by {
                            assert(field_views(prev) + (seq![f] + rest) =~= field_views(out@)
                                + rest);
                        }
                    },
                    None => {
                    },
                }
            }
        }
        proof {
            assert(kinds.skip(i as int) =~= Seq::<Ty>::empty());
            assert(field_views(out@) + Seq::<FieldValView>::empty() =~= field_views(out@));
        }
        Ok(out)
    }
}

/// A decoded field ends at or after where it starts and inside the data.
pub proof fn lemma_dec_field_range(data: Seq<bool>, head: nat, t: Ty)
    ensures
        dec_field(data, head, t) matches Some((f, h)) ==> head <= h <= data.len(),
{
    match t {
        Ty::Int => {
        },
        Ty::Float => {
        },
        Ty::Text => {
        },
    }
}

/// A decoded record ends at or after where it starts and inside the data,
/// as long as it started inside the data.
pub proof fn lemma_dec_fields_range(data: Seq<bool>, head: nat, ts: Seq<Ty>)
    requires
        head <= data.len(),
    ensures
        dec_fields(data, head, ts) matches Some((fs, h)) ==> head <= h <= data.len(),
    decreases ts.len(),
{
    if ts.len() == 0 {
    } else {
        match dec_field(data, head, ts[0]) {
            Some((f, h1)) => {
                lemma_dec_field_range(data, head, ts[0]);
                lemma_dec_fields_range(data, h1, ts.skip(1));
            },
            None => {
            },
        }
    }
}

/// A kind list with an element at `i` is non-empty past `i`.
proof fn lemma_skip_nonempty(ts: Seq<Ty>, i: int)
    requires
        0 <= i < ts.len(),
    ensures
        ts.skip(i).len() > 0,
        ts.skip(i)[0] == ts[i],
{
}

/// Reflected-record round trip: decoding at the position where a record
/// encoding starts yields the original field values in order, whatever
/// was packed before or follows after.
pub proof fn lemma_reflected_round_trip(pre: Seq<bool>, fs: Seq<FieldValView>, post: Seq<bool>)
    requires
        pre.len() + enc_fields(fs).len() + post.len() <= usize::MAX,
    ensures
        ({
            let data = pre + enc_fields(fs) + post;
            dec_fields(data, pre.len(), kinds_of(fs)) == Some(
                (fs, (pre.len() + enc_fields(fs).len()) as nat),
            )
        }),
    decreases fs.len(),
{
    let data = pre + enc_fields(fs) + post;
    if fs.len() == 0 {
        assert(kinds_of(fs) =~= Seq::<Ty>::empty());
    } else {
        let f = fs[0];
        let rest = fs.skip(1);
        let fbits = enc_field(f);
        assert(enc_fields(fs) == fbits + enc_fields(rest));
        assert(data =~= (pre + fbits) + enc_fields(rest) + post);
        lemma_reflected_round_trip(pre + fbits, rest, post);
        assert(kinds_of(fs).skip(1) =~= kinds_of(rest));
        lemma_dec_field_of_enc(pre, f, enc_fields(rest) + post);
        assert(data =~= pre + fbits + (enc_fields(rest) + post));
        assert(seq![f] + rest =~= fs);
    }
}

/// The kinds of a value list.
pub open spec fn kinds_of(fs: Seq<FieldValView>) -> Seq<Ty> {
    fs.map_values(
        |f: FieldValView|
            match f {
                FieldValView::Int(_) => Ty::Int,
                FieldValView::Text(_) => Ty::Text,
                FieldValView::Float(_) => Ty::Float,
            },
    )
}

/// Decoding one field at the position where its encoding starts yields
/// the field back.
proof fn lemma_dec_field_of_enc(pre: Seq<bool>, f: FieldValView, post: Seq<bool>)
    requires
        pre.len() + enc_field(f).len() + post.len() <= usize::MAX,
    ensures
        ({
            let data = pre + enc_field(f) + post;
            dec_field(data, pre.len(), kinds_of(seq![f])[0]) == Some(
                (f, (pre.len() + enc_field(f).len()) as nat),
            )
        }),
{
    let data = pre + enc_field(f) + post;
    let head = pre.len();
    match f {
        FieldValView::Int(v) => {
            assert(data.subrange(head as int, head as int + 32) =~= to_bits(v as u64, 32));
            crate::bits::lemma_pow2_values();
            crate::bits::lemma_bits_round_trip(v as u64, 32);
        },
        FieldValView::Float(p) => {
            assert(data.subrange(head as int, head as int + 32) =~= to_bits(p as u64, 32));
            crate::bits::lemma_pow2_values();
            crate::bits::lemma_bits_round_trip(p as u64, 32);
        },
        FieldValView::Text(s) => {
            lemma_text_round_trip(pre, s, post);
        },
    }
}

/// Sequence round trip: decoding at the position where a list encoding
/// starts yields a list of the same length and element order, whatever was
/// packed before or follows after.
pub proof fn lemma_u32_seq_round_trip(pre: Seq<bool>, vs: Seq<u32>, post: Seq<bool>)
    requires
        pre.len() + enc_u32_seq(vs).len() + post.len() <= usize::MAX,
    ensures
        ({
            let data = pre + enc_u32_seq(vs) + post;
            dec_u32_seq(data, pre.len()) == Some(
                (vs, (pre.len() + enc_u32_seq(vs).len()) as nat),
            )
        }),
{
    let data = pre + enc_u32_seq(vs) + post;
    let head = pre.len();
    crate::stream::lemma_usize_width();
    crate::bits::lemma_pow2_values();
    assert(data.subrange(head as int, (head + word_bits()) as int) =~= enc_word(
        vs.len() as usize,
    ));
    crate::bits::lemma_bits_round_trip(vs.len() as u64, word_bits());
    let h1 = head + word_bits();
    let (got, h2) = dec_u32_seq(data, head)->0;
    assert forall|k: int| 0 <= k < vs.len() implies got[k] == vs[k] by {
        lemma_u32_bits_chunk(vs, k);
        assert(data.subrange(h1 + 32 * k, h1 + 32 * k + 32) =~= u32_bits(vs).subrange(
            32 * k,
            32 * k + 32,
        ));
        crate::bits::lemma_bits_round_trip(vs[k] as u64, 32);
    }
    assert(got =~= vs);
}

/// Text round trip: decoding at the position where a text encoding starts
/// yields the original characters and stops right after them, whatever was
/// packed before or follows after.
pub proof fn lemma_text_round_trip(pre: Seq<bool>, s: Seq<char>, post: Seq<bool>)
    requires
        pre.len() + enc_string(s).len() + post.len() <= usize::MAX,
    ensures
        ({
            let data = pre + enc_string(s) + post;
            dec_bytes(data, pre.len()) == Some(
                (encode_utf8(s), (pre.len() + enc_string(s).len()) as nat),
            )
        }),
        valid_utf8(encode_utf8(s)),
        decode_utf8(encode_utf8(s)) == s,
{
    let bytes = encode_utf8(s);
    lemma_bytes_round_trip(pre, bytes, post);
    vstd::utf8::encode_utf8_valid_utf8(s);
    vstd::utf8::encode_utf8_decode_utf8(s);
}

/// Byte-run round trip: decoding at the position where a byte-run
/// encoding starts yields the original bytes and stops right after them,
/// whatever was packed before or follows after.
pub proof fn lemma_bytes_round_trip(pre: Seq<bool>, b: Seq<u8>, post: Seq<bool>)
    requires
        pre.len() + enc_bytes(b).len() + post.len() <= usize::MAX,
    ensures
        ({
            let data = pre + enc_bytes(b) + post;
            dec_bytes(data, pre.len()) == Some((b, (pre.len() + enc_bytes(b).len()) as nat))
        }),
{
    let data = pre + enc_bytes(b) + post;
    let head = pre.len();
    crate::stream::lemma_usize_width();
    assert(b.len() < pow2(word_bits())) by {
        assert(b.len() <= usize::MAX);
    }
    assert(data.subrange(head as int, (head + word_bits()) as int) =~= enc_word(
        b.len() as usize,
    ));
    crate::bits::lemma_bits_round_trip(b.len() as u64, word_bits());
    let h1 = head + word_bits();
    assert(data.subrange(h1 as int, (h1 + 8 * b.len()) as int) =~= byte_bits(b));
    lemma_bytes_of_bits(b);
}

} // verus!
