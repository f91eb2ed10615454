//! Wire codec for the length-prefixed binary protocol: variable-length
//! integers, fixed-width integers, length-prefixed UTF-8 strings, and
//! the one-level length framing around a packet's id and payload.

use vstd::prelude::*;
use vstd::arithmetic::div_mod::lemma_fundamental_div_mod;
use vstd::utf8::{valid_utf8, decode_utf8, encode_utf8};

verus! {

/// Fault met while decoding bytes: the buffer ran out before the value
/// was complete, a variable-length integer does not fit in 32 bits, or
/// a length-prefixed string is not valid UTF-8.
#[derive(Clone, Copy, Debug, PartialEq, Eq, Structural)]
pub enum FramingError {
    Truncated,
    VarIntTooLarge,
    InvalidUtf8,
}

/// Encoding of `v` as little-endian 7-bit groups, the high bit of each
/// byte signalling that another group follows.
pub open spec fn varint_enc(v: nat) -> Seq<u8>
    decreases v,
{
    if v < 128 {
        seq![v as u8]
    } else {
        seq![(v % 128 + 128) as u8] + varint_enc(v / 128)
    }
}

/// Scanning `s` from the front meets a byte without the continuation
/// bit, so a varint ends inside `s`.
pub open spec fn varint_terminated(s: Seq<u8>) -> bool
    decreases s.len(),
{
    if s.len() == 0 {
        false
    } else if s[0] < 128 {
        true
    } else {
        varint_terminated(s.drop_first())
    }
}

/// Number of bytes up to and including the first byte without the
/// continuation bit.
pub open spec fn varint_size(s: Seq<u8>) -> nat
    decreases s.len(),
{
    if s.len() == 0 {
        0
    } else if s[0] < 128 {
        1
    } else {
        1 + varint_size(s.drop_first())
    }
}

/// Value of the varint at the front of `s`: 7-bit groups assembled
/// little-endian.
pub open spec fn varint_value(s: Seq<u8>) -> nat
    decreases s.len(),
{
    if s.len() == 0 {
        0
    } else if s[0] < 128 {
        s[0] as nat
    } else {
        (s[0] - 128) as nat + 128 * varint_value(s.drop_first())
    }
}

/// A varint fit for a `u32` starts `s`: it ends within five bytes and
/// its value fits in 32 bits.
pub open spec fn varint_ok(s: Seq<u8>) -> bool {
    varint_terminated(s) && varint_size(s) <= 5 && varint_value(s) <= u32::MAX
}

/// The bytes run out before a varint ends, while it could still end if
/// more bytes arrived.
pub open spec fn varint_truncated(s: Seq<u8>) -> bool {
    !varint_terminated(s) && s.len() < 5
}

/// 128 to the `n`th power: the weight of the `n`th 7-bit group.
pub open spec fn pow128(n: nat) -> nat
    decreases n,
{
    if n == 0 {
        1
    } else {
        128 * pow128((n - 1) as nat)
    }
}

/// A varint that ends inside `s` lies wholly inside `s`.
pub proof fn lemma_varint_size_in_bounds(s: Seq<u8>)
    requires
        varint_terminated(s),
    ensures
        1 <= varint_size(s) <= s.len(),
    decreases s.len(),
{
    if s.len() > 0 && s[0] >= 128 {
        lemma_varint_size_in_bounds(s.drop_first());
    }
}

/// The encoding of `v`, followed by anything, decodes back to `v`; the
/// decoder consumes exactly the encoding.
pub proof fn lemma_varint_enc_parses(v: nat, rest: Seq<u8>)
    ensures
        varint_terminated(varint_enc(v) + rest),
        varint_size(varint_enc(v) + rest) == varint_enc(v).len(),
        varint_value(varint_enc(v) + rest) == v,
        varint_enc(v).len() >= 1,
        v < pow128(varint_enc(v).len()),
        varint_enc(v).len() > 1 ==> v >= pow128((varint_enc(v).len() - 1) as nat),
    decreases v,
{
    let e = varint_enc(v);
    let s = e + rest;
    if v < 128 {
        assert(s[0] == v as u8);
        assert(pow128(0) == 1);
        assert(pow128(1) == 128);
    } else {
        let b = (v % 128 + 128) as u8;
        assert(s[0] == b);
        assert(b >= 128);
        lemma_varint_enc_parses(v / 128, rest);
        assert(s.drop_first() =~= varint_enc(v / 128) + rest);
        lemma_fundamental_div_mod(v as int, 128);
        assert(varint_value(s) == (b - 128) as nat + 128 * varint_value(s.drop_first()));
        assert(varint_enc(v / 128).len() >= 1);
        assert(e.len() == 1 + varint_enc(v / 128).len());
        assert(v / 128 < pow128(varint_enc(v / 128).len()));
        assert(pow128(e.len()) == 128 * pow128(varint_enc(v / 128).len()));
        assert(v < 128 * pow128(varint_enc(v / 128).len()));
        if varint_enc(v / 128).len() > 1 {
            assert(v / 128 >= pow128((varint_enc(v / 128).len() - 1) as nat));
            assert(v >= 128 * (v / 128));
        } else {
            assert(pow128(0) == 1);
            assert(pow128((e.len() - 1) as nat) == 128);
        }
    }
}

/// Encodings of values that fit in 32 bits take at most five bytes.
pub proof fn lemma_varint_enc_len5(v: nat)
    requires
        v <= u32::MAX,
    ensures
        varint_enc(v).len() <= 5,
{
    let v1 = v / 128;
    let v2 = v1 / 128;
    let v3 = v2 / 128;
    let v4 = v3 / 128;
    if v >= 128 {
        assert(varint_enc(v).len() == 1 + varint_enc(v1).len());
        assert(v1 <= 0x1FFFFFF);
        if v1 >= 128 {
            assert(varint_enc(v1).len() == 1 + varint_enc(v2).len());
            assert(v2 <= 0x3FFFF);
            if v2 >= 128 {
                assert(varint_enc(v2).len() == 1 + varint_enc(v3).len());
                assert(v3 <= 0x7FF);
                if v3 >= 128 {
                    assert(varint_enc(v3).len() == 1 + varint_enc(v4).len());
                    assert(v4 <= 15);
                    assert(varint_enc(v4).len() == 1);
                }
            }
        }
    }
}

/// VarInt law: for every 32-bit value the decoder inverts the encoder,
/// and the encoding spends the least number of 7-bit groups that can
/// hold the value: one group below 128, and in general the unique
/// length whose group range brackets the value.
pub proof fn lemma_varint_round_trip(v: u32)
    ensures
        varint_ok(varint_enc(v as nat)),
        varint_value(varint_enc(v as nat)) == v,
        varint_size(varint_enc(v as nat)) == varint_enc(v as nat).len(),
        1 <= varint_enc(v as nat).len() <= 5,
        (v as nat) < pow128(varint_enc(v as nat).len()),
        varint_enc(v as nat).len() > 1 ==> (v as nat) >= pow128((varint_enc(v as nat).len() - 1) as nat),
{
    lemma_varint_enc_parses(v as nat, Seq::<u8>::empty());
    assert(varint_enc(v as nat) + Seq::<u8>::empty() =~= varint_enc(v as nat));
    lemma_varint_enc_len5(v as nat);
}

/// 256 to the `n`th power: the weight of the `n`th byte of a
/// little-endian fixed-width integer.
pub open spec fn pow256(n: nat) -> nat
    decreases n,
{
    if n == 0 {
        1
    } else {
        256 * pow256((n - 1) as nat)
    }
}

/// Little-endian encoding of `v` on `n` bytes.
pub open spec fn le_bytes(v: nat, n: nat) -> Seq<u8>
    decreases n,
{
    if n == 0 {
        Seq::empty()
    } else {
        seq![(v % 256) as u8] + le_bytes(v / 256, (n - 1) as nat)
    }
}

/// Value of `s` read as a little-endian integer.
pub open spec fn le_value(s: Seq<u8>) -> nat
    decreases s.len(),
{
    if s.len() == 0 {
        0
    } else {
        s[0] as nat + 256 * le_value(s.drop_first())
    }
}

/// A little-endian encoding on `n` bytes is `n` bytes long.
pub proof fn lemma_le_bytes_len(v: nat, n: nat)
    ensures
        le_bytes(v, n).len() == n,
    decreases n,
{
    if n > 0 {
        lemma_le_bytes_len(v / 256, (n - 1) as nat);
    }
}

/// Big-endian two-byte encoding of a 16-bit value.
pub open spec fn be16_enc(v: u16) -> Seq<u8> {
    seq![(v / 256) as u8, (v % 256) as u8]
}

/// Value of the first two bytes of `s` read big-endian.
pub open spec fn be16_value(s: Seq<u8>) -> nat {
    s[0] as nat * 256 + s[1] as nat
}

/// Reading little-endian bytes back gives the bytes' value, and the
/// bytes of a value below `pow256(n)` re-encode to the same bytes.
pub proof fn lemma_le_round_trip(s: Seq<u8>)
    ensures
        le_value(s) < pow256(s.len()),
        le_bytes(le_value(s), s.len()) =~= s,
    decreases s.len(),
{
    if s.len() > 0 {
        let r = s.drop_first();
        lemma_le_round_trip(r);
        let v = le_value(s);
        assert(v == s[0] + 256 * le_value(r));
        lemma_fundamental_div_mod(v as int, 256);
        assert(v % 256 == s[0]) by {
            assert(v == 256 * le_value(r) + s[0]);
            assert(0 <= s[0] < 256);
            vstd::arithmetic::div_mod::lemma_mod_multiples_vanish(
                le_value(r) as int, s[0] as int, 256);
        }
        assert(v / 256 == le_value(r)) by {
            vstd::arithmetic::div_mod::lemma_div_multiples_vanish_fancy(
                le_value(r) as int, s[0] as int, 256);
        }
        assert(le_value(r) < pow256(r.len()));
        assert(pow256(s.len()) == 256 * pow256(r.len()));
        assert(v < 256 * pow256(r.len())) by {
            assert(le_value(r) + 1 <= pow256(r.len()));
            assert(256 * (le_value(r) + 1) <= 256 * pow256(r.len()));
        }
        assert(le_bytes(v, s.len()) =~= s);
    }
}

proof fn lemma_pow256_vals()
    ensures
        pow256(0) == 1,
        pow256(1) == 0x100,
        pow256(2) == 0x10000,
        pow256(3) == 0x1000000,
        pow256(4) == 0x100000000,
        pow256(5) == 0x10000000000,
        pow256(6) == 0x1000000000000,
        pow256(7) == 0x100000000000000,
        pow256(8) == 0x10000000000000000,
{
    assert(pow256(0) == 1);
    assert(pow256(1) == 0x100);
    assert(pow256(2) == 0x10000);
    assert(pow256(3) == 0x1000000);
    assert(pow256(4) == 0x100000000);
    assert(pow256(5) == 0x10000000000);
    assert(pow256(6) == 0x1000000000000);
    assert(pow256(7) == 0x100000000000000);
    assert(pow256(8) == 0x10000000000000000);
}

proof fn lemma_pow128_vals()
    ensures
        pow128(0) == 1,
        pow128(1) == 128,
        pow128(2) == 0x4000,
        pow128(3) == 0x200000,
        pow128(4) == 0x10000000,
{
    assert(pow128(0) == 1);
    assert(pow128(1) == 128);
    assert(pow128(2) == 0x4000);
    assert(pow128(3) == 0x200000);
    assert(pow128(4) == 0x10000000);
}

/// Length prefix and bytes of a string payload: the varint byte length
/// of the UTF-8 encoding, then that encoding.
pub open spec fn str_enc(s: Seq<char>) -> Seq<u8> {
    varint_enc(encode_utf8(s).len()) + encode_utf8(s)
}

/// One level of framing: the varint length of `body` is prepended.
pub open spec fn frame(body: Seq<u8>) -> Seq<u8> {
    varint_enc(body.len()) + body
}

/// A frame header parses at the front of `bytes`: a size varint
/// followed by an id varint, both fitting 32 bits.
pub open spec fn header_ok(bytes: Seq<u8>) -> bool {
    varint_ok(bytes) && varint_ok(bytes.skip(varint_size(bytes) as int))
}

/// Bytes taken by the size and id varints together.
pub open spec fn header_len(bytes: Seq<u8>) -> nat {
    varint_size(bytes) + varint_size(bytes.skip(varint_size(bytes) as int))
}

/// Relies on `String::from_utf8`: it succeeds exactly on valid UTF-8
/// and returns the string that those bytes encode.
#[verifier::external_body]
fn string_from_utf8(bytes: Vec<u8>) -> (r: Option<String>)
    ensures
        r is Some <==> valid_utf8(bytes@),
        r matches Some(s) ==> s@ == decode_utf8(bytes@),
{
    String::from_utf8(bytes).ok()
}

/// A framed unit being decoded: `size` and `id` are the two varints of
/// the frame header, `offset` the read cursor into `body`.
pub struct Packet {
    pub offset: u32,
    pub size: u32,
    pub id: u32,
    pub body: Vec<u8>,
}

/// A string payload sits at the front of `rem`: a varint byte length,
/// that many bytes, valid UTF-8.
pub open spec fn str_at_ok(rem: Seq<u8>) -> bool {
    &&& varint_ok(rem)
    &&& varint_size(rem) + varint_value(rem) <= rem.len()
    &&& valid_utf8(str_at_bytes(rem))
}

/// The bytes of the string payload at the front of `rem`.
pub open spec fn str_at_bytes(rem: Seq<u8>) -> Seq<u8> {
    rem.subrange(varint_size(rem) as int, (varint_size(rem) + varint_value(rem)) as int)
}

/// The first fault met when no string payload parses at the front of
/// `rem`.
pub open spec fn str_at_err(rem: Seq<u8>) -> FramingError {
    if !varint_ok(rem) {
        if varint_truncated(rem) {
            FramingError::Truncated
        } else {
            FramingError::VarIntTooLarge
        }
    } else if varint_size(rem) + varint_value(rem) > rem.len() {
        FramingError::Truncated
    } else {
        FramingError::InvalidUtf8
    }
}

impl Packet {
    /// The read cursor lies inside the body, whose length fits the
    /// 32-bit cursor.
    pub open spec fn wf(self) -> bool {
        self.offset as int <= self.body@.len() <= u32::MAX as int
    }

    /// Bytes the cursor has not consumed yet.
    pub open spec fn remaining(self) -> Seq<u8> {
        self.body@.skip(self.offset as int)
    }

    /// Decode the frame header of `body`. Fewer than two bytes, or a
    /// header that does not parse, give the placeholder packet
    /// (`offset == size == id == 0`): not yet a packet, not a fault.
    pub fn new(body: Vec<u8>) -> (r: Packet)
        requires
            body@.len() <= u32::MAX,
        ensures
            r.wf(),
            r.body@ == body@,
            header_ok(body@) ==> {
                &&& r.offset as nat == header_len(body@)
                &&& r.size as nat == varint_value(body@)
                &&& r.id as nat == varint_value(body@.skip(varint_size(body@) as int))
            },
            !header_ok(body@) ==> r.offset == 0 && r.size == 0 && r.id == 0,
    {
        let mut p = Packet { offset: 0, size: 0, id: 0, body };
        if p.body.len() < 2 {
            proof {
                let bb = p.body@;
                if bb.len() == 1 {
                    if bb[0] < 128 {
                        assert(varint_size(bb) == 1);
                        assert(bb.skip(1).len() == 0);
                        assert(!varint_terminated(bb.skip(1)));
                    } else {
                        assert(bb.drop_first().len() == 0);
                        assert(!varint_terminated(bb.drop_first()));
                        assert(!varint_terminated(bb));
                    }
                }
            }
            return p;
        }
        proof {
            assert(p.remaining() =~= p.body@);
        }
        let first = p.read_var_int();
        match first {
            Err(_) => {
                p.offset = 0;
                p
            },
            Ok(sz) => {
                proof {
                    lemma_varint_size_in_bounds(p.body@);
                    assert(p.remaining() =~= p.body@.skip(varint_size(p.body@) as int));
                }
                let second = p.read_var_int();
                match second {
                    Err(_) => {
                        p.offset = 0;
                        p
                    },
                    Ok(pid) => {
                        proof {
                            lemma_varint_size_in_bounds(
                                p.body@.skip(varint_size(p.body@) as int));
                        }
                        p.size = sz;
                        p.id = pid;
                        p
                    },
                }
            },
        }
    }

    /// Read the varint at the cursor: its little-endian 7-bit groups
    /// assembled into a `u32`, the cursor advanced past it.
    pub fn read_var_int(&mut self) -> (r: Result<u32, FramingError>)
        requires
            old(self).wf(),
        ensures
            final(self).wf(),
            final(self).body == old(self).body,
            final(self).size == old(self).size,
            final(self).id == old(self).id,
            match r {
                Ok(v) => {
                    &&& varint_ok(old(self).remaining())
                    &&& v as nat == varint_value(old(self).remaining())
                    &&& final(self).offset as nat == old(self).offset + varint_size(old(self).remaining())
                },
                Err(e) => {
                    &&& final(self).offset == old(self).offset
                    &&& !varint_ok(old(self).remaining())
                    &&& e == (if varint_truncated(old(self).remaining()) {
                        FramingError::Truncated
                    } else {
                        FramingError::VarIntTooLarge
                    })
                },
            },
    {
        proof {
            lemma_pow128_vals();
        }
        let ghost s = old(self).remaining();
        proof {
            assert(s.skip(0) =~= s);
        }
        let off: u32 = self.offset;
        let n: usize = self.body.len();
        let mut i: u32 = 0;
        let mut result: u32 = 0;
        let mut pw: u32 = 1;
        loop
            invariant
                *self == *old(self),
                self.wf(),
                off == self.offset,
                n == self.body@.len(),
                s == self.remaining(),
                i <= 4,
                off + i <= n,
                pw as nat == pow128(i as nat),
                (result as nat) < pw as nat,
                pow128(0) == 1 && pow128(1) == 128 && pow128(2) == 0x4000
                    && pow128(3) == 0x200000 && pow128(4) == 0x10000000,
                varint_terminated(s) == varint_terminated(s.skip(i as int)),
                varint_terminated(s) ==> varint_size(s) == i + varint_size(s.skip(i as int)),
                varint_value(s) == (result as nat) + (pw as nat) * varint_value(s.skip(i as int)),
            decreases 5 - i,
        {
            let ghost t = s.skip(i as int);
            if (off as usize) + (i as usize) >= n {
                proof {
                    assert(t.len() == 0);
                    assert(!varint_terminated(t));
                    assert(s.len() == i);
                }
                return Err(FramingError::Truncated);
            }
            let b: u8 = self.body[off as usize + i as usize];
            proof {
                assert(b == t[0]);
                assert(t.drop_first() =~= s.skip(i + 1 as int));
            }
            if b >= 128 {
                if i == 4 {
                    proof {
                        assert(s.len() >= 5);
                        if varint_terminated(s) {
                            lemma_varint_size_in_bounds(t.drop_first());
                            assert(varint_size(t) >= 2);
                            assert(varint_size(s) >= 6);
                        }
                    }
                    return Err(FramingError::VarIntTooLarge);
                }
                let g: u32 = (b - 128) as u32;
                proof {
                    assert(varint_value(t) == g as nat + 128 * varint_value(t.drop_first()));
                    assert((pw as nat) * ((g as nat) + 128 * varint_value(t.drop_first()))
                        == (g as nat) * (pw as nat) + (128 * (pw as nat)) * varint_value(t.drop_first()))
                        by (nonlinear_arith);
                    assert((g as nat) * (pw as nat) <= 127 * 0x200000) by (nonlinear_arith)
                        requires g <= 127 && pw as nat <= 0x200000;
                    assert((result as nat) + (g as nat) * (pw as nat) < 128 * (pw as nat))
                        by (nonlinear_arith)
                        requires (result as nat) < pw as nat && g <= 127;
                }
                result = result + g * pw;
                pw = pw * 128;
                i = i + 1;
            } else {
                let g: u32 = b as u32;
                proof {
                    assert(varint_terminated(t));
                    assert(varint_size(t) == 1);
                    assert(varint_value(t) == g as nat);
                    assert(varint_value(s) == (result as nat) + (pw as nat) * (g as nat));
                }
                if i == 4 && g >= 16 {
                    proof {
                        assert(pw == 0x10000000);
                        assert((pw as nat) * (g as nat) >= 0x10000000 * 16) by (nonlinear_arith)
                            requires pw as nat == 0x10000000 && g >= 16;
                    }
                    return Err(FramingError::VarIntTooLarge);
                }
                proof {
                    if i == 4 {
                        assert((pw as nat) * (g as nat) <= 0x10000000 * 15) by (nonlinear_arith)
                            requires pw as nat == 0x10000000 && g <= 15;
                    } else {
                        assert((pw as nat) * (g as nat) <= 0x200000 * 127) by (nonlinear_arith)
                            requires pw as nat <= 0x200000 && g <= 127;
                    }
                    assert((pw as nat) * (g as nat) == (g as nat) * (pw as nat)) by (nonlinear_arith);
                }
                result = result + g * pw;
                self.offset = off + i + 1;
                return Ok(result);
            }
        }
    }

    /// Read the eight-byte little-endian integer at the cursor.
    pub fn read_long(&mut self) -> (r: Result<u64, FramingError>)
        requires
            old(self).wf(),
        ensures
            final(self).wf(),
            final(self).body == old(self).body,
            final(self).size == old(self).size,
            final(self).id == old(self).id,
            match r {
                Ok(v) => {
                    &&& old(self).remaining().len() >= 8
                    &&& v as nat == le_value(old(self).remaining().take(8))
                    &&& final(self).offset == old(self).offset + 8
                },
                Err(e) => {
                    &&& final(self).offset == old(self).offset
                    &&& old(self).remaining().len() < 8
                    &&& e == FramingError::Truncated
                },
            },
    {
        let off: u32 = self.offset;
        let n: usize = self.body.len();
        if n - (off as usize) < 8 {
            return Err(FramingError::Truncated);
        }
        proof {
            lemma_pow256_vals();
        }
        let v = parse_le(&self.body, off as usize, 8);
        proof {
            assert(self.body@.subrange(off as int, off as int + 8)
                =~= old(self).remaining().take(8));
        }
        self.offset = off + 8;
        Ok(v)
    }

    /// Read the two-byte big-endian integer at the cursor.
    pub fn read_uint16(&mut self) -> (r: Result<u16, FramingError>)
        requires
            old(self).wf(),
        ensures
            final(self).wf(),
            final(self).body == old(self).body,
            final(self).size == old(self).size,
            final(self).id == old(self).id,
            match r {
                Ok(v) => {
                    &&& old(self).remaining().len() >= 2
                    &&& v as nat == be16_value(old(self).remaining().take(2))
                    &&& final(self).offset == old(self).offset + 2
                },
                Err(e) => {
                    &&& final(self).offset == old(self).offset
                    &&& old(self).remaining().len() < 2
                    &&& e == FramingError::Truncated
                },
            },
    {
        let off: u32 = self.offset;
        let n: usize = self.body.len();
        if n - (off as usize) < 2 {
            return Err(FramingError::Truncated);
        }
        let b0: u8 = self.body[off as usize];
        let b1: u8 = self.body[off as usize + 1];
        proof {
            assert(b0 == old(self).remaining().take(2)[0]);
            assert(b1 == old(self).remaining().take(2)[1]);
        }
        self.offset = off + 2;
        Ok((b0 as u16) * 256 + (b1 as u16))
    }

    /// Read the length-prefixed UTF-8 string at the cursor. On a fault
    /// the cursor does not move.
    pub fn read_string(&mut self) -> (r: Result<String, FramingError>)
        requires
            old(self).wf(),
        ensures
            final(self).wf(),
            final(self).body == old(self).body,
            final(self).size == old(self).size,
            final(self).id == old(self).id,
            match r {
                Ok(s) => {
                    &&& str_at_ok(old(self).remaining())
                    &&& s@ == decode_utf8(str_at_bytes(old(self).remaining()))
                    &&& final(self).offset as nat == old(self).offset
                        + varint_size(old(self).remaining())
                        + varint_value(old(self).remaining())
                },
                Err(e) => {
                    &&& final(self).offset == old(self).offset
                    &&& !str_at_ok(old(self).remaining())
                    &&& e == str_at_err(old(self).remaining())
                },
            },
    {
        let ghost rem = old(self).remaining();
        let off0: u32 = self.offset;
        let len_read = self.read_var_int();
        match len_read {
            Err(e) => Err(e),
            Ok(len) => {
                let start: u32 = self.offset;
                let n: usize = self.body.len();
                if (len as usize) > n - (start as usize) {
                    self.offset = off0;
                    return Err(FramingError::Truncated);
                }
                let mut bytes: Vec<u8> = Vec::new();
                let mut j: u32 = 0;
                while j < len
                    invariant
                        self.wf(),
                        self.offset == start,
                        self.body == old(self).body,
                        self.size == old(self).size,
                        self.id == old(self).id,
                        n == self.body@.len(),
                        j <= len,
                        start + len <= n,
                        bytes@ =~= self.body@.subrange(start as int, start as int + j as int),
                    decreases len - j,
                {
                    bytes.push(self.body[(start + j) as usize]);
                    j = j + 1;
                }
                proof {
                    assert(bytes@ =~= str_at_bytes(rem));
                }
                match string_from_utf8(bytes) {
                    Some(s) => {
                        self.offset = start + len;
                        Ok(s)
                    },
                    None => {
                        self.offset = off0;
                        Err(FramingError::InvalidUtf8)
                    },
                }
            },
        }
    }
}

/// Little-endian read of `n` bytes of `body` starting at `off`.
fn parse_le(body: &Vec<u8>, off: usize, n: usize) -> (r: u64)
    requires
        off + n <= body@.len(),
        n <= 8,
        pow256(0) == 1 && pow256(8) == 0x10000000000000000,
    ensures
        r as nat == le_value(body@.subrange(off as int, off as int + n as int)),
        (r as nat) < pow256(n as nat),
    decreases n,
{
    proof {
        lemma_pow256_vals();
    }
    let avail: usize = body.len();
    if n == 0 {
        proof {
            assert(body@.subrange(off as int, off as int).len() == 0);
        }
        0
    } else {
        let b: u8 = body[off];
        proof {
            assert(off + 1 <= avail);
        }
        let rest = parse_le(body, off + 1, n - 1);
        proof {
            let s = body@.subrange(off as int, off as int + n as int);
            assert(s[0] == b);
            assert(s.drop_first() =~= body@.subrange(off as int + 1, off as int + n as int));
            assert(pow256(n as nat) == 256 * pow256((n - 1) as nat));
            assert(rest as nat + 1 <= pow256((n - 1) as nat));
            assert(256 * (rest as nat + 1) <= 256 * pow256((n - 1) as nat));
        }
        b as u64 + 256 * rest
    }
}

/// Append the varint encoding of `v` to `buf`.
fn push_varint(buf: &mut Vec<u8>, v: u32)
    ensures
        final(buf)@ == old(buf)@ + varint_enc(v as nat),
    decreases v,
{
    if v < 128 {
        buf.push(v as u8);
        proof {
            assert(buf@ =~= old(buf)@ + varint_enc(v as nat));
        }
    } else {
        let b: u8 = ((v % 128) + 128) as u8;
        buf.push(b);
        push_varint(buf, v / 128);
        proof {
            assert(buf@ =~= old(buf)@ + varint_enc(v as nat));
        }
    }
}

/// Append the `n`-byte little-endian encoding of `v` to `buf`.
fn push_le(buf: &mut Vec<u8>, v: u64, n: u32)
    ensures
        final(buf)@ == old(buf)@ + le_bytes(v as nat, n as nat),
    decreases n,
{
    if n == 0 {
        proof {
            assert(buf@ =~= old(buf)@ + le_bytes(v as nat, 0));
        }
    } else {
        buf.push((v % 256) as u8);
        push_le(buf, v / 256, n - 1);
        proof {
            assert(buf@ =~= old(buf)@ + le_bytes(v as nat, n as nat));
        }
    }
}

/// Growable body of a packet under construction; `build` frames it.
pub struct PacketBuilder {
    body: Vec<u8>,
}

impl View for PacketBuilder {
    type V = Seq<u8>;

    closed spec fn view(&self) -> Seq<u8> {
        self.body@
    }
}

impl PacketBuilder {
    /// An empty body.
    pub fn new() -> (r: PacketBuilder)
        ensures
            r@ == Seq::<u8>::empty(),
    {
        PacketBuilder { body: Vec::new() }
    }

    /// Append the varint encoding of `value`.
    pub fn write_var_int(&mut self, value: u32)
        ensures
            final(self)@ == old(self)@ + varint_enc(value as nat),
    {
        push_varint(&mut self.body, value);
    }

    /// Append the eight-byte little-endian encoding of `value`.
    pub fn write_long(&mut self, value: u64)
        ensures
            final(self)@ == old(self)@ + le_bytes(value as nat, 8),
    {
        push_le(&mut self.body, value, 8);
    }

    /// Append the two-byte big-endian encoding of `value`.
    pub fn write_uint16(&mut self, value: u16)
        ensures
            final(self)@ == old(self)@ + be16_enc(value),
    {
        self.body.push((value / 256) as u8);
        self.body.push((value % 256) as u8);
        proof {
            assert(self.body@ =~= old(self)@ + be16_enc(value));
        }
    }

    /// Append the varint byte length of `value`, then its UTF-8 bytes.
    pub fn write_string(&mut self, value: &str)
        requires
            encode_utf8(value@).len() <= u32::MAX,
        ensures
            final(self)@ == old(self)@ + str_enc(value@),
    {
        let bytes: &[u8] = value.as_bytes();
        let len: usize = bytes.len();
        push_varint(&mut self.body, len as u32);
        self.body.extend_from_slice(bytes);
        proof {
            assert(self.body@ =~= old(self)@ + str_enc(value@));
        }
    }

    /// Frame the body: prepend its varint length, and decode the frame
    /// header of the result.
    pub fn build(&self) -> (r: Packet)
        requires
            self@.len() + 5 <= u32::MAX,
        ensures
            r.wf(),
            r.body@ == frame(self@),
            header_ok(frame(self@)) ==> {
                &&& r.offset as nat == header_len(frame(self@))
                &&& r.size as nat == varint_value(frame(self@))
                &&& r.id as nat == varint_value(frame(self@).skip(varint_size(frame(self@)) as int))
            },
            !header_ok(frame(self@)) ==> r.offset == 0 && r.size == 0 && r.id == 0,
    {
        let mut framed: Vec<u8> = Vec::new();
        push_varint(&mut framed, self.body.len() as u32);
        framed.extend_from_slice(self.body.as_slice());
        proof {
            lemma_varint_enc_len5(self@.len());
            assert(framed@ =~= frame(self@));
        }
        Packet::new(framed)
    }
}

/// Packet round trip: framing an encoded id followed by a payload and
/// then decoding the frame yields back the same id and the same
/// payload bytes.
pub proof fn lemma_frame_round_trip(id: u32, payload: Seq<u8>)
    requires
        payload.len() + 16 <= u32::MAX,
    ensures
        ({
            let body = varint_enc(id as nat) + payload;
            let f = frame(body);
            &&& header_ok(f)
            &&& varint_value(f) == body.len()
            &&& varint_value(f.skip(varint_size(f) as int)) == id
            &&& f.skip(header_len(f) as int) == payload
            &&& f.len() <= u32::MAX
        }),
{
    let body = varint_enc(id as nat) + payload;
    let f = frame(body);
    lemma_varint_enc_len5(id as nat);
    lemma_varint_enc_parses(body.len(), body);
    lemma_varint_enc_len5(body.len());
    assert(f.skip(varint_size(f) as int) =~= body);
    lemma_varint_enc_parses(id as nat, payload);
    assert(body.skip(varint_size(body) as int) =~= payload);
    assert(f.skip(header_len(f) as int) =~= payload);
}

} // verus!

