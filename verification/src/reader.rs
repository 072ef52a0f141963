//! The read side of the wire-primitive codec: a capability trait for
//! suspend-free primitive reads over a byte source, and a cursor over an
//! in-memory buffer implementing it.
use vstd::prelude::*;

use crate::CodecError;
use crate::nums::{be2_val, be4_val, be8_val, i32_of_u32, to_i32, to_u32, u32_of_i32};
use crate::varint::{
    lemma_varint_parse_rec_props, varint_eof, varint_parse, varint_parse_rec, varint_size,
    varint_too_long, varlong_size,
};
use crate::tag::Tag;
use crate::tree::{document_bytes, document_len, root_writable, tag_fits, tag_wf, MAX_DEPTH};
use crate::varint::varint_bytes;
use vstd::utf8::{decode_utf8, encode_utf8, valid_utf8};

verus! {

/// The longest string, in encoded bytes, the default string codec accepts.
pub const MAX_STRING_LENGTH: u32 = 32767;

/// `post` is what is left of `pre` after consuming some prefix.
pub open spec fn suffix_of(post: Seq<u8>, pre: Seq<u8>) -> bool {
    post.len() <= pre.len() && post == pre.skip(pre.len() - post.len())
}

spec fn pow128(i: int) -> int
    decreases i,
{
    if i <= 0 {
        1
    } else {
        128 * pow128(i - 1)
    }
}

proof fn lemma_pow128_small(i: int)
    requires
        0 <= i <= 5,
    ensures
        pow128(i) <= 0x8_0000_0000,
        i <= 4 ==> pow128(i) <= 0x1000_0000,
        pow128(i) >= 1,
{
    assert(pow128(0) == 1);
    assert(pow128(1) == 128);
    assert(pow128(2) == 0x4000);
    assert(pow128(3) == 0x20_0000);
    assert(pow128(4) == 0x1000_0000);
    assert(pow128(5) == 0x8_0000_0000);
}

/// The byte-array wire form at the head of `b`: a varint count, which must
/// not be negative, followed by that many raw bytes.
pub open spec fn byte_array_parse(b: Seq<u8>) -> Option<(Seq<u8>, int)> {
    match varint_parse(b) {
        None => None,
        Some((u, k)) => {
            if i32_of_u32(u) < 0 {
                None
            } else if k + u > b.len() {
                None
            } else {
                Some((b.subrange(k, k + u), k + u))
            }
        },
    }
}

/// `n` consecutive varints at the head of `b`, as signed values.
pub open spec fn varint_seq_parse(b: Seq<u8>, n: int) -> Option<(Seq<i32>, int)>
    decreases n,
{
    if n <= 0 {
        Some((seq![], 0))
    } else {
        match varint_parse(b) {
            None => None,
            Some((u, k)) => match varint_seq_parse(b.skip(k), n - 1) {
                None => None,
                Some(sm) => Some((seq![i32_of_u32(u)] + sm.0, k + sm.1)),
            },
        }
    }
}

/// The integer-list wire form at the head of `b`: a varint count, which
/// must not be negative, followed by that many varints.
pub open spec fn int_id_list_parse(b: Seq<u8>) -> Option<(Seq<i32>, int)> {
    match varint_parse(b) {
        None => None,
        Some((u, k)) => {
            if i32_of_u32(u) < 0 {
                None
            } else {
                match varint_seq_parse(b.skip(k), u as int) {
                    None => None,
                    Some(sm) => Some((sm.0, k + sm.1)),
                }
            }
        },
    }
}

/// The string wire form at the head of `b` under the maximum `max`: a
/// varint byte length, which must not be negative nor exceed four times the
/// maximum, followed by that many bytes of valid UTF-8, whose count must
/// not exceed the maximum itself.
pub open spec fn utf_parse(b: Seq<u8>, max: int) -> Option<(Seq<char>, int)> {
    match varint_parse(b) {
        None => None,
        Some((u, k)) => {
            if i32_of_u32(u) < 0 {
                None
            } else if u > 4 * max {
                None
            } else if k + u > b.len() {
                None
            } else if !valid_utf8(b.subrange(k, k + u)) {
                None
            } else if u > max {
                None
            } else {
                Some((decode_utf8(b.subrange(k, k + u)), k + u))
            }
        },
    }
}

/// The error a failed string read reports, matching the order in which the
/// codec checks the length prefix, the stream, and the decoded bytes.
pub open spec fn utf_err(b: Seq<u8>, max: int) -> CodecError {
    match varint_parse(b) {
        None => if varint_eof(b) {
            CodecError::Eof
        } else {
            CodecError::VarintTooLong
        },
        Some((u, k)) => {
            if i32_of_u32(u) < 0 {
                CodecError::BadLength
            } else if u > 4 * max {
                CodecError::StringTooLong
            } else if k + u > b.len() {
                CodecError::Eof
            } else if !valid_utf8(b.subrange(k, k + u)) {
                CodecError::BadStringBytes
            } else {
                CodecError::StringTooLong
            }
        },
    }
}

/// Law: a string whose UTF-8 form fits the codec's maximum, multi-byte
/// sequences included, round-trips byte-exactly through the string codec:
/// the written wire form parses back to the same character sequence,
/// consuming exactly the written bytes and nothing after them.
pub proof fn lemma_string_round_trip(s: Seq<char>, max: int, rest: Seq<u8>)
    requires
        encode_utf8(s).len() <= max,
        max <= 0x7FFF_FFFF,
    ensures
        utf_parse(crate::writer::utf_bytes(s) + rest, max) == Some(
            (s, crate::writer::utf_bytes(s).len() as int),
        ),
{
    broadcast use vstd::utf8::encode_utf8_valid_utf8;
    broadcast use vstd::utf8::encode_utf8_decode_utf8;

    let e = encode_utf8(s);
    let n = e.len() as u32;
    let b = crate::writer::utf_bytes(s) + rest;
    crate::varint::lemma_varint_bytes_len(n);
    crate::varint::lemma_varint_encode_parse_rec(n, 5, e + rest);
    assert(varint_bytes(n) + (e + rest) =~= b);
    let k = varint_bytes(n).len() as int;
    assert(varint_parse(b) == Some((n, k)));
    assert(i32_of_u32(n) >= 0);
    assert(b.subrange(k, k + n as int) =~= e);
    assert(utf_parse(b, max) == Some((decode_utf8(e), k + n as int)));
    assert(decode_utf8(e) == s);
}

/// Relies on `String::from_utf8`: it succeeds exactly on valid UTF-8 input,
/// and the string it returns holds exactly the given bytes.
#[verifier::external_body]
pub(crate) fn bytes_to_string(v: Vec<u8>) -> (r: Option<String>)
    ensures
        r is Some <==> valid_utf8(v@),
        r matches Some(s) ==> s@ == decode_utf8(v@),
{
    match String::from_utf8(v) {
        Ok(s) => Some(s),
        Err(_) => None,
    }
}

/// The capability set for primitive reads over an exclusively-owned byte
/// source. Reads only ever advance the source, never rewind it; a failed
/// read is surfaced as an error value and never trusted as complete.
pub trait Readable {
    /// The bytes the source has not yet handed out.
    spec fn remaining(&self) -> Seq<u8>;

    /// Read a varint count, then that many varints.
    fn read_int_id_list(&mut self) -> (r: Result<Vec<i32>, CodecError>)
        ensures
            r is Ok <==> int_id_list_parse(old(self).remaining()) is Some,
            r matches Ok(v) ==> int_id_list_parse(old(self).remaining()) matches Some(p)
                && v@ == p.0 && final(self).remaining() == old(self).remaining().skip(p.1),
            suffix_of(final(self).remaining(), old(self).remaining()),
    ;

    /// Read a single varint: at most five groups of seven bits each, least
    /// significant group first, ending at the first byte whose continuation
    /// bit is clear.
    fn read_varint(&mut self) -> (r: Result<i32, CodecError>)
        ensures
            r is Ok <==> varint_parse(old(self).remaining()) is Some,
            r matches Ok(v) ==> varint_parse(old(self).remaining()) matches Some(p)
                && v == i32_of_u32(p.0)
                && final(self).remaining() == old(self).remaining().skip(p.1),
            r matches Err(e) ==> {
                &&& (e == CodecError::Eof <==> varint_eof(old(self).remaining()))
                &&& (e == CodecError::VarintTooLong <==> varint_too_long(old(self).remaining()))
                &&& (e == CodecError::Eof || e == CodecError::VarintTooLong)
            },
            suffix_of(final(self).remaining(), old(self).remaining()),
    ;

    /// How many bytes the varint encoding of `value` occupies, without
    /// consuming input.
    fn get_varint_size(&mut self, value: i32) -> (r: u8)
        ensures
            r as int == varint_size(u32_of_i32(value)),
            final(self).remaining() == old(self).remaining(),
    ;

    /// How many bytes the varlong encoding of `value`, sign-extended to 64
    /// bits, occupies, without consuming input.
    fn get_varlong_size(&mut self, value: i32) -> (r: u8)
        ensures
            r as int == varlong_size(value),
            final(self).remaining() == old(self).remaining(),
    ;

    /// Read a varint length, then that many raw bytes.
    fn read_byte_array(&mut self) -> (r: Result<Vec<u8>, CodecError>)
        ensures
            r is Ok <==> byte_array_parse(old(self).remaining()) is Some,
            r matches Ok(v) ==> byte_array_parse(old(self).remaining()) matches Some(p)
                && v@ == p.0 && final(self).remaining() == old(self).remaining().skip(p.1),
            suffix_of(final(self).remaining(), old(self).remaining()),
    ;

    /// Read exactly `n` raw bytes; a shorter stream is an error and
    /// consumes nothing.
    fn read_bytes(&mut self, n: usize) -> (r: Result<Vec<u8>, CodecError>)
        ensures
            r is Ok <==> n <= old(self).remaining().len(),
            r matches Ok(v) ==> v@ == old(self).remaining().take(n as int)
                && final(self).remaining() == old(self).remaining().skip(n as int),
            r is Err ==> r == Err::<Vec<u8>, CodecError>(CodecError::Eof)
                && final(self).remaining() == old(self).remaining(),
    ;

    /// Read a string under the codec's default maximum length.
    fn read_utf(&mut self) -> (r: Result<String, CodecError>)
        ensures
            r is Ok <==> utf_parse(old(self).remaining(), MAX_STRING_LENGTH as int) is Some,
            r matches Ok(s) ==> utf_parse(old(self).remaining(), MAX_STRING_LENGTH as int)
                matches Some(p) && s@ == p.0
                && final(self).remaining() == old(self).remaining().skip(p.1),
            r matches Err(e) ==> e == utf_err(old(self).remaining(), MAX_STRING_LENGTH as int),
            varint_parse(old(self).remaining()) matches Some(p) ==> ((i32_of_u32(p.0) < 0
                || p.0 > 4 * MAX_STRING_LENGTH) ==> final(self).remaining() == old(
                self,
            ).remaining().skip(p.1)),
            suffix_of(final(self).remaining(), old(self).remaining()),
    ;

    /// Read a string: a varint byte-length prefix, then that many UTF-8
    /// bytes. The declared length is rejected above four times `max_length`;
    /// the bytes actually read are rejected again above `max_length` itself.
    fn read_utf_with_len(&mut self, max_length: u32) -> (r: Result<String, CodecError>)
        ensures
            r is Ok <==> utf_parse(old(self).remaining(), max_length as int) is Some,
            r matches Ok(s) ==> utf_parse(old(self).remaining(), max_length as int)
                matches Some(p) && s@ == p.0
                && final(self).remaining() == old(self).remaining().skip(p.1),
            r matches Err(e) ==> e == utf_err(old(self).remaining(), max_length as int),
            varint_parse(old(self).remaining()) matches Some(p) ==> ((i32_of_u32(p.0) < 0
                || p.0 > 4 * max_length) ==> final(self).remaining() == old(
                self,
            ).remaining().skip(p.1)),
            suffix_of(final(self).remaining(), old(self).remaining()),
    ;

    /// Read one byte.
    fn read_byte(&mut self) -> (r: Result<u8, CodecError>)
        ensures
            r is Ok <==> old(self).remaining().len() >= 1,
            r matches Ok(v) ==> v == old(self).remaining()[0]
                && final(self).remaining() == old(self).remaining().skip(1),
            r is Err ==> r == Err::<u8, CodecError>(CodecError::Eof)
                && final(self).remaining() == old(self).remaining(),
    ;

    /// Read a big-endian signed 32-bit integer.
    fn read_int(&mut self) -> (r: Result<i32, CodecError>)
        ensures
            r is Ok <==> old(self).remaining().len() >= 4,
            r matches Ok(v) ==> v == i32_of_u32(be4_val(old(self).remaining().take(4)))
                && final(self).remaining() == old(self).remaining().skip(4),
            r is Err ==> r == Err::<i32, CodecError>(CodecError::Eof)
                && final(self).remaining() == old(self).remaining(),
    ;

    /// Read one byte as a boolean: 0 is false, 1 is true, any other value
    /// is an error, never silently coerced.
    fn read_boolean(&mut self) -> (r: Result<bool, CodecError>)
        ensures
            r is Ok <==> old(self).remaining().len() >= 1 && old(self).remaining()[0] <= 1,
            r matches Ok(v) ==> v == (old(self).remaining()[0] == 1)
                && final(self).remaining() == old(self).remaining().skip(1),
            r matches Err(e) ==> if old(self).remaining().len() == 0 {
                e == CodecError::Eof && final(self).remaining() == old(self).remaining()
            } else {
                e == CodecError::BadBoolean
                    && final(self).remaining() == old(self).remaining().skip(1)
            },
    ;

    /// Read a whole tree document as one wire primitive; the decoded tree
    /// re-encodes to exactly the bytes consumed.
    fn read_nbt(&mut self) -> (r: Result<Tag, CodecError>)
        ensures
            r is Ok <==> document_len(old(self).remaining(), MAX_DEPTH as int) is Some,
            r matches Ok(t) ==> document_len(old(self).remaining(), MAX_DEPTH as int)
                matches Some(k) && document_bytes(t) == old(self).remaining().take(k)
                && tag_fits(t) && tag_wf(t) && root_writable(t)
                && final(self).remaining() == old(self).remaining().skip(k),
            suffix_of(final(self).remaining(), old(self).remaining()),
    ;
}

/// A cursor over an owned, fully in-memory byte buffer; the concrete byte
/// source behind this crate's decoders.
pub struct ByteReader {
    bytes: Vec<u8>,
    pos: usize,
}

impl ByteReader {
    /// Wrap a buffer; everything in it is yet to be read.
    pub fn new(bytes: Vec<u8>) -> (r: ByteReader)
        ensures
            r.remaining() == bytes@,
    {
        let r = ByteReader { bytes, pos: 0 };
        proof {
            assert(r.remaining() =~= r.bytes@);
        }
        r
    }

    /// How many bytes are left.
    pub fn len_left(&self) -> (r: usize)
        ensures
            r == self.remaining().len(),
    {
        if self.pos <= self.bytes.len() {
            self.bytes.len() - self.pos
        } else {
            0
        }
    }

    /// Take `n` bytes off the front, or nothing on a short stream.
    fn take_n(&mut self, n: usize) -> (r: Result<Vec<u8>, CodecError>)
        ensures
            r is Ok <==> n <= old(self).remaining().len(),
            r matches Ok(v) ==> v@ == old(self).remaining().take(n as int)
                && final(self).remaining() == old(self).remaining().skip(n as int),
            r is Err ==> r == Err::<Vec<u8>, CodecError>(CodecError::Eof)
                && final(self).remaining() == old(self).remaining(),
    {
        if self.len_left() < n {
            return Err(CodecError::Eof);
        }
        let mut v: Vec<u8> = Vec::new();
        let mut i: usize = 0;
        while i < n
            invariant
                i <= n,
                self.bytes == old(self).bytes,
                self.pos == old(self).pos,
                n <= self.remaining().len(),
                self.pos + n <= self.bytes.len() || n == 0,
                v@ =~= self.remaining().take(i as int),
            decreases n - i,
        {
            v.push(self.bytes[self.pos + i]);
            proof {
                assert(self.remaining()[i as int] == self.bytes@[self.pos + i]);
                assert(v@ =~= self.remaining().take(i + 1));
            }
            i = i + 1;
        }
        self.pos = self.pos + n;
        proof {
            assert(self.remaining() =~= old(self).remaining().skip(n as int));
        }
        Ok(v)
    }

    /// Read a big-endian unsigned 16-bit integer.
    pub fn read_u16_be(&mut self) -> (r: Result<u16, CodecError>)
        ensures
            r is Ok <==> old(self).remaining().len() >= 2,
            r matches Ok(v) ==> v == be2_val(old(self).remaining().take(2))
                && final(self).remaining() == old(self).remaining().skip(2),
            r is Err ==> r == Err::<u16, CodecError>(CodecError::Eof)
                && final(self).remaining() == old(self).remaining(),
    {
        match self.take_n(2) {
            Err(e) => Err(e),
            Ok(b) => {
                let v: u16 = (b[0] as u16) * 0x100 + (b[1] as u16);
                proof {
                    assert(old(self).remaining().take(2)[0] == b@[0]);
                    assert(old(self).remaining().take(2)[1] == b@[1]);
                }
                Ok(v)
            },
        }
    }

    /// Read a big-endian unsigned 32-bit integer.
    pub fn read_u32_be(&mut self) -> (r: Result<u32, CodecError>)
        ensures
            r is Ok <==> old(self).remaining().len() >= 4,
            r matches Ok(v) ==> v == be4_val(old(self).remaining().take(4))
                && final(self).remaining() == old(self).remaining().skip(4),
            r is Err ==> r == Err::<u32, CodecError>(CodecError::Eof)
                && final(self).remaining() == old(self).remaining(),
    {
        if self.len_left() < 4 {
            return Err(CodecError::Eof);
        }
        let ghost b = self.remaining();
        let h = match self.read_u16_be() {
            Ok(h) => h,
            Err(e) => {
                return Err(e);
            },
        };
        let l = match self.read_u16_be() {
            Ok(l) => l,
            Err(e) => {
                return Err(e);
            },
        };
        let v: u32 = (h as u32) * 0x1_0000 + (l as u32);
        proof {
            assert(b.take(4).take(2) =~= b.take(2));
            assert(b.skip(2).take(2) =~= b.take(4).skip(2));
            assert(b.skip(2).skip(2) =~= b.skip(4));
        }
        Ok(v)
    }

    /// Read a big-endian unsigned 64-bit integer.
    pub fn read_u64_be(&mut self) -> (r: Result<u64, CodecError>)
        ensures
            r is Ok <==> old(self).remaining().len() >= 8,
            r matches Ok(v) ==> v == be8_val(old(self).remaining().take(8))
                && final(self).remaining() == old(self).remaining().skip(8),
            r is Err ==> r == Err::<u64, CodecError>(CodecError::Eof)
                && final(self).remaining() == old(self).remaining(),
    {
        if self.len_left() < 8 {
            return Err(CodecError::Eof);
        }
        let ghost b = self.remaining();
        let h = match self.read_u32_be() {
            Ok(h) => h,
            Err(e) => {
                return Err(e);
            },
        };
        let l = match self.read_u32_be() {
            Ok(l) => l,
            Err(e) => {
                return Err(e);
            },
        };
        let v: u64 = (h as u64) * 0x1_0000_0000 + (l as u64);
        proof {
            assert(b.take(8).take(4) =~= b.take(4));
            assert(b.skip(4).take(4) =~= b.take(8).skip(4));
            assert(b.skip(4).skip(4) =~= b.skip(8));
        }
        Ok(v)
    }
}

impl Readable for ByteReader {
    closed spec fn remaining(&self) -> Seq<u8> {
        if self.pos <= self.bytes.len() {
            self.bytes@.skip(self.pos as int)
        } else {
            Seq::empty()
        }
    }

    fn read_byte(&mut self) -> (r: Result<u8, CodecError>) {
        if self.pos < self.bytes.len() {
            let v = self.bytes[self.pos];
            self.pos = self.pos + 1;
            proof {
                assert(old(self).remaining()[0] == self.bytes@[old(self).pos as int]);
                assert(self.remaining() =~= old(self).remaining().skip(1));
            }
            Ok(v)
        } else {
            Err(CodecError::Eof)
        }
    }

    fn read_bytes(&mut self, n: usize) -> (r: Result<Vec<u8>, CodecError>) {
        self.take_n(n)
    }

    fn read_int(&mut self) -> (r: Result<i32, CodecError>) {
        match self.read_u32_be() {
            Ok(u) => Ok(to_i32(u)),
            Err(e) => Err(e),
        }
    }

    fn read_boolean(&mut self) -> (r: Result<bool, CodecError>) {
        match self.read_byte() {
            Ok(0) => Ok(false),
            Ok(1) => Ok(true),
            Ok(_) => Err(CodecError::BadBoolean),
            Err(e) => Err(e),
        }
    }

    fn get_varint_size(&mut self, value: i32) -> (r: u8) {
        let u = to_u32(value);
        if u < 0x80 {
            1
        } else if u < 0x4000 {
            2
        } else if u < 0x20_0000 {
            3
        } else if u < 0x1000_0000 {
            4
        } else {
            5
        }
    }

    fn get_varlong_size(&mut self, value: i32) -> (r: u8) {
        if value < 0 {
            10
        } else {
            self.get_varint_size(value)
        }
    }

    fn read_varint(&mut self) -> (r: Result<i32, CodecError>) {
        let ghost orig: Seq<u8> = self.remaining();
        let mut acc: u64 = 0;
        let mut mult: u64 = 1;
        let mut i: u8 = 0;
        while i < 5
            invariant
                orig == old(self).remaining(),
                0 <= i <= 5,
                mult as int == pow128(i as int),
                acc < mult,
                i as int <= orig.len(),
                self.remaining() == orig.skip(i as int),
                forall|j: int| 0 <= j < i ==> orig[j] >= 128,
                match varint_parse_rec(self.remaining(), 5 - i as int) {
                    Some(vk) => varint_parse_rec(orig, 5) matches Some(t)
                        && t.0 == (acc as int) + (mult as int) * vk.0
                        && t.1 == (i as int) + vk.1,
                    None => varint_parse_rec(orig, 5) is None,
                },
            decreases 5 - i as int,
        {
            proof {
                lemma_pow128_small(i as int);
            }
            let ghost cur = self.remaining();
            let byte = match self.read_byte() {
                Ok(b) => b,
                Err(_) => {
                    proof {
                        assert(orig.len() == i as int);
                        assert(varint_eof(orig));
                        assert(varint_parse_rec(cur, 5 - i as int) is None);
                        assert(varint_parse(orig) is None);
                        assert(suffix_of(self.remaining(), orig));
                    }
                    return Err(CodecError::Eof);
                },
            };
            let g: u64 = (byte % 128) as u64;
            proof {
                assert(mult * g <= mult * 127) by (nonlinear_arith)
                    requires g <= 127, mult >= 0;
                assert(acc + mult * g < 128 * mult) by (nonlinear_arith)
                    requires acc < mult, g <= 127, mult >= 1;
            }
            if byte < 128 {
                let raw: u64 = acc + mult * g;
                let v32: u32 = (raw % 0x1_0000_0000) as u32;
                proof {
                    assert(varint_parse_rec(cur, 5 - i as int) == Some(
                        ((byte % 128) as int, 1int),
                    ));
                    assert(varint_parse(orig) matches Some(p) && p.0 == v32
                        && p.1 == i as int + 1);
                    assert(self.remaining() =~= orig.skip(i as int + 1));
                    assert(suffix_of(self.remaining(), orig));
                }
                return Ok(to_i32(v32));
            }
            proof {
                assert(cur[0] == byte);
                assert(orig[i as int] == byte) by {
                    assert(cur == orig.skip(i as int));
                }
                let gl = 5 - i as int;
                assert(self.remaining() == cur.skip(1));
                match varint_parse_rec(cur.skip(1), gl - 1) {
                    None => {
                        assert(varint_parse_rec(cur, gl) is None);
                    },
                    Some((v, k)) => {
                        assert(varint_parse_rec(cur, gl) == Some(
                            (((byte as int) % 128) + 128 * v, k + 1),
                        ));
                        assert((mult as int) * (((byte as int) % 128) + 128 * v) == (mult as int)
                            * ((byte as int) % 128) + ((mult as int) * 128) * v)
                            by (nonlinear_arith);
                    },
                }
                assert(self.remaining() =~= orig.skip(i as int + 1));
            }
            acc = acc + mult * g;
            mult = mult * 128;
            i = i + 1;
        }
        proof {
            assert(varint_parse_rec(self.remaining(), 0) is None);
            assert(varint_parse_rec(orig, 5) is None);
            assert(orig.len() >= 5);
            assert(varint_too_long(orig));
            assert(suffix_of(self.remaining(), orig));
        }
        Err(CodecError::VarintTooLong)
    }

    fn read_byte_array(&mut self) -> (r: Result<Vec<u8>, CodecError>) {
        let ghost orig = self.remaining();
        let n = match self.read_varint() {
            Ok(n) => n,
            Err(e) => {
                return Err(e);
            },
        };
        if n < 0 {
            return Err(CodecError::BadLength);
        }
        proof {
            lemma_varint_parse_rec_props(orig, 5);
        }
        let ghost p = varint_parse(orig).unwrap();
        match self.take_n(n as usize) {
            Ok(v) => {
                proof {
                    assert(v@ =~= orig.subrange(p.1, p.1 + (n as int)));
                    assert(self.remaining() =~= orig.skip(p.1 + (n as int)));
                    assert(suffix_of(self.remaining(), orig));
                }
                Ok(v)
            },
            Err(e) => {
                proof {
                    assert(suffix_of(self.remaining(), orig));
                }
                Err(e)
            },
        }
    }

    fn read_int_id_list(&mut self) -> (r: Result<Vec<i32>, CodecError>) {
        let ghost orig = self.remaining();
        let count = match self.read_varint() {
            Ok(n) => n,
            Err(e) => {
                return Err(e);
            },
        };
        if count < 0 {
            return Err(CodecError::BadLength);
        }
        proof {
            lemma_varint_parse_rec_props(orig, 5);
        }
        let ghost k0 = varint_parse(orig).unwrap().1;
        let ghost b0 = self.remaining();
        let mut list: Vec<i32> = Vec::new();
        let mut j: i32 = 0;
        proof {
            assert(b0.skip(0) =~= b0);
            assert(suffix_of(b0, b0));
            match varint_seq_parse(b0, count as int) {
                Some(sm) => {
                    assert(Seq::<i32>::empty() + sm.0 =~= sm.0);
                },
                None => {},
            }
        }
        while j < count
            invariant
                orig == old(self).remaining(),
                count >= 0,
                0 <= j <= count,
                list@.len() == j as int,
                suffix_of(self.remaining(), b0),
                b0 == orig.skip(k0),
                0 <= k0 <= orig.len(),
                varint_parse(orig) matches Some(pp) && pp.1 == k0 && i32_of_u32(pp.0) == count,
                match varint_seq_parse(self.remaining(), (count - j) as int) {
                    Some(sm) => varint_seq_parse(b0, count as int) matches Some(t)
                        && t.0 == list@ + sm.0
                        && t.1 == (b0.len() - self.remaining().len()) + sm.1,
                    None => varint_seq_parse(b0, count as int) is None,
                },
            decreases count - j,
        {
            let ghost cur = self.remaining();
            let v = match self.read_varint() {
                Ok(v) => v,
                Err(e) => {
                    proof {
                        assert(varint_seq_parse(cur, (count - j) as int) is None);
                        assert(varint_seq_parse(b0, count as int) is None);
                        assert(int_id_list_parse(orig) is None);
                        lemma_suffix_trans(self.remaining(), cur, b0);
                        lemma_suffix_orig(self.remaining(), b0, orig, k0);
                    }
                    return Err(e);
                },
            };
            proof {
                let pv = varint_parse(cur).unwrap();
                lemma_varint_parse_rec_props(cur, 5);
                assert(varint_seq_parse(cur, (count - j) as int) == (
                    match varint_seq_parse(cur.skip(pv.1), (count - j - 1) as int) {
                        None => None::<(Seq<i32>, int)>,
                        Some(sm) => Some((seq![i32_of_u32(pv.0)] + sm.0, pv.1 + sm.1)),
                    }));
                match varint_seq_parse(cur.skip(pv.1), (count - j - 1) as int) {
                    None => {},
                    Some(sm) => {
                        assert(list@ + (seq![i32_of_u32(pv.0)] + sm.0) =~= (list@.push(
                            i32_of_u32(pv.0),
                        )) + sm.0);
                    },
                }
                lemma_suffix_trans(self.remaining(), cur, b0);
            }
            list.push(v);
            j = j + 1;
        }
        proof {
            assert(varint_seq_parse(self.remaining(), 0) matches Some(z) && z.0 == Seq::<
                i32,
            >::empty() && z.1 == 0);
            assert(list@ + Seq::<i32>::empty() =~= list@);
            let c = b0.len() - self.remaining().len();
            assert(varint_seq_parse(b0, count as int) matches Some(t) && t.0 == list@
                && t.1 == c);
            assert(int_id_list_parse(orig) matches Some(q) && q.0 == list@ && q.1 == k0 + c);
            assert(self.remaining() =~= orig.skip(k0 + c));
            lemma_suffix_orig(self.remaining(), b0, orig, k0);
        }
        Ok(list)
    }

    fn read_utf(&mut self) -> (r: Result<String, CodecError>) {
        self.read_utf_with_len(MAX_STRING_LENGTH)
    }

    fn read_nbt(&mut self) -> (r: Result<Tag, CodecError>) {
        Tag::read(self)
    }

    fn read_utf_with_len(&mut self, max_length: u32) -> (r: Result<String, CodecError>) {
        let ghost orig = self.remaining();
        let n = match self.read_varint() {
            Ok(n) => n,
            Err(e) => {
                return Err(e);
            },
        };
        if n < 0 {
            return Err(CodecError::BadLength);
        }
        if (n as u64) > 4 * (max_length as u64) {
            return Err(CodecError::StringTooLong);
        }
        proof {
            lemma_varint_parse_rec_props(orig, 5);
        }
        let ghost k = varint_parse(orig).unwrap().1;
        let body = match self.take_n(n as usize) {
            Ok(v) => v,
            Err(_) => {
                proof {
                    assert(suffix_of(self.remaining(), orig));
                }
                return Err(CodecError::Eof);
            },
        };
        proof {
            assert(body@ =~= orig.subrange(k, k + (n as int)));
            assert(self.remaining() =~= orig.skip(k + (n as int)));
            assert(suffix_of(self.remaining(), orig));
        }
        match bytes_to_string(body) {
            None => Err(CodecError::BadStringBytes),
            Some(s) => {
                if (n as u32) > max_length {
                    Err(CodecError::StringTooLong)
                } else {
                    Ok(s)
                }
            },
        }
    }
}

pub(crate) proof fn lemma_suffix_trans(c: Seq<u8>, b: Seq<u8>, a: Seq<u8>)
    requires
        suffix_of(c, b),
        suffix_of(b, a),
    ensures
        suffix_of(c, a),
{
    assert(c =~= a.skip(a.len() - c.len()));
}

pub(crate) proof fn lemma_suffix_orig(c: Seq<u8>, b0: Seq<u8>, orig: Seq<u8>, k0: int)
    requires
        suffix_of(c, b0),
        b0 == orig.skip(k0),
        0 <= k0 <= orig.len(),
    ensures
        suffix_of(c, orig),
{
    assert(c =~= orig.skip(orig.len() - c.len()));
}

} // verus!
