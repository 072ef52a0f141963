//! The write side of the wire-primitive codec: synchronous writes into an
//! in-memory growable buffer, which never block and never suspend.
use vstd::prelude::*;

use crate::CodecError;
use crate::nums::{be2, be4, u32_of_i32};
use crate::reader::MAX_STRING_LENGTH;
use crate::tag::Tag;
use crate::tree::{document_bytes, root_writable, tag_fits};
use crate::varint::varint_bytes;
use vstd::utf8::encode_utf8;

verus! {

broadcast use Seq::lemma_flatten_push;

/// The wire form this codec writes for a boolean.
pub open spec fn bool_byte(b: bool) -> u8 {
    if b {
        1
    } else {
        0
    }
}

/// The string wire form: a varint byte-length prefix, then the UTF-8 bytes.
pub open spec fn utf_bytes(s: Seq<char>) -> Seq<u8> {
    varint_bytes(encode_utf8(s).len() as u32) + encode_utf8(s)
}

/// The byte-array wire form: a varint length prefix, then the raw bytes.
pub open spec fn byte_array_bytes(b: Seq<u8>) -> Seq<u8> {
    varint_bytes(b.len() as u32) + b
}

/// The varints of the elements of `l`, in order, with no prefix.
pub open spec fn varint_seq_bytes(l: Seq<i32>) -> Seq<u8>
    decreases l.len(),
{
    if l.len() == 0 {
        seq![]
    } else {
        varint_bytes(u32_of_i32(l[0])) + varint_seq_bytes(l.drop_first())
    }
}

/// The integer-list wire form: a varint count, then the elements' varints.
pub open spec fn int_id_list_bytes(l: Seq<i32>) -> Seq<u8> {
    varint_bytes(l.len() as u32) + varint_seq_bytes(l)
}

/// Appending one element's varint extends the elements' byte form.
pub proof fn lemma_varint_seq_bytes_push(l: Seq<i32>, v: i32)
    ensures
        varint_seq_bytes(l.push(v)) == varint_seq_bytes(l) + varint_bytes(u32_of_i32(v)),
    decreases l.len(),
{
    if l.len() == 0 {
        assert(l =~= Seq::<i32>::empty());
        assert(l.push(v).len() == 1);
        assert(l.push(v)[0] == v);
        assert(l.push(v).drop_first() =~= Seq::<i32>::empty());
        assert(varint_seq_bytes(Seq::<i32>::empty()) == Seq::<u8>::empty());
        assert(varint_seq_bytes(l.push(v)) == varint_bytes(u32_of_i32(v)) + Seq::<u8>::empty());
        assert(varint_seq_bytes(l.push(v)) =~= varint_seq_bytes(l) + varint_bytes(
            u32_of_i32(v),
        ));
    } else {
        assert(l.push(v)[0] == l[0]);
        assert(l.push(v).drop_first() =~= l.drop_first().push(v));
        lemma_varint_seq_bytes_push(l.drop_first(), v);
        assert(varint_seq_bytes(l.push(v)) =~= varint_seq_bytes(l) + varint_bytes(
            u32_of_i32(v),
        ));
    }
}

/// The key and value byte chunks of a map's entries, interleaved in entry
/// order: key of the first entry, value of the first entry, and so on.
pub open spec fn interleaved_bytes(ks: Seq<Seq<u8>>, vs: Seq<Seq<u8>>) -> Seq<u8>
    decreases ks.len(),
{
    if ks.len() == 0 || vs.len() == 0 {
        seq![]
    } else {
        ks[0] + vs[0] + interleaved_bytes(ks.drop_first(), vs.drop_first())
    }
}

/// Appending one entry's chunks extends the interleaved byte form.
pub proof fn lemma_interleaved_bytes_push(ks: Seq<Seq<u8>>, vs: Seq<Seq<u8>>, k: Seq<u8>, v: Seq<u8>)
    requires
        ks.len() == vs.len(),
    ensures
        interleaved_bytes(ks.push(k), vs.push(v)) == interleaved_bytes(ks, vs) + k + v,
    decreases ks.len(),
{
    if ks.len() == 0 {
        assert(ks =~= Seq::<Seq<u8>>::empty());
        assert(vs =~= Seq::<Seq<u8>>::empty());
        assert(ks.push(k)[0] == k);
        assert(vs.push(v)[0] == v);
        assert(ks.push(k).drop_first() =~= Seq::<Seq<u8>>::empty());
        assert(vs.push(v).drop_first() =~= Seq::<Seq<u8>>::empty());
        assert(interleaved_bytes(Seq::<Seq<u8>>::empty(), Seq::<Seq<u8>>::empty())
            == Seq::<u8>::empty());
        assert(interleaved_bytes(ks.push(k), vs.push(v)) == k + v + Seq::<u8>::empty());
        assert(interleaved_bytes(ks.push(k), vs.push(v)) =~= interleaved_bytes(ks, vs) + k
            + v);
    } else {
        assert(ks.push(k)[0] == ks[0]);
        assert(vs.push(v)[0] == vs[0]);
        assert(ks.push(k).drop_first() =~= ks.drop_first().push(k));
        assert(vs.push(v).drop_first() =~= vs.drop_first().push(v));
        lemma_interleaved_bytes_push(ks.drop_first(), vs.drop_first(), k, v);
        assert(interleaved_bytes(ks.push(k), vs.push(v)) =~= interleaved_bytes(ks, vs) + k
            + v);
    }
}

/// The views of a sequence of byte buffers.
pub open spec fn views_of(vs: Seq<Vec<u8>>) -> Seq<Seq<u8>> {
    vs.map_values(|v: Vec<u8>| v@)
}

/// The capability set for primitive writes into an exclusively-owned,
/// in-memory byte sink; every method states exactly which bytes it appends.
pub trait Writable {
    /// The bytes written into the sink so far.
    spec fn sink(&self) -> Seq<u8>;

    /// Write a varint count, then each element through `writer`, which
    /// turns one element into its wire bytes.
    fn write_list<T, F: Fn(&T) -> Result<Vec<u8>, CodecError>>(
        &mut self,
        list: &Vec<T>,
        writer: F,
    ) -> (r: Result<(), CodecError>) where Self: Sized
        requires
            list@.len() <= 0x7FFF_FFFF,
            forall|i: int| 0 <= i < list@.len() ==> call_requires(writer, (&list[i],)),
        ensures
            r is Ok ==> exists|vecs: Seq<Vec<u8>>|
                {
                    &&& vecs.len() == list@.len()
                    &&& final(self).sink() == old(self).sink() + varint_bytes(
                        list@.len() as u32,
                    ) + views_of(vecs).flatten()
                    &&& forall|i: int|
                        #![trigger vecs[i]]
                        0 <= i < list@.len() ==> call_ensures(writer, (&list[i],), Ok(vecs[i]))
                },
            (forall|i: int, out: Result<Vec<u8>, CodecError>|
                0 <= i < list@.len() && #[trigger] call_ensures(writer, (&list[i],), out)
                    ==> out is Ok) ==> r is Ok,
            r matches Err(e) ==> old(self).sink().is_prefix_of(final(self).sink())
                && exists|i: int|
                    0 <= i < list@.len() && #[trigger] call_ensures(writer, (&list[i],), Err::<
                        Vec<u8>,
                        CodecError,
                    >(e)),
    ;

    /// Write a varint count, then each element as a varint.
    fn write_int_id_list(&mut self, list: Vec<i32>) -> (r: Result<(), CodecError>)
        requires
            list@.len() <= 0x7FFF_FFFF,
        ensures
            r is Ok,
            final(self).sink() == old(self).sink() + int_id_list_bytes(list@),
    ;

    /// Write a varint entry count, then each entry's key and value through
    /// the given writers, in the order the entries were supplied.
    fn write_map<KT, VT, KF: Fn(&KT) -> Result<Vec<u8>, CodecError>, VF: Fn(&VT) -> Result<
        Vec<u8>,
        CodecError,
    >>(
        &mut self,
        map: &Vec<(KT, VT)>,
        key_writer: KF,
        value_writer: VF,
    ) -> (r: Result<(), CodecError>) where Self: Sized
        requires
            map@.len() <= 0x7FFF_FFFF,
            forall|i: int| 0 <= i < map@.len() ==> call_requires(key_writer, (&map[i].0,)),
            forall|i: int| 0 <= i < map@.len() ==> call_requires(value_writer, (&map[i].1,)),
        ensures
            r is Ok ==> exists|kvecs: Seq<Vec<u8>>, vvecs: Seq<Vec<u8>>|
                {
                    &&& kvecs.len() == map@.len()
                    &&& vvecs.len() == map@.len()
                    &&& final(self).sink() == old(self).sink() + varint_bytes(
                        map@.len() as u32,
                    ) + interleaved_bytes(views_of(kvecs), views_of(vvecs))
                    &&& forall|i: int|
                        #![trigger kvecs[i]]
                        0 <= i < map@.len() ==> call_ensures(key_writer, (&map[i].0,), Ok(kvecs[i]))
                    &&& forall|i: int|
                        #![trigger vvecs[i]]
                        0 <= i < map@.len() ==> call_ensures(
                            value_writer,
                            (&map[i].1,),
                            Ok(vvecs[i]),
                        )
                },
            (forall|i: int, out: Result<Vec<u8>, CodecError>|
                0 <= i < map@.len() && #[trigger] call_ensures(key_writer, (&map[i].0,), out)
                    ==> out is Ok) && (forall|i: int, out: Result<Vec<u8>, CodecError>|
                0 <= i < map@.len() && #[trigger] call_ensures(value_writer, (&map[i].1,), out)
                    ==> out is Ok) ==> r is Ok,
            r matches Err(e) ==> old(self).sink().is_prefix_of(final(self).sink())
                && exists|i: int|
                    #![trigger call_ensures(key_writer, (&map[i].0,), Err::<Vec<u8>, CodecError>(e))]
                    #![trigger call_ensures(value_writer, (&map[i].1,), Err::<Vec<u8>, CodecError>(e))]
                    0 <= i < map@.len() && (call_ensures(key_writer, (&map[i].0,), Err::<
                        Vec<u8>,
                        CodecError,
                    >(e)) || call_ensures(value_writer, (&map[i].1,), Err::<
                        Vec<u8>,
                        CodecError,
                    >(e))),
    ;

    /// Write one byte.
    fn write_byte(&mut self, n: u8) -> (r: Result<(), CodecError>)
        ensures
            r is Ok,
            final(self).sink() == old(self).sink().push(n),
    ;

    /// Write raw bytes, unprefixed.
    fn write_bytes(&mut self, bytes: &[u8]) -> (r: Result<(), CodecError>)
        ensures
            r is Ok,
            final(self).sink() == old(self).sink() + bytes@,
    ;

    /// Write a varint: base-128 groups of `value`, least significant
    /// first, continuation bit on every byte but the last.
    fn write_varint(&mut self, value: i32) -> (r: Result<(), CodecError>)
        ensures
            r is Ok,
            final(self).sink() == old(self).sink() + varint_bytes(u32_of_i32(value)),
    ;

    /// Write a string under the byte-length cap `len`: a varint length
    /// prefix, then the UTF-8 bytes. An oversized string is refused as an
    /// error, never truncated.
    fn write_utf_with_len(&mut self, string: &str, len: usize) -> (r: Result<(), CodecError>)
        requires
            len <= 0x7FFF_FFFF,
        ensures
            r is Ok <==> encode_utf8(string@).len() <= len,
            r is Ok ==> final(self).sink() == old(self).sink() + utf_bytes(string@),
            r is Err ==> r == Err::<(), CodecError>(CodecError::StringTooLong)
                && final(self).sink() == old(self).sink(),
    ;

    /// Write a string under the codec's default maximum length.
    fn write_utf(&mut self, string: &str) -> (r: Result<(), CodecError>)
        ensures
            r is Ok <==> encode_utf8(string@).len() <= MAX_STRING_LENGTH,
            r is Ok ==> final(self).sink() == old(self).sink() + utf_bytes(string@),
            r is Err ==> r == Err::<(), CodecError>(CodecError::StringTooLong)
                && final(self).sink() == old(self).sink(),
    ;

    /// Write a big-endian unsigned 16-bit integer.
    fn write_short(&mut self, n: u16) -> (r: Result<(), CodecError>)
        ensures
            r is Ok,
            final(self).sink() == old(self).sink() + be2(n),
    ;

    /// Write a varint length prefix, then the raw bytes.
    fn write_byte_array(&mut self, bytes: &[u8]) -> (r: Result<(), CodecError>)
        requires
            bytes@.len() <= 0x7FFF_FFFF,
        ensures
            r is Ok,
            final(self).sink() == old(self).sink() + byte_array_bytes(bytes@),
    ;

    /// Write a big-endian signed 32-bit integer.
    fn write_int(&mut self, n: i32) -> (r: Result<(), CodecError>)
        ensures
            r is Ok,
            final(self).sink() == old(self).sink() + be4(u32_of_i32(n)),
    ;

    /// Write a boolean as one byte: 1 for true, 0 for false.
    fn write_boolean(&mut self, b: bool) -> (r: Result<(), CodecError>)
        ensures
            r is Ok,
            final(self).sink() == old(self).sink().push(bool_byte(b)),
    ;

    /// Write a whole tree document as one wire primitive; succeeds exactly
    /// when the tree encoder accepts the value.
    fn write_nbt(&mut self, nbt: &Tag) -> (r: Result<(), CodecError>)
        ensures
            r is Ok <==> root_writable(*nbt) && tag_fits(*nbt),
            r is Ok ==> final(self).sink() == old(self).sink() + document_bytes(*nbt),
            r is Err ==> old(self).sink().is_prefix_of(final(self).sink()),
    ;
}

impl Writable for Vec<u8> {
    open spec fn sink(&self) -> Seq<u8> {
        self@
    }

    fn write_byte(&mut self, n: u8) -> (r: Result<(), CodecError>) {
        self.push(n);
        Ok(())
    }

    fn write_bytes(&mut self, bytes: &[u8]) -> (r: Result<(), CodecError>) {
        let mut i: usize = 0;
        while i < bytes.len()
            invariant
                i <= bytes@.len(),
                self@ =~= old(self)@ + bytes@.take(i as int),
            decreases bytes@.len() - i,
        {
            self.push(bytes[i]);
            proof {
                assert(self@ =~= old(self)@ + bytes@.take(i + 1));
            }
            i = i + 1;
        }
        proof {
            assert(bytes@.take(bytes@.len() as int) =~= bytes@);
        }
        Ok(())
    }

    fn write_varint(&mut self, value: i32) -> (r: Result<(), CodecError>) {
        let ghost u = u32_of_i32(value);
        let mut v: u32 = crate::nums::to_u32(value);
        if v == 0 {
            self.push(0);
            proof {
                assert(varint_bytes(0) =~= seq![0u8]);
                assert(self@ =~= old(self)@ + varint_bytes(u));
            }
            return Ok(());
        }
        proof {
            assert(self@.skip(old(self)@.len() as int) =~= Seq::<u8>::empty());
            assert(varint_bytes(u) =~= Seq::<u8>::empty() + varint_bytes(u));
            assert(old(self)@ =~= self@.take(old(self)@.len() as int));
        }
        while v != 0
            invariant
                u == u32_of_i32(value),
                old(self)@.len() <= self@.len(),
                old(self)@ =~= self@.take(old(self)@.len() as int),
                if v > 0 {
                    varint_bytes(u) =~= self@.skip(old(self)@.len() as int) + varint_bytes(v)
                } else {
                    self@ =~= old(self)@ + varint_bytes(u)
                },
            decreases v,
        {
            let ghost pre = self@;
            let ghost vpre = v;
            let mut digit: u8 = (v % 128) as u8;
            v = v / 128;
            if v != 0 {
                digit = digit + 128;
            }
            self.push(digit);
            proof {
                if vpre >= 128 {
                    assert(varint_bytes(vpre) == seq![
                        ((vpre as int % 128) + 128) as u8,
                    ] + varint_bytes(((vpre as int) / 128) as u32));
                    assert(self@.skip(old(self)@.len() as int) =~= pre.skip(
                        old(self)@.len() as int,
                    ).push(digit));
                    assert(varint_bytes(u) =~= self@.skip(old(self)@.len() as int)
                        + varint_bytes(v));
                } else {
                    assert(varint_bytes(vpre) =~= seq![vpre as u8]);
                    assert(digit == vpre as u8);
                    assert(self@.skip(old(self)@.len() as int) =~= pre.skip(
                        old(self)@.len() as int,
                    ).push(digit));
                    assert(self@.skip(old(self)@.len() as int) =~= varint_bytes(u));
                    assert(self@ =~= self@.take(old(self)@.len() as int) + self@.skip(
                        old(self)@.len() as int,
                    ));
                    assert(self@ =~= old(self)@ + varint_bytes(u));
                }
            }
        }
        Ok(())
    }

    fn write_utf_with_len(&mut self, string: &str, len: usize) -> (r: Result<(), CodecError>) {
        let bytes = string.as_bytes();
        if bytes.len() > len {
            return Err(CodecError::StringTooLong);
        }
        let rv = self.write_varint(bytes.len() as i32);
        let rb = self.write_bytes(bytes);
        proof {
            assert(self@ =~= old(self)@ + utf_bytes(string@));
        }
        Ok(())
    }

    fn write_utf(&mut self, string: &str) -> (r: Result<(), CodecError>) {
        self.write_utf_with_len(string, 32767)
    }

    fn write_short(&mut self, n: u16) -> (r: Result<(), CodecError>) {
        self.push((n / 0x100) as u8);
        self.push((n % 0x100) as u8);
        proof {
            assert(self@ =~= old(self)@ + be2(n));
        }
        Ok(())
    }

    fn write_int(&mut self, n: i32) -> (r: Result<(), CodecError>) {
        let u = crate::nums::to_u32(n);
        let r1 = self.write_short((u / 0x1_0000) as u16);
        let r2 = self.write_short((u % 0x1_0000) as u16);
        proof {
            assert(self@ =~= old(self)@ + be4(u32_of_i32(n)));
        }
        Ok(())
    }

    fn write_byte_array(&mut self, bytes: &[u8]) -> (r: Result<(), CodecError>) {
        let rv = self.write_varint(bytes.len() as i32);
        let rb = self.write_bytes(bytes);
        proof {
            assert(self@ =~= old(self)@ + byte_array_bytes(bytes@));
        }
        Ok(())
    }

    fn write_boolean(&mut self, b: bool) -> (r: Result<(), CodecError>) {
        self.push(if b {
            1
        } else {
            0
        });
        Ok(())
    }

    fn write_nbt(&mut self, nbt: &Tag) -> (r: Result<(), CodecError>) {
        nbt.write(self)
    }

    fn write_int_id_list(&mut self, list: Vec<i32>) -> (r: Result<(), CodecError>) {
        let rv = self.write_varint(list.len() as i32);
        let ghost b0 = self@;
        let mut i: usize = 0;
        while i < list.len()
            invariant
                i <= list@.len(),
                list@.len() <= 0x7FFF_FFFF,
                b0 == old(self)@ + varint_bytes(list@.len() as u32),
                self@ =~= b0 + varint_seq_bytes(list@.take(i as int)),
            decreases list@.len() - i,
        {
            let rw = self.write_varint(list[i]);
            proof {
                lemma_varint_seq_bytes_push(list@.take(i as int), list@[i as int]);
                assert(list@.take(i as int).push(list@[i as int]) =~= list@.take(i + 1));
                assert(self@ =~= b0 + varint_seq_bytes(list@.take(i + 1)));
            }
            i = i + 1;
        }
        proof {
            assert(list@.take(list@.len() as int) =~= list@);
            assert(self@ =~= old(self)@ + int_id_list_bytes(list@));
        }
        Ok(())
    }

    fn write_list<T, F: Fn(&T) -> Result<Vec<u8>, CodecError>>(
        &mut self,
        list: &Vec<T>,
        writer: F,
    ) -> (r: Result<(), CodecError>) {
        let rv = self.write_varint(list.len() as i32);
        let ghost b0 = self@;
        let ghost mut vecs: Seq<Vec<u8>> = Seq::empty();
        let mut i: usize = 0;
        proof {
            assert(views_of(vecs) =~= Seq::<Seq<u8>>::empty());
            assert(views_of(vecs).flatten() =~= Seq::<u8>::empty());
        }
        while i < list.len()
            invariant
                i <= list@.len(),
                list@.len() <= 0x7FFF_FFFF,
                forall|j: int| 0 <= j < list@.len() ==> call_requires(writer, (&list[j],)),
                b0 == old(self)@ + varint_bytes(list@.len() as u32),
                vecs.len() == i as int,
                self@ =~= b0 + views_of(vecs).flatten(),
                forall|j: int|
                    #![trigger vecs[j]]
                    0 <= j < i ==> call_ensures(writer, (&list[j],), Ok(vecs[j])),
            decreases list@.len() - i,
        {
            let chunk = match writer(&list[i]) {
                Ok(c) => c,
                Err(e) => {
                    proof {
                        assert(call_ensures(writer, (&list[i as int],), Err::<
                            Vec<u8>,
                            CodecError,
                        >(e)));
                        assert(old(self)@.is_prefix_of(self@)) by {
                            assert(self@.subrange(0, old(self)@.len() as int) =~= old(self)@);
                        }
                    }
                    return Err(e);
                },
            };
            let rb = self.write_bytes(chunk.as_slice());
            proof {
                let prev = vecs;
                vecs = prev.push(chunk);
                assert(views_of(vecs) =~= views_of(prev).push(chunk@));
                assert(self@ =~= b0 + views_of(vecs).flatten());
                assert forall|j: int| #![trigger vecs[j]] 0 <= j < i + 1 implies call_ensures(
                    writer,
                    (&list[j],),
                    Ok(vecs[j]),
                ) by {
                    if j < i {
                        assert(vecs[j] == prev[j]);
                    } else {
                        assert(vecs[j] == chunk);
                    }
                }
            }
            i = i + 1;
        }
        proof {
            assert(vecs.len() == list@.len());
            assert(self.sink() == old(self).sink() + varint_bytes(list@.len() as u32)
                + views_of(vecs).flatten());
            assert(exists|ws: Seq<Vec<u8>>|
                {
                    &&& ws.len() == list@.len()
                    &&& self.sink() == old(self).sink() + varint_bytes(list@.len() as u32)
                        + views_of(ws).flatten()
                    &&& forall|j: int|
                        #![trigger ws[j]]
                        0 <= j < list@.len() ==> call_ensures(writer, (&list[j],), Ok(ws[j]))
                }) by {
                assert(vecs.len() == list@.len() && self.sink() == old(self).sink()
                    + varint_bytes(list@.len() as u32) + views_of(vecs).flatten() && (forall|
                    j: int,
                |
                    #![trigger vecs[j]]
                    0 <= j < list@.len() ==> call_ensures(writer, (&list[j],), Ok(vecs[j]))));
            }
        }
        Ok(())
    }

    fn write_map<KT, VT, KF: Fn(&KT) -> Result<Vec<u8>, CodecError>, VF: Fn(&VT) -> Result<
        Vec<u8>,
        CodecError,
    >>(
        &mut self,
        map: &Vec<(KT, VT)>,
        key_writer: KF,
        value_writer: VF,
    ) -> (r: Result<(), CodecError>) {
        let rv = self.write_varint(map.len() as i32);
        let ghost b0 = self@;
        let ghost mut kvecs: Seq<Vec<u8>> = Seq::empty();
        let ghost mut vvecs: Seq<Vec<u8>> = Seq::empty();
        let mut i: usize = 0;
        proof {
            assert(views_of(kvecs) =~= Seq::<Seq<u8>>::empty());
            assert(views_of(vvecs) =~= Seq::<Seq<u8>>::empty());
            assert(interleaved_bytes(views_of(kvecs), views_of(vvecs)) =~= Seq::<u8>::empty());
        }
        while i < map.len()
            invariant
                i <= map@.len(),
                map@.len() <= 0x7FFF_FFFF,
                forall|j: int| 0 <= j < map@.len() ==> call_requires(key_writer, (&map[j].0,)),
                forall|j: int| 0 <= j < map@.len() ==> call_requires(value_writer, (&map[j].1,)),
                b0 == old(self)@ + varint_bytes(map@.len() as u32),
                kvecs.len() == i as int,
                vvecs.len() == i as int,
                self@ =~= b0 + interleaved_bytes(views_of(kvecs), views_of(vvecs)),
                forall|j: int|
                    #![trigger kvecs[j]]
                    0 <= j < i ==> call_ensures(key_writer, (&map[j].0,), Ok(kvecs[j])),
                forall|j: int|
                    #![trigger vvecs[j]]
                    0 <= j < i ==> call_ensures(value_writer, (&map[j].1,), Ok(vvecs[j])),
            decreases map@.len() - i,
        {
            let kc = match key_writer(&map[i].0) {
                Ok(c) => c,
                Err(e) => {
                    proof {
                        assert(call_ensures(key_writer, (&map[i as int].0,), Err::<
                            Vec<u8>,
                            CodecError,
                        >(e)));
                        assert(old(self)@.is_prefix_of(self@)) by {
                            assert(self@.subrange(0, old(self)@.len() as int) =~= old(self)@);
                        }
                    }
                    return Err(e);
                },
            };
            let vc = match value_writer(&map[i].1) {
                Ok(c) => c,
                Err(e) => {
                    proof {
                        assert(call_ensures(value_writer, (&map[i as int].1,), Err::<
                            Vec<u8>,
                            CodecError,
                        >(e)));
                        assert(old(self)@.is_prefix_of(self@)) by {
                            assert(self@.subrange(0, old(self)@.len() as int) =~= old(self)@);
                        }
                    }
                    return Err(e);
                },
            };
            let r1 = self.write_bytes(kc.as_slice());
            let r2 = self.write_bytes(vc.as_slice());
            proof {
                lemma_interleaved_bytes_push(views_of(kvecs), views_of(vvecs), kc@, vc@);
                let kprev = kvecs;
                let vprev = vvecs;
                kvecs = kprev.push(kc);
                vvecs = vprev.push(vc);
                assert(views_of(kvecs) =~= views_of(kprev).push(kc@));
                assert(views_of(vvecs) =~= views_of(vprev).push(vc@));
                assert(self@ =~= b0 + interleaved_bytes(views_of(kvecs), views_of(vvecs)));
                assert forall|j: int| #![trigger kvecs[j]] 0 <= j < i + 1 implies call_ensures(
                    key_writer,
                    (&map[j].0,),
                    Ok(kvecs[j]),
                ) by {
                    if j < i {
                        assert(kvecs[j] == kprev[j]);
                    } else {
                        assert(kvecs[j] == kc);
                    }
                }
                assert forall|j: int| #![trigger vvecs[j]] 0 <= j < i + 1 implies call_ensures(
                    value_writer,
                    (&map[j].1,),
                    Ok(vvecs[j]),
                ) by {
                    if j < i {
                        assert(vvecs[j] == vprev[j]);
                    } else {
                        assert(vvecs[j] == vc);
                    }
                }
            }
            i = i + 1;
        }
        proof {
            assert(kvecs.len() == map@.len());
            assert(vvecs.len() == map@.len());
            assert(self.sink() == old(self).sink() + varint_bytes(map@.len() as u32)
                + interleaved_bytes(views_of(kvecs), views_of(vvecs)));
            assert(exists|kws: Seq<Vec<u8>>, vws: Seq<Vec<u8>>|
                {
                    &&& kws.len() == map@.len()
                    &&& vws.len() == map@.len()
                    &&& self.sink() == old(self).sink() + varint_bytes(map@.len() as u32)
                        + interleaved_bytes(views_of(kws), views_of(vws))
                    &&& forall|j: int|
                        #![trigger kws[j]]
                        0 <= j < map@.len() ==> call_ensures(key_writer, (&map[j].0,), Ok(kws[j]))
                    &&& forall|j: int|
                        #![trigger vws[j]]
                        0 <= j < map@.len() ==> call_ensures(
                            value_writer,
                            (&map[j].1,),
                            Ok(vws[j]),
                        )
                }) by {
                assert(kvecs.len() == map@.len() && vvecs.len() == map@.len() && self.sink()
                    == old(self).sink() + varint_bytes(map@.len() as u32) + interleaved_bytes(
                    views_of(kvecs),
                    views_of(vvecs),
                ) && (forall|j: int|
                    #![trigger kvecs[j]]
                    0 <= j < map@.len() ==> call_ensures(key_writer, (&map[j].0,), Ok(kvecs[j])))
                    && (forall|j: int|
                    #![trigger vvecs[j]]
                    0 <= j < map@.len() ==> call_ensures(
                        value_writer,
                        (&map[j].1,),
                        Ok(vvecs[j]),
                    )));
            }
        }
        Ok(())
    }
}

} // verus!
