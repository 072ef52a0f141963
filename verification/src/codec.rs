//! The tree binary codec: recursive-descent decoding of a document from a
//! byte cursor, and encoding of a tag back into bytes, each proved exact
//! against the layout specs, plus the decompressing entry point.
use vstd::prelude::*;

use crate::CodecError;
use crate::nums::{
    be2, be2_val, be4, be4_val, be8, i32_of_u32, lemma_be2_inverse, lemma_be4_inverse, lemma_be8_inverse,
    lemma_u16_i16_inverse, lemma_u32_i32_inverse, lemma_u64_i64_inverse, lemma_u8_i8_inverse,
    to_i16, to_i32, to_i64, to_i8, to_u16, to_u32, to_u64, to_u8,
};
use crate::reader::{
    bytes_to_string, lemma_suffix_orig, lemma_suffix_trans, suffix_of, ByteReader, Readable,
};
use crate::tag::Tag;
use crate::tree::{
    document_bytes, document_len, entries_bytes, entries_fit, entries_len, entries_wf,
    lemma_entries_bytes_push,
    lemma_entries_fit_pointwise, lemma_ints_bytes_push, lemma_list_bytes_push,
    lemma_entries_len_bounds, lemma_list_elems_len_bounds, lemma_list_fits_pointwise,
    lemma_entries_wf_pointwise, lemma_list_wf_pointwise, lemma_longs_bytes_push,
    lemma_payload_len_bounds, list_bytes, list_elem_id, list_elems_len, list_fits, ints_bytes,
    keys_unique, longs_bytes, names_of, payload_bytes, payload_len, root_writable, tag_fits,
    tag_wf, MAX_DEPTH,
};
use crate::writer::Writable;
use vstd::utf8::{encode_utf8, valid_utf8};

verus! {

broadcast use {vstd::std_specs::vec::axiom_vec_index_decreases, vstd::utf8::decode_utf8_encode_utf8};

/// Write a big-endian unsigned 32-bit integer.
fn push_u32(out: &mut Vec<u8>, v: u32)
    ensures
        final(out)@ == old(out)@ + be4(v),
{
    let r1 = out.write_short((v / 0x1_0000) as u16);
    let r2 = out.write_short((v % 0x1_0000) as u16);
    proof {
        assert(out@ =~= old(out)@ + be4(v));
    }
}

/// Write a big-endian unsigned 64-bit integer.
fn push_u64(out: &mut Vec<u8>, v: u64)
    ensures
        final(out)@ == old(out)@ + be8(v),
{
    push_u32(out, (v / 0x1_0000_0000) as u32);
    push_u32(out, (v % 0x1_0000_0000) as u32);
    proof {
        assert(out@ =~= old(out)@ + be8(v));
    }
}

/// Whether two byte slices hold the same bytes.
fn bytes_eq(a: &[u8], b: &[u8]) -> (r: bool)
    ensures
        r <==> a@ == b@,
{
    if a.len() != b.len() {
        return false;
    }
    let mut i: usize = 0;
    while i < a.len()
        invariant
            i <= a@.len(),
            a@.len() == b@.len(),
            forall|j: int| 0 <= j < i ==> a@[j] == b@[j],
        decreases a@.len() - i,
    {
        if a[i] != b[i] {
            return false;
        }
        i = i + 1;
    }
    proof {
        assert(a@ =~= b@);
    }
    true
}

/// Whether the UTF-8 name `name` is already taken by an entry.
fn key_taken(entries: &Vec<(String, Tag)>, name: &[u8]) -> (r: bool)
    ensures
        r <==> names_of(*entries).contains(name@),
{
    let mut i: usize = 0;
    while i < entries.len()
        invariant
            i <= entries.len(),
            forall|j: int| 0 <= j < i ==> encode_utf8(#[trigger] entries[j].0@) != name@,
        decreases entries.len() - i,
    {
        if bytes_eq(entries[i].0.as_str().as_bytes(), name) {
            proof {
                assert(names_of(*entries)[i as int] == encode_utf8(entries[i as int].0@));
            }
            return true;
        }
        i = i + 1;
    }
    proof {
        if names_of(*entries).contains(name@) {
            let j = choose|j: int|
                0 <= j < names_of(*entries).len() && names_of(*entries)[j] == name@;
            assert(encode_utf8(entries[j].0@) == name@);
        }
    }
    false
}

/// Read the payload of a tag with discriminant `id`, nesting at most
/// `depth` further levels.
#[verifier::rlimit(100)]
fn read_payload(r: &mut ByteReader, id: u8, depth: u32) -> (res: Result<Tag, CodecError>)
    ensures
        res is Ok <==> payload_len(old(r).remaining(), id, depth as int) is Some,
        res matches Ok(t) ==> payload_len(old(r).remaining(), id, depth as int) matches Some(k)
            && payload_bytes(t) == old(r).remaining().take(k) && t.spec_id() == id && tag_fits(t)
            && tag_wf(t) && final(r).remaining() == old(r).remaining().skip(k),
        suffix_of(final(r).remaining(), old(r).remaining()),
    decreases depth, 1int,
{
    let ghost orig = r.remaining();
    proof {
        assert(suffix_of(orig, orig)) by {
            assert(orig.skip(0) =~= orig);
        }
    }
    if id == 0 {
        proof {
            assert(payload_bytes(Tag::End) =~= orig.take(0));
            assert(r.remaining() =~= orig.skip(0));
        }
        Ok(Tag::End)
    } else if id == 1 {
        match r.read_byte() {
            Err(e) => Err(e),
            Ok(b) => {
                let v = to_i8(b);
                proof {
                    lemma_u8_i8_inverse(v, b);
                    assert(payload_bytes(Tag::Byte(v)) =~= orig.take(1));
                }
                Ok(Tag::Byte(v))
            },
        }
    } else if id == 2 {
        match r.read_u16_be() {
            Err(e) => Err(e),
            Ok(u) => {
                let v = to_i16(u);
                proof {
                    lemma_u16_i16_inverse(v, u);
                    lemma_be2_inverse(orig.take(2));
                    assert(payload_bytes(Tag::Short(v)) =~= orig.take(2));
                }
                Ok(Tag::Short(v))
            },
        }
    } else if id == 3 {
        match r.read_u32_be() {
            Err(e) => Err(e),
            Ok(u) => {
                let v = to_i32(u);
                proof {
                    lemma_u32_i32_inverse(v, u);
                    lemma_be4_inverse(orig.take(4));
                    assert(payload_bytes(Tag::Int(v)) =~= orig.take(4));
                }
                Ok(Tag::Int(v))
            },
        }
    } else if id == 4 {
        match r.read_u64_be() {
            Err(e) => Err(e),
            Ok(u) => {
                let v = to_i64(u);
                proof {
                    lemma_u64_i64_inverse(v, u);
                    lemma_be8_inverse(orig.take(8));
                    assert(payload_bytes(Tag::Long(v)) =~= orig.take(8));
                }
                Ok(Tag::Long(v))
            },
        }
    } else if id == 5 {
        match r.read_u32_be() {
            Err(e) => Err(e),
            Ok(u) => {
                proof {
                    lemma_be4_inverse(orig.take(4));
                    assert(payload_bytes(Tag::Float(u)) =~= orig.take(4));
                }
                Ok(Tag::Float(u))
            },
        }
    } else if id == 6 {
        match r.read_u64_be() {
            Err(e) => Err(e),
            Ok(u) => {
                proof {
                    lemma_be8_inverse(orig.take(8));
                    assert(payload_bytes(Tag::Double(u)) =~= orig.take(8));
                }
                Ok(Tag::Double(u))
            },
        }
    } else if id == 7 {
        let nraw = match r.read_u32_be() {
            Err(e) => {
                return Err(e);
            },
            Ok(u) => u,
        };
        let n = to_i32(nraw);
        if n < 0 {
            return Err(CodecError::BadLength);
        }
        match r.read_bytes(n as usize) {
            Err(e) => {
                proof {
                    assert(suffix_of(r.remaining(), orig)) by {
                        assert(r.remaining() =~= orig.skip(4));
                    }
                }
                Err(e)
            },
            Ok(v) => {
                proof {
                    lemma_be4_inverse(orig.take(4));
                    assert(v@ =~= orig.subrange(4, 4 + n as int));
                    assert(payload_bytes(Tag::ByteArray(v)) =~= orig.take(4 + n as int));
                    assert(r.remaining() =~= orig.skip(4 + n as int));
                    assert(suffix_of(r.remaining(), orig));
                }
                Ok(Tag::ByteArray(v))
            },
        }
    } else if id == 8 {
        let nl = match r.read_u16_be() {
            Err(e) => {
                return Err(e);
            },
            Ok(u) => u,
        };
        let body = match r.read_bytes(nl as usize) {
            Err(e) => {
                proof {
                    assert(suffix_of(r.remaining(), orig)) by {
                        assert(r.remaining() =~= orig.skip(2));
                    }
                }
                return Err(e);
            },
            Ok(v) => v,
        };
        let ghost bodyseq = body@;
        match bytes_to_string(body) {
            None => {
                proof {
                    assert(bodyseq =~= orig.subrange(2, 2 + nl as int));
                    assert(suffix_of(r.remaining(), orig)) by {
                        assert(r.remaining() =~= orig.skip(2 + nl as int));
                    }
                }
                Err(CodecError::BadStringBytes)
            },
            Some(s) => {
                proof {
                    lemma_be2_inverse(orig.take(2));
                    assert(bodyseq =~= orig.subrange(2, 2 + nl as int));
                    assert(encode_utf8(s@) == bodyseq);
                    assert(payload_bytes(Tag::String(s)) =~= orig.take(2 + nl as int));
                    assert(r.remaining() =~= orig.skip(2 + nl as int));
                    assert(suffix_of(r.remaining(), orig));
                }
                Ok(Tag::String(s))
            },
        }
    } else if id == 9 {
        read_list_payload(r, depth)
    } else if id == 10 {
        read_compound_payload(r, depth)
    } else if id == 11 {
        read_int_array_payload(r, depth)
    } else if id == 12 {
        read_long_array_payload(r, depth)
    } else {
        Err(CodecError::BadDiscriminant)
    }
}

/// Read the payload form of discriminant 9.
#[verifier::rlimit(100)]
fn read_list_payload(r: &mut ByteReader, depth: u32) -> (res: Result<Tag, CodecError>)
    ensures
        res is Ok <==> payload_len(old(r).remaining(), 9, depth as int) is Some,
        res matches Ok(t) ==> payload_len(old(r).remaining(), 9, depth as int) matches Some(k)
            && payload_bytes(t) == old(r).remaining().take(k) && t.spec_id() == 9 && tag_fits(t)
            && tag_wf(t) && final(r).remaining() == old(r).remaining().skip(k),
        suffix_of(final(r).remaining(), old(r).remaining()),
    decreases depth, 0int,
{
    let ghost orig = r.remaining();
    proof {
        assert(suffix_of(orig, orig)) by {
            assert(orig.skip(0) =~= orig);
        }
    }
        if depth == 0 {
            return Err(CodecError::DepthLimit);
        }
        let eid = match r.read_byte() {
            Err(e) => {
                return Err(e);
            },
            Ok(b) => b,
        };
        if eid > 12 {
            proof {
                assert(suffix_of(r.remaining(), orig)) by {
                    assert(r.remaining() =~= orig.skip(1));
                }
            }
            return Err(CodecError::BadDiscriminant);
        }
        let nraw = match r.read_u32_be() {
            Err(e) => {
                proof {
                    assert(suffix_of(r.remaining(), orig)) by {
                        assert(r.remaining() =~= orig.skip(1));
                    }
                }
                return Err(e);
            },
            Ok(u) => u,
        };
        let n = to_i32(nraw);
        proof {
            assert(orig.skip(1).take(4) =~= orig.subrange(1, 5));
            lemma_be4_inverse(orig.subrange(1, 5));
            assert(suffix_of(r.remaining(), orig)) by {
                assert(r.remaining() =~= orig.skip(5));
            }
        }
        if n < 0 {
            return Err(CodecError::BadLength);
        }
        if n == 0 && eid != 0 {
            // the layout admits this document, but the in-memory list
            // cannot carry an empty list's element type, so accepting it
            // would break the byte-exact round trip
            return Err(CodecError::BadListHeader);
        }
        let ghost b5 = r.remaining();
        let mut elems: Vec<Tag> = Vec::new();
        let mut j: i32 = 0;
        proof {
            assert(suffix_of(b5, b5)) by {
                assert(b5.skip(0) =~= b5);
            }
            assert(list_bytes(elems, 0) =~= b5.take(0));
        }
        while j < n
            invariant
                                orig == old(r).remaining(),
                orig.len() >= 5,
                orig[0] == eid,
                eid <= 12,
                b5 == orig.skip(5),
                n as int == i32_of_u32(be4_val(orig.subrange(1, 5))),
                n >= 0,
                n == 0 ==> eid == 0,
                depth >= 1,
                0 <= j <= n,
                elems@.len() == j as int,
                suffix_of(r.remaining(), b5),
                list_bytes(elems, 0) == b5.take(b5.len() - r.remaining().len()),
                forall|i: int|
                    0 <= i < j ==> tag_fits(#[trigger] elems[i]) && tag_wf(elems[i])
                        && elems[i].spec_id() == eid,
                match list_elems_len(r.remaining(), eid, (n - j) as int, depth as int - 1) {
                    Some(m) => list_elems_len(b5, eid, n as int, depth as int - 1) matches Some(tot)
                        && tot == (b5.len() - r.remaining().len()) + m,
                    None => list_elems_len(b5, eid, n as int, depth as int - 1) is None,
                },
            decreases n - j,
        {
            let ghost cur = r.remaining();
            let t = match read_payload(r, eid, depth - 1) {
                Err(e) => {
                    proof {
                        assert(list_elems_len(cur, eid, (n - j) as int, depth as int - 1) is None);
                        assert(payload_len(orig, 9, depth as int) is None);
                        lemma_suffix_trans(r.remaining(), cur, b5);
                        lemma_suffix_orig(r.remaining(), b5, orig, 5);
                    }
                    return Err(e);
                },
                Ok(t) => t,
            };
            proof {
                lemma_payload_len_bounds(cur, eid, depth as int - 1);
                let k = payload_len(cur, eid, depth as int - 1).unwrap();
                assert(0 <= k <= cur.len());
                assert(r.remaining() =~= cur.skip(k));
                lemma_suffix_trans(r.remaining(), cur, b5);
            }
            let ghost pre_elems = elems;
            elems.push(t);
            proof {
                let k = payload_len(cur, eid, depth as int - 1).unwrap();
                lemma_list_elems_len_bounds(r.remaining(), eid, (n - j - 1) as int,
                    depth as int - 1);
                assert(list_elems_len(cur, eid, (n - j) as int, depth as int - 1) == (
                match list_elems_len(cur.skip(k), eid, (n - j - 1) as int, depth as int - 1) {
                    None => None::<int>,
                    Some(m) => Some(k + m),
                }));
                lemma_list_bytes_push(pre_elems, elems, t, 0);
                let c = b5.len() - cur.len();
                assert(cur.take(k) =~= b5.subrange(c, c + k));
                assert(list_bytes(elems, 0) =~= b5.take(c + k));
                assert forall|i: int|
                    0 <= i < j + 1 implies tag_fits(#[trigger] elems[i]) && tag_wf(elems[i])
                    && elems[i].spec_id() == eid by {
                    if i < j {
                        assert(elems[i] == pre_elems[i]);
                    } else {
                        assert(elems[i] == t);
                    }
                }
            }
            j = j + 1;
        }
        proof {
            let c = b5.len() - r.remaining().len();
            assert(list_elems_len(r.remaining(), eid, 0, depth as int - 1) == Some(0int));
            assert(list_elems_len(b5, eid, n as int, depth as int - 1) matches Some(tot) && tot
                == c);
            assert(payload_len(orig, 9, depth as int) == Some(5 + c));
            assert(elems@.len() == n as int);
            assert(list_elem_id(elems) == eid) by {
                if n > 0 {
                    assert(elems[0].spec_id() == eid);
                }
            }
            assert(be4_val(orig.subrange(1, 5)) == n as u32);
            assert(be4(n as u32) =~= orig.subrange(1, 5));
            assert(payload_bytes(Tag::List(elems)) =~= orig.take(5 + c));
            assert(r.remaining() =~= orig.skip(5 + c));
            assert(tag_fits(Tag::List(elems))) by {
                lemma_list_fits_pointwise(elems, 0);
            }
            assert(tag_wf(Tag::List(elems))) by {
                lemma_list_wf_pointwise(elems, 0);
            }
            assert(suffix_of(r.remaining(), orig));
        }
        Ok(Tag::List(elems))
}

/// One decoded compound entry extends the entry bytes, the seen names and
/// the accepted length in step, and keeps the keys unique.
proof fn lemma_compound_step(
    orig: Seq<u8>,
    cur: Seq<u8>,
    mid: Seq<u8>,
    rem: Seq<u8>,
    pre: Vec<(String, Tag)>,
    entries: Vec<(String, Tag)>,
    name: String,
    value: Tag,
    id2: u8,
    nl: u16,
    depth: int,
)
    requires
        suffix_of(cur, orig),
        cur.len() >= 3 + nl as int,
        cur[0] == id2,
        0 < id2 <= 12,
        nl == be2_val(cur.subrange(1, 3)),
        mid == cur.skip(3 + nl as int),
        encode_utf8(name@) == cur.subrange(3, 3 + nl as int),
        valid_utf8(cur.subrange(3, 3 + nl as int)),
        !names_of(pre).contains(cur.subrange(3, 3 + nl as int)),
        keys_unique(pre),
        payload_len(mid, id2, depth) matches Some(k) && rem == mid.skip(k) && payload_bytes(
            value,
        ) == mid.take(k),
        value.spec_id() == id2,
        entries@ == pre@.push((name, value)),
        entries_bytes(pre, 0) == orig.take(orig.len() - cur.len()),
    ensures
        entries_bytes(entries, 0) == orig.take(orig.len() - rem.len()),
        names_of(entries) == names_of(pre).push(cur.subrange(3, 3 + nl as int)),
        keys_unique(entries),
        suffix_of(rem, orig),
        entries_len(cur, depth, names_of(pre)) == (match entries_len(
            rem,
            depth,
            names_of(entries),
        ) {
            None => None::<int>,
            Some(m) => Some((cur.len() - rem.len()) + m),
        }),
{
    lemma_payload_len_bounds(mid, id2, depth);
    let k = payload_len(mid, id2, depth).unwrap();
    let nbseq = cur.subrange(3, 3 + nl as int);
    let c = orig.len() - cur.len();
    let step = 3 + nl as int + k;
    assert(0 <= k <= mid.len());
    assert(encode_utf8(name@).len() == nl as int);
    lemma_entries_bytes_push(pre, entries, name, value, 0);
    assert(rem =~= cur.skip(step));
    lemma_be2_inverse(cur.subrange(1, 3));
    assert(be2(nl) =~= cur.subrange(1, 3));
    assert((nl as int) as u16 == nl);
    assert(be2(encode_utf8(name@).len() as u16) == be2(nl));
    assert(cur.take(step) =~= seq![id2] + be2(nl) + nbseq + mid.take(k));
    assert(orig.take(c + step) =~= orig.take(c) + cur.take(step));
    assert(entries_bytes(entries, 0) =~= orig.take(c + step));
    assert(orig.len() - rem.len() == c + step);
    lemma_entries_push_names(pre, entries, name, value, nbseq);
    lemma_entries_len_bounds(rem, depth, names_of(entries));
    assert(entries_len(cur, depth, names_of(pre)) == (match entries_len(
        cur.skip(step),
        depth,
        names_of(pre).push(nbseq),
    ) {
        None => None::<int>,
        Some(m) => Some(step + m),
    }));
    assert(cur.len() - rem.len() == step);
    assert(suffix_of(rem, orig)) by {
        assert(rem =~= orig.skip(orig.len() - rem.len()));
    }
}

/// Pushing an entry with a fresh name keeps a compound's names in step
/// and its keys unique.
proof fn lemma_entries_push_names(
    pre: Vec<(String, Tag)>,
    entries: Vec<(String, Tag)>,
    name: String,
    value: Tag,
    nb: Seq<u8>,
)
    requires
        entries@ == pre@.push((name, value)),
        encode_utf8(name@) == nb,
        !names_of(pre).contains(nb),
        keys_unique(pre),
    ensures
        names_of(entries) == names_of(pre).push(nb),
        keys_unique(entries),
{
    assert(names_of(entries) =~= names_of(pre).push(nb));
    assert forall|i: int, j: int|
        0 <= i < j < entries@.len() implies #[trigger] entries[i].0@ != #[trigger] entries[j].0@ by {
        if j < pre@.len() {
            assert(entries[i] == pre[i]);
            assert(entries[j] == pre[j]);
        } else {
            assert(entries[i] == pre[i]);
            assert(entries[j] == (name, value));
            if entries[i].0@ == name@ {
                assert(names_of(pre)[i] == encode_utf8(pre[i].0@));
                assert(names_of(pre).contains(nb));
            }
        }
    }
}

/// Read the payload form of discriminant 10.
#[verifier::rlimit(100)]
#[verifier::spinoff_prover]
fn read_compound_payload(r: &mut ByteReader, depth: u32) -> (res: Result<Tag, CodecError>)
    ensures
        res is Ok <==> payload_len(old(r).remaining(), 10, depth as int) is Some,
        res matches Ok(t) ==> payload_len(old(r).remaining(), 10, depth as int) matches Some(k)
            && payload_bytes(t) == old(r).remaining().take(k) && t.spec_id() == 10 && tag_fits(t)
            && tag_wf(t) && final(r).remaining() == old(r).remaining().skip(k),
        suffix_of(final(r).remaining(), old(r).remaining()),
    decreases depth, 0int,
{
    let ghost orig = r.remaining();
    proof {
        assert(suffix_of(orig, orig)) by {
            assert(orig.skip(0) =~= orig);
        }
    }
        if depth == 0 {
            return Err(CodecError::DepthLimit);
        }
        let mut entries: Vec<(String, Tag)> = Vec::new();
        proof {
            assert(entries_bytes(entries, 0) =~= orig.take(0));
            assert(names_of(entries) =~= Seq::<Seq<u8>>::empty());
        }
        loop
            invariant
                                orig == old(r).remaining(),
                depth >= 1,
                suffix_of(r.remaining(), orig),
                entries_bytes(entries, 0) == orig.take(orig.len() - r.remaining().len()),
                forall|i: int|
                    0 <= i < entries@.len() ==> encode_utf8(
                        #[trigger] entries[i].0@,
                    ).len() <= 0xFFFF,
                forall|i: int|
                    0 <= i < entries@.len() ==> tag_fits(#[trigger] entries[i].1) && tag_wf(
                        entries[i].1,
                    ),
                keys_unique(entries),
                match entries_len(r.remaining(), depth as int - 1, names_of(entries)) {
                    Some(m) => entries_len(orig, depth as int - 1, Seq::empty()) matches Some(tot)
                        && tot == (orig.len() - r.remaining().len()) + m,
                    None => entries_len(orig, depth as int - 1, Seq::empty()) is None,
                },
            decreases r.remaining().len(),
        {
            let ghost cur = r.remaining();
            let id2 = match r.read_byte() {
                Err(e) => {
                    proof {
                        assert(entries_len(cur, depth as int - 1, names_of(entries)) is None);
                        assert(payload_len(orig, 10, depth as int) is None);
                    }
                    return Err(e);
                },
                Ok(b) => b,
            };
            if id2 == 0 {
                let ghost c = orig.len() - cur.len();
                proof {
                    assert(entries_len(cur, depth as int - 1, names_of(entries)) == Some(1int));
                    assert(entries_len(orig, depth as int - 1, Seq::empty()) matches Some(tot)
                        && tot == c + 1);
                    assert(payload_len(orig, 10, depth as int) == Some(c + 1));
                    assert(cur[0] == 0);
                    assert(orig[c] == 0);
                    assert(payload_bytes(Tag::Compound(entries)) =~= orig.take(c + 1));
                    assert(r.remaining() =~= orig.skip(c + 1));
                    assert(tag_fits(Tag::Compound(entries))) by {
                        lemma_entries_fit_pointwise(entries, 0);
                    }
                    assert(tag_wf(Tag::Compound(entries))) by {
                        lemma_entries_wf_pointwise(entries, 0);
                    }
                    assert(suffix_of(r.remaining(), orig));
                }
                return Ok(Tag::Compound(entries));
            }
            if id2 > 12 {
                proof {
                    assert(entries_len(cur, depth as int - 1, names_of(entries)) is None);
                    assert(payload_len(orig, 10, depth as int) is None);
                    lemma_suffix_trans(r.remaining(), cur, orig);
                }
                return Err(CodecError::BadDiscriminant);
            }
            let nl = match r.read_u16_be() {
                Err(_) => {
                    proof {
                        assert(cur.len() < 3);
                        assert(entries_len(cur, depth as int - 1, names_of(entries)) is None);
                        assert(payload_len(orig, 10, depth as int) is None);
                        assert(suffix_of(r.remaining(), orig)) by {
                            assert(r.remaining() =~= orig.skip(
                                orig.len() - r.remaining().len(),
                            ));
                        }
                    }
                    return Err(CodecError::Eof);
                },
                Ok(u) => u,
            };
            proof {
                assert(cur.skip(1).take(2) =~= cur.subrange(1, 3));
            }
            let namebytes = match r.read_bytes(nl as usize) {
                Err(_) => {
                    proof {
                        assert(3 + nl as int > cur.len());
                        assert(entries_len(cur, depth as int - 1, names_of(entries)) is None);
                        assert(payload_len(orig, 10, depth as int) is None);
                        assert(suffix_of(r.remaining(), orig)) by {
                            assert(r.remaining() =~= orig.skip(
                                orig.len() - r.remaining().len(),
                            ));
                        }
                    }
                    return Err(CodecError::Eof);
                },
                Ok(v) => v,
            };
            let ghost nbseq = namebytes@;
            proof {
                assert(nbseq =~= cur.subrange(3, 3 + nl as int));
                assert(r.remaining() =~= cur.skip(3 + nl as int));
            }
            if key_taken(&entries, namebytes.as_slice()) {
                proof {
                    assert(names_of(entries).contains(cur.subrange(3, 3 + nl as int)));
                    assert(entries_len(cur, depth as int - 1, names_of(entries)) is None);
                    assert(payload_len(orig, 10, depth as int) is None);
                    assert(suffix_of(r.remaining(), orig)) by {
                        assert(r.remaining() =~= orig.skip(orig.len() - r.remaining().len()));
                    }
                }
                return Err(CodecError::DuplicateKey);
            }
            let name = match bytes_to_string(namebytes) {
                None => {
                    proof {
                        assert(!valid_utf8(cur.subrange(3, 3 + nl as int)));
                        assert(entries_len(cur, depth as int - 1, names_of(entries)) is None);
                        assert(payload_len(orig, 10, depth as int) is None);
                        assert(suffix_of(r.remaining(), orig)) by {
                            assert(r.remaining() =~= orig.skip(
                                orig.len() - r.remaining().len(),
                            ));
                        }
                    }
                    return Err(CodecError::BadStringBytes);
                },
                Some(s) => s,
            };
            let ghost mid = r.remaining();
            let value = match read_payload(r, id2, depth - 1) {
                Err(e) => {
                    proof {
                        assert(payload_len(mid, id2, depth as int - 1) is None);
                        assert(entries_len(cur, depth as int - 1, names_of(entries)) is None);
                        assert(payload_len(orig, 10, depth as int) is None);
                        assert(suffix_of(r.remaining(), orig)) by {
                            assert(r.remaining() =~= orig.skip(
                                orig.len() - r.remaining().len(),
                            ));
                        }
                    }
                    return Err(e);
                },
                Ok(t) => t,
            };
            let ghost pre_entries = entries;
            entries.push((name, value));
            proof {
                assert(encode_utf8(name@) == nbseq);
                lemma_compound_step(
                    orig,
                    cur,
                    mid,
                    r.remaining(),
                    pre_entries,
                    entries,
                    name,
                    value,
                    id2,
                    nl,
                    depth as int - 1,
                );
                assert forall|i: int|
                    0 <= i < entries@.len() implies encode_utf8(
                    #[trigger] entries[i].0@,
                ).len() <= 0xFFFF by {
                    if i < pre_entries@.len() {
                        assert(entries[i] == pre_entries[i]);
                    } else {
                        assert(entries[i] == (name, value));
                    }
                }
                assert forall|i: int|
                    0 <= i < entries@.len() implies tag_fits(#[trigger] entries[i].1) && tag_wf(
                    entries[i].1,
                ) by {
                    if i < pre_entries@.len() {
                        assert(entries[i] == pre_entries[i]);
                    } else {
                        assert(entries[i] == (name, value));
                    }
                }
            }
        }
}

/// Read the payload form of discriminant 11.
#[verifier::rlimit(100)]
fn read_int_array_payload(r: &mut ByteReader, depth: u32) -> (res: Result<Tag, CodecError>)
    ensures
        res is Ok <==> payload_len(old(r).remaining(), 11, depth as int) is Some,
        res matches Ok(t) ==> payload_len(old(r).remaining(), 11, depth as int) matches Some(k)
            && payload_bytes(t) == old(r).remaining().take(k) && t.spec_id() == 11 && tag_fits(t)
            && tag_wf(t) && final(r).remaining() == old(r).remaining().skip(k),
        suffix_of(final(r).remaining(), old(r).remaining()),
    decreases depth, 0int,
{
    let ghost orig = r.remaining();
    proof {
        assert(suffix_of(orig, orig)) by {
            assert(orig.skip(0) =~= orig);
        }
    }
        let nraw = match r.read_u32_be() {
            Err(e) => {
                return Err(e);
            },
            Ok(u) => u,
        };
        let n = to_i32(nraw);
        proof {
            lemma_be4_inverse(orig.take(4));
            assert(suffix_of(r.remaining(), orig)) by {
                assert(r.remaining() =~= orig.skip(4));
            }
        }
        if n < 0 {
            return Err(CodecError::BadLength);
        }
        if (r.len_left() as u64) < 4 * (n as u64) {
            return Err(CodecError::Eof);
        }
        let ghost b4 = r.remaining();
        let mut vals: Vec<i32> = Vec::new();
        let mut j: i32 = 0;
        proof {
            assert(ints_bytes(vals@) =~= b4.take(0));
        }
        while j < n
            invariant
                orig == old(r).remaining(),
                orig.len() >= 4,
                b4 == orig.skip(4),
                n as int == i32_of_u32(be4_val(orig.take(4))),
                0 <= j <= n,
                vals@.len() == j as int,
                r.remaining() == b4.skip(4 * j as int),
                b4.len() >= 4 * n as int,
                ints_bytes(vals@) == b4.take(4 * j as int),
            decreases n - j,
        {
            let ghost cur = r.remaining();
            let u = match r.read_u32_be() {
                Err(_) => {
                    return Err(CodecError::Eof);
                },
                Ok(u) => u,
            };
            let v = to_i32(u);
            let ghost pre = vals@;
            vals.push(v);
            proof {
                lemma_u32_i32_inverse(v, u);
                lemma_be4_inverse(cur.take(4));
                lemma_ints_bytes_push(pre, v);
                assert(cur.take(4) =~= b4.subrange(4 * j as int, 4 * j as int + 4));
                assert(ints_bytes(vals@) =~= b4.take(4 * (j + 1)));
                assert(r.remaining() =~= b4.skip(4 * (j + 1)));
            }
            j = j + 1;
        }
        proof {
            assert(payload_len(orig, 11, depth as int) == Some(4 + 4 * n as int));
            assert(be4_val(orig.take(4)) == n as u32);
            assert(be4(n as u32) =~= orig.take(4));
            assert(payload_bytes(Tag::IntArray(vals)) =~= orig.take(4 + 4 * n as int));
            assert(r.remaining() =~= orig.skip(4 + 4 * n as int));
            assert(suffix_of(r.remaining(), orig));
        }
        Ok(Tag::IntArray(vals))
}

/// Read the payload form of discriminant 12.
#[verifier::rlimit(100)]
fn read_long_array_payload(r: &mut ByteReader, depth: u32) -> (res: Result<Tag, CodecError>)
    ensures
        res is Ok <==> payload_len(old(r).remaining(), 12, depth as int) is Some,
        res matches Ok(t) ==> payload_len(old(r).remaining(), 12, depth as int) matches Some(k)
            && payload_bytes(t) == old(r).remaining().take(k) && t.spec_id() == 12 && tag_fits(t)
            && tag_wf(t) && final(r).remaining() == old(r).remaining().skip(k),
        suffix_of(final(r).remaining(), old(r).remaining()),
    decreases depth, 0int,
{
    let ghost orig = r.remaining();
    proof {
        assert(suffix_of(orig, orig)) by {
            assert(orig.skip(0) =~= orig);
        }
    }
        let nraw = match r.read_u32_be() {
            Err(e) => {
                return Err(e);
            },
            Ok(u) => u,
        };
        let n = to_i32(nraw);
        proof {
            lemma_be4_inverse(orig.take(4));
            assert(suffix_of(r.remaining(), orig)) by {
                assert(r.remaining() =~= orig.skip(4));
            }
        }
        if n < 0 {
            return Err(CodecError::BadLength);
        }
        if (r.len_left() as u64) < 8 * (n as u64) {
            return Err(CodecError::Eof);
        }
        let ghost b4 = r.remaining();
        let mut vals: Vec<i64> = Vec::new();
        let mut j: i32 = 0;
        proof {
            assert(longs_bytes(vals@) =~= b4.take(0));
        }
        while j < n
            invariant
                orig == old(r).remaining(),
                orig.len() >= 4,
                b4 == orig.skip(4),
                n as int == i32_of_u32(be4_val(orig.take(4))),
                0 <= j <= n,
                vals@.len() == j as int,
                r.remaining() == b4.skip(8 * j as int),
                b4.len() >= 8 * n as int,
                longs_bytes(vals@) == b4.take(8 * j as int),
            decreases n - j,
        {
            let ghost cur = r.remaining();
            let u = match r.read_u64_be() {
                Err(_) => {
                    return Err(CodecError::Eof);
                },
                Ok(u) => u,
            };
            let v = to_i64(u);
            let ghost pre = vals@;
            vals.push(v);
            proof {
                lemma_u64_i64_inverse(v, u);
                lemma_be8_inverse(cur.take(8));
                lemma_longs_bytes_push(pre, v);
                assert(cur.take(8) =~= b4.subrange(8 * j as int, 8 * j as int + 8));
                assert(longs_bytes(vals@) =~= b4.take(8 * (j + 1)));
                assert(r.remaining() =~= b4.skip(8 * (j + 1)));
            }
            j = j + 1;
        }
        proof {
            assert(payload_len(orig, 12, depth as int) == Some(4 + 8 * n as int));
            assert(be4_val(orig.take(4)) == n as u32);
            assert(be4(n as u32) =~= orig.take(4));
            assert(payload_bytes(Tag::LongArray(vals)) =~= orig.take(4 + 8 * n as int));
            assert(r.remaining() =~= orig.skip(4 + 8 * n as int));
            assert(suffix_of(r.remaining(), orig));
        }
        Ok(Tag::LongArray(vals))
}



/// Write a run of compound entries as named tags, with no terminator.
#[verifier::rlimit(100)]
#[verifier::spinoff_prover]
fn write_entries(entries: &Vec<(String, Tag)>, out: &mut Vec<u8>) -> (res: Result<(), CodecError>)
    ensures
        res is Ok <==> entries_fit(*entries, 0),
        res is Ok ==> final(out)@ == old(out)@ + entries_bytes(*entries, 0),
        res is Err ==> old(out)@.is_prefix_of(final(out)@),
    decreases *entries,
{
    let mut i: usize = 0;
    proof {
        assert(out@.skip(old(out)@.len() as int) =~= Seq::<u8>::empty());
        assert(out@.take(old(out)@.len() as int) =~= old(out)@);
    }
    while i < entries.len()
        invariant
            i <= entries.len(),
            out@.len() >= old(out)@.len(),
            out@.take(old(out)@.len() as int) == old(out)@,
            out@.skip(old(out)@.len() as int) + entries_bytes(*entries, i as int) == entries_bytes(
                *entries,
                0,
            ),
            forall|k: int|
                0 <= k < i ==> encode_utf8(#[trigger] entries[k].0@).len() <= 0xFFFF && tag_fits(
                    entries[k].1,
                ),
        decreases entries.len() - i,
    {
        let ghost pre = out@;
        let e = &entries[i];
        let nb = e.0.as_str().as_bytes();
        if nb.len() > 0xFFFF {
            proof {
                lemma_entries_fit_pointwise(*entries, 0);
                assert(!entries_fit(*entries, 0));
                assert(old(out)@.is_prefix_of(out@)) by {
                    assert(out@.subrange(0, old(out)@.len() as int) =~= old(out)@);
                }
            }
            return Err(CodecError::StringTooLong);
        }
        let r1 = out.write_byte(e.1.id());
        let r2 = out.write_short(nb.len() as u16);
        let r3 = out.write_bytes(nb);
        let ghost mid = out@;
        match write_payload(&e.1, out) {
            Err(err) => {
                proof {
                    lemma_entries_fit_pointwise(*entries, 0);
                    assert(!entries_fit(*entries, 0));
                    assert(old(out)@.is_prefix_of(out@)) by {
                        assert(mid.is_prefix_of(out@));
                        assert(out@.subrange(0, old(out)@.len() as int) =~= old(out)@);
                    }
                }
                return Err(err);
            },
            Ok(()) => {},
        }
        proof {
            assert(nb@ == encode_utf8(e.0@));
            assert((nb@.len() as int) as u16 == nb@.len() as u16);
            assert(out@.skip(old(out)@.len() as int) =~= pre.skip(old(out)@.len() as int) + seq![
                e.1.spec_id(),
            ] + be2(encode_utf8(e.0@).len() as u16) + encode_utf8(e.0@) + payload_bytes(e.1));
            assert(entries_bytes(*entries, i as int) == seq![entries[i as int].1.spec_id()] + be2(
                encode_utf8(entries[i as int].0@).len() as u16,
            ) + encode_utf8(entries[i as int].0@) + payload_bytes(entries[i as int].1)
                + entries_bytes(*entries, i + 1));
            assert(out@.skip(old(out)@.len() as int) + entries_bytes(*entries, i + 1)
                =~= entries_bytes(*entries, 0));
            assert(out@.take(old(out)@.len() as int) =~= old(out)@);
        }
        i = i + 1;
    }
    proof {
        assert(entries_bytes(*entries, entries.len() as int) == Seq::<u8>::empty());
        assert(out@.skip(old(out)@.len() as int) =~= entries_bytes(*entries, 0));
        assert(out@ =~= old(out)@ + entries_bytes(*entries, 0));
        lemma_entries_fit_pointwise(*entries, 0);
    }
    Ok(())
}

/// Write the payloads of a list's elements, in order, with no headers.
#[verifier::rlimit(100)]
fn write_list_elems(items: &Vec<Tag>, out: &mut Vec<u8>) -> (res: Result<(), CodecError>)
    ensures
        res is Ok <==> list_fits(*items, 0),
        res is Ok ==> final(out)@ == old(out)@ + list_bytes(*items, 0),
        res is Err ==> old(out)@.is_prefix_of(final(out)@),
    decreases *items,
{
    let mut i: usize = 0;
    proof {
        assert(out@.skip(old(out)@.len() as int) =~= Seq::<u8>::empty());
        assert(out@.take(old(out)@.len() as int) =~= old(out)@);
    }
    while i < items.len()
        invariant
            i <= items.len(),
            out@.len() >= old(out)@.len(),
            out@.take(old(out)@.len() as int) == old(out)@,
            out@.skip(old(out)@.len() as int) + list_bytes(*items, i as int) == list_bytes(
                *items,
                0,
            ),
            forall|k: int| 0 <= k < i ==> tag_fits(#[trigger] items[k]),
        decreases items.len() - i,
    {
        let ghost pre = out@;
        match write_payload(&items[i], out) {
            Err(err) => {
                proof {
                    lemma_list_fits_pointwise(*items, 0);
                    assert(!list_fits(*items, 0));
                    assert(old(out)@.is_prefix_of(out@)) by {
                        assert(pre.is_prefix_of(out@));
                        assert(out@.subrange(0, old(out)@.len() as int) =~= old(out)@);
                    }
                }
                return Err(err);
            },
            Ok(()) => {},
        }
        proof {
            assert(out@.skip(old(out)@.len() as int) =~= pre.skip(old(out)@.len() as int)
                + payload_bytes(items[i as int]));
            assert(list_bytes(*items, i as int) == payload_bytes(items[i as int]) + list_bytes(
                *items,
                i + 1,
            ));
            assert(out@.skip(old(out)@.len() as int) + list_bytes(*items, i + 1) =~= list_bytes(
                *items,
                0,
            ));
            assert(out@.take(old(out)@.len() as int) =~= old(out)@);
        }
        i = i + 1;
    }
    proof {
        assert(list_bytes(*items, items.len() as int) == Seq::<u8>::empty());
        assert(out@.skip(old(out)@.len() as int) =~= list_bytes(*items, 0));
        assert(out@ =~= old(out)@ + list_bytes(*items, 0));
        lemma_list_fits_pointwise(*items, 0);
    }
    Ok(())
}

/// Write the payload of one tag: what follows its header and name.
#[verifier::rlimit(100)]
fn write_payload(t: &Tag, out: &mut Vec<u8>) -> (res: Result<(), CodecError>)
    ensures
        res is Ok <==> tag_fits(*t),
        res is Ok ==> final(out)@ == old(out)@ + payload_bytes(*t),
        res is Err ==> old(out)@.is_prefix_of(final(out)@),
    decreases *t,
{
    match t {
        Tag::End => {
            proof {
                assert(out@ =~= old(out)@ + payload_bytes(*t));
            }
            Ok(())
        },
        Tag::Byte(b) => {
            let r1 = out.write_byte(to_u8(*b));
            proof {
                assert(out@ =~= old(out)@ + payload_bytes(*t));
            }
            Ok(())
        },
        Tag::Short(n) => {
            let r1 = out.write_short(to_u16(*n));
            proof {
                assert(out@ =~= old(out)@ + payload_bytes(*t));
            }
            Ok(())
        },
        Tag::Int(n) => {
            let r1 = out.write_int(*n);
            proof {
                assert(out@ =~= old(out)@ + payload_bytes(*t));
            }
            Ok(())
        },
        Tag::Long(n) => {
            push_u64(out, to_u64(*n));
            proof {
                assert(out@ =~= old(out)@ + payload_bytes(*t));
            }
            Ok(())
        },
        Tag::Float(bits) => {
            push_u32(out, *bits);
            proof {
                assert(out@ =~= old(out)@ + payload_bytes(*t));
            }
            Ok(())
        },
        Tag::Double(bits) => {
            push_u64(out, *bits);
            proof {
                assert(out@ =~= old(out)@ + payload_bytes(*t));
            }
            Ok(())
        },
        Tag::ByteArray(v) => {
            if v.len() > 0x7FFF_FFFF {
                proof {
                    assert(old(out)@.is_prefix_of(out@)) by {
                        assert(out@.subrange(0, old(out)@.len() as int) =~= old(out)@);
                    }
                }
                return Err(CodecError::BadLength);
            }
            push_u32(out, v.len() as u32);
            let r1 = out.write_bytes(v.as_slice());
            proof {
                assert(out@ =~= old(out)@ + payload_bytes(*t));
            }
            Ok(())
        },
        Tag::String(s) => {
            let bytes = s.as_str().as_bytes();
            if bytes.len() > 0xFFFF {
                proof {
                    assert(old(out)@.is_prefix_of(out@)) by {
                        assert(out@.subrange(0, old(out)@.len() as int) =~= old(out)@);
                    }
                }
                return Err(CodecError::StringTooLong);
            }
            let r1 = out.write_short(bytes.len() as u16);
            let r2 = out.write_bytes(bytes);
            proof {
                assert(bytes@ == encode_utf8(s@));
                assert(out@ =~= old(out)@ + payload_bytes(*t));
            }
            Ok(())
        },
        Tag::List(items) => {
            if items.len() > 0x7FFF_FFFF {
                proof {
                    assert(old(out)@.is_prefix_of(out@)) by {
                        assert(out@.subrange(0, old(out)@.len() as int) =~= old(out)@);
                    }
                }
                return Err(CodecError::BadLength);
            }
            let eid = if items.len() == 0 {
                0
            } else {
                items[0].id()
            };
            let r1 = out.write_byte(eid);
            push_u32(out, items.len() as u32);
            let ghost b0 = out@;
            match write_list_elems(items, out) {
                Err(err) => {
                    proof {
                        assert(!tag_fits(*t));
                        assert(old(out)@.is_prefix_of(out@)) by {
                            assert(b0.is_prefix_of(out@));
                            assert(out@.subrange(0, old(out)@.len() as int) =~= old(out)@);
                        }
                    }
                    Err(err)
                },
                Ok(()) => {
                    proof {
                        assert(eid == list_elem_id(*items));
                        assert(payload_bytes(*t) == seq![list_elem_id(*items)] + be4(
                            items@.len() as u32,
                        ) + list_bytes(*items, 0));
                        assert(out@ =~= old(out)@ + payload_bytes(*t));
                    }
                    Ok(())
                },
            }
        },
        Tag::Compound(entries) => {
            match write_entries(entries, out) {
                Err(err) => Err(err),
                Ok(()) => {
                    let r1 = out.write_byte(0);
                    proof {
                        assert(out@ =~= old(out)@ + payload_bytes(*t));
                    }
                    Ok(())
                },
            }
        },
        Tag::IntArray(v) => {
            if v.len() > 0x7FFF_FFFF {
                proof {
                    assert(old(out)@.is_prefix_of(out@)) by {
                        assert(out@.subrange(0, old(out)@.len() as int) =~= old(out)@);
                    }
                }
                return Err(CodecError::BadLength);
            }
            push_u32(out, v.len() as u32);
            let ghost b0 = out@;
            let mut i: usize = 0;
            proof {
                assert(ints_bytes(v@.take(0)) =~= Seq::<u8>::empty());
                assert(out@ =~= b0 + ints_bytes(v@.take(0)));
            }
            while i < v.len()
                invariant
                    *t == Tag::IntArray(*v),
                    i <= v@.len(),
                    b0 == old(out)@ + be4(v@.len() as u32),
                    out@ =~= b0 + ints_bytes(v@.take(i as int)),
                decreases v@.len() - i,
            {
                push_u32(out, to_u32(v[i]));
                proof {
                    lemma_ints_bytes_push(v@.take(i as int), v@[i as int]);
                    assert(v@.take(i as int).push(v@[i as int]) =~= v@.take(i + 1));
                    assert(out@ =~= b0 + ints_bytes(v@.take(i + 1)));
                }
                i = i + 1;
            }
            proof {
                assert(v@.take(v@.len() as int) =~= v@);
                assert(out@ =~= old(out)@ + payload_bytes(*t));
            }
            Ok(())
        },
        Tag::LongArray(v) => {
            if v.len() > 0x7FFF_FFFF {
                proof {
                    assert(old(out)@.is_prefix_of(out@)) by {
                        assert(out@.subrange(0, old(out)@.len() as int) =~= old(out)@);
                    }
                }
                return Err(CodecError::BadLength);
            }
            push_u32(out, v.len() as u32);
            let ghost b0 = out@;
            let mut i: usize = 0;
            proof {
                assert(longs_bytes(v@.take(0)) =~= Seq::<u8>::empty());
                assert(out@ =~= b0 + longs_bytes(v@.take(0)));
            }
            while i < v.len()
                invariant
                    *t == Tag::LongArray(*v),
                    i <= v@.len(),
                    b0 == old(out)@ + be4(v@.len() as u32),
                    out@ =~= b0 + longs_bytes(v@.take(i as int)),
                decreases v@.len() - i,
            {
                push_u64(out, to_u64(v[i]));
                proof {
                    lemma_longs_bytes_push(v@.take(i as int), v@[i as int]);
                    assert(v@.take(i as int).push(v@[i as int]) =~= v@.take(i + 1));
                    assert(out@ =~= b0 + longs_bytes(v@.take(i + 1)));
                }
                i = i + 1;
            }
            proof {
                assert(v@.take(v@.len() as int) =~= v@);
                assert(out@ =~= old(out)@ + payload_bytes(*t));
            }
            Ok(())
        },
    }
}

/// Names what flate2's gzip decoder returns: the decompressed stream is a
/// function of the compressed bytes alone.
pub uninterp spec fn gunzip_of(b: Seq<u8>) -> Seq<u8>;

/// Names on which byte sequences flate2's gzip decoder succeeds: whether a
/// stream is a well-formed gzip stream depends on its bytes alone.
pub uninterp spec fn gzip_ok_of(b: Seq<u8>) -> bool;

/// Relies on flate2's `GzDecoder`: decompressing an in-memory buffer is a
/// deterministic function of its bytes, so whether it succeeds, and what it
/// yields when it does, each get a name; a malformed stream is an error.
#[verifier::external_body]
fn gunzip(b: &Vec<u8>) -> (r: Result<Vec<u8>, CodecError>)
    ensures
        r is Ok <==> gzip_ok_of(b@),
        r matches Ok(v) ==> v@ == gunzip_of(b@),
        r matches Err(e) ==> e == CodecError::BadGzip,
{
    let mut out = Vec::new();
    let mut dec = flate2::read::GzDecoder::new(&b[..]);
    match std::io::Read::read_to_end(&mut dec, &mut out) {
        Ok(_) => Ok(out),
        Err(_) => Err(CodecError::BadGzip),
    }
}

impl Tag {
    /// Decode one document from the cursor: the bare end marker, or a
    /// single named root tag wrapped as a one-entry compound. A decoded
    /// tree re-encodes to exactly the bytes consumed, and the cursor stops
    /// right after them, touching no byte that follows.
    #[verifier::rlimit(100)]
    pub fn read(r: &mut ByteReader) -> (res: Result<Tag, CodecError>)
        ensures
            res is Ok <==> document_len(old(r).remaining(), MAX_DEPTH as int) is Some,
            res matches Ok(t) ==> document_len(old(r).remaining(), MAX_DEPTH as int) matches Some(
                k,
            ) && document_bytes(t) == old(r).remaining().take(k) && tag_fits(t) && tag_wf(t)
                && root_writable(t) && final(r).remaining() == old(r).remaining().skip(k),
            old(r).remaining().len() >= 1 && old(r).remaining()[0] > 12 ==> res == Err::<
                Tag,
                CodecError,
            >(CodecError::BadDiscriminant),
            suffix_of(final(r).remaining(), old(r).remaining()),
    {
        let ghost orig = r.remaining();
        proof {
            assert(suffix_of(orig, orig)) by {
                assert(orig.skip(0) =~= orig);
            }
        }
        let id = match r.read_byte() {
            Err(e) => {
                return Err(e);
            },
            Ok(b) => b,
        };
        if id == 0 {
            proof {
                assert(document_len(orig, MAX_DEPTH as int) == Some(1int));
                assert(document_bytes(Tag::End) =~= orig.take(1));
                assert(r.remaining() =~= orig.skip(1));
                assert(suffix_of(r.remaining(), orig));
            }
            return Ok(Tag::End);
        }
        if id > 12 {
            proof {
                assert(suffix_of(r.remaining(), orig)) by {
                    assert(r.remaining() =~= orig.skip(orig.len() - r.remaining().len()));
                }
            }
            return Err(CodecError::BadDiscriminant);
        }
        let nl = match r.read_u16_be() {
            Err(_) => {
                proof {
                    assert(orig.len() < 3);
                    assert(document_len(orig, MAX_DEPTH as int) is None);
                    assert(suffix_of(r.remaining(), orig)) by {
                        assert(r.remaining() =~= orig.skip(orig.len() - r.remaining().len()));
                    }
                }
                return Err(CodecError::Eof);
            },
            Ok(u) => u,
        };
        proof {
            assert(orig.skip(1).take(2) =~= orig.subrange(1, 3));
        }
        let namebytes = match r.read_bytes(nl as usize) {
            Err(_) => {
                proof {
                    assert(3 + nl as int > orig.len());
                    assert(document_len(orig, MAX_DEPTH as int) is None);
                    assert(suffix_of(r.remaining(), orig)) by {
                        assert(r.remaining() =~= orig.skip(orig.len() - r.remaining().len()));
                    }
                }
                return Err(CodecError::Eof);
            },
            Ok(v) => v,
        };
        let ghost nbseq = namebytes@;
        proof {
            assert(nbseq =~= orig.subrange(3, 3 + nl as int));
            assert(r.remaining() =~= orig.skip(3 + nl as int));
        }
        let name = match bytes_to_string(namebytes) {
            None => {
                proof {
                    assert(!valid_utf8(orig.subrange(3, 3 + nl as int)));
                    assert(document_len(orig, MAX_DEPTH as int) is None);
                    assert(suffix_of(r.remaining(), orig)) by {
                        assert(r.remaining() =~= orig.skip(orig.len() - r.remaining().len()));
                    }
                }
                return Err(CodecError::BadStringBytes);
            },
            Some(s) => s,
        };
        let ghost mid = r.remaining();
        let value = match read_payload(r, id, MAX_DEPTH) {
            Err(e) => {
                proof {
                    assert(payload_len(mid, id, MAX_DEPTH as int) is None);
                    assert(document_len(orig, MAX_DEPTH as int) is None);
                    assert(suffix_of(r.remaining(), orig)) by {
                        assert(r.remaining() =~= orig.skip(orig.len() - r.remaining().len()));
                    }
                }
                return Err(e);
            },
            Ok(t) => t,
        };
        let mut entries: Vec<(String, Tag)> = Vec::new();
        entries.push((name, value));
        proof {
            lemma_payload_len_bounds(mid, id, MAX_DEPTH as int);
            let k = payload_len(mid, id, MAX_DEPTH as int).unwrap();
            let step = 3 + nl as int + k;
            assert(document_len(orig, MAX_DEPTH as int) == Some(step));
            lemma_be2_inverse(orig.subrange(1, 3));
            assert(be2(nl) =~= orig.subrange(1, 3));
            assert(encode_utf8(name@) == nbseq);
            assert(encode_utf8(name@).len() == nl as int);
            assert((nl as int) as u16 == nl);
            assert(entries[0] == (name, value));
            assert(entries_bytes(entries, 1) == Seq::<u8>::empty());
            assert(entries_bytes(entries, 0) =~= seq![value.spec_id()] + be2(nl) + nbseq
                + payload_bytes(value));
            assert(document_bytes(Tag::Compound(entries)) =~= orig.take(step));
            assert(r.remaining() =~= orig.skip(step));
            assert(tag_fits(Tag::Compound(entries))) by {
                lemma_entries_fit_pointwise(entries, 0);
            }
            assert(tag_wf(Tag::Compound(entries))) by {
                assert(entries_wf(entries, 1));
                assert(entries_wf(entries, 0));
                assert(keys_unique(entries));
            }
            assert(suffix_of(r.remaining(), orig));
        }
        Ok(Tag::Compound(entries))
    }

    /// Decode a gzip-compressed document: the byte source is run through a
    /// whole-stream decompression filter and the identical decode
    /// algorithm runs over the decompressed bytes.
    pub fn read_gzip(bytes: &Vec<u8>) -> (res: Result<Tag, CodecError>)
        ensures
            res is Ok <==> gzip_ok_of(bytes@) && document_len(
                gunzip_of(bytes@),
                MAX_DEPTH as int,
            ) is Some,
            res matches Ok(t) ==> document_len(gunzip_of(bytes@), MAX_DEPTH as int) matches Some(
                k,
            ) && document_bytes(t) == gunzip_of(bytes@).take(k) && tag_fits(t) && tag_wf(t)
                && root_writable(t),
            !gzip_ok_of(bytes@) ==> res == Err::<Tag, CodecError>(CodecError::BadGzip),
            gzip_ok_of(bytes@) && gunzip_of(bytes@).len() >= 1 && gunzip_of(bytes@)[0] > 12
                ==> res == Err::<Tag, CodecError>(CodecError::BadDiscriminant),
    {
        let data = match gunzip(bytes) {
            Err(e) => {
                return Err(e);
            },
            Ok(d) => d,
        };
        let mut rd = ByteReader::new(data);
        Tag::read(&mut rd)
    }

    /// Encode this value as a document: the bare end marker for the end
    /// tag, or each entry of a compound as a named tag. Succeeds exactly
    /// when the root is writable and every length in the tree fits its
    /// field; an oversized value is an error, never truncated.
    pub fn write(&self, out: &mut Vec<u8>) -> (res: Result<(), CodecError>)
        ensures
            res is Ok <==> root_writable(*self) && tag_fits(*self),
            res is Ok ==> final(out)@ == old(out)@ + document_bytes(*self),
            !root_writable(*self) ==> res == Err::<(), CodecError>(CodecError::BadRoot),
            res is Err ==> old(out)@.is_prefix_of(final(out)@),
    {
        match self {
            Tag::End => {
                let r1 = out.write_byte(0);
                proof {
                    assert(out@ =~= old(out)@ + document_bytes(*self));
                }
                Ok(())
            },
            Tag::Compound(entries) => {
                match write_entries(entries, out) {
                    Err(e) => Err(e),
                    Ok(()) => {
                        proof {
                            assert(out@ =~= old(out)@ + document_bytes(*self));
                        }
                        Ok(())
                    },
                }
            },
            _ => {
                proof {
                    assert(old(out)@.is_prefix_of(out@)) by {
                        assert(out@.subrange(0, old(out)@.len() as int) =~= old(out)@);
                    }
                }
                Err(CodecError::BadRoot)
            },
        }
    }
}

} // verus!
