//! The byte layout of the tree document format: a spec-level printer that
//! says which bytes a tag produces, a spec-level acceptor that says which
//! prefix of a stream parses and how long it is, and the predicates tying
//! the two together.
use vstd::prelude::*;

use crate::nums::{
    be2, be2_val, be4, be4_val, be8, i32_of_u32, u16_of_i16, u32_of_i32, u64_of_i64, u8_of_i8,
};
use crate::tag::Tag;
use vstd::utf8::{encode_utf8, valid_utf8};

verus! {

broadcast use vstd::std_specs::vec::axiom_vec_index_decreases;

/// The deepest nesting of lists and compounds the decoder accepts; a bound
/// on recursion so that a crafted document cannot exhaust the stack.
pub const MAX_DEPTH: u32 = 512;

/// The element discriminant a list's header records: that of its first
/// element, or the end marker for an empty list.
pub open spec fn list_elem_id(items: Vec<Tag>) -> u8 {
    if items.len() == 0 {
        0
    } else {
        items[0].spec_id()
    }
}

/// The payload bytes of the 32-bit integer elements of an array, in order.
pub open spec fn ints_bytes(l: Seq<i32>) -> Seq<u8>
    decreases l.len(),
{
    if l.len() == 0 {
        seq![]
    } else {
        be4(u32_of_i32(l[0])) + ints_bytes(l.drop_first())
    }
}

/// The payload bytes of the 64-bit integer elements of an array, in order.
pub open spec fn longs_bytes(l: Seq<i64>) -> Seq<u8>
    decreases l.len(),
{
    if l.len() == 0 {
        seq![]
    } else {
        be8(u64_of_i64(l[0])) + longs_bytes(l.drop_first())
    }
}

/// The payload bytes of one tag: what follows its header and name.
pub open spec fn payload_bytes(t: Tag) -> Seq<u8>
    decreases t, 0int,
{
    match t {
        Tag::End => seq![],
        Tag::Byte(b) => seq![u8_of_i8(b)],
        Tag::Short(n) => be2(u16_of_i16(n)),
        Tag::Int(n) => be4(u32_of_i32(n)),
        Tag::Long(n) => be8(u64_of_i64(n)),
        Tag::Float(bits) => be4(bits),
        Tag::Double(bits) => be8(bits),
        Tag::ByteArray(v) => be4(v@.len() as u32) + v@,
        Tag::String(s) => be2(encode_utf8(s@).len() as u16) + encode_utf8(s@),
        Tag::List(items) => seq![list_elem_id(items)] + be4(items@.len() as u32) + list_bytes(
            items,
            0,
        ),
        Tag::Compound(entries) => entries_bytes(entries, 0) + seq![0u8],
        Tag::IntArray(v) => be4(v@.len() as u32) + ints_bytes(v@),
        Tag::LongArray(v) => be4(v@.len() as u32) + longs_bytes(v@),
    }
}

/// The concatenated payloads of the list elements from index `i` on.
pub open spec fn list_bytes(items: Vec<Tag>, i: int) -> Seq<u8>
    decreases items, items.len() - i,
{
    if i < 0 || i >= items.len() {
        seq![]
    } else {
        payload_bytes(items[i]) + list_bytes(items, i + 1)
    }
}

/// The bytes of the compound entries from index `i` on: for each entry the
/// value's discriminant, the name's 16-bit length and bytes, then the
/// value's payload. The closing end marker is not included here.
pub open spec fn entries_bytes(entries: Vec<(String, Tag)>, i: int) -> Seq<u8>
    decreases entries, entries.len() - i,
{
    if i < 0 || i >= entries.len() {
        seq![]
    } else {
        seq![entries[i].1.spec_id()] + be2(encode_utf8(entries[i].0@).len() as u16) + encode_utf8(
            entries[i].0@,
        ) + payload_bytes(entries[i].1) + entries_bytes(entries, i + 1)
    }
}

/// The bytes of a whole document: the bare end marker for an empty
/// document, or each entry of the root compound as a named tag.
pub open spec fn document_bytes(t: Tag) -> Seq<u8> {
    match t {
        Tag::End => seq![0u8],
        Tag::Compound(entries) => entries_bytes(entries, 0),
        _ => seq![],
    }
}

/// A value the document encoder accepts as a root.
pub open spec fn root_writable(t: Tag) -> bool {
    t is End || t is Compound
}

/// Every length in the tag fits the fixed-width fields the layout gives
/// it: names and string payloads in 16 bits, counts in a signed 32-bit
/// field. The encoder succeeds on exactly these values.
pub open spec fn tag_fits(t: Tag) -> bool
    decreases t, 0int,
{
    match t {
        Tag::End => true,
        Tag::Byte(_) => true,
        Tag::Short(_) => true,
        Tag::Int(_) => true,
        Tag::Long(_) => true,
        Tag::Float(_) => true,
        Tag::Double(_) => true,
        Tag::ByteArray(v) => v@.len() <= 0x7FFF_FFFF,
        Tag::String(s) => encode_utf8(s@).len() <= 0xFFFF,
        Tag::List(items) => items@.len() <= 0x7FFF_FFFF && list_fits(items, 0),
        Tag::Compound(entries) => entries_fit(entries, 0),
        Tag::IntArray(v) => v@.len() <= 0x7FFF_FFFF,
        Tag::LongArray(v) => v@.len() <= 0x7FFF_FFFF,
    }
}

/// The list elements from index `i` on all fit.
pub open spec fn list_fits(items: Vec<Tag>, i: int) -> bool
    decreases items, items.len() - i,
{
    if i < 0 || i >= items.len() {
        true
    } else {
        tag_fits(items[i]) && list_fits(items, i + 1)
    }
}

/// The compound entries from index `i` on fit, names included.
pub open spec fn entries_fit(entries: Vec<(String, Tag)>, i: int) -> bool
    decreases entries, entries.len() - i,
{
    if i < 0 || i >= entries.len() {
        true
    } else {
        encode_utf8(entries[i].0@).len() <= 0xFFFF && tag_fits(entries[i].1) && entries_fit(
            entries,
            i + 1,
        )
    }
}

pub proof fn lemma_list_fits_pointwise(items: Vec<Tag>, i: int)
    requires
        0 <= i <= items.len(),
    ensures
        list_fits(items, i) <==> (forall|j: int| i <= j < items.len() ==> tag_fits(#[trigger] items[j])),
    decreases items.len() - i,
{
    if i < items.len() {
        lemma_list_fits_pointwise(items, i + 1);
    }
}

pub proof fn lemma_entries_fit_pointwise(entries: Vec<(String, Tag)>, i: int)
    requires
        0 <= i <= entries.len(),
    ensures
        entries_fit(entries, i) <==> (forall|j: int|
            i <= j < entries.len() ==> encode_utf8(#[trigger] entries[j].0@).len() <= 0xFFFF
                && tag_fits(entries[j].1)),
    decreases entries.len() - i,
{
    if i < entries.len() {
        lemma_entries_fit_pointwise(entries, i + 1);
    }
}

/// The data-model invariant of a tree value: every list is homogeneous,
/// each element carrying the single discriminant the list's header
/// records, and every compound keys its entries uniquely. The decoder
/// guarantees this of every tree it hands back; a hand-built tree that
/// breaks it is a caller error the encoder does not police.
pub open spec fn tag_wf(t: Tag) -> bool
    decreases t, 0int,
{
    match t {
        Tag::List(items) => list_wf(items, 0),
        Tag::Compound(entries) => keys_unique(entries) && entries_wf(entries, 0),
        _ => true,
    }
}

/// The list elements from index `i` on carry the list's one element
/// discriminant and are themselves well formed.
pub open spec fn list_wf(items: Vec<Tag>, i: int) -> bool
    decreases items, items.len() - i,
{
    if i < 0 || i >= items.len() {
        true
    } else {
        items[i].spec_id() == list_elem_id(items) && tag_wf(items[i]) && list_wf(items, i + 1)
    }
}

/// The compound entries from index `i` on hold well-formed values.
pub open spec fn entries_wf(entries: Vec<(String, Tag)>, i: int) -> bool
    decreases entries, entries.len() - i,
{
    if i < 0 || i >= entries.len() {
        true
    } else {
        tag_wf(entries[i].1) && entries_wf(entries, i + 1)
    }
}

/// The wire names of the compound entries, in order, as UTF-8 bytes.
pub open spec fn names_of(entries: Vec<(String, Tag)>) -> Seq<Seq<u8>> {
    Seq::new(entries@.len() as nat, |i: int| encode_utf8(entries[i].0@))
}

/// No two entries of the compound share a name.
pub open spec fn keys_unique(entries: Vec<(String, Tag)>) -> bool {
    forall|i: int, j: int|
        0 <= i < j < entries.len() ==> #[trigger] entries[i].0@ != #[trigger] entries[j].0@
}

pub proof fn lemma_list_wf_pointwise(items: Vec<Tag>, i: int)
    requires
        0 <= i <= items.len(),
    ensures
        list_wf(items, i) <==> (forall|j: int|
            i <= j < items.len() ==> (#[trigger] items[j]).spec_id() == list_elem_id(items)
                && tag_wf(items[j])),
    decreases items.len() - i,
{
    if i < items.len() {
        lemma_list_wf_pointwise(items, i + 1);
    }
}

pub proof fn lemma_entries_wf_pointwise(entries: Vec<(String, Tag)>, i: int)
    requires
        0 <= i <= entries.len(),
    ensures
        entries_wf(entries, i) <==> (forall|j: int|
            i <= j < entries.len() ==> tag_wf(#[trigger] entries[j].1)),
    decreases entries.len() - i,
{
    if i < entries.len() {
        lemma_entries_wf_pointwise(entries, i + 1);
    }
}

/// Pushing an element onto a list appends its payload to the list bytes.
pub proof fn lemma_list_bytes_push(v: Vec<Tag>, w: Vec<Tag>, t: Tag, i: int)
    requires
        w@ == v@.push(t),
        0 <= i <= v.len(),
    ensures
        list_bytes(w, i) == list_bytes(v, i) + payload_bytes(t),
    decreases v.len() - i,
{
    if i < v.len() {
        assert(w[i] == v[i]);
        lemma_list_bytes_push(v, w, t, i + 1);
        assert(list_bytes(w, i) =~= list_bytes(v, i) + payload_bytes(t));
    } else {
        assert(w.len() == v.len() + 1);
        assert(w[i] == t);
        assert(list_bytes(w, i + 1) == Seq::<u8>::empty());
        assert(list_bytes(v, i) == Seq::<u8>::empty());
        assert(list_bytes(w, i) =~= list_bytes(v, i) + payload_bytes(t));
    }
}

/// Pushing an entry onto a compound appends its named form to the bytes.
pub proof fn lemma_entries_bytes_push(
    v: Vec<(String, Tag)>,
    w: Vec<(String, Tag)>,
    name: String,
    t: Tag,
    i: int,
)
    requires
        w@ == v@.push((name, t)),
        0 <= i <= v.len(),
    ensures
        entries_bytes(w, i) == entries_bytes(v, i) + seq![t.spec_id()] + be2(
            encode_utf8(name@).len() as u16,
        ) + encode_utf8(name@) + payload_bytes(t),
    decreases v.len() - i,
{
    if i < v.len() {
        assert(w[i] == v[i]);
        lemma_entries_bytes_push(v, w, name, t, i + 1);
        assert(entries_bytes(w, i) =~= entries_bytes(v, i) + seq![t.spec_id()] + be2(
            encode_utf8(name@).len() as u16,
        ) + encode_utf8(name@) + payload_bytes(t));
    } else {
        assert(w.len() == v.len() + 1);
        assert(w[i] == (name, t));
        assert(entries_bytes(w, i + 1) == Seq::<u8>::empty());
        assert(entries_bytes(v, i) == Seq::<u8>::empty());
        assert(entries_bytes(w, i) =~= entries_bytes(v, i) + seq![t.spec_id()] + be2(
            encode_utf8(name@).len() as u16,
        ) + encode_utf8(name@) + payload_bytes(t));
    }
}

/// Pushing an integer appends its four bytes.
pub proof fn lemma_ints_bytes_push(l: Seq<i32>, v: i32)
    ensures
        ints_bytes(l.push(v)) == ints_bytes(l) + be4(u32_of_i32(v)),
    decreases l.len(),
{
    if l.len() == 0 {
        assert(l =~= Seq::<i32>::empty());
        assert(l.push(v)[0] == v);
        assert(l.push(v).drop_first() =~= Seq::<i32>::empty());
        assert(ints_bytes(Seq::<i32>::empty()) == Seq::<u8>::empty());
        assert(ints_bytes(l.push(v)) =~= ints_bytes(l) + be4(u32_of_i32(v)));
    } else {
        assert(l.push(v)[0] == l[0]);
        assert(l.push(v).drop_first() =~= l.drop_first().push(v));
        lemma_ints_bytes_push(l.drop_first(), v);
        assert(ints_bytes(l.push(v)) =~= ints_bytes(l) + be4(u32_of_i32(v)));
    }
}

/// Pushing a long appends its eight bytes.
pub proof fn lemma_longs_bytes_push(l: Seq<i64>, v: i64)
    ensures
        longs_bytes(l.push(v)) == longs_bytes(l) + be8(u64_of_i64(v)),
    decreases l.len(),
{
    if l.len() == 0 {
        assert(l =~= Seq::<i64>::empty());
        assert(l.push(v)[0] == v);
        assert(l.push(v).drop_first() =~= Seq::<i64>::empty());
        assert(longs_bytes(Seq::<i64>::empty()) == Seq::<u8>::empty());
        assert(longs_bytes(l.push(v)) =~= longs_bytes(l) + be8(u64_of_i64(v)));
    } else {
        assert(l.push(v)[0] == l[0]);
        assert(l.push(v).drop_first() =~= l.drop_first().push(v));
        lemma_longs_bytes_push(l.drop_first(), v);
        assert(longs_bytes(l.push(v)) =~= longs_bytes(l) + be8(u64_of_i64(v)));
    }
}

/// How many bytes the payload of a tag with discriminant `id` occupies at
/// the head of `b`, parsing at most `depth` further levels of nesting;
/// `None` when the head of `b` is not such a payload.
pub open spec fn payload_len(b: Seq<u8>, id: u8, depth: int) -> Option<int>
    decreases depth, b.len(), 0int,
{
    if id == 0 {
        Some(0)
    } else if id == 1 {
        if b.len() >= 1 {
            Some(1)
        } else {
            None
        }
    } else if id == 2 {
        if b.len() >= 2 {
            Some(2)
        } else {
            None
        }
    } else if id == 3 || id == 5 {
        if b.len() >= 4 {
            Some(4)
        } else {
            None
        }
    } else if id == 4 || id == 6 {
        if b.len() >= 8 {
            Some(8)
        } else {
            None
        }
    } else if id == 7 {
        if b.len() >= 4 {
            let n = i32_of_u32(be4_val(b.take(4))) as int;
            if 0 <= n && 4 + n <= b.len() {
                Some(4 + n)
            } else {
                None
            }
        } else {
            None
        }
    } else if id == 8 {
        if b.len() >= 2 {
            let n = be2_val(b.take(2)) as int;
            if 2 + n <= b.len() && valid_utf8(b.subrange(2, 2 + n)) {
                Some(2 + n)
            } else {
                None
            }
        } else {
            None
        }
    } else if id == 9 {
        if depth <= 0 {
            None
        } else if b.len() >= 5 {
            let eid = b[0];
            let n = i32_of_u32(be4_val(b.subrange(1, 5))) as int;
            if eid > 12 || n < 0 {
                None
            } else if n == 0 && eid != 0 {
                None
            } else {
                match list_elems_len(b.skip(5), eid, n, depth - 1) {
                    None => None,
                    Some(k) => if 0 <= k && 5 + k <= b.len() {
                        Some(5 + k)
                    } else {
                        None
                    },
                }
            }
        } else {
            None
        }
    } else if id == 10 {
        if depth <= 0 {
            None
        } else {
            match entries_len(b, depth - 1, Seq::empty()) {
                None => None,
                Some(k) => if 0 <= k && k <= b.len() {
                    Some(k)
                } else {
                    None
                },
            }
        }
    } else if id == 11 {
        if b.len() >= 4 {
            let n = i32_of_u32(be4_val(b.take(4))) as int;
            if 0 <= n && 4 + 4 * n <= b.len() {
                Some(4 + 4 * n)
            } else {
                None
            }
        } else {
            None
        }
    } else if id == 12 {
        if b.len() >= 4 {
            let n = i32_of_u32(be4_val(b.take(4))) as int;
            if 0 <= n && 4 + 8 * n <= b.len() {
                Some(4 + 8 * n)
            } else {
                None
            }
        } else {
            None
        }
    } else {
        None
    }
}

/// How many bytes `n` consecutive unnamed payloads of discriminant `eid`
/// occupy at the head of `b`.
pub open spec fn list_elems_len(b: Seq<u8>, eid: u8, n: int, depth: int) -> Option<int>
    decreases depth, b.len(), n,
{
    if n <= 0 {
        Some(0)
    } else {
        match payload_len(b, eid, depth) {
            None => None,
            Some(k) => if 0 <= k && k <= b.len() {
                match list_elems_len(b.skip(k), eid, n - 1, depth) {
                    None => None,
                    Some(m) => if 0 <= m {
                        Some(k + m)
                    } else {
                        None
                    },
                }
            } else {
                None
            },
        }
    }
}

/// How many bytes a run of named compound entries occupies at the head of
/// `b`, the terminating end marker included; `seen` holds the UTF-8 names
/// already taken in this compound, and a repeated name is rejected, since
/// the data model keys a compound uniquely.
pub open spec fn entries_len(b: Seq<u8>, depth: int, seen: Seq<Seq<u8>>) -> Option<int>
    decreases depth, b.len(), 0int,
{
    if b.len() < 1 {
        None
    } else if b[0] == 0 {
        Some(1)
    } else if b[0] > 12 {
        None
    } else if b.len() >= 3 {
        let nl = be2_val(b.subrange(1, 3)) as int;
        if 3 + nl <= b.len() && valid_utf8(b.subrange(3, 3 + nl)) {
            if seen.contains(b.subrange(3, 3 + nl)) {
                None
            } else {
                match payload_len(b.skip(3 + nl), b[0], depth) {
                    None => None,
                    Some(k) => if 0 <= k && 3 + nl + k <= b.len() {
                        match entries_len(
                            b.skip(3 + nl + k),
                            depth,
                            seen.push(b.subrange(3, 3 + nl)),
                        ) {
                            None => None,
                            Some(m) => if 0 <= m {
                                Some(3 + nl + k + m)
                            } else {
                                None
                            },
                        }
                    } else {
                        None
                    },
                }
            }
        } else {
            None
        }
    } else {
        None
    }
}

/// How many bytes the document at the head of `b` occupies: the bare end
/// marker, or a single named root tag; `None` when `b` holds no document.
pub open spec fn document_len(b: Seq<u8>, depth: int) -> Option<int> {
    if b.len() < 1 {
        None
    } else if b[0] == 0 {
        Some(1)
    } else if b[0] > 12 {
        None
    } else if b.len() >= 3 {
        let nl = be2_val(b.subrange(1, 3)) as int;
        if 3 + nl <= b.len() && valid_utf8(b.subrange(3, 3 + nl)) {
            match payload_len(b.skip(3 + nl), b[0], depth) {
                None => None,
                Some(k) => if 0 <= k && 3 + nl + k <= b.len() {
                    Some(3 + nl + k)
                } else {
                    None
                },
            }
        } else {
            None
        }
    } else {
        None
    }
}

pub proof fn lemma_payload_len_bounds(b: Seq<u8>, id: u8, depth: int)
    ensures
        payload_len(b, id, depth) matches Some(k) ==> 0 <= k <= b.len(),
{
}

pub proof fn lemma_list_elems_len_bounds(b: Seq<u8>, eid: u8, n: int, depth: int)
    ensures
        list_elems_len(b, eid, n, depth) matches Some(k) ==> 0 <= k <= b.len(),
    decreases depth, b.len(), n,
{
    if n > 0 {
        match payload_len(b, eid, depth) {
            None => {},
            Some(k) => {
                if 0 <= k && k <= b.len() {
                    lemma_list_elems_len_bounds(b.skip(k), eid, n - 1, depth);
                }
            },
        }
    }
}

pub proof fn lemma_entries_len_bounds(b: Seq<u8>, depth: int, seen: Seq<Seq<u8>>)
    ensures
        entries_len(b, depth, seen) matches Some(k) ==> 1 <= k <= b.len(),
    decreases depth, b.len(), 0int,
{
    if b.len() >= 1 && b[0] != 0 && b[0] <= 12 && b.len() >= 3 {
        let nl = be2_val(b.subrange(1, 3)) as int;
        if 3 + nl <= b.len() && valid_utf8(b.subrange(3, 3 + nl)) && !seen.contains(
            b.subrange(3, 3 + nl),
        ) {
            match payload_len(b.skip(3 + nl), b[0], depth) {
                None => {},
                Some(k) => {
                    if 0 <= k && 3 + nl + k <= b.len() {
                        lemma_entries_len_bounds(
                            b.skip(3 + nl + k),
                            depth,
                            seen.push(b.subrange(3, 3 + nl)),
                        );
                    }
                },
            }
        }
    }
}

pub proof fn lemma_document_len_bounds(b: Seq<u8>, depth: int)
    ensures
        document_len(b, depth) matches Some(k) ==> 1 <= k <= b.len(),
{
    if b.len() >= 3 && b[0] != 0 && b[0] <= 12 {
        let nl = be2_val(b.subrange(1, 3)) as int;
        if 3 + nl <= b.len() && valid_utf8(b.subrange(3, 3 + nl)) {
            lemma_payload_len_bounds(b.skip(3 + nl), b[0], depth);
        }
    }
}

/// Law: a discriminant byte outside the valid range is a malformed-input
/// rejection wherever a tag header may stand — as a payload's own
/// discriminant, at the document root, at a compound member's header, and
/// as a list header's element type — never an unchecked failure.
pub proof fn lemma_bad_discriminant_rejected(b: Seq<u8>, id: u8, depth: int, seen: Seq<Seq<u8>>)
    ensures
        id > 12 ==> payload_len(b, id, depth) is None,
        b.len() >= 1 && b[0] > 12 ==> document_len(b, depth) is None,
        b.len() >= 1 && b[0] > 12 ==> entries_len(b, depth, seen) is None,
        b.len() >= 1 && b[0] > 12 ==> payload_len(b, 9, depth) is None,
{
}

/// Law: a tree value produced by decoding a byte stream re-encodes to
/// exactly the bytes the decode consumed. The hypotheses are what the
/// decoder's contract gives for every accepted stream and every tree it
/// hands back; the conclusion is that the bytes the encoder's contract
/// then appends are the consumed prefix itself, whole and byte for byte.
pub proof fn lemma_document_round_trip(b: Seq<u8>, t: Tag, k: int)
    requires
        document_len(b, MAX_DEPTH as int) == Some(k),
        document_bytes(t) == b.take(k),
        tag_fits(t),
        root_writable(t),
    ensures
        1 <= k <= b.len(),
        document_bytes(t).len() == k,
        document_bytes(t) == b.take(k),
{
    lemma_document_len_bounds(b, MAX_DEPTH as int);
}

} // verus!
