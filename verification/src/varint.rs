//! The variable-length integer encoding: seven value bits per byte, least
//! significant group first, continuation bit set on every byte but the last.
use vstd::prelude::*;

use crate::nums::u32_of_i32;

verus! {

/// The bytes that encode the 32-bit pattern `n`: base-128 digits of `n`,
/// least significant first, each but the last carrying the continuation bit.
pub open spec fn varint_bytes(n: u32) -> Seq<u8>
    decreases n,
{
    if n < 128 {
        seq![n as u8]
    } else {
        seq![(((n as int) % 128) + 128) as u8] + varint_bytes(((n as int) / 128) as u32)
    }
}

/// The raw value and consumed byte count of a varint at the head of `b`,
/// reading at most `groups_left` more groups; `None` when the bytes run out
/// or the group budget is exhausted before a terminating byte.
pub open spec fn varint_parse_rec(b: Seq<u8>, groups_left: int) -> Option<(int, int)>
    decreases groups_left,
{
    if groups_left <= 0 {
        None
    } else if b.len() == 0 {
        None
    } else {
        let g = (b[0] as int) % 128;
        if b[0] < 128 {
            Some((g, 1))
        } else {
            match varint_parse_rec(b.skip(1), groups_left - 1) {
                None => None,
                Some((v, k)) => Some((g + 128 * v, k + 1)),
            }
        }
    }
}

/// The 32-bit value and consumed byte count of the varint at the head of
/// `b`, with the five-group ceiling a 32-bit value requires; group bits
/// beyond the thirty-second are discarded, as the accumulator is 32 bits.
pub open spec fn varint_parse(b: Seq<u8>) -> Option<(u32, int)> {
    match varint_parse_rec(b, 5) {
        None => None,
        Some((v, k)) => Some(((v % 0x1_0000_0000) as u32, k)),
    }
}

/// The head of `b` is a varint truncated by the end of the stream.
pub open spec fn varint_eof(b: Seq<u8>) -> bool {
    b.len() < 5 && (forall|i: int| 0 <= i < b.len() ==> b[i] >= 128)
}

/// The head of `b` keeps its continuation bit past the five-group ceiling.
pub open spec fn varint_too_long(b: Seq<u8>) -> bool {
    b.len() >= 5 && (forall|i: int| 0 <= i < 5 ==> b[i] >= 128)
}

/// The number of bytes the encoder produces for the 32-bit pattern `n`:
/// the smallest group count whose seven-bit groups cover the value.
pub open spec fn varint_size(n: u32) -> int {
    if n < 0x80 {
        1
    } else if n < 0x4000 {
        2
    } else if n < 0x20_0000 {
        3
    } else if n < 0x1000_0000 {
        4
    } else {
        5
    }
}

/// The number of bytes a varlong encoder would produce for `n` after
/// sign-extension to 64 bits: negative values keep all ten groups.
pub open spec fn varlong_size(n: i32) -> int {
    if n < 0 {
        10
    } else {
        varint_size(n as u32)
    }
}

pub proof fn lemma_varint_bytes_len(n: u32)
    ensures
        varint_bytes(n).len() == varint_size(n),
        1 <= varint_bytes(n).len() <= 5,
    decreases n,
{
    if n >= 128 {
        lemma_varint_bytes_len(((n as int) / 128) as u32);
    }
}

/// Structural facts about the bounded varint parser: a parsed head lies
/// within both the stream and the group budget and ends at the first byte
/// without a continuation bit; a failed parse means every visible byte of
/// the budget kept its continuation bit.
pub proof fn lemma_varint_parse_rec_props(b: Seq<u8>, groups_left: int)
    requires
        groups_left >= 0,
    ensures
        match varint_parse_rec(b, groups_left) {
            Some(vk) => {
                &&& 1 <= vk.1 <= groups_left
                &&& vk.1 <= b.len()
                &&& 0 <= vk.0
                &&& b[vk.1 - 1] < 128
                &&& forall|i: int| 0 <= i < vk.1 - 1 ==> b[i] >= 128
            },
            None => forall|i: int|
                0 <= i < groups_left && i < b.len() ==> b[i] >= 128,
        },
    decreases groups_left,
{
    if groups_left > 0 && b.len() > 0 && b[0] >= 128 {
        lemma_varint_parse_rec_props(b.skip(1), groups_left - 1);
        match varint_parse_rec(b.skip(1), groups_left - 1) {
            Some((v, k)) => {
                assert(b.skip(1)[k - 1] == b[k]);
                assert forall|i: int| 0 <= i < k implies b[i] >= 128 by {
                    if i > 0 {
                        assert(b.skip(1)[i - 1] == b[i]);
                    }
                }
            },
            None => {
                assert forall|i: int|
                    0 <= i < groups_left && i < b.len() implies b[i] >= 128 by {
                    if i > 0 {
                        assert(b.skip(1)[i - 1] == b[i]);
                    }
                }
            },
        }
    }
}

/// Parsing the encoding of `n` (with anything after it) yields exactly `n`
/// and consumes exactly the encoded bytes, for any sufficient group budget.
pub proof fn lemma_varint_encode_parse_rec(n: u32, groups_left: int, rest: Seq<u8>)
    requires
        varint_bytes(n).len() <= groups_left,
    ensures
        varint_parse_rec(varint_bytes(n) + rest, groups_left) == Some(
            (n as int, varint_bytes(n).len() as int),
        ),
    decreases n,
{
    let b = varint_bytes(n) + rest;
    if n < 128 {
        assert(b[0] == n as u8);
    } else {
        let m = ((n as int) / 128) as u32;
        lemma_varint_bytes_len(n);
        lemma_varint_bytes_len(m);
        assert(b[0] == (((n as int) % 128) + 128) as u8);
        assert(b.skip(1) =~= varint_bytes(m) + rest);
        lemma_varint_encode_parse_rec(m, groups_left - 1, rest);
        assert((n as int) % 128 + 128 * ((n as int) / 128) == n as int) by {
            vstd::arithmetic::div_mod::lemma_fundamental_div_mod(n as int, 128);
        }
    }
}

/// Law: for every 32-bit signed integer, decoding the varint encoding of
/// the value yields the value back, consuming exactly the encoded bytes and
/// no byte that follows them, and the size query names that byte count.
pub proof fn lemma_varint_round_trip(n: i32, rest: Seq<u8>)
    ensures
        varint_parse(varint_bytes(u32_of_i32(n)) + rest) == Some(
            (u32_of_i32(n), varint_bytes(u32_of_i32(n)).len() as int),
        ),
        varint_bytes(u32_of_i32(n)).len() == varint_size(u32_of_i32(n)),
{
    let u = u32_of_i32(n);
    lemma_varint_bytes_len(u);
    lemma_varint_encode_parse_rec(u, 5, rest);
}

} // verus!
