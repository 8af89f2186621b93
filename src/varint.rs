//! The wire formats of integers: base-128 variable-length groups, least
//! significant group first, and fixed-width little-endian bytes.
use vstd::prelude::*;

verus! {

/// Why a stream could not be decoded.
#[derive(Debug, Clone, Copy, PartialEq, Eq, Structural)]
pub enum DecodeError {
    /// Fewer bytes are left than the encoding needs.
    Truncated,
    /// A variable-length integer has its continuation bit set on the last
    /// group its width allows, or holds a value beyond that width.
    MalformedVarint,
    /// The bytes are well framed but stand for no value of the expected type
    /// (a boolean byte other than 0 or 1, text that is not UTF-8).
    InvalidValue,
}

/// Largest number of groups a 32-bit value takes.
pub const MAX_GROUPS_32: usize = 5;

/// Largest number of groups a 64-bit value takes.
pub const MAX_GROUPS_64: usize = 10;

/// Base-128 encoding of `v`: the low seven bits first, with bit 7 set on every
/// byte but the last.
pub open spec fn varint_bytes(v: nat) -> Seq<u8>
    decreases v,
{
    if v < 128 {
        seq![v as u8]
    } else {
        seq![(v % 128 + 128) as u8] + varint_bytes(v / 128)
    }
}

/// Reads one variable-length integer from the front of `s`, allowing at most
/// `groups` bytes; on success gives the value and the number of bytes read.
pub open spec fn parse_varint(s: Seq<u8>, groups: nat) -> Result<(nat, nat), DecodeError>
    decreases groups,
{
    if groups == 0 {
        Err(DecodeError::MalformedVarint)
    } else if s.len() == 0 {
        Err(DecodeError::Truncated)
    } else if s[0] < 128 {
        Ok((s[0] as nat, 1))
    } else {
        match parse_varint(s.drop_first(), (groups - 1) as nat) {
            Ok((v, n)) => Ok((((s[0] - 128) + 128 * v) as nat, n + 1)),
            Err(e) => Err(e),
        }
    }
}

/// `parse_varint`, where a value above `max` is malformed as well.
pub open spec fn parse_varint_upto(s: Seq<u8>, groups: nat, max: nat) -> Result<(nat, nat), DecodeError> {
    match parse_varint(s, groups) {
        Ok((v, n)) => if v <= max {
            Ok((v, n))
        } else {
            Err(DecodeError::MalformedVarint)
        },
        Err(e) => Err(e),
    }
}

/// Reads a 32-bit variable-length integer.
pub open spec fn parse_var32(s: Seq<u8>) -> Result<(nat, nat), DecodeError> {
    parse_varint_upto(s, MAX_GROUPS_32 as nat, u32::MAX as nat)
}

/// Reads a 64-bit variable-length integer.
pub open spec fn parse_var64(s: Seq<u8>) -> Result<(nat, nat), DecodeError> {
    parse_varint_upto(s, MAX_GROUPS_64 as nat, u64::MAX as nat)
}

/// `width` bytes of `v`, least significant first.
pub open spec fn le_bytes(v: nat, width: nat) -> Seq<u8>
    decreases width,
{
    if width == 0 {
        seq![]
    } else {
        seq![(v % 256) as u8] + le_bytes(v / 256, (width - 1) as nat)
    }
}

/// `128` to the power `k`.
pub open spec fn pow128(k: nat) -> nat
    decreases k,
{
    if k == 0 {
        1
    } else {
        128 * pow128((k - 1) as nat)
    }
}

/// A value below `128^k` takes at most `k` groups.
pub proof fn lemma_varint_len(v: nat, k: nat)
    requires
        k >= 1,
        v < pow128(k),
    ensures
        1 <= varint_bytes(v).len() <= k,
    decreases k,
{
    if v >= 128 {
        assert(k >= 2) by {
            if k == 1 {
                assert(pow128(1) == 128 * pow128(0));
            }
        }
        lemma_varint_len(v / 128, (k - 1) as nat);
    }
}

/// 32-bit values take at most five groups, 64-bit ones at most ten.
pub proof fn lemma_varint_width(v: nat)
    ensures
        v <= u32::MAX ==> varint_bytes(v).len() <= MAX_GROUPS_32,
        v <= u64::MAX ==> varint_bytes(v).len() <= MAX_GROUPS_64,
        varint_bytes(v).len() >= 1,
{
    reveal_with_fuel(pow128, 11);
    if v <= u32::MAX {
        lemma_varint_len(v, 5);
    }
    if v <= u64::MAX {
        lemma_varint_len(v, 10);
    }
}

/// Values below 128 take one byte, with the high bit clear; values in
/// `[128, 16384)` take exactly two.
pub proof fn lemma_varint_small(v: nat)
    ensures
        v < 128 ==> varint_bytes(v) == seq![v as u8] && (v as u8) < 128,
        128 <= v < 16384 ==> varint_bytes(v).len() == 2 && varint_bytes(v)[0] >= 128
            && varint_bytes(v)[1] < 128,
{
    if 128 <= v < 16384 {
        assert(varint_bytes(v / 128) == seq![(v / 128) as u8]);
    }
}

/// The groups read back to the value, whatever bytes follow them.
pub proof fn lemma_varint_round_trip(v: nat, rest: Seq<u8>, groups: nat)
    requires
        varint_bytes(v).len() <= groups,
    ensures
        parse_varint(varint_bytes(v) + rest, groups) == Ok::<(nat, nat), DecodeError>(
            (v, varint_bytes(v).len()),
        ),
    decreases v,
{
    let s = varint_bytes(v) + rest;
    if v < 128 {
        assert(s[0] == v as u8);
    } else {
        lemma_varint_round_trip(v / 128, rest, (groups - 1) as nat);
        assert(s.drop_first() =~= varint_bytes(v / 128) + rest);
        assert(s[0] == (v % 128 + 128) as u8);
    }
}

/// A 32-bit or 64-bit value reads back at its own width.
pub proof fn lemma_var_width_round_trip(v: nat, rest: Seq<u8>)
    ensures
        v <= u32::MAX ==> parse_var32(varint_bytes(v) + rest) == Ok::<(nat, nat), DecodeError>(
            (v, varint_bytes(v).len()),
        ),
        v <= u64::MAX ==> parse_var64(varint_bytes(v) + rest) == Ok::<(nat, nat), DecodeError>(
            (v, varint_bytes(v).len()),
        ),
{
    lemma_varint_width(v);
    if v <= u32::MAX {
        lemma_varint_round_trip(v, rest, MAX_GROUPS_32 as nat);
    }
    if v <= u64::MAX {
        lemma_varint_round_trip(v, rest, MAX_GROUPS_64 as nat);
    }
}

} // verus!
