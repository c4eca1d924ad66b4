//! Variable-length integers: base-128 digits, the least significant first,
//! each in one byte whose high bit says that another digit follows.
//!
//! The bytes are written and read by `prost`; this module states what it
//! writes and reads, and proves that reading undoes writing.

use vstd::prelude::*;

verus! {

/// The error of `prost`'s decoding functions. Nothing inside it is read here.
#[verifier::external_type_specification]
#[verifier::external_body]
pub struct ExProstDecodeError(prost::DecodeError);

/// The bytes of an integer: seven bits to a byte from the low end, the high
/// bit set on every byte but the last.
pub open spec fn varint(v: nat) -> Seq<u8>
    decreases v,
{
    if v < 0x80 {
        seq![v as u8]
    } else {
        seq![(v % 0x80 + 0x80) as u8] + varint(v / 0x80)
    }
}

/// Reads an integer from the front of `s` in at most `room` bytes: its value
/// and the number of bytes it takes. With one byte of room left, the tenth
/// of a 64-bit integer, that byte may hold one bit only.
pub open spec fn varint_scan(s: Seq<u8>, room: nat) -> Option<(nat, nat)>
    decreases room,
{
    if room == 0 || s.len() == 0 {
        None
    } else if s[0] < 0x80 {
        if room == 1 && s[0] >= 2 {
            None
        } else {
            Some((s[0] as nat, 1nat))
        }
    } else {
        match varint_scan(s.skip(1), (room - 1) as nat) {
            Some((v, w)) => Some(((s[0] - 0x80) as nat + 0x80 * v, w + 1)),
            None => None,
        }
    }
}

/// Reads a 64-bit integer from the front of `s`: its value and the bytes
/// that follow it. There is none where the bytes end before the integer
/// does, or where it takes more than ten bytes or more than 64 bits.
pub open spec fn parse_varint(s: Seq<u8>) -> Option<(u64, Seq<u8>)> {
    match varint_scan(s, 10) {
        Some((v, w)) => Some((v as u64, s.skip(w as int))),
        None => None,
    }
}

/// The values that fit in `room` bytes of a 64-bit integer's last bytes.
pub open spec fn varint_cap(room: nat) -> nat
    decreases room,
{
    if room <= 1 {
        2
    } else {
        0x80 * varint_cap((room - 1) as nat)
    }
}

/// Ten bytes hold exactly the 64-bit integers.
pub proof fn varint_cap_ten()
    ensures
        varint_cap(10) == 0x1_0000_0000_0000_0000,
{
    reveal_with_fuel(varint_cap, 11);
}

/// What a scan reads takes at least one byte, no more than there is room and
/// bytes for, and its value fits the room.
pub proof fn varint_scan_bounds(s: Seq<u8>, room: nat)
    ensures
        match varint_scan(s, room) {
            Some((v, w)) => 1 <= w <= room && w <= s.len() && v < varint_cap(room),
            None => true,
        },
    decreases room,
{
    if room == 0 || s.len() == 0 {
    } else if s[0] < 0x80 {
        if room >= 2 {
            varint_cap_grows((room - 1) as nat);
        }
    } else {
        varint_scan_bounds(s.skip(1), (room - 1) as nat);
        if room == 1 {
            assert(varint_scan(s.skip(1), 0) is None);
        }
    }
}

/// Every room holds at least one bit.
pub proof fn varint_cap_grows(room: nat)
    ensures
        varint_cap(room) >= 2,
    decreases room,
{
    if room > 1 {
        varint_cap_grows((room - 1) as nat);
    }
}

/// What is read from the front of a buffer is a 64-bit value, and what
/// follows it is a proper end of the buffer.
pub proof fn parse_varint_rest(s: Seq<u8>)
    ensures
        match parse_varint(s) {
            Some((v, rest)) => {
                &&& rest.len() < s.len()
                &&& s.len() - rest.len() <= 10
                &&& rest == s.skip(s.len() - rest.len())
                &&& varint_scan(s, 10) == Some((v as nat, (s.len() - rest.len()) as nat))
            },
            None => true,
        },
{
    varint_scan_bounds(s, 10);
    varint_cap_ten();
}

/// What is read from the front of a buffer is read from the front of every
/// longer one.
pub proof fn varint_scan_extends(s: Seq<u8>, more: Seq<u8>, room: nat)
    ensures
        varint_scan(s, room) is Some ==> varint_scan(s + more, room) == varint_scan(s, room),
    decreases room,
{
    if room > 0 && s.len() > 0 {
        assert((s + more)[0] == s[0]);
        if s[0] >= 0x80 {
            assert((s + more).skip(1) =~= s.skip(1) + more);
            varint_scan_extends(s.skip(1), more, (room - 1) as nat);
        }
    }
}

/// An integer that is read from a buffer is read from every longer one, and
/// what was added follows what followed.
pub proof fn parse_varint_extends(s: Seq<u8>, more: Seq<u8>)
    ensures
        match parse_varint(s) {
            Some((v, rest)) => parse_varint(s + more) == Some((v, rest + more)),
            None => true,
        },
{
    varint_scan_extends(s, more, 10);
    varint_scan_bounds(s, 10);
    match varint_scan(s, 10) {
        Some((v, w)) => {
            assert((s + more).skip(w as int) =~= s.skip(w as int) + more);
        },
        None => {},
    }
}

/// An integer takes between one and ten bytes.
pub proof fn varint_len_bounds(v: nat, room: nat)
    requires
        1 <= room,
        v < varint_cap(room),
    ensures
        1 <= varint(v).len() <= room,
    decreases room,
{
    if v >= 0x80 {
        assert(room >= 2);
        varint_len_bounds(v / 0x80, (room - 1) as nat);
    }
}

/// Scanning the bytes of an integer, whatever follows them, gives the
/// integer back and stops where its bytes end.
pub proof fn varint_scan_inverts(v: nat, rest: Seq<u8>, room: nat)
    requires
        1 <= room,
        v < varint_cap(room),
    ensures
        varint_scan(varint(v) + rest, room) == Some((v, varint(v).len())),
    decreases room,
{
    let s = varint(v) + rest;
    if v < 0x80 {
        assert(s[0] == v as u8);
    } else {
        assert(room >= 2);
        let high = v / 0x80;
        assert(s[0] == (v % 0x80 + 0x80) as u8);
        assert(s.skip(1) =~= varint(high) + rest);
        varint_scan_inverts(high, rest, (room - 1) as nat);
    }
}

/// Reading undoes writing: after the bytes of a 64-bit integer the reader
/// returns the integer and what followed.
pub proof fn parse_varint_inverts(v: u64, rest: Seq<u8>)
    ensures
        parse_varint(varint(v as nat) + rest) == Some((v, rest)),
        1 <= varint(v as nat).len() <= 10,
{
    varint_cap_ten();
    varint_scan_inverts(v as nat, rest, 10);
    varint_len_bounds(v as nat, 10);
    let s = varint(v as nat) + rest;
    assert(s.skip(varint(v as nat).len() as int) =~= rest);
}

/// Appends the bytes of `value` to `buf`, by `prost::encoding::encode_varint`:
/// the buffer grows by exactly those bytes.
#[verifier::external_body]
pub(crate) fn put_varint(value: u64, buf: &mut Vec<u8>)
    ensures
        final(buf)@ == old(buf)@ + varint(value as nat),
{
    prost::encoding::encode_varint(value, buf)
}

/// Reads an integer from the front of `buf`, by
/// `prost::encoding::decode_varint`: the value and the rest of the buffer
/// where the front holds an integer, an error where it holds none.
#[verifier::external_body]
pub(crate) fn take_varint<'a>(buf: &'a [u8]) -> (res: Result<(u64, &'a [u8]), prost::DecodeError>)
    ensures
        match parse_varint(buf@) {
            Some((value, rest)) => res is Ok && res.unwrap().0 == value && res.unwrap().1@ == rest,
            None => res is Err,
        },
{
    let mut rest = buf;
    let value = prost::encoding::decode_varint(&mut rest)?;
    Ok((value, rest))
}

} // verus!
