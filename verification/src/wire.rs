//! The framing of a message's fields: a key that holds the field's number
//! and wire type, then the payload that the wire type announces.

use vstd::prelude::*;
use vstd::slice::slice_subrange;
use crate::varint::{
    parse_varint, parse_varint_extends, parse_varint_inverts, parse_varint_rest, take_varint,
    varint,
};

verus! {

/// Why a buffer is no message.
#[derive(Clone, Copy, Debug, PartialEq, Eq)]
pub enum WireError {
    /// An integer ends after the buffer does, or does not fit 64 bits.
    InvalidVarint,
    /// A key does not fit 32 bits.
    InvalidKey,
    /// A key names a wire type that does not exist.
    InvalidWireType,
    /// A key names the field number zero.
    InvalidTag,
    /// A field of the message has another wire type than its own.
    UnexpectedWireType,
    /// A payload is announced longer than what is left of the buffer.
    BufferUnderflow,
    /// Messages or groups are nested deeper than the limit.
    RecursionLimitReached,
    /// A group ends that was not open, or under another number.
    UnexpectedEndGroupTag,
    /// A lemma holds a sibling on the left and one on the right.
    ConflictingSiblings,
}

/// How deep messages and groups may nest.
pub const RECURSION_LIMIT: u32 = 100;

/// The largest field number that a key can hold.
pub const MAX_TAG: u32 = 0x1fff_ffff;

/// The wire type of an integer.
pub const WIRE_VARINT: u8 = 0;

/// The wire type of eight bytes.
pub const WIRE_64_BIT: u8 = 1;

/// The wire type of a length and as many bytes.
pub const WIRE_DELIMITED: u8 = 2;

/// The wire type that opens a group.
pub const WIRE_START_GROUP: u8 = 3;

/// The wire type that closes a group.
pub const WIRE_END_GROUP: u8 = 4;

/// The wire type of four bytes.
pub const WIRE_32_BIT: u8 = 5;

/// The bytes of a key.
pub open spec fn key(tag: u32, wire_type: u8) -> Seq<u8> {
    varint((tag * 8 + wire_type) as nat)
}

/// The bytes of a field that holds `data` behind its length.
pub open spec fn delimited_field(tag: u32, data: Seq<u8>) -> Seq<u8> {
    key(tag, WIRE_DELIMITED) + varint(data.len()) + data
}

/// Reads a key from the front of `s`: the field's number, its wire type and
/// the bytes that follow.
pub open spec fn parse_key(s: Seq<u8>) -> Result<(u32, u8, Seq<u8>), WireError> {
    match parse_varint(s) {
        None => Err(WireError::InvalidVarint),
        Some((k, rest)) => if k > u32::MAX {
            Err(WireError::InvalidKey)
        } else if k % 8 > 5 {
            Err(WireError::InvalidWireType)
        } else if k / 8 == 0 {
            Err(WireError::InvalidTag)
        } else {
            Ok(((k / 8) as u32, (k % 8) as u8, rest))
        },
    }
}

/// Reads a length and as many bytes from the front of `s`: those bytes and
/// the bytes that follow them.
pub open spec fn parse_delimited(s: Seq<u8>) -> Result<(Seq<u8>, Seq<u8>), WireError> {
    match parse_varint(s) {
        None => Err(WireError::InvalidVarint),
        Some((len, rest)) => if len > rest.len() {
            Err(WireError::BufferUnderflow)
        } else {
            Ok((rest.take(len as int), rest.skip(len as int)))
        },
    }
}

/// Reads the payload of a field that holds bytes: the wire type must be the
/// delimited one.
pub open spec fn parse_bytes(wire_type: u8, s: Seq<u8>) -> Result<(Seq<u8>, Seq<u8>), WireError> {
    if wire_type != WIRE_DELIMITED {
        Err(WireError::UnexpectedWireType)
    } else {
        parse_delimited(s)
    }
}

/// Passes over a payload that is no group: what follows it.
pub open spec fn skip_plain(wire_type: u8, s: Seq<u8>) -> Result<Seq<u8>, WireError> {
    if wire_type == WIRE_VARINT {
        match parse_varint(s) {
            None => Err(WireError::InvalidVarint),
            Some((_, rest)) => Ok(rest),
        }
    } else if wire_type == WIRE_64_BIT {
        if s.len() < 8 {
            Err(WireError::BufferUnderflow)
        } else {
            Ok(s.skip(8))
        }
    } else if wire_type == WIRE_32_BIT {
        if s.len() < 4 {
            Err(WireError::BufferUnderflow)
        } else {
            Ok(s.skip(4))
        }
    } else if wire_type == WIRE_DELIMITED {
        match parse_delimited(s) {
            Err(e) => Err(e),
            Ok((_, rest)) => Ok(rest),
        }
    } else {
        Err(WireError::InvalidWireType)
    }
}

/// What follows a key is a proper end of the buffer.
pub proof fn parse_key_rest(s: Seq<u8>)
    ensures
        match parse_key(s) {
            Ok((tag, wire_type, rest)) => {
                &&& rest.len() < s.len()
                &&& rest == s.skip(s.len() - rest.len())
                &&& 1 <= tag
                &&& wire_type <= 5
            },
            Err(_) => true,
        },
{
    parse_varint_rest(s);
}

/// A length and its bytes are followed by an end of the buffer.
pub proof fn parse_delimited_rest(s: Seq<u8>)
    ensures
        match parse_delimited(s) {
            Ok((data, rest)) => {
                &&& data.len() + rest.len() < s.len()
                &&& rest == s.skip(s.len() - rest.len())
                &&& data == s.subrange(s.len() - rest.len() - data.len(), s.len() - rest.len())
            },
            Err(_) => true,
        },
{
    parse_varint_rest(s);
    match parse_varint(s) {
        Some((len, rest)) => {
            if len <= rest.len() {
                let at = s.len() - rest.len();
                assert(rest.skip(len as int) =~= s.skip(at + len));
                assert(rest.take(len as int) =~= s.subrange(at, at + len));
            }
        },
        None => {},
    }
}

/// What follows a payload that is no group is an end of the buffer.
pub proof fn skip_plain_rest(wire_type: u8, s: Seq<u8>)
    ensures
        match skip_plain(wire_type, s) {
            Ok(rest) => rest.len() <= s.len() && rest == s.skip(s.len() - rest.len()),
            Err(_) => true,
        },
{
    parse_varint_rest(s);
    parse_delimited_rest(s);
}

/// Passes over the rest of the groups in `open`, the innermost last: what
/// follows the end of the outermost. `budget` says how much deeper the
/// fields of the innermost group may nest.
pub open spec fn skip_groups(open: Seq<u32>, s: Seq<u8>, budget: nat) -> Result<
    Seq<u8>,
    WireError,
>
    recommends
        open.len() > 0,
    decreases s.len(),
{
    match parse_key(s) {
        Err(e) => Err(e),
        Ok((tag, wire_type, rest)) => {
            proof {
                parse_key_rest(s);
                skip_plain_rest(wire_type, rest);
            }
            if wire_type == WIRE_END_GROUP {
                if tag != open.last() {
                    Err(WireError::UnexpectedEndGroupTag)
                } else if open.len() <= 1 {
                    Ok(rest)
                } else {
                    skip_groups(open.drop_last(), rest, budget + 1)
                }
            } else if budget == 0 {
                Err(WireError::RecursionLimitReached)
            } else if wire_type == WIRE_START_GROUP {
                skip_groups(open.push(tag), rest, (budget - 1) as nat)
            } else {
                match skip_plain(wire_type, rest) {
                    Err(e) => Err(e),
                    Ok(after) => skip_groups(open, after, budget),
                }
            }
        },
    }
}

/// Passes over the payload of a field that the message does not know: what
/// follows it. `budget` says how much deeper the message may nest.
pub open spec fn skip_field(wire_type: u8, tag: u32, s: Seq<u8>, budget: nat) -> Result<
    Seq<u8>,
    WireError,
> {
    if budget == 0 {
        Err(WireError::RecursionLimitReached)
    } else if wire_type == WIRE_START_GROUP {
        skip_groups(seq![tag], s, (budget - 1) as nat)
    } else if wire_type == WIRE_END_GROUP {
        Err(WireError::UnexpectedEndGroupTag)
    } else {
        skip_plain(wire_type, s)
    }
}

/// What follows a field that the message does not know is an end of the
/// buffer.
pub proof fn skip_groups_rest(open: Seq<u32>, s: Seq<u8>, budget: nat)
    ensures
        match skip_groups(open, s, budget) {
            Ok(rest) => rest.len() < s.len() && rest == s.skip(s.len() - rest.len()),
            Err(_) => true,
        },
    decreases s.len(),
{
    parse_key_rest(s);
    match parse_key(s) {
        Err(_) => {},
        Ok((tag, wire_type, rest)) => {
            let at = s.len() - rest.len();
            skip_plain_rest(wire_type, rest);
            if wire_type == WIRE_END_GROUP {
                if tag == open.last() && open.len() > 1 {
                    skip_groups_rest(open.drop_last(), rest, budget + 1);
                    match skip_groups(open.drop_last(), rest, budget + 1) {
                        Ok(end) => {
                            assert(rest.skip(rest.len() - end.len()) =~= s.skip(s.len() - end.len()));
                        },
                        Err(_) => {},
                    }
                }
            } else if budget == 0 {
            } else if wire_type == WIRE_START_GROUP {
                skip_groups_rest(open.push(tag), rest, (budget - 1) as nat);
                match skip_groups(open.push(tag), rest, (budget - 1) as nat) {
                    Ok(end) => {
                        assert(rest.skip(rest.len() - end.len()) =~= s.skip(s.len() - end.len()));
                    },
                    Err(_) => {},
                }
            } else {
                match skip_plain(wire_type, rest) {
                    Err(_) => {},
                    Ok(after) => {
                        skip_groups_rest(open, after, budget);
                        match skip_groups(open, after, budget) {
                            Ok(end) => {
                                assert(after.skip(after.len() - end.len()) =~= s.skip(
                                    s.len() - end.len(),
                                ));
                            },
                            Err(_) => {},
                        }
                    },
                }
            }
        },
    }
}

/// What follows a field that the message does not know is an end of the
/// buffer.
pub proof fn skip_field_rest(wire_type: u8, tag: u32, s: Seq<u8>, budget: nat)
    ensures
        match skip_field(wire_type, tag, s, budget) {
            Ok(rest) => rest.len() <= s.len() && rest == s.skip(s.len() - rest.len()),
            Err(_) => true,
        },
{
    if budget > 0 {
        skip_groups_rest(seq![tag], s, (budget - 1) as nat);
        skip_plain_rest(wire_type, s);
    }
}

/// A key that is read from a buffer is read from every longer one.
pub proof fn parse_key_extends(s: Seq<u8>, more: Seq<u8>)
    ensures
        match parse_key(s) {
            Ok((tag, wire_type, rest)) => parse_key(s + more) == Ok::<
                (u32, u8, Seq<u8>),
                WireError,
            >((tag, wire_type, rest + more)),
            Err(_) => true,
        },
{
    parse_varint_extends(s, more);
}

/// Bytes that are read from a buffer behind their length are read from
/// every longer one.
pub proof fn parse_delimited_extends(s: Seq<u8>, more: Seq<u8>)
    ensures
        match parse_delimited(s) {
            Ok((data, rest)) => parse_delimited(s + more) == Ok::<(Seq<u8>, Seq<u8>), WireError>(
                (data, rest + more),
            ),
            Err(_) => true,
        },
{
    parse_varint_extends(s, more);
    match parse_varint(s) {
        Some((len, rest)) => {
            if len <= rest.len() {
                assert((rest + more).take(len as int) =~= rest.take(len as int));
                assert((rest + more).skip(len as int) =~= rest.skip(len as int) + more);
            }
        },
        None => {},
    }
}

/// A payload that is passed over in a buffer is passed over in every longer
/// one.
pub proof fn skip_plain_extends(wire_type: u8, s: Seq<u8>, more: Seq<u8>)
    ensures
        match skip_plain(wire_type, s) {
            Ok(rest) => skip_plain(wire_type, s + more) == Ok::<Seq<u8>, WireError>(rest + more),
            Err(_) => true,
        },
{
    parse_varint_extends(s, more);
    parse_delimited_extends(s, more);
    if s.len() >= 8 {
        assert((s + more).skip(8) =~= s.skip(8) + more);
    }
    if s.len() >= 4 {
        assert((s + more).skip(4) =~= s.skip(4) + more);
    }
}

/// Groups that are passed over in a buffer are passed over in every longer
/// one.
pub proof fn skip_groups_extends(open: Seq<u32>, s: Seq<u8>, more: Seq<u8>, budget: nat)
    ensures
        match skip_groups(open, s, budget) {
            Ok(rest) => skip_groups(open, s + more, budget) == Ok::<Seq<u8>, WireError>(
                rest + more,
            ),
            Err(_) => true,
        },
    decreases s.len(),
{
    parse_key_rest(s);
    parse_key_extends(s, more);
    match parse_key(s) {
        Err(_) => {},
        Ok((tag, wire_type, rest)) => {
            skip_plain_rest(wire_type, rest);
            skip_plain_extends(wire_type, rest, more);
            if wire_type == WIRE_END_GROUP {
                if tag == open.last() && open.len() > 1 {
                    skip_groups_extends(open.drop_last(), rest, more, budget + 1);
                }
            } else if budget == 0 {
            } else if wire_type == WIRE_START_GROUP {
                skip_groups_extends(open.push(tag), rest, more, (budget - 1) as nat);
            } else {
                match skip_plain(wire_type, rest) {
                    Err(_) => {},
                    Ok(after) => {
                        skip_groups_extends(open, after, more, budget);
                    },
                }
            }
        },
    }
}

/// A field that is passed over in a buffer is passed over in every longer
/// one.
pub proof fn skip_field_extends(wire_type: u8, tag: u32, s: Seq<u8>, more: Seq<u8>, budget: nat)
    ensures
        match skip_field(wire_type, tag, s, budget) {
            Ok(rest) => skip_field(wire_type, tag, s + more, budget) == Ok::<Seq<u8>, WireError>(
                rest + more,
            ),
            Err(_) => true,
        },
{
    if budget > 0 {
        skip_groups_extends(seq![tag], s, more, (budget - 1) as nat);
        skip_plain_extends(wire_type, s, more);
    }
}

/// Reading a key undoes writing it.
pub proof fn parse_key_inverts(tag: u32, wire_type: u8, rest: Seq<u8>)
    requires
        1 <= tag <= MAX_TAG,
        wire_type <= 5,
    ensures
        parse_key(key(tag, wire_type) + rest) == Ok::<(u32, u8, Seq<u8>), WireError>(
            (tag, wire_type, rest),
        ),
        1 <= key(tag, wire_type).len() <= 10,
{
    let k = (tag * 8 + wire_type) as u64;
    parse_varint_inverts(k, rest);
    assert(k / 8 == tag && k % 8 == wire_type);
}

/// Reading a length and its bytes undoes writing them.
pub proof fn parse_delimited_inverts(data: Seq<u8>, rest: Seq<u8>)
    requires
        data.len() <= u64::MAX,
    ensures
        parse_delimited(varint(data.len()) + data + rest) == Ok::<(Seq<u8>, Seq<u8>), WireError>(
            (data, rest),
        ),
{
    let tail = data + rest;
    parse_varint_inverts(data.len() as u64, tail);
    assert(varint(data.len()) + data + rest =~= varint(data.len()) + tail);
    assert(tail.take(data.len() as int) =~= data);
    assert(tail.skip(data.len() as int) =~= rest);
}

/// After a key and a field of bytes, the reader has the field's number, then
/// its bytes, and what followed.
pub proof fn delimited_field_inverts(tag: u32, data: Seq<u8>, rest: Seq<u8>)
    requires
        1 <= tag <= MAX_TAG,
        data.len() <= u64::MAX,
    ensures
        parse_key(delimited_field(tag, data) + rest) == Ok::<(u32, u8, Seq<u8>), WireError>(
            (tag, WIRE_DELIMITED, varint(data.len()) + data + rest),
        ),
        parse_delimited(varint(data.len()) + data + rest) == Ok::<(Seq<u8>, Seq<u8>), WireError>(
            (data, rest),
        ),
        delimited_field(tag, data).len() > data.len(),
{
    let tail = varint(data.len()) + data + rest;
    parse_key_inverts(tag, WIRE_DELIMITED, tail);
    parse_delimited_inverts(data, rest);
    assert(delimited_field(tag, data) + rest =~= key(tag, WIRE_DELIMITED) + tail);
}

/// What a reader of a key returned, with the rest of the buffer as a value.
pub open spec fn key_read(res: Result<(u32, u8, &[u8]), WireError>) -> Result<
    (u32, u8, Seq<u8>),
    WireError,
> {
    match res {
        Ok((tag, wire_type, rest)) => Ok((tag, wire_type, rest@)),
        Err(e) => Err(e),
    }
}

/// What a reader of bytes returned, with both parts of the buffer as values.
pub open spec fn bytes_read(res: Result<(&[u8], &[u8]), WireError>) -> Result<
    (Seq<u8>, Seq<u8>),
    WireError,
> {
    match res {
        Ok((data, rest)) => Ok((data@, rest@)),
        Err(e) => Err(e),
    }
}

/// What passing over a field returned, with the rest of the buffer as a
/// value.
pub open spec fn rest_read(res: Result<&[u8], WireError>) -> Result<Seq<u8>, WireError> {
    match res {
        Ok(rest) => Ok(rest@),
        Err(e) => Err(e),
    }
}

/// Reads an integer from the front of `buf`.
pub fn read_varint<'a>(buf: &'a [u8]) -> (res: Result<(u64, &'a [u8]), WireError>)
    ensures
        match parse_varint(buf@) {
            Some((value, rest)) => res is Ok && res.unwrap().0 == value && res.unwrap().1@ == rest,
            None => res == Err::<(u64, &[u8]), WireError>(WireError::InvalidVarint),
        },
{
    match take_varint(buf) {
        Ok(found) => Ok(found),
        Err(_) => Err(WireError::InvalidVarint),
    }
}

/// Reads a key from the front of `buf`.
pub fn read_key<'a>(buf: &'a [u8]) -> (res: Result<(u32, u8, &'a [u8]), WireError>)
    ensures
        key_read(res) == parse_key(buf@),
{
    let (k, rest) = read_varint(buf)?;
    if k > 0xffff_ffff {
        Err(WireError::InvalidKey)
    } else if k % 8 > 5 {
        Err(WireError::InvalidWireType)
    } else if k / 8 == 0 {
        Err(WireError::InvalidTag)
    } else {
        Ok(((k / 8) as u32, (k % 8) as u8, rest))
    }
}

/// Reads a length and as many bytes from the front of `buf`.
pub fn read_delimited<'a>(buf: &'a [u8]) -> (res: Result<(&'a [u8], &'a [u8]), WireError>)
    ensures
        bytes_read(res) == parse_delimited(buf@),
{
    let (len, rest) = read_varint(buf)?;
    if len > rest.len() as u64 {
        Err(WireError::BufferUnderflow)
    } else {
        let (data, after) = rest.split_at(len as usize);
        proof {
            assert(data@ =~= rest@.take(len as int));
            assert(after@ =~= rest@.skip(len as int));
        }
        Ok((data, after))
    }
}

/// Reads the payload of a field that holds bytes.
pub fn read_bytes<'a>(wire_type: u8, buf: &'a [u8]) -> (res: Result<
    (&'a [u8], &'a [u8]),
    WireError,
>)
    ensures
        bytes_read(res) == parse_bytes(wire_type, buf@),
{
    if wire_type != WIRE_DELIMITED {
        Err(WireError::UnexpectedWireType)
    } else {
        read_delimited(buf)
    }
}

/// Passes over a payload that is no group.
pub fn pass_plain<'a>(wire_type: u8, buf: &'a [u8]) -> (res: Result<&'a [u8], WireError>)
    ensures
        rest_read(res) == skip_plain(wire_type, buf@),
{
    if wire_type == WIRE_VARINT {
        let (_, rest) = read_varint(buf)?;
        Ok(rest)
    } else if wire_type == WIRE_64_BIT {
        if buf.len() < 8 {
            Err(WireError::BufferUnderflow)
        } else {
            let rest = slice_subrange(buf, 8, buf.len());
            assert(rest@ =~= buf@.skip(8));
            Ok(rest)
        }
    } else if wire_type == WIRE_32_BIT {
        if buf.len() < 4 {
            Err(WireError::BufferUnderflow)
        } else {
            let rest = slice_subrange(buf, 4, buf.len());
            assert(rest@ =~= buf@.skip(4));
            Ok(rest)
        }
    } else if wire_type == WIRE_DELIMITED {
        let (_, rest) = read_delimited(buf)?;
        Ok(rest)
    } else {
        Err(WireError::InvalidWireType)
    }
}

/// Passes over a group that was opened under `tag`, and over the groups
/// inside it. The open groups are kept on a stack, so their depth costs none
/// of the machine's.
pub fn pass_group<'a>(tag: u32, buf: &'a [u8], budget: u32) -> (res: Result<&'a [u8], WireError>)
    ensures
        rest_read(res) == skip_groups(seq![tag], buf@, budget as nat),
{
    let mut open: Vec<u32> = Vec::new();
    open.push(tag);
    let mut rest = buf;
    let mut left = budget;
    loop
        invariant
            open@.len() >= 1,
            left + open@.len() == budget + 1,
            skip_groups(open@, rest@, left as nat) == skip_groups(seq![tag], buf@, budget as nat),
        decreases rest@.len(),
    {
        proof {
            parse_key_rest(rest@);
        }
        let (inner, wire_type, after) = read_key(rest)?;
        if wire_type == WIRE_END_GROUP {
            if inner != open[open.len() - 1] {
                return Err(WireError::UnexpectedEndGroupTag);
            } else if open.len() == 1 {
                return Ok(after);
            } else {
                open.pop();
                left = left + 1;
            }
        } else if left == 0 {
            return Err(WireError::RecursionLimitReached);
        } else if wire_type == WIRE_START_GROUP {
            open.push(inner);
            left = left - 1;
        } else {
            proof {
                skip_plain_rest(wire_type, after@);
            }
            let past = pass_plain(wire_type, after)?;
            rest = past;
            continue ;
        }
        rest = after;
    }
}

/// Passes over the payload of a field that the message does not know.
pub fn pass_field<'a>(wire_type: u8, tag: u32, buf: &'a [u8], budget: u32) -> (res: Result<
    &'a [u8],
    WireError,
>)
    ensures
        rest_read(res) == skip_field(wire_type, tag, buf@, budget as nat),
{
    if budget == 0 {
        Err(WireError::RecursionLimitReached)
    } else if wire_type == WIRE_START_GROUP {
        pass_group(tag, buf, budget - 1)
    } else if wire_type == WIRE_END_GROUP {
        Err(WireError::UnexpectedEndGroupTag)
    } else {
        pass_plain(wire_type, buf)
    }
}

} // verus!
