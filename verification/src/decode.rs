//! Reading a message from its bytes. The fields may come in any order and
//! more than once: a later field of bytes replaces an earlier one, a later
//! message is merged into an earlier one, and a field that the message does
//! not know is passed over. A lemma has one sibling at most: bytes that give
//! it one on each side are no message.

use vstd::prelude::*;
use vstd::slice::slice_to_vec;
use crate::model::{Link, Positioned};
use crate::proto::{
    default_link, default_message, LemmaProto, ProofMessage, ProofProto, SiblingHash,
    LEMMA_LEFT_SIBLING, LEMMA_NODE_HASH, LEMMA_RIGHT_SIBLING, LEMMA_SUB_LEMMA, PROOF_LEMMA,
    PROOF_ROOT_HASH, PROOF_VALUE,
};
use crate::wire::{
    parse_bytes, parse_delimited, parse_delimited_rest, parse_key, parse_key_rest, pass_field,
    read_bytes, read_delimited, read_key, skip_field, skip_field_rest, WireError,
    RECURSION_LIMIT, WIRE_DELIMITED,
};

verus! {

/// The links with another hash on the first.
pub open spec fn with_node_hash(links: Seq<Link>, hash: Seq<u8>) -> Seq<Link> {
    links.update(0, Link { node_hash: hash, sibling_hash: links[0].sibling_hash })
}

/// The links with another sibling on the first.
pub open spec fn with_sibling(links: Seq<Link>, sibling: Positioned<Seq<u8>>) -> Seq<Link> {
    links.update(0, Link { node_hash: links[0].node_hash, sibling_hash: Some(sibling) })
}

/// The first link has a sibling on the left.
pub open spec fn holds_left(links: Seq<Link>) -> bool {
    links[0].sibling_hash matches Some(Positioned::Left(_))
}

/// The first link has a sibling on the right.
pub open spec fn holds_right(links: Seq<Link>) -> bool {
    links[0].sibling_hash matches Some(Positioned::Right(_))
}

/// The links after the first, or those of a message without a field where
/// the first is the only one.
pub open spec fn sub_links(links: Seq<Link>) -> Seq<Link> {
    if links.len() > 1 {
        links.skip(1)
    } else {
        seq![default_link()]
    }
}

/// The first of the links, followed by `sub`.
pub open spec fn with_sub_links(links: Seq<Link>, sub: Seq<Link>) -> Seq<Link> {
    seq![links[0]] + sub
}

/// Merges the fields in `s` into the links of a lemma's message. `budget`
/// says how much deeper the message may nest.
pub open spec fn merge_links(links: Seq<Link>, s: Seq<u8>, budget: nat) -> Result<
    Seq<Link>,
    WireError,
>
    decreases budget, s.len(),
{
    if s.len() == 0 {
        Ok(links)
    } else {
        match parse_key(s) {
            Err(e) => Err(e),
            Ok((tag, wire_type, rest)) => {
                proof {
                    parse_key_rest(s);
                    parse_delimited_rest(rest);
                    skip_field_rest(wire_type, tag, rest, budget);
                }
                if tag == LEMMA_NODE_HASH {
                    match parse_bytes(wire_type, rest) {
                        Err(e) => Err(e),
                        Ok((data, after)) => merge_links(with_node_hash(links, data), after, budget),
                    }
                } else if tag == LEMMA_SUB_LEMMA {
                    if wire_type != WIRE_DELIMITED {
                        Err(WireError::UnexpectedWireType)
                    } else if budget == 0 {
                        Err(WireError::RecursionLimitReached)
                    } else {
                        match parse_delimited(rest) {
                            Err(e) => Err(e),
                            Ok((data, after)) => match merge_links(
                                sub_links(links),
                                data,
                                (budget - 1) as nat,
                            ) {
                                Err(e) => Err(e),
                                Ok(sub) => merge_links(with_sub_links(links, sub), after, budget),
                            },
                        }
                    }
                } else if tag == LEMMA_LEFT_SIBLING {
                    match parse_bytes(wire_type, rest) {
                        Err(e) => Err(e),
                        Ok((data, after)) => if holds_right(links) {
                            Err(WireError::ConflictingSiblings)
                        } else {
                            merge_links(with_sibling(links, Positioned::Left(data)), after, budget)
                        },
                    }
                } else if tag == LEMMA_RIGHT_SIBLING {
                    match parse_bytes(wire_type, rest) {
                        Err(e) => Err(e),
                        Ok((data, after)) => if holds_left(links) {
                            Err(WireError::ConflictingSiblings)
                        } else {
                            merge_links(with_sibling(links, Positioned::Right(data)), after, budget)
                        },
                    }
                } else {
                    match skip_field(wire_type, tag, rest, budget) {
                        Err(e) => Err(e),
                        Ok(after) => merge_links(links, after, budget),
                    }
                }
            },
        }
    }
}

/// The links that a field for the lemma is merged into.
pub open spec fn lemma_links(m: ProofMessage) -> Seq<Link> {
    match m.lemma {
        Some(links) => links,
        None => seq![default_link()],
    }
}

/// Merges the fields in `s` into a proof's message. `budget` says how much
/// deeper the message may nest.
pub open spec fn merge_message(m: ProofMessage, s: Seq<u8>, budget: nat) -> Result<
    ProofMessage,
    WireError,
>
    decreases s.len(),
{
    if s.len() == 0 {
        Ok(m)
    } else {
        match parse_key(s) {
            Err(e) => Err(e),
            Ok((tag, wire_type, rest)) => {
                proof {
                    parse_key_rest(s);
                    parse_delimited_rest(rest);
                    skip_field_rest(wire_type, tag, rest, budget);
                }
                if tag == PROOF_ROOT_HASH {
                    match parse_bytes(wire_type, rest) {
                        Err(e) => Err(e),
                        Ok((data, after)) => merge_message(
                            ProofMessage { root_hash: data, lemma: m.lemma, value: m.value },
                            after,
                            budget,
                        ),
                    }
                } else if tag == PROOF_LEMMA {
                    if wire_type != WIRE_DELIMITED {
                        Err(WireError::UnexpectedWireType)
                    } else if budget == 0 {
                        Err(WireError::RecursionLimitReached)
                    } else {
                        match parse_delimited(rest) {
                            Err(e) => Err(e),
                            Ok((data, after)) => match merge_links(
                                lemma_links(m),
                                data,
                                (budget - 1) as nat,
                            ) {
                                Err(e) => Err(e),
                                Ok(links) => merge_message(
                                    ProofMessage {
                                        root_hash: m.root_hash,
                                        lemma: Some(links),
                                        value: m.value,
                                    },
                                    after,
                                    budget,
                                ),
                            },
                        }
                    }
                } else if tag == PROOF_VALUE {
                    match parse_bytes(wire_type, rest) {
                        Err(e) => Err(e),
                        Ok((data, after)) => merge_message(
                            ProofMessage { root_hash: m.root_hash, lemma: m.lemma, value: data },
                            after,
                            budget,
                        ),
                    }
                } else {
                    match skip_field(wire_type, tag, rest, budget) {
                        Err(e) => Err(e),
                        Ok(after) => merge_message(m, after, budget),
                    }
                }
            },
        }
    }
}

/// The message that a buffer holds, or why it holds none.
pub open spec fn decode_message(s: Seq<u8>) -> Result<ProofMessage, WireError> {
    merge_message(default_message(), s, RECURSION_LIMIT as nat)
}

/// What a reader of a lemma returned, as a value.
pub open spec fn links_read(res: Result<LemmaProto, WireError>) -> Result<Seq<Link>, WireError> {
    match res {
        Ok(lemma) => Ok(lemma@),
        Err(e) => Err(e),
    }
}

/// What a reader of a proof's message returned, as a value.
pub open spec fn message_read(res: Result<ProofProto, WireError>) -> Result<
    ProofMessage,
    WireError,
> {
    match res {
        Ok(message) => Ok(message@),
        Err(e) => Err(e),
    }
}

impl LemmaProto {
    /// Merges the fields in `buf` into this message. A message inside it is
    /// read by a call of this function, no deeper than `budget`.
    pub fn merge(self, buf: &[u8], budget: u32) -> (res: Result<LemmaProto, WireError>)
        ensures
            links_read(res) == merge_links(self@, buf@, budget as nat),
        decreases budget,
    {
        let mut message = self;
        let mut rest = buf;
        while rest.len() > 0
            invariant
                merge_links(message@, rest@, budget as nat) == merge_links(
                    self@,
                    buf@,
                    budget as nat,
                ),
            decreases rest@.len(),
        {
            proof {
                parse_key_rest(rest@);
                message.links_nonempty();
            }
            let ghost before = message@;
            let (tag, wire_type, after) = read_key(rest)?;
            proof {
                parse_delimited_rest(after@);
                skip_field_rest(wire_type, tag, after@, budget as nat);
            }
            if tag == LEMMA_NODE_HASH {
                let (data, past) = read_bytes(wire_type, after)?;
                message.node_hash = slice_to_vec(data);
                assert(message@ =~= with_node_hash(before, data@));
                rest = past;
            } else if tag == LEMMA_SUB_LEMMA {
                if wire_type != WIRE_DELIMITED {
                    return Err(WireError::UnexpectedWireType);
                }
                if budget == 0 {
                    return Err(WireError::RecursionLimitReached);
                }
                let (data, past) = read_delimited(after)?;
                let LemmaProto { node_hash, sub_lemma, sibling_hash } = message;
                let sub = match sub_lemma {
                    Some(inner) => {
                        proof {
                            inner.links_nonempty();
                            assert(before.skip(1) =~= inner@);
                        }
                        *inner
                    },
                    None => LemmaProto::default(),
                };
                assert(sub@ == sub_links(before));
                match sub.merge(data, budget - 1) {
                    Err(e) => {
                        return Err(e);
                    },
                    Ok(merged) => {
                        message =
                        LemmaProto { node_hash, sub_lemma: Some(Box::new(merged)), sibling_hash };
                        assert(message@ =~= with_sub_links(before, merged@));
                    },
                }
                rest = past;
            } else if tag == LEMMA_LEFT_SIBLING {
                let (data, past) = read_bytes(wire_type, after)?;
                if let Some(SiblingHash::RightSiblingHash(_)) = &message.sibling_hash {
                    return Err(WireError::ConflictingSiblings);
                }
                message.sibling_hash = Some(SiblingHash::LeftSiblingHash(slice_to_vec(data)));
                assert(message@ =~= with_sibling(before, Positioned::Left(data@)));
                rest = past;
            } else if tag == LEMMA_RIGHT_SIBLING {
                let (data, past) = read_bytes(wire_type, after)?;
                if let Some(SiblingHash::LeftSiblingHash(_)) = &message.sibling_hash {
                    return Err(WireError::ConflictingSiblings);
                }
                message.sibling_hash = Some(SiblingHash::RightSiblingHash(slice_to_vec(data)));
                assert(message@ =~= with_sibling(before, Positioned::Right(data@)));
                rest = past;
            } else {
                let past = pass_field(wire_type, tag, after, budget)?;
                rest = past;
            }
        }
        Ok(message)
    }
}

impl ProofProto {
    /// Merges the fields in `buf` into this message.
    pub fn merge(self, buf: &[u8], budget: u32) -> (res: Result<ProofProto, WireError>)
        ensures
            message_read(res) == merge_message(self@, buf@, budget as nat),
    {
        let mut message = self;
        let mut rest = buf;
        while rest.len() > 0
            invariant
                merge_message(message@, rest@, budget as nat) == merge_message(
                    self@,
                    buf@,
                    budget as nat,
                ),
            decreases rest@.len(),
        {
            proof {
                parse_key_rest(rest@);
            }
            let ghost before = message@;
            let (tag, wire_type, after) = read_key(rest)?;
            proof {
                parse_delimited_rest(after@);
                skip_field_rest(wire_type, tag, after@, budget as nat);
            }
            if tag == PROOF_ROOT_HASH {
                let (data, past) = read_bytes(wire_type, after)?;
                message.root_hash = slice_to_vec(data);
                rest = past;
            } else if tag == PROOF_LEMMA {
                if wire_type != WIRE_DELIMITED {
                    return Err(WireError::UnexpectedWireType);
                }
                if budget == 0 {
                    return Err(WireError::RecursionLimitReached);
                }
                let (data, past) = read_delimited(after)?;
                let ProofProto { root_hash, lemma, value } = message;
                let sub = match lemma {
                    Some(inner) => inner,
                    None => LemmaProto::default(),
                };
                match sub.merge(data, budget - 1) {
                    Err(e) => {
                        return Err(e);
                    },
                    Ok(merged) => {
                        message = ProofProto { root_hash, lemma: Some(merged), value };
                    },
                }
                rest = past;
            } else if tag == PROOF_VALUE {
                let (data, past) = read_bytes(wire_type, after)?;
                message.value = slice_to_vec(data);
                rest = past;
            } else {
                let past = pass_field(wire_type, tag, after, budget)?;
                rest = past;
            }
        }
        Ok(message)
    }

    /// Reads a message from its bytes.
    pub fn decode(buf: &[u8]) -> (res: Result<ProofProto, WireError>)
        ensures
            message_read(res) == decode_message(buf@),
    {
        ProofProto::default().merge(buf, RECURSION_LIMIT)
    }
}

} // verus!
