//! What holds of the conversions and of the encoding, whatever the proof.

use vstd::prelude::*;
use vstd::std_specs::convert::{FromSpec, IntoSpec};
use crate::decode::{
    decode_message, holds_left, holds_right, lemma_links, merge_links, merge_message,
    sub_links, with_node_hash, with_sibling, with_sub_links,
};
use crate::encode::{lemma_bytes, message_bytes, plain_bytes, sibling_bytes, sub_lemma_bytes};
use crate::model::{links_valid, Link, Positioned, Proof};
use crate::proto::{
    default_link, default_message, message_valid, validated_links, ProofMessage, ProofProto,
    LEMMA_LEFT_SIBLING, LEMMA_NODE_HASH, LEMMA_RIGHT_SIBLING, LEMMA_SUB_LEMMA, PROOF_LEMMA,
    PROOF_ROOT_HASH, PROOF_VALUE,
};
use crate::wire::{
    delimited_field, delimited_field_inverts, parse_bytes, parse_delimited,
    parse_delimited_extends, parse_delimited_rest, parse_key, parse_key_extends,
    parse_key_rest, skip_field, skip_field_extends, skip_field_rest, WireError,
    RECURSION_LIMIT, WIRE_DELIMITED,
};

verus! {

/// A valid proof survives the way to its message and back: the message that
/// carries it is accepted, and the proof that the message yields under the
/// same algorithm equals it field for field, where turning the value into
/// bytes and back gives the value.
pub proof fn message_round_trip<T: Into<Vec<u8>> + From<Vec<u8>>>(
    p: Proof<T>,
    m: ProofProto,
    q: Proof<T>,
)
    requires
        p.wf(),
        m.carries(p),
        m.yields(p.algorithm, q),
        <T as IntoSpec<Vec<u8>>>::obeys_into_spec(),
        <T as FromSpec<Vec<u8>>>::obeys_from_spec(),
        T::from_spec(p.value.into_spec()) == p.value,
    ensures
        message_valid(m@),
        q@ == p@,
{
}

/// A message without a root hash is no proof, whatever else it holds.
pub proof fn empty_root_hash_rejected(m: ProofMessage)
    requires
        m.root_hash.len() == 0,
    ensures
        !message_valid(m),
{
}

/// A message without a lemma is no proof, whatever else it holds.
pub proof fn missing_lemma_rejected(m: ProofMessage)
    requires
        m.lemma is None,
    ensures
        !message_valid(m),
{
}

/// One link without a hash, wherever it stands, leaves nothing of the chain,
/// and nothing of the proof that holds the chain.
pub proof fn empty_node_hash_poisons(m: ProofMessage, i: int)
    requires
        m.lemma is Some,
        0 <= i < m.lemma.unwrap().len(),
        m.lemma.unwrap()[i].node_hash.len() == 0,
    ensures
        validated_links(m.lemma.unwrap()) is None,
        !message_valid(m),
{
}

/// A chain whose links all have a hash is kept as it is.
pub proof fn valid_links_kept(links: Seq<Link>)
    requires
        links_valid(links),
    ensures
        validated_links(links) == Some(links),
{
}

/// The bytes of a lemma hold the bytes of each of its hashes and of the
/// lemmas inside it.
pub proof fn lemma_bytes_parts(links: Seq<Link>)
    requires
        links.len() >= 1,
    ensures
        links[0].node_hash.len() <= lemma_bytes(links).len(),
        lemma_bytes(links.skip(1)).len() <= lemma_bytes(links).len(),
        match links[0].sibling_hash {
            Some(Positioned::Left(hash)) => hash.len() <= lemma_bytes(links).len(),
            Some(Positioned::Right(hash)) => hash.len() <= lemma_bytes(links).len(),
            None => true,
        },
{
    let rest = links.skip(1);
    assert(sub_lemma_bytes(rest).len() >= lemma_bytes(rest).len()) by {
        if rest.len() == 0 {
            assert(lemma_bytes(rest).len() == 0);
        }
    }
}

/// Merging nothing changes nothing.
pub proof fn merge_links_nothing(links: Seq<Link>, budget: nat)
    ensures
        merge_links(links, Seq::<u8>::empty(), budget) == Ok::<Seq<Link>, WireError>(links),
{
}

/// Reading undoes writing, for a lemma: merged into a message without a
/// field, the bytes of a chain give the chain, if it nests no deeper than
/// the budget and its lengths fit 64 bits.
pub proof fn lemma_bytes_invert(links: Seq<Link>, budget: nat)
    requires
        1 <= links.len() <= budget + 1,
        lemma_bytes(links).len() <= u64::MAX,
    ensures
        merge_links(seq![default_link()], lemma_bytes(links), budget) == Ok::<
            Seq<Link>,
            WireError,
        >(links),
    decreases links.len(),
{
    let head = links[0];
    let a = plain_bytes(LEMMA_NODE_HASH, head.node_hash);
    let b = sub_lemma_bytes(links.skip(1));
    let c = sibling_bytes(head.sibling_hash);
    let none = Seq::<u8>::empty();
    let acc0 = seq![default_link()];
    let acc1 = seq![Link { node_hash: head.node_hash, sibling_hash: None }];
    let acc2 = seq![acc1[0]] + links.skip(1);
    lemma_bytes_parts(links);
    assert(lemma_bytes(links) =~= a + (b + c));
    // The hash of the node.
    assert(merge_links(acc0, a + (b + c), budget) == merge_links(acc1, b + c, budget)) by {
        if head.node_hash.len() == 0 {
            assert(head.node_hash =~= Seq::<u8>::empty());
            assert(acc0 =~= acc1);
            assert(a + (b + c) =~= b + c);
        } else {
            delimited_field_inverts(LEMMA_NODE_HASH, head.node_hash, b + c);
            assert(with_node_hash(acc0, head.node_hash) =~= acc1);
        }
    }
    // The lemmas inside.
    assert(merge_links(acc1, b + c, budget) == merge_links(acc2, c, budget)) by {
        if links.len() == 1 {
            assert(acc1 =~= acc2);
            assert(b + c =~= c);
        } else {
            let inner = links.skip(1);
            let body = lemma_bytes(inner);
            delimited_field_inverts(LEMMA_SUB_LEMMA, body, c);
            lemma_bytes_invert(inner, (budget - 1) as nat);
            assert(sub_links(acc1) =~= acc0);
            assert(with_sub_links(acc1, inner) =~= acc2);
        }
    }
    // The sibling.
    assert(merge_links(acc2, c, budget) == Ok::<Seq<Link>, WireError>(links)) by {
        match head.sibling_hash {
            Some(Positioned::Left(hash)) => {
                delimited_field_inverts(LEMMA_LEFT_SIBLING, hash, none);
                assert(c =~= c + none);
                assert(with_sibling(acc2, Positioned::Left(hash)) =~= links);
                merge_links_nothing(links, budget);
            },
            Some(Positioned::Right(hash)) => {
                delimited_field_inverts(LEMMA_RIGHT_SIBLING, hash, none);
                assert(c =~= c + none);
                assert(with_sibling(acc2, Positioned::Right(hash)) =~= links);
                merge_links_nothing(links, budget);
            },
            None => {
                assert(acc2 =~= links);
            },
        }
    }
}

/// Reading undoes writing: the bytes of a message decode to the message, if
/// its lemma has no more links than the nesting limit and its lengths fit
/// 64 bits.
pub proof fn message_bytes_invert(m: ProofMessage)
    requires
        m.lemma is Some ==> 1 <= m.lemma.unwrap().len() <= RECURSION_LIMIT,
        message_bytes(m).len() <= u64::MAX,
    ensures
        decode_message(message_bytes(m)) == Ok::<ProofMessage, WireError>(m),
{
    let budget = RECURSION_LIMIT as nat;
    let a = plain_bytes(PROOF_ROOT_HASH, m.root_hash);
    let b = match m.lemma {
        Some(links) => delimited_field(PROOF_LEMMA, lemma_bytes(links)),
        None => Seq::empty(),
    };
    let c = plain_bytes(PROOF_VALUE, m.value);
    let none = Seq::<u8>::empty();
    let m0 = default_message();
    let m1 = ProofMessage { root_hash: m.root_hash, lemma: None, value: Seq::empty() };
    let m2 = ProofMessage { root_hash: m.root_hash, lemma: m.lemma, value: Seq::empty() };
    assert(message_bytes(m) =~= a + (b + c));
    assert(merge_message(m0, a + (b + c), budget) == merge_message(m1, b + c, budget)) by {
        if m.root_hash.len() == 0 {
            assert(m0.root_hash =~= m1.root_hash);
            assert(a + (b + c) =~= b + c);
        } else {
            delimited_field_inverts(PROOF_ROOT_HASH, m.root_hash, b + c);
        }
    }
    assert(merge_message(m1, b + c, budget) == merge_message(m2, c, budget)) by {
        match m.lemma {
            None => {
                assert(b + c =~= c);
            },
            Some(links) => {
                let body = lemma_bytes(links);
                delimited_field_inverts(PROOF_LEMMA, body, c);
                lemma_bytes_invert(links, (budget - 1) as nat);
            },
        }
    }
    assert(merge_message(m2, c, budget) == Ok::<ProofMessage, WireError>(m)) by {
        if m.value.len() == 0 {
            assert(m2.value =~= m.value);
        } else {
            delimited_field_inverts(PROOF_VALUE, m.value, none);
            assert(c =~= c + none);
            let m3 = ProofMessage { root_hash: m.root_hash, lemma: m.lemma, value: m.value };
            assert(merge_message(m3, none, budget) == Ok::<ProofMessage, WireError>(m3));
        }
    }
}

/// Merging goes field by field: where the front of a buffer merges into a
/// lemma, merging the whole buffer is merging what follows the front into
/// what the front gave.
pub proof fn merge_links_extends(links: Seq<Link>, front: Seq<u8>, more: Seq<u8>, budget: nat)
    ensures
        match merge_links(links, front, budget) {
            Ok(held) => merge_links(links, front + more, budget) == merge_links(
                held,
                more,
                budget,
            ),
            Err(_) => true,
        },
    decreases front.len(),
{
    if front.len() == 0 {
        assert(front + more =~= more);
    } else {
        parse_key_rest(front);
        parse_key_extends(front, more);
        match parse_key(front) {
            Err(_) => {},
            Ok((tag, wire_type, rest)) => {
                parse_delimited_rest(rest);
                parse_delimited_extends(rest, more);
                skip_field_rest(wire_type, tag, rest, budget);
                skip_field_extends(wire_type, tag, rest, more, budget);
                if tag == LEMMA_NODE_HASH {
                    match parse_bytes(wire_type, rest) {
                        Err(_) => {},
                        Ok((data, after)) => {
                            merge_links_extends(with_node_hash(links, data), after, more, budget);
                        },
                    }
                } else if tag == LEMMA_SUB_LEMMA {
                    if wire_type == WIRE_DELIMITED && budget > 0 {
                        match parse_delimited(rest) {
                            Err(_) => {},
                            Ok((data, after)) => match merge_links(
                                sub_links(links),
                                data,
                                (budget - 1) as nat,
                            ) {
                                Err(_) => {},
                                Ok(sub) => {
                                    merge_links_extends(
                                        with_sub_links(links, sub),
                                        after,
                                        more,
                                        budget,
                                    );
                                },
                            },
                        }
                    }
                } else if tag == LEMMA_LEFT_SIBLING {
                    match parse_bytes(wire_type, rest) {
                        Err(_) => {},
                        Ok((data, after)) => {
                            if !holds_right(links) {
                                merge_links_extends(
                                    with_sibling(links, Positioned::Left(data)),
                                    after,
                                    more,
                                    budget,
                                );
                            }
                        },
                    }
                } else if tag == LEMMA_RIGHT_SIBLING {
                    match parse_bytes(wire_type, rest) {
                        Err(_) => {},
                        Ok((data, after)) => {
                            if !holds_left(links) {
                                merge_links_extends(
                                    with_sibling(links, Positioned::Right(data)),
                                    after,
                                    more,
                                    budget,
                                );
                            }
                        },
                    }
                } else {
                    match skip_field(wire_type, tag, rest, budget) {
                        Err(_) => {},
                        Ok(after) => {
                            merge_links_extends(links, after, more, budget);
                        },
                    }
                }
            },
        }
    }
}

/// Merging goes field by field, for a proof's message as for a lemma's.
pub proof fn merge_message_extends(m: ProofMessage, front: Seq<u8>, more: Seq<u8>, budget: nat)
    ensures
        match merge_message(m, front, budget) {
            Ok(held) => merge_message(m, front + more, budget) == merge_message(
                held,
                more,
                budget,
            ),
            Err(_) => true,
        },
    decreases front.len(),
{
    if front.len() == 0 {
        assert(front + more =~= more);
    } else {
        parse_key_rest(front);
        parse_key_extends(front, more);
        match parse_key(front) {
            Err(_) => {},
            Ok((tag, wire_type, rest)) => {
                parse_delimited_rest(rest);
                parse_delimited_extends(rest, more);
                skip_field_rest(wire_type, tag, rest, budget);
                skip_field_extends(wire_type, tag, rest, more, budget);
                if tag == PROOF_ROOT_HASH {
                    match parse_bytes(wire_type, rest) {
                        Err(_) => {},
                        Ok((data, after)) => {
                            merge_message_extends(
                                ProofMessage { root_hash: data, lemma: m.lemma, value: m.value },
                                after,
                                more,
                                budget,
                            );
                        },
                    }
                } else if tag == PROOF_LEMMA {
                    if wire_type == WIRE_DELIMITED && budget > 0 {
                        match parse_delimited(rest) {
                            Err(_) => {},
                            Ok((data, after)) => match merge_links(
                                lemma_links(m),
                                data,
                                (budget - 1) as nat,
                            ) {
                                Err(_) => {},
                                Ok(links) => {
                                    merge_message_extends(
                                        ProofMessage {
                                            root_hash: m.root_hash,
                                            lemma: Some(links),
                                            value: m.value,
                                        },
                                        after,
                                        more,
                                        budget,
                                    );
                                },
                            },
                        }
                    }
                } else if tag == PROOF_VALUE {
                    match parse_bytes(wire_type, rest) {
                        Err(_) => {},
                        Ok((data, after)) => {
                            merge_message_extends(
                                ProofMessage { root_hash: m.root_hash, lemma: m.lemma, value: data },
                                after,
                                more,
                                budget,
                            );
                        },
                    }
                } else {
                    match skip_field(wire_type, tag, rest, budget) {
                        Err(_) => {},
                        Ok(after) => {
                            merge_message_extends(m, after, more, budget);
                        },
                    }
                }
            },
        }
    }
}

/// A lemma inside a lemma that is no message leaves none of the lemma
/// around it: wherever its field stands among the fields, the error of the
/// inner lemma is the error of the outer.
pub proof fn sub_lemma_error_spreads(
    links: Seq<Link>,
    front: Seq<u8>,
    body: Seq<u8>,
    more: Seq<u8>,
    budget: nat,
)
    requires
        budget > 0,
        body.len() <= u64::MAX,
    ensures
        match merge_links(links, front, budget) {
            Ok(held) => match merge_links(sub_links(held), body, (budget - 1) as nat) {
                Err(e) => merge_links(
                    links,
                    front + (delimited_field(LEMMA_SUB_LEMMA, body) + more),
                    budget,
                ) == Err::<Seq<Link>, WireError>(e),
                Ok(_) => true,
            },
            Err(_) => true,
        },
{
    merge_links_extends(links, front, delimited_field(LEMMA_SUB_LEMMA, body) + more, budget);
    delimited_field_inverts(LEMMA_SUB_LEMMA, body, more);
}

/// A lemma that is no message leaves none of the proof's message: wherever
/// its field stands among the fields, the error of the lemma is the error
/// of the message.
pub proof fn lemma_error_spreads(
    m: ProofMessage,
    front: Seq<u8>,
    body: Seq<u8>,
    more: Seq<u8>,
    budget: nat,
)
    requires
        budget > 0,
        body.len() <= u64::MAX,
    ensures
        match merge_message(m, front, budget) {
            Ok(held) => match merge_links(lemma_links(held), body, (budget - 1) as nat) {
                Err(e) => merge_message(
                    m,
                    front + (delimited_field(PROOF_LEMMA, body) + more),
                    budget,
                ) == Err::<ProofMessage, WireError>(e),
                Ok(_) => true,
            },
            Err(_) => true,
        },
{
    merge_message_extends(m, front, delimited_field(PROOF_LEMMA, body) + more, budget);
    delimited_field_inverts(PROOF_LEMMA, body, more);
}

/// No lemma gets a sibling on each side: where the fields at the front of
/// a buffer leave the lemma with a sibling on one side, a field for the
/// other side behind them makes the buffer no message, whatever follows.
pub proof fn sibling_on_each_side_rejected(
    links: Seq<Link>,
    front: Seq<u8>,
    hash: Seq<u8>,
    more: Seq<u8>,
    budget: nat,
)
    requires
        hash.len() <= u64::MAX,
    ensures
        match merge_links(links, front, budget) {
            Ok(held) => {
                &&& holds_right(held) ==> merge_links(
                    links,
                    front + (delimited_field(LEMMA_LEFT_SIBLING, hash) + more),
                    budget,
                ) == Err::<Seq<Link>, WireError>(WireError::ConflictingSiblings)
                &&& holds_left(held) ==> merge_links(
                    links,
                    front + (delimited_field(LEMMA_RIGHT_SIBLING, hash) + more),
                    budget,
                ) == Err::<Seq<Link>, WireError>(WireError::ConflictingSiblings)
            },
            Err(_) => true,
        },
{
    merge_links_extends(links, front, delimited_field(LEMMA_LEFT_SIBLING, hash) + more, budget);
    merge_links_extends(links, front, delimited_field(LEMMA_RIGHT_SIBLING, hash) + more, budget);
    match merge_links(links, front, budget) {
        Ok(held) => {
            other_sibling_rejected(held, hash, more, budget);
        },
        Err(_) => {},
    }
}

/// A sibling on the left is refused by a lemma that has one on the right,
/// and a sibling on the right by a lemma that has one on the left, whatever
/// follows in the buffer.
pub proof fn other_sibling_rejected(links: Seq<Link>, hash: Seq<u8>, rest: Seq<u8>, budget: nat)
    requires
        hash.len() <= u64::MAX,
    ensures
        holds_right(links) ==> merge_links(
            links,
            delimited_field(LEMMA_LEFT_SIBLING, hash) + rest,
            budget,
        ) == Err::<Seq<Link>, WireError>(WireError::ConflictingSiblings),
        holds_left(links) ==> merge_links(
            links,
            delimited_field(LEMMA_RIGHT_SIBLING, hash) + rest,
            budget,
        ) == Err::<Seq<Link>, WireError>(WireError::ConflictingSiblings),
{
    delimited_field_inverts(LEMMA_LEFT_SIBLING, hash, rest);
    delimited_field_inverts(LEMMA_RIGHT_SIBLING, hash, rest);
}

/// Bytes that give a lemma a sibling on each side, in either order, are no
/// message: they give an error, whatever the lemma held before and whatever
/// follows.
pub proof fn both_siblings_rejected(
    links: Seq<Link>,
    first: Seq<u8>,
    second: Seq<u8>,
    rest: Seq<u8>,
    budget: nat,
)
    requires
        links.len() >= 1,
        first.len() <= u64::MAX,
        second.len() <= u64::MAX,
    ensures
        merge_links(
            links,
            delimited_field(LEMMA_LEFT_SIBLING, first) + (delimited_field(
                LEMMA_RIGHT_SIBLING,
                second,
            ) + rest),
            budget,
        ) == Err::<Seq<Link>, WireError>(WireError::ConflictingSiblings),
        merge_links(
            links,
            delimited_field(LEMMA_RIGHT_SIBLING, first) + (delimited_field(
                LEMMA_LEFT_SIBLING,
                second,
            ) + rest),
            budget,
        ) == Err::<Seq<Link>, WireError>(WireError::ConflictingSiblings),
{
    let left_then = delimited_field(LEMMA_RIGHT_SIBLING, second) + rest;
    let right_then = delimited_field(LEMMA_LEFT_SIBLING, second) + rest;
    delimited_field_inverts(LEMMA_LEFT_SIBLING, first, left_then);
    delimited_field_inverts(LEMMA_RIGHT_SIBLING, first, right_then);
    other_sibling_rejected(links, first, left_then, budget);
    other_sibling_rejected(links, first, right_then, budget);
    other_sibling_rejected(with_sibling(links, Positioned::Left(first)), second, rest, budget);
    other_sibling_rejected(with_sibling(links, Positioned::Right(first)), second, rest, budget);
}

/// A valid proof survives the way to its bytes and back: the bytes of the
/// message that carries it decode to a message that is accepted, and the
/// proof that such a message yields under the same algorithm equals it field
/// for field. This holds where the chain has no more links than the nesting
/// limit, the lengths fit 64 bits, the value's bytes alone decide the value,
/// and turning the value into bytes and back gives the value.
pub proof fn bytes_round_trip<T: Into<Vec<u8>> + From<Vec<u8>>>(
    p: Proof<T>,
    m: ProofProto,
    back: ProofProto,
    q: Proof<T>,
)
    requires
        p.wf(),
        p.lemma@.len() <= RECURSION_LIMIT,
        m.carries(p),
        message_bytes(m@).len() <= u64::MAX,
        decode_message(message_bytes(m@)) == Ok::<ProofMessage, WireError>(back@),
        back.yields(p.algorithm, q),
        <T as IntoSpec<Vec<u8>>>::obeys_into_spec(),
        <T as FromSpec<Vec<u8>>>::obeys_from_spec(),
        forall|v: Vec<u8>, w: Vec<u8>| v@ == w@ ==> #[trigger] T::from_spec(v) == #[trigger] T::from_spec(w),
        T::from_spec(p.value.into_spec()) == p.value,
    ensures
        back@ == m@,
        message_valid(back@),
        q@ == p@,
{
    m.lemma.unwrap().links_nonempty();
    message_bytes_invert(m@);
    assert(T::from_spec(back.value) == T::from_spec(m.value));
}

} // verus!
