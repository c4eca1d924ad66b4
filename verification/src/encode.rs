//! The bytes of a message: its fields in the order of their numbers, a field
//! of bytes left out where it is empty, a message inside a message behind its
//! length.

use vstd::prelude::*;
use crate::model::{Link, Positioned};
use crate::proto::{
    sibling_field_view, LemmaProto, ProofMessage, ProofProto, SiblingHash, LEMMA_LEFT_SIBLING,
    LEMMA_NODE_HASH, LEMMA_RIGHT_SIBLING, LEMMA_SUB_LEMMA, PROOF_LEMMA, PROOF_ROOT_HASH,
    PROOF_VALUE,
};
use crate::varint::put_varint;
use crate::wire::{delimited_field, key, MAX_TAG, WIRE_DELIMITED};

verus! {

/// Why a message was not written.
#[derive(Clone, Copy, Debug, PartialEq, Eq)]
pub struct EncodeError {
    /// The number of bytes that the message takes.
    pub required: usize,
    /// The number of bytes that a buffer can hold.
    pub remaining: usize,
}

/// The bytes of a plain field of bytes: none where it is empty.
pub open spec fn plain_bytes(tag: u32, data: Seq<u8>) -> Seq<u8> {
    if data.len() == 0 {
        Seq::empty()
    } else {
        delimited_field(tag, data)
    }
}

/// The bytes of a lemma's sibling: one of two fields, or none.
pub open spec fn sibling_bytes(sibling: Option<Positioned<Seq<u8>>>) -> Seq<u8> {
    match sibling {
        Some(Positioned::Left(hash)) => delimited_field(LEMMA_LEFT_SIBLING, hash),
        Some(Positioned::Right(hash)) => delimited_field(LEMMA_RIGHT_SIBLING, hash),
        None => Seq::empty(),
    }
}

/// The bytes of the next lemma inside a lemma: none at the end of the chain.
pub open spec fn sub_lemma_bytes(links: Seq<Link>) -> Seq<u8>
    decreases links.len(), 1nat,
{
    if links.len() == 0 {
        Seq::empty()
    } else {
        delimited_field(LEMMA_SUB_LEMMA, lemma_bytes(links))
    }
}

/// The bytes of a lemma's message.
pub open spec fn lemma_bytes(links: Seq<Link>) -> Seq<u8>
    decreases links.len(), 0nat,
{
    if links.len() == 0 {
        Seq::empty()
    } else {
        plain_bytes(LEMMA_NODE_HASH, links[0].node_hash) + sub_lemma_bytes(links.skip(1))
            + sibling_bytes(links[0].sibling_hash)
    }
}

/// The bytes of a proof's message.
pub open spec fn message_bytes(m: ProofMessage) -> Seq<u8> {
    plain_bytes(PROOF_ROOT_HASH, m.root_hash) + match m.lemma {
        Some(links) => delimited_field(PROOF_LEMMA, lemma_bytes(links)),
        None => Seq::empty(),
    } + plain_bytes(PROOF_VALUE, m.value)
}

/// What writing a message returns: its bytes where a buffer can hold them,
/// else the two sizes.
pub open spec fn written(m: ProofMessage, res: Result<Vec<u8>, EncodeError>) -> bool {
    match res {
        Ok(bytes) => bytes@ == message_bytes(m) && message_bytes(m).len() <= isize::MAX,
        Err(e) => {
            &&& message_bytes(m).len() > isize::MAX
            &&& e.required == message_bytes(m).len()
            &&& e.remaining == isize::MAX
        },
    }
}

/// Appends `data` to `buf`.
pub fn put_slice(data: &[u8], buf: &mut Vec<u8>)
    ensures
        final(buf)@ == old(buf)@ + data@,
{
    let ghost before = buf@;
    buf.extend_from_slice(data);
    assert(buf@ =~= before + data@);
}

/// Appends a key to `buf`.
pub fn put_key(tag: u32, wire_type: u8, buf: &mut Vec<u8>)
    requires
        tag <= MAX_TAG,
        wire_type <= 5,
    ensures
        final(buf)@ == old(buf)@ + key(tag, wire_type),
{
    put_varint((tag * 8 + wire_type as u32) as u64, buf);
}

/// Appends to `buf` a field that holds `data` behind its length.
pub fn put_delimited(tag: u32, data: &[u8], buf: &mut Vec<u8>)
    requires
        tag <= MAX_TAG,
    ensures
        final(buf)@ == old(buf)@ + delimited_field(tag, data@),
{
    let ghost before = buf@;
    put_key(tag, WIRE_DELIMITED, buf);
    put_varint(data.len() as u64, buf);
    put_slice(data, buf);
    assert(buf@ =~= before + delimited_field(tag, data@));
}

/// Appends to `buf` a plain field of bytes, unless it is empty.
pub fn put_plain_bytes(tag: u32, data: &[u8], buf: &mut Vec<u8>)
    requires
        tag <= MAX_TAG,
    ensures
        final(buf)@ == old(buf)@ + plain_bytes(tag, data@),
{
    if data.len() > 0 {
        put_delimited(tag, data, buf);
    } else {
        assert(buf@ =~= buf@ + plain_bytes(tag, data@));
    }
}

/// Appends to `buf` the field of a lemma's sibling, if it has one.
pub fn put_sibling(sibling: &Option<SiblingHash>, buf: &mut Vec<u8>)
    ensures
        final(buf)@ == old(buf)@ + sibling_bytes(sibling_field_view(*sibling)),
{
    match sibling {
        Some(SiblingHash::LeftSiblingHash(hash)) => {
            put_delimited(LEMMA_LEFT_SIBLING, hash.as_slice(), buf);
        },
        Some(SiblingHash::RightSiblingHash(hash)) => {
            put_delimited(LEMMA_RIGHT_SIBLING, hash.as_slice(), buf);
        },
        None => {
            assert(buf@ =~= buf@ + Seq::<u8>::empty());
        },
    }
}

impl LemmaProto {
    /// The bytes of this message. The chain is walked in a loop, from its
    /// last link outward.
    pub fn encode_to_vec(&self) -> (out: Vec<u8>)
        ensures
            out@ == lemma_bytes(self@),
    {
        let chain = self.chain();
        let mut out: Vec<u8> = Vec::new();
        let mut i: usize = chain.len();
        assert(self@.skip(i as int) =~= Seq::<Link>::empty());
        while i > 0
            invariant
                i <= chain@.len(),
                chain@.len() == self@.len(),
                forall|i: int| 0 <= i < chain@.len() ==> (#[trigger] chain@[i])@ == self@.skip(i),
                out@ == lemma_bytes(self@.skip(i as int)),
            decreases i,
        {
            i = i - 1;
            let link: &LemmaProto = chain[i];
            let ghost links = self@.skip(i as int);
            let mut level: Vec<u8> = Vec::new();
            put_plain_bytes(LEMMA_NODE_HASH, link.node_hash.as_slice(), &mut level);
            if i + 1 < chain.len() {
                put_delimited(LEMMA_SUB_LEMMA, out.as_slice(), &mut level);
            }
            put_sibling(&link.sibling_hash, &mut level);
            proof {
                assert(link@ == links);
                assert(links[0] == link.head());
                assert(links.skip(1) =~= self@.skip(i + 1));
                assert(level@ =~= lemma_bytes(links));
            }
            out = level;
        }
        assert(self@.skip(0) =~= self@);
        out
    }
}

impl ProofProto {
    /// The bytes of this message, or the sizes where no buffer can hold
    /// them.
    pub fn encode(&self) -> (res: Result<Vec<u8>, EncodeError>)
        ensures
            written(self@, res),
    {
        let mut buf: Vec<u8> = Vec::new();
        put_plain_bytes(PROOF_ROOT_HASH, self.root_hash.as_slice(), &mut buf);
        match &self.lemma {
            Some(lemma) => {
                let body = lemma.encode_to_vec();
                put_delimited(PROOF_LEMMA, body.as_slice(), &mut buf);
            },
            None => {},
        }
        put_plain_bytes(PROOF_VALUE, self.value.as_slice(), &mut buf);
        assert(buf@ =~= message_bytes(self@));
        if buf.len() > isize::MAX as usize {
            Err(EncodeError { required: buf.len(), remaining: isize::MAX as usize })
        } else {
            Ok(buf)
        }
    }
}

} // verus!
