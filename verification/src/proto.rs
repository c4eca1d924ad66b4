//! The wire messages of a proof and the conversions between them and the
//! proof model. Turning a message into a model value validates it: a message
//! that lacks a hash anywhere gives no value at all.

use vstd::prelude::*;
use crate::decode::decode_message;
use crate::encode::{written, EncodeError};
use crate::model::{
    clone_bytes, links_valid, links_valid_concat, sibling_view, Lemma, Link, Positioned, Proof,
};
use crate::wire::WireError;

verus! {

/// The number of a lemma's field for the hash of its node.
pub const LEMMA_NODE_HASH: u32 = 1;

/// The number of a lemma's field for the next lemma.
pub const LEMMA_SUB_LEMMA: u32 = 2;

/// The number of a lemma's field for a sibling on the left.
pub const LEMMA_LEFT_SIBLING: u32 = 3;

/// The number of a lemma's field for a sibling on the right.
pub const LEMMA_RIGHT_SIBLING: u32 = 4;

/// The number of a proof's field for the root hash.
pub const PROOF_ROOT_HASH: u32 = 1;

/// The number of a proof's field for the lemma.
pub const PROOF_LEMMA: u32 = 2;

/// The number of a proof's field for the value.
pub const PROOF_VALUE: u32 = 3;

/// The sibling of a link on the wire: one of two fields, each a hash.
#[derive(Debug, PartialEq, Eq)]
pub enum SiblingHash {
    LeftSiblingHash(Vec<u8>),
    RightSiblingHash(Vec<u8>),
}

/// The wire message of one link, owning the message of the next link.
#[derive(Debug, PartialEq, Eq)]
pub struct LemmaProto {
    pub node_hash: Vec<u8>,
    pub sub_lemma: Option<Box<LemmaProto>>,
    pub sibling_hash: Option<SiblingHash>,
}

/// The sibling field of a message as a mathematical value.
pub open spec fn sibling_field_view(s: Option<SiblingHash>) -> Option<Positioned<Seq<u8>>> {
    match s {
        Some(SiblingHash::LeftSiblingHash(h)) => Some(Positioned::Left(h@)),
        Some(SiblingHash::RightSiblingHash(h)) => Some(Positioned::Right(h@)),
        None => None,
    }
}

/// The links held by a stack of hashes and siblings, the bottom first.
pub open spec fn stacked_links(stack: Seq<(Vec<u8>, Option<Positioned<Vec<u8>>>)>) -> Seq<Link> {
    Seq::new(
        stack.len(),
        |i: int| Link { node_hash: stack[i].0@, sibling_hash: sibling_view(stack[i].1) },
    )
}

/// The link of a message that has no field.
pub open spec fn default_link() -> Link {
    Link { node_hash: Seq::empty(), sibling_hash: None }
}

impl Default for LemmaProto {
    /// The message that has no field.
    fn default() -> (res: Self)
        ensures
            res@ == seq![default_link()],
    {
        LemmaProto { node_hash: Vec::new(), sub_lemma: None, sibling_hash: None }
    }
}

impl LemmaProto {
    /// The outermost link of this message.
    pub open spec fn head(&self) -> Link {
        Link { node_hash: self.node_hash@, sibling_hash: sibling_field_view(self.sibling_hash) }
    }

    /// The links of the message, the outermost first.
    pub open spec fn links(&self) -> Seq<Link>
        decreases self,
    {
        match self.sub_lemma {
            Some(sub) => seq![self.head()] + (*sub).links(),
            None => seq![self.head()],
        }
    }
}

impl LemmaProto {
    /// A message holds at least its own link.
    pub proof fn links_nonempty(&self)
        ensures
            self@.len() >= 1,
            self@[0] == self.head(),
    {
    }
}

impl LemmaProto {
    /// Gives the message up link by link. Letting a message go out of scope
    /// gives it up link inside link, which for a very long one may take more
    /// stack than there is.
    pub fn unlink(self) {
        let mut rest = self.sub_lemma;
        loop
            decreases rest,
        {
            match rest {
                None => {
                    return ;
                },
                Some(link) => {
                    let LemmaProto { node_hash: _, sub_lemma, sibling_hash: _ } = *link;
                    rest = sub_lemma;
                },
            }
        }
    }

    /// The messages of the chain in a row, the outermost first: each holds
    /// the links from its own on.
    pub fn chain(&self) -> (chain: Vec<&LemmaProto>)
        ensures
            chain@.len() == self@.len(),
            forall|i: int| 0 <= i < chain@.len() ==> (#[trigger] chain@[i])@ == self@.skip(i),
    {
        let mut chain: Vec<&LemmaProto> = Vec::new();
        let mut cur: &LemmaProto = self;
        proof {
            self.links_nonempty();
            assert(self@.skip(0) =~= self@);
        }
        loop
            invariant_except_break
                cur@ == self@.skip(chain@.len() as int),
                chain@.len() < self@.len(),
            invariant
                forall|i: int| 0 <= i < chain@.len() ==> (#[trigger] chain@[i])@ == self@.skip(i),
            ensures
                chain@.len() == self@.len(),
            decreases cur,
        {
            let ghost at = chain@.len() as int;
            chain.push(cur);
            match &cur.sub_lemma {
                Some(next) => {
                    proof {
                        next.links_nonempty();
                        assert(self@.skip(at).skip(1) =~= self@.skip(at + 1));
                        assert(cur@.skip(1) =~= next@);
                    }
                    cur = &**next;
                },
                None => {
                    assert(cur@.len() == 1);
                    assert(self@.skip(at).len() == self@.len() - at);
                    break ;
                },
            }
        }
        chain
    }
}

/// A copy of a sibling field.
pub fn clone_sibling_field(sibling: &Option<SiblingHash>) -> (res: Option<SiblingHash>)
    ensures
        sibling_field_view(res) == sibling_field_view(*sibling),
{
    match sibling {
        Some(SiblingHash::LeftSiblingHash(hash)) => Some(
            SiblingHash::LeftSiblingHash(clone_bytes(hash)),
        ),
        Some(SiblingHash::RightSiblingHash(hash)) => Some(
            SiblingHash::RightSiblingHash(clone_bytes(hash)),
        ),
        None => None,
    }
}

impl Clone for LemmaProto {
    /// A copy of the message, link for link, built from its last link
    /// outward.
    fn clone(&self) -> (res: Self)
        ensures
            res@ == self@,
    {
        let chain = self.chain();
        proof {
            self.links_nonempty();
        }
        let mut i: usize = chain.len() - 1;
        let last: &LemmaProto = chain[i];
        let mut res = LemmaProto {
            node_hash: clone_bytes(&last.node_hash),
            sub_lemma: None,
            sibling_hash: clone_sibling_field(&last.sibling_hash),
        };
        proof {
            last.links_nonempty();
            assert(self@.skip(i as int).len() == 1);
            assert(res@ =~= self@.skip(i as int));
        }
        while i > 0
            invariant
                i < chain@.len(),
                chain@.len() == self@.len(),
                forall|i: int| 0 <= i < chain@.len() ==> (#[trigger] chain@[i])@ == self@.skip(i),
                res@ == self@.skip(i as int),
            decreases i,
        {
            i = i - 1;
            let link: &LemmaProto = chain[i];
            let ghost inner = res@;
            res =
            LemmaProto {
                node_hash: clone_bytes(&link.node_hash),
                sub_lemma: Some(Box::new(res)),
                sibling_hash: clone_sibling_field(&link.sibling_hash),
            };
            proof {
                link.links_nonempty();
                assert(self@.skip(i as int).skip(1) =~= inner);
                assert(res@ =~= self@.skip(i as int));
            }
        }
        assert(self@.skip(0) =~= self@);
        res
    }
}

impl View for LemmaProto {
    type V = Seq<Link>;

    open spec fn view(&self) -> Seq<Link> {
        self.links()
    }
}

/// What validating the links of a message gives: the same links, if each
/// of them carries a hash.
pub open spec fn validated_links(links: Seq<Link>) -> Option<Seq<Link>> {
    if links_valid(links) {
        Some(links)
    } else {
        None
    }
}

/// The wire message of a proof.
#[derive(Debug, PartialEq, Eq)]
pub struct ProofProto {
    pub root_hash: Vec<u8>,
    pub lemma: Option<LemmaProto>,
    pub value: Vec<u8>,
}

impl Clone for ProofProto {
    /// A copy of the message, field for field.
    fn clone(&self) -> (res: Self)
        ensures
            res@ == self@,
    {
        ProofProto {
            root_hash: clone_bytes(&self.root_hash),
            lemma: match &self.lemma {
                Some(lemma) => Some(lemma.clone()),
                None => None,
            },
            value: clone_bytes(&self.value),
        }
    }
}

/// The wire message of a proof as a mathematical value.
pub struct ProofMessage {
    pub root_hash: Seq<u8>,
    pub lemma: Option<Seq<Link>>,
    pub value: Seq<u8>,
}

impl View for ProofProto {
    type V = ProofMessage;

    open spec fn view(&self) -> ProofMessage {
        ProofMessage {
            root_hash: self.root_hash@,
            lemma: match self.lemma {
                Some(lemma) => Some(lemma@),
                None => None,
            },
            value: self.value@,
        }
    }
}

/// The proof message that has no field.
pub open spec fn default_message() -> ProofMessage {
    ProofMessage { root_hash: Seq::empty(), lemma: None, value: Seq::empty() }
}

impl Default for ProofProto {
    /// The message that has no field.
    fn default() -> (res: Self)
        ensures
            res@ == default_message(),
    {
        ProofProto { root_hash: Vec::new(), lemma: None, value: Vec::new() }
    }
}

/// A message is accepted as a proof when it has a root hash and a lemma, and
/// every link of the lemma has a hash.
pub open spec fn message_valid(m: ProofMessage) -> bool {
    m.root_hash.len() > 0 && m.lemma is Some && links_valid(m.lemma.unwrap())
}

impl LemmaProto {
    /// Copies a chain of lemmas into its message. Every chain has one.
    ///
    /// The chain is taken apart and the message put together link by link
    /// in loops, so the length of the chain costs no stack here.
    pub fn from_lemma(lemma: Lemma) -> (res: Self)
        ensures
            res@ == lemma@,
    {
        let mut stack: Vec<(Vec<u8>, Option<Positioned<Vec<u8>>>)> = Vec::new();
        let mut cur = lemma;
        loop
            invariant
                lemma@ == stacked_links(stack@) + cur@,
            decreases cur,
        {
            let ghost before = cur@;
            let Lemma { node_hash, sibling_hash, sub_lemma } = cur;
            match sub_lemma {
                Some(next) => {
                    let ghost below = stacked_links(stack@);
                    stack.push((node_hash, sibling_hash));
                    cur = *next;
                    proof {
                        assert(stacked_links(stack@) =~= below + seq![before[0]]);
                        assert(before =~= seq![before[0]] + cur@);
                        assert(lemma@ =~= stacked_links(stack@) + cur@);
                    }
                },
                None => {
                    let mut message = LemmaProto {
                        node_hash,
                        sub_lemma: None,
                        sibling_hash: Self::sibling_field(sibling_hash),
                    };
                    assert(message@ =~= before);
                    while stack.len() > 0
                        invariant
                            lemma@ == stacked_links(stack@) + message@,
                        decreases stack.len(),
                    {
                        let ghost above = stacked_links(stack@);
                        let ghost inner = message@;
                        let (hash, side) = stack.pop().unwrap();
                        message = LemmaProto {
                            node_hash: hash,
                            sub_lemma: Some(Box::new(message)),
                            sibling_hash: Self::sibling_field(side),
                        };
                        proof {
                            let top = above[above.len() - 1];
                            assert(message@ =~= seq![top] + inner);
                            assert(above =~= stacked_links(stack@) + seq![top]);
                            assert(lemma@ =~= stacked_links(stack@) + message@);
                        }
                    }
                    assert(stacked_links(stack@) =~= Seq::<Link>::empty());
                    assert(lemma@ =~= message@);
                    return message;
                },
            }
        }
    }

    /// The sibling field that stands for a positioned sibling hash.
    fn sibling_field(sibling: Option<Positioned<Vec<u8>>>) -> (res: Option<SiblingHash>)
        ensures
            sibling_field_view(res) == sibling_view(sibling),
    {
        match sibling {
            Some(Positioned::Left(hash)) => Some(SiblingHash::LeftSiblingHash(hash)),
            Some(Positioned::Right(hash)) => Some(SiblingHash::RightSiblingHash(hash)),
            None => None,
        }
    }

    /// Validates a message and turns it into a chain of lemmas. One link
    /// without a hash, wherever it stands, leaves nothing of the chain.
    ///
    /// The message is taken apart link by link in a loop, also where it is
    /// given up at a link without a hash, so its length costs no stack
    /// here. The chain that comes back is the caller's: see `Lemma::unlink`.
    pub fn into_lemma(self) -> (res: Option<Lemma>)
        ensures
            match validated_links(self@) {
                Some(links) => res is Some && res.unwrap()@ == links,
                None => res is None,
            },
    {
        let ghost all = self@;
        let mut stack: Vec<(Vec<u8>, Option<Positioned<Vec<u8>>>)> = Vec::new();
        let mut cur = self;
        loop
            invariant
                all == self@,
                all == stacked_links(stack@) + cur@,
                links_valid(stacked_links(stack@)),
            decreases cur,
        {
            let ghost before = cur@;
            let LemmaProto { node_hash, sub_lemma, sibling_hash } = cur;
            if node_hash.is_empty() {
                proof {
                    assert(before[0].node_hash.len() == 0);
                    links_valid_concat(stacked_links(stack@), before);
                }
                if let Some(next) = sub_lemma {
                    (*next).unlink();
                }
                return None;
            }
            let sibling = match sibling_hash {
                Some(SiblingHash::LeftSiblingHash(hash)) => Some(Positioned::Left(hash)),
                Some(SiblingHash::RightSiblingHash(hash)) => Some(Positioned::Right(hash)),
                None => None,
            };
            match sub_lemma {
                Some(next) => {
                    let ghost below = stacked_links(stack@);
                    stack.push((node_hash, sibling));
                    cur = *next;
                    proof {
                        assert(stacked_links(stack@) =~= below + seq![before[0]]);
                        assert(before =~= seq![before[0]] + cur@);
                        assert(all =~= stacked_links(stack@) + cur@);
                        links_valid_concat(below, seq![before[0]]);
                    }
                },
                None => {
                    let mut lemma = Lemma { node_hash, sibling_hash: sibling, sub_lemma: None };
                    proof {
                        assert(lemma@ =~= before);
                        links_valid_concat(stacked_links(stack@), lemma@);
                    }
                    while stack.len() > 0
                        invariant
                            all == self@,
                            all == stacked_links(stack@) + lemma@,
                            links_valid(stacked_links(stack@)),
                            links_valid(lemma@),
                        decreases stack.len(),
                    {
                        let ghost above = stacked_links(stack@);
                        let ghost inner = lemma@;
                        let (hash, side) = stack.pop().unwrap();
                        lemma = Lemma {
                            node_hash: hash,
                            sibling_hash: side,
                            sub_lemma: Some(Box::new(lemma)),
                        };
                        proof {
                            let top = above[above.len() - 1];
                            assert(lemma@ =~= seq![top] + inner);
                            assert(above =~= stacked_links(stack@) + seq![top]);
                            assert(all =~= stacked_links(stack@) + lemma@);
                            links_valid_concat(stacked_links(stack@), seq![top]);
                            links_valid_concat(seq![top], inner);
                        }
                    }
                    assert(stacked_links(stack@) =~= Seq::<Link>::empty());
                    assert(all =~= lemma@);
                    return Some(lemma);
                },
            }
        }
    }
}

impl ProofProto {
    /// This message holds exactly what the proof holds: its root hash, its
    /// links, and the bytes that the value turns into.
    pub open spec fn carries<T: Into<Vec<u8>>>(&self, proof: Proof<T>) -> bool {
        &&& self.root_hash@ == proof.root_hash@
        &&& self.lemma is Some
        &&& self.lemma.unwrap()@ == proof.lemma@
        &&& call_ensures(<T as Into<Vec<u8>>>::into, (proof.value,), self.value)
    }

    /// The proof holds exactly what this message holds, under the algorithm:
    /// its root hash, its links, and the value that its bytes turn into.
    pub open spec fn yields<T: From<Vec<u8>>>(
        &self,
        algorithm: &'static ring::digest::Algorithm,
        proof: Proof<T>,
    ) -> bool {
        &&& proof.algorithm == algorithm
        &&& proof.root_hash@ == self.root_hash@
        &&& Some(proof.lemma@) == self@.lemma
        &&& call_ensures(<T as From<Vec<u8>>>::from, (self.value,), proof.value)
    }

    /// Copies a proof into its message. Every proof has one.
    pub fn from_proof<T>(proof: Proof<T>) -> (res: Self) where T: Into<Vec<u8>>
        ensures
            res.carries(proof),
    {
        ProofProto {
            root_hash: proof.root_hash,
            lemma: Some(LemmaProto::from_lemma(proof.lemma)),
            value: proof.value.into(),
        }
    }

    /// Validates a message and turns it into a proof under the given
    /// algorithm. A message without a root hash, without a lemma, or with a
    /// link that has no hash gives no proof. A message that is given up is
    /// taken apart link by link.
    pub fn into_proof<T>(self, algorithm: &'static ring::digest::Algorithm) -> (res: Option<
        Proof<T>,
    >) where T: From<Vec<u8>>
        ensures
            res is Some <==> message_valid(self@),
            res is Some ==> self.yields(algorithm, res.unwrap()) && res.unwrap().wf(),
    {
        let ProofProto { root_hash, lemma, value } = self;
        if root_hash.is_empty() {
            if let Some(message) = lemma {
                message.unlink();
            }
            return None;
        }
        match lemma {
            None => None,
            Some(message) => match message.into_lemma() {
                None => None,
                Some(lemma) => Some(Proof::new(algorithm, root_hash, lemma, T::from(value))),
            },
        }
    }
}

impl<T> Proof<T> {
    /// Builds a proof from its message, if the message is valid.
    pub fn from_protobuf(algorithm: &'static ring::digest::Algorithm, proto: ProofProto) -> (res:
        Option<Self>) where T: From<Vec<u8>>
        ensures
            res is Some <==> message_valid(proto@),
            res is Some ==> proto.yields(algorithm, res.unwrap()) && res.unwrap().wf(),
    {
        proto.into_proof(algorithm)
    }

    /// The message of this proof.
    pub fn into_protobuf(self) -> (res: ProofProto) where T: Into<Vec<u8>>
        ensures
            res.carries(self),
    {
        ProofProto::from_proof(self)
    }

    /// What reading a proof from a decoded buffer returns: the error where
    /// the buffer holds no message, nothing where the message is no valid
    /// proof, else the proof that the message yields.
    pub open spec fn parsed(
        decoded: Result<ProofMessage, WireError>,
        algorithm: &'static ring::digest::Algorithm,
        res: Result<Option<Self>, WireError>,
    ) -> bool where T: From<Vec<u8>> {
        match decoded {
            Err(e) => res == Err::<Option<Self>, WireError>(e),
            Ok(m) => match res {
                Err(_) => false,
                Ok(None) => !message_valid(m),
                Ok(Some(proof)) => {
                    &&& message_valid(m)
                    &&& proof.wf()
                    &&& exists|proto: ProofProto|
                        proto@ == m && #[trigger] proto.yields(algorithm, proof)
                },
            },
        }
    }

    /// Reads a proof from the bytes of its message. Bytes that are no
    /// message give an error; a message that is no valid proof gives
    /// nothing, which is no error.
    pub fn parse_from_bytes(bytes: &[u8], algorithm: &'static ring::digest::Algorithm) -> (res:
        Result<Option<Self>, WireError>) where T: From<Vec<u8>>
        ensures
            Self::parsed(decode_message(bytes@), algorithm, res),
    {
        match ProofProto::decode(bytes) {
            Err(e) => Err(e),
            Ok(proto) => {
                let found = proto.into_proof(algorithm);
                proof {
                    if found is Some {
                        assert(proto.yields(algorithm, found.unwrap()));
                    }
                }
                Ok(found)
            },
        }
    }

    /// The bytes of this proof's message, or the sizes where no buffer can
    /// hold them.
    pub fn write_to_bytes(self) -> (res: Result<Vec<u8>, EncodeError>) where T: Into<Vec<u8>>
        ensures
            exists|proto: ProofProto| #[trigger] proto.carries(self) && written(proto@, res),
    {
        let proto = self.into_protobuf();
        let res = proto.encode();
        assert(proto.carries(self) && written(proto@, res));
        res
    }
}

} // verus!
