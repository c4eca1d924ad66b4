//! The proof model: a chain of lemmas from the root side to the leaf side,
//! the root hash it resolves to and the value it proves included.

use vstd::prelude::*;

verus! {

/// The hash algorithm of a proof. This library hands it on and never looks
/// inside it.
#[verifier::external_type_specification]
#[verifier::external_body]
pub struct ExAlgorithm(ring::digest::Algorithm);

/// A hash together with the side on which it combines with its sibling.
#[derive(Clone, Debug, PartialEq, Eq)]
pub enum Positioned<T> {
    /// The hash lies to the left of the current node.
    Left(T),
    /// The hash lies to the right of the current node.
    Right(T),
}

/// One link of an audit chain as a mathematical value.
pub struct Link {
    /// The hash of the node that the link describes.
    pub node_hash: Seq<u8>,
    /// The sibling that the parent's hash is computed with, if any.
    pub sibling_hash: Option<Positioned<Seq<u8>>>,
}

/// One link of an audit chain, owning the rest of the chain toward the leaf.
#[derive(Debug, PartialEq, Eq)]
pub struct Lemma {
    /// The hash of the node that the lemma describes. An empty one stands
    /// for no hash.
    pub node_hash: Vec<u8>,
    /// The sibling that the parent's hash is computed with. Only the link
    /// next to the root has none.
    pub sibling_hash: Option<Positioned<Vec<u8>>>,
    /// The next link toward the leaf. Only the last link has none.
    pub sub_lemma: Option<Box<Lemma>>,
}

/// The sibling of a link as a mathematical value.
pub open spec fn sibling_view(s: Option<Positioned<Vec<u8>>>) -> Option<Positioned<Seq<u8>>> {
    match s {
        Some(Positioned::Left(h)) => Some(Positioned::Left(h@)),
        Some(Positioned::Right(h)) => Some(Positioned::Right(h@)),
        None => None,
    }
}

impl Lemma {
    /// The outermost link of this chain.
    pub open spec fn head(&self) -> Link {
        Link { node_hash: self.node_hash@, sibling_hash: sibling_view(self.sibling_hash) }
    }

    /// The links of the chain, the outermost first.
    pub open spec fn links(&self) -> Seq<Link>
        decreases self,
    {
        match self.sub_lemma {
            Some(sub) => seq![self.head()] + (*sub).links(),
            None => seq![self.head()],
        }
    }
}

/// A copy of a sibling.
pub fn clone_sibling(sibling: &Option<Positioned<Vec<u8>>>) -> (res: Option<Positioned<Vec<u8>>>)
    ensures
        sibling_view(res) == sibling_view(*sibling),
{
    match sibling {
        Some(Positioned::Left(hash)) => Some(Positioned::Left(clone_bytes(hash))),
        Some(Positioned::Right(hash)) => Some(Positioned::Right(clone_bytes(hash))),
        None => None,
    }
}

/// A copy of a hash.
pub fn clone_bytes(bytes: &Vec<u8>) -> (res: Vec<u8>)
    ensures
        res@ == bytes@,
{
    let res = bytes.clone();
    assert(res@ =~= bytes@);
    res
}

impl Lemma {
    /// A chain holds at least its own link.
    pub proof fn links_nonempty(&self)
        ensures
            self@.len() >= 1,
            self@[0] == self.head(),
    {
    }

    /// Gives the chain up link by link. Letting a chain go out of scope
    /// gives it up link inside link, which for a very long one may take more
    /// stack than there is.
    pub fn unlink(self) {
        let mut rest = self.sub_lemma;
        loop
            decreases rest,
        {
            match rest {
                None => {
                    return ;
                },
                Some(link) => {
                    let Lemma { node_hash: _, sibling_hash: _, sub_lemma } = *link;
                    rest = sub_lemma;
                },
            }
        }
    }

    /// The lemmas of the chain in a row, the outermost first: each holds
    /// the links from its own on.
    pub fn chain(&self) -> (chain: Vec<&Lemma>)
        ensures
            chain@.len() == self@.len(),
            forall|i: int| 0 <= i < chain@.len() ==> (#[trigger] chain@[i])@ == self@.skip(i),
    {
        let mut chain: Vec<&Lemma> = Vec::new();
        let mut cur: &Lemma = self;
        proof {
            self.links_nonempty();
            assert(self@.skip(0) =~= self@);
        }
        loop
            invariant_except_break
                cur@ == self@.skip(chain@.len() as int),
                chain@.len() < self@.len(),
            invariant
                forall|i: int| 0 <= i < chain@.len() ==> (#[trigger] chain@[i])@ == self@.skip(i),
            ensures
                chain@.len() == self@.len(),
            decreases cur,
        {
            let ghost at = chain@.len() as int;
            chain.push(cur);
            match &cur.sub_lemma {
                Some(next) => {
                    proof {
                        next.links_nonempty();
                        assert(self@.skip(at).skip(1) =~= self@.skip(at + 1));
                        assert(cur@.skip(1) =~= next@);
                    }
                    cur = &**next;
                },
                None => {
                    assert(cur@.len() == 1);
                    assert(self@.skip(at).len() == self@.len() - at);
                    break ;
                },
            }
        }
        chain
    }
}

impl Clone for Lemma {
    /// A copy of the chain, link for link, built from its last link outward.
    fn clone(&self) -> (res: Self)
        ensures
            res@ == self@,
    {
        let chain = self.chain();
        proof {
            self.links_nonempty();
        }
        let mut i: usize = chain.len() - 1;
        let last: &Lemma = chain[i];
        let mut res = Lemma {
            node_hash: clone_bytes(&last.node_hash),
            sibling_hash: clone_sibling(&last.sibling_hash),
            sub_lemma: None,
        };
        proof {
            last.links_nonempty();
            assert(self@.skip(i as int).len() == 1);
            assert(res@ =~= self@.skip(i as int));
        }
        while i > 0
            invariant
                i < chain@.len(),
                chain@.len() == self@.len(),
                forall|i: int| 0 <= i < chain@.len() ==> (#[trigger] chain@[i])@ == self@.skip(i),
                res@ == self@.skip(i as int),
            decreases i,
        {
            i = i - 1;
            let link: &Lemma = chain[i];
            let ghost inner = res@;
            res =
            Lemma {
                node_hash: clone_bytes(&link.node_hash),
                sibling_hash: clone_sibling(&link.sibling_hash),
                sub_lemma: Some(Box::new(res)),
            };
            proof {
                link.links_nonempty();
                assert(self@.skip(i as int).skip(1) =~= inner);
                assert(res@ =~= self@.skip(i as int));
            }
        }
        assert(self@.skip(0) =~= self@);
        res
    }
}

impl View for Lemma {
    type V = Seq<Link>;

    /// The links of the chain, the outermost first.
    open spec fn view(&self) -> Seq<Link> {
        self.links()
    }
}

/// Every link of the chain carries a hash.
pub open spec fn links_valid(links: Seq<Link>) -> bool {
    forall|i: int| 0 <= i < links.len() ==> (#[trigger] links[i]).node_hash.len() > 0
}

/// A chain made of two parts is valid exactly when both parts are.
pub proof fn links_valid_concat(a: Seq<Link>, b: Seq<Link>)
    ensures
        links_valid(a + b) <==> links_valid(a) && links_valid(b),
{
    let ab = a + b;
    if links_valid(ab) {
        assert forall|i: int| 0 <= i < a.len() implies (#[trigger] a[i]).node_hash.len() > 0 by {
            assert(ab[i] == a[i]);
        }
        assert forall|i: int| 0 <= i < b.len() implies (#[trigger] b[i]).node_hash.len() > 0 by {
            assert(ab[i + a.len()] == b[i]);
        }
    }
    if links_valid(a) && links_valid(b) {
        assert forall|i: int| 0 <= i < ab.len() implies (#[trigger] ab[i]).node_hash.len() > 0 by {
            if i < a.len() {
                assert(ab[i] == a[i]);
            } else {
                assert(ab[i] == b[i - a.len()]);
            }
        }
    }
}

/// An audit proof: the claimed root hash, the chain of lemmas and the value.
#[derive(Debug, PartialEq, Eq)]
pub struct Proof<T> {
    /// The hash algorithm that the tree was built with.
    pub algorithm: &'static ring::digest::Algorithm,
    /// The hash that the chain is claimed to resolve to.
    pub root_hash: Vec<u8>,
    /// The chain of lemmas.
    pub lemma: Lemma,
    /// The value that is proved included.
    pub value: T,
}

/// An audit proof as a mathematical value.
pub struct ProofView<T> {
    /// The hash algorithm that the tree was built with.
    pub algorithm: &'static ring::digest::Algorithm,
    /// The hash that the chain is claimed to resolve to.
    pub root_hash: Seq<u8>,
    /// The links of the chain, the outermost first.
    pub lemma: Seq<Link>,
    /// The value that is proved included.
    pub value: T,
}

impl<T> View for Proof<T> {
    type V = ProofView<T>;

    open spec fn view(&self) -> ProofView<T> {
        ProofView {
            algorithm: self.algorithm,
            root_hash: self.root_hash@,
            lemma: self.lemma@,
            value: self.value,
        }
    }
}

impl<T: Clone> Clone for Proof<T> {
    /// A copy of the proof, field for field.
    fn clone(&self) -> (res: Self)
        ensures
            res.algorithm == self.algorithm,
            res.root_hash@ == self.root_hash@,
            res.lemma@ == self.lemma@,
            cloned(self.value, res.value),
    {
        Proof {
            algorithm: self.algorithm,
            root_hash: clone_bytes(&self.root_hash),
            lemma: self.lemma.clone(),
            value: self.value.clone(),
        }
    }
}

impl<T> Proof<T> {
    /// The invariant of a proof: a root hash, and a hash on every link.
    pub open spec fn wf(&self) -> bool {
        self.root_hash@.len() > 0 && links_valid(self.lemma@)
    }

    /// Puts a proof together from parts that the caller knows to be valid:
    /// nothing is validated here.
    pub fn new(
        algorithm: &'static ring::digest::Algorithm,
        root_hash: Vec<u8>,
        lemma: Lemma,
        value: T,
    ) -> (proof: Self)
        requires
            root_hash@.len() > 0,
            links_valid(lemma@),
        ensures
            proof.algorithm == algorithm,
            proof.root_hash == root_hash,
            proof.lemma == lemma,
            proof.value == value,
            proof.wf(),
    {
        Proof { algorithm, root_hash, lemma, value }
    }
}

} // verus!
