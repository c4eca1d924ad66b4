use merkle_proof::{Lemma, LemmaProto, Positioned, Proof, ProofProto, SiblingHash};
use ring::digest::{Algorithm, SHA256, SHA512};

#[derive(Clone, Debug, PartialEq, Eq)]
struct Leaf(Vec<u8>);

impl From<Vec<u8>> for Leaf {
    fn from(bytes: Vec<u8>) -> Self {
        Leaf(bytes)
    }
}

impl From<Leaf> for Vec<u8> {
    fn from(leaf: Leaf) -> Self {
        leaf.0
    }
}

fn algorithm() -> &'static Algorithm {
    &SHA256
}

fn leaf_message(hash: Vec<u8>) -> LemmaProto {
    LemmaProto { node_hash: hash, sub_lemma: None, sibling_hash: None }
}

fn three_links(middle: Vec<u8>) -> LemmaProto {
    LemmaProto {
        node_hash: vec![1],
        sub_lemma: Some(Box::new(LemmaProto {
            node_hash: middle,
            sub_lemma: Some(Box::new(LemmaProto {
                node_hash: vec![3],
                sub_lemma: None,
                sibling_hash: Some(SiblingHash::RightSiblingHash(vec![30])),
            })),
            sibling_hash: Some(SiblingHash::LeftSiblingHash(vec![20])),
        })),
        sibling_hash: None,
    }
}

fn three_lemmas() -> Lemma {
    Lemma {
        node_hash: vec![1],
        sibling_hash: None,
        sub_lemma: Some(Box::new(Lemma {
            node_hash: vec![2],
            sibling_hash: Some(Positioned::Left(vec![20])),
            sub_lemma: Some(Box::new(Lemma {
                node_hash: vec![3],
                sibling_hash: Some(Positioned::Right(vec![30])),
                sub_lemma: None,
            })),
        })),
    }
}

fn long_message(links: usize) -> LemmaProto {
    let mut message = leaf_message(vec![0xEE]);
    for i in 1..links {
        message = LemmaProto {
            node_hash: vec![(i % 200) as u8 + 1],
            sub_lemma: Some(Box::new(message)),
            sibling_hash: Some(SiblingHash::LeftSiblingHash(vec![(i % 7) as u8])),
        };
    }
    message
}

fn depth(lemma: &Lemma) -> usize {
    let mut count = 1;
    let mut cur = lemma;
    while let Some(next) = &cur.sub_lemma {
        count += 1;
        cur = next;
    }
    count
}

#[test]
fn single_lemma_is_a_valid_chain() {
    let lemma = leaf_message(vec![7, 7]).into_lemma();
    assert_eq!(
        lemma,
        Some(Lemma { node_hash: vec![7, 7], sibling_hash: None, sub_lemma: None })
    );
}

#[test]
fn single_lemma_makes_a_one_link_proof() {
    let message = ProofProto {
        root_hash: vec![9],
        lemma: Some(leaf_message(vec![7])),
        value: vec![1, 2],
    };
    let proof: Option<Proof<Vec<u8>>> = message.into_proof(algorithm());
    let proof = proof.unwrap();
    assert_eq!(proof.root_hash, vec![9]);
    assert_eq!(proof.lemma, Lemma { node_hash: vec![7], sibling_hash: None, sub_lemma: None });
    assert_eq!(proof.value, vec![1, 2]);
    assert_eq!(proof.algorithm, &SHA256);
}

#[test]
fn empty_node_hash_gives_nothing() {
    assert_eq!(leaf_message(vec![]).into_lemma(), None);
}

#[test]
fn empty_node_hash_gives_nothing_whatever_else_is_there() {
    let message = LemmaProto {
        node_hash: vec![],
        sub_lemma: Some(Box::new(leaf_message(vec![1]))),
        sibling_hash: Some(SiblingHash::LeftSiblingHash(vec![2])),
    };
    assert_eq!(message.into_lemma(), None);
}

#[test]
fn three_links_are_kept() {
    assert_eq!(three_links(vec![2]).into_lemma(), Some(three_lemmas()));
}

#[test]
fn empty_middle_link_poisons_the_chain() {
    assert_eq!(three_links(vec![]).into_lemma(), None);
}

#[test]
fn empty_middle_link_poisons_the_proof() {
    let message = ProofProto {
        root_hash: vec![9],
        lemma: Some(three_links(vec![])),
        value: vec![1],
    };
    let proof: Option<Proof<Vec<u8>>> = message.into_proof(algorithm());
    assert!(proof.is_none());
}

#[test]
fn empty_innermost_link_poisons_the_chain() {
    let message = LemmaProto {
        node_hash: vec![1],
        sub_lemma: Some(Box::new(leaf_message(vec![]))),
        sibling_hash: None,
    };
    assert_eq!(message.into_lemma(), None);
}

#[test]
fn empty_root_hash_is_rejected() {
    let message = ProofProto {
        root_hash: vec![],
        lemma: Some(three_links(vec![2])),
        value: vec![1],
    };
    let proof: Option<Proof<Vec<u8>>> = message.into_proof(algorithm());
    assert!(proof.is_none());
}

#[test]
fn missing_lemma_is_rejected() {
    let message = ProofProto { root_hash: vec![9], lemma: None, value: vec![1] };
    let proof: Option<Proof<Vec<u8>>> = Proof::from_protobuf(algorithm(), message);
    assert!(proof.is_none());
}

#[test]
fn left_sibling_stays_left() {
    let lemma = Lemma {
        node_hash: vec![5],
        sibling_hash: Some(Positioned::Left(vec![1, 2, 3])),
        sub_lemma: None,
    };
    let message = LemmaProto::from_lemma(lemma);
    assert_eq!(message.sibling_hash, Some(SiblingHash::LeftSiblingHash(vec![1, 2, 3])));
    let back = message.into_lemma().unwrap();
    assert_eq!(back.sibling_hash, Some(Positioned::Left(vec![1, 2, 3])));
}

#[test]
fn right_sibling_stays_right() {
    let lemma = Lemma {
        node_hash: vec![5],
        sibling_hash: Some(Positioned::Right(vec![4])),
        sub_lemma: None,
    };
    let message = LemmaProto::from_lemma(lemma);
    assert_eq!(message.sibling_hash, Some(SiblingHash::RightSiblingHash(vec![4])));
    let back = message.into_lemma().unwrap();
    assert_eq!(back.sibling_hash, Some(Positioned::Right(vec![4])));
}

#[test]
fn from_lemma_copies_every_link() {
    assert_eq!(LemmaProto::from_lemma(three_lemmas()), three_links(vec![2]));
}

#[test]
fn from_proof_copies_every_field() {
    let proof = Proof::new(algorithm(), vec![9, 9], three_lemmas(), Leaf(vec![4, 5]));
    let message = ProofProto::from_proof(proof);
    assert_eq!(
        message,
        ProofProto { root_hash: vec![9, 9], lemma: Some(three_links(vec![2])), value: vec![4, 5] }
    );
}

#[test]
fn proof_survives_its_message() {
    let proof = Proof::new(algorithm(), vec![9, 9], three_lemmas(), Leaf(vec![4, 5]));
    let back = Proof::from_protobuf(algorithm(), proof.clone().into_protobuf());
    assert_eq!(back, Some(proof));
}

#[test]
fn algorithm_is_handed_on() {
    let message = ProofProto {
        root_hash: vec![9],
        lemma: Some(leaf_message(vec![7])),
        value: vec![],
    };
    let proof: Proof<Vec<u8>> = message.into_proof(&SHA512).unwrap();
    assert_eq!(proof.algorithm, &SHA512);
    assert_ne!(proof.algorithm, &SHA256);
}

#[test]
fn long_chain_is_walked_without_recursion() {
    let lemma = long_message(5000).into_lemma().unwrap();
    assert_eq!(depth(&lemma), 5000);
    let back = LemmaProto::from_lemma(lemma.clone());
    assert_eq!(back, long_message(5000));
    assert_eq!(lemma.clone(), lemma);
}

fn count_and_unlink(lemma: Lemma) -> usize {
    let count = depth(&lemma);
    lemma.unlink();
    count
}

#[test]
fn very_long_chain_is_converted_and_given_up_in_loops() {
    let links = 300_000;
    let lemma = long_message(links).into_lemma().unwrap();
    let message = LemmaProto::from_lemma(lemma);
    assert_eq!(message.chain().len(), links);
    let copy = message.clone();
    message.unlink();
    let lemma = copy.into_lemma().unwrap();
    assert_eq!(count_and_unlink(lemma), links);
}

#[test]
fn very_long_chain_with_an_early_empty_hash_is_given_up_in_a_loop() {
    let mut message = long_message(300_000);
    message.node_hash = vec![];
    assert!(message.into_lemma().is_none());
    let mut message = long_message(300_000);
    message.sub_lemma.as_mut().unwrap().sub_lemma.as_mut().unwrap().node_hash = vec![];
    assert!(message.into_lemma().is_none());
}

#[test]
fn very_long_chain_under_an_empty_root_hash_is_given_up_in_a_loop() {
    let message =
        ProofProto { root_hash: vec![], lemma: Some(long_message(300_000)), value: vec![1] };
    let proof: Option<Proof<Vec<u8>>> = message.into_proof(algorithm());
    assert!(proof.is_none());
}

#[test]
fn clones_are_equal() {
    let proof = Proof::new(algorithm(), vec![9, 9], three_lemmas(), Leaf(vec![4, 5]));
    assert_eq!(proof.clone(), proof);
    let message = proof.into_protobuf();
    assert_eq!(message.clone(), message);
    assert_eq!(message.lemma.clone().unwrap().chain().len(), 3);
}
