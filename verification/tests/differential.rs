use merkle_proof::{LemmaProto, ProofProto, SiblingHash, WireError};
use prost::bytes::{Buf, BufMut};
use prost::encoding::{self, DecodeContext, WireType};
use prost::{DecodeError, Message};

#[derive(Clone, Debug, Default, PartialEq)]
struct PlainLemma {
    node_hash: Vec<u8>,
    sub_lemma: Option<Box<PlainLemma>>,
    sibling_hash: Option<PlainSibling>,
    other_side_seen: bool,
}

#[derive(Clone, Debug, PartialEq)]
enum PlainSibling {
    Left(Vec<u8>),
    Right(Vec<u8>),
}

#[derive(Clone, Debug, Default, PartialEq)]
struct PlainProof {
    root_hash: Vec<u8>,
    lemma: Option<PlainLemma>,
    value: Vec<u8>,
}

impl Message for PlainLemma {
    fn encode_raw(&self, buf: &mut impl BufMut) {
        if !self.node_hash.is_empty() {
            encoding::bytes::encode(1, &self.node_hash, buf);
        }
        if let Some(ref msg) = self.sub_lemma {
            encoding::message::encode(2, msg, buf);
        }
        match &self.sibling_hash {
            Some(PlainSibling::Left(hash)) => encoding::bytes::encode(3, hash, buf),
            Some(PlainSibling::Right(hash)) => encoding::bytes::encode(4, hash, buf),
            None => {}
        }
    }

    fn merge_field(
        &mut self,
        tag: u32,
        wire_type: WireType,
        buf: &mut impl Buf,
        ctx: DecodeContext,
    ) -> Result<(), DecodeError> {
        match tag {
            1 => encoding::bytes::merge(wire_type, &mut self.node_hash, buf, ctx),
            2 => encoding::message::merge(
                wire_type,
                self.sub_lemma.get_or_insert_with(Default::default),
                buf,
                ctx,
            ),
            3 => match &mut self.sibling_hash {
                Some(PlainSibling::Left(value)) => encoding::bytes::merge(wire_type, value, buf, ctx),
                held => {
                    let other = held.is_some();
                    let mut owned = Vec::new();
                    encoding::bytes::merge(wire_type, &mut owned, buf, ctx).map(|_| {
                        self.sibling_hash = Some(PlainSibling::Left(owned));
                        self.other_side_seen |= other;
                    })
                }
            },
            4 => match &mut self.sibling_hash {
                Some(PlainSibling::Right(value)) => {
                    encoding::bytes::merge(wire_type, value, buf, ctx)
                }
                held => {
                    let other = held.is_some();
                    let mut owned = Vec::new();
                    encoding::bytes::merge(wire_type, &mut owned, buf, ctx).map(|_| {
                        self.sibling_hash = Some(PlainSibling::Right(owned));
                        self.other_side_seen |= other;
                    })
                }
            },
            _ => encoding::skip_field(wire_type, tag, buf, ctx),
        }
    }

    fn encoded_len(&self) -> usize {
        let node = if self.node_hash.is_empty() {
            0
        } else {
            encoding::bytes::encoded_len(1, &self.node_hash)
        };
        let sub = self.sub_lemma.as_ref().map_or(0, |msg| encoding::message::encoded_len(2, msg));
        let sibling = match &self.sibling_hash {
            Some(PlainSibling::Left(hash)) => encoding::bytes::encoded_len(3, hash),
            Some(PlainSibling::Right(hash)) => encoding::bytes::encoded_len(4, hash),
            None => 0,
        };
        node + sub + sibling
    }

    fn clear(&mut self) {
        self.node_hash.clear();
        self.sub_lemma = None;
        self.sibling_hash = None;
        self.other_side_seen = false;
    }
}

impl Message for PlainProof {
    fn encode_raw(&self, buf: &mut impl BufMut) {
        if !self.root_hash.is_empty() {
            encoding::bytes::encode(1, &self.root_hash, buf);
        }
        if let Some(ref msg) = self.lemma {
            encoding::message::encode(2, msg, buf);
        }
        if !self.value.is_empty() {
            encoding::bytes::encode(3, &self.value, buf);
        }
    }

    fn merge_field(
        &mut self,
        tag: u32,
        wire_type: WireType,
        buf: &mut impl Buf,
        ctx: DecodeContext,
    ) -> Result<(), DecodeError> {
        match tag {
            1 => encoding::bytes::merge(wire_type, &mut self.root_hash, buf, ctx),
            2 => encoding::message::merge(
                wire_type,
                self.lemma.get_or_insert_with(Default::default),
                buf,
                ctx,
            ),
            3 => encoding::bytes::merge(wire_type, &mut self.value, buf, ctx),
            _ => encoding::skip_field(wire_type, tag, buf, ctx),
        }
    }

    fn encoded_len(&self) -> usize {
        let root = if self.root_hash.is_empty() {
            0
        } else {
            encoding::bytes::encoded_len(1, &self.root_hash)
        };
        let lemma = self.lemma.as_ref().map_or(0, |msg| encoding::message::encoded_len(2, msg));
        let value =
            if self.value.is_empty() { 0 } else { encoding::bytes::encoded_len(3, &self.value) };
        root + lemma + value
    }

    fn clear(&mut self) {
        self.root_hash.clear();
        self.lemma = None;
        self.value.clear();
    }
}

fn plain_lemma(message: &LemmaProto) -> PlainLemma {
    PlainLemma {
        node_hash: message.node_hash.clone(),
        sub_lemma: message.sub_lemma.as_ref().map(|sub| Box::new(plain_lemma(sub))),
        sibling_hash: match &message.sibling_hash {
            Some(SiblingHash::LeftSiblingHash(hash)) => Some(PlainSibling::Left(hash.clone())),
            Some(SiblingHash::RightSiblingHash(hash)) => Some(PlainSibling::Right(hash.clone())),
            None => None,
        },
        other_side_seen: false,
    }
}

fn both_sides_seen(plain: &PlainProof) -> bool {
    let mut next = plain.lemma.as_ref();
    while let Some(lemma) = next {
        if lemma.other_side_seen {
            return true;
        }
        next = lemma.sub_lemma.as_deref();
    }
    false
}

fn plain_proof(message: &ProofProto) -> PlainProof {
    PlainProof {
        root_hash: message.root_hash.clone(),
        lemma: message.lemma.as_ref().map(plain_lemma),
        value: message.value.clone(),
    }
}

struct Numbers(u64);

impl Numbers {
    fn next(&mut self) -> u64 {
        self.0 ^= self.0 << 13;
        self.0 ^= self.0 >> 7;
        self.0 ^= self.0 << 17;
        self.0
    }

    fn below(&mut self, bound: u64) -> u64 {
        self.next() % bound
    }

    fn bytes(&mut self, longest: u64) -> Vec<u8> {
        let len = self.below(longest + 1);
        (0..len).map(|_| self.next() as u8).collect()
    }
}

fn some_lemma(numbers: &mut Numbers, links: u64) -> LemmaProto {
    let mut message: Option<LemmaProto> = None;
    for _ in 0..links {
        let longest = if numbers.below(8) == 0 { 300 } else { 5 };
        message = Some(LemmaProto {
            node_hash: numbers.bytes(longest),
            sub_lemma: message.map(Box::new),
            sibling_hash: match numbers.below(3) {
                0 => None,
                1 => Some(SiblingHash::LeftSiblingHash(numbers.bytes(4))),
                _ => Some(SiblingHash::RightSiblingHash(numbers.bytes(4))),
            },
        });
    }
    message.unwrap()
}

fn some_proof(numbers: &mut Numbers) -> ProofProto {
    let links = numbers.below(6);
    ProofProto {
        root_hash: numbers.bytes(4),
        lemma: if links == 0 { None } else { Some(some_lemma(numbers, links)) },
        value: numbers.bytes(6),
    }
}

fn agree(bytes: &[u8]) -> bool {
    let ours = ProofProto::decode(bytes);
    let theirs = PlainProof::decode(bytes);
    match (&ours, &theirs) {
        (Err(WireError::ConflictingSiblings), Ok(plain)) => {
            assert!(both_sides_seen(plain), "on {:?}", bytes)
        }
        (Ok(message), Ok(plain)) => assert_eq!(&plain_proof(message), plain, "on {:?}", bytes),
        (Err(_), Err(_)) => {}
        _ => panic!("on {:?}: {:?} against {:?}", bytes, ours, theirs),
    }
    ours == Err(WireError::ConflictingSiblings)
}

#[test]
fn written_as_prost_writes() {
    let mut numbers = Numbers(0x9E37_79B9_7F4A_7C15);
    for _ in 0..500 {
        let message = some_proof(&mut numbers);
        let plain = plain_proof(&message);
        assert_eq!(message.encode().unwrap(), plain.encode_to_vec());
        assert_eq!(message.encode().unwrap().len(), plain.encoded_len());
    }
}

#[test]
fn written_lemma_as_prost_writes() {
    let mut numbers = Numbers(0x1234_5678_9ABC_DEF1);
    for _ in 0..200 {
        let links = 1 + numbers.below(40);
        let message = some_lemma(&mut numbers, links);
        assert_eq!(message.encode_to_vec(), plain_lemma(&message).encode_to_vec());
    }
}

#[test]
fn what_prost_wrote_is_read() {
    let mut numbers = Numbers(0x0F0F_1234_FFFF_0001);
    for _ in 0..500 {
        let message = some_proof(&mut numbers);
        let bytes = plain_proof(&message).encode_to_vec();
        assert_eq!(ProofProto::decode(&bytes), Ok(message));
    }
}

#[test]
fn read_as_prost_reads_what_was_cut_short() {
    let mut numbers = Numbers(0x5555_AAAA_1357_2468);
    for _ in 0..60 {
        let bytes = some_proof(&mut numbers).encode().unwrap();
        for cut in 0..bytes.len() {
            agree(&bytes[..cut]);
        }
    }
}

#[test]
fn read_as_prost_reads_what_was_changed() {
    let mut numbers = Numbers(0x7777_0000_3333_9999);
    for _ in 0..300 {
        let mut bytes = some_proof(&mut numbers).encode().unwrap();
        if bytes.is_empty() {
            continue;
        }
        for _ in 0..1 + numbers.below(3) {
            let at = numbers.below(bytes.len() as u64) as usize;
            bytes[at] = numbers.next() as u8;
        }
        agree(&bytes);
    }
}

#[test]
fn read_as_prost_reads_small_buffers() {
    let mut numbers = Numbers(0x2468_ACE0_1357_9BDF);
    let pieces: [&[u8]; 24] = [
        &[0x0A, 0x01, 0xAA],
        &[0x0A, 0x00],
        &[0x12, 0x00],
        &[0x12, 0x03, 0x0A, 0x01, 0xBB],
        &[0x12, 0x02, 0x12, 0x00],
        &[0x12, 0x03, 0x1A, 0x01, 0xCC],
        &[0x12, 0x03, 0x22, 0x01, 0xCD],
        &[0x12, 0x04, 0x12, 0x02, 0x1A, 0x00],
        &[0x1A, 0x01, 0x01],
        &[0x1A, 0x00],
        &[0x28, 0x01],
        &[0x28, 0x80, 0x01],
        &[0x31, 1, 2, 3, 4, 5, 6, 7, 8],
        &[0x3D, 1, 2, 3, 4],
        &[0x42, 0x01, 0xEE],
        &[0x4B, 0x4C],
        &[0x4B, 0x08, 0x01, 0x4C],
        &[0x4B, 0x53, 0x54, 0x4C],
        &[0x4B, 0x54],
        &[0x4C],
        &[0x08, 0x01],
        &[0x10, 0x01],
        &[0x80],
        &[0x00],
    ];
    for _ in 0..3000 {
        let mut bytes: Vec<u8> = Vec::new();
        for _ in 0..numbers.below(5) {
            bytes.extend_from_slice(pieces[numbers.below(20) as usize]);
        }
        if numbers.below(4) == 0 {
            bytes.extend_from_slice(pieces[numbers.below(24) as usize]);
        }
        agree(&bytes);
    }
}

#[test]
fn refuses_a_sibling_on_each_side_where_prost_keeps_the_last() {
    let mut numbers = Numbers(0x0BAD_5EED_0BAD_5EED);
    let pieces: [&[u8]; 10] = [
        &[0x0A, 0x01, 0xBB],
        &[0x1A, 0x01, 0xCC],
        &[0x1A, 0x00],
        &[0x22, 0x01, 0xDD],
        &[0x22, 0x00],
        &[0x12, 0x03, 0x1A, 0x01, 0xC1],
        &[0x12, 0x03, 0x22, 0x01, 0xD1],
        &[0x12, 0x05, 0x12, 0x03, 0x1A, 0x01, 0xC2],
        &[0x12, 0x05, 0x12, 0x03, 0x22, 0x01, 0xD2],
        &[0x28, 0x01],
    ];
    let mut refused = 0;
    let mut read = 0;
    for _ in 0..3000 {
        let mut body: Vec<u8> = Vec::new();
        for _ in 0..numbers.below(6) {
            body.extend_from_slice(pieces[numbers.below(10) as usize]);
        }
        let mut bytes: Vec<u8> = vec![0x0A, 0x01, 0xAA, 0x12];
        prost::encoding::encode_varint(body.len() as u64, &mut bytes);
        bytes.extend_from_slice(&body);
        if agree(&bytes) {
            refused += 1;
        } else {
            read += 1;
        }
    }
    assert!(refused > 100);
    assert!(read > 100);
}

#[test]
fn read_as_prost_reads_deep_messages() {
    for links in [1usize, 2, 50, 99, 100, 101, 102, 150] {
        let mut body: Vec<u8> = vec![0x0A, 0x01, 0x07];
        for _ in 1..links {
            let mut outer: Vec<u8> = vec![0x12];
            prost::encoding::encode_varint(body.len() as u64, &mut outer);
            outer.extend_from_slice(&body);
            body = outer;
        }
        let mut bytes: Vec<u8> = vec![0x12];
        prost::encoding::encode_varint(body.len() as u64, &mut bytes);
        bytes.extend_from_slice(&body);
        agree(&bytes);
        assert_eq!(ProofProto::decode(&bytes).is_ok(), links <= 100);
    }
}

#[test]
fn read_as_prost_reads_deep_groups() {
    for groups in [1usize, 2, 50, 99, 100, 101, 150] {
        for inside in [0usize, 1, 5, 98, 99, 100] {
            let mut body: Vec<u8> = Vec::new();
            for _ in 0..groups {
                body.push(0x4B);
            }
            body.extend_from_slice(&[0x28, 0x01]);
            for _ in 0..groups {
                body.push(0x4C);
            }
            for _ in 0..inside {
                let mut outer: Vec<u8> = vec![0x12];
                prost::encoding::encode_varint(body.len() as u64, &mut outer);
                outer.extend_from_slice(&body);
                body = outer;
            }
            agree(&body);
        }
    }
}

#[test]
fn read_as_prost_reads_unknown_fields_at_every_depth() {
    for inside in [0usize, 1, 2, 98, 99, 100, 101] {
        for field in [&[0x28u8, 0x01] as &[u8], &[0x42, 0x00], &[0x0A, 0x01, 0x01], &[0x4B, 0x4C]] {
            let mut body: Vec<u8> = field.to_vec();
            for _ in 0..inside {
                let mut outer: Vec<u8> = vec![0x12];
                prost::encoding::encode_varint(body.len() as u64, &mut outer);
                outer.extend_from_slice(&body);
                body = outer;
            }
            agree(&body);
        }
    }
}

#[test]
fn read_as_prost_reads_a_field_that_runs_over_its_message() {
    agree(&[0x12, 0x02, 0x0A, 0x03, 0x01, 0x02, 0x03]);
    agree(&[0x12, 0x01, 0x80, 0x01]);
    agree(&[0x12, 0x03, 0x12, 0x05, 0x0A, 0x01, 0x01, 0x0A, 0x01, 0x02]);
    agree(&[0x12, 0x01, 0x4B, 0x4C]);
    assert!(ProofProto::decode(&[0x12, 0x02, 0x0A, 0x03, 0x01, 0x02, 0x03]).is_err());
}
