//! Byte-pair tokenizers: byte-level and metaspace families.
use vstd::hash_map::StringHashMap;
use vstd::prelude::*;

use crate::tokenizer::merge::MergeRanks;
use crate::utf8;

pub mod alphabet;
pub mod chat;
pub mod cutting;
pub mod encode;
pub mod gguf;
pub mod load;
pub mod merge;
pub mod metaspace;
pub mod pieces;
pub mod policy;
pub mod roundtrip;
pub mod split;
pub mod start;
pub mod turns;
pub mod unigram;
pub mod whole;
pub mod words;

verus! {

/// Stands for a space in metaspace vocabularies.
pub const METASPACE: char = '\u{2581}';

/// A tokenizer with its vocabulary.
pub struct BpeTokenizer {
    pub vocab: StringHashMap<u32>,
    /// The bytes that a token decodes to.
    pub id_to_bytes: Vec<Vec<u8>>,
    pub merges: MergeRanks,
    /// Literals that are tokens of their own, longest first.
    pub specials: Vec<(String, u32)>,
    pub bos: Option<u32>,
    pub add_bos: bool,
    pub bos_literal: Option<String>,
    pub eos: Vec<u32>,
    /// The characters of the bytes.
    pub byte_enc: Vec<char>,
    /// The vocabulary is of the metaspace family.
    pub sp: bool,
    /// A metaspace goes before the first text.
    pub sp_prepend: bool,
    /// The tokens of single bytes.
    pub byte_ids: Vec<Option<u32>>,
    /// Log-probabilities of the tokens; empty where segmentation merges pairs.
    pub scores: Vec<u32>,
    pub max_piece_chars: usize,
    /// What falling back to bytes costs.
    pub byte_pen: u32,
}

impl BpeTokenizer {
    pub open spec fn wf(&self) -> bool {
        &&& self.merges.wf()
        &&& self.byte_enc@.len() == 256
        &&& forall|b: int| 0 <= b < 256 ==> #[trigger] self.byte_enc@[b] == alphabet::letter(b as u8)
        &&& self.byte_ids@.len() == 256
        &&& forall|i: int|
            0 <= i < self.specials@.len() ==> self.vocab@.contains_key(
                (#[trigger] self.specials@[i]).0@,
            )
    }

    /// The bytes of a token; none for one that is not there.
    pub open spec fn bytes(&self, id: u32) -> Seq<u8> {
        if id < self.id_to_bytes@.len() {
            self.id_to_bytes@[id as int]@
        } else {
            Seq::empty()
        }
    }

    /// The bytes of tokens, one after the other.
    pub open spec fn spelling(&self, ids: Seq<u32>) -> Seq<u8>
        decreases ids.len(),
    {
        if ids.len() == 0 {
            Seq::empty()
        } else {
            self.spelling(ids.drop_last()) + self.bytes(ids.last())
        }
    }

    /// The token of a literal, if there is one.
    pub open spec fn token(&self, s: Seq<char>) -> Option<u32> {
        if self.vocab@.contains_key(s) {
            Some(self.vocab@[s])
        } else {
            None
        }
    }

    /// Encoding puts the start token first.
    pub fn adds_bos(&self) -> (r: bool)
        ensures
            r == self.add_bos,
    {
        self.add_bos
    }

    pub fn bos_literal(&self) -> (r: Option<&str>)
        ensures
            match r {
                Some(s) => self.bos_literal is Some && self.bos_literal->0@ == s@,
                None => self.bos_literal is None,
            },
    {
        match &self.bos_literal {
            Some(s) => Some(s.as_str()),
            None => None,
        }
    }

    pub fn bos(&self) -> (r: Option<u32>)
        ensures
            r == self.bos,
    {
        self.bos
    }

    /// The bytes of a token.
    pub fn decode_bytes(&self, id: u32) -> (r: Vec<u8>)
        ensures
            r@ == self.bytes(id),
    {
        let i: usize = id as usize;
        if i < self.id_to_bytes.len() {
            self.id_to_bytes[i].clone()
        } else {
            Vec::new()
        }
    }

    pub fn specials(&self) -> (r: &Vec<(String, u32)>)
        ensures
            r@ == self.specials@,
    {
        &self.specials
    }

    pub fn eos_ids(&self) -> (r: &Vec<u32>)
        ensures
            r@ == self.eos@,
    {
        &self.eos
    }

    /// The token of a literal.
    pub fn special(&self, literal: &str) -> (r: Option<u32>)
        ensures
            r == self.token(literal@),
    {
        match self.vocab.get(literal) {
            Some(id) => Some(*id),
            None => None,
        }
    }

    /// The bytes of all the tokens.
    pub fn decode_all(&self, ids: &Vec<u32>) -> (r: Vec<u8>)
        ensures
            r@ == self.spelling(ids@),
    {
        let mut r: Vec<u8> = Vec::new();
        let mut k: usize = 0;
        assert(ids@.take(0).len() == 0);
        while k < ids.len()
            invariant
                k <= ids@.len(),
                r@ == self.spelling(ids@.take(k as int)),
            decreases ids@.len() - k,
        {
            let mut b: Vec<u8> = self.decode_bytes(ids[k]);
            proof {
                assert(ids@.take(k + 1).drop_last() =~= ids@.take(k as int));
            }
            r.append(&mut b);
            k = k + 1;
        }
        assert(ids@.take(k as int) =~= ids@);
        r
    }

    /// The text of all the tokens.
    pub fn detokenize(&self, ids: &Vec<u32>) -> (r: String)
        ensures
            r@ == utf8::text_of(self.spelling(ids@)),
    {
        utf8::lossy(self.decode_all(ids).as_slice())
    }
}

} // verus!
