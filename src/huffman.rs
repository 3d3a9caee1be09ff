//! A coder for one input text: its tree, and its codes once derived.
use vstd::prelude::*;
use vstd::utf8::encode_utf8;

use crate::code::{code_table, decode_bits, decode_payload, derive_codes, encode_bits, encode_payload, CodeTable};
use crate::error::CodecError;
use crate::tree::{build_tree, count_frequencies, frequencies, huffman_tree, lemma_frequencies, Node};

verus! {

/// Bits written one per byte: `1` for a set bit, `0` for a clear one.
pub open spec fn bits_as_values(b: Seq<bool>) -> Seq<u8> {
    b.map_values(|x: bool| if x { 1u8 } else { 0u8 })
}

/// Bits read one per byte: any value but `0` is a set bit.
pub open spec fn values_as_bits(v: Seq<u8>) -> Seq<bool> {
    v.map_values(|x: u8| x != 0)
}

/// The input of a coder as bytes, the Huffman tree of their frequencies, and the
/// code table, which stays empty until `compress` derives it.
pub struct Huffman {
    input: Vec<u8>,
    tree: Node,
    codes: CodeTable,
}

impl Huffman {
    /// The bytes being coded.
    pub closed spec fn input_bytes(&self) -> Seq<u8> {
        self.input@
    }

    /// The tree of the input's byte frequencies.
    pub closed spec fn tree(&self) -> Node {
        self.tree
    }

    /// The code table derived so far.
    pub closed spec fn codes(&self) -> Seq<(u8, Seq<bool>)> {
        self.codes@
    }

    /// Builds the tree of the UTF-8 bytes of `input`. An empty input has no tree.
    pub fn from_input(input: String) -> (r: Result<Huffman, CodecError>)
        ensures
            encode_utf8(input@).len() == 0 ==> r == Err::<Huffman, CodecError>(
                CodecError::EmptyInput,
            ),
            encode_utf8(input@).len() > 0 ==> {
                &&& r is Ok
                &&& r->Ok_0.input_bytes() == encode_utf8(input@)
                &&& r->Ok_0.tree() == huffman_tree(frequencies(encode_utf8(input@)))
                &&& r->Ok_0.codes() == Seq::<(u8, Seq<bool>)>::empty()
            },
    {
        let b = input.as_str().as_bytes();
        let mut bytes: Vec<u8> = Vec::new();
        let mut i: usize = 0;
        while i < b.len()
            invariant
                i <= b@.len(),
                bytes@ == b@.take(i as int),
            decreases b.len() - i,
        {
            bytes.push(b[i]);
            proof {
                assert(bytes@ =~= b@.take(i + 1));
            }
            i = i + 1;
        }
        proof {
            assert(b@.take(b@.len() as int) =~= b@);
            lemma_frequencies(bytes@);
        }
        let table = count_frequencies(&bytes);
        proof {
            if bytes@.len() > 0 {
                assert(bytes@.contains(bytes@[0]));
            }
        }
        match build_tree(&table) {
            Ok(tree) => {
                let entries: Vec<(u8, Vec<bool>)> = Vec::new();
                let h = Huffman { input: bytes, tree, codes: CodeTable { entries } };
                proof {
                    assert(h.codes() =~= Seq::<(u8, Seq<bool>)>::empty());
                }
                Ok(h)
            },
            Err(e) => Err(e),
        }
    }

    /// Derives the code of every symbol of the tree.
    pub fn compress(&mut self)
        ensures
            final(self).input_bytes() == old(self).input_bytes(),
            final(self).tree() == old(self).tree(),
            final(self).codes() == code_table(old(self).tree()),
    {
        self.codes = derive_codes(&self.tree);
    }

    /// The codes of the input's bytes one after the other, one bit per value.
    pub fn get_compressed(&self) -> (r: Vec<u8>)
        ensures
            r@ == bits_as_values(encode_bits(self.codes(), self.input_bytes())),
    {
        let bits = encode_payload(&self.codes, &self.input);
        let mut out: Vec<u8> = Vec::new();
        let mut i: usize = 0;
        while i < bits.len()
            invariant
                i <= bits.len(),
                out@ =~= bits_as_values(bits@).take(i as int),
            decreases bits.len() - i,
        {
            out.push(if bits[i] { 1 } else { 0 });
            i = i + 1;
        }
        out
    }

    /// Walks the tree along `compressed`, one bit per value, and gives the bytes
    /// spelled; fails where the bits do not split into whole codes.
    pub fn decompress(&self, compressed: Vec<u8>) -> (r: Result<Vec<u8>, CodecError>)
        ensures
            match decode_bits(self.tree(), values_as_bits(compressed@)) {
                Some(s) => r is Ok && r->Ok_0@ == s,
                None => r == Err::<Vec<u8>, CodecError>(CodecError::TruncatedPayload),
            },
    {
        let mut bits: Vec<bool> = Vec::new();
        let mut i: usize = 0;
        while i < compressed.len()
            invariant
                i <= compressed.len(),
                bits@ =~= values_as_bits(compressed@).take(i as int),
            decreases compressed.len() - i,
        {
            bits.push(compressed[i] != 0);
            i = i + 1;
        }
        proof {
            assert(bits@ =~= values_as_bits(compressed@));
        }
        decode_payload(&self.tree, &bits)
    }
}

} // verus!
