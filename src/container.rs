//! The container: tree header and packed payload, each behind its length.
//!
//! Layout: header length (8 bytes, little-endian), header, number of payload
//! bits (8 bytes, little-endian), payload bytes. The empty input has the empty
//! container.
use vstd::prelude::*;

use crate::bits::{byte_len, lemma_unpack_pack, pack_bits, packed, unpack_bits, unpacked};
use crate::code::{
    code_of, code_table, decode_bits, decode_from, decode_payload, derive_codes, encode_bits,
    encode_payload, lemma_decode_encoded, lemma_next_symbol_code, next_symbol, walk,
};
use crate::error::CodecError;
use crate::header::{
    lemma_parse_serialize, parse_header, read_header, serialize, shape, write_tree,
};
use crate::tree::{
    build_tree, count_frequencies, frequencies, huffman_tree, lemma_frequencies,
    lemma_huffman_symbols, Node,
};

verus! {

/// The `n` low base-256 digits of `x`, least significant first.
pub open spec fn le_bytes(x: nat, n: nat) -> Seq<u8>
    decreases n,
{
    if n == 0 {
        seq![]
    } else {
        seq![(x % 256) as u8] + le_bytes(x / 256, (n - 1) as nat)
    }
}

/// The number whose base-256 digits, least significant first, are `b`.
pub open spec fn le_value(b: Seq<u8>) -> nat
    decreases b.len(),
{
    if b.len() == 0 {
        0
    } else {
        b[0] as nat + 256 * le_value(b.drop_first())
    }
}

pub open spec fn pow256(n: nat) -> nat
    decreases n,
{
    if n == 0 {
        1
    } else {
        256 * pow256((n - 1) as nat)
    }
}

/// The container of `s`.
pub open spec fn encode_spec(s: Seq<u8>) -> Seq<u8> {
    if s.len() == 0 {
        seq![]
    } else {
        let t = huffman_tree(frequencies(s));
        let h = serialize(t);
        let bits = encode_bits(code_table(t), s);
        le_bytes(h.len(), 8) + h + le_bytes(bits.len(), 8) + packed(bits)
    }
}

/// What decoding the container `c` gives.
pub open spec fn decode_spec(c: Seq<u8>) -> Result<Seq<u8>, CodecError> {
    if c.len() == 0 {
        Ok(seq![])
    } else if c.len() < 8 {
        Err(CodecError::MissingLength)
    } else {
        let hl = le_value(c.subrange(0, 8));
        if hl > c.len() - 8 {
            Err(CodecError::MalformedTree)
        } else {
            match parse_header(c.subrange(8, 8 + hl as int)) {
                None => Err(CodecError::MalformedTree),
                Some(t) => {
                    let rest = c.subrange(8 + hl as int, c.len() as int);
                    if rest.len() < 8 {
                        Err(CodecError::MissingLength)
                    } else {
                        let count = le_value(rest.subrange(0, 8));
                        let payload = rest.subrange(8, rest.len() as int);
                        if byte_len(count) > payload.len() {
                            Err(CodecError::TruncatedPayload)
                        } else {
                            match decode_bits(t, unpacked(payload, count)) {
                                Some(s) => Ok(s),
                                None => Err(CodecError::TruncatedPayload),
                            }
                        }
                    }
                }
            }
        }
    }
}

fn write_u64_le(x: u64, out: &mut Vec<u8>)
    ensures
        final(out)@ == old(out)@ + le_bytes(x as nat, 8),
{
    let ghost o0 = out@;
    let mut v: u64 = x;
    let mut k: usize = 0;
    proof {
        assert(out@ + le_bytes(x as nat, 8) =~= o0 + le_bytes(x as nat, 8));
    }
    while k < 8
        invariant
            k <= 8,
            out@ + le_bytes(v as nat, (8 - k) as nat) == o0 + le_bytes(x as nat, 8),
        decreases 8 - k,
    {
        let ghost o1 = out@;
        out.push((v % 256) as u8);
        proof {
            assert(out@ + le_bytes((v / 256) as nat, (8 - k - 1) as nat) =~= o1 + le_bytes(
                v as nat,
                (8 - k) as nat,
            ));
        }
        v = v / 256;
        k = k + 1;
    }
    proof {
        assert(out@ + le_bytes(v as nat, 0) =~= out@);
    }
}

fn read_u64_le(b: &Vec<u8>, start: usize) -> (r: u64)
    requires
        start + 8 <= b.len(),
    ensures
        r == le_value(b@.subrange(start as int, start + 8)),
{
    let mut acc: u64 = 0;
    let mut k: usize = 8;
    proof {
        assert(b@.subrange(start + 8, start + 8) =~= Seq::<u8>::empty());
    }
    while k > 0
        invariant
            k <= 8,
            start + 8 <= b.len(),
            acc == le_value(b@.subrange(start + k, start + 8)),
            acc < pow256((8 - k) as nat),
        decreases k,
    {
        let d = b[start + k - 1];
        proof {
            let p = pow256((8 - k) as nat);
            assert(b@.subrange(start + k - 1, start + 8).drop_first() =~= b@.subrange(
                start + k,
                start + 8,
            ));
            assert(pow256((8 - k + 1) as nat) == 256 * p);
            assert(acc * 256 + d < 256 * p) by (nonlinear_arith)
                requires
                    acc < p,
                    d < 256,
            ;
            reveal_with_fuel(pow256, 9);
            assert(256 * p <= pow256(8)) by {
                assert(8 - k + 1 <= 8);
                lemma_pow256_mono((8 - k + 1) as nat, 8);
            }
        }
        acc = acc * 256 + d as u64;
        k = k - 1;
    }
    acc
}

proof fn lemma_pow256_mono(a: nat, b: nat)
    requires
        a <= b,
    ensures
        pow256(a) <= pow256(b),
        pow256(a) >= 1,
    decreases b,
{
    if b > a {
        lemma_pow256_mono(a, (b - 1) as nat);
    } else if a > 0 {
        lemma_pow256_mono((a - 1) as nat, (a - 1) as nat);
    }
}

/// Reading back the digits of a number that they can hold gives the number.
pub proof fn lemma_le_round_trip(x: nat, n: nat)
    requires
        x < pow256(n),
    ensures
        le_value(le_bytes(x, n)) == x,
        le_bytes(x, n).len() == n,
    decreases n,
{
    if n > 0 {
        let p = pow256((n - 1) as nat);
        assert(x / 256 < p) by (nonlinear_arith)
            requires
                x < 256 * p,
        ;
        lemma_le_round_trip(x / 256, (n - 1) as nat);
        assert(le_bytes(x, n).drop_first() =~= le_bytes(x / 256, (n - 1) as nat));
    } else {
    }
}

fn append_bytes(out: &mut Vec<u8>, b: &Vec<u8>)
    ensures
        final(out)@ == old(out)@ + b@,
{
    let ghost o0 = out@;
    let mut i: usize = 0;
    while i < b.len()
        invariant
            i <= b.len(),
            out@ == o0 + b@.take(i as int),
        decreases b.len() - i,
    {
        out.push(b[i]);
        proof {
            assert(out@ =~= o0 + b@.take(i + 1));
        }
        i = i + 1;
    }
    proof {
        assert(b@.take(b.len() as int) =~= b@);
    }
}

fn copy_range(b: &Vec<u8>, start: usize, end: usize) -> (r: Vec<u8>)
    requires
        start <= end <= b.len(),
    ensures
        r@ == b@.subrange(start as int, end as int),
{
    let mut out: Vec<u8> = Vec::new();
    let mut i: usize = start;
    while i < end
        invariant
            start <= i <= end <= b.len(),
            out@ == b@.subrange(start as int, i as int),
        decreases end - i,
    {
        out.push(b[i]);
        proof {
            assert(out@ =~= b@.subrange(start as int, i + 1));
        }
        i = i + 1;
    }
    out
}

/// Encodes `input` into a container: the Huffman tree of its byte frequencies,
/// then the codes of its bytes packed eight to a byte.
pub fn encode(input: &Vec<u8>) -> (r: Vec<u8>)
    ensures
        r@ == encode_spec(input@),
{
    if input.len() == 0 {
        let e: Vec<u8> = Vec::new();
        proof {
            assert(e@ =~= encode_spec(input@));
        }
        return e;
    }
    let table = count_frequencies(input);
    proof {
        lemma_frequencies(input@);
        assert(input@.contains(input@[0]));
    }
    let tree = match build_tree(&table) {
        Ok(t) => t,
        Err(_) => {
            proof {
                assert(false);
            }
            return Vec::new();
        },
    };
    let codes = derive_codes(&tree);
    let bits = encode_payload(&codes, input);
    let mut header: Vec<u8> = Vec::new();
    write_tree(&tree, &mut header);
    proof {
        assert(header@ =~= serialize(tree));
    }
    let payload = pack_bits(&bits);
    let mut out: Vec<u8> = Vec::new();
    write_u64_le(header.len() as u64, &mut out);
    append_bytes(&mut out, &header);
    write_u64_le(bits.len() as u64, &mut out);
    append_bytes(&mut out, &payload);
    proof {
        assert(out@ =~= encode_spec(input@));
    }
    out
}

/// Decodes a container back into the bytes it holds.
/// Every bit of the container must be addressable by a `usize`.
pub fn decode(container: &Vec<u8>) -> (r: Result<Vec<u8>, CodecError>)
    requires
        8 * container@.len() <= usize::MAX,
    ensures
        match decode_spec(container@) {
            Ok(s) => r is Ok && r->Ok_0@ == s,
            Err(e) => r == Err::<Vec<u8>, CodecError>(e),
        },
{
    let c = container;
    if c.len() == 0 {
        let e: Vec<u8> = Vec::new();
        proof {
            assert(e@ =~= Seq::<u8>::empty());
        }
        return Ok(e);
    }
    if c.len() < 8 {
        return Err(CodecError::MissingLength);
    }
    let hl = read_u64_le(c, 0);
    if hl > (c.len() - 8) as u64 {
        return Err(CodecError::MalformedTree);
    }
    let hend = 8 + hl as usize;
    let header = copy_range(c, 8, hend);
    let tree = match read_header(&header) {
        Some(t) => t,
        None => {
            return Err(CodecError::MalformedTree);
        },
    };
    if c.len() - hend < 8 {
        return Err(CodecError::MissingLength);
    }
    let count = read_u64_le(c, hend);
    proof {
        let rest = c@.subrange(hend as int, c.len() as int);
        assert(rest.subrange(0, 8) =~= c@.subrange(hend as int, hend + 8));
    }
    let pstart = hend + 8;
    let payload = copy_range(c, pstart, c.len());
    proof {
        let rest = c@.subrange(hend as int, c.len() as int);
        assert(rest.subrange(8, rest.len() as int) =~= payload@);
    }
    let need: u64 = count / 8 + if count % 8 != 0 {
        1
    } else {
        0
    };
    assert(need == byte_len(count as nat));
    if need > payload.len() as u64 {
        return Err(CodecError::TruncatedPayload);
    }
    let bits = unpack_bits(&payload, count as usize);
    decode_payload(&tree, &bits)
}

proof fn lemma_walk_shape(n: Node, bits: Seq<bool>, i: int)
    ensures
        walk(shape(n), bits, i) == walk(n, bits, i),
    decreases n,
{
    match n {
        Node::Leaf { .. } => {},
        Node::Internal { left, right, .. } => {
            lemma_walk_shape(*left, bits, i + 1);
            lemma_walk_shape(*right, bits, i + 1);
        },
    }
}

proof fn lemma_decode_shape(t: Node, bits: Seq<bool>, i: int)
    ensures
        decode_from(shape(t), bits, i) == decode_from(t, bits, i),
    decreases bits.len() - i,
{
    lemma_walk_shape(t, bits, i);
    assert(next_symbol(shape(t), bits, i) == next_symbol(t, bits, i));
    if 0 <= i < bits.len() {
        match next_symbol(t, bits, i) {
            Some((x, k)) => {
                if i < k <= bits.len() {
                    lemma_decode_shape(t, bits, k);
                }
            },
            None => {},
        }
    }
}

proof fn lemma_pow256_8()
    ensures
        pow256(8) == 0x1_0000_0000_0000_0000,
        usize::MAX < pow256(8),
{
    reveal_with_fuel(pow256, 9);
}

/// Decoding a container whose header and lengths are well formed, whatever its
/// payload bytes `q`.
proof fn lemma_decode_layout(t: Node, n: nat, q: Seq<u8>)
    requires
        serialize(t).len() < pow256(8),
        n < pow256(8),
    ensures
        decode_spec(le_bytes(serialize(t).len(), 8) + serialize(t) + le_bytes(n, 8) + q) == (
        if byte_len(n) > q.len() {
            Err::<Seq<u8>, CodecError>(CodecError::TruncatedPayload)
        } else {
            match decode_bits(shape(t), unpacked(q, n)) {
                Some(s) => Ok::<Seq<u8>, CodecError>(s),
                None => Err::<Seq<u8>, CodecError>(CodecError::TruncatedPayload),
            }
        }),
{
    let h = serialize(t);
    let a = le_bytes(h.len(), 8);
    let b = le_bytes(n, 8);
    let c = a + h + b + q;
    lemma_le_round_trip(h.len(), 8);
    lemma_le_round_trip(n, 8);
    assert(c.subrange(0, 8) =~= a);
    let hl = h.len() as int;
    assert(c.subrange(8, 8 + hl) =~= h);
    let rest = c.subrange(8 + hl, c.len() as int);
    assert(rest =~= b + q);
    assert(rest.subrange(0, 8) =~= b);
    assert(rest.subrange(8, rest.len() as int) =~= q);
    assert(h.subrange(0, hl) =~= h);
    lemma_parse_serialize(t, h, 0);
}

proof fn lemma_le_len(x: nat, n: nat)
    ensures
        le_bytes(x, n).len() == n,
    decreases n,
{
    if n > 0 {
        lemma_le_len(x / 256, (n - 1) as nat);
    }
}

/// Decoding the container of any input gives the input back. The one condition
/// is that of `decode`: every bit of the container is addressable by a `usize`.
pub proof fn lemma_round_trip(s: Seq<u8>)
    requires
        s.len() <= usize::MAX,
        8 * encode_spec(s).len() <= usize::MAX,
    ensures
        decode_spec(encode_spec(s)) == Ok::<Seq<u8>, CodecError>(s),
{
    if s.len() == 0 {
        assert(s =~= seq![]);
        return;
    }
    let t = huffman_tree(frequencies(s));
    let h = serialize(t);
    let bits = encode_bits(code_table(t), s);
    let p = packed(bits);
    lemma_pow256_8();
    lemma_le_len(h.len(), 8);
    lemma_le_len(bits.len(), 8);
    assert(encode_spec(s).len() == 16 + h.len() + p.len());
    lemma_decode_layout(t, bits.len(), p);
    lemma_unpack_pack(bits);
    lemma_decode_shape(t, bits, 0);
    lemma_huffman_symbols(s);
    assert(bits.subrange(0, bits.len() as int) =~= bits);
    lemma_decode_encoded(t, s, bits, 0);
}

/// Encoding is a function of the input alone: equal inputs give byte-identical
/// containers.
pub proof fn lemma_encode_deterministic(s1: Seq<u8>, s2: Seq<u8>)
    requires
        s1 == s2,
    ensures
        encode_spec(s1) == encode_spec(s2),
{
}

/// A container of a non-empty input that has lost its last byte is refused as a
/// truncated payload.
pub proof fn lemma_truncated_container(s: Seq<u8>)
    requires
        s.len() > 0,
        s.len() <= usize::MAX,
        8 * encode_spec(s).len() <= usize::MAX,
    ensures
        decode_spec(encode_spec(s).drop_last()) == Err::<Seq<u8>, CodecError>(
            CodecError::TruncatedPayload,
        ),
{
    let t = huffman_tree(frequencies(s));
    let h = serialize(t);
    let codes = code_table(t);
    let bits = encode_bits(codes, s);
    let p = packed(bits);
    lemma_pow256_8();
    lemma_le_len(h.len(), 8);
    lemma_le_len(bits.len(), 8);
    lemma_huffman_symbols(s);
    assert(s.contains(s[0]));
    let c0 = code_of(codes, s[0]);
    lemma_next_symbol_code(t, s[0], c0, 0);
    assert(bits == c0 + encode_bits(codes, s.drop_first()));
    assert(p.len() >= 1);
    let a = le_bytes(h.len(), 8);
    let b = le_bytes(bits.len(), 8);
    lemma_le_round_trip(h.len(), 8);
    lemma_le_round_trip(bits.len(), 8);
    assert(encode_spec(s).drop_last() =~= a + h + b + p.drop_last());
    lemma_decode_layout(t, bits.len(), p.drop_last());
}

} // verus!
