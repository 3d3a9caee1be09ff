//! The tree header: a self-delimiting preorder encoding of a tree's shape.
use vstd::prelude::*;

use crate::tree::Node;

verus! {

/// Preorder bytes of a tree: an internal node is `0` followed by its left and
/// right subtrees, a leaf is `1` followed by its symbol. Weights are not kept.
pub open spec fn serialize(n: Node) -> Seq<u8>
    decreases n,
{
    match n {
        Node::Leaf { symbol, .. } => seq![1u8, symbol],
        Node::Internal { left, right, .. } => seq![0u8] + serialize(*left) + serialize(*right),
    }
}

/// Parses one tree starting at position `i`: the tree, with every weight zero,
/// and the position after its last byte; `None` where the bytes run out or a
/// marker is neither `0` nor `1`.
pub open spec fn parse_tree(b: Seq<u8>, i: int) -> Option<(Node, int)>
    decreases b.len() - i,
{
    if i < 0 || i >= b.len() {
        None
    } else if b[i] == 1 {
        if i + 1 < b.len() {
            Some((Node::Leaf { symbol: b[i + 1], weight: 0 }, i + 2))
        } else {
            None
        }
    } else if b[i] == 0 {
        match parse_tree(b, i + 1) {
            Some((l, j)) => {
                if i < j <= b.len() {
                    match parse_tree(b, j) {
                        Some((r, k)) => Some(
                            (Node::Internal { left: Box::new(l), right: Box::new(r), weight: 0 }, k),
                        ),
                        None => None,
                    }
                } else {
                    None
                }
            },
            None => None,
        }
    } else {
        None
    }
}

/// The tree of a header: one complete tree that uses every byte.
pub open spec fn parse_header(b: Seq<u8>) -> Option<Node> {
    match parse_tree(b, 0) {
        Some((t, end)) => if end == b.len() {
            Some(t)
        } else {
            None
        },
        None => None,
    }
}

/// A tree with the same shape and symbols and every weight zero.
pub open spec fn shape(n: Node) -> Node
    decreases n,
{
    match n {
        Node::Leaf { symbol, .. } => Node::Leaf { symbol, weight: 0 },
        Node::Internal { left, right, .. } => Node::Internal {
            left: Box::new(shape(*left)),
            right: Box::new(shape(*right)),
            weight: 0,
        },
    }
}

/// Appends the preorder bytes of `n` to `out`.
pub fn write_tree(n: &Node, out: &mut Vec<u8>)
    ensures
        final(out)@ == old(out)@ + serialize(*n),
    decreases n,
{
    match n {
        Node::Leaf { symbol, .. } => {
            let ghost o0 = out@;
            out.push(1);
            out.push(*symbol);
            proof {
                assert(out@ =~= o0 + serialize(*n));
            }
        },
        Node::Internal { left, right, .. } => {
            let ghost o0 = out@;
            out.push(0);
            write_tree(left, out);
            write_tree(right, out);
            proof {
                assert(out@ =~= o0 + serialize(*n));
            }
        },
    }
}

/// Parses one tree starting at position `i` of `b`.
pub fn read_tree(b: &Vec<u8>, i: usize) -> (r: Option<(Node, usize)>)
    ensures
        match r {
            Some((t, k)) => parse_tree(b@, i as int) == Some((t, k as int)),
            None => parse_tree(b@, i as int) is None,
        },
    decreases b.len() - i,
{
    if i >= b.len() {
        None
    } else if b[i] == 1 {
        if i + 1 < b.len() {
            Some((Node::Leaf { symbol: b[i + 1], weight: 0 }, i + 2))
        } else {
            None
        }
    } else if b[i] == 0 {
        match read_tree(b, i + 1) {
            Some((l, j)) => {
                if i < j && j <= b.len() {
                    match read_tree(b, j) {
                        Some((r, k)) => Some(
                            (Node::Internal { left: Box::new(l), right: Box::new(r), weight: 0 }, k),
                        ),
                        None => None,
                    }
                } else {
                    None
                }
            },
            None => None,
        }
    } else {
        None
    }
}

/// Parses a whole header into a tree.
pub fn read_header(b: &Vec<u8>) -> (r: Option<Node>)
    ensures
        r == parse_header(b@),
{
    match read_tree(b, 0) {
        Some((t, end)) => if end == b.len() {
            Some(t)
        } else {
            None
        },
        None => None,
    }
}

/// Parsing the bytes of a tree, wherever they stand, gives back its shape and
/// stops right after them.
pub proof fn lemma_parse_serialize(t: Node, b: Seq<u8>, i: int)
    requires
        0 <= i,
        i + serialize(t).len() <= b.len(),
        b.subrange(i, i + serialize(t).len()) == serialize(t),
    ensures
        parse_tree(b, i) == Some((shape(t), i + serialize(t).len())),
    decreases t,
{
    let st = serialize(t);
    assert(b[i] == st[0]);
    match t {
        Node::Leaf { symbol, .. } => {
            assert(b[i + 1] == st[1]);
        },
        Node::Internal { left, right, .. } => {
            let sl = serialize(*left);
            let sr = serialize(*right);
            assert(st =~= seq![0u8] + sl + sr);
            assert(b.subrange(i + 1, i + 1 + sl.len()) =~= sl) by {
                assert forall|k: int| 0 <= k < sl.len() implies b.subrange(i + 1, i + 1 + sl.len())[k]
                    == sl[k] by {
                    assert(b[i + 1 + k] == st[1 + k]);
                }
            }
            lemma_parse_serialize(*left, b, i + 1);
            let j = i + 1 + sl.len();
            assert(b.subrange(j, j + sr.len()) =~= sr) by {
                assert forall|k: int| 0 <= k < sr.len() implies b.subrange(j, j + sr.len())[k]
                    == sr[k] by {
                    assert(b[j + k] == st[1 + sl.len() + k]);
                }
            }
            lemma_parse_serialize(*right, b, j);
        },
    }
}

} // verus!
