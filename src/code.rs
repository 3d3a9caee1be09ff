//! Code tables derived from a tree, payload encoding, and the decoding walk.
use vstd::prelude::*;

use crate::error::CodecError;
use crate::tree::{leaf_symbols, Node};

verus! {

/// Root-to-leaf paths of the leaves below `n`, left to right, each behind `prefix`
/// (`false` for a step to the left, `true` for a step to the right).
pub open spec fn paths(n: Node, prefix: Seq<bool>) -> Seq<(u8, Seq<bool>)>
    decreases n,
{
    match n {
        Node::Leaf { symbol, .. } => seq![(symbol, prefix)],
        Node::Internal { left, right, .. } => paths(*left, prefix.push(false)) + paths(
            *right,
            prefix.push(true),
        ),
    }
}

/// The code of each leaf of a tree. A lone leaf gets the one-bit code `0`.
pub open spec fn code_table(n: Node) -> Seq<(u8, Seq<bool>)> {
    match n {
        Node::Leaf { symbol, .. } => seq![(symbol, seq![false])],
        Node::Internal { .. } => paths(n, seq![]),
    }
}

/// The code of the first entry for `x`, or no bits at all.
pub open spec fn code_of(codes: Seq<(u8, Seq<bool>)>, x: u8) -> Seq<bool>
    decreases codes.len(),
{
    if codes.len() == 0 {
        seq![]
    } else if codes[0].0 == x {
        codes[0].1
    } else {
        code_of(codes.drop_first(), x)
    }
}

/// The codes of the symbols of `s`, one after the other.
pub open spec fn encode_bits(codes: Seq<(u8, Seq<bool>)>, s: Seq<u8>) -> Seq<bool>
    decreases s.len(),
{
    if s.len() == 0 {
        seq![]
    } else {
        code_of(codes, s[0]) + encode_bits(codes, s.drop_first())
    }
}

/// Descends from `n` along `bits`, starting at position `i`, down to a leaf:
/// that leaf's symbol and the position after the last bit read.
pub open spec fn walk(n: Node, bits: Seq<bool>, i: int) -> Option<(u8, int)>
    decreases n,
{
    match n {
        Node::Leaf { symbol, .. } => Some((symbol, i)),
        Node::Internal { left, right, .. } => {
            if 0 <= i < bits.len() {
                if bits[i] {
                    walk(*right, bits, i + 1)
                } else {
                    walk(*left, bits, i + 1)
                }
            } else {
                None
            }
        },
    }
}

/// The symbol whose code starts at position `i` and the position after it.
pub open spec fn next_symbol(root: Node, bits: Seq<bool>, i: int) -> Option<(u8, int)> {
    match root {
        Node::Leaf { symbol, .. } => {
            if 0 <= i < bits.len() && !bits[i] {
                Some((symbol, i + 1))
            } else {
                None
            }
        },
        Node::Internal { .. } => walk(root, bits, i),
    }
}

/// The symbols spelled by `bits` from position `i` on, or `None` where the bits
/// do not split into whole codes.
pub open spec fn decode_from(root: Node, bits: Seq<bool>, i: int) -> Option<Seq<u8>>
    decreases bits.len() - i,
{
    if i < 0 || i >= bits.len() {
        Some(seq![])
    } else {
        match next_symbol(root, bits, i) {
            Some((x, k)) => {
                if i < k <= bits.len() {
                    match decode_from(root, bits, k) {
                        Some(rest) => Some(seq![x] + rest),
                        None => None,
                    }
                } else {
                    None
                }
            },
            None => None,
        }
    }
}

/// The symbols spelled by all of `bits`.
pub open spec fn decode_bits(root: Node, bits: Seq<bool>) -> Option<Seq<u8>> {
    decode_from(root, bits, 0)
}

/// A code table: each symbol with its code, in left-to-right order of the leaves.
pub struct CodeTable {
    pub entries: Vec<(u8, Vec<bool>)>,
}

pub open spec fn entries_view(e: Seq<(u8, Vec<bool>)>) -> Seq<(u8, Seq<bool>)> {
    e.map_values(|p: (u8, Vec<bool>)| (p.0, p.1@))
}

impl View for CodeTable {
    type V = Seq<(u8, Seq<bool>)>;

    open spec fn view(&self) -> Seq<(u8, Seq<bool>)> {
        entries_view(self.entries@)
    }
}

fn copy_bits(v: &Vec<bool>) -> (r: Vec<bool>)
    ensures
        r@ == v@,
{
    let mut r: Vec<bool> = Vec::new();
    let mut i: usize = 0;
    while i < v.len()
        invariant
            i <= v.len(),
            r@ == v@.take(i as int),
        decreases v.len() - i,
    {
        r.push(v[i]);
        proof {
            assert(r@ =~= v@.take(i + 1));
        }
        i = i + 1;
    }
    proof {
        assert(v@.take(v.len() as int) =~= v@);
    }
    r
}

fn collect_paths(n: &Node, prefix: &mut Vec<bool>, out: &mut Vec<(u8, Vec<bool>)>)
    ensures
        final(prefix)@ == old(prefix)@,
        entries_view(final(out)@) == entries_view(old(out)@) + paths(*n, old(prefix)@),
    decreases n,
{
    match n {
        Node::Leaf { symbol, .. } => {
            let code = copy_bits(prefix);
            let ghost before = out@;
            out.push((*symbol, code));
            proof {
                assert(entries_view(out@) =~= entries_view(before) + paths(*n, prefix@));
            }
        },
        Node::Internal { left, right, .. } => {
            let ghost p0 = prefix@;
            let ghost o0 = out@;
            prefix.push(false);
            collect_paths(left, prefix, out);
            let ghost o1 = out@;
            prefix.pop();
            prefix.push(true);
            proof {
                assert(prefix@ =~= p0.push(true));
            }
            collect_paths(right, prefix, out);
            prefix.pop();
            proof {
                assert(prefix@ =~= p0);
                assert(entries_view(out@) =~= entries_view(o0) + paths(*n, p0));
            }
        },
    }
}

/// Derives the code of every leaf: the path from the root, `0` for left and `1`
/// for right. A tree that is a lone leaf gives that symbol the code `0`.
pub fn derive_codes(tree: &Node) -> (r: CodeTable)
    ensures
        r@ == code_table(*tree),
{
    let mut entries: Vec<(u8, Vec<bool>)> = Vec::new();
    match tree {
        Node::Leaf { symbol, .. } => {
            let mut code: Vec<bool> = Vec::new();
            code.push(false);
            entries.push((*symbol, code));
            proof {
                assert(entries_view(entries@) =~= code_table(*tree));
            }
        },
        Node::Internal { .. } => {
            let mut prefix: Vec<bool> = Vec::new();
            collect_paths(tree, &mut prefix, &mut entries);
            proof {
                assert(entries_view(entries@) =~= code_table(*tree));
            }
        },
    }
    CodeTable { entries }
}

proof fn lemma_code_of_found(codes: Seq<(u8, Seq<bool>)>, x: u8, k: int)
    requires
        0 <= k <= codes.len(),
        forall|j: int| 0 <= j < k ==> #[trigger] codes[j].0 != x,
        k < codes.len() ==> codes[k].0 == x,
    ensures
        code_of(codes, x) == (if k < codes.len() { codes[k].1 } else { Seq::<bool>::empty() }),
    decreases codes.len(),
{
    if codes.len() > 0 && k > 0 {
        assert forall|j: int| 0 <= j < k - 1 implies #[trigger] codes.drop_first()[j].0 != x by {
            assert(codes[j + 1].0 != x);
        }
        lemma_code_of_found(codes.drop_first(), x, k - 1);
    }
}

/// Appends the code of each symbol of `s`, in order.
pub fn encode_payload(codes: &CodeTable, s: &Vec<u8>) -> (r: Vec<bool>)
    ensures
        r@ == encode_bits(codes@, s@),
{
    let mut bits: Vec<bool> = Vec::new();
    let mut i: usize = 0;
    proof {
        assert(s@.skip(0) =~= s@);
        assert(bits@ + encode_bits(codes@, s@) =~= encode_bits(codes@, s@));
    }
    while i < s.len()
        invariant
            i <= s.len(),
            bits@ + encode_bits(codes@, s@.skip(i as int)) == encode_bits(codes@, s@),
        decreases s.len() - i,
    {
        let x = s[i];
        proof {
            assert(s@.skip(i as int).drop_first() =~= s@.skip(i + 1));
        }
        let mut k: usize = 0;
        while k < codes.entries.len() && codes.entries[k].0 != x
            invariant
                k <= codes.entries.len(),
                forall|j: int| 0 <= j < k ==> #[trigger] codes@[j].0 != x,
            decreases codes.entries.len() - k,
        {
            k = k + 1;
        }
        proof {
            lemma_code_of_found(codes@, x, k as int);
        }
        let ghost b0 = bits@;
        if k < codes.entries.len() {
            let code = &codes.entries[k].1;
            let mut m: usize = 0;
            while m < code.len()
                invariant
                    m <= code.len(),
                    bits@ == b0 + code@.take(m as int),
                decreases code.len() - m,
            {
                bits.push(code[m]);
                proof {
                    assert(bits@ =~= b0 + code@.take(m + 1));
                }
                m = m + 1;
            }
            proof {
                assert(code@.take(code.len() as int) =~= code@);
            }
        }
        proof {
            assert(b0 + encode_bits(codes@, s@.skip(i as int)) =~= bits@ + encode_bits(
                codes@,
                s@.skip(i + 1),
            ));
        }
        i = i + 1;
    }
    proof {
        assert(bits@ + encode_bits(codes@, s@.skip(s.len() as int)) =~= bits@);
    }
    bits
}

fn read_symbol(root: &Node, bits: &Vec<bool>, i: usize) -> (r: Option<(u8, usize)>)
    requires
        i < bits.len(),
    ensures
        match r {
            Some((x, k)) => next_symbol(*root, bits@, i as int) == Some((x, k as int)),
            None => next_symbol(*root, bits@, i as int) is None,
        },
{
    match root {
        Node::Leaf { symbol, .. } => {
            if bits[i] {
                None
            } else {
                Some((*symbol, i + 1))
            }
        },
        Node::Internal { .. } => {
            let mut cur: &Node = root;
            let mut k: usize = i;
            loop
                invariant
                    i <= k <= bits.len(),
                    root is Internal,
                    walk(*root, bits@, i as int) == walk(*cur, bits@, k as int),
                decreases bits.len() - k,
            {
                match cur {
                    Node::Leaf { symbol, .. } => {
                        assert(walk(*cur, bits@, k as int) == Some((*symbol, k as int)));
                        return Some((*symbol, k));
                    },
                    Node::Internal { left, right, .. } => {
                        if k >= bits.len() {
                            return None;
                        }
                        if bits[k] {
                            cur = &**right;
                        } else {
                            cur = &**left;
                        }
                        k = k + 1;
                    },
                }
            }
        },
    }
}

/// Decodes a payload by walking the tree bit by bit; fails where the bits do not
/// split into whole codes of the tree.
pub fn decode_payload(root: &Node, bits: &Vec<bool>) -> (r: Result<Vec<u8>, CodecError>)
    ensures
        match decode_bits(*root, bits@) {
            Some(s) => r is Ok && r->Ok_0@ == s,
            None => r == Err::<Vec<u8>, CodecError>(CodecError::TruncatedPayload),
        },
{
    let mut out: Vec<u8> = Vec::new();
    let mut i: usize = 0;
    while i < bits.len()
        invariant
            i <= bits.len(),
            decode_bits(*root, bits@) == match decode_from(*root, bits@, i as int) {
                Some(rest) => Some(out@ + rest),
                None => None::<Seq<u8>>,
            },
        decreases bits.len() - i,
    {
        match read_symbol(root, bits, i) {
            Some((x, k)) => {
                if k <= i || k > bits.len() {
                    return Err(CodecError::TruncatedPayload);
                }
                proof {
                    let ghost o0 = out@;
                    match decode_from(*root, bits@, k as int) {
                        Some(rest) => {
                            assert(o0 + (seq![x] + rest) =~= o0.push(x) + rest);
                        },
                        None => {},
                    }
                }
                out.push(x);
                i = k;
            },
            None => {
                return Err(CodecError::TruncatedPayload);
            },
        }
    }
    proof {
        assert(out@ + Seq::<u8>::empty() =~= out@);
    }
    Ok(out)
}

/// `c` begins with `pre`.
pub open spec fn starts_with(c: Seq<bool>, pre: Seq<bool>) -> bool {
    &&& pre.len() <= c.len()
    &&& forall|m: int| 0 <= m < pre.len() ==> c[m] == pre[m]
}

proof fn lemma_paths_start(n: Node, pre: Seq<bool>)
    ensures
        forall|k: int|
            0 <= k < paths(n, pre).len() ==> starts_with(#[trigger] paths(n, pre)[k].1, pre),
        n is Internal ==> forall|k: int|
            0 <= k < paths(n, pre).len() ==> #[trigger] paths(n, pre)[k].1.len() > pre.len(),
    decreases n,
{
    match n {
        Node::Leaf { .. } => {},
        Node::Internal { left, right, .. } => {
            let pl = pre.push(false);
            let pr = pre.push(true);
            lemma_paths_start(*left, pl);
            lemma_paths_start(*right, pr);
            let l = paths(*left, pl);
            let r = paths(*right, pr);
            assert forall|k: int| 0 <= k < paths(n, pre).len() implies starts_with(
                #[trigger] paths(n, pre)[k].1,
                pre,
            ) && paths(n, pre)[k].1.len() > pre.len() by {
                if k < l.len() {
                    assert(paths(n, pre)[k] == l[k]);
                    assert(starts_with(l[k].1, pl));
                    assert forall|m: int| 0 <= m < pre.len() implies l[k].1[m] == pre[m] by {
                        assert(pl[m] == pre[m]);
                    }
                } else {
                    assert(paths(n, pre)[k] == r[k - l.len()]);
                    assert(starts_with(r[k - l.len()].1, pr));
                    assert forall|m: int| 0 <= m < pre.len() implies r[k - l.len()].1[m]
                        == pre[m] by {
                        assert(pr[m] == pre[m]);
                    }
                }
            }
        },
    }
}

proof fn lemma_paths_prefix_free(n: Node, pre: Seq<bool>)
    ensures
        forall|a: int, b: int|
            0 <= a < paths(n, pre).len() && 0 <= b < paths(n, pre).len() && a != b ==> !starts_with(
                #[trigger] paths(n, pre)[b].1,
                #[trigger] paths(n, pre)[a].1,
            ),
    decreases n,
{
    match n {
        Node::Leaf { .. } => {},
        Node::Internal { left, right, .. } => {
            let pl = pre.push(false);
            let pr = pre.push(true);
            lemma_paths_prefix_free(*left, pl);
            lemma_paths_prefix_free(*right, pr);
            lemma_paths_start(*left, pl);
            lemma_paths_start(*right, pr);
            let l = paths(*left, pl);
            let r = paths(*right, pr);
            let p = paths(n, pre);
            let d = pre.len() as int;
            assert forall|a: int, b: int|
                0 <= a < p.len() && 0 <= b < p.len() && a != b implies !starts_with(
                #[trigger] p[b].1,
                #[trigger] p[a].1,
            ) by {
                if a < l.len() && b < l.len() {
                    assert(p[a] == l[a] && p[b] == l[b]);
                } else if a >= l.len() && b >= l.len() {
                    assert(p[a] == r[a - l.len()] && p[b] == r[b - l.len()]);
                } else if a < l.len() {
                    assert(p[a] == l[a] && p[b] == r[b - l.len()]);
                    assert(starts_with(l[a].1, pl) && starts_with(r[b - l.len()].1, pr));
                    assert(l[a].1[d] == pl[d] && r[b - l.len()].1[d] == pr[d]);
                } else {
                    assert(p[a] == r[a - l.len()] && p[b] == l[b]);
                    assert(starts_with(r[a - l.len()].1, pr) && starts_with(l[b].1, pl));
                    assert(r[a - l.len()].1[d] == pr[d] && l[b].1[d] == pl[d]);
                }
            }
        },
    }
}

/// The codes of a tree form a prefix code: no symbol's code begins another
/// symbol's code.
pub proof fn lemma_codes_prefix_free(n: Node)
    ensures
        forall|a: int, b: int|
            0 <= a < code_table(n).len() && 0 <= b < code_table(n).len() && a != b ==> !starts_with(
                #[trigger] code_table(n)[b].1,
                #[trigger] code_table(n)[a].1,
            ),
{
    if n is Internal {
        lemma_paths_prefix_free(n, seq![]);
    }
}

proof fn lemma_walk_path(n: Node, pre: Seq<bool>, k: int, bits: Seq<bool>, i: int)
    requires
        0 <= k < paths(n, pre).len(),
        0 <= i,
        starts_with(paths(n, pre)[k].1, pre),
        i + paths(n, pre)[k].1.len() - pre.len() <= bits.len(),
        forall|m: int|
            pre.len() <= m < paths(n, pre)[k].1.len() ==> bits[i + m - pre.len()]
                == #[trigger] paths(n, pre)[k].1[m],
    ensures
        walk(n, bits, i) == Some((paths(n, pre)[k].0, i + paths(n, pre)[k].1.len() - pre.len())),
    decreases n,
{
    match n {
        Node::Leaf { .. } => {},
        Node::Internal { left, right, .. } => {
            let pl = pre.push(false);
            let pr = pre.push(true);
            lemma_paths_start(*left, pl);
            lemma_paths_start(*right, pr);
            let l = paths(*left, pl);
            let r = paths(*right, pr);
            let c = paths(n, pre)[k].1;
            let d = pre.len() as int;
            if k < l.len() {
                assert(paths(n, pre)[k] == l[k]);
                assert(starts_with(l[k].1, pl));
                assert(c[d] == pl[d]);
                assert(bits[i + d - d] == c[d]);
                lemma_walk_path(*left, pl, k, bits, i + 1);
            } else {
                let k2 = k - l.len();
                assert(paths(n, pre)[k] == r[k2]);
                assert(starts_with(r[k2].1, pr));
                assert(c[d] == pr[d]);
                assert(bits[i + d - d] == c[d]);
                lemma_walk_path(*right, pr, k2, bits, i + 1);
            }
        },
    }
}

proof fn lemma_leaf_in_paths(n: Node, pre: Seq<bool>, x: u8)
    requires
        leaf_symbols(n).contains(x),
    ensures
        exists|k: int| 0 <= k < paths(n, pre).len() && #[trigger] paths(n, pre)[k].0 == x,
    decreases n,
{
    match n {
        Node::Leaf { .. } => {
            assert(paths(n, pre)[0].0 == x);
        },
        Node::Internal { left, right, .. } => {
            let l = paths(*left, pre.push(false));
            let r = paths(*right, pre.push(true));
            if leaf_symbols(*left).contains(x) {
                lemma_leaf_in_paths(*left, pre.push(false), x);
                let k = choose|k: int| 0 <= k < l.len() && #[trigger] l[k].0 == x;
                assert(paths(n, pre)[k] == l[k]);
            } else {
                lemma_leaf_in_paths(*right, pre.push(true), x);
                let k = choose|k: int| 0 <= k < r.len() && #[trigger] r[k].0 == x;
                assert(paths(n, pre)[l.len() + k] == r[k]);
            }
        },
    }
}

proof fn lemma_code_found(codes: Seq<(u8, Seq<bool>)>, x: u8)
    requires
        exists|k: int| 0 <= k < codes.len() && #[trigger] codes[k].0 == x,
    ensures
        exists|k: int|
            0 <= k < codes.len() && #[trigger] codes[k].0 == x && code_of(codes, x) == codes[k].1,
    decreases codes.len(),
{
    if codes[0].0 != x {
        let k = choose|k: int| 0 <= k < codes.len() && #[trigger] codes[k].0 == x;
        assert(codes.drop_first()[k - 1].0 == x);
        lemma_code_found(codes.drop_first(), x);
        let k2 = choose|k2: int|
            0 <= k2 < codes.len() - 1 && #[trigger] codes.drop_first()[k2].0 == x && code_of(
                codes.drop_first(),
                x,
            ) == codes.drop_first()[k2].1;
        assert(codes[k2 + 1] == codes.drop_first()[k2]);
    } else {
        assert(codes[0].0 == x);
    }
}

/// Where the code of a leaf symbol stands in `bits` at position `i`, the next
/// symbol read there is that symbol, and reading moves past the whole code.
pub proof fn lemma_next_symbol_code(t: Node, x: u8, bits: Seq<bool>, i: int)
    requires
        leaf_symbols(t).contains(x),
        0 <= i,
        i + code_of(code_table(t), x).len() <= bits.len(),
        forall|m: int|
            0 <= m < code_of(code_table(t), x).len() ==> bits[i + m] == #[trigger] code_of(
                code_table(t),
                x,
            )[m],
    ensures
        code_of(code_table(t), x).len() >= 1,
        next_symbol(t, bits, i) == Some((x, i + code_of(code_table(t), x).len())),
{
    let codes = code_table(t);
    match t {
        Node::Leaf { symbol, .. } => {
            assert(leaf_symbols(t) == set![symbol]);
            assert(codes[0].0 == x);
            assert(code_of(codes, x) == seq![false]);
            assert(bits[i + 0] == code_of(codes, x)[0]);
        },
        Node::Internal { .. } => {
            let e: Seq<bool> = seq![];
            lemma_leaf_in_paths(t, e, x);
            lemma_code_found(codes, x);
            let k = choose|k: int|
                0 <= k < codes.len() && #[trigger] codes[k].0 == x && code_of(codes, x)
                    == codes[k].1;
            lemma_paths_start(t, e);
            assert(codes[k].1.len() > 0);
            assert forall|m: int| e.len() <= m < paths(t, e)[k].1.len() implies bits[i + m
                - e.len()] == #[trigger] paths(t, e)[k].1[m] by {
                assert(bits[i + m] == code_of(codes, x)[m]);
            }
            lemma_walk_path(t, e, k, bits, i);
        },
    }
}

/// Decoding, from position `i`, bits that hold the codes of the symbols of `s`
/// gives `s`, when every symbol of `s` is a leaf of the tree.
pub proof fn lemma_decode_encoded(t: Node, s: Seq<u8>, bits: Seq<bool>, i: int)
    requires
        forall|x: u8| s.contains(x) ==> leaf_symbols(t).contains(x),
        0 <= i <= bits.len(),
        bits.subrange(i, bits.len() as int) == encode_bits(code_table(t), s),
    ensures
        decode_from(t, bits, i) == Some(s),
    decreases s.len(),
{
    if s.len() == 0 {
        assert(bits.subrange(i, bits.len() as int).len() == 0);
        assert(s =~= seq![]);
    } else {
        let codes = code_table(t);
        let x = s[0];
        assert(s.contains(x));
        let c = code_of(codes, x);
        let rest = s.drop_first();
        let e = encode_bits(codes, rest);
        assert(bits.subrange(i, bits.len() as int) == c + e);
        assert forall|m: int| 0 <= m < c.len() implies bits[i + m] == #[trigger] c[m] by {
            assert(bits.subrange(i, bits.len() as int)[m] == (c + e)[m]);
        }
        lemma_next_symbol_code(t, x, bits, i);
        assert forall|y: u8| rest.contains(y) implies leaf_symbols(t).contains(y) by {
            let k = choose|k: int| 0 <= k < rest.len() && rest[k] == y;
            assert(s[k + 1] == y);
            assert(s.contains(y));
        }
        assert(bits.subrange(i + c.len(), bits.len() as int) =~= e) by {
            assert forall|m: int| 0 <= m < e.len() implies bits.subrange(
                i + c.len(),
                bits.len() as int,
            )[m] == e[m] by {
                assert(bits.subrange(i, bits.len() as int)[c.len() + m] == (c + e)[c.len() + m]);
            }
        }
        lemma_decode_encoded(t, rest, bits, i + c.len());
        assert(seq![x] + rest =~= s);
    }
}

} // verus!
