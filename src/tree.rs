//! Frequency counting and deterministic Huffman tree construction.
use vstd::prelude::*;

use crate::error::CodecError;

verus! {

/// A node of a Huffman tree: a leaf carries one symbol, an internal node two subtrees.
pub enum Node {
    Leaf { symbol: u8, weight: usize },
    Internal { left: Box<Node>, right: Box<Node>, weight: usize },
}

impl Node {
    pub open spec fn spec_weight(self) -> nat {
        match self {
            Node::Leaf { weight, .. } => weight as nat,
            Node::Internal { weight, .. } => weight as nat,
        }
    }

    /// The weight stored in the node.
    pub fn weight(&self) -> (r: usize)
        ensures
            r == self.spec_weight(),
    {
        match self {
            Node::Leaf { weight, .. } => *weight,
            Node::Internal { weight, .. } => *weight,
        }
    }
}

/// Every leaf weighs at least one and every internal node weighs what its children weigh together.
pub open spec fn weights_consistent(n: Node) -> bool
    decreases n,
{
    match n {
        Node::Leaf { weight, .. } => weight > 0,
        Node::Internal { left, right, weight } => {
            &&& weight == left.spec_weight() + right.spec_weight()
            &&& weights_consistent(*left)
            &&& weights_consistent(*right)
        },
    }
}

/// The symbols found at the leaves of a tree.
pub open spec fn leaf_symbols(n: Node) -> Set<u8>
    decreases n,
{
    match n {
        Node::Leaf { symbol, .. } => set![symbol],
        Node::Internal { left, right, .. } => leaf_symbols(*left).union(leaf_symbols(*right)),
    }
}

// ---------------------------------------------------------------------------
// Frequency table: (symbol, count) pairs in order of first appearance.

/// Index of the first entry of `t` for symbol `x`, or -1.
pub open spec fn find_symbol(t: Seq<(u8, usize)>, x: u8) -> int
    decreases t.len(),
{
    if t.len() == 0 {
        -1
    } else if t[0].0 == x {
        0
    } else {
        let r = find_symbol(t.drop_first(), x);
        if r < 0 {
            -1
        } else {
            r + 1
        }
    }
}

/// The table after one more occurrence of `x`.
pub open spec fn count_one(t: Seq<(u8, usize)>, x: u8) -> Seq<(u8, usize)> {
    let i = find_symbol(t, x);
    if i >= 0 {
        t.update(i, (x, (t[i].1 + 1) as usize))
    } else {
        t.push((x, 1usize))
    }
}

/// The frequency table of `s`: each distinct symbol with its number of occurrences,
/// in the order in which the symbols first occur.
pub open spec fn frequencies(s: Seq<u8>) -> Seq<(u8, usize)>
    decreases s.len(),
{
    if s.len() == 0 {
        seq![]
    } else {
        count_one(frequencies(s.drop_last()), s.last())
    }
}

/// Sum of the counts of a table.
pub open spec fn table_total(t: Seq<(u8, usize)>) -> nat
    decreases t.len(),
{
    if t.len() == 0 {
        0
    } else {
        table_total(t.drop_last()) + t.last().1 as nat
    }
}

proof fn lemma_find_symbol(t: Seq<(u8, usize)>, x: u8, i: int)
    requires
        0 <= i <= t.len(),
        forall|j: int| 0 <= j < i ==> #[trigger] t[j].0 != x,
        i < t.len() ==> t[i].0 == x,
    ensures
        find_symbol(t, x) == (if i < t.len() { i } else { -1 }),
    decreases t.len(),
{
    if t.len() > 0 && i > 0 {
        assert forall|j: int| 0 <= j < i - 1 implies #[trigger] t.drop_first()[j].0 != x by {
            assert(t[j + 1].0 != x);
        }
        lemma_find_symbol(t.drop_first(), x, i - 1);
    }
}

/// Counts the occurrences of each byte of `s`, in order of first appearance.
pub fn count_frequencies(s: &Vec<u8>) -> (r: Vec<(u8, usize)>)
    ensures
        r@ == frequencies(s@),
{
    let mut t: Vec<(u8, usize)> = Vec::new();
    let mut i: usize = 0;
    while i < s.len()
        invariant
            i <= s.len(),
            t@ == frequencies(s@.take(i as int)),
            forall|j: int| 0 <= j < t.len() ==> #[trigger] t[j].1 <= i,
        decreases s.len() - i,
    {
        let x = s[i];
        proof {
            assert(s@.take(i + 1).drop_last() =~= s@.take(i as int));
        }
        let mut k: usize = 0;
        while k < t.len() && t[k].0 != x
            invariant
                k <= t.len(),
                forall|j: int| 0 <= j < k ==> #[trigger] t[j].0 != x,
            decreases t.len() - k,
        {
            k = k + 1;
        }
        proof {
            lemma_find_symbol(t@, x, k as int);
        }
        if k < t.len() {
            let c = t[k].1;
            t.set(k, (x, c + 1));
        } else {
            t.push((x, 1));
        }
        i = i + 1;
    }
    proof {
        assert(s@.take(s.len() as int) =~= s@);
    }
    t
}

/// Whether some entry of `t` is for `x`.
pub open spec fn table_has(t: Seq<(u8, usize)>, x: u8) -> bool {
    exists|i: int| 0 <= i < t.len() && #[trigger] t[i].0 == x
}

proof fn lemma_table_total_update(t: Seq<(u8, usize)>, i: int, v: (u8, usize))
    requires
        0 <= i < t.len(),
    ensures
        table_total(t.update(i, v)) + t[i].1 == table_total(t) + v.1,
    decreases t.len(),
{
    if i == t.len() - 1 {
        assert(t.update(i, v).drop_last() =~= t.drop_last());
    } else {
        assert(t.update(i, v).drop_last() =~= t.drop_last().update(i, v));
        lemma_table_total_update(t.drop_last(), i, v);
    }
}

proof fn lemma_find_symbol_found(t: Seq<(u8, usize)>, x: u8)
    ensures
        -1 <= find_symbol(t, x) < t.len(),
        find_symbol(t, x) >= 0 ==> t[find_symbol(t, x)].0 == x,
        find_symbol(t, x) < 0 ==> !table_has(t, x),
    decreases t.len(),
{
    if t.len() > 0 && t[0].0 != x {
        lemma_find_symbol_found(t.drop_first(), x);
        if find_symbol(t, x) < 0 {
            assert forall|i: int| 0 <= i < t.len() implies #[trigger] t[i].0 != x by {
                if i > 0 {
                    assert(t.drop_first()[i - 1] == t[i]);
                }
            }
        }
    }
}

/// Counting gives every distinct symbol of `s` a positive count, the counts add
/// up to the length of `s`, and no count exceeds it.
pub proof fn lemma_frequencies(s: Seq<u8>)
    requires
        s.len() <= usize::MAX,
    ensures
        table_total(frequencies(s)) == s.len(),
        forall|i: int|
            0 <= i < frequencies(s).len() ==> 1 <= #[trigger] frequencies(s)[i].1 <= s.len(),
        forall|x: u8| s.contains(x) ==> table_has(frequencies(s), x),
    decreases s.len(),
{
    if s.len() > 0 {
        let p = s.drop_last();
        let x = s.last();
        lemma_frequencies(p);
        let t = frequencies(p);
        lemma_find_symbol_found(t, x);
        let i = find_symbol(t, x);
        let t2 = frequencies(s);
        if i >= 0 {
            lemma_table_total_update(t, i, (x, (t[i].1 + 1) as usize));
        } else {
            assert(t.push((x, 1usize)).drop_last() =~= t);
        }
        assert forall|y: u8| s.contains(y) implies table_has(t2, y) by {
            let k = choose|k: int| 0 <= k < s.len() && s[k] == y;
            if k < s.len() - 1 {
                assert(p[k] == y);
                assert(p.contains(y));
                let j = choose|j: int| 0 <= j < t.len() && #[trigger] t[j].0 == y;
                assert(t2[j].0 == y);
            } else if i >= 0 {
                assert(t2[i].0 == y);
            } else {
                assert(t2[t.len() as int].0 == y);
            }
        }
    }
}

// ---------------------------------------------------------------------------
// Tree construction. The queue keeps nodes in insertion order: leaves in the
// table's order, merged nodes appended at the back. Among nodes of least weight
// the one inserted first is taken.

/// Position of the first node of least weight in `q`.
pub open spec fn min_index(q: Seq<Node>) -> int
    decreases q.len(),
{
    if q.len() <= 1 {
        0
    } else {
        let m = min_index(q.drop_last());
        if q.last().spec_weight() < q[m].spec_weight() {
            q.len() - 1
        } else {
            m
        }
    }
}

/// One merge: take the two lightest nodes (first the lighter, ties to the
/// earlier) and append their parent, whose left child is the one taken first.
pub open spec fn merge_step(q: Seq<Node>) -> Seq<Node> {
    let i = min_index(q);
    let a = q[i];
    let q1 = q.remove(i);
    let j = min_index(q1);
    let b = q1[j];
    q1.remove(j).push(
        Node::Internal {
            left: Box::new(a),
            right: Box::new(b),
            weight: (a.spec_weight() + b.spec_weight()) as usize,
        },
    )
}

/// Merges until one node is left.
pub open spec fn build_from(q: Seq<Node>) -> Node
    decreases q.len(),
    via build_from_decreases
{
    if q.len() <= 1 {
        q[0]
    } else {
        build_from(merge_step(q))
    }
}

#[via_fn]
proof fn build_from_decreases(q: Seq<Node>) {
    if q.len() > 1 {
        lemma_min_index_bounds(q);
        lemma_min_index_bounds(q.remove(min_index(q)));
    }
}

/// One leaf per table entry, in table order.
pub open spec fn leaves_of(t: Seq<(u8, usize)>) -> Seq<Node> {
    Seq::new(t.len(), |i: int| Node::Leaf { symbol: t[i].0, weight: t[i].1 })
}

/// The Huffman tree of a non-empty frequency table.
pub open spec fn huffman_tree(t: Seq<(u8, usize)>) -> Node {
    build_from(leaves_of(t))
}

/// Sum of the weights of the nodes of a queue.
pub open spec fn queue_total(q: Seq<Node>) -> nat
    decreases q.len(),
{
    if q.len() == 0 {
        0
    } else {
        queue_total(q.drop_last()) + q.last().spec_weight()
    }
}

proof fn lemma_min_index_bounds(q: Seq<Node>)
    requires
        q.len() >= 1,
    ensures
        0 <= min_index(q) < q.len(),
    decreases q.len(),
{
    if q.len() > 1 {
        lemma_min_index_bounds(q.drop_last());
    }
}

proof fn lemma_queue_total_remove(q: Seq<Node>, i: int)
    requires
        0 <= i < q.len(),
    ensures
        queue_total(q) == queue_total(q.remove(i)) + q[i].spec_weight(),
    decreases q.len(),
{
    if i == q.len() - 1 {
        assert(q.remove(i) =~= q.drop_last());
    } else {
        assert(q.remove(i).drop_last() =~= q.drop_last().remove(i));
        lemma_queue_total_remove(q.drop_last(), i);
    }
}

proof fn lemma_queue_total_push(q: Seq<Node>, n: Node)
    ensures
        queue_total(q.push(n)) == queue_total(q) + n.spec_weight(),
{
    assert(q.push(n).drop_last() =~= q);
}

proof fn lemma_leaves_total(t: Seq<(u8, usize)>)
    ensures
        queue_total(leaves_of(t)) == table_total(t),
    decreases t.len(),
{
    if t.len() > 0 {
        assert(leaves_of(t).drop_last() =~= leaves_of(t.drop_last()));
        lemma_leaves_total(t.drop_last());
    }
}

proof fn lemma_merge_step(q: Seq<Node>)
    requires
        q.len() >= 2,
        queue_total(q) <= usize::MAX,
    ensures
        merge_step(q).len() == q.len() - 1,
        queue_total(merge_step(q)) == queue_total(q),
        merge_step(q).last().spec_weight() == q[min_index(q)].spec_weight()
            + q.remove(min_index(q))[min_index(q.remove(min_index(q)))].spec_weight(),
{
    let i = min_index(q);
    lemma_min_index_bounds(q);
    let q1 = q.remove(i);
    lemma_min_index_bounds(q1);
    let j = min_index(q1);
    lemma_queue_total_remove(q, i);
    lemma_queue_total_remove(q1, j);
    let a = q[i];
    let b = q1[j];
    let p = Node::Internal {
        left: Box::new(a),
        right: Box::new(b),
        weight: (a.spec_weight() + b.spec_weight()) as usize,
    };
    lemma_queue_total_push(q1.remove(j), p);
}

/// Position of the first node of least weight.
fn lightest(q: &Vec<Node>) -> (r: usize)
    requires
        q.len() >= 1,
    ensures
        r == min_index(q@),
        r < q.len(),
{
    let mut best: usize = 0;
    let mut i: usize = 1;
    while i < q.len()
        invariant
            1 <= i <= q.len(),
            best == min_index(q@.take(i as int)),
            best < i,
        decreases q.len() - i,
    {
        proof {
            assert(q@.take(i + 1).drop_last() =~= q@.take(i as int));
        }
        if q[i].weight() < q[best].weight() {
            best = i;
        }
        i = i + 1;
    }
    proof {
        assert(q@.take(q.len() as int) =~= q@);
    }
    best
}

/// Builds the Huffman tree of a frequency table. Nodes are merged lightest
/// first; among nodes of equal weight the one queued first is taken first and
/// becomes the left child. A table with one entry gives a lone leaf.
pub fn build_tree(table: &Vec<(u8, usize)>) -> (r: Result<Node, CodecError>)
    requires
        table_total(table@) <= usize::MAX,
    ensures
        table@.len() == 0 <==> r == Err::<Node, CodecError>(CodecError::EmptyInput),
        table@.len() > 0 ==> r == Ok::<Node, CodecError>(huffman_tree(table@)),
{
    if table.len() == 0 {
        return Err(CodecError::EmptyInput);
    }
    let mut q: Vec<Node> = Vec::new();
    let mut k: usize = 0;
    while k < table.len()
        invariant
            k <= table.len(),
            q@ == leaves_of(table@).take(k as int),
        decreases table.len() - k,
    {
        let (symbol, weight) = table[k];
        q.push(Node::Leaf { symbol, weight });
        proof {
            assert(q@ =~= leaves_of(table@).take(k + 1));
        }
        k = k + 1;
    }
    proof {
        assert(q@ =~= leaves_of(table@));
        lemma_leaves_total(table@);
    }
    while q.len() > 1
        invariant
            q.len() >= 1,
            build_from(q@) == huffman_tree(table@),
            queue_total(q@) <= usize::MAX,
        decreases q.len(),
    {
        proof {
            lemma_merge_step(q@);
            lemma_min_index_bounds(q@);
            lemma_min_index_bounds(q@.remove(min_index(q@)));
            lemma_queue_total_remove(q@, min_index(q@));
            lemma_queue_total_remove(q@.remove(min_index(q@)), min_index(q@.remove(min_index(q@))));
        }
        let ghost q0 = q@;
        let i = lightest(&q);
        let a = q.remove(i);
        let j = lightest(&q);
        let b = q.remove(j);
        let w = a.weight() + b.weight();
        q.push(Node::Internal { left: Box::new(a), right: Box::new(b), weight: w });
        proof {
            assert(q@ =~= merge_step(q0));
        }
    }
    Ok(q.remove(0))
}

proof fn lemma_merge_step_members(q: Seq<Node>, k: int)
    requires
        q.len() >= 2,
        0 <= k < merge_step(q).len() - 1,
    ensures
        exists|k0: int| 0 <= k0 < q.len() && #[trigger] q[k0] == merge_step(q)[k],
{
    lemma_min_index_bounds(q);
    let i = min_index(q);
    let q1 = q.remove(i);
    lemma_min_index_bounds(q1);
    let j = min_index(q1);
    let k1 = if k < j {
        k
    } else {
        k + 1
    };
    assert(merge_step(q)[k] == q1[k1]);
    let k0 = if k1 < i {
        k1
    } else {
        k1 + 1
    };
    assert(q1[k1] == q[k0]);
}

proof fn lemma_merge_step_parent(q: Seq<Node>)
    requires
        q.len() >= 2,
    ensures
        ({
            let p = merge_step(q).last();
            &&& p is Internal
            &&& exists|a: int, b: int|
                0 <= a < q.len() && 0 <= b < q.len() && a != b && *p->left == #[trigger] q[a]
                    && *p->right == #[trigger] q[b]
        }),
{
    lemma_min_index_bounds(q);
    let i = min_index(q);
    let q1 = q.remove(i);
    lemma_min_index_bounds(q1);
    let j = min_index(q1);
    let j0 = if j < i {
        j
    } else {
        j + 1
    };
    assert(q1[j] == q[j0]);
    let p = merge_step(q).last();
    assert(*p->left == q[i] && *p->right == q[j0]);
}

proof fn lemma_build_weights(q: Seq<Node>)
    requires
        q.len() >= 1,
        forall|k: int| 0 <= k < q.len() ==> weights_consistent(#[trigger] q[k]),
        queue_total(q) <= usize::MAX,
    ensures
        weights_consistent(build_from(q)),
        build_from(q).spec_weight() == queue_total(q),
    decreases q.len(),
{
    if q.len() == 1 {
        assert(q.drop_last().len() == 0);
        assert(queue_total(q.drop_last()) == 0);
        assert(q.last() == q[0]);
    } else {
        let m = merge_step(q);
        lemma_merge_step(q);
        lemma_merge_step_parent(q);
        assert forall|k: int| 0 <= k < m.len() implies weights_consistent(#[trigger] m[k]) by {
            if k < m.len() - 1 {
                lemma_merge_step_members(q, k);
            }
        }
        lemma_build_weights(m);
    }
}

proof fn lemma_build_symbols(q: Seq<Node>)
    requires
        q.len() >= 1,
    ensures
        forall|k: int, x: u8|
            0 <= k < q.len() && #[trigger] leaf_symbols(q[k]).contains(x) ==> leaf_symbols(
                build_from(q),
            ).contains(x),
    decreases q.len(),
{
    if q.len() > 1 {
        let m = merge_step(q);
        lemma_min_index_bounds(q);
        let i = min_index(q);
        let q1 = q.remove(i);
        lemma_min_index_bounds(q1);
        lemma_build_symbols(m);
        let j = min_index(q1);
        assert forall|k: int, x: u8|
            0 <= k < q.len() && #[trigger] leaf_symbols(q[k]).contains(x) implies leaf_symbols(
            build_from(q),
        ).contains(x) by {
            let p = m.last();
            assert(leaf_symbols(p) == leaf_symbols(q[i]).union(leaf_symbols(q1[j])));
            if k == i {
                assert(leaf_symbols(m[m.len() - 1]).contains(x));
            } else {
                let k1 = if k < i {
                    k
                } else {
                    k - 1
                };
                assert(q1[k1] == q[k]);
                if k1 == j {
                    assert(leaf_symbols(m[m.len() - 1]).contains(x));
                } else {
                    let k2 = if k1 < j {
                        k1
                    } else {
                        k1 - 1
                    };
                    assert(m[k2] == q1[k1]);
                    assert(leaf_symbols(m[k2]).contains(x));
                }
            }
        }
    }
}

/// In the tree built from the frequencies of a non-empty input, every leaf
/// weighs at least one, every internal node weighs what its two children weigh
/// together, and the root weighs the length of the input.
pub proof fn lemma_huffman_weights(s: Seq<u8>)
    requires
        s.len() > 0,
        s.len() <= usize::MAX,
    ensures
        weights_consistent(huffman_tree(frequencies(s))),
        huffman_tree(frequencies(s)).spec_weight() == s.len(),
{
    let t = frequencies(s);
    lemma_frequencies(s);
    lemma_leaves_total(t);
    assert(s.contains(s[0]));
    let q = leaves_of(t);
    assert forall|k: int| 0 <= k < q.len() implies weights_consistent(#[trigger] q[k]) by {
        assert(t[k].1 >= 1);
    }
    lemma_build_weights(q);
}

/// Every byte of a non-empty input is the symbol of a leaf of the tree built from
/// its frequencies.
pub proof fn lemma_huffman_symbols(s: Seq<u8>)
    requires
        s.len() > 0,
        s.len() <= usize::MAX,
    ensures
        forall|x: u8| s.contains(x) ==> leaf_symbols(huffman_tree(frequencies(s))).contains(x),
{
    let t = frequencies(s);
    lemma_frequencies(s);
    let q = leaves_of(t);
    assert(s.contains(s[0]));
    lemma_build_symbols(q);
    assert forall|x: u8| s.contains(x) implies leaf_symbols(huffman_tree(t)).contains(x) by {
        let k = choose|k: int| 0 <= k < t.len() && #[trigger] t[k].0 == x;
        assert(leaf_symbols(q[k]).contains(x));
    }
}

} // verus!
