//! Huffman coding: leaves for the sorted symbols are merged two at a time,
//! always the two lightest, into a binary tree held in a flat arena; each
//! symbol's code is its root-to-leaf path, `0` toward the first-popped
//! child and `1` toward the second.

use vstd::prelude::*;
use crate::bitvec::BitVec;
use crate::compress::{
    Code, decode_with, encode_with, exec_table_wf, is_prefix, table_has, view_table,
};
use crate::shannon::freq_sum;
use crate::utils;

verus! {

/// One arena node: a leaf holds the index of its symbol in the sorted
/// frequency table, an internal node the arena indices of its children.
#[derive(Clone, Copy)]
pub enum NodeKind {
    Leaf(usize),
    Internal(usize, usize),
}

/// A merge node with its combined weight.
pub struct Node {
    pub weight: usize,
    pub kind: NodeKind,
}

/// The set of symbol indices at the leaves under node `i`.
pub open spec fn leaves(nodes: Seq<Node>, i: int) -> Set<int>
    decreases i,
{
    if 0 <= i < nodes.len() {
        match nodes[i].kind {
            NodeKind::Leaf(s) => set![s as int],
            NodeKind::Internal(l, r) => if l < i && r < i {
                leaves(nodes, l as int).union(leaves(nodes, r as int))
            } else {
                Set::empty()
            },
        }
    } else {
        Set::empty()
    }
}

/// A well-formed subtree: children precede their parent in the arena, and
/// sibling subtrees carry disjoint leaf sets.
pub open spec fn subtree_ok(nodes: Seq<Node>, i: int) -> bool
    decreases i,
{
    &&& 0 <= i < nodes.len()
    &&& match nodes[i].kind {
        NodeKind::Leaf(s) => true,
        NodeKind::Internal(l, r) => {
            &&& l < i
            &&& r < i
            &&& subtree_ok(nodes, l as int)
            &&& subtree_ok(nodes, r as int)
            &&& leaves(nodes, l as int).disjoint(leaves(nodes, r as int))
        },
    }
}

/// The height of the subtree at node `i`.
pub open spec fn height(nodes: Seq<Node>, i: int) -> int
    decreases i,
{
    if 0 <= i < nodes.len() {
        match nodes[i].kind {
            NodeKind::Leaf(s) => 0,
            NodeKind::Internal(l, r) => if l < i && r < i {
                let hl = height(nodes, l as int);
                let hr = height(nodes, r as int);
                1 + if hl >= hr {
                    hl
                } else {
                    hr
                }
            } else {
                0
            },
        }
    } else {
        0
    }
}

/// The code of each leaf under node `i`, given the path prefix `p`: a leaf
/// keeps `p`, an internal node extends it by `0` to the left and `1` to the
/// right.
pub open spec fn tree_codes(nodes: Seq<Node>, i: int, p: Seq<bool>) -> Map<int, Seq<bool>>
    decreases i,
{
    if 0 <= i < nodes.len() {
        match nodes[i].kind {
            NodeKind::Leaf(s) => map![s as int => p],
            NodeKind::Internal(l, r) => if l < i && r < i {
                tree_codes(nodes, l as int, p.push(false)).union_prefer_right(
                    tree_codes(nodes, r as int, p.push(true)))
            } else {
                Map::empty()
            },
        }
    } else {
        Map::empty()
    }
}

/// The total weight of the nodes listed in a queue.
pub open spec fn queue_weight(nodes: Seq<Node>, q: Seq<usize>) -> int
    decreases q.len(),
{
    if q.len() == 0 {
        0
    } else {
        queue_weight(nodes, q.drop_last()) + nodes[q.last() as int].weight
    }
}

/// Appending a node to the arena changes nothing about existing subtrees.
proof fn lemma_arena_push(nodes: Seq<Node>, x: Node, i: int, p: Seq<bool>)
    requires
        0 <= i < nodes.len(),
    ensures
        leaves(nodes.push(x), i) == leaves(nodes, i),
        subtree_ok(nodes.push(x), i) == subtree_ok(nodes, i),
        height(nodes.push(x), i) == height(nodes, i),
        tree_codes(nodes.push(x), i, p) == tree_codes(nodes, i, p),
    decreases i,
{
    let n2 = nodes.push(x);
    assert(n2[i] == nodes[i]);
    match nodes[i].kind {
        NodeKind::Leaf(s) => {},
        NodeKind::Internal(l, r) => {
            if l < i && r < i {
                lemma_arena_push(nodes, x, l as int, p.push(false));
                lemma_arena_push(nodes, x, r as int, p.push(true));
                lemma_arena_push(nodes, x, l as int, p);
                lemma_arena_push(nodes, x, r as int, p);
            }
        },
    }
}

/// A queue's weight is nonnegative and at least the weight of its last two
/// entries.
proof fn lemma_queue_weight_nonneg(nodes: Seq<Node>, q: Seq<usize>)
    ensures
        queue_weight(nodes, q) >= 0,
    decreases q.len(),
{
    if q.len() > 0 {
        lemma_queue_weight_nonneg(nodes, q.drop_last());
    }
}

/// Inserting an entry adds its node's weight to the queue weight.
proof fn lemma_queue_weight_insert(nodes: Seq<Node>, q: Seq<usize>, p: int, v: usize)
    requires
        0 <= p <= q.len(),
    ensures
        queue_weight(nodes, q.insert(p, v)) == queue_weight(nodes, q) + nodes[v as int].weight,
    decreases q.len(),
{
    if p == q.len() {
        assert(q.insert(p, v).drop_last() =~= q);
    } else {
        assert(q.insert(p, v).drop_last() =~= q.drop_last().insert(p, v));
        assert(q.insert(p, v).last() == q.last());
        lemma_queue_weight_insert(nodes, q.drop_last(), p, v);
    }
}

/// The seed arena: one leaf node per entry of the frequency list.
pub open spec fn seed_nodes(freqs: Seq<usize>) -> Seq<Node> {
    Seq::new(freqs.len(), |i: int| Node { weight: freqs[i], kind: NodeKind::Leaf(i as usize) })
}

/// The seed queue: every leaf, in list order (which is descending weight).
pub open spec fn seed_queue(n: nat) -> Seq<usize> {
    Seq::new(n, |i: int| i as usize)
}

/// The first queue position at or after `q` holding a node lighter than
/// `w`; the queue length if there is none. A merged node is inserted there,
/// after any existing nodes of its own weight.
pub open spec fn ins_pos(nodes: Seq<Node>, queue: Seq<usize>, w: int, q: int) -> int
    decreases queue.len() - q,
{
    if q < 0 || q >= queue.len() {
        queue.len() as int
    } else if nodes[queue[q] as int].weight < w {
        q
    } else {
        ins_pos(nodes, queue, w, q + 1)
    }
}

/// The whole merge process: pop the two lightest nodes (the queue's last
/// two), append their merge to the arena, insert it back in weight order,
/// and repeat until one node remains. Returns the final arena and the root.
pub open spec fn build_arena(nodes: Seq<Node>, queue: Seq<usize>) -> (Seq<Node>, int)
    decreases queue.len(),
{
    if queue.len() == 0 {
        (nodes, 0)
    } else if queue.len() == 1 {
        (nodes, queue[0] as int)
    } else {
        let a = queue[queue.len() - 1];
        let b = queue[queue.len() - 2];
        let w = nodes[a as int].weight + nodes[b as int].weight;
        let idx = nodes.len();
        let nodes2 = nodes.push(
            Node { weight: w as usize, kind: NodeKind::Internal(a, b) });
        let q2 = queue.drop_last().drop_last();
        let p = ins_pos(nodes2, q2, w as usize as int, 0);
        if 0 <= p <= q2.len() {
            build_arena(nodes2, q2.insert(p, idx as usize))
        } else {
            (nodes2, 0)
        }
    }
}

/// The Huffman code of each position of a descending frequency list: the
/// root-to-leaf paths of the tree that the merge process builds.
pub open spec fn huffman_codes(freqs: Seq<usize>) -> Map<int, Seq<bool>> {
    let built = build_arena(seed_nodes(freqs), seed_queue(freqs.len()));
    tree_codes(built.0, built.1, Seq::empty())
}

/// `ins_pos` finds exactly the least position holding a lighter node.
proof fn lemma_ins_pos(nodes: Seq<Node>, queue: Seq<usize>, w: int, q: int, p: int)
    requires
        0 <= q <= p <= queue.len(),
        forall|k: int| q <= k < p ==> nodes[(#[trigger] queue[k]) as int].weight >= w,
        p < queue.len() ==> nodes[queue[p] as int].weight < w,
    ensures
        ins_pos(nodes, queue, w, q) == p,
    decreases p - q,
{
    if q < p {
        lemma_ins_pos(nodes, queue, w, q + 1, p);
    }
}

/// Some tree in the queue has symbol `s` at a leaf.
pub open spec fn covered(nodes: Seq<Node>, q: Seq<usize>, s: int) -> bool {
    exists|k: int| 0 <= k < q.len() && leaves(nodes, #[trigger] q[k] as int).contains(s)
}

/// Queue weight only reads the listed nodes, so extending the arena keeps it.
proof fn lemma_queue_weight_same(n1: Seq<Node>, n2: Seq<Node>, q: Seq<usize>)
    requires
        forall|j: int| 0 <= j < q.len() ==> (#[trigger] q[j]) < n1.len()
            && q[j] < n2.len() && n2[q[j] as int] == n1[q[j] as int],
    ensures
        queue_weight(n2, q) == queue_weight(n1, q),
    decreases q.len(),
{
    if q.len() > 0 {
        lemma_queue_weight_same(n1, n2, q.drop_last());
    }
}

/// A subtree's height is bounded by its arena position.
proof fn lemma_height_le_index(nodes: Seq<Node>, i: int)
    requires
        subtree_ok(nodes, i),
    ensures
        0 <= height(nodes, i) <= i,
    decreases i,
{
    match nodes[i].kind {
        NodeKind::Leaf(s) => {},
        NodeKind::Internal(l, r) => {
            lemma_height_le_index(nodes, l as int);
            lemma_height_le_index(nodes, r as int);
        },
    }
}

/// What the path codes of a well-formed subtree look like: one code per
/// leaf, each extending the prefix, none a prefix of another, all bounded
/// by the prefix length plus the height, and all strictly longer than the
/// prefix under an internal node.
proof fn lemma_tree_codes(nodes: Seq<Node>, i: int, p: Seq<bool>)
    requires
        subtree_ok(nodes, i),
    ensures
        tree_codes(nodes, i, p).dom() == leaves(nodes, i),
        forall|s: int| leaves(nodes, i).contains(s) ==>
            is_prefix(p, #[trigger] tree_codes(nodes, i, p)[s]),
        forall|s: int| leaves(nodes, i).contains(s) ==>
            (#[trigger] tree_codes(nodes, i, p)[s]).len() <= p.len() + height(nodes, i),
        forall|s1: int, s2: int| leaves(nodes, i).contains(s1) && leaves(nodes, i).contains(s2)
            && s1 != s2 ==> !is_prefix(
                #[trigger] tree_codes(nodes, i, p)[s1],
                #[trigger] tree_codes(nodes, i, p)[s2]),
        nodes[i].kind is Internal ==> forall|s: int| leaves(nodes, i).contains(s) ==>
            (#[trigger] tree_codes(nodes, i, p)[s]).len() > p.len(),
    decreases i,
{
    let tc = tree_codes(nodes, i, p);
    match nodes[i].kind {
        NodeKind::Leaf(s) => {
            assert(tc.dom() =~= leaves(nodes, i));
            assert(p.take(p.len() as int) =~= p);
        },
        NodeKind::Internal(l, r) => {
            let pl = p.push(false);
            let pr = p.push(true);
            lemma_tree_codes(nodes, l as int, pl);
            lemma_tree_codes(nodes, r as int, pr);
            let tl = tree_codes(nodes, l as int, pl);
            let tr = tree_codes(nodes, r as int, pr);
            assert(tc.dom() =~= leaves(nodes, i));
            assert forall|s: int| leaves(nodes, i).contains(s) implies
                (#[trigger] tc[s]).len() > p.len()
                    && is_prefix(p, tc[s])
                    && tc[s].len() <= p.len() + height(nodes, i)
                    && (leaves(nodes, l as int).contains(s) ==> tc[s] == tl[s]
                        && tc[s][p.len() as int] == false)
                    && (leaves(nodes, r as int).contains(s) ==> tc[s] == tr[s]
                        && tc[s][p.len() as int] == true) by {
                if leaves(nodes, r as int).contains(s) {
                    assert(tc[s] == tr[s]);
                    assert(is_prefix(pr, tr[s]));
                    assert(tr[s].take(pr.len() as int)[p.len() as int] == pr[p.len() as int]);
                    assert(tc[s][p.len() as int] == true);
                    assert(p.take(p.len() as int) =~= p);
                    assert(pr.take(p.len() as int) =~= p);
                    assert(tr[s].take(pr.len() as int).take(p.len() as int)
                        =~= tr[s].take(p.len() as int));
                } else {
                    assert(leaves(nodes, l as int).contains(s));
                    assert(!tr.dom().contains(s));
                    assert(tc[s] == tl[s]);
                    assert(is_prefix(pl, tl[s]));
                    assert(tl[s].take(pl.len() as int)[p.len() as int] == pl[p.len() as int]);
                    assert(tc[s][p.len() as int] == false);
                    assert(pl.take(p.len() as int) =~= p);
                    assert(tl[s].take(pl.len() as int).take(p.len() as int)
                        =~= tl[s].take(p.len() as int));
                }
            }
            assert forall|s1: int, s2: int| leaves(nodes, i).contains(s1)
                && leaves(nodes, i).contains(s2) && s1 != s2 implies
                !is_prefix(#[trigger] tc[s1], #[trigger] tc[s2]) by {
                let inl1 = leaves(nodes, l as int).contains(s1);
                let inl2 = leaves(nodes, l as int).contains(s2);
                if inl1 == inl2 {
                } else {
                    if is_prefix(tc[s1], tc[s2]) {
                        assert(tc[s1][p.len() as int]
                            == tc[s2].take(tc[s1].len() as int)[p.len() as int]);
                    }
                }
            }
        },
    }
}

/// A Huffman coder: the built code table, one entry per symbol of the data
/// it was built from, in descending frequency order.
pub struct HuffmanCode {
    table: Vec<(u8, BitVec)>,
}

impl HuffmanCode {
    /// The frequencies, in table order, of the table's symbols in `data`.
    pub open spec fn table_freqs(t: Seq<(u8, Seq<bool>)>, data: Seq<u8>) -> Seq<usize> {
        Seq::new(t.len(), |j: int| utils::count_of(data, t[j].0) as usize)
    }

    /// Builds the merge tree: seed one leaf per entry of the descending
    /// frequency list, then repeatedly pop the two lightest nodes, merge
    /// them, and insert the merged node after existing nodes of its weight.
    /// Returns the arena and the root index.
    #[verifier::rlimit(100)]
    fn from_freqs(freqs: &Vec<usize>) -> (res: (Vec<Node>, usize))
        requires
            freqs@.len() >= 1,
            forall|i: int, j: int| 0 <= i < j < freqs@.len() ==> freqs@[i] >= freqs@[j],
            freq_sum(freqs@) <= usize::MAX,
        ensures
            res.1 < res.0@.len(),
            subtree_ok(res.0@, res.1 as int),
            forall|s: int| #[trigger] leaves(res.0@, res.1 as int).contains(s)
                <==> 0 <= s < freqs@.len(),
            res.0@.len() <= 2 * freqs@.len(),
            res.0@ == build_arena(seed_nodes(freqs@), seed_queue(freqs@.len())).0,
            res.1 as int == build_arena(seed_nodes(freqs@), seed_queue(freqs@.len())).1,
    {
        let n = freqs.len();
        let mut nodes: Vec<Node> = Vec::new();
        let mut queue: Vec<usize> = Vec::new();
        let mut i: usize = 0;
        while i < n
            invariant
                n == freqs@.len(),
                forall|a: int, b: int| 0 <= a < b < freqs@.len() ==> freqs@[a] >= freqs@[b],
                freq_sum(freqs@) <= usize::MAX,
                i <= n,
                nodes@.len() == i,
                queue@.len() == i,
                forall|j: int| 0 <= j < i ==> (#[trigger] nodes@[j]).kind == NodeKind::Leaf(j as usize)
                    && nodes@[j].weight == freqs@[j],
                forall|j: int| 0 <= j < i ==> #[trigger] queue@[j] == j,
                queue_weight(nodes@, queue@) == freq_sum(freqs@.take(i as int)),
            decreases n - i,
        {
            let ghost qpre = queue@;
            let ghost npre = nodes@;
            nodes.push(Node { weight: freqs[i], kind: NodeKind::Leaf(i) });
            queue.push(i);
            proof {
                assert(queue@.drop_last() =~= qpre);
                assert(freqs@.take(i + 1).drop_last() =~= freqs@.take(i as int));
                assert(freqs@.take(i + 1).last() == freqs@[i as int]);
                lemma_queue_weight_same(npre, nodes@, qpre);
            }
            i = i + 1;
        }
        proof {
            assert(freqs@.take(n as int) =~= freqs@);
            assert forall|j: int| 0 <= j < n implies subtree_ok(nodes@, j)
                && leaves(nodes@, j) =~= set![j] && height(nodes@, j) == 0 by {}
            assert forall|s: int| 0 <= s < n implies covered(nodes@, queue@, s) by {
                assert(queue@[s] == s);
                assert(leaves(nodes@, queue@[s] as int).contains(s));
            }
            assert forall|s: int| covered(nodes@, queue@, s) implies 0 <= s < n by {
                let k = choose|k: int| 0 <= k < queue@.len()
                    && leaves(nodes@, #[trigger] queue@[k] as int).contains(s);
                assert(leaves(nodes@, k).contains(s));
            }
            assert(nodes@ =~= seed_nodes(freqs@));
            assert(queue@ =~= seed_queue(freqs@.len()));
        }
        while queue.len() > 1
            invariant
                n == freqs@.len(),
                n >= 1,
                1 <= queue@.len(),
                nodes@.len() + queue@.len() <= 2 * n,
                forall|q: int| 0 <= q < queue@.len() ==>
                    (#[trigger] queue@[q]) < nodes@.len(),
                forall|q: int| 0 <= q < queue@.len() ==>
                    subtree_ok(nodes@, #[trigger] queue@[q] as int),
                forall|a: int, b: int| 0 <= a < b < queue@.len() ==>
                    nodes@[queue@[a] as int].weight >= nodes@[queue@[b] as int].weight,
                forall|a: int, b: int| 0 <= a < queue@.len() && 0 <= b < queue@.len()
                    && a != b ==> leaves(nodes@, #[trigger] queue@[a] as int).disjoint(
                        leaves(nodes@, #[trigger] queue@[b] as int)),
                forall|s: int| covered(nodes@, queue@, s) <==> 0 <= s < n,
                queue_weight(nodes@, queue@) == freq_sum(freqs@),
                freq_sum(freqs@) <= usize::MAX,
                build_arena(nodes@, queue@)
                    == build_arena(seed_nodes(freqs@), seed_queue(freqs@.len())),
            decreases queue@.len(),
        {
            let ghost q0 = queue@;
            let ghost n0 = nodes@;
            let qlen = queue.len();
            let a = queue[qlen - 1];
            let b = queue[qlen - 2];
            queue.pop();
            queue.pop();
            let ghost q2 = queue@;
            proof {
                assert(q2 =~= q0.drop_last().drop_last());
                assert(q0.drop_last().last() == b);
                assert(q0.last() == a);
                lemma_queue_weight_nonneg(n0, q2);
                assert(queue_weight(n0, q0)
                    == queue_weight(n0, q0.drop_last()) + n0[a as int].weight);
                assert(queue_weight(n0, q0.drop_last())
                    == queue_weight(n0, q0.drop_last().drop_last()) + n0[b as int].weight);
                assert(queue_weight(n0, q0)
                    == queue_weight(n0, q2) + n0[b as int].weight + n0[a as int].weight);
            }
            let w = nodes[a].weight + nodes[b].weight;
            let idx = nodes.len();
            let ghost x = Node { weight: w, kind: NodeKind::Internal(a, b) };
            nodes.push(Node { weight: w, kind: NodeKind::Internal(a, b) });
            proof {
                assert(nodes@ =~= n0.push(x));
                assert forall|q: int| 0 <= q < q2.len() implies
                    (#[trigger] q2[q]) < nodes@.len()
                        && subtree_ok(nodes@, q2[q] as int)
                        && leaves(nodes@, q2[q] as int) == leaves(n0, q2[q] as int) by {
                    lemma_arena_push(n0, x, q2[q] as int, Seq::<bool>::empty());
                }
                lemma_arena_push(n0, x, a as int, Seq::<bool>::empty());
                lemma_arena_push(n0, x, b as int, Seq::<bool>::empty());
                assert(subtree_ok(nodes@, idx as int));
                assert(leaves(nodes@, idx as int)
                    =~= leaves(n0, a as int).union(leaves(n0, b as int)));
                lemma_queue_weight_same(n0, nodes@, q2);
            }
            let mut p: usize = 0;
            while p < queue.len() && nodes[queue[p]].weight >= w
                invariant
                    p <= queue@.len(),
                    queue@ == q2,
                    forall|q: int| 0 <= q < queue@.len() ==>
                        (#[trigger] queue@[q]) < nodes@.len(),
                    idx < nodes@.len(),
                    nodes@[idx as int].weight == w,
                    forall|q: int| 0 <= q < p ==>
                        nodes@[#[trigger] queue@[q] as int].weight >= w,
                decreases queue@.len() - p,
            {
                p = p + 1;
            }
            queue.insert(p, idx);
            proof {
                assert(queue@ == q2.insert(p as int, idx));
                assert(build_arena(n0, q0) == build_arena(nodes@, queue@)) by {
                    assert(q0[q0.len() - 1] == a && q0[q0.len() - 2] == b);
                    assert(n0.push(x) == nodes@);
                    lemma_ins_pos(nodes@, q2, w as int, 0, p as int);
                    assert(build_arena(n0, q0) == build_arena(nodes@, q2.insert(p as int, idx)));
                };
                lemma_queue_weight_insert(nodes@, q2, p as int, idx);
                assert forall|aa: int, bb: int| 0 <= aa < bb < queue@.len() implies
                    nodes@[queue@[aa] as int].weight >= nodes@[queue@[bb] as int].weight by {
                    if bb < p {
                    } else if bb == p {
                        assert(queue@[aa] == q2[aa]);
                    } else if aa < p {
                        assert(queue@[bb] == q2[bb - 1]);
                    } else if aa == p {
                        assert(queue@[bb] == q2[bb - 1]);
                        assert(nodes@[q2[bb - 1] as int].weight < w);
                    } else {
                        assert(queue@[aa] == q2[aa - 1] && queue@[bb] == q2[bb - 1]);
                    }
                }
                assert forall|aa: int, bb: int| 0 <= aa < queue@.len()
                    && 0 <= bb < queue@.len() && aa != bb implies
                    leaves(nodes@, #[trigger] queue@[aa] as int).disjoint(
                        leaves(nodes@, #[trigger] queue@[bb] as int)) by {
                    let la = if aa < p { q2[aa] } else if aa == p { idx } else { q2[aa - 1] };
                    let lb = if bb < p { q2[bb] } else if bb == p { idx } else { q2[bb - 1] };
                    assert(queue@[aa] == la && queue@[bb] == lb);
                    if aa != p && bb != p {
                        assert(leaves(nodes@, la as int).disjoint(leaves(nodes@, lb as int)));
                    } else {
                        let other = if aa == p { lb } else { la };
                        assert(leaves(n0, other as int).disjoint(leaves(n0, a as int)));
                        assert(leaves(n0, other as int).disjoint(leaves(n0, b as int)));
                        assert(leaves(nodes@, idx as int).disjoint(
                            leaves(nodes@, other as int))) by {
                            assert(leaves(nodes@, idx as int)
                                == leaves(n0, a as int).union(leaves(n0, b as int)));
                        };
                    }
                }
                assert forall|s: int| 0 <= s < n implies covered(nodes@, queue@, s) by {
                    assert(covered(n0, q0, s));
                    let q = choose|q: int| 0 <= q < q0.len()
                        && leaves(n0, #[trigger] q0[q] as int).contains(s);
                    if q < q0.len() - 2 {
                        let qq = if q < p { q } else { q + 1 };
                        assert(queue@[qq] == q2[q] == q0[q]);
                        assert(leaves(nodes@, queue@[qq] as int).contains(s));
                    } else {
                        assert(q0[q] == a || q0[q] == b);
                        assert(leaves(nodes@, idx as int).contains(s));
                        assert(queue@[p as int] == idx);
                        assert(leaves(nodes@, queue@[p as int] as int).contains(s));
                    }
                }
                assert forall|s: int| covered(nodes@, queue@, s) implies 0 <= s < n by {
                    let q = choose|q: int| 0 <= q < queue@.len()
                        && leaves(nodes@, #[trigger] queue@[q] as int).contains(s);
                    if queue@[q] == idx {
                        assert(leaves(n0, a as int).contains(s)
                            || leaves(n0, b as int).contains(s));
                        if leaves(n0, a as int).contains(s) {
                            assert(leaves(n0, q0[q0.len() - 1] as int).contains(s));
                        } else {
                            assert(leaves(n0, q0[q0.len() - 2] as int).contains(s));
                        }
                        assert(covered(n0, q0, s));
                    } else {
                        let orig = if q < p { q } else { q - 1 };
                        assert(queue@[q] == q2[orig] == q0[orig]);
                        assert(leaves(n0, q0[orig] as int).contains(s));
                        assert(covered(n0, q0, s));
                    }
                }
            }
        }
        let root = queue[0];
        proof {
            assert(build_arena(nodes@, queue@) == (nodes@, root as int));
            assert forall|s: int| #[trigger] leaves(nodes@, root as int).contains(s)
                implies 0 <= s < n by {
                assert(covered(nodes@, queue@, s));
            }
            assert forall|s: int| 0 <= s < n implies
                #[trigger] leaves(nodes@, root as int).contains(s) by {
                assert(covered(nodes@, queue@, s));
                let q = choose|q: int| 0 <= q < queue@.len()
                    && leaves(nodes@, #[trigger] queue@[q] as int).contains(s);
                assert(q == 0);
            }
        }
        (nodes, root)
    }

    /// Walks the tree from node `i`, assigning to each leaf's slot the path
    /// built so far: `prefix` plus `0` into the left child and `1` into the
    /// right.
    fn step(nodes: &Vec<Node>, i: usize, prefix: &BitVec, codes: &mut Vec<BitVec>)
        requires
            subtree_ok(nodes@, i as int),
            prefix.wf(),
            forall|j: int| 0 <= j < old(codes)@.len() ==> (#[trigger] old(codes)@[j]).wf(),
            forall|s: int| leaves(nodes@, i as int).contains(s) ==>
                0 <= s < old(codes)@.len(),
            prefix@.len() + height(nodes@, i as int) + 16 <= usize::MAX,
        ensures
            final(codes)@.len() == old(codes)@.len(),
            forall|j: int| 0 <= j < old(codes)@.len() ==> (#[trigger] final(codes)@[j]).wf(),
            forall|s: int| 0 <= s < old(codes)@.len()
                && !leaves(nodes@, i as int).contains(s) ==>
                #[trigger] final(codes)@[s] == old(codes)@[s],
            forall|s: int| leaves(nodes@, i as int).contains(s) ==>
                (#[trigger] final(codes)@[s])@ == tree_codes(nodes@, i as int, prefix@)[s],
        decreases i,
    {
        let node = &nodes[i];
        match node.kind {
            NodeKind::Leaf(s) => {
                proof {
                    assert(leaves(nodes@, i as int) == set![s as int]);
                    assert(leaves(nodes@, i as int).contains(s as int));
                }
                let c = prefix.clone();
                codes.set(s, c);
                proof {
                    assert(tree_codes(nodes@, i as int, prefix@)[s as int] == prefix@);
                    assert forall|ss: int| leaves(nodes@, i as int).contains(ss) implies
                        (#[trigger] codes@[ss])@
                            == tree_codes(nodes@, i as int, prefix@)[ss] by {
                        assert(ss == s as int);
                    }
                }
            },
            NodeKind::Internal(l, r) => {
                proof {
                    assert(nodes@[i as int].kind == NodeKind::Internal(l, r));
                    assert(subtree_ok(nodes@, l as int) && subtree_ok(nodes@, r as int));
                    assert(leaves(nodes@, i as int)
                        == leaves(nodes@, l as int).union(leaves(nodes@, r as int)));
                    lemma_height_le_index(nodes@, l as int);
                    lemma_height_le_index(nodes@, r as int);
                    assert(height(nodes@, i as int) > height(nodes@, l as int)
                        && height(nodes@, i as int) > height(nodes@, r as int));
                    lemma_tree_codes(nodes@, l as int, prefix@.push(false));
                    lemma_tree_codes(nodes@, r as int, prefix@.push(true));
                }
                let mut pl = prefix.clone();
                pl.push(false);
                proof {
                    assert forall|s: int| leaves(nodes@, l as int).contains(s) implies
                        0 <= s < codes@.len() by {
                        assert(leaves(nodes@, i as int).contains(s));
                    }
                }
                Self::step(nodes, l, &pl, codes);
                let mut pr = prefix.clone();
                pr.push(true);
                proof {
                    assert forall|s: int| leaves(nodes@, r as int).contains(s) implies
                        0 <= s < codes@.len() by {
                        assert(leaves(nodes@, i as int).contains(s));
                    }
                }
                Self::step(nodes, r, &pr, codes);
            },
        }
    }
}

impl Code for HuffmanCode {
    /// The code table, as symbol/bit-sequence pairs.
    closed spec fn codes(&self) -> Seq<(u8, Seq<bool>)> {
        view_table(self.table@)
    }

    closed spec fn wf(&self) -> bool {
        exec_table_wf(self.table@)
    }

    /// Counts and sorts the data's symbols, builds the merge tree over the
    /// sorted frequencies, and assigns each symbol its root-to-leaf path:
    /// exactly `huffman_codes` of the sorted frequencies, attached to the
    /// symbols in descending count order with first occurrence breaking
    /// ties.
    fn from_data(data: &[u8]) -> (r: Self)
        ensures
            forall|i: int, j: int| 0 <= i < j < r.codes().len() ==>
                utils::count_of(data@, (#[trigger] r.codes()[i]).0)
                    > utils::count_of(data@, (#[trigger] r.codes()[j]).0)
                || (utils::count_of(data@, r.codes()[i].0)
                        == utils::count_of(data@, r.codes()[j].0)
                    && utils::first_pos(data@, r.codes()[i].0)
                        < utils::first_pos(data@, r.codes()[j].0)),
            forall|j: int| 0 <= j < r.codes().len() ==>
                (#[trigger] r.codes()[j]).1
                    == huffman_codes(Self::table_freqs(r.codes(), data@))[j],
    {
        let counts = utils::sorted_counts(data);
        let n = counts.len();
        if n == 0 {
            let r = HuffmanCode { table: Vec::new() };
            proof {
                assert(view_table(r.table@).len() == 0);
                assert forall|x: u8| !data@.contains(x) by {
                    if data@.contains(x) {
                        assert(exists|j: int| 0 <= j < counts@.len() && counts@[j].0 == x);
                    }
                }
            }
            return r;
        }
        let mut freqs: Vec<usize> = Vec::new();
        let mut codes: Vec<BitVec> = Vec::new();
        let mut k: usize = 0;
        while k < n
            invariant
                n == counts@.len(),
                utils::counts_match(counts@, data@),
                utils::canonical_order(counts@, data@),
                k <= n,
                freqs@.len() == k,
                codes@.len() == k,
                forall|j: int| 0 <= j < k ==> #[trigger] freqs@[j] == counts@[j].1
                    && freqs@[j] >= 1,
                forall|a: int, b: int| 0 <= a < b < k ==> freqs@[a] >= freqs@[b],
                forall|j: int| 0 <= j < k ==> (#[trigger] codes@[j]).wf()
                    && codes@[j]@ == Seq::<bool>::empty(),
            decreases n - k,
        {
            freqs.push(counts[k].1);
            codes.push(BitVec::new());
            k = k + 1;
        }
        proof {
            crate::shannon::lemma_freq_total(freqs@, counts@);
            crate::shannon::lemma_total_at_least_len(counts@);
        }
        let (nodes, root) = Self::from_freqs(&freqs);
        let prefix = BitVec::new();
        proof {
            lemma_height_le_index(nodes@, root as int);
        }
        Self::step(&nodes, root, &prefix, &mut codes);
        proof {
            lemma_tree_codes(nodes@, root as int, Seq::<bool>::empty());
        }
        let mut table: Vec<(u8, BitVec)> = Vec::new();
        let mut k: usize = 0;
        while k < n
            invariant
                n == counts@.len(),
                n == codes@.len(),
                k <= n,
                table@.len() == k,
                forall|j: int| 0 <= j < codes@.len() ==> (#[trigger] codes@[j]).wf(),
                forall|j: int| 0 <= j < k ==> (#[trigger] table@[j]).0 == counts@[j].0
                    && table@[j].1.wf() && table@[j].1@ == codes@[j]@,
            decreases n - k,
        {
            table.push((counts[k].0, codes[k].clone()));
            k = k + 1;
        }
        let r = HuffmanCode { table };
        proof {
            let vt = view_table(r.table@);
            let tc = tree_codes(nodes@, root as int, Seq::<bool>::empty());
            assert forall|j: int| 0 <= j < vt.len() implies
                leaves(nodes@, root as int).contains(j)
                    && (#[trigger] vt[j]).1 == tc[j] by {
            }
            let tf = Self::table_freqs(vt, data@);
            assert(tf =~= freqs@);
            assert(huffman_codes(tf) == tc);
            assert forall|i: int, j: int| 0 <= i < vt.len() && 0 <= j < vt.len()
                && i != j implies !is_prefix((#[trigger] vt[i]).1, (#[trigger] vt[j]).1) by {
                assert(vt[i].1 == tc[i] && vt[j].1 == tc[j]);
            }
            assert forall|x: u8| table_has(vt, x) implies data@.contains(x) by {
                let j = choose|j: int| 0 <= j < vt.len() && vt[j].0 == x;
                assert(counts@[j].0 == x);
                assert(exists|jj: int| 0 <= jj < counts@.len() && counts@[jj].0 == x);
            }
            assert forall|x: u8| data@.contains(x) implies table_has(vt, x) by {
                let j = choose|j: int| 0 <= j < counts@.len() && counts@[j].0 == x;
                assert(vt[j].0 == x);
            }
        }
        r
    }

    /// Concatenates each symbol's Huffman code in sequence order.
    fn encode(&self, symbols: &[u8]) -> (r: Option<BitVec>) {
        encode_with(&self.table, symbols)
    }

    /// Walks the buffer against the code table for `len` symbols.
    fn decode(&self, buffer: &BitVec, len: usize) -> (r: Option<Vec<u8>>) {
        decode_with(&self.table, buffer, len)
    }
}

} // verus!
