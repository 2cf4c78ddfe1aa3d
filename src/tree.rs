//! Building the Huffman tree from weighted nodes.

use vstd::multiset::Multiset;
use vstd::prelude::*;

use crate::node::{empty_node, Node};

verus! {

/// Sum of the weights of a sequence of nodes.
pub open spec fn total_weight(s: Seq<Node>) -> nat
    decreases s.len(),
{
    if s.len() == 0 {
        0
    } else {
        (s[0].occurrence + total_weight(s.drop_first())) as nat
    }
}

/// All symbols held by the trees of a sequence, with multiplicity.
pub open spec fn all_symbols(s: Seq<Node>) -> Multiset<Seq<char>>
    decreases s.len(),
{
    if s.len() == 0 {
        Multiset::empty()
    } else {
        s[0].symbols().add(all_symbols(s.drop_first()))
    }
}

/// Weights never decrease along the sequence.
pub open spec fn sorted_by_weight(s: Seq<Node>) -> bool {
    forall|i: int, j: int| 0 <= i <= j < s.len() ==> s[i].occurrence <= s[j].occurrence
}

/// Number of leading nodes whose weight is at most `w`.
pub open spec fn lighter_prefix(s: Seq<Node>, w: u64) -> nat
    decreases s.len(),
{
    if s.len() == 0 || s[0].occurrence > w {
        0
    } else {
        1 + lighter_prefix(s.drop_first(), w)
    }
}

/// Places `n` after every leading node of weight at most its own: on a sorted
/// sequence this is where a stable sort by weight puts a node appended last.
pub open spec fn insert_by_weight(s: Seq<Node>, n: Node) -> Seq<Node> {
    let k = if lighter_prefix(s, n.occurrence) <= s.len() {
        lighter_prefix(s, n.occurrence) as int
    } else {
        s.len() as int
    };
    s.subrange(0, k) + seq![n] + s.subrange(k, s.len() as int)
}

/// The internal node over `l` and `r`.
pub open spec fn merged(l: Node, r: Node) -> Node {
    Node {
        left: Some(Box::new(l)),
        right: Some(Box::new(r)),
        data: None,
        occurrence: (l.occurrence + r.occurrence) as u64,
    }
}

/// The Huffman tree of a weight-sorted sequence: merge the two first nodes,
/// put the merged node back in weight order, until one node is left.
pub open spec fn huffman(s: Seq<Node>) -> Node
    decreases s.len(),
{
    if s.len() == 0 {
        empty_node()
    } else if s.len() == 1 {
        s[0]
    } else {
        huffman(insert_by_weight(s.subrange(2, s.len() as int), merged(s[0], s[1])))
    }
}

proof fn lemma_lighter_prefix_bound(s: Seq<Node>, w: u64)
    ensures
        lighter_prefix(s, w) <= s.len(),
    decreases s.len(),
{
    if s.len() > 0 && s[0].occurrence <= w {
        lemma_lighter_prefix_bound(s.drop_first(), w);
    }
}

proof fn lemma_lighter_prefix_at(s: Seq<Node>, w: u64, i: int)
    requires
        0 <= i <= s.len(),
        forall|t: int| 0 <= t < i ==> s[t].occurrence <= w,
        i == s.len() || s[i].occurrence > w,
    ensures
        lighter_prefix(s, w) == i,
    decreases i,
{
    if i > 0 {
        lemma_lighter_prefix_at(s.drop_first(), w, i - 1);
    }
}

proof fn lemma_concat(a: Seq<Node>, b: Seq<Node>)
    ensures
        total_weight(a + b) == total_weight(a) + total_weight(b),
        all_symbols(a + b) == all_symbols(a).add(all_symbols(b)),
    decreases a.len(),
{
    if a.len() == 0 {
        assert(a + b =~= b);
        assert(all_symbols(a).add(all_symbols(b)) =~= all_symbols(b));
    } else {
        assert((a + b).drop_first() =~= a.drop_first() + b);
        lemma_concat(a.drop_first(), b);
        assert(all_symbols(a + b) =~= all_symbols(a).add(all_symbols(b)));
    }
}

proof fn lemma_single(n: Node)
    ensures
        total_weight(seq![n]) == n.occurrence,
        all_symbols(seq![n]) == n.symbols(),
{
    let e = seq![n].drop_first();
    assert(e =~= Seq::<Node>::empty());
    assert(total_weight(e) == 0);
    assert(all_symbols(e) == Multiset::<Seq<char>>::empty());
    assert(all_symbols(seq![n]) =~= n.symbols());
}

proof fn lemma_split(s: Seq<Node>, k: int)
    requires
        0 <= k <= s.len(),
    ensures
        total_weight(s) == total_weight(s.subrange(0, k)) + total_weight(s.subrange(k, s.len() as int)),
        all_symbols(s) == all_symbols(s.subrange(0, k)).add(all_symbols(s.subrange(k, s.len() as int))),
{
    assert(s =~= s.subrange(0, k) + s.subrange(k, s.len() as int));
    lemma_concat(s.subrange(0, k), s.subrange(k, s.len() as int));
}

proof fn lemma_insert(s: Seq<Node>, n: Node)
    ensures
        total_weight(insert_by_weight(s, n)) == total_weight(s) + n.occurrence,
        all_symbols(insert_by_weight(s, n)) == all_symbols(s).add(n.symbols()),
        insert_by_weight(s, n).len() == s.len() + 1,
        forall|x: Node| #[trigger] insert_by_weight(s, n).contains(x) ==> x == n || s.contains(x),
        sorted_by_weight(s) ==> sorted_by_weight(insert_by_weight(s, n)),
{
    lemma_lighter_prefix_bound(s, n.occurrence);
    let k = lighter_prefix(s, n.occurrence) as int;
    let a = s.subrange(0, k);
    let b = s.subrange(k, s.len() as int);
    lemma_split(s, k);
    lemma_concat(a, seq![n]);
    lemma_concat(a + seq![n], b);
    lemma_single(n);
    assert(all_symbols(insert_by_weight(s, n)) =~= all_symbols(s).add(n.symbols()));
    let r = insert_by_weight(s, n);
    assert forall|x: Node| #[trigger] r.contains(x) implies x == n || s.contains(x) by {
        let j = choose|j: int| 0 <= j < r.len() && r[j] == x;
        if j < k {
            assert(s[j] == x);
        } else if j > k {
            assert(s[j - 1] == x);
        }
    }
    if sorted_by_weight(s) {
        lemma_prefix_weights(s, n.occurrence);
        assert forall|i: int, j: int| 0 <= i <= j < r.len() implies r[i].occurrence <= r[j].occurrence by {
            if i < k && j == k {
                assert(a[i].occurrence <= n.occurrence);
            } else if i == k && j > k {
                if k < s.len() {
                    assert(s[k].occurrence > n.occurrence);
                    assert(s[k].occurrence <= s[j - 1].occurrence);
                }
            }
        }
    }
}

/// The leading nodes counted by `lighter_prefix` weigh at most `w`, the next one more.
proof fn lemma_prefix_weights(s: Seq<Node>, w: u64)
    ensures
        forall|t: int| 0 <= t < lighter_prefix(s, w) ==> s[t].occurrence <= w,
        lighter_prefix(s, w) < s.len() ==> s[lighter_prefix(s, w) as int].occurrence > w,
    decreases s.len(),
{
    lemma_lighter_prefix_bound(s, w);
    if s.len() > 0 && s[0].occurrence <= w {
        lemma_prefix_weights(s.drop_first(), w);
        assert forall|t: int| 0 <= t < lighter_prefix(s, w) implies s[t].occurrence <= w by {
            if t > 0 {
                assert(s[t] == s.drop_first()[t - 1]);
            }
        }
    }
}

/// What the builder keeps: the root weighs as much as all the nodes it was
/// given, holds all their symbols, and is well formed when they all are.
pub proof fn lemma_huffman(s: Seq<Node>)
    requires
        total_weight(s) <= u64::MAX,
    ensures
        huffman(s).occurrence == total_weight(s),
        huffman(s).symbols() == all_symbols(s),
        s.len() > 0 && (forall|i: int| 0 <= i < s.len() ==> #[trigger] s[i].wf()) ==> huffman(s).wf(),
    decreases s.len(),
{
    if s.len() == 0 {
        assert(empty_node().symbols() =~= Multiset::empty());
    } else if s.len() == 1 {
        lemma_single(s[0]);
        assert(s =~= seq![s[0]]);
    } else {
        let m = merged(s[0], s[1]);
        let rest = s.subrange(2, s.len() as int);
        lemma_split(s, 2);
        let head = s.subrange(0, 2);
        assert(head.drop_first() =~= seq![s[1]]);
        lemma_single(s[1]);
        assert(total_weight(head) == s[0].occurrence + s[1].occurrence);
        assert(all_symbols(head) == s[0].symbols().add(s[1].symbols()));
        lemma_insert(rest, m);
        assert(m.symbols() =~= s[0].symbols().add(s[1].symbols()));
        let t = insert_by_weight(rest, m);
        lemma_huffman(t);
        assert(all_symbols(t) =~= all_symbols(s));
        if forall|i: int| 0 <= i < s.len() ==> #[trigger] s[i].wf() {
            assert(s[0].wf() && s[1].wf());
            assert(m.wf());
            assert forall|i: int| 0 <= i < t.len() implies #[trigger] t[i].wf() by {
                assert(t.contains(t[i]));
                if t[i] != m {
                    let j = choose|j: int| 0 <= j < rest.len() && rest[j] == t[i];
                    assert(s[j + 2] == t[i]);
                }
            }
        }
    }
}

/// Builds the Huffman tree of a weight-sorted list of nodes: the two lightest
/// nodes are merged, the merged node goes back after every node of equal or
/// smaller weight, until one node is left. No node at all gives the empty node.
pub fn make_huffman_tree(nodes: Vec<Node>) -> (r: Node)
    requires
        sorted_by_weight(nodes@),
        total_weight(nodes@) <= u64::MAX,
    ensures
        r == huffman(nodes@),
        r.occurrence == total_weight(nodes@),
        r.symbols() == all_symbols(nodes@),
        nodes@.len() == 0 ==> r == empty_node(),
        nodes@.len() > 0 && (forall|i: int| 0 <= i < nodes@.len() ==> #[trigger] nodes@[i].wf())
            ==> r.wf(),
{
    proof {
        lemma_huffman(nodes@);
    }
    let ghost start = nodes@;
    let mut nodes = nodes;
    while nodes.len() > 1
        invariant
            huffman(nodes@) == huffman(start),
            sorted_by_weight(nodes@),
            total_weight(nodes@) == total_weight(start),
            total_weight(start) <= u64::MAX,
        decreases nodes.len(),
    {
        let ghost before = nodes@;
        let left = nodes.remove(0);
        let right = nodes.remove(0);
        assert(nodes@ =~= before.subrange(2, before.len() as int));
        proof {
            lemma_split(before, 2);
            let head = before.subrange(0, 2);
            assert(head.drop_first() =~= seq![before[1]]);
            lemma_single(before[1]);
        }
        let merged_node = Node::add(left, right);
        let w = merged_node.occurrence;
        let mut i: usize = 0;
        while i < nodes.len() && nodes[i].occurrence <= w
            invariant
                i <= nodes.len(),
                forall|t: int| 0 <= t < i ==> nodes@[t].occurrence <= w,
            decreases nodes.len() - i,
        {
            i = i + 1;
        }
        proof {
            lemma_lighter_prefix_at(nodes@, w, i as int);
            lemma_insert(nodes@, merged_node);
        }
        let ghost rest = nodes@;
        nodes.insert(i, merged_node);
        assert(nodes@ =~= insert_by_weight(rest, merged(before[0], before[1])));
    }
    if nodes.len() == 0 {
        Node::default()
    } else {
        nodes.pop().unwrap()
    }
}

} // verus!
