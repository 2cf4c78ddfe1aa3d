//! Counting the characters of a text into weighted leaves.

use vstd::multiset::Multiset;
use vstd::prelude::*;

use crate::node::Node;
use crate::tree::{all_symbols, total_weight};

verus! {

/// Number of times `c` occurs in `s`.
pub open spec fn occurrences(s: Seq<char>, c: char) -> nat
    decreases s.len(),
{
    if s.len() == 0 {
        0
    } else {
        occurrences(s.drop_last(), c) + if s.last() == c {
            1nat
        } else {
            0nat
        }
    }
}

/// A leaf that holds one character.
pub open spec fn is_symbol_leaf(n: Node) -> bool {
    n.has_no_children() && n.data is Some && n.data->0@.len() == 1
}

/// The character held by a symbol leaf.
pub open spec fn symbol_of(n: Node) -> char {
    n.data->0@[0]
}

/// The order in which leaves come out of the counter: by weight, then by code point.
pub open spec fn frequency_order(a: Node, b: Node) -> bool {
    a.occurrence < b.occurrence || (a.occurrence == b.occurrence && (symbol_of(a) as int)
        < (symbol_of(b) as int))
}

/// The same order on (character, count) pairs.
pub open spec fn pair_order(a: (char, u64), b: (char, u64)) -> bool {
    a.1 < b.1 || (a.1 == b.1 && (a.0 as int) < (b.0 as int))
}

/// Sum of the counts of a list of (character, count) pairs.
pub open spec fn count_total(s: Seq<(char, u64)>) -> nat
    decreases s.len(),
{
    if s.len() == 0 {
        0
    } else {
        (s[0].1 + count_total(s.drop_first())) as nat
    }
}

/// Relies on `char::to_string` (std's `ToString` through `Display`): the
/// string made of that one character.
#[verifier::external_body]
pub(crate) fn char_text(c: char) -> (r: String)
    ensures
        r@ == seq![c],
{
    c.to_string()
}

proof fn lemma_occurrences_push(s: Seq<char>, c: char, x: char)
    ensures
        occurrences(s.push(c), x) == occurrences(s, x) + if x == c {
            1nat
        } else {
            0nat
        },
{
    assert(s.push(c).drop_last() =~= s);
}

proof fn lemma_count_concat(a: Seq<(char, u64)>, b: Seq<(char, u64)>)
    ensures
        count_total(a + b) == count_total(a) + count_total(b),
    decreases a.len(),
{
    if a.len() == 0 {
        assert(a + b =~= b);
    } else {
        assert((a + b).drop_first() =~= a.drop_first() + b);
        lemma_count_concat(a.drop_first(), b);
    }
}

proof fn lemma_count_single(x: (char, u64))
    ensures
        count_total(seq![x]) == x.1,
{
    let e = seq![x].drop_first();
    assert(e =~= Seq::<(char, u64)>::empty());
    assert(count_total(e) == 0);
}

proof fn lemma_count_insert(s: Seq<(char, u64)>, i: int, x: (char, u64))
    requires
        0 <= i <= s.len(),
    ensures
        count_total(s.insert(i, x)) == count_total(s) + x.1,
{
    let a = s.subrange(0, i);
    let b = s.subrange(i, s.len() as int);
    assert(s =~= a + b);
    assert(s.insert(i, x) =~= a + seq![x] + b);
    lemma_count_concat(a, b);
    lemma_count_concat(a, seq![x]);
    lemma_count_concat(a + seq![x], b);
    lemma_count_single(x);
}

proof fn lemma_count_update(s: Seq<(char, u64)>, i: int, x: (char, u64))
    requires
        0 <= i < s.len(),
    ensures
        count_total(s.update(i, x)) + s[i].1 == count_total(s) + x.1,
{
    let a = s.subrange(0, i);
    let b = s.subrange(i + 1, s.len() as int);
    assert(s =~= a + seq![s[i]] + b);
    assert(s.update(i, x) =~= a + seq![x] + b);
    lemma_count_concat(a, seq![s[i]]);
    lemma_count_concat(a + seq![s[i]], b);
    lemma_count_concat(a, seq![x]);
    lemma_count_concat(a + seq![x], b);
    lemma_count_single(x);
    lemma_count_single(s[i]);
}

proof fn lemma_leaf_weights(r: Seq<Node>, s: Seq<(char, u64)>)
    requires
        r.len() == s.len(),
        forall|i: int| 0 <= i < r.len() ==> #[trigger] r[i].occurrence == s[i].1,
    ensures
        total_weight(r) == count_total(s),
    decreases r.len(),
{
    if r.len() > 0 {
        lemma_leaf_weights(r.drop_first(), s.drop_first());
    }
}

/// Leaves of distinct characters hold each of them once.
proof fn lemma_leaf_symbols(r: Seq<Node>)
    requires
        forall|i: int| 0 <= i < r.len() ==> is_symbol_leaf(#[trigger] r[i]),
        forall|i: int, j: int| 0 <= i < j < r.len() ==> symbol_of(r[i]) != symbol_of(r[j]),
    ensures
        forall|x: Seq<char>| #[trigger]
            all_symbols(r).count(x) == if exists|i: int| 0 <= i < r.len() && r[i].data->0@ == x {
                1nat
            } else {
                0nat
            },
    decreases r.len(),
{
    if r.len() > 0 {
        let rest = r.drop_first();
        assert forall|i: int, j: int| 0 <= i < j < rest.len() implies symbol_of(rest[i])
            != symbol_of(rest[j]) by {
            assert(symbol_of(r[i + 1]) != symbol_of(r[j + 1]));
        }
        lemma_leaf_symbols(rest);
        let d = r[0].data->0@;
        assert(r[0].symbols() =~= Multiset::singleton(d));
        assert(all_symbols(r) == r[0].symbols().add(all_symbols(rest)));
        assert forall|x: Seq<char>| #[trigger]
            all_symbols(r).count(x) == if exists|i: int| 0 <= i < r.len() && r[i].data->0@ == x {
                1nat
            } else {
                0nat
            } by {
            assert(all_symbols(r).count(x) == Multiset::singleton(d).count(x) + all_symbols(rest).count(x));
            if x == d {
                assert(r[0].data->0@ == x);
                assert forall|i: int| 0 <= i < rest.len() implies rest[i].data->0@ != x by {
                    assert(symbol_of(r[0]) != symbol_of(r[i + 1]));
                    if rest[i].data->0@ == x {
                        assert(symbol_of(r[0]) == symbol_of(r[i + 1]));
                    }
                }
            } else {
                if exists|i: int| 0 <= i < r.len() && r[i].data->0@ == x {
                    let i = choose|i: int| 0 <= i < r.len() && r[i].data->0@ == x;
                    assert(rest[i - 1].data->0@ == x);
                }
                if exists|i: int| 0 <= i < rest.len() && rest[i].data->0@ == x {
                    let i = choose|i: int| 0 <= i < rest.len() && rest[i].data->0@ == x;
                    assert(r[i + 1].data->0@ == x);
                }
            }
        }
    }
}

/// Counts each distinct character of `msg`, in order of first occurrence.
fn count_symbols(msg: &str) -> (counts: Vec<(char, u64)>)
    ensures
        forall|k: int|
            0 <= k < counts@.len() ==> {
                &&& #[trigger] counts@[k].1 == occurrences(msg@, counts@[k].0)
                &&& counts@[k].1 > 0
            },
        forall|k1: int, k2: int| 0 <= k1 < k2 < counts@.len() ==> counts@[k1].0 != counts@[k2].0,
        forall|x: char|
            #![trigger occurrences(msg@, x)]
            occurrences(msg@, x) > 0 ==> exists|k: int| 0 <= k < counts@.len() && counts@[k].0 == x,
        count_total(counts@) == msg@.len(),
        msg@.len() <= usize::MAX,
{
    let length = msg.unicode_len();
    let mut counts: Vec<(char, u64)> = Vec::new();
    for c in it: msg.chars()
        invariant
            it.seq() == msg@,
            msg@.len() == length,
            forall|k: int|
                0 <= k < counts@.len() ==> {
                    &&& #[trigger] counts@[k].1 == occurrences(
                        msg@.subrange(0, it.index() as int),
                        counts@[k].0,
                    )
                    &&& counts@[k].1 > 0
                    &&& counts@[k].1 <= it.index()
                },
            forall|k1: int, k2: int|
                0 <= k1 < k2 < counts@.len() ==> counts@[k1].0 != counts@[k2].0,
            forall|x: char|
                #![trigger occurrences(msg@.subrange(0, it.index() as int), x)]
                occurrences(msg@.subrange(0, it.index() as int), x) > 0 ==> exists|k: int|
                    0 <= k < counts@.len() && counts@[k].0 == x,
            count_total(counts@) == it.index(),
    {
        let ghost i = it.index();
        let ghost p = msg@.subrange(0, i as int);
        assert(msg@.subrange(0, i + 1) =~= p.push(c));
        proof {
            assert forall|x: char| true implies occurrences(p.push(c), x) == occurrences(p, x)
                + if x == c {
                1nat
            } else {
                0nat
            } by {
                lemma_occurrences_push(p, c, x);
            }
        }
        let mut j: usize = 0;
        while j < counts.len() && counts[j].0 != c
            invariant
                j <= counts@.len(),
                forall|k: int| 0 <= k < j ==> counts@[k].0 != c,
            decreases counts@.len() - j,
        {
            j = j + 1;
        }
        let ghost before = counts@;
        if j < counts.len() {
            let n = counts[j].1;
            counts.set(j, (c, n + 1));
            proof {
                lemma_count_update(before, j as int, (c, (n + 1) as u64));
            }
        } else {
            counts.push((c, 1));
            proof {
                assert(before.push((c, 1u64)) =~= before.insert(before.len() as int, (c, 1u64)));
                lemma_count_insert(before, before.len() as int, (c, 1u64));
            }
        }
        assert forall|x: char|
            #![trigger occurrences(msg@.subrange(0, i + 1), x)]
            occurrences(msg@.subrange(0, i + 1), x) > 0 implies exists|k: int|
                0 <= k < counts@.len() && counts@[k].0 == x by {
            if x != c {
                assert(occurrences(p, x) > 0);
                let k = choose|k: int| 0 <= k < before.len() && before[k].0 == x;
                assert(counts@[k].0 == x);
            } else {
                assert(counts@[j as int].0 == x);
            }
        }
    }
    assert(msg@.subrange(0, msg@.len() as int) =~= msg@);
    counts
}

/// Inserting a pair at its place keeps a strictly ordered list strictly ordered.
proof fn lemma_insert_in_order(s: Seq<(char, u64)>, i: int, x: (char, u64))
    requires
        0 <= i <= s.len(),
        forall|a: int, b: int| 0 <= a < b < s.len() ==> pair_order(s[a], s[b]),
        forall|a: int| 0 <= a < i ==> pair_order(s[a], x),
        i < s.len() ==> pair_order(x, s[i]),
    ensures
        forall|a: int, b: int|
            0 <= a < b < s.len() + 1 ==> pair_order(s.insert(i, x)[a], s.insert(i, x)[b]),
{
    let r = s.insert(i, x);
    assert forall|a: int, b: int| 0 <= a < b < r.len() implies pair_order(r[a], r[b]) by {
        if a < i && b > i {
            assert(pair_order(s[a], s[b - 1]));
        } else if a == i && b > i + 1 {
            assert(pair_order(s[i], s[b - 1]));
        } else if a > i {
            assert(pair_order(s[a - 1], s[b - 1]));
        }
    }
}

/// Sorts (character, count) pairs of distinct characters by count, then by code point.
fn sort_counts(counts: &Vec<(char, u64)>) -> (sorted: Vec<(char, u64)>)
    requires
        forall|k1: int, k2: int| 0 <= k1 < k2 < counts@.len() ==> counts@[k1].0 != counts@[k2].0,
    ensures
        forall|a: int, b: int| 0 <= a < b < sorted@.len() ==> pair_order(sorted@[a], sorted@[b]),
        forall|a: int| 0 <= a < sorted@.len() ==> counts@.contains(#[trigger] sorted@[a]),
        forall|k: int| 0 <= k < counts@.len() ==> sorted@.contains(#[trigger] counts@[k]),
        count_total(sorted@) == count_total(counts@),
{
    let ghost all = counts@;
    let mut sorted: Vec<(char, u64)> = Vec::new();
    let mut j: usize = 0;
    while j < counts.len()
        invariant
            counts@ == all,
            j <= all.len(),
            forall|a: int, b: int| 0 <= a < b < sorted@.len() ==> pair_order(sorted@[a], sorted@[b]),
            forall|a: int| 0 <= a < sorted@.len() ==> all.subrange(0, j as int).contains(#[trigger] sorted@[a]),
            forall|k: int| 0 <= k < j ==> sorted@.contains(#[trigger] all[k]),
            forall|k1: int, k2: int| 0 <= k1 < k2 < all.len() ==> all[k1].0 != all[k2].0,
            count_total(sorted@) == count_total(all.subrange(0, j as int)),
        decreases all.len() - j,
    {
        let x = counts[j];
        let mut i: usize = 0;
        while i < sorted.len() && pair_less(sorted[i], x)
            invariant
                i <= sorted@.len(),
                forall|a: int| 0 <= a < i ==> pair_order(sorted@[a], x),
            decreases sorted@.len() - i,
        {
            i = i + 1;
        }
        let ghost before = sorted@;
        let ghost done = all.subrange(0, j as int);
        proof {
            if i < before.len() {
                assert(done.contains(before[i as int]));
                let k = choose|k: int| 0 <= k < done.len() && done[k] == before[i as int];
                assert(done[k] == all[k]);
                assert(all[k].0 != all[j as int].0);
                assert(!pair_order(before[i as int], x));
                assert((before[i as int].0 as int) != (x.0 as int));
                assert(pair_order(x, before[i as int]));
            }
            lemma_insert_in_order(before, i as int, x);
            lemma_count_insert(before, i as int, x);
            assert(all.subrange(0, j + 1) =~= done + seq![x]);
            lemma_count_concat(done, seq![x]);
            lemma_count_single(x);
        }
        sorted.insert(i, x);
        proof {
            let next = all.subrange(0, j + 1);
            assert forall|a: int| 0 <= a < sorted@.len() implies next.contains(#[trigger] sorted@[a]) by {
                if a == i {
                    assert(next[j as int] == x);
                } else {
                    let e = if a < i { before[a] } else { before[a - 1] };
                    assert(sorted@[a] == e);
                    assert(done.contains(e));
                    let k = choose|k: int| 0 <= k < done.len() && done[k] == e;
                    assert(next[k] == e);
                }
            }
            assert forall|k: int| 0 <= k < j + 1 implies sorted@.contains(#[trigger] all[k]) by {
                if k == j {
                    assert(sorted@[i as int] == x);
                } else {
                    assert(before.contains(all[k]));
                    let a = choose|a: int| 0 <= a < before.len() && before[a] == all[k];
                    if a < i {
                        assert(sorted@[a] == all[k]);
                    } else {
                        assert(sorted@[a + 1] == all[k]);
                    }
                }
            }
        }
        j = j + 1;
    }
    assert(all.subrange(0, all.len() as int) =~= all);
    sorted
}

/// What the leaves made from the sorted counts of a text hold.
proof fn lemma_leaves(
    msg: Seq<char>,
    all: Seq<(char, u64)>,
    sorted: Seq<(char, u64)>,
    nodes: Seq<Node>,
)
    requires
        forall|k: int|
            0 <= k < all.len() ==> {
                &&& #[trigger] all[k].1 == occurrences(msg, all[k].0)
                &&& all[k].1 > 0
            },
        forall|k1: int, k2: int| 0 <= k1 < k2 < all.len() ==> all[k1].0 != all[k2].0,
        forall|x: char|
            #![trigger occurrences(msg, x)]
            occurrences(msg, x) > 0 ==> exists|k: int| 0 <= k < all.len() && all[k].0 == x,
        count_total(all) == msg.len(),
        forall|a: int, b: int| 0 <= a < b < sorted.len() ==> pair_order(sorted[a], sorted[b]),
        forall|a: int| 0 <= a < sorted.len() ==> all.contains(#[trigger] sorted[a]),
        forall|k: int| 0 <= k < all.len() ==> sorted.contains(#[trigger] all[k]),
        count_total(sorted) == count_total(all),
        nodes.len() == sorted.len(),
        forall|a: int|
            0 <= a < nodes.len() ==> {
                &&& is_symbol_leaf(#[trigger] nodes[a])
                &&& symbol_of(nodes[a]) == sorted[a].0
                &&& nodes[a].occurrence == sorted[a].1
            },
    ensures
        forall|i: int|
            0 <= i < nodes.len() ==> {
                &&& is_symbol_leaf(#[trigger] nodes[i])
                &&& nodes[i].occurrence == occurrences(msg, symbol_of(nodes[i]))
                &&& nodes[i].occurrence > 0
            },
        forall|i: int, j: int| 0 <= i < j < nodes.len() ==> frequency_order(nodes[i], nodes[j]),
        forall|c: char|
            #![trigger occurrences(msg, c)]
            occurrences(msg, c) > 0 ==> exists|i: int| 0 <= i < nodes.len() && symbol_of(nodes[i]) == c,
        forall|c: char|
            #[trigger] all_symbols(nodes).count(seq![c]) == if occurrences(msg, c) > 0 {
                1nat
            } else {
                0nat
            },
        forall|x: Seq<char>| #[trigger] all_symbols(nodes).count(x) > 0 ==> x.len() == 1,
        total_weight(nodes) == msg.len(),
{
        lemma_leaf_weights(nodes, sorted);
        assert forall|a: int| 0 <= a < nodes.len() implies {
            &&& is_symbol_leaf(#[trigger] nodes[a])
            &&& nodes[a].occurrence == occurrences(msg, symbol_of(nodes[a]))
            &&& nodes[a].occurrence > 0
        } by {
            assert(all.contains(sorted[a]));
        }
        assert forall|a: int, b: int| 0 <= a < b < nodes.len() implies frequency_order(
            nodes[a],
            nodes[b],
        ) by {
            assert(pair_order(sorted[a], sorted[b]));
        }
        assert forall|c: char| #![trigger occurrences(msg, c)] occurrences(msg, c) > 0 implies exists|a: int|
            0 <= a < nodes.len() && symbol_of(nodes[a]) == c by {
            let k = choose|k: int| 0 <= k < all.len() && all[k].0 == c;
            assert(sorted.contains(all[k]));
            let a = choose|a: int| 0 <= a < sorted.len() && sorted[a] == all[k];
            assert(symbol_of(nodes[a]) == c);
        }
        assert forall|a: int, b: int| 0 <= a < b < nodes.len() implies symbol_of(nodes[a]) != symbol_of(nodes[b]) by {
            assert(pair_order(sorted[a], sorted[b]));
            assert(all.contains(sorted[a]));
            assert(all.contains(sorted[b]));
        }
        lemma_leaf_symbols(nodes);
        assert forall|c: char| #[trigger] all_symbols(nodes).count(seq![c]) == if occurrences(msg, c) > 0 {
            1nat
        } else {
            0nat
        } by {
            if occurrences(msg, c) > 0 {
                let a = choose|a: int| 0 <= a < nodes.len() && symbol_of(nodes[a]) == c;
                assert(nodes[a].data->0@ =~= seq![c]);
            } else {
                if exists|a: int| 0 <= a < nodes.len() && nodes[a].data->0@ == seq![c] {
                    let a = choose|a: int| 0 <= a < nodes.len() && nodes[a].data->0@ == seq![c];
                    assert(symbol_of(nodes[a]) == c);
                }
            }
        }
        assert forall|x: Seq<char>| #[trigger] all_symbols(nodes).count(x) > 0 implies x.len() == 1 by {
            let a = choose|a: int| 0 <= a < nodes.len() && nodes[a].data->0@ == x;
            assert(is_symbol_leaf(nodes[a]));
        }
}

/// Counts the characters of `msg` and returns one leaf per distinct
/// character, weighted by its number of occurrences, in increasing order of
/// weight and, among equal weights, of code point.
pub fn find_most_occurrences(msg: &str) -> (r: Vec<Node>)
    ensures
        forall|i: int|
            0 <= i < r@.len() ==> {
                &&& is_symbol_leaf(#[trigger] r@[i])
                &&& r@[i].occurrence == occurrences(msg@, symbol_of(r@[i]))
                &&& r@[i].occurrence > 0
            },
        forall|i: int, j: int| 0 <= i < j < r@.len() ==> frequency_order(r@[i], r@[j]),
        forall|c: char|
            #![trigger occurrences(msg@, c)]
            occurrences(msg@, c) > 0 ==> exists|i: int|
                0 <= i < r@.len() && symbol_of(r@[i]) == c,
        forall|c: char|
            #[trigger] all_symbols(r@).count(seq![c]) == if occurrences(msg@, c) > 0 {
                1nat
            } else {
                0nat
            },
        forall|x: Seq<char>| #[trigger] all_symbols(r@).count(x) > 0 ==> x.len() == 1,
        total_weight(r@) == msg@.len(),
        msg@.len() <= usize::MAX,
{
    let counts = count_symbols(msg);
    let ghost all = counts@;
    let sorted = sort_counts(&counts);
    let mut nodes: Vec<Node> = Vec::new();
    let mut t: usize = 0;
    while t < sorted.len()
        invariant
            t <= sorted@.len(),
            nodes@.len() == t,
            forall|a: int|
                0 <= a < t ==> {
                    &&& is_symbol_leaf(#[trigger] nodes@[a])
                    &&& symbol_of(nodes@[a]) == sorted@[a].0
                    &&& nodes@[a].occurrence == sorted@[a].1
                },
        decreases sorted@.len() - t,
    {
        let (c, n) = sorted[t];
        let leaf = Node { left: None, right: None, data: Some(char_text(c)), occurrence: n };
        nodes.push(leaf);
        t = t + 1;
    }
    proof {
        lemma_leaves(msg@, all, sorted@, nodes@);
    }
    nodes
}

/// Tells whether `a` comes before `b` in increasing order of count, then of code point.
fn pair_less(a: (char, u64), b: (char, u64)) -> (r: bool)
    ensures
        r == pair_order(a, b),
{
    a.1 < b.1 || (a.1 == b.1 && a.0 < b.0)
}

} // verus!
