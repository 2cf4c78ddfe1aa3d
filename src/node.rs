//! The tree node, its model (shape, codes, symbols) and code lookup.

use vstd::multiset::Multiset;
use vstd::prelude::*;

verus! {

/// A node of a Huffman tree.
///
/// A leaf carries a symbol in `data` and no children; an internal node
/// carries two children, no symbol, and the sum of their weights.
#[derive(Debug)]
pub struct Node {
    pub left: Option<Box<Node>>,
    pub right: Option<Box<Node>>,
    pub data: Option<String>,
    pub occurrence: u64,
}

/// The node with no symbol, no children and weight zero: the tree of an empty text.
pub open spec fn empty_node() -> Node {
    Node { left: None, right: None, data: None, occurrence: 0 }
}

impl Default for Node {
    fn default() -> (r: Node)
        ensures
            r == empty_node(),
    {
        Node { left: None, right: None, data: None, occurrence: 0 }
    }
}

/// Prepends one direction bit to a code, if there is one.
pub open spec fn prefix_code(bit: u8, code: Option<Seq<u8>>) -> Option<Seq<u8>> {
    match code {
        Some(c) => Some(seq![bit] + c),
        None => None,
    }
}

/// Tells whether two strings hold the same characters.
fn same_text(a: &str, b: &str) -> (r: bool)
    ensures
        r == (a@ == b@),
{
    let n = a.unicode_len();
    if n != b.unicode_len() {
        return false;
    }
    let mut i: usize = 0;
    while i < n
        invariant
            n == a@.len(),
            n == b@.len(),
            i <= n,
            a@.subrange(0, i as int) == b@.subrange(0, i as int),
        decreases n - i,
    {
        if a.get_char(i) != b.get_char(i) {
            return false;
        }
        assert(a@.subrange(0, i + 1) =~= a@.subrange(0, i as int).push(a@[i as int]));
        assert(b@.subrange(0, i + 1) =~= b@.subrange(0, i as int).push(b@[i as int]));
        i = i + 1;
    }
    assert(a@ =~= a@.subrange(0, n as int));
    assert(b@ =~= b@.subrange(0, n as int));
    true
}

impl Node {
    pub open spec fn has_no_children(self) -> bool {
        self.left is None && self.right is None
    }

    /// A well-formed tree: every node is either a leaf with a symbol, or an
    /// internal node with two well-formed children, no symbol, and a weight
    /// equal to the sum of its children's weights.
    pub open spec fn wf(self) -> bool
        decreases self,
    {
        match (self.left, self.right) {
            (None, None) => self.data is Some,
            (Some(l), Some(r)) => {
                &&& self.data is None
                &&& l.wf()
                &&& r.wf()
                &&& self.occurrence == l.occurrence + r.occurrence
            },
            _ => false,
        }
    }

    /// The code of `sym`: the path of the first leaf holding `sym` in a
    /// depth-first walk that visits left (bit 0) before right (bit 1).
    pub open spec fn code_of(self, sym: Seq<char>) -> Option<Seq<u8>>
        decreases self,
    {
        if self.data is Some && self.data->0@ == sym {
            Some(Seq::empty())
        } else {
            let from_left = match self.left {
                Some(l) => prefix_code(0, l.code_of(sym)),
                None => None,
            };
            if from_left is Some {
                from_left
            } else {
                match self.right {
                    Some(r) => prefix_code(1, r.code_of(sym)),
                    None => None,
                }
            }
        }
    }

    /// The symbols carried by the nodes of the tree, with multiplicity.
    pub open spec fn symbols(self) -> Multiset<Seq<char>>
        decreases self,
    {
        let own = match self.data {
            Some(d) => Multiset::singleton(d@),
            None => Multiset::empty(),
        };
        let l = match self.left {
            Some(l) => l.symbols(),
            None => Multiset::empty(),
        };
        let r = match self.right {
            Some(r) => r.symbols(),
            None => Multiset::empty(),
        };
        own.add(l).add(r)
    }

    /// Tells whether the tree is well formed (see `wf`).
    pub fn is_well_formed(&self) -> (r: bool)
        ensures
            r == self.wf(),
        decreases self,
    {
        match (&self.left, &self.right) {
            (None, None) => self.data.is_some(),
            (Some(l), Some(r)) => {
                self.data.is_none() && l.is_well_formed() && r.is_well_formed() && l.occurrence
                    <= self.occurrence && self.occurrence - l.occurrence == r.occurrence
            },
            _ => false,
        }
    }

    /// Merges two nodes under a new internal node whose weight is the sum of theirs.
    pub fn add(left: Node, right: Node) -> (r: Node)
        requires
            left.occurrence + right.occurrence <= u64::MAX,
        ensures
            r == (Node {
                left: Some(Box::new(left)),
                right: Some(Box::new(right)),
                data: None,
                occurrence: (left.occurrence + right.occurrence) as u64,
            }),
    {
        let occurrence = left.occurrence + right.occurrence;
        Node { left: Some(Box::new(left)), right: Some(Box::new(right)), data: None, occurrence }
    }

    /// Looks for the leaf holding `target` and returns `path` extended by its code.
    ///
    /// On success `path` is left holding the returned path; on failure it is
    /// restored to what it was.
    pub fn search(&self, target: &str, path: &mut Vec<u8>) -> (r: Option<Vec<u8>>)
        ensures
            match self.code_of(target@) {
                Some(code) => r is Some && r->0@ == old(path)@ + code && final(path)@ == r->0@,
                None => r is None && final(path)@ == old(path)@,
            },
        decreases self,
    {
        if let Some(data) = &self.data {
            if same_text(data.as_str(), target) {
                let found = path.clone();
                assert(found@ =~= old(path)@ + Seq::<u8>::empty());
                return Some(found);
            }
        }
        if let Some(left) = &self.left {
            path.push(0);
            let found = left.search(target, path);
            if let Some(left_path) = found {
                return Some(left_path);
            }
            path.pop();
        }
        if let Some(right) = &self.right {
            path.push(1);
            let found = right.search(target, path);
            if let Some(right_path) = found {
                return Some(right_path);
            }
            path.pop();
        }
        None
    }
}

} // verus!
