//! Compression and decompression of whole texts, and the round-trip law.

use vstd::multiset::Multiset;
use vstd::prelude::*;
use vstd::string::StringExecFns;

use crate::bits::{
    decode_binary, is_bit_text, lemma_unpack_pack, pack_bits, packed, text_bits, unpacked,
};
use crate::codec::{
    bits_text, decode_from, decode_text, encode_text, encoded_bits, is_bits, lemma_decode_encoded,
    lemma_encoded_some, CodecError,
};
use crate::frequency::{find_most_occurrences, is_symbol_leaf, occurrences};
use crate::node::{empty_node, Node};
use crate::tree::{make_huffman_tree, sorted_by_weight};

verus! {

/// `s` written `n` times.
pub open spec fn repeated(s: Seq<char>, n: nat) -> Seq<char>
    decreases n,
{
    if n == 0 {
        Seq::empty()
    } else {
        repeated(s, (n - 1) as nat) + s
    }
}

/// The text held by a compressed payload, given its tree.
///
/// A tree without children has no codes: its symbol stands for the whole
/// text, once per unit of weight. Otherwise the payload's bits are decoded,
/// and since the root weighs as many symbols as the text holds, what the
/// zero padding of the last byte decodes to past that count is dropped.
pub open spec fn decompressed(payload: Seq<u8>, tree: Node) -> Seq<char> {
    if tree.has_no_children() {
        match tree.data {
            Some(d) => repeated(d@, tree.occurrence as nat),
            None => Seq::empty(),
        }
    } else {
        let text = decode_from(tree, tree, unpacked(payload));
        if tree.occurrence <= text.len() {
            text.subrange(0, tree.occurrence as int)
        } else {
            text
        }
    }
}

/// Every symbol held by a tree has a code in it.
pub proof fn lemma_symbol_has_code(tree: Node, sym: Seq<char>)
    requires
        tree.symbols().count(sym) > 0,
    ensures
        tree.code_of(sym) is Some,
    decreases tree,
{
    if tree.data is Some && tree.data->0@ == sym {
    } else {
        if tree.data is Some {
            assert(Multiset::singleton(tree.data->0@).count(sym) == 0);
        }
        match (tree.left, tree.right) {
            (Some(l), Some(r)) => {
                if l.symbols().count(sym) > 0 {
                    lemma_symbol_has_code(*l, sym);
                } else {
                    lemma_symbol_has_code(*r, sym);
                }
            },
            (Some(l), None) => {
                lemma_symbol_has_code(*l, sym);
            },
            (None, Some(r)) => {
                lemma_symbol_has_code(*r, sym);
            },
            (None, None) => {},
        }
    }
}

proof fn lemma_occurrence_positive(s: Seq<char>, i: int)
    requires
        0 <= i < s.len(),
    ensures
        occurrences(s, s[i]) > 0,
    decreases s.len(),
{
    if i < s.len() - 1 {
        lemma_occurrence_positive(s.drop_last(), i);
    }
}

proof fn lemma_repeated(text: Seq<char>, d: Seq<char>)
    requires
        forall|i: int| 0 <= i < text.len() ==> #[trigger] seq![text[i]] == d,
    ensures
        text == repeated(d, text.len()),
    decreases text.len(),
{
    if text.len() > 0 {
        let init = text.drop_last();
        assert forall|i: int| 0 <= i < init.len() implies #[trigger] seq![init[i]] == d by {
            assert(seq![text[i]] == d);
        }
        lemma_repeated(init, d);
        assert(seq![text[text.len() - 1]] == d);
        assert(text =~= init + d);
    }
}

proof fn lemma_bits_as_text(bits: Seq<u8>)
    requires
        is_bits(bits),
    ensures
        is_bit_text(bits_text(bits)),
        text_bits(bits_text(bits)) == bits,
{
    assert forall|i: int| 0 <= i < bits.len() implies #[trigger] bits_text(bits)[i] == '0' || bits_text(
        bits,
    )[i] == '1' by {}
    assert forall|i: int| 0 <= i < bits.len() implies #[trigger] text_bits(bits_text(bits))[i]
        == bits[i] by {
        assert(bits[i] <= 1);
    }
    assert(text_bits(bits_text(bits)) =~= bits);
}

proof fn lemma_round_trip_leaf(text: Seq<char>, tree: Node, payload: Seq<u8>)
    requires
        tree.has_no_children(),
        tree.occurrence == text.len(),
        forall|i: int| 0 <= i < text.len() ==> #[trigger] tree.symbols().count(seq![text[i]]) > 0,
    ensures
        decompressed(payload, tree) == text,
{
    if tree.data is Some {
        let d = tree.data->0@;
        assert(tree.symbols() =~= Multiset::singleton(d));
        assert forall|i: int| 0 <= i < text.len() implies #[trigger] seq![text[i]] == d by {
            assert(tree.symbols().count(seq![text[i]]) > 0);
        }
        lemma_repeated(text, d);
    } else {
        assert(tree.symbols() =~= Multiset::empty());
        if text.len() > 0 {
            assert(tree.symbols().count(seq![text[0]]) > 0);
        }
        assert(text =~= Seq::<char>::empty());
    }
}

proof fn lemma_round_trip_internal(text: Seq<char>, tree: Node, b: Seq<u8>)
    requires
        tree.wf(),
        !tree.has_no_children(),
        tree.occurrence == text.len(),
        encoded_bits(tree, text) == Some(b),
        is_bits(b),
    ensures
        decompressed(packed(b), tree) == text,
{
    lemma_unpack_pack(b);
    let u = unpacked(packed(b));
    let z = u.subrange(b.len() as int, u.len() as int);
    assert(u =~= b + z);
    lemma_decode_encoded(tree, text, z);
    let t = decode_from(tree, tree, u);
    assert(t.subrange(0, text.len() as int) =~= text);
}

/// Round trip: a text is given back by decompressing the packed encoding
/// made with a tree that has a leaf for each of its characters and weighs
/// as many symbols as the text holds.
pub proof fn lemma_round_trip(text: Seq<char>, tree: Node)
    requires
        tree.wf() || tree == empty_node(),
        tree.occurrence == text.len(),
        forall|i: int| 0 <= i < text.len() ==> #[trigger] tree.symbols().count(seq![text[i]]) > 0,
    ensures
        encoded_bits(tree, text) is Some,
        decompressed(packed(encoded_bits(tree, text)->0), tree) == text,
{
    assert forall|i: int| 0 <= i < text.len() implies #[trigger] tree.code_of(seq![text[i]]) is Some by {
        lemma_symbol_has_code(tree, seq![text[i]]);
    }
    lemma_encoded_some(tree, text);
    let b = encoded_bits(tree, text)->0;
    if tree.has_no_children() {
        lemma_round_trip_leaf(text, tree, packed(b));
    } else {
        lemma_round_trip_internal(text, tree, b);
    }
}

/// Compresses a text: counts its characters, builds their Huffman tree,
/// encodes the text with it and packs the bits. Returns the tree, which the
/// payload cannot be read without, and the payload.
pub fn compress_text(text: &str) -> (r: (Node, Vec<u8>))
    ensures
        r.0.occurrence == text@.len(),
        text@.len() == 0 ==> r.0 == empty_node() && r.1@.len() == 0,
        text@.len() > 0 ==> r.0.wf(),
        forall|c: char|
            #[trigger] r.0.symbols().count(seq![c]) == if occurrences(text@, c) > 0 {
                1nat
            } else {
                0nat
            },
        forall|x: Seq<char>| #[trigger] r.0.symbols().count(x) > 0 ==> x.len() == 1,
        forall|c: char|
            #![trigger occurrences(text@, c)]
            occurrences(text@, c) > 0 ==> r.0.code_of(seq![c]) is Some,
        encoded_bits(r.0, text@) is Some,
        r.1@ == packed(encoded_bits(r.0, text@)->0),
        decompressed(r.1@, r.0) == text@,
{
    let nodes = find_most_occurrences(text);
    proof {
        assert(sorted_by_weight(nodes@)) by {
            assert forall|i: int, j: int| 0 <= i <= j < nodes@.len() implies nodes@[i].occurrence
                <= nodes@[j].occurrence by {
                if i < j {
                    assert(crate::frequency::frequency_order(nodes@[i], nodes@[j]));
                }
            }
        }
        assert forall|i: int| 0 <= i < nodes@.len() implies #[trigger] nodes@[i].wf() by {
            assert(is_symbol_leaf(nodes@[i]));
        }
    }
    let tree = make_huffman_tree(nodes);
    proof {
        assert forall|i: int| 0 <= i < text@.len() implies #[trigger] tree.symbols().count(
            seq![text@[i]],
        ) > 0 by {
            lemma_occurrence_positive(text@, i);
            assert(tree.symbols().count(seq![text@[i]]) == 1);
        }
        lemma_round_trip(text@, tree);
        assert forall|c: char| #![trigger occurrences(text@, c)] occurrences(text@, c) > 0 implies tree.code_of(seq![c]) is Some by {
            assert(tree.symbols().count(seq![c]) == 1);
            lemma_symbol_has_code(tree, seq![c]);
        }
    }
    let bits = encode_text(text, &tree).unwrap();
    proof {
        lemma_encoded_some(tree, text@);
        lemma_bits_as_text(encoded_bits(tree, text@)->0);
    }
    let payload = pack_bits(bits.as_str()).unwrap();
    (tree, payload)
}

/// Decompresses a payload with the tree it was made with, after checking
/// that the tree is well formed or empty.
///
/// A tree without children gives its symbol once per unit of weight (no
/// symbol at all: the empty text). Otherwise the payload's bits are decoded
/// and the text is cut after as many characters as the root weighs, which
/// drops what the padding of the last byte decodes to.
pub fn decompress_text(payload: &[u8], tree: &Node) -> (r: Result<String, CodecError>)
    ensures
        tree.wf() || *tree == empty_node() ==> r is Ok && r->Ok_0@ == decompressed(payload@, *tree),
        !(tree.wf() || *tree == empty_node()) ==> r == Err::<String, CodecError>(
            CodecError::InvalidTreeShape,
        ),
{
    let is_empty = tree.left.is_none() && tree.right.is_none() && tree.data.is_none()
        && tree.occurrence == 0;
    if !is_empty && !tree.is_well_formed() {
        return Err(CodecError::InvalidTreeShape);
    }
    Ok(decode_payload(payload, tree))
}

/// The text of a payload under any tree, as `decompressed` says.
fn decode_payload(payload: &[u8], tree: &Node) -> (r: String)
    ensures
        r@ == decompressed(payload@, *tree),
{
    if tree.left.is_none() && tree.right.is_none() {
        let mut out = String::new();
        if let Some(data) = &tree.data {
            let mut i: u64 = 0;
            while i < tree.occurrence
                invariant
                    i <= tree.occurrence,
                    out@ == repeated(data@, i as nat),
                decreases tree.occurrence - i,
            {
                out.append(data.as_str());
                i = i + 1;
            }
        }
        out
    } else {
        let bits = decode_binary(payload);
        let text = decode_text(bits.as_slice(), tree);
        let len = text.as_str().unicode_len();
        if tree.occurrence <= len as u64 {
            let kept = text.as_str().substring_char(0, tree.occurrence as usize);
            kept.to_owned()
        } else {
            text
        }
    }
}

} // verus!
