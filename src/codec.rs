//! Encoding a text with the codes of a tree, and the decoding state machine.

use vstd::prelude::*;
use vstd::string::StringExecFns;

use crate::frequency::char_text;
use crate::node::Node;

verus! {

/// Why a text or a bit string could not be turned into the next form.
#[derive(Debug, PartialEq, Eq, Structural)]
pub enum CodecError {
    /// A character of the text has no leaf in the tree.
    SymbolNotEncodable,
    /// A bit string holds a character other than '0' and '1'.
    InvalidBitCharacter,
    /// A tree is neither well formed nor the empty tree.
    InvalidTreeShape,
}

/// The character that writes one bit.
pub open spec fn bit_char(b: u8) -> char {
    if b == 0 {
        '0'
    } else {
        '1'
    }
}

/// A bit sequence written as '0' and '1' characters.
pub open spec fn bits_text(bits: Seq<u8>) -> Seq<char> {
    bits.map_values(|b: u8| bit_char(b))
}

/// Every element is a bit, 0 or 1.
pub open spec fn is_bits(bits: Seq<u8>) -> bool {
    forall|i: int| 0 <= i < bits.len() ==> #[trigger] bits[i] <= 1
}

/// The codes of the characters of `text`, one after the other; `None` when
/// one of them has no leaf in `tree`.
pub open spec fn encoded_bits(tree: Node, text: Seq<char>) -> Option<Seq<u8>>
    decreases text.len(),
{
    if text.len() == 0 {
        Some(Seq::empty())
    } else {
        match (encoded_bits(tree, text.drop_last()), tree.code_of(seq![text.last()])) {
            (Some(e), Some(c)) => Some(e + c),
            _ => None,
        }
    }
}

/// The node reached from `cur` by one bit; where that child is missing the
/// cursor stays where it is.
pub open spec fn step(cur: Node, bit: u8) -> Node {
    if bit == 0 {
        match cur.left {
            Some(l) => *l,
            None => cur,
        }
    } else {
        match cur.right {
            Some(r) => *r,
            None => cur,
        }
    }
}

/// The text decoded from `bits` with the cursor at `cur`: each bit moves the
/// cursor; on reaching a node with a symbol the symbol is emitted and the
/// cursor goes back to `root`.
pub open spec fn decode_from(root: Node, cur: Node, bits: Seq<u8>) -> Seq<char>
    decreases bits.len(),
{
    if bits.len() == 0 {
        Seq::empty()
    } else {
        let next = step(cur, bits[0]);
        match next.data {
            Some(d) => d@ + decode_from(root, root, bits.drop_first()),
            None => decode_from(root, next, bits.drop_first()),
        }
    }
}

proof fn lemma_bits_text_concat(a: Seq<u8>, b: Seq<u8>)
    ensures
        bits_text(a + b) == bits_text(a) + bits_text(b),
{
    assert(bits_text(a + b) =~= bits_text(a) + bits_text(b));
}

/// The codes of a tree are made of bits.
proof fn lemma_code_is_bits(tree: Node, sym: Seq<char>)
    requires
        tree.code_of(sym) is Some,
    ensures
        is_bits(tree.code_of(sym)->0),
    decreases tree,
{
    if tree.data is Some && tree.data->0@ == sym {
    } else {
        let from_left = match tree.left {
            Some(l) => crate::node::prefix_code(0, l.code_of(sym)),
            None => None,
        };
        if from_left is Some {
            let l = tree.left->0;
            lemma_code_is_bits(*l, sym);
            let p = l.code_of(sym)->0;
            assert(tree.code_of(sym)->0 == seq![0u8] + p);
        } else {
            let r = tree.right->0;
            lemma_code_is_bits(*r, sym);
            let p = r.code_of(sym)->0;
            assert(tree.code_of(sym)->0 == seq![1u8] + p);
        }
    }
}

/// A text has an encoding exactly when each of its characters has a code.
pub proof fn lemma_encoded_some(tree: Node, text: Seq<char>)
    ensures
        encoded_bits(tree, text) is Some <==> forall|i: int|
            0 <= i < text.len() ==> #[trigger] tree.code_of(seq![text[i]]) is Some,
        encoded_bits(tree, text) is Some ==> is_bits(encoded_bits(tree, text)->0),
    decreases text.len(),
{
    if text.len() > 0 {
        let init = text.drop_last();
        lemma_encoded_some(tree, init);
        assert forall|i: int| 0 <= i < init.len() implies #[trigger] init[i] == text[i] by {}
        if encoded_bits(tree, text) is Some {
            assert forall|i: int| 0 <= i < text.len() implies #[trigger] tree.code_of(seq![text[i]]) is Some by {
                if i < init.len() {
                    assert(init[i] == text[i]);
                    assert(tree.code_of(seq![init[i]]) is Some);
                }
            }
            lemma_code_is_bits(tree, seq![text.last()]);
            let e = encoded_bits(tree, init)->0;
            let c = tree.code_of(seq![text.last()])->0;
            assert forall|i: int| 0 <= i < e.len() + c.len() implies #[trigger] (e + c)[i] <= 1 by {
                if i >= e.len() {
                    assert((e + c)[i] == c[i - e.len()]);
                }
            }
        }
        if forall|i: int| 0 <= i < text.len() ==> #[trigger] tree.code_of(seq![text[i]]) is Some {
            assert forall|i: int| 0 <= i < init.len() implies #[trigger] tree.code_of(seq![init[i]]) is Some by {
                assert(tree.code_of(seq![text[i]]) is Some);
            }
            assert(tree.code_of(seq![text[text.len() - 1]]) is Some);
        }
    }
}

/// Decoding the code of a symbol from an internal node of a well-formed
/// tree emits that symbol and puts the cursor back at the root.
proof fn lemma_decode_code(root: Node, cur: Node, sym: Seq<char>, rest: Seq<u8>)
    requires
        cur.wf(),
        !cur.has_no_children(),
        cur.code_of(sym) is Some,
    ensures
        decode_from(root, cur, cur.code_of(sym)->0 + rest) == sym + decode_from(root, root, rest),
    decreases cur,
{
    let from_left = crate::node::prefix_code(0, cur.left->0.code_of(sym));
    let bits = cur.code_of(sym)->0 + rest;
    if from_left is Some {
        let l = *cur.left->0;
        let p = l.code_of(sym)->0;
        assert(bits =~= seq![0u8] + (p + rest));
        assert(bits.drop_first() =~= p + rest);
        if l.has_no_children() {
            assert(l.code_of(sym) == Some(Seq::<u8>::empty()));
            assert(p + rest =~= rest);
        } else {
            lemma_decode_code(root, l, sym, rest);
        }
    } else {
        let r = *cur.right->0;
        let p = r.code_of(sym)->0;
        assert(bits =~= seq![1u8] + (p + rest));
        assert(bits.drop_first() =~= p + rest);
        if r.has_no_children() {
            assert(r.code_of(sym) == Some(Seq::<u8>::empty()));
            assert(p + rest =~= rest);
        } else {
            lemma_decode_code(root, r, sym, rest);
        }
    }
}

/// Decoding the encoding of a text with a well-formed tree whose root is
/// internal gives the text back, and leaves the cursor at the root.
pub proof fn lemma_decode_encoded(root: Node, text: Seq<char>, rest: Seq<u8>)
    requires
        root.wf(),
        !root.has_no_children(),
        encoded_bits(root, text) is Some,
    ensures
        decode_from(root, root, encoded_bits(root, text)->0 + rest) == text + decode_from(
            root,
            root,
            rest,
        ),
    decreases text.len(),
{
    if text.len() == 0 {
        assert(encoded_bits(root, text)->0 + rest =~= rest);
        assert(text + decode_from(root, root, rest) =~= decode_from(root, root, rest));
    } else {
        let init = text.drop_last();
        let sym = seq![text.last()];
        let c = root.code_of(sym)->0;
        let e = encoded_bits(root, init)->0;
        lemma_decode_code(root, root, sym, rest);
        lemma_decode_encoded(root, init, c + rest);
        assert(e + c + rest =~= e + (c + rest));
        assert(init + (sym + decode_from(root, root, rest)) =~= text + decode_from(root, root, rest));
    }
}

/// Replaces each character of `text` by its code in `tree`, written as '0'
/// and '1' characters, or tells which error stops it.
pub fn encode_text(text: &str, tree: &Node) -> (r: Result<String, CodecError>)
    ensures
        match encoded_bits(*tree, text@) {
            Some(bits) => r is Ok && r->Ok_0@ == bits_text(bits),
            None => r == Err::<String, CodecError>(CodecError::SymbolNotEncodable),
        },
{
    let mut output = String::new();
    for c in it: text.chars()
        invariant
            it.seq() == text@,
            encoded_bits(*tree, text@.subrange(0, it.index() as int)) is Some,
            output@ == bits_text(encoded_bits(*tree, text@.subrange(0, it.index() as int))->0),
    {
        let ghost i = it.index();
        let ghost before = output@;
        let target = char_text(c);
        let mut path: Vec<u8> = Vec::new();
        let code = match tree.search(target.as_str(), &mut path) {
            Some(code) => code,
            None => {
                proof {
                    assert(tree.code_of(seq![text@[i as int]]) is None);
                    lemma_encoded_some(*tree, text@);
                    assert(encoded_bits(*tree, text@) is None);
                }
                return Err(CodecError::SymbolNotEncodable);
            },
        };
        assert(code@ =~= tree.code_of(seq![c])->0);
        let mut j: usize = 0;
        while j < code.len()
            invariant
                j <= code@.len(),
                output@ == before + bits_text(code@.subrange(0, j as int)),
            decreases code@.len() - j,
        {
            proof {
                reveal_strlit("0");
                reveal_strlit("1");
            }
            if code[j] == 0 {
                output.append("0");
            } else {
                output.append("1");
            }
            assert(code@.subrange(0, j + 1) =~= code@.subrange(0, j as int) + seq![code@[j as int]]);
            proof {
                lemma_bits_text_concat(code@.subrange(0, j as int), seq![code@[j as int]]);
                assert(bits_text(seq![code@[j as int]]) =~= seq![bit_char(code@[j as int])]);
            }
            j = j + 1;
        }
        proof {
            let p = text@.subrange(0, i + 1);
            assert(p.drop_last() =~= text@.subrange(0, i as int));
            assert(code@.subrange(0, code@.len() as int) =~= code@);
            lemma_bits_text_concat(encoded_bits(*tree, text@.subrange(0, i as int))->0, code@);
        }
    }
    assert(text@.subrange(0, text@.len() as int) =~= text@);
    Ok(output)
}

/// Runs the decoding state machine over `bits` from the root of `tree`:
/// bit 0 goes left, bit 1 goes right; on a node with a symbol the symbol is
/// emitted and the walk starts again at the root. Bits left over after the
/// last symbol emit nothing.
pub fn decode_text(decoded_bits: &[u8], tree: &Node) -> (r: String)
    requires
        is_bits(decoded_bits@),
    ensures
        r@ == decode_from(*tree, *tree, decoded_bits@),
{
    let mut decoded_text = String::new();
    let mut current: &Node = tree;
    let mut i: usize = 0;
    assert(decoded_bits@.subrange(0, decoded_bits@.len() as int) =~= decoded_bits@);
    assert(decoded_text@ + decode_from(*tree, *tree, decoded_bits@) =~= decode_from(*tree, *tree, decoded_bits@));
    while i < decoded_bits.len()
        invariant
            i <= decoded_bits@.len(),
            decoded_text@ + decode_from(*tree, *current, decoded_bits@.subrange(i as int, decoded_bits@.len() as int))
                == decode_from(*tree, *tree, decoded_bits@),
        decreases decoded_bits@.len() - i,
    {
        let ghost rest = decoded_bits@.subrange(i as int, decoded_bits@.len() as int);
        let ghost before = decoded_text@;
        assert(rest.drop_first() =~= decoded_bits@.subrange(i + 1, decoded_bits@.len() as int));
        let bit = decoded_bits[i];
        if bit == 0 {
            if let Some(left) = &current.left {
                current = left;
            }
        } else {
            if let Some(right) = &current.right {
                current = right;
            }
        }
        if let Some(data) = &current.data {
            decoded_text.append(data.as_str());
            current = tree;
            assert(before + (data@ + decode_from(*tree, *tree, rest.drop_first())) =~= decoded_text@
                + decode_from(*tree, *tree, rest.drop_first()));
        }
        i = i + 1;
    }
    assert(decoded_text@ + Seq::<char>::empty() =~= decoded_text@);
    decoded_text
}

} // verus!
