//! The order of property names.
//!
//! Property names are ordered as Rust orders strings: lexicographically by
//! the bytes of their UTF-8 encoding. A property mapping keeps its entries in
//! this order, so the order in which properties are visited is canonical.

use vstd::prelude::*;
use vstd::utf8::encode_utf8;

verus! {

/// The outcome of comparing two property names.
#[derive(Clone, Copy, Debug, PartialEq, Eq, Structural)]
pub enum KeyOrder {
    /// The first name comes before the second.
    Less,
    /// Both names are the same.
    Equal,
    /// The first name comes after the second.
    Greater,
}

/// `a` and `b` agree on their first `k` bytes, and `a` is smaller at
/// position `k`: either `a` ends there and `b` goes on, or `a` holds the
/// smaller byte.
pub open spec fn bytes_lt_at(a: Seq<u8>, b: Seq<u8>, k: int) -> bool {
    &&& 0 <= k <= a.len()
    &&& k < b.len()
    &&& forall|j: int| 0 <= j < k ==> a[j] == b[j]
    &&& k < a.len() ==> a[k] < b[k]
}

/// Strict lexicographic order on byte strings.
pub open spec fn bytes_lt(a: Seq<u8>, b: Seq<u8>) -> bool {
    exists|k: int| bytes_lt_at(a, b, k)
}

/// Strict order on property names: the lexicographic order of their UTF-8
/// encodings.
pub open spec fn key_lt(a: Seq<char>, b: Seq<char>) -> bool {
    bytes_lt(encode_utf8(a), encode_utf8(b))
}

/// No byte string is smaller than itself.
pub proof fn lemma_bytes_lt_irreflexive(a: Seq<u8>)
    ensures
        !bytes_lt(a, a),
{
}

/// Of two byte strings at most one is smaller than the other.
pub proof fn lemma_bytes_lt_asymmetric(a: Seq<u8>, b: Seq<u8>)
    requires
        bytes_lt(a, b),
    ensures
        !bytes_lt(b, a),
{
    let k1 = choose|k: int| bytes_lt_at(a, b, k);
    if bytes_lt(b, a) {
        let k2 = choose|k: int| bytes_lt_at(b, a, k);
        if k1 < k2 {
            assert(b[k1] == a[k1]);
        } else if k2 < k1 {
            assert(a[k2] == b[k2]);
        }
    }
}

/// The order on byte strings is transitive.
pub proof fn lemma_bytes_lt_transitive(a: Seq<u8>, b: Seq<u8>, c: Seq<u8>)
    requires
        bytes_lt(a, b),
        bytes_lt(b, c),
    ensures
        bytes_lt(a, c),
{
    let k1 = choose|k: int| bytes_lt_at(a, b, k);
    let k2 = choose|k: int| bytes_lt_at(b, c, k);
    // The strings part ways where the first of the two pairs does.
    let k = if k1 <= k2 { k1 } else { k2 };
    assert(bytes_lt_at(a, c, k));
}

/// Two names with the same UTF-8 encoding are the same name.
pub proof fn lemma_encoding_injective(a: Seq<char>, b: Seq<char>)
    requires
        encode_utf8(a) == encode_utf8(b),
    ensures
        a == b,
{
    vstd::utf8::encode_utf8_decode_utf8(a);
    vstd::utf8::encode_utf8_decode_utf8(b);
}

/// A name is never smaller than itself, so names in strict order differ.
pub proof fn lemma_key_lt_irreflexive(a: Seq<char>)
    ensures
        !key_lt(a, a),
{
    lemma_bytes_lt_irreflexive(encode_utf8(a));
}

/// The order on names is transitive.
pub proof fn lemma_key_lt_transitive(a: Seq<char>, b: Seq<char>, c: Seq<char>)
    requires
        key_lt(a, b),
        key_lt(b, c),
    ensures
        key_lt(a, c),
{
    lemma_bytes_lt_transitive(encode_utf8(a), encode_utf8(b), encode_utf8(c));
}

/// Compares two property names in the order of `key_lt`.
pub fn compare_keys(a: &str, b: &str) -> (r: KeyOrder)
    ensures
        (r == KeyOrder::Less) == key_lt(a@, b@),
        (r == KeyOrder::Equal) == (a@ == b@),
        (r == KeyOrder::Greater) == key_lt(b@, a@),
{
    let x = a.as_bytes();
    let y = b.as_bytes();
    let ghost xs = encode_utf8(a@);
    let ghost ys = encode_utf8(b@);
    let mut i: usize = 0;
    while i < x.len() && i < y.len()
        invariant
            x@ == xs,
            y@ == ys,
            xs == encode_utf8(a@),
            ys == encode_utf8(b@),
            i <= xs.len(),
            i <= ys.len(),
            forall|j: int| 0 <= j < i ==> xs[j] == ys[j],
        decreases xs.len() - i,
    {
        if x[i] < y[i] {
            proof {
                assert(bytes_lt_at(xs, ys, i as int));
                lemma_bytes_lt_asymmetric(xs, ys);
            }
            return KeyOrder::Less;
        }
        if x[i] > y[i] {
            proof {
                assert(bytes_lt_at(ys, xs, i as int));
                lemma_bytes_lt_asymmetric(ys, xs);
            }
            return KeyOrder::Greater;
        }
        i += 1;
    }
    if x.len() < y.len() {
        proof {
            assert(bytes_lt_at(xs, ys, i as int));
            lemma_bytes_lt_asymmetric(xs, ys);
        }
        KeyOrder::Less
    } else if y.len() < x.len() {
        proof {
            assert(bytes_lt_at(ys, xs, i as int));
            lemma_bytes_lt_asymmetric(ys, xs);
        }
        KeyOrder::Greater
    } else {
        proof {
            assert(xs =~= ys);
            lemma_encoding_injective(a@, b@);
            lemma_bytes_lt_irreflexive(xs);
        }
        KeyOrder::Equal
    }
}

} // verus!
