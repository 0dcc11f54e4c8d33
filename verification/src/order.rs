//! The order in which paths and names are listed: lexicographic by the bytes
//! of their UTF-8 encoding.

use vstd::prelude::*;
use vstd::string::*;
use vstd::utf8::*;

verus! {

/// How one value stands to another in a total order.
#[derive(Clone, Copy, Debug, PartialEq, Eq, Structural)]
pub enum Relation {
    Less,
    Equal,
    Greater,
}

/// `a` and `b` hold the same bytes at every index below `k`.
pub open spec fn agree_upto(a: Seq<u8>, b: Seq<u8>, k: int) -> bool {
    &&& 0 <= k <= a.len()
    &&& k <= b.len()
    &&& forall|j: int| 0 <= j < k ==> a[j] == b[j]
}

/// `k` is the index that puts `a` before `b`: they agree below it, and there
/// either `a` ends while `b` goes on, or `a` holds the smaller byte.
pub open spec fn precedes_at(a: Seq<u8>, b: Seq<u8>, k: int) -> bool {
    &&& agree_upto(a, b, k)
    &&& k < b.len()
    &&& (k == a.len() || a[k] < b[k])
}

/// Strict lexicographic order on byte sequences.
pub open spec fn bytes_lt(a: Seq<u8>, b: Seq<u8>) -> bool {
    exists|k: int| #[trigger] precedes_at(a, b, k)
}

/// Strict order on texts: by the bytes of their UTF-8 encoding.
pub open spec fn text_lt(a: Seq<char>, b: Seq<char>) -> bool {
    bytes_lt(encode_utf8(a), encode_utf8(b))
}

/// Non-strict order on texts.
pub open spec fn text_le(a: Seq<char>, b: Seq<char>) -> bool {
    a == b || text_lt(a, b)
}

/// What `Relation` a comparison of `a` with `b` must give.
pub open spec fn relation_of(a: Seq<u8>, b: Seq<u8>) -> Relation {
    if bytes_lt(a, b) {
        Relation::Less
    } else if a == b {
        Relation::Equal
    } else {
        Relation::Greater
    }
}

/// No byte sequence comes before itself.
pub proof fn lemma_bytes_lt_irreflexive(a: Seq<u8>)
    ensures
        !bytes_lt(a, a),
{
    assert forall|k: int| !#[trigger] precedes_at(a, a, k) by {}
}

/// The order is transitive.
pub proof fn lemma_bytes_lt_transitive(a: Seq<u8>, b: Seq<u8>, c: Seq<u8>)
    requires
        bytes_lt(a, b),
        bytes_lt(b, c),
    ensures
        bytes_lt(a, c),
{
    let k1 = choose|k: int| #[trigger] precedes_at(a, b, k);
    let k2 = choose|k: int| #[trigger] precedes_at(b, c, k);
    let k = if k1 <= k2 { k1 } else { k2 };
    assert(precedes_at(a, c, k));
}

/// Two sequences that agree up to `i` are equal or one comes before the
/// other.
proof fn lemma_bytes_total_from(a: Seq<u8>, b: Seq<u8>, i: int)
    requires
        agree_upto(a, b, i),
    ensures
        bytes_lt(a, b) || a == b || bytes_lt(b, a),
    decreases a.len() - i,
{
    if i == a.len() && i == b.len() {
        assert(a =~= b);
    } else if i == a.len() {
        assert(precedes_at(a, b, i));
    } else if i == b.len() {
        assert(precedes_at(b, a, i));
    } else if a[i] < b[i] {
        assert(precedes_at(a, b, i));
    } else if b[i] < a[i] {
        assert(precedes_at(b, a, i));
    } else {
        lemma_bytes_total_from(a, b, i + 1);
    }
}

/// The order is total: of two different byte sequences one comes first.
pub proof fn lemma_bytes_lt_total(a: Seq<u8>, b: Seq<u8>)
    ensures
        bytes_lt(a, b) || a == b || bytes_lt(b, a),
{
    lemma_bytes_total_from(a, b, 0);
}

/// The order is asymmetric.
pub proof fn lemma_bytes_lt_asymmetric(a: Seq<u8>, b: Seq<u8>)
    requires
        bytes_lt(a, b),
    ensures
        !bytes_lt(b, a),
        a != b,
{
    lemma_bytes_lt_irreflexive(a);
    if bytes_lt(b, a) {
        lemma_bytes_lt_transitive(a, b, a);
    }
}

/// Different texts have different encodings, so the order on texts is total
/// too.
pub proof fn lemma_encoding_injective(a: Seq<char>, b: Seq<char>)
    requires
        encode_utf8(a) == encode_utf8(b),
    ensures
        a == b,
{
    encode_utf8_decode_utf8(a);
    encode_utf8_decode_utf8(b);
}

/// Of two different texts one comes first, and never both ways.
pub proof fn lemma_text_order_total(a: Seq<char>, b: Seq<char>)
    ensures
        text_lt(a, b) || a == b || text_lt(b, a),
        !(text_lt(a, b) && text_lt(b, a)),
        !text_lt(a, a),
{
    lemma_bytes_lt_total(encode_utf8(a), encode_utf8(b));
    lemma_bytes_lt_irreflexive(encode_utf8(a));
    if encode_utf8(a) == encode_utf8(b) {
        lemma_encoding_injective(a, b);
    }
    if text_lt(a, b) {
        lemma_bytes_lt_asymmetric(encode_utf8(a), encode_utf8(b));
    }
}

/// The order on texts is transitive.
pub proof fn lemma_text_lt_transitive(a: Seq<char>, b: Seq<char>, c: Seq<char>)
    requires
        text_lt(a, b),
        text_lt(b, c),
    ensures
        text_lt(a, c),
{
    lemma_bytes_lt_transitive(encode_utf8(a), encode_utf8(b), encode_utf8(c));
}

/// Compares two byte slices lexicographically.
pub fn compare_bytes(a: &[u8], b: &[u8]) -> (r: Relation)
    ensures
        r == relation_of(a@, b@),
        r == Relation::Greater <==> bytes_lt(b@, a@),
{
    let mut i: usize = 0;
    while i < a.len() && i < b.len()
        invariant
            agree_upto(a@, b@, i as int),
        decreases a.len() - i,
    {
        if a[i] < b[i] {
            assert(precedes_at(a@, b@, i as int));
            proof {
                lemma_bytes_lt_asymmetric(a@, b@);
            }
            return Relation::Less;
        }
        if a[i] > b[i] {
            assert(precedes_at(b@, a@, i as int));
            proof {
                lemma_bytes_lt_asymmetric(b@, a@);
            }
            return Relation::Greater;
        }
        i += 1;
    }
    if i < b.len() {
        assert(precedes_at(a@, b@, i as int));
        proof {
            lemma_bytes_lt_asymmetric(a@, b@);
        }
        Relation::Less
    } else if i < a.len() {
        assert(precedes_at(b@, a@, i as int));
        proof {
            lemma_bytes_lt_asymmetric(b@, a@);
        }
        Relation::Greater
    } else {
        assert(a@ =~= b@);
        proof {
            lemma_bytes_lt_irreflexive(a@);
        }
        Relation::Equal
    }
}

/// Compares two texts by the bytes of their UTF-8 encoding.
pub fn compare_text(a: &str, b: &str) -> (r: Relation)
    ensures
        r == Relation::Less <==> text_lt(a@, b@),
        r == Relation::Equal <==> a@ == b@,
        r == Relation::Greater <==> text_lt(b@, a@),
{
    proof {
        lemma_text_order_total(a@, b@);
        if a@ == b@ {
            lemma_bytes_lt_irreflexive(encode_utf8(a@));
        }
    }
    compare_bytes(a.as_bytes(), b.as_bytes())
}

} // verus!
