//! The order of flat keys: byte-wise lexicographic comparison of their
//! UTF-8 encodings.

use vstd::prelude::*;
use vstd::utf8::{encode_utf8, encode_utf8_decode_utf8};

verus! {

/// How one key stands to another in the key order.
#[derive(Clone, Copy, Debug, PartialEq, Eq, Structural)]
pub enum Rank {
    Before,
    Same,
    After,
}

/// `a` comes strictly before `b` in lexicographic order: at the first
/// position where they differ `a` holds the smaller byte, or `a` is a proper
/// prefix of `b`.
pub open spec fn bytes_before(a: Seq<u8>, b: Seq<u8>) -> bool {
    exists|k: int|
        {
            &&& 0 <= k <= a.len()
            &&& k < b.len()
            &&& #[trigger] a.take(k) == b.take(k)
            &&& (k == a.len() || a[k] < b[k])
        }
}

/// `a` comes strictly before `b` in the key order.
pub open spec fn key_before(a: Seq<char>, b: Seq<char>) -> bool {
    bytes_before(encode_utf8(a), encode_utf8(b))
}

/// The rank of `a` relative to `b` in the key order.
pub open spec fn key_rank(a: Seq<char>, b: Seq<char>) -> Rank {
    if a == b {
        Rank::Same
    } else if key_before(a, b) {
        Rank::Before
    } else {
        Rank::After
    }
}

/// No byte string comes before itself.
pub proof fn lemma_bytes_before_irreflexive(a: Seq<u8>)
    ensures
        !bytes_before(a, a),
{
}

/// The byte order is transitive.
pub proof fn lemma_bytes_before_transitive(a: Seq<u8>, b: Seq<u8>, c: Seq<u8>)
    requires
        bytes_before(a, b),
        bytes_before(b, c),
    ensures
        bytes_before(a, c),
{
    let k1 = choose|k: int|
        {
            &&& 0 <= k <= a.len()
            &&& k < b.len()
            &&& #[trigger] a.take(k) == b.take(k)
            &&& (k == a.len() || a[k] < b[k])
        };
    let k2 = choose|k: int|
        {
            &&& 0 <= k <= b.len()
            &&& k < c.len()
            &&& #[trigger] b.take(k) == c.take(k)
            &&& (k == b.len() || b[k] < c[k])
        };
    let k = if k1 <= k2 { k1 } else { k2 };
    assert(a.take(k) == a.take(k1).take(k));
    assert(b.take(k) == b.take(k1).take(k));
    assert(b.take(k) == b.take(k2).take(k));
    assert(c.take(k) == c.take(k2).take(k));
    if k1 < k2 {
        assert(b.take(k2)[k1] == c.take(k2)[k1]);
    }
    if k2 < k1 {
        assert(a.take(k1)[k2] == b.take(k1)[k2]);
    }
    assert(a.take(k) == c.take(k));
}

/// Two byte strings that agree on their first `k` bytes are equal, or one
/// comes before the other.
proof fn lemma_bytes_before_total_from(a: Seq<u8>, b: Seq<u8>, k: int)
    requires
        0 <= k <= a.len(),
        k <= b.len(),
        a.take(k) == b.take(k),
    ensures
        a == b || bytes_before(a, b) || bytes_before(b, a),
    decreases a.len() - k,
{
    if k == a.len() {
        if k == b.len() {
            assert(a =~= a.take(k));
            assert(b =~= b.take(k));
        }
    } else if k == b.len() {
        assert(b.take(k) == a.take(k));
    } else if a[k] < b[k] {
    } else if b[k] < a[k] {
        assert(b.take(k) == a.take(k));
    } else {
        assert(a.take(k + 1) =~= a.take(k).push(a[k]));
        assert(b.take(k + 1) =~= b.take(k).push(b[k]));
        lemma_bytes_before_total_from(a, b, k + 1);
    }
}

/// Of two different byte strings one comes before the other.
pub proof fn lemma_bytes_before_total(a: Seq<u8>, b: Seq<u8>)
    ensures
        a == b || bytes_before(a, b) || bytes_before(b, a),
{
    assert(a.take(0) =~= b.take(0));
    lemma_bytes_before_total_from(a, b, 0);
}

/// No key comes before itself.
pub proof fn lemma_key_before_irreflexive(a: Seq<char>)
    ensures
        !key_before(a, a),
{
    lemma_bytes_before_irreflexive(encode_utf8(a));
}

/// The key order is transitive.
pub proof fn lemma_key_before_transitive(a: Seq<char>, b: Seq<char>, c: Seq<char>)
    requires
        key_before(a, b),
        key_before(b, c),
    ensures
        key_before(a, c),
{
    lemma_bytes_before_transitive(encode_utf8(a), encode_utf8(b), encode_utf8(c));
}

/// No two keys come before each other.
pub proof fn lemma_key_before_asymmetric(a: Seq<char>, b: Seq<char>)
    requires
        key_before(a, b),
    ensures
        !key_before(b, a),
{
    if key_before(b, a) {
        lemma_key_before_transitive(a, b, a);
    }
}

/// Of two different keys one comes before the other.
pub proof fn lemma_key_before_total(a: Seq<char>, b: Seq<char>)
    ensures
        a == b || key_before(a, b) || key_before(b, a),
{
    lemma_bytes_before_total(encode_utf8(a), encode_utf8(b));
    encode_utf8_decode_utf8(a);
    encode_utf8_decode_utf8(b);
}

/// Compares two keys byte by byte.
pub fn rank(a: &str, b: &str) -> (r: Rank)
    ensures
        r == key_rank(a@, b@),
        r == Rank::After ==> key_before(b@, a@),
{
    let x = a.as_bytes();
    let y = b.as_bytes();
    let ghost xs = encode_utf8(a@);
    let ghost ys = encode_utf8(b@);
    let mut i: usize = 0;
    while i < x.len() && i < y.len()
        invariant
            x@ == xs,
            y@ == ys,
            xs == encode_utf8(a@),
            ys == encode_utf8(b@),
            i <= xs.len(),
            i <= ys.len(),
            xs.take(i as int) == ys.take(i as int),
        decreases xs.len() - i,
    {
        if x[i] < y[i] {
            proof {
                lemma_key_before_asymmetric(a@, b@);
            }
            return Rank::Before;
        }
        if y[i] < x[i] {
            proof {
                assert(ys.take(i as int) == xs.take(i as int));
                lemma_key_before_asymmetric(b@, a@);
            }
            return Rank::After;
        }
        proof {
            assert(xs.take(i + 1) =~= xs.take(i as int).push(xs[i as int]));
            assert(ys.take(i + 1) =~= ys.take(i as int).push(ys[i as int]));
        }
        i += 1;
    }
    if i < y.len() {
        proof {
            lemma_key_before_asymmetric(a@, b@);
        }
        Rank::Before
    } else if i < x.len() {
        proof {
            assert(ys.take(i as int) == xs.take(i as int));
            lemma_key_before_asymmetric(b@, a@);
        }
        Rank::After
    } else {
        proof {
            assert(xs =~= xs.take(i as int));
            assert(ys =~= ys.take(i as int));
            encode_utf8_decode_utf8(a@);
            encode_utf8_decode_utf8(b@);
        }
        Rank::Same
    }
}

} // verus!
