//! The order of tile identifiers: lexicographic by the bytes of their UTF-8
//! encoding, as the standard library orders strings.
use vstd::prelude::*;
use vstd::string::*;
use vstd::utf8::*;

verus! {

/// `a` and `b` agree on their first `k` bytes.
pub open spec fn agree_before(a: Seq<u8>, b: Seq<u8>, k: int) -> bool {
    &&& 0 <= k <= a.len()
    &&& k <= b.len()
    &&& forall|j: int| 0 <= j < k ==> a[j] == b[j]
}

/// `a` comes before `b` and position `k` shows it: the two agree before `k`,
/// and there `a` ends while `b` goes on, or `a` holds the smaller byte.
pub open spec fn splits_at(a: Seq<u8>, b: Seq<u8>, k: int) -> bool {
    &&& agree_before(a, b, k)
    &&& k < b.len()
    &&& k < a.len() ==> a[k] < b[k]
}

/// Strict lexicographic order on byte strings.
pub open spec fn bytes_precede(a: Seq<u8>, b: Seq<u8>) -> bool {
    exists|k: int| splits_at(a, b, k)
}

/// Strict order on identifiers: lexicographic by encoded bytes.
pub open spec fn precedes(a: Seq<char>, b: Seq<char>) -> bool {
    bytes_precede(encode_utf8(a), encode_utf8(b))
}

/// A sequence of identifiers in strictly ascending order.
pub open spec fn ascending(ids: Seq<Seq<char>>) -> bool {
    forall|i: int, j: int| 0 <= i < j < ids.len() ==> precedes(ids[i], ids[j])
}

/// How one identifier stands to another in the order.
#[derive(Debug, Clone, Copy, PartialEq, Eq, Structural)]
pub enum Placement {
    Before,
    Same,
    After,
}

/// No byte string precedes itself, and of two byte strings at most one
/// precedes the other.
pub proof fn lemma_bytes_asymmetric(a: Seq<u8>, b: Seq<u8>)
    requires
        bytes_precede(a, b),
    ensures
        a != b,
        !bytes_precede(b, a),
{
    let k = choose|k: int| splits_at(a, b, k);
    if a == b {
        assert(false);
    }
    if bytes_precede(b, a) {
        let m = choose|m: int| splits_at(b, a, m);
        if m < k {
            assert(a[m] == b[m]);
        } else if k < m {
            assert(b[k] == a[k]);
        }
        assert(false);
    }
}

/// The order on byte strings is transitive.
pub proof fn lemma_bytes_transitive(a: Seq<u8>, b: Seq<u8>, c: Seq<u8>)
    requires
        bytes_precede(a, b),
        bytes_precede(b, c),
    ensures
        bytes_precede(a, c),
{
    let k = choose|k: int| splits_at(a, b, k);
    let m = choose|m: int| splits_at(b, c, m);
    let n = if k <= m { k } else { m };
    assert forall|j: int| 0 <= j < n implies a[j] == c[j] by {
        assert(a[j] == b[j]);
        assert(b[j] == c[j]);
    }
    if m < k {
        assert(a[m] == b[m]);
    }
    assert(splits_at(a, c, n));
}

/// Identifiers are ordered strictly: none precedes itself, the order is
/// transitive, and two identifiers of which one precedes the other differ.
pub proof fn lemma_precedes_strict(a: Seq<char>, b: Seq<char>, c: Seq<char>)
    ensures
        !precedes(a, a),
        precedes(a, b) ==> a != b && !precedes(b, a),
        precedes(a, b) && precedes(b, c) ==> precedes(a, c),
{
    if precedes(a, a) {
        lemma_bytes_asymmetric(encode_utf8(a), encode_utf8(a));
    }
    if precedes(a, b) {
        lemma_bytes_asymmetric(encode_utf8(a), encode_utf8(b));
        if precedes(b, c) {
            lemma_bytes_transitive(encode_utf8(a), encode_utf8(b), encode_utf8(c));
        }
    }
}

/// Identifiers with the same encoding are the same.
pub proof fn lemma_encoding_injective(a: Seq<char>, b: Seq<char>)
    requires
        encode_utf8(a) =~= encode_utf8(b),
    ensures
        a == b,
{
    encode_utf8_decode_utf8(a);
    encode_utf8_decode_utf8(b);
}

/// In an ascending sequence no identifier occurs twice.
pub proof fn lemma_ascending_distinct(ids: Seq<Seq<char>>, i: int, j: int)
    requires
        ascending(ids),
        0 <= i < ids.len(),
        0 <= j < ids.len(),
        ids[i] == ids[j],
    ensures
        i == j,
{
    if i < j {
        lemma_precedes_strict(ids[i], ids[j], ids[j]);
    } else if j < i {
        lemma_precedes_strict(ids[j], ids[i], ids[i]);
    }
}

/// Places `a` relative to `b` in the order of identifiers.
pub fn place(a: &str, b: &str) -> (r: Placement)
    ensures
        r == Placement::Before <==> precedes(a@, b@),
        r == Placement::Same <==> a@ == b@,
        r == Placement::After <==> precedes(b@, a@),
{
    let x = a.as_bytes();
    let y = b.as_bytes();
    let mut i: usize = 0;
    while i < x.len() && i < y.len()
        invariant
            agree_before(x@, y@, i as int),
            x@ == encode_utf8(a@),
            y@ == encode_utf8(b@),
        decreases x.len() - i,
    {
        if x[i] < y[i] {
            proof {
                assert(splits_at(x@, y@, i as int));
                lemma_precedes_strict(a@, b@, b@);
            }
            return Placement::Before;
        }
        if y[i] < x[i] {
            proof {
                assert(splits_at(y@, x@, i as int));
                lemma_precedes_strict(b@, a@, a@);
            }
            return Placement::After;
        }
        i += 1;
    }
    if x.len() < y.len() {
        proof {
            assert(splits_at(x@, y@, i as int));
            lemma_precedes_strict(a@, b@, b@);
        }
        Placement::Before
    } else if y.len() < x.len() {
        proof {
            assert(splits_at(y@, x@, i as int));
            lemma_precedes_strict(b@, a@, a@);
        }
        Placement::After
    } else {
        proof {
            assert(x@ =~= y@);
            lemma_encoding_injective(a@, b@);
            lemma_precedes_strict(a@, a@, a@);
        }
        Placement::Same
    }
}

/// Whether two texts are the same.
pub fn same(a: &str, b: &str) -> (r: bool)
    ensures
        r == (a@ == b@),
{
    match place(a, b) {
        Placement::Same => true,
        _ => false,
    }
}

} // verus!
