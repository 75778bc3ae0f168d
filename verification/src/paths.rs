//! The total order on directory paths: byte by byte over their UTF-8 encoding.

use vstd::prelude::*;
use vstd::utf8::{encode_utf8, encode_utf8_decode_utf8};

verus! {

/// `a` and `b` agree on their first `k` bytes.
pub open spec fn common_prefix(a: Seq<u8>, b: Seq<u8>, k: int) -> bool {
    &&& 0 <= k <= a.len()
    &&& k <= b.len()
    &&& forall|i: int| 0 <= i < k ==> a[i] == b[i]
}

/// `a` sorts before `b`, and `k` is where that shows: `a` ends there and `b`
/// goes on, or `a` has the smaller byte there.
pub open spec fn bytes_lt_at(a: Seq<u8>, b: Seq<u8>, k: int) -> bool {
    &&& common_prefix(a, b, k)
    &&& (k == a.len() && k < b.len()) || (k < a.len() && k < b.len() && a[k] < b[k])
}

/// Lexicographic order on byte strings.
pub open spec fn bytes_lt(a: Seq<u8>, b: Seq<u8>) -> bool {
    exists|k: int| bytes_lt_at(a, b, k)
}

/// Path `a` sorts before path `b`.
pub open spec fn path_lt(a: Seq<char>, b: Seq<char>) -> bool {
    bytes_lt(encode_utf8(a), encode_utf8(b))
}

/// How one path stands to another in the order.
#[derive(Clone, Copy, Debug, PartialEq, Eq, Structural)]
pub enum PathOrder {
    Before,
    Same,
    After,
}

/// What `path_order` answers for `a` and `b`.
pub open spec fn path_order_of(a: Seq<char>, b: Seq<char>) -> PathOrder {
    if a == b {
        PathOrder::Same
    } else if path_lt(a, b) {
        PathOrder::Before
    } else {
        PathOrder::After
    }
}

/// No byte string sorts before itself, and of two byte strings at most one
/// sorts before the other.
pub proof fn lemma_bytes_lt_asymmetric(a: Seq<u8>, b: Seq<u8>)
    requires
        bytes_lt(a, b),
    ensures
        !bytes_lt(b, a),
        a != b,
{
    let k = choose|k: int| bytes_lt_at(a, b, k);
    if bytes_lt(b, a) {
        let m = choose|m: int| bytes_lt_at(b, a, m);
        if k < m {
            assert(b[k] == a[k]);
        } else if m < k {
            assert(a[m] == b[m]);
        }
    }
}

/// What sorts before a byte string sorts before all that it sorts before.
pub proof fn lemma_bytes_lt_transitive(a: Seq<u8>, b: Seq<u8>, c: Seq<u8>)
    requires
        bytes_lt(a, b),
        bytes_lt(b, c),
    ensures
        bytes_lt(a, c),
{
    let k = choose|k: int| bytes_lt_at(a, b, k);
    let m = choose|m: int| bytes_lt_at(b, c, m);
    let n = if k <= m { k } else { m };
    assert forall|i: int| 0 <= i < n implies a[i] == c[i] by {
        assert(a[i] == b[i]);
        assert(b[i] == c[i]);
    }
    if k < m {
        assert(b[k] == c[k]);
    } else if m < k {
        assert(a[m] == b[m]);
    }
    assert(bytes_lt_at(a, c, n));
}

/// Two byte strings that agree on their first `k` bytes are equal, or one
/// sorts before the other.
proof fn lemma_bytes_ordered_from(a: Seq<u8>, b: Seq<u8>, k: int)
    requires
        common_prefix(a, b, k),
    ensures
        a == b || bytes_lt(a, b) || bytes_lt(b, a),
    decreases a.len() - k,
{
    if k == a.len() && k == b.len() {
        assert(a =~= b);
    } else if k == a.len() {
        assert(bytes_lt_at(a, b, k));
    } else if k == b.len() {
        assert(common_prefix(b, a, k));
        assert(bytes_lt_at(b, a, k));
    } else if a[k] < b[k] {
        assert(bytes_lt_at(a, b, k));
    } else if b[k] < a[k] {
        assert(common_prefix(b, a, k));
        assert(bytes_lt_at(b, a, k));
    } else {
        lemma_bytes_ordered_from(a, b, k + 1);
    }
}

/// Of two different byte strings one sorts before the other.
pub proof fn lemma_bytes_lt_total(a: Seq<u8>, b: Seq<u8>)
    ensures
        a == b || bytes_lt(a, b) || bytes_lt(b, a),
{
    lemma_bytes_ordered_from(a, b, 0);
}

/// No path sorts before itself, and of two paths at most one sorts before the
/// other.
pub proof fn lemma_path_lt_asymmetric(a: Seq<char>, b: Seq<char>)
    requires
        path_lt(a, b),
    ensures
        !path_lt(b, a),
        a != b,
{
    lemma_bytes_lt_asymmetric(encode_utf8(a), encode_utf8(b));
}

/// What sorts before a path sorts before all that it sorts before.
pub proof fn lemma_path_lt_transitive(a: Seq<char>, b: Seq<char>, c: Seq<char>)
    requires
        path_lt(a, b),
        path_lt(b, c),
    ensures
        path_lt(a, c),
{
    lemma_bytes_lt_transitive(encode_utf8(a), encode_utf8(b), encode_utf8(c));
}

/// Of two different paths one sorts before the other.
pub proof fn lemma_path_lt_total(a: Seq<char>, b: Seq<char>)
    ensures
        a == b || path_lt(a, b) || path_lt(b, a),
{
    lemma_bytes_lt_total(encode_utf8(a), encode_utf8(b));
    if encode_utf8(a) == encode_utf8(b) {
        encode_utf8_decode_utf8(a);
        encode_utf8_decode_utf8(b);
    }
}

/// Compares two paths byte by byte.
pub fn path_order(a: &str, b: &str) -> (order: PathOrder)
    ensures
        order == path_order_of(a@, b@),
        order == PathOrder::After ==> path_lt(b@, a@),
{
    let x = a.as_bytes();
    let y = b.as_bytes();
    let mut k: usize = 0;
    while k < x.len() && k < y.len() && x[k] == y[k]
        invariant
            common_prefix(x@, y@, k as int),
        decreases x.len() - k,
    {
        k = k + 1;
    }
    proof {
        lemma_path_lt_total(a@, b@);
        if path_lt(a@, b@) {
            lemma_path_lt_asymmetric(a@, b@);
        }
        if path_lt(b@, a@) {
            lemma_path_lt_asymmetric(b@, a@);
        }
        assert(common_prefix(y@, x@, k as int));
    }
    if k == x.len() && k == y.len() {
        proof {
            assert(x@ =~= y@);
            encode_utf8_decode_utf8(a@);
            encode_utf8_decode_utf8(b@);
        }
        PathOrder::Same
    } else if k == x.len() {
        assert(bytes_lt_at(x@, y@, k as int));
        PathOrder::Before
    } else if k == y.len() {
        assert(bytes_lt_at(y@, x@, k as int));
        PathOrder::After
    } else if x[k] < y[k] {
        assert(bytes_lt_at(x@, y@, k as int));
        PathOrder::Before
    } else {
        assert(bytes_lt_at(y@, x@, k as int));
        PathOrder::After
    }
}

/// Whether two paths are the same.
pub fn same_path(a: &str, b: &str) -> (same: bool)
    ensures
        same == (a@ == b@),
{
    path_order(a, b) == PathOrder::Same
}

/// Whether `a` sorts before `b`.
pub fn path_less(a: &str, b: &str) -> (less: bool)
    ensures
        less == path_lt(a@, b@),
{
    proof {
        if path_lt(a@, b@) {
            lemma_path_lt_asymmetric(a@, b@);
        }
    }
    path_order(a, b) == PathOrder::Before
}

} // verus!
