//! The orders in which siblings can be put.

use crate::context::{Direction, SortKey};
use crate::node::Node;
use vstd::prelude::*;
use vstd::utf8::encode_utf8;

verus! {

/// Whether `a` comes strictly before `b` when byte strings are ordered like words
/// in a dictionary: by the first byte in which they differ, a proper prefix before
/// the longer string.
pub open spec fn bytes_before(a: Seq<u8>, b: Seq<u8>) -> bool
    decreases a.len(),
{
    if b.len() == 0 {
        false
    } else if a.len() == 0 {
        true
    } else if a[0] != b[0] {
        a[0] < b[0]
    } else {
        bytes_before(a.skip(1), b.skip(1))
    }
}

/// The bytes of the file name of a node.
pub open spec fn name_bytes(node: Node) -> Seq<u8> {
    encode_utf8(node.entry().file_name@)
}

/// Whether `a` comes strictly before `b` under `key`, smallest first.
pub open spec fn ascends(key: SortKey, a: Node, b: Node) -> bool {
    match key {
        SortKey::Name => bytes_before(name_bytes(a), name_bytes(b)),
        SortKey::Size => a.spec_bytes() < b.spec_bytes(),
        SortKey::Kind => if a.spec_is_dir() == b.spec_is_dir() {
            bytes_before(name_bytes(a), name_bytes(b))
        } else {
            a.spec_is_dir()
        },
    }
}

/// Whether `a` comes strictly before `b` under `key` in the given direction.
/// Two nodes of which neither comes before the other are equal under the key.
pub open spec fn precedes(key: SortKey, direction: Direction, a: Node, b: Node) -> bool {
    match direction {
        Direction::Ascending => ascends(key, a, b),
        Direction::Descending => ascends(key, b, a),
    }
}

/// Dropping a common first part does not change the order of two byte strings.
proof fn lemma_bytes_before_skip(a: Seq<u8>, b: Seq<u8>, n: int)
    requires
        0 <= n <= a.len(),
        n <= b.len(),
        a.take(n) == b.take(n),
    ensures
        bytes_before(a, b) == bytes_before(a.skip(n), b.skip(n)),
    decreases n,
{
    if n == 0 {
        assert(a.skip(0) == a);
        assert(b.skip(0) == b);
    } else {
        assert(a[0] == a.take(n)[0]);
        assert(b[0] == b.take(n)[0]);
        let a1 = a.skip(1);
        let b1 = b.skip(1);
        let a2 = a1.take(n - 1);
        let b2 = b1.take(n - 1);
        assert(a2 =~= b2) by {
            assert forall|i: int| 0 <= i < a2.len() implies #[trigger] a2[i] == b2[i] by {
                assert(a.take(n)[i + 1] == a[i + 1]);
                assert(b.take(n)[i + 1] == b[i + 1]);
                assert(a1[i] == a[i + 1]);
                assert(b1[i] == b[i + 1]);
            }
        }
        lemma_bytes_before_skip(a1, b1, n - 1);
        assert(a1.skip(n - 1) == a.skip(n));
        assert(b1.skip(n - 1) == b.skip(n));
    }
}

/// Whether the byte string `a` comes strictly before `b` in dictionary order.
pub fn bytes_precede(a: &[u8], b: &[u8]) -> (before: bool)
    ensures
        before == bytes_before(a@, b@),
{
    let mut i: usize = 0;
    while i < a.len() && i < b.len()
        invariant
            i <= a.len(),
            i <= b.len(),
            a@.take(i as int) == b@.take(i as int),
        decreases a.len() - i,
    {
        if a[i] != b[i] {
            proof {
                lemma_bytes_before_skip(a@, b@, i as int);
                assert(a@.skip(i as int)[0] == a@[i as int]);
                assert(b@.skip(i as int)[0] == b@[i as int]);
            }
            return a[i] < b[i];
        }
        proof {
            let a2 = a@.take(i + 1);
            let b2 = b@.take(i + 1);
            assert(a2 =~= b2) by {
                assert forall|k: int| 0 <= k < a2.len() implies #[trigger] a2[k] == b2[k] by {
                    if k < i {
                        assert(a@.take(i as int)[k] == b@.take(i as int)[k]);
                    }
                }
            }
        }
        i = i + 1;
    }
    proof {
        lemma_bytes_before_skip(a@, b@, i as int);
    }
    i < b.len()
}

/// Whether `a` comes strictly before `b` under `key`, smallest first.
fn node_ascends(key: SortKey, a: &Node, b: &Node) -> (before: bool)
    ensures
        before == ascends(key, *a, *b),
{
    match key {
        SortKey::Name => bytes_precede(
            a.file_name().as_str().as_bytes(),
            b.file_name().as_str().as_bytes(),
        ),
        SortKey::Size => {
            let a_bytes = match a.file_size() {
                Some(size) => size.bytes,
                None => 0,
            };
            let b_bytes = match b.file_size() {
                Some(size) => size.bytes,
                None => 0,
            };
            a_bytes < b_bytes
        },
        SortKey::Kind => {
            if a.is_dir() == b.is_dir() {
                bytes_precede(a.file_name().as_str().as_bytes(), b.file_name().as_str().as_bytes())
            } else {
                a.is_dir()
            }
        },
    }
}

/// Whether `a` comes strictly before `b` under `key` in the given direction.
pub fn node_precedes(key: SortKey, direction: Direction, a: &Node, b: &Node) -> (before: bool)
    ensures
        before == precedes(key, direction, *a, *b),
{
    match direction {
        Direction::Ascending => node_ascends(key, a, b),
        Direction::Descending => node_ascends(key, b, a),
    }
}

/// No byte string comes before itself, and of two byte strings at most one
/// comes before the other.
pub proof fn lemma_bytes_before_asymmetric(a: Seq<u8>, b: Seq<u8>)
    ensures
        !(bytes_before(a, b) && bytes_before(b, a)),
    decreases a.len(),
{
    if a.len() > 0 && b.len() > 0 && a[0] == b[0] {
        lemma_bytes_before_asymmetric(a.skip(1), b.skip(1));
    }
}

/// Of two different byte strings one comes before the other.
pub proof fn lemma_bytes_before_total(a: Seq<u8>, b: Seq<u8>)
    ensures
        a == b || bytes_before(a, b) || bytes_before(b, a),
    decreases a.len(),
{
    if a.len() == 0 || b.len() == 0 {
        if a.len() == 0 && b.len() == 0 {
            assert(a =~= b);
        }
    } else if a[0] == b[0] {
        lemma_bytes_before_total(a.skip(1), b.skip(1));
        if a.skip(1) == b.skip(1) {
            assert(a =~= b) by {
                assert forall|i: int| 0 <= i < a.len() implies a[i] == b[i] by {
                    if i > 0 {
                        assert(a.skip(1)[i - 1] == b.skip(1)[i - 1]);
                    }
                }
                assert(a.skip(1).len() == b.skip(1).len());
            }
        }
    }
}

/// What comes before something that comes before a third comes before the
/// third.
pub proof fn lemma_bytes_before_transitive(a: Seq<u8>, b: Seq<u8>, c: Seq<u8>)
    requires
        bytes_before(a, b),
        bytes_before(b, c),
    ensures
        bytes_before(a, c),
    decreases a.len(),
{
    if a.len() > 0 && b.len() > 0 && c.len() > 0 && a[0] == b[0] && b[0] == c[0] {
        lemma_bytes_before_transitive(a.skip(1), b.skip(1), c.skip(1));
    }
}

/// The order of nodes under a key is an order: if `c` comes before `a`, then any
/// `b` has `c` before it or comes before `a` itself.
pub proof fn lemma_precedes_between(
    key: SortKey,
    direction: Direction,
    a: Node,
    b: Node,
    c: Node,
)
    requires
        precedes(key, direction, c, a),
    ensures
        precedes(key, direction, c, b) || precedes(key, direction, b, a),
{
    let (low, high) = match direction {
        Direction::Ascending => (c, a),
        Direction::Descending => (a, c),
    };
    // `low` comes before `high`, smallest first
    let x = name_bytes(low);
    let y = name_bytes(b);
    let z = name_bytes(high);
    lemma_bytes_before_total(x, y);
    lemma_bytes_before_total(y, z);
    if bytes_before(y, x) && bytes_before(x, z) {
        lemma_bytes_before_transitive(y, x, z);
    }
    if bytes_before(x, z) && bytes_before(z, y) {
        lemma_bytes_before_transitive(x, z, y);
    }
}

/// Of two nodes at most one comes before the other.
pub proof fn lemma_precedes_asymmetric(key: SortKey, direction: Direction, a: Node, b: Node)
    ensures
        !(precedes(key, direction, a, b) && precedes(key, direction, b, a)),
{
    lemma_bytes_before_asymmetric(name_bytes(a), name_bytes(b));
}

} // verus!
