//! Lexicographic order on byte strings.
use vstd::prelude::*;

verus! {

/// Outcome of comparing two values.
#[derive(Debug, Clone, Copy, PartialEq, Eq, Structural)]
pub enum Order {
    /// The left value comes first.
    Less,
    /// The values are equal.
    Equal,
    /// The right value comes first.
    Greater,
}

/// `a` comes strictly before `b` in lexicographic byte order.
pub open spec fn lex_lt(a: Seq<u8>, b: Seq<u8>) -> bool {
    exists|n: int| #[trigger] lex_lt_at(a, b, n)
}

/// `a` and `b` agree on their first `n` bytes, and then `a` ends or has the
/// smaller byte.
pub open spec fn lex_lt_at(a: Seq<u8>, b: Seq<u8>, n: int) -> bool {
    &&& 0 <= n <= a.len()
    &&& n < b.len()
    &&& forall|i: int| 0 <= i < n ==> a[i] == b[i]
    &&& n == a.len() || a[n] < b[n]
}

/// `a` comes before `b` or equals it.
pub open spec fn lex_le(a: Seq<u8>, b: Seq<u8>) -> bool {
    a == b || lex_lt(a, b)
}

/// Law: byte strings come in the order of the first byte in which they differ,
/// and what another one goes on from comes before it.
pub proof fn law_first_difference_decides(
    front: Seq<u8>,
    x: u8,
    y: u8,
    a: Seq<u8>,
    b: Seq<u8>,
)
    ensures
        x < y ==> lex_lt(front.push(x) + a, front.push(y) + b) && !lex_lt(
            front.push(y) + b,
            front.push(x) + a,
        ),
        lex_lt(front, front.push(x) + a),
        !lex_lt(front.push(x) + a, front),
{
    let n = front.len() as int;
    if x < y {
        assert(lex_lt_at(front.push(x) + a, front.push(y) + b, n));
        lemma_lex_asymmetric(front.push(x) + a, front.push(y) + b);
    }
    assert(lex_lt_at(front, front.push(x) + a, n));
    lemma_lex_asymmetric(front, front.push(x) + a);
}

/// No byte string comes before itself.
pub proof fn lemma_lex_irreflexive(a: Seq<u8>)
    ensures
        !lex_lt(a, a),
{
}

/// Of two different byte strings, at most one comes first.
pub proof fn lemma_lex_asymmetric(a: Seq<u8>, b: Seq<u8>)
    requires
        lex_lt(a, b),
    ensures
        !lex_lt(b, a),
        a != b,
{
    let n = choose|n: int| lex_lt_at(a, b, n);
    assert forall|m: int| !lex_lt_at(b, a, m) by {
        if lex_lt_at(b, a, m) {
            if m < n {
                assert(a[m] == b[m]);
            } else if m > n {
                assert(b[n] == a[n]);
            }
        }
    }
}

/// Lexicographic order is transitive.
pub proof fn lemma_lex_transitive(a: Seq<u8>, b: Seq<u8>, c: Seq<u8>)
    requires
        lex_lt(a, b),
        lex_lt(b, c),
    ensures
        lex_lt(a, c),
{
    let n = choose|n: int| lex_lt_at(a, b, n);
    let m = choose|m: int| lex_lt_at(b, c, m);
    if n <= m {
        assert(lex_lt_at(a, c, n)) by {
            if n < m {
                assert(b[n] == c[n]);
            }
        }
    } else {
        assert(a[m] == b[m]);
        assert(lex_lt_at(a, c, m));
    }
}

/// Of two byte strings, one comes first or they are equal.
pub proof fn lemma_lex_total(a: Seq<u8>, b: Seq<u8>)
    ensures
        a == b || lex_lt(a, b) || lex_lt(b, a),
    decreases a.len(),
{
    if a.len() == 0 {
        if b.len() > 0 {
            assert(lex_lt_at(a, b, 0));
        } else {
            assert(a =~= b);
        }
    } else if b.len() == 0 {
        assert(lex_lt_at(b, a, 0));
    } else if a[0] < b[0] {
        assert(lex_lt_at(a, b, 0));
    } else if b[0] < a[0] {
        assert(lex_lt_at(b, a, 0));
    } else {
        let a1 = a.subrange(1, a.len() as int);
        let b1 = b.subrange(1, b.len() as int);
        lemma_lex_total(a1, b1);
        if a1 == b1 {
            assert forall|i: int| 0 <= i < a.len() implies a[i] == b[i] by {
                if i > 0 {
                    assert(a1[i - 1] == b1[i - 1]);
                }
            }
            assert(a1.len() == b1.len());
            assert(a =~= b);
        } else if lex_lt(a1, b1) {
            let n = choose|n: int| lex_lt_at(a1, b1, n);
            assert forall|i: int| 0 <= i < n + 1 implies a[i] == b[i] by {
                if i > 0 {
                    assert(a1[i - 1] == b1[i - 1]);
                }
            }
            assert(lex_lt_at(a, b, n + 1));
        } else {
            let n = choose|n: int| lex_lt_at(b1, a1, n);
            assert forall|i: int| 0 <= i < n + 1 implies a[i] == b[i] by {
                if i > 0 {
                    assert(a1[i - 1] == b1[i - 1]);
                }
            }
            assert(lex_lt_at(b, a, n + 1));
        }
    }
}

/// The answer [`compare_bytes`] gives.
pub open spec fn order_of(a: Seq<u8>, b: Seq<u8>) -> Order {
    if a == b {
        Order::Equal
    } else if lex_lt(a, b) {
        Order::Less
    } else {
        Order::Greater
    }
}

/// Law: of two byte strings that are not the same, one comes before the other, and
/// comparing them the other way round gives the opposite.
pub proof fn law_comparing_tells_the_order(a: Seq<u8>, b: Seq<u8>)
    ensures
        order_of(a, b) == Order::Equal <==> a == b,
        order_of(a, b) == Order::Less <==> lex_lt(a, b),
        order_of(a, b) == Order::Greater <==> lex_lt(b, a),
        order_of(a, b) == Order::Less <==> order_of(b, a) == Order::Greater,
{
    lemma_lex_total(a, b);
    lemma_lex_irreflexive(a);
    if lex_lt(a, b) {
        lemma_lex_asymmetric(a, b);
    }
    if lex_lt(b, a) {
        lemma_lex_asymmetric(b, a);
    }
}

/// Compare two byte strings lexicographically.
pub fn compare_bytes(a: &[u8], b: &[u8]) -> (r: Order)
    ensures
        r == order_of(a@, b@),
        r == Order::Less <==> lex_lt(a@, b@),
        r == Order::Equal <==> a@ == b@,
        r == Order::Greater <==> lex_lt(b@, a@),
{
    let n: usize = if a.len() < b.len() { a.len() } else { b.len() };
    let mut i: usize = 0;
    while i < n
        invariant
            i <= n,
            n <= a@.len(),
            n <= b@.len(),
            n == a@.len() || n == b@.len(),
            forall|j: int| 0 <= j < i ==> a@[j] == b@[j],
        decreases n - i,
    {
        if a[i] < b[i] {
            proof {
                assert(lex_lt_at(a@, b@, i as int));
                lemma_lex_asymmetric(a@, b@);
            }
            return Order::Less;
        }
        if b[i] < a[i] {
            proof {
                assert(lex_lt_at(b@, a@, i as int));
                lemma_lex_asymmetric(b@, a@);
            }
            return Order::Greater;
        }
        i += 1;
    }
    if a.len() < b.len() {
        proof {
            assert(lex_lt_at(a@, b@, n as int));
            lemma_lex_asymmetric(a@, b@);
        }
        Order::Less
    } else if b.len() < a.len() {
        proof {
            assert(lex_lt_at(b@, a@, n as int));
            lemma_lex_asymmetric(b@, a@);
        }
        Order::Greater
    } else {
        proof {
            assert(a@ =~= b@);
            lemma_lex_irreflexive(a@);
        }
        Order::Equal
    }
}

} // verus!
