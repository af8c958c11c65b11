//! Lexicographic order, and lists back to front.

use vstd::prelude::*;

verus! {

/// How two values stand to each other in an order.
#[derive(Clone, Copy, PartialEq, Eq, Structural)]
pub enum Placing {
    Before,
    Same,
    After,
}

/// A strict total order: of two different values exactly one comes first, and
/// what comes before one value comes before all that follow it.
pub open spec fn total<T>(lt: spec_fn(T, T) -> bool) -> bool {
    &&& forall|x: T| !(#[trigger] lt(x, x))
    &&& forall|x: T, y: T| x != y ==> #[trigger] lt(x, y) || lt(y, x)
    &&& forall|x: T, y: T, z: T| #[trigger] lt(x, y) && #[trigger] lt(y, z) ==> lt(x, z)
}

/// The lexicographic order of sequences: where two differ first, the smaller
/// element comes first; a prefix comes before what goes on.
pub open spec fn lex<T>(lt: spec_fn(T, T) -> bool, a: Seq<T>, b: Seq<T>) -> bool
    decreases a.len(),
{
    if b.len() == 0 {
        false
    } else if a.len() == 0 {
        true
    } else if a[0] == b[0] {
        lex(lt, a.drop_first(), b.drop_first())
    } else {
        lt(a[0], b[0])
    }
}

/// No sequence comes before itself.
pub proof fn law_lex_irreflexive<T>(lt: spec_fn(T, T) -> bool, a: Seq<T>)
    ensures
        !lex(lt, a, a),
    decreases a.len(),
{
    if a.len() > 0 {
        law_lex_irreflexive(lt, a.drop_first());
    }
}

/// Of two different sequences one comes first.
pub proof fn law_lex_total<T>(lt: spec_fn(T, T) -> bool, a: Seq<T>, b: Seq<T>)
    requires
        total(lt),
    ensures
        a == b || lex(lt, a, b) || lex(lt, b, a),
    decreases a.len(),
{
    if a.len() == 0 || b.len() == 0 {
        if a.len() == b.len() {
            assert(a =~= b);
        }
    } else if a[0] == b[0] {
        law_lex_total(lt, a.drop_first(), b.drop_first());
        if a.drop_first() == b.drop_first() {
            assert(a =~= seq![a[0]] + a.drop_first());
            assert(b =~= seq![b[0]] + b.drop_first());
        }
    } else {
        assert(lt(a[0], b[0]) || lt(b[0], a[0]));
    }
}

/// What comes before a sequence comes before all that follow it.
pub proof fn law_lex_transitive<T>(
    lt: spec_fn(T, T) -> bool,
    a: Seq<T>,
    b: Seq<T>,
    c: Seq<T>,
)
    requires
        total(lt),
        lex(lt, a, b),
        lex(lt, b, c),
    ensures
        lex(lt, a, c),
    decreases a.len(),
{
    if a.len() > 0 {
        if a[0] == b[0] && b[0] == c[0] {
            law_lex_transitive(lt, a.drop_first(), b.drop_first(), c.drop_first());
        } else if a[0] == c[0] {
            assert(lt(a[0], b[0]) && lt(b[0], a[0]));
            assert(lt(a[0], a[0]));
        } else if a[0] != b[0] && b[0] != c[0] {
            assert(lt(a[0], b[0]) && lt(b[0], c[0]));
        }
    }
}

/// A common prefix has no part in the order.
pub proof fn lemma_lex_skip<T>(lt: spec_fn(T, T) -> bool, a: Seq<T>, b: Seq<T>, n: int)
    requires
        0 <= n <= a.len(),
        n <= b.len(),
        a.take(n) == b.take(n),
    ensures
        lex(lt, a, b) == lex(lt, a.skip(n), b.skip(n)),
    decreases n,
{
    if n == 0 {
        assert(a.skip(0) =~= a);
        assert(b.skip(0) =~= b);
    } else {
        assert(a[0] == a.take(n)[0] && b[0] == b.take(n)[0]);
        let x = a.drop_first();
        let y = b.drop_first();
        assert(x.take(n - 1) =~= a.take(n).drop_first());
        assert(y.take(n - 1) =~= b.take(n).drop_first());
        lemma_lex_skip(lt, x, y, n - 1);
        assert(x.skip(n - 1) =~= a.skip(n));
        assert(y.skip(n - 1) =~= b.skip(n));
    }
}

/// The order of bytes by value.
pub open spec fn byte_lt() -> spec_fn(u8, u8) -> bool {
    |x: u8, y: u8| x < y
}

/// The order of strings of bytes.
pub open spec fn bytes_lt(a: Seq<u8>, b: Seq<u8>) -> bool {
    lex(byte_lt(), a, b)
}

/// The order of strings of bytes is strict and total.
pub proof fn law_bytes_total()
    ensures
        total(|a: Seq<u8>, b: Seq<u8>| bytes_lt(a, b)),
{
    let lt = |a: Seq<u8>, b: Seq<u8>| bytes_lt(a, b);
    assert(total(byte_lt()));
    assert forall|x: Seq<u8>| !(#[trigger] lt(x, x)) by {
        law_lex_irreflexive(byte_lt(), x);
    }
    assert forall|x: Seq<u8>, y: Seq<u8>| x != y implies #[trigger] lt(x, y) || lt(y, x) by {
        law_lex_total(byte_lt(), x, y);
    }
    assert forall|x: Seq<u8>, y: Seq<u8>, z: Seq<u8>| #[trigger]
        lt(x, y) && #[trigger] lt(y, z) implies lt(x, z) by {
        law_lex_transitive(byte_lt(), x, y, z);
    }
}

/// How two strings of bytes stand to each other.
pub fn place_bytes(a: &Vec<u8>, b: &Vec<u8>) -> (r: Placing)
    ensures
        r == Placing::Before <==> bytes_lt(a@, b@),
        r == Placing::Same <==> a@ == b@,
        r == Placing::After <==> bytes_lt(b@, a@),
{
    let mut i: usize = 0;
    while i < a.len() && i < b.len() && a[i] == b[i]
        invariant
            i <= a.len(),
            i <= b.len(),
            forall|j: int| 0 <= j < i ==> a[j] == b[j],
        decreases a.len() - i,
    {
        i += 1;
    }
    proof {
        assert(a@.take(i as int) =~= b@.take(i as int));
        lemma_lex_skip(byte_lt(), a@, b@, i as int);
        lemma_lex_skip(byte_lt(), b@, a@, i as int);
        law_lex_irreflexive(byte_lt(), a@);
        if i == a.len() && i == b.len() {
            assert(a@ =~= b@);
        }
    }
    if i < a.len() {
        if i < b.len() && a[i] < b[i] {
            Placing::Before
        } else {
            Placing::After
        }
    } else if i < b.len() {
        Placing::Before
    } else {
        Placing::Same
    }
}

/// The list from its end to its start.
pub(crate) fn reversed<T>(list: Vec<T>) -> (r: Vec<T>)
    ensures
        r@ == list@.reverse(),
{
    let ghost all = list@;
    let mut list = list;
    let mut out: Vec<T> = Vec::new();
    while list.len() > 0
        invariant
            list@.len() <= all.len(),
            list@ =~= all.take(list@.len() as int),
            out@ =~= all.skip(list@.len() as int).reverse(),
        decreases list@.len(),
    {
        if let Some(x) = list.pop() {
            out.push(x);
        }
    }
    out
}

/// Two sequences are placed where they first differ: by their elements there, or,
/// if one of them is over, the one that is over comes first.
pub proof fn law_lex_first_difference<T>(lt: spec_fn(T, T) -> bool, a: Seq<T>, b: Seq<T>, k: int)
    requires
        0 <= k <= a.len(),
        k <= b.len(),
        forall|i: int| 0 <= i < k ==> #[trigger] a[i] == b[i],
    ensures
        k < a.len() && k < b.len() && a[k] != b[k] ==> lex(lt, a, b) == lt(a[k], b[k]),
        k == a.len() && k < b.len() ==> lex(lt, a, b),
        k == b.len() ==> !lex(lt, a, b),
{
    assert(a.take(k) =~= b.take(k));
    lemma_lex_skip(lt, a, b, k);
}

/// Strings of bytes are placed by the bytes where they first differ, or, if one of
/// them is over there, the one that is over comes first.
pub proof fn law_bytes_first_difference(a: Seq<u8>, b: Seq<u8>, k: int)
    requires
        0 <= k <= a.len(),
        k <= b.len(),
        forall|i: int| 0 <= i < k ==> #[trigger] a[i] == b[i],
    ensures
        k < a.len() && k < b.len() && a[k] != b[k] ==> (bytes_lt(a, b) <==> a[k] < b[k]),
        k == a.len() && k < b.len() ==> bytes_lt(a, b),
        k == b.len() ==> !bytes_lt(a, b),
{
    law_lex_first_difference(byte_lt(), a, b, k);
}

} // verus!
