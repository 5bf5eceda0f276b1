//! Lists that stand in a strict order.

use vstd::prelude::*;

verus! {

/// Every element of `list` stands before every later one.
pub open spec fn in_order<A>(list: Seq<A>, before: spec_fn(A, A) -> bool) -> bool {
    forall|i: int, j: int| 0 <= i < j < list.len() ==> before(#[trigger] list[i], #[trigger] list[j])
}

/// Two lists that hold the same elements in the same strict order are the
/// same list.
pub proof fn lemma_order_decides<A>(a: Seq<A>, b: Seq<A>, before: spec_fn(A, A) -> bool)
    requires
        in_order(a, before),
        in_order(b, before),
        forall|x: A, y: A| #[trigger] before(x, y) ==> !before(y, x),
        forall|i: int| 0 <= i < a.len() ==> b.contains(#[trigger] a[i]),
        forall|i: int| 0 <= i < b.len() ==> a.contains(#[trigger] b[i]),
    ensures
        a == b,
    decreases a.len(),
{
    if a.len() == 0 {
        if b.len() > 0 {
            assert(a.contains(b[0]));
        }
        assert(a =~= b);
    } else {
        assert(b.contains(a[0]));
        let j = choose|j: int| 0 <= j < b.len() && b[j] == a[0];
        assert(a.contains(b[0]));
        let i = choose|i: int| 0 <= i < a.len() && a[i] == b[0];
        if j > 0 {
            assert(before(b[0], b[j]));
            if i > 0 {
                assert(before(a[0], a[i]));
            }
        }
        assert(a[0] == b[0]);
        let ra = a.drop_first();
        let rb = b.drop_first();
        assert forall|x: int, y: int| 0 <= x < y < ra.len() implies before(
            #[trigger] ra[x],
            #[trigger] ra[y],
        ) by {
            assert(ra[x] == a[x + 1] && ra[y] == a[y + 1]);
        }
        assert forall|x: int, y: int| 0 <= x < y < rb.len() implies before(
            #[trigger] rb[x],
            #[trigger] rb[y],
        ) by {
            assert(rb[x] == b[x + 1] && rb[y] == b[y + 1]);
        }
        assert forall|x: int| 0 <= x < ra.len() implies rb.contains(#[trigger] ra[x]) by {
            assert(ra[x] == a[x + 1]);
            assert(b.contains(a[x + 1]));
            let k = choose|k: int| 0 <= k < b.len() && b[k] == a[x + 1];
            if k == 0 {
                assert(before(a[0], a[x + 1]));
            }
            assert(rb[k - 1] == b[k]);
        }
        assert forall|x: int| 0 <= x < rb.len() implies ra.contains(#[trigger] rb[x]) by {
            assert(rb[x] == b[x + 1]);
            assert(a.contains(b[x + 1]));
            let k = choose|k: int| 0 <= k < a.len() && a[k] == b[x + 1];
            if k == 0 {
                assert(before(b[0], b[x + 1]));
            }
            assert(ra[k - 1] == a[k]);
        }
        lemma_order_decides(ra, rb, before);
        assert(a =~= seq![a[0]] + ra);
        assert(b =~= seq![b[0]] + rb);
    }
}

} // verus!
