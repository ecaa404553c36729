//! Strictly sorted sequences: a finite set is listed by at most one of them.
use vstd::prelude::*;

verus! {

/// `lt` is a strict total order.
pub open spec fn strict_total<T>(lt: spec_fn(T, T) -> bool) -> bool {
    &&& forall|x: T, y: T| #[trigger] lt(x, y) ==> !lt(y, x)
    &&& forall|x: T, y: T| x != y ==> #[trigger] lt(x, y) || lt(y, x)
}

/// The sequence increases strictly in `lt`.
pub open spec fn sorted_by<T>(s: Seq<T>, lt: spec_fn(T, T) -> bool) -> bool {
    forall|i: int, j: int| 0 <= i < j < s.len() ==> lt(#[trigger] s[i], #[trigger] s[j])
}

/// Two sequences that increase strictly in the same total order and hold
/// the same elements are equal.
pub proof fn lemma_sorted_by_unique<T>(a: Seq<T>, b: Seq<T>, lt: spec_fn(T, T) -> bool)
    requires
        strict_total(lt),
        sorted_by(a, lt),
        sorted_by(b, lt),
        a.to_set() == b.to_set(),
    ensures
        a == b,
    decreases a.len(),
{
    if a.len() == 0 {
        if b.len() > 0 {
            assert(b.to_set().contains(b[0]));
            assert(a.to_set().contains(b[0]));
        }
        assert(a =~= b);
    } else {
        assert(a.to_set().contains(a[0]));
        assert(b.to_set().contains(a[0]));
        let i = choose|i: int| 0 <= i < b.len() && b[i] == a[0];
        assert(b.to_set().contains(b[0]));
        assert(a.to_set().contains(b[0]));
        let j = choose|j: int| 0 <= j < a.len() && a[j] == b[0];
        if a[0] != b[0] {
            assert(lt(b[0], b[i]));
            assert(lt(a[0], a[j]));
            assert(false);
        }
        let a1 = a.drop_first();
        let b1 = b.drop_first();
        assert(a1.to_set() =~= b1.to_set()) by {
            assert forall|x: T| a1.to_set().contains(x) implies b1.to_set().contains(x) by {
                let k = choose|k: int| 0 <= k < a1.len() && a1[k] == x;
                assert(a[k + 1] == x);
                assert(lt(a[0], a[k + 1]));
                assert(a.to_set().contains(x));
                let m = choose|m: int| 0 <= m < b.len() && b[m] == x;
                if m == 0 {
                    assert(lt(x, x));
                }
                assert(b1[m - 1] == x);
            }
            assert forall|x: T| b1.to_set().contains(x) implies a1.to_set().contains(x) by {
                let k = choose|k: int| 0 <= k < b1.len() && b1[k] == x;
                assert(b[k + 1] == x);
                assert(lt(b[0], b[k + 1]));
                assert(b.to_set().contains(x));
                let m = choose|m: int| 0 <= m < a.len() && a[m] == x;
                if m == 0 {
                    assert(lt(x, x));
                }
                assert(a1[m - 1] == x);
            }
        }
        assert(sorted_by(a1, lt)) by {
            assert forall|p: int, q: int| 0 <= p < q < a1.len() implies lt(
                #[trigger] a1[p],
                #[trigger] a1[q],
            ) by {
                assert(a1[p] == a[p + 1] && a1[q] == a[q + 1]);
            }
        }
        assert(sorted_by(b1, lt)) by {
            assert forall|p: int, q: int| 0 <= p < q < b1.len() implies lt(
                #[trigger] b1[p],
                #[trigger] b1[q],
            ) by {
                assert(b1[p] == b[p + 1] && b1[q] == b[q + 1]);
            }
        }
        lemma_sorted_by_unique(a1, b1, lt);
        assert(a =~= seq![a[0]] + a1);
        assert(b =~= seq![b[0]] + b1);
    }
}

} // verus!
