//! Small general facts about filtering sequences.

use vstd::prelude::*;

verus! {

/// The subsequence of `s` whose elements satisfy `pred`, in order.
pub open spec fn filtered<A>(s: Seq<A>, pred: spec_fn(A) -> bool) -> Seq<A>
    decreases s.len(),
{
    if s.len() == 0 {
        Seq::empty()
    } else {
        let rest = filtered(s.drop_last(), pred);
        if pred(s.last()) {
            rest.push(s.last())
        } else {
            rest
        }
    }
}

/// Filtering distributes over appending one element at the end.
pub proof fn lemma_filtered_push<A>(s: Seq<A>, pred: spec_fn(A) -> bool, x: A)
    ensures
        filtered(s.push(x), pred) == if pred(x) {
            filtered(s, pred).push(x)
        } else {
            filtered(s, pred)
        },
{
    assert(s.push(x).drop_last() =~= s);
    assert(s.push(x).last() == x);
}

/// What filtering keeps: only elements of `s` that satisfy `pred`, all of
/// them, without introducing duplicates.
pub proof fn lemma_filtered_props<A>(s: Seq<A>, pred: spec_fn(A) -> bool)
    ensures
        filtered(s, pred).len() <= s.len(),
        forall|k: int|
            0 <= k < filtered(s, pred).len() ==> pred(#[trigger] filtered(s, pred)[k])
                && s.contains(filtered(s, pred)[k]),
        forall|x: A| s.contains(x) && pred(x) ==> filtered(s, pred).contains(x),
        s.no_duplicates() ==> filtered(s, pred).no_duplicates(),
    decreases s.len(),
{
    if s.len() == 0 {
    } else {
        let d = s.drop_last();
        let f = filtered(s, pred);
        let fd = filtered(d, pred);
        lemma_filtered_props::<A>(d, pred);
        assert(s[s.len() - 1] == s.last());
        assert forall|k: int| 0 <= k < f.len() implies pred(#[trigger] f[k]) && s.contains(
            f[k],
        ) by {
            if pred(s.last()) && k == f.len() - 1 {
                assert(f[k] == s.last());
            } else {
                assert(f[k] == fd[k]);
                let i = choose|i: int| 0 <= i < d.len() && d[i] == fd[k];
                assert(s[i] == fd[k]);
            }
        }
        assert forall|x: A| s.contains(x) && pred(x) implies f.contains(x) by {
            let i = choose|i: int| 0 <= i < s.len() && s[i] == x;
            if i < s.len() - 1 {
                assert(d[i] == x);
                assert(d.contains(x));
                assert(fd.contains(x));
                let k = choose|k: int| 0 <= k < fd.len() && fd[k] == x;
                assert(f[k] == x);
            } else {
                assert(s.last() == x);
                assert(f[f.len() - 1] == x);
            }
        }
        if s.no_duplicates() {
            assert(d.no_duplicates()) by {
                assert(forall|i: int| 0 <= i < d.len() ==> d[i] == #[trigger] s[i]);
            }
            if pred(s.last()) {
                assert(!fd.contains(s.last())) by {
                    if fd.contains(s.last()) {
                        let k = choose|k: int| 0 <= k < fd.len() && fd[k] == s.last();
                        let i = choose|i: int| 0 <= i < d.len() && d[i] == fd[k];
                        assert(s[i] == s[s.len() - 1]);
                        assert(false);
                    }
                }
                assert forall|i: int, j: int|
                    0 <= i < f.len() && 0 <= j < f.len() && i != j implies f[i] != f[j] by {
                    if i < fd.len() && j < fd.len() {
                        assert(f[i] == fd[i] && f[j] == fd[j]);
                    } else if i < fd.len() {
                        assert(f[j] == s.last() && f[i] == fd[i]);
                        if fd[i] == s.last() {
                            assert(fd.contains(s.last()));
                        }
                    } else {
                        assert(f[i] == s.last() && f[j] == fd[j]);
                        if fd[j] == s.last() {
                            assert(fd.contains(s.last()));
                        }
                    }
                }
            }
        }
    }
}

/// Membership in a concatenation is membership in either part.
pub proof fn lemma_add_contains<A>(a: Seq<A>, b: Seq<A>)
    ensures
        forall|x: A| #[trigger] (a + b).contains(x) <==> a.contains(x) || b.contains(x),
{
    assert forall|x: A| #[trigger] (a + b).contains(x) implies a.contains(x) || b.contains(
        x,
    ) by {
        let i = choose|i: int| 0 <= i < (a + b).len() && (a + b)[i] == x;
        if i < a.len() {
            assert(a[i] == x);
        } else {
            assert(b[i - a.len()] == x);
        }
    }
    assert forall|x: A| a.contains(x) || b.contains(x) implies #[trigger] (a + b).contains(
        x,
    ) by {
        if a.contains(x) {
            let i = choose|i: int| 0 <= i < a.len() && a[i] == x;
            assert((a + b)[i] == x);
        } else {
            let i = choose|i: int| 0 <= i < b.len() && b[i] == x;
            assert((a + b)[a.len() + i] == x);
        }
    }
}

/// If every element satisfies `pred`, filtering changes nothing.
pub proof fn lemma_filtered_all<A>(s: Seq<A>, pred: spec_fn(A) -> bool)
    requires
        forall|i: int| 0 <= i < s.len() ==> pred(#[trigger] s[i]),
    ensures
        filtered(s, pred) == s,
    decreases s.len(),
{
    if s.len() == 0 {
        assert(filtered(s, pred) =~= s);
    } else {
        let d = s.drop_last();
        assert(forall|i: int| 0 <= i < d.len() ==> pred(#[trigger] d[i])) by {
            assert(forall|i: int| 0 <= i < d.len() ==> d[i] == #[trigger] s[i]);
        }
        lemma_filtered_all::<A>(d, pred);
        assert(s[s.len() - 1] == s.last());
        assert(pred(s.last()));
        assert(d.push(s.last()) =~= s);
    }
}

/// If no element satisfies `pred`, filtering leaves nothing.
pub proof fn lemma_filtered_none<A>(s: Seq<A>, pred: spec_fn(A) -> bool)
    requires
        forall|i: int| 0 <= i < s.len() ==> !pred(#[trigger] s[i]),
    ensures
        filtered(s, pred) == Seq::<A>::empty(),
    decreases s.len(),
{
    if s.len() == 0 {
        assert(filtered(s, pred) =~= Seq::<A>::empty());
    } else {
        let d = s.drop_last();
        assert(forall|i: int| 0 <= i < d.len() ==> !pred(#[trigger] d[i])) by {
            assert(forall|i: int| 0 <= i < d.len() ==> d[i] == #[trigger] s[i]);
        }
        lemma_filtered_none::<A>(d, pred);
        assert(s[s.len() - 1] == s.last());
    }
}

} // verus!
