//! Facts about sequences.

use vstd::prelude::*;

verus! {

/// A filtered sequence holds just the elements that pass.
pub proof fn lemma_filtered<A>(s: Seq<A>, pred: spec_fn(A) -> bool)
    ensures
        forall|x: A| #[trigger] s.filter(pred).contains(x) <==> s.contains(x) && pred(x),
        forall|k: int|
            0 <= k < s.filter(pred).len() ==> pred(#[trigger] s.filter(pred)[k]) && s.contains(
                s.filter(pred)[k],
            ),
        s.no_duplicates() ==> s.filter(pred).no_duplicates(),
    decreases s.len(),
{
    reveal(Seq::filter);
    if s.len() > 0 {
        let rest = s.drop_last();
        lemma_filtered(rest, pred);
        let f = s.filter(pred);
        let g = rest.filter(pred);
        assert(forall|k: int| 0 <= k < rest.len() ==> #[trigger] rest[k] == s[k]);
        assert forall|x: A| #[trigger] f.contains(x) <==> s.contains(x) && pred(x) by {
            if f.contains(x) {
                let k = f.index_of(x);
                if k < g.len() {
                    assert(g[k] == x);
                    assert(g.contains(x));
                    let j = rest.index_of(x);
                    assert(s[j] == x);
                } else {
                    assert(s[s.len() - 1] == x);
                }
            }
            if s.contains(x) && pred(x) {
                let j = s.index_of(x);
                if j < rest.len() {
                    assert(rest[j] == x);
                    assert(g.contains(x));
                    let k = g.index_of(x);
                    assert(f[k] == x);
                } else {
                    assert(f[f.len() - 1] == x);
                }
            }
        }
        assert forall|k: int| 0 <= k < f.len() implies pred(#[trigger] f[k]) && s.contains(f[k]) by {
            assert(f.contains(f[k]));
        }
        if s.no_duplicates() {
            assert(rest.no_duplicates());
            assert forall|i: int, j: int| 0 <= i < j < f.len() implies f[i] != f[j] by {
                if j == g.len() {
                    assert(g.contains(g[i]));
                    let m = rest.index_of(g[i]);
                    assert(s[m] == g[i]);
                }
            }
        }
    }
}

} // verus!
