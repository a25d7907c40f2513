//! Facts about sequences whose elements all satisfy a predicate.

use vstd::prelude::*;

verus! {

/// Filtering keeps a predicate that held of every element, and what is
/// kept satisfies the filter.
pub proof fn lemma_all_filter<A>(s: Seq<A>, keep: spec_fn(A) -> bool, pred: spec_fn(A) -> bool)
    requires
        s.all(pred),
    ensures
        s.filter(keep).all(pred),
        s.filter(keep).all(keep),
{
    let kept = s.filter(keep);
    assert forall|i: int| 0 <= i < kept.len() implies #[trigger] pred(kept[i]) && keep(kept[i]) by {
        s.lemma_filter_pred(keep, i);
        assert(kept.contains(kept[i]));
        s.lemma_filter_contains_rev(keep, kept[i]);
        let j = choose|j: int| 0 <= j < s.len() && s[j] == kept[i];
        assert(pred(s[j]));
    }
}

/// Mapping carries a predicate over where the function does.
pub proof fn lemma_all_map<A, B>(
    s: Seq<A>,
    f: spec_fn(A) -> B,
    before: spec_fn(A) -> bool,
    after: spec_fn(B) -> bool,
)
    requires
        s.all(before),
        forall|x: A| #[trigger] before(x) ==> after(f(x)),
    ensures
        s.map_values(f).all(after),
{
    assert forall|i: int| 0 <= i < s.map_values(f).len() implies #[trigger] after(
        s.map_values(f)[i],
    ) by {
        assert(before(s[i]));
    }
}

/// What holds of every element of every part holds of every element of the
/// parts laid end to end.
pub proof fn lemma_all_flatten<A>(parts: Seq<Seq<A>>, pred: spec_fn(A) -> bool)
    requires
        forall|i: int| 0 <= i < parts.len() ==> (#[trigger] parts[i]).all(pred),
    ensures
        parts.flatten().all(pred),
    decreases parts.len(),
{
    if parts.len() == 0 {
    } else {
        let front = parts.drop_last();
        lemma_all_flatten(front, pred);
        assert(parts =~= front.push(parts.last()));
        front.lemma_flatten_push(parts.last());
        let head = front.flatten();
        assert(parts.flatten() =~= head + parts.last());
        assert forall|j: int| 0 <= j < parts.flatten().len() implies #[trigger] pred(
            parts.flatten()[j],
        ) by {
            if j < head.len() {
                assert(pred(head[j]));
            } else {
                assert(pred(parts.last()[j - head.len()]));
            }
        }
    }
}

/// Two sequences with the same elements, each as often, satisfy the same
/// predicates throughout.
pub proof fn lemma_all_same_members<A>(a: Seq<A>, b: Seq<A>, pred: spec_fn(A) -> bool)
    requires
        a.to_multiset() == b.to_multiset(),
        a.all(pred),
    ensures
        b.all(pred),
{
    assert forall|j: int| 0 <= j < b.len() implies #[trigger] pred(b[j]) by {
        assert(b.contains(b[j]));
        vstd::seq_lib::to_multiset_contains(b, b[j]);
        vstd::seq_lib::to_multiset_contains(a, b[j]);
        let i = choose|i: int| 0 <= i < a.len() && a[i] == b[j];
        assert(pred(a[i]));
    }
}

/// What one of the parts holds, the parts laid end to end hold.
pub proof fn lemma_flatten_contains<A>(parts: Seq<Seq<A>>, i: int, x: A)
    requires
        0 <= i < parts.len(),
        parts[i].contains(x),
    ensures
        parts.flatten().contains(x),
    decreases parts.len(),
{
    let front = parts.drop_last();
    assert(parts =~= front.push(parts.last()));
    front.lemma_flatten_push(parts.last());
    let head = front.flatten();
    assert(parts.flatten() =~= head + parts.last());
    if i == parts.len() - 1 {
        let k = choose|k: int| 0 <= k < parts[i].len() && parts[i][k] == x;
        assert((head + parts.last())[head.len() + k] == x);
    } else {
        assert(front[i] == parts[i]);
        lemma_flatten_contains(front, i, x);
        let k = choose|k: int| 0 <= k < head.len() && head[k] == x;
        assert((head + parts.last())[k] == x);
    }
}

/// What a function makes of an element, mapping with a filter keeps.
pub proof fn lemma_filter_map_keeps<A, B>(s: Seq<A>, f: spec_fn(A) -> Option<B>, i: int)
    requires
        0 <= i < s.len(),
        f(s[i]) is Some,
    ensures
        s.filter_map(f).contains(f(s[i]).unwrap()),
    decreases s.len(),
{
    let front = s.drop_last();
    let wanted = f(s[i]).unwrap();
    if i == s.len() - 1 {
        let kept = front.filter_map(f);
        assert(s.filter_map(f) == kept + seq![wanted]);
        assert((kept + seq![wanted])[kept.len() as int] == wanted);
    } else {
        assert(front[i] == s[i]);
        lemma_filter_map_keeps(front, f, i);
        let kept = front.filter_map(f);
        let k = choose|k: int| 0 <= k < kept.len() && kept[k] == wanted;
        match f(s.last()) {
            Some(last) => {
                assert(s.filter_map(f) == kept + seq![last]);
                assert((kept + seq![last])[k] == wanted);
            },
            None => {
                assert(s.filter_map(f) == kept);
            },
        }
    }
}

} // verus!
