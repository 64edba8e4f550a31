//! Facts about sequences.

use vstd::prelude::*;

verus! {

/// Filtering keeps everything exactly when the length stays.
pub proof fn lemma_filter_same_len<A>(s: Seq<A>, p: spec_fn(A) -> bool)
    ensures
        s.filter(p).len() <= s.len(),
        s.filter(p).len() == s.len() ==> s.filter(p) == s,
        s.filter(p).len() == s.len() <==> forall|i: int| 0 <= i < s.len() ==> p(#[trigger] s[i]),
    decreases s.len(),
{
    reveal(Seq::filter);
    if s.len() > 0 {
        let t = s.drop_last();
        lemma_filter_same_len(t, p);
        if s.filter(p).len() == s.len() {
            assert(p(s.last()));
            assert(t.filter(p) == t);
            assert(s.filter(p) =~= s);
            assert forall|i: int| 0 <= i < s.len() implies p(#[trigger] s[i]) by {
                if i < t.len() {
                    assert(t[i] == s[i]);
                }
            }
        }
        if forall|i: int| 0 <= i < s.len() ==> p(#[trigger] s[i]) {
            assert forall|i: int| 0 <= i < t.len() implies p(#[trigger] t[i]) by {
                assert(t[i] == s[i]);
            }
            assert(p(s[s.len() - 1]));
        }
    }
}

/// What a filter keeps satisfies its predicate and was there before.
pub proof fn lemma_filter_kept<A>(s: Seq<A>, p: spec_fn(A) -> bool)
    ensures
        forall|i: int| 0 <= i < s.filter(p).len() ==> p(#[trigger] s.filter(p)[i]),
        forall|i: int|
            0 <= i < s.filter(p).len() ==> s.contains(#[trigger] s.filter(p)[i]),
    decreases s.len(),
{
    reveal(Seq::filter);
    if s.len() > 0 {
        let t = s.drop_last();
        lemma_filter_kept(t, p);
        assert forall|i: int| 0 <= i < s.filter(p).len() implies p(#[trigger] s.filter(p)[i])
            && s.contains(s.filter(p)[i]) by {
            if i < t.filter(p).len() {
                let x = t.filter(p)[i];
                assert(s.filter(p)[i] == x);
                assert(t.contains(x));
                let k = choose|k: int| 0 <= k < t.len() && t[k] == x;
                assert(s[k] == x);
            } else {
                assert(s[s.len() - 1] == s.filter(p)[i]);
            }
        }
    }
}

/// Filtering by a property that a mapping keeps commutes with the mapping.
pub proof fn lemma_filter_map<A, B>(
    s: Seq<A>,
    f: spec_fn(A) -> B,
    p: spec_fn(A) -> bool,
    q: spec_fn(B) -> bool,
)
    requires
        forall|x: A| #[trigger] p(x) == q(f(x)),
    ensures
        s.filter(p).map_values(f) == s.map_values(f).filter(q),
    decreases s.len(),
{
    reveal(Seq::filter);
    if s.len() > 0 {
        let t = s.drop_last();
        lemma_filter_map(t, f, p, q);
        assert(s.map_values(f).drop_last() =~= t.map_values(f));
        assert(p(s.last()) == q(f(s.last())));
        if p(s.last()) {
            assert(t.filter(p).push(s.last()).map_values(f) =~= t.filter(p).map_values(f).push(
                f(s.last()),
            ));
        }
        assert(s.filter(p).map_values(f) =~= s.map_values(f).filter(q));
    } else {
        assert(s.filter(p).map_values(f) =~= s.map_values(f).filter(q));
    }
}

/// Whether `t` is `s` without some of its elements: element `k` of `t` is element `from[k]` of
/// `s`, and the order is kept.
pub open spec fn taken_from<A>(t: Seq<A>, s: Seq<A>, from: Seq<int>) -> bool {
    &&& from.len() == t.len()
    &&& forall|k: int|
        0 <= k < t.len() ==> 0 <= #[trigger] from[k] < s.len() && t[k] == s[from[k]]
    &&& forall|a: int, b: int|
        #![trigger from[a], from[b]]
        0 <= a < b < from.len() ==> from[a] < from[b]
}

/// A filter takes out the elements that its predicate does not hold of.
pub proof fn lemma_filter_places<A>(s: Seq<A>, p: spec_fn(A) -> bool) -> (from: Seq<int>)
    ensures
        taken_from(s.filter(p), s, from),
        forall|i: int| 0 <= i < s.len() ==> (p(#[trigger] s[i]) <==> from.contains(i)),
    decreases s.len(),
{
    reveal(Seq::filter);
    if s.len() == 0 {
        Seq::empty()
    } else {
        let t = s.drop_last();
        let n = t.len() as int;
        let before = lemma_filter_places(t, p);
        let from = if p(s.last()) {
            before.push(n)
        } else {
            before
        };
        assert forall|i: int| 0 <= i < s.len() implies (p(#[trigger] s[i]) <==> from.contains(i)) by {
            if i < n {
                assert(t[i] == s[i]);
                if p(s[i]) {
                    let a = choose|a: int| 0 <= a < before.len() && before[a] == i;
                    assert(from[a] == i);
                }
                if from.contains(i) {
                    let a = choose|a: int| 0 <= a < from.len() && from[a] == i;
                    assert(before[a] == i);
                }
            } else {
                if p(s[i]) {
                    assert(from[n - n + before.len()] == i);
                }
                if from.contains(i) {
                    let a = choose|a: int| 0 <= a < from.len() && from[a] == i;
                    if a < before.len() {
                        assert(before[a] == i);
                    }
                }
            }
        }
        from
    }
}

/// Elements that a mapping leaves alone and a filter keeps are the same afterwards.
pub proof fn lemma_filter_other<A>(
    s: Seq<A>,
    f: spec_fn(A) -> A,
    keep: spec_fn(A) -> bool,
    other: spec_fn(A) -> bool,
)
    requires
        forall|x: A| other(x) ==> #[trigger] f(x) == x && keep(x),
        forall|x: A| !other(x) ==> !other(#[trigger] f(x)),
    ensures
        s.map_values(f).filter(keep).filter(other) == s.filter(other),
    decreases s.len(),
{
    reveal(Seq::filter);
    if s.len() == 0 {
        assert(s.map_values(f) =~= Seq::empty());
    } else {
        let t = s.drop_last();
        let x = s.last();
        let mid = t.map_values(f).filter(keep);
        lemma_filter_other(t, f, keep, other);
        assert(s.map_values(f).drop_last() =~= t.map_values(f));
        assert(s.map_values(f).last() == f(x));
        assert(mid.push(f(x)).drop_last() =~= mid);
        assert(other(x) ==> f(x) == x && keep(x));
        assert(!other(x) ==> !other(f(x)));
    }
}

} // verus!
