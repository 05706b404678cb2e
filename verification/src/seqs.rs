//! Facts about filtered sequences that the caches' proofs share.
use vstd::prelude::*;

verus! {

/// No two entries of `s` have the same key.
pub open spec fn distinct_keys<A, K>(s: Seq<A>, key: spec_fn(A) -> K) -> bool {
    forall|i: int, j: int|
        #![trigger s[i], s[j]]
        0 <= i < s.len() && 0 <= j < s.len() && i != j ==> key(s[i]) != key(s[j])
}

pub proof fn lemma_filter_keeps_distinct<A, K>(s: Seq<A>, key: spec_fn(A) -> K, p: spec_fn(A) -> bool)
    requires
        distinct_keys(s, key),
    ensures
        distinct_keys(s.filter(p), key),
        s.filter(p).len() <= s.len(),
    decreases s.len(),
{
    reveal(Seq::filter);
    s.lemma_filter_len(p);
    if s.len() > 0 {
        let rest = s.drop_last();
        assert forall|a: int, b: int|
            0 <= a < rest.len() && 0 <= b < rest.len() && a != b implies key(#[trigger] rest[a])
            != key(#[trigger] rest[b]) by {
            assert(rest[a] == s[a] && rest[b] == s[b]);
        }
        lemma_filter_keeps_distinct(rest, key, p);
        if p(s.last()) {
            let f = rest.filter(p);
            let g = f.push(s.last());
            assert(g =~= s.filter(p));
            assert forall|a: int, b: int|
                0 <= a < g.len() && 0 <= b < g.len() && a != b implies key(#[trigger] g[a]) != key(
                #[trigger] g[b],
            ) by {
                if a == g.len() - 1 || b == g.len() - 1 {
                    let k = if a == g.len() - 1 {
                        b
                    } else {
                        a
                    };
                    assert(f.contains(f[k]));
                    rest.lemma_filter_contains_rev(p, f[k]);
                    let j = choose|j: int| 0 <= j < rest.len() && rest[j] == f[k];
                    assert(s[j] == g[k]);
                    assert(s[s.len() - 1] == g[g.len() - 1]);
                } else {
                    assert(g[a] == f[a] && g[b] == f[b]);
                }
            }
        }
    }
}

/// Two sequences on which `p` agrees position by position keep as many.
pub proof fn lemma_filter_len_pointwise<A>(s: Seq<A>, t: Seq<A>, p: spec_fn(A) -> bool)
    requires
        s.len() == t.len(),
        forall|i: int| 0 <= i < s.len() ==> p(s[i]) == p(t[i]),
    ensures
        s.filter(p).len() == t.filter(p).len(),
    decreases s.len(),
{
    reveal(Seq::filter);
    if s.len() > 0 {
        lemma_filter_len_pointwise(s.drop_last(), t.drop_last(), p);
        assert(p(s.last()) == p(t.last()));
    }
}

/// A stronger predicate keeps no more entries.
pub proof fn lemma_filter_len_weaker<A>(s: Seq<A>, p: spec_fn(A) -> bool, q: spec_fn(A) -> bool)
    requires
        forall|i: int| 0 <= i < s.len() && p(s[i]) ==> q(s[i]),
    ensures
        s.filter(p).len() <= s.filter(q).len(),
    decreases s.len(),
{
    reveal(Seq::filter);
    if s.len() > 0 {
        lemma_filter_len_weaker(s.drop_last(), p, q);
        assert(p(s.last()) ==> q(s.last()));
    }
}

/// Filtering first keeps no more entries of any kind.
pub proof fn lemma_filter_filter_len<A>(s: Seq<A>, p: spec_fn(A) -> bool, q: spec_fn(A) -> bool)
    ensures
        s.filter(p).filter(q).len() <= s.filter(q).len(),
    decreases s.len(),
{
    reveal(Seq::filter);
    if s.len() > 0 {
        lemma_filter_filter_len(s.drop_last(), p, q);
        let f = s.drop_last().filter(p);
        if p(s.last()) {
            f.lemma_filter_len_push(q, s.last());
        }
    }
}

} // verus!
