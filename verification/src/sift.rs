//! A small recursive filter over sequences, with the lemmas the
//! suppression proofs need. Keeping the recursion in one place lets every
//! predicate be passed as a named `spec_fn` value, so equalities between
//! filtered sequences never depend on closure identity.

use vstd::prelude::*;

verus! {

/// The subsequence of `s` whose elements satisfy `p`, in order.
pub open spec fn sift<A>(s: Seq<A>, p: spec_fn(A) -> bool) -> Seq<A>
    decreases s.len(),
{
    if s.len() == 0 {
        Seq::empty()
    } else {
        let rest = sift(s.drop_last(), p);
        if p(s.last()) {
            rest.push(s.last())
        } else {
            rest
        }
    }
}

pub proof fn lemma_sift_push<A>(s: Seq<A>, p: spec_fn(A) -> bool, x: A)
    ensures
        sift(s.push(x), p) == if p(x) {
            sift(s, p).push(x)
        } else {
            sift(s, p)
        },
{
    assert(s.push(x).drop_last() =~= s);
    assert(s.push(x).last() == x);
}

/// Filtering never lengthens a sequence.
pub proof fn lemma_sift_len<A>(s: Seq<A>, p: spec_fn(A) -> bool)
    ensures
        sift(s, p).len() <= s.len(),
    decreases s.len(),
{
    if s.len() != 0 {
        lemma_sift_len(s.drop_last(), p);
    }
}

/// Every element of the filtered sequence satisfies the predicate and occurs
/// in the original sequence.
pub proof fn lemma_sift_elems<A>(s: Seq<A>, p: spec_fn(A) -> bool)
    ensures
        forall|i: int|
            0 <= i < sift(s, p).len() ==> p(#[trigger] sift(s, p)[i]) && s.contains(sift(s, p)[i]),
    decreases s.len(),
{
    if s.len() != 0 {
        lemma_sift_elems(s.drop_last(), p);
        let rest = sift(s.drop_last(), p);
        assert forall|i: int| 0 <= i < rest.len() implies p(#[trigger] rest[i]) && s.contains(
            rest[i],
        ) by {
            let k = choose|k: int| 0 <= k < s.drop_last().len() && s.drop_last()[k] == rest[i];
            assert(s[k] == rest[i]);
        }
        if p(s.last()) {
            assert(sift(s, p) == rest.push(s.last()));
            assert(s[s.len() - 1] == s.last());
            assert(s.contains(s.last()));
            assert forall|i: int|
                0 <= i < sift(s, p).len() implies p(#[trigger] sift(s, p)[i]) && s.contains(
                sift(s, p)[i],
            ) by {
                if i < rest.len() {
                    assert(sift(s, p)[i] == rest[i]);
                } else {
                    assert(sift(s, p)[i] == s.last());
                }
            }
        }
    }
}

/// An element of the filtered sequence satisfies the predicate and occurs
/// in the original sequence.
pub proof fn lemma_sift_contained_pred<A>(s: Seq<A>, p: spec_fn(A) -> bool, x: A)
    requires
        sift(s, p).contains(x),
    ensures
        p(x),
        s.contains(x),
{
    lemma_sift_elems(s, p);
    let i = choose|i: int| 0 <= i < sift(s, p).len() && sift(s, p)[i] == x;
    assert(p(sift(s, p)[i]));
}

/// An element of the original sequence that satisfies the predicate occurs
/// in the filtered sequence.
pub proof fn lemma_sift_contains<A>(s: Seq<A>, p: spec_fn(A) -> bool, i: int)
    requires
        0 <= i < s.len(),
        p(s[i]),
    ensures
        sift(s, p).contains(s[i]),
    decreases s.len(),
{
    let rest = sift(s.drop_last(), p);
    if i == s.len() - 1 {
        assert(sift(s, p) == rest.push(s.last()));
        assert(sift(s, p)[rest.len() as int] == s[i]);
    } else {
        assert(s.drop_last()[i] == s[i]);
        lemma_sift_contains(s.drop_last(), p, i);
        let k = choose|k: int| 0 <= k < rest.len() && rest[k] == s[i];
        if p(s.last()) {
            assert(sift(s, p) == rest.push(s.last()));
            assert(sift(s, p)[k] == s[i]);
        } else {
            assert(sift(s, p)[k] == s[i]);
        }
    }
}

/// When every element satisfies the predicate, filtering changes nothing.
pub proof fn lemma_sift_all<A>(s: Seq<A>, p: spec_fn(A) -> bool)
    requires
        forall|i: int| 0 <= i < s.len() ==> p(#[trigger] s[i]),
    ensures
        sift(s, p) == s,
    decreases s.len(),
{
    if s.len() != 0 {
        assert forall|i: int| 0 <= i < s.drop_last().len() implies p(
            #[trigger] s.drop_last()[i],
        ) by {
            assert(s.drop_last()[i] == s[i]);
        }
        lemma_sift_all(s.drop_last(), p);
        assert(s.last() == s[s.len() - 1]);
        assert(p(s.last()));
        assert(sift(s, p) == s.drop_last().push(s.last()));
        assert(s.drop_last().push(s.last()) =~= s);
    }
}

/// When no element satisfies the predicate, filtering leaves nothing.
pub proof fn lemma_sift_none<A>(s: Seq<A>, p: spec_fn(A) -> bool)
    requires
        forall|i: int| 0 <= i < s.len() ==> !p(#[trigger] s[i]),
    ensures
        sift(s, p) == Seq::<A>::empty(),
    decreases s.len(),
{
    if s.len() != 0 {
        assert forall|i: int| 0 <= i < s.drop_last().len() implies !p(
            #[trigger] s.drop_last()[i],
        ) by {
            assert(s.drop_last()[i] == s[i]);
        }
        lemma_sift_none(s.drop_last(), p);
        assert(s.last() == s[s.len() - 1]);
        assert(!p(s.last()));
    }
}

/// Filtering distributes over concatenation.
pub proof fn lemma_sift_add<A>(a: Seq<A>, b: Seq<A>, p: spec_fn(A) -> bool)
    ensures
        sift(a + b, p) == sift(a, p) + sift(b, p),
    decreases b.len(),
{
    if b.len() == 0 {
        assert(a + b =~= a);
        assert(sift(a, p) + sift(b, p) =~= sift(a, p));
    } else {
        lemma_sift_add(a, b.drop_last(), p);
        assert((a + b).drop_last() =~= a + b.drop_last());
        assert((a + b).last() == b.last());
        if p(b.last()) {
            assert(sift(a + b, p) == sift(a + b.drop_last(), p).push(b.last()));
            assert(sift(b, p) == sift(b.drop_last(), p).push(b.last()));
            assert((sift(a, p) + sift(b.drop_last(), p)).push(b.last()) =~= sift(a, p) + sift(
                b.drop_last(),
                p,
            ).push(b.last()));
        }
    }
}

/// Two filters applied in sequence commute.
pub proof fn lemma_sift_comm<A>(s: Seq<A>, p: spec_fn(A) -> bool, q: spec_fn(A) -> bool)
    ensures
        sift(sift(s, p), q) == sift(sift(s, q), p),
    decreases s.len(),
{
    if s.len() != 0 {
        lemma_sift_comm(s.drop_last(), p, q);
        let x = s.last();
        let a = s.drop_last();
        assert(s == a.push(x)) by {
            assert(a.push(x) =~= s);
        }
        lemma_sift_push(a, p, x);
        lemma_sift_push(a, q, x);
        if p(x) {
            lemma_sift_push(sift(a, p), q, x);
        }
        if q(x) {
            lemma_sift_push(sift(a, q), p, x);
        }
    }
}

} // verus!
