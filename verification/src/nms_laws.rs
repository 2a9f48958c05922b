//! Laws of the region proposal normalizer: determinism, class isolation,
//! idempotence, and score-threshold monotonicity.

use vstd::prelude::*;
use crate::detect::Detection;
use crate::geometry::iou_exceeds;
use crate::normalize::{
    best_index, class_order, class_pred, concat_classes, filter_by_score, lemma_best_index,
    lemma_best_index_unique, nms_class, of_class, prune, score_pred, spec_normalize, survive_pred,
};
use crate::sift::{
    lemma_sift_add, lemma_sift_all, lemma_sift_comm, lemma_sift_contained_pred,
    lemma_sift_contains, lemma_sift_elems, lemma_sift_len, lemma_sift_none, lemma_sift_push, sift,
};

verus! {

/// Determinism: the normalizer's output, content and order both, is a pure
/// function of the proposals and the two thresholds.
pub proof fn lemma_normalize_deterministic(
    raw1: Seq<Detection>,
    raw2: Seq<Detection>,
    st1: u32,
    st2: u32,
    nt1: u32,
    nt2: u32,
)
    requires
        raw1 == raw2,
        st1 == st2,
        nt1 == nt2,
    ensures
        spec_normalize(raw1, st1, nt1) == spec_normalize(raw2, st2, nt2),
{
}

/// Every NMS survivor is one of the proposals it was selected from.
pub proof fn lemma_nms_class_subset(s: Seq<Detection>, nt: u32)
    ensures
        forall|x: Detection| #[trigger] nms_class(s, nt).contains(x) ==> s.contains(x),
    decreases s.len(),
{
    if s.len() != 0 {
        lemma_best_index(s);
        let b = best_index(s);
        let keep = s[b];
        let rest = prune(s.remove(b), keep, nt);
        lemma_sift_len(s.remove(b), survive_pred(keep, nt));
        lemma_nms_class_subset(rest, nt);
        assert forall|x: Detection| #[trigger] nms_class(s, nt).contains(x) implies s.contains(
            x,
        ) by {
            let i = choose|i: int| 0 <= i < nms_class(s, nt).len() && nms_class(s, nt)[i] == x;
            if i == 0 {
                assert(s[b] == x);
            } else {
                assert(nms_class(rest, nt)[i - 1] == x);
                assert(nms_class(rest, nt).contains(x));
                assert(rest.contains(x));
                lemma_sift_contained_pred(s.remove(b), survive_pred(keep, nt), x);
                let j = choose|j: int| 0 <= j < s.remove(b).len() && s.remove(b)[j] == x;
                if j < b {
                    assert(s[j] == x);
                } else {
                    assert(s[j + 1] == x);
                }
            }
        }
    }
}

/// NMS keeps at least one proposal of a non-empty input.
pub proof fn lemma_nms_class_nonempty(s: Seq<Detection>, nt: u32)
    requires
        s.len() > 0,
    ensures
        nms_class(s, nt).len() > 0,
{
}

/// A class id appears in the first-appearance class list exactly when some
/// proposal has that class.
pub proof fn lemma_class_order_complete(s: Seq<Detection>, c: i32)
    ensures
        class_order(s).contains(c) <==> exists|i: int| 0 <= i < s.len() && s[i].class_id == c,
    decreases s.len(),
{
    if s.len() != 0 {
        lemma_class_order_complete(s.drop_last(), c);
        let prev = class_order(s.drop_last());
        if class_order(s).contains(c) {
            if s.last().class_id == c {
                assert(s[s.len() - 1].class_id == c);
            } else {
                assert(prev.contains(c)) by {
                    let i = choose|i: int|
                        0 <= i < class_order(s).len() && class_order(s)[i] == c;
                    if prev.contains(s.last().class_id) {
                        assert(prev[i] == c);
                    } else {
                        assert(class_order(s) == prev.push(s.last().class_id));
                        assert(prev[i] == c);
                    }
                }
                let i = choose|i: int| 0 <= i < s.drop_last().len() && s.drop_last()[i].class_id == c;
                assert(s[i].class_id == c);
            }
        }
        if exists|i: int| 0 <= i < s.len() && s[i].class_id == c {
            let i = choose|i: int| 0 <= i < s.len() && s[i].class_id == c;
            if i == s.len() - 1 {
                if prev.contains(c) {
                } else {
                    assert(class_order(s) == prev.push(c));
                    assert(class_order(s)[prev.len() as int] == c);
                }
            } else {
                assert(s.drop_last()[i].class_id == c);
                let j = choose|j: int| 0 <= j < prev.len() && prev[j] == c;
                if prev.contains(s.last().class_id) {
                    assert(class_order(s)[j] == c);
                } else {
                    assert(class_order(s) == prev.push(s.last().class_id));
                    assert(class_order(s)[j] == c);
                }
            }
        }
    }
}

/// The first-appearance class list never repeats a class id.
pub proof fn lemma_class_order_nodup(s: Seq<Detection>)
    ensures
        class_order(s).no_duplicates(),
    decreases s.len(),
{
    if s.len() != 0 {
        lemma_class_order_nodup(s.drop_last());
        let prev = class_order(s.drop_last());
        if !prev.contains(s.last().class_id) {
            assert(class_order(s) == prev.push(s.last().class_id));
            assert forall|i: int, j: int|
                0 <= i < class_order(s).len() && 0 <= j < class_order(s).len() && i != j implies
                class_order(s)[i] != class_order(s)[j] by {
                if i < prev.len() && j < prev.len() {
                } else if i < prev.len() {
                    assert(class_order(s)[j] == s.last().class_id);
                    assert(prev[i] == class_order(s)[i]);
                    if class_order(s)[i] == s.last().class_id {
                        assert(prev.contains(s.last().class_id));
                    }
                } else {
                    assert(class_order(s)[i] == s.last().class_id);
                    assert(prev[j] == class_order(s)[j]);
                    if class_order(s)[j] == s.last().class_id {
                        assert(prev.contains(s.last().class_id));
                    }
                }
            }
        }
    }
}

/// Every element of a per-class NMS block has that class.
pub proof fn lemma_block_class(f: Seq<Detection>, c: i32, nt: u32)
    ensures
        forall|i: int|
            0 <= i < nms_class(of_class(f, c), nt).len() ==> (#[trigger] nms_class(
                of_class(f, c),
                nt,
            )[i]).class_id == c,
{
    lemma_nms_class_subset(of_class(f, c), nt);
    assert forall|i: int| 0 <= i < nms_class(of_class(f, c), nt).len() implies (
    #[trigger] nms_class(of_class(f, c), nt)[i]).class_id == c by {
        let x = nms_class(of_class(f, c), nt)[i];
        assert(nms_class(of_class(f, c), nt).contains(x));
        assert(of_class(f, c).contains(x));
        lemma_sift_contained_pred(f, class_pred(c), x);
    }
}

/// Restricting the concatenated output to one class yields exactly that
/// class's own NMS block when the class is listed, and nothing otherwise.
proof fn lemma_of_class_concat(f: Seq<Detection>, cs: Seq<i32>, nt: u32, c: i32)
    requires
        cs.no_duplicates(),
    ensures
        of_class(concat_classes(f, cs, nt), c) == if cs.contains(c) {
            nms_class(of_class(f, c), nt)
        } else {
            Seq::<Detection>::empty()
        },
    decreases cs.len(),
{
    if cs.len() == 0 {
        assert(of_class(Seq::<Detection>::empty(), c) == Seq::<Detection>::empty());
    } else {
        let cl = cs.last();
        let head = cs.drop_last();
        assert(head.no_duplicates());
        assert(forall|i: int| 0 <= i < head.len() ==> head[i] == #[trigger] cs[i]);
        lemma_of_class_concat(f, head, nt, c);
        let a = concat_classes(f, head, nt);
        let block = nms_class(of_class(f, cl), nt);
        lemma_sift_add(a, block, class_pred(c));
        assert(of_class(concat_classes(f, cs, nt), c) == of_class(a, c) + of_class(block, c));
        lemma_block_class(f, cl, nt);
        if c == cl {
            lemma_sift_all(block, class_pred(c));
            assert(!head.contains(c)) by {
                if head.contains(c) {
                    let i = choose|i: int| 0 <= i < head.len() && head[i] == c;
                    assert(cs[i] == cs[cs.len() - 1]);
                }
            }
            assert(cs.contains(c)) by {
                assert(cs[cs.len() - 1] == c);
            }
            assert(Seq::<Detection>::empty() + block =~= block);
        } else {
            lemma_sift_none(block, class_pred(c));
            assert(cs.contains(c) <==> head.contains(c)) by {
                if cs.contains(c) {
                    let i = choose|i: int| 0 <= i < cs.len() && cs[i] == c;
                    assert(head[i] == c);
                }
                if head.contains(c) {
                    let i = choose|i: int| 0 <= i < head.len() && head[i] == c;
                    assert(cs[i] == c);
                }
            }
            if head.contains(c) {
                assert(of_class(a, c) + Seq::<Detection>::empty() =~= of_class(a, c));
            } else {
                assert(of_class(a, c) + Seq::<Detection>::empty() =~= of_class(a, c));
            }
        }
    }
}

/// Class isolation: the survivors of one class are determined by that
/// class's proposals alone — suppression never crosses class boundaries.
pub proof fn lemma_class_isolation(raw: Seq<Detection>, st: u32, nt: u32, c: i32)
    ensures
        of_class(spec_normalize(raw, st, nt), c) == nms_class(
            of_class(filter_by_score(raw, st), c),
            nt,
        ),
{
    let f = filter_by_score(raw, st);
    lemma_class_order_nodup(f);
    lemma_of_class_concat(f, class_order(f), nt, c);
    if !class_order(f).contains(c) {
        lemma_class_order_complete(f, c);
        assert(forall|i: int| 0 <= i < f.len() ==> (#[trigger] f[i]).class_id != c);
        lemma_sift_none(f, class_pred(c));
        assert(of_class(f, c) == Seq::<Detection>::empty());
    }
}

/// Class isolation on the smallest interesting input: two proposals of
/// different classes both survive, whatever their overlap, whenever both
/// pass the score filter.
pub proof fn lemma_class_isolation_pair(a: Detection, b: Detection, st: u32, nt: u32)
    requires
        a.class_id != b.class_id,
        a.score >= st,
        b.score >= st,
    ensures
        spec_normalize(seq![a, b], st, nt) == seq![a, b],
{
    let s = seq![a, b];
    let f = filter_by_score(s, st);
    assert(f == s) by {
        lemma_sift_all(s, score_pred(st));
    }
    let cs = class_order(s);
    assert(cs == seq![a.class_id, b.class_id]) by {
        assert(s.drop_last() =~= seq![a]);
        assert(seq![a].drop_last() =~= Seq::<Detection>::empty());
        assert(seq![a].last() == a);
        assert(class_order(Seq::<Detection>::empty()) == Seq::<i32>::empty());
        assert(!Seq::<i32>::empty().contains(a.class_id));
        assert(class_order(seq![a]) == Seq::<i32>::empty().push(a.class_id));
        assert(Seq::<i32>::empty().push(a.class_id) =~= seq![a.class_id]);
        assert(s.last() == b);
        assert(!seq![a.class_id].contains(b.class_id)) by {
            if seq![a.class_id].contains(b.class_id) {
                let i = choose|i: int| 0 <= i < 1 && seq![a.class_id][i] == b.class_id;
                assert(seq![a.class_id][0] == a.class_id);
            }
        }
        assert(class_order(s) == seq![a.class_id].push(b.class_id));
        assert(seq![a.class_id].push(b.class_id) =~= seq![a.class_id, b.class_id]);
    }
    assert(of_class(s, a.class_id) == seq![a]) by {
        assert(s.drop_last() =~= seq![a]);
        assert(seq![a].drop_last() =~= Seq::<Detection>::empty());
        assert(seq![a].last() == a);
        assert(s.last() == b);
        assert(sift(Seq::<Detection>::empty(), class_pred(a.class_id)) == Seq::<
            Detection,
        >::empty());
        assert(sift(seq![a], class_pred(a.class_id)) == Seq::<Detection>::empty().push(a));
        assert(Seq::<Detection>::empty().push(a) =~= seq![a]);
        assert(sift(s, class_pred(a.class_id)) == sift(seq![a], class_pred(a.class_id)));
    }
    assert(of_class(s, b.class_id) == seq![b]) by {
        assert(s.drop_last() =~= seq![a]);
        assert(seq![a].drop_last() =~= Seq::<Detection>::empty());
        assert(seq![a].last() == a);
        assert(s.last() == b);
        assert(sift(Seq::<Detection>::empty(), class_pred(b.class_id)) == Seq::<
            Detection,
        >::empty());
        assert(sift(seq![a], class_pred(b.class_id)) == Seq::<Detection>::empty());
        assert(sift(s, class_pred(b.class_id)) == sift(
            seq![a],
            class_pred(b.class_id),
        ).push(b));
        assert(Seq::<Detection>::empty().push(b) =~= seq![b]);
    }
    assert(nms_class(seq![a], nt) == seq![a]) by {
        lemma_nms_singleton(a, nt);
    }
    assert(nms_class(seq![b], nt) == seq![b]) by {
        lemma_nms_singleton(b, nt);
    }
    assert(cs.drop_last() =~= seq![a.class_id]);
    assert(seq![a.class_id].drop_last() =~= Seq::<i32>::empty());
    assert(cs.last() == b.class_id);
    assert(seq![a.class_id].last() == a.class_id);
    assert(concat_classes(s, Seq::<i32>::empty(), nt) == Seq::<Detection>::empty());
    assert(concat_classes(s, seq![a.class_id], nt) == Seq::<Detection>::empty() + seq![a]);
    assert(concat_classes(s, cs, nt) == (Seq::<Detection>::empty() + seq![a]) + seq![b]);
    assert((Seq::<Detection>::empty() + seq![a]) + seq![b] =~= seq![a, b]);
}

/// Per-class NMS is a fixed point: running it on its own output changes
/// nothing.
pub proof fn lemma_nms_class_idem(s: Seq<Detection>, nt: u32)
    ensures
        nms_class(nms_class(s, nt), nt) == nms_class(s, nt),
    decreases s.len(),
{
    if s.len() == 0 {
        assert(nms_class(s, nt) == Seq::<Detection>::empty());
    } else {
        lemma_best_index(s);
        let b = best_index(s);
        let keep = s[b];
        let rest = prune(s.remove(b), keep, nt);
        lemma_sift_len(s.remove(b), survive_pred(keep, nt));
        let t = nms_class(rest, nt);
        let y = nms_class(s, nt);
        assert(y == seq![keep] + t);
        assert(y[0] == keep);
        lemma_nms_class_subset(rest, nt);
        assert forall|j: int| 0 <= j < y.len() implies (#[trigger] y[j]).score <= y[0].score by {
            if j >= 1 {
                let x = t[j - 1];
                assert(y[j] == x);
                assert(t.contains(x));
                assert(rest.contains(x));
                lemma_sift_contained_pred(s.remove(b), survive_pred(keep, nt), x);
                let i = choose|i: int| 0 <= i < s.remove(b).len() && s.remove(b)[i] == x;
                if i < b {
                    assert(s[i] == x);
                } else {
                    assert(s[i + 1] == x);
                }
            }
        }
        lemma_best_index_unique(y, 0);
        assert(y.remove(0) =~= t);
        assert forall|i: int| 0 <= i < t.len() implies survive_pred(keep, nt)(
            #[trigger] t[i],
        ) by {
            let x = t[i];
            assert(t.contains(x));
            assert(rest.contains(x));
            lemma_sift_contained_pred(s.remove(b), survive_pred(keep, nt), x);
        }
        lemma_sift_all(t, survive_pred(keep, nt));
        assert(prune(t, keep, nt) == t);
        lemma_nms_class_idem(rest, nt);
        assert(nms_class(y, nt) == seq![y[0]] + nms_class(prune(y.remove(0), y[0], nt), nt));
        assert(nms_class(y, nt) == seq![keep] + t);
    }
}

/// Every element of the concatenated per-class output is one of the
/// filtered proposals.
proof fn lemma_concat_elems(f: Seq<Detection>, cs: Seq<i32>, nt: u32)
    ensures
        forall|x: Detection| #[trigger] concat_classes(f, cs, nt).contains(x) ==> f.contains(x),
    decreases cs.len(),
{
    if cs.len() != 0 {
        lemma_concat_elems(f, cs.drop_last(), nt);
        lemma_nms_class_subset(of_class(f, cs.last()), nt);
        let a = concat_classes(f, cs.drop_last(), nt);
        let blk = nms_class(of_class(f, cs.last()), nt);
        assert forall|x: Detection| #[trigger] concat_classes(f, cs, nt).contains(x) implies f
            .contains(x) by {
            let i = choose|i: int|
                0 <= i < concat_classes(f, cs, nt).len() && concat_classes(f, cs, nt)[i] == x;
            if i < a.len() {
                assert(a[i] == x);
                assert(a.contains(x));
            } else {
                assert(blk[i - a.len()] == x);
                assert(blk.contains(x));
                assert(of_class(f, cs.last()).contains(x));
                lemma_sift_contained_pred(f, class_pred(cs.last()), x);
            }
        }
    }
}

/// Appending a non-empty block of one class to a sequence appends that
/// class, if new, to the first-appearance class list.
proof fn lemma_co_append_block(a: Seq<Detection>, blk: Seq<Detection>, cl: i32)
    requires
        blk.len() > 0,
        forall|i: int| 0 <= i < blk.len() ==> (#[trigger] blk[i]).class_id == cl,
    ensures
        class_order(a + blk) == if class_order(a).contains(cl) {
            class_order(a)
        } else {
            class_order(a).push(cl)
        },
    decreases blk.len(),
{
    if blk.len() == 1 {
        assert((a + blk).drop_last() =~= a);
        assert((a + blk).last() == blk[0]);
        assert(blk[0].class_id == cl);
    } else {
        assert(forall|i: int|
            0 <= i < blk.drop_last().len() ==> (#[trigger] blk.drop_last()[i]).class_id == cl);
        lemma_co_append_block(a, blk.drop_last(), cl);
        assert((a + blk).drop_last() =~= a + blk.drop_last());
        assert((a + blk).last() == blk.last());
        assert(blk[blk.len() - 1].class_id == cl);
        let coa = class_order(a);
        if coa.contains(cl) {
        } else {
            assert(coa.push(cl)[coa.len() as int] == cl);
            assert(coa.push(cl).contains(cl));
        }
    }
}

/// The class list of the concatenated output is exactly the class list it
/// was built from.
proof fn lemma_co_concat(f: Seq<Detection>, cs: Seq<i32>, nt: u32)
    requires
        cs.no_duplicates(),
        forall|k: int| 0 <= k < cs.len() ==> of_class(f, #[trigger] cs[k]).len() > 0,
    ensures
        class_order(concat_classes(f, cs, nt)) == cs,
    decreases cs.len(),
{
    if cs.len() == 0 {
        assert(cs =~= Seq::<i32>::empty());
        assert(class_order(Seq::<Detection>::empty()) == Seq::<i32>::empty());
    } else {
        let head = cs.drop_last();
        let cl = cs.last();
        assert(head.no_duplicates());
        assert(forall|k: int| 0 <= k < head.len() ==> head[k] == #[trigger] cs[k]);
        lemma_co_concat(f, head, nt);
        let a = concat_classes(f, head, nt);
        let blk = nms_class(of_class(f, cl), nt);
        assert(of_class(f, cl).len() > 0) by {
            assert(cs[cs.len() - 1] == cl);
        }
        lemma_nms_class_nonempty(of_class(f, cl), nt);
        lemma_block_class(f, cl, nt);
        lemma_co_append_block(a, blk, cl);
        assert(!head.contains(cl)) by {
            if head.contains(cl) {
                let i = choose|i: int| 0 <= i < head.len() && head[i] == cl;
                assert(cs[i] == cs[cs.len() - 1]);
            }
        }
        assert(class_order(a + blk) == head.push(cl));
        assert(head.push(cl) =~= cs);
    }
}

/// Two proposal sets whose per-class NMS blocks agree on every listed class
/// concatenate to the same output.
proof fn lemma_concat_congruent(g: Seq<Detection>, f: Seq<Detection>, cs: Seq<i32>, nt: u32)
    requires
        forall|k: int|
            0 <= k < cs.len() ==> nms_class(of_class(g, #[trigger] cs[k]), nt) == nms_class(
                of_class(f, cs[k]),
                nt,
            ),
    ensures
        concat_classes(g, cs, nt) == concat_classes(f, cs, nt),
    decreases cs.len(),
{
    if cs.len() != 0 {
        assert(forall|k: int| 0 <= k < cs.drop_last().len() ==> cs.drop_last()[k] == #[trigger] cs[k]);
        lemma_concat_congruent(g, f, cs.drop_last(), nt);
        assert(cs[cs.len() - 1] == cs.last());
    }
}

/// NMS idempotence: normalizing the normalizer's own output with the same
/// thresholds changes nothing — the output is a fixed point.
pub proof fn lemma_normalize_idempotent(raw: Seq<Detection>, st: u32, nt: u32)
    ensures
        spec_normalize(spec_normalize(raw, st, nt), st, nt) == spec_normalize(raw, st, nt),
{
    let f = filter_by_score(raw, st);
    let cs = class_order(f);
    let out = concat_classes(f, cs, nt);
    lemma_class_order_nodup(f);
    assert forall|k: int| 0 <= k < cs.len() implies of_class(f, #[trigger] cs[k]).len() > 0 by {
        assert(cs.contains(cs[k]));
        lemma_class_order_complete(f, cs[k]);
        let i = choose|i: int| 0 <= i < f.len() && f[i].class_id == cs[k];
        lemma_sift_contains(f, class_pred(cs[k]), i);
        assert(of_class(f, cs[k]).contains(f[i]));
        let j = choose|j: int| 0 <= j < of_class(f, cs[k]).len() && of_class(f, cs[k])[j] == f[i];
    }
    lemma_concat_elems(f, cs, nt);
    assert forall|i: int| 0 <= i < out.len() implies score_pred(st)(#[trigger] out[i]) by {
        let x = out[i];
        assert(out.contains(x));
        assert(f.contains(x));
        lemma_sift_contained_pred(raw, score_pred(st), x);
    }
    lemma_sift_all(out, score_pred(st));
    assert(filter_by_score(out, st) == out);
    lemma_co_concat(f, cs, nt);
    assert(class_order(out) == cs);
    assert forall|k: int|
        0 <= k < cs.len() implies nms_class(of_class(out, #[trigger] cs[k]), nt) == nms_class(
        of_class(f, cs[k]),
        nt,
    ) by {
        lemma_of_class_concat(f, cs, nt, cs[k]);
        assert(cs.contains(cs[k]));
        assert(of_class(out, cs[k]) == nms_class(of_class(f, cs[k]), nt));
        lemma_nms_class_idem(of_class(f, cs[k]), nt);
    }
    lemma_concat_congruent(out, f, cs, nt);
    assert(spec_normalize(out, st, nt) == concat_classes(out, cs, nt));
}

/// No NMS survivor overlaps an earlier-selected survivor above the
/// threshold: the survivors of one class are pairwise separated.
pub proof fn lemma_nms_class_separated(s: Seq<Detection>, nt: u32)
    ensures
        forall|i: int, j: int|
            0 <= i < j < nms_class(s, nt).len() ==> !iou_exceeds(
                #[trigger] nms_class(s, nt)[i].rect,
                #[trigger] nms_class(s, nt)[j].rect,
                nt,
            ),
    decreases s.len(),
{
    if s.len() != 0 {
        lemma_best_index(s);
        let b = best_index(s);
        let keep = s[b];
        let rest = prune(s.remove(b), keep, nt);
        lemma_sift_len(s.remove(b), survive_pred(keep, nt));
        lemma_nms_class_separated(rest, nt);
        lemma_nms_class_subset(rest, nt);
        let y = nms_class(s, nt);
        let t = nms_class(rest, nt);
        assert(y == seq![keep] + t);
        assert forall|i: int, j: int| 0 <= i < j < y.len() implies !iou_exceeds(
            #[trigger] y[i].rect,
            #[trigger] y[j].rect,
            nt,
        ) by {
            let x = t[j - 1];
            assert(y[j] == x);
            if i == 0 {
                assert(y[i] == keep);
                assert(t.contains(x));
                assert(rest.contains(x));
                lemma_sift_contained_pred(s.remove(b), survive_pred(keep, nt), x);
            } else {
                assert(y[i] == t[i - 1]);
            }
        }
    }
}

/// The candidate-region invariant: within each class, no two survivors of
/// the normalizer overlap above the configured threshold.
pub proof fn lemma_candidate_regions_separated(raw: Seq<Detection>, st: u32, nt: u32, c: i32)
    ensures
        forall|i: int, j: int|
            0 <= i < j < of_class(spec_normalize(raw, st, nt), c).len() ==> !iou_exceeds(
                #[trigger] of_class(spec_normalize(raw, st, nt), c)[i].rect,
                #[trigger] of_class(spec_normalize(raw, st, nt), c)[j].rect,
                nt,
            ),
{
    lemma_class_isolation(raw, st, nt, c);
    lemma_nms_class_separated(of_class(filter_by_score(raw, st), c), nt);
}

/// Filtering by a lower score threshold and then a higher one is the same
/// as filtering by the higher one alone.
pub proof fn lemma_filter_score_compose(s: Seq<Detection>, s1: u32, s2: u32)
    requires
        s1 <= s2,
    ensures
        filter_by_score(filter_by_score(s, s1), s2) == filter_by_score(s, s2),
    decreases s.len(),
{
    if s.len() != 0 {
        lemma_filter_score_compose(s.drop_last(), s1, s2);
        let x = s.last();
        let dl = s.drop_last();
        if x.score >= s1 {
            lemma_sift_push(filter_by_score(dl, s1), score_pred(s2), x);
        }
    }
}

/// Raising the score threshold commutes with per-class NMS: the survivors
/// at the higher threshold are exactly the higher-threshold survivors of
/// the lower-threshold run. Dropping low-scoring proposals can never make a
/// suppressed proposal survive, nor suppress a surviving one.
pub proof fn lemma_nms_score_filter(s: Seq<Detection>, st: u32, nt: u32)
    ensures
        nms_class(filter_by_score(s, st), nt) == filter_by_score(nms_class(s, nt), st),
    decreases s.len(),
{
    if s.len() == 0 {
        assert(filter_by_score(s, st) == Seq::<Detection>::empty());
        assert(nms_class(Seq::<Detection>::empty(), nt) == Seq::<Detection>::empty());
        assert(filter_by_score(Seq::<Detection>::empty(), st) == Seq::<Detection>::empty());
    } else {
        lemma_best_index(s);
        let b = best_index(s);
        let keep = s[b];
        let a0 = s.subrange(0, b);
        let a1 = s.subrange(b + 1, s.len() as int);
        let r = prune(s.remove(b), keep, nt);
        lemma_sift_len(s.remove(b), survive_pred(keep, nt));
        let y = nms_class(s, nt);
        assert(y == seq![keep] + nms_class(r, nt));
        assert(s.remove(b) == a0 + a1);
        lemma_sift_add(a0, a1, survive_pred(keep, nt));
        assert(r == prune(a0, keep, nt) + prune(a1, keep, nt));
        if keep.score < st {
            assert forall|i: int| 0 <= i < s.len() implies !score_pred(st)(#[trigger] s[i]) by {
                assert(s[i].score <= keep.score);
            }
            lemma_sift_none(s, score_pred(st));
            assert(nms_class(filter_by_score(s, st), nt) == Seq::<Detection>::empty());
            lemma_nms_class_subset(s, nt);
            assert forall|i: int| 0 <= i < y.len() implies !score_pred(st)(#[trigger] y[i]) by {
                let x = y[i];
                assert(y.contains(x));
                assert(s.contains(x));
                let j = choose|j: int| 0 <= j < s.len() && s[j] == x;
                assert(s[j].score <= keep.score);
            }
            lemma_sift_none(y, score_pred(st));
        } else {
            let m = seq![keep];
            assert(s =~= (a0 + m) + a1);
            let f0 = filter_by_score(a0, st);
            let f1 = filter_by_score(a1, st);
            lemma_sift_add(a0 + m, a1, score_pred(st));
            lemma_sift_add(a0, m, score_pred(st));
            assert(filter_by_score(m, st) == Seq::<Detection>::empty().push(keep)) by {
                assert(m.drop_last() =~= Seq::<Detection>::empty());
                assert(m.last() == keep);
                assert(sift(Seq::<Detection>::empty(), score_pred(st)) == Seq::<
                    Detection,
                >::empty());
            }
            assert(Seq::<Detection>::empty().push(keep) =~= m);
            let fs = filter_by_score(s, st);
            assert(fs == (f0 + m) + f1);
            let bp = f0.len() as int;
            assert((f0 + m)[bp] == keep);
            assert(fs[bp] == keep);
            lemma_sift_elems(a0, score_pred(st));
            lemma_sift_elems(s, score_pred(st));
            assert forall|j: int| 0 <= j < fs.len() implies (#[trigger] fs[j]).score
                <= fs[bp].score by {
                assert(s.contains(fs[j]));
                let i = choose|i: int| 0 <= i < s.len() && s[i] == fs[j];
                assert(s[i].score <= keep.score);
            }
            assert forall|j: int| 0 <= j < bp implies (#[trigger] fs[j]).score < fs[bp].score by {
                assert(fs[j] == f0[j]);
                assert(a0.contains(f0[j]));
                let i = choose|i: int| 0 <= i < a0.len() && a0[i] == f0[j];
                assert(a0[i] == s[i]);
                assert(s[i].score < keep.score);
            }
            assert(0 <= bp < fs.len());
            lemma_best_index_unique(fs, bp);
            let rp = prune(fs.remove(bp), keep, nt);
            lemma_sift_len(fs.remove(bp), survive_pred(keep, nt));
            assert(nms_class(fs, nt) == seq![fs[bp]] + nms_class(rp, nt));
            assert(fs.remove(bp) =~= f0 + f1);
            lemma_sift_add(f0, f1, survive_pred(keep, nt));
            assert(rp == prune(f0, keep, nt) + prune(f1, keep, nt));
            lemma_sift_comm(a0, score_pred(st), survive_pred(keep, nt));
            lemma_sift_comm(a1, score_pred(st), survive_pred(keep, nt));
            assert(prune(f0, keep, nt) == filter_by_score(prune(a0, keep, nt), st));
            assert(prune(f1, keep, nt) == filter_by_score(prune(a1, keep, nt), st));
            lemma_sift_add(prune(a0, keep, nt), prune(a1, keep, nt), score_pred(st));
            assert(filter_by_score(r, st) == prune(f0, keep, nt) + prune(f1, keep, nt));
            assert(rp == filter_by_score(r, st));
            lemma_nms_score_filter(r, st, nt);
            lemma_sift_add(seq![keep], nms_class(r, nt), score_pred(st));
            assert(filter_by_score(y, st) == m + filter_by_score(nms_class(r, nt), st));
            assert(nms_class(fs, nt) == m + nms_class(filter_by_score(r, st), nt));
        }
    }
}

/// Pulling one listed class out of the concatenation removes exactly that
/// class's block from the total length.
proof fn lemma_concat_len_remove(g: Seq<Detection>, cs: Seq<i32>, nt: u32, i: int)
    requires
        0 <= i < cs.len(),
    ensures
        concat_classes(g, cs, nt).len() == concat_classes(g, cs.remove(i), nt).len() + nms_class(
            of_class(g, cs[i]),
            nt,
        ).len(),
    decreases cs.len(),
{
    if i == cs.len() - 1 {
        assert(cs.remove(i) =~= cs.drop_last());
    } else {
        lemma_concat_len_remove(g, cs.drop_last(), nt, i);
        assert(cs.remove(i).drop_last() =~= cs.drop_last().remove(i));
        assert(cs.remove(i).last() == cs.last());
        assert(cs.remove(i).len() > 0);
        assert(cs.drop_last()[i] == cs[i]);
    }
}

/// Class lists with the same members give concatenations of the same
/// length, provided every class only one of them lists holds no proposals.
proof fn lemma_concat_len_same_set(g: Seq<Detection>, big: Seq<i32>, small: Seq<i32>, nt: u32)
    requires
        big.no_duplicates(),
        small.no_duplicates(),
        forall|c: i32| #[trigger] small.contains(c) ==> big.contains(c),
        forall|k: int|
            0 <= k < big.len() && !small.contains(#[trigger] big[k]) ==> of_class(
                g,
                big[k],
            ).len() == 0,
    ensures
        concat_classes(g, big, nt).len() == concat_classes(g, small, nt).len(),
    decreases big.len(),
{
    if big.len() == 0 {
        if small.len() > 0 {
            assert(small.contains(small[0]));
            assert(big.contains(small[0]));
        }
        assert(small.len() == 0);
    } else {
        let c = big.last();
        let head = big.drop_last();
        assert(head.no_duplicates());
        assert(big[big.len() - 1] == c);
        assert(!head.contains(c)) by {
            if head.contains(c) {
                let i = choose|i: int| 0 <= i < head.len() && head[i] == c;
                assert(big[i] == big[big.len() - 1]);
            }
        }
        if small.contains(c) {
            let pos = choose|p: int| 0 <= p < small.len() && small[p] == c;
            lemma_concat_len_remove(g, small, nt, pos);
            let small2 = small.remove(pos);
            assert(small2.no_duplicates()) by {
                assert forall|i: int, j: int|
                    0 <= i < small2.len() && 0 <= j < small2.len() && i != j implies small2[i]
                    != small2[j] by {
                    let i0 = if i < pos {
                        i
                    } else {
                        i + 1
                    };
                    let j0 = if j < pos {
                        j
                    } else {
                        j + 1
                    };
                    assert(small2[i] == small[i0]);
                    assert(small2[j] == small[j0]);
                }
            }
            assert forall|cp: i32| #[trigger] small2.contains(cp) implies head.contains(cp) by {
                let i = choose|i: int| 0 <= i < small2.len() && small2[i] == cp;
                let i0 = if i < pos {
                    i
                } else {
                    i + 1
                };
                assert(small[i0] == cp);
                assert(i0 != pos || cp == c);
                if cp == c {
                    assert(small[i0] == small[pos]);
                    assert(i0 == pos);
                    assert(false);
                }
                assert(small.contains(cp));
                assert(big.contains(cp));
                let j = choose|j: int| 0 <= j < big.len() && big[j] == cp;
                assert(j < big.len() - 1);
                assert(head[j] == cp);
            }
            assert forall|k: int|
                0 <= k < head.len() && !small2.contains(#[trigger] head[k]) implies of_class(
                g,
                head[k],
            ).len() == 0 by {
                assert(head[k] == big[k]);
                assert(head[k] != c);
                if small.contains(head[k]) {
                    let q = choose|q: int| 0 <= q < small.len() && small[q] == head[k];
                    assert(q != pos);
                    if q < pos {
                        assert(small2[q] == small[q]);
                        assert(small2.contains(head[k]));
                    } else {
                        assert(small2[q - 1] == small[q]);
                        assert(small2.contains(head[k]));
                    }
                    assert(false);
                }
            }
            lemma_concat_len_same_set(g, head, small2, nt);
            assert(small[pos] == c);
        } else {
            assert(of_class(g, c).len() == 0);
            assert(of_class(g, c) =~= Seq::<Detection>::empty());
            assert(nms_class(Seq::<Detection>::empty(), nt) == Seq::<Detection>::empty());
            assert forall|cp: i32| #[trigger] small.contains(cp) implies head.contains(cp) by {
                assert(big.contains(cp));
                let j = choose|j: int| 0 <= j < big.len() && big[j] == cp;
                assert(cp != c);
                assert(j < big.len() - 1);
                assert(head[j] == cp);
            }
            assert forall|k: int|
                0 <= k < head.len() && !small.contains(#[trigger] head[k]) implies of_class(
                g,
                head[k],
            ).len() == 0 by {
                assert(head[k] == big[k]);
            }
            lemma_concat_len_same_set(g, head, small, nt);
        }
    }
}

/// A concatenation over the same class list is no longer when every class's
/// block is no longer.
proof fn lemma_concat_len_le(
    g: Seq<Detection>,
    f: Seq<Detection>,
    cs: Seq<i32>,
    ntg: u32,
    ntf: u32,
)
    requires
        forall|k: int|
            0 <= k < cs.len() ==> nms_class(of_class(g, #[trigger] cs[k]), ntg).len() <= nms_class(
                of_class(f, cs[k]),
                ntf,
            ).len(),
    ensures
        concat_classes(g, cs, ntg).len() <= concat_classes(f, cs, ntf).len(),
    decreases cs.len(),
{
    if cs.len() != 0 {
        assert(forall|k: int|
            0 <= k < cs.drop_last().len() ==> cs.drop_last()[k] == #[trigger] cs[k]);
        lemma_concat_len_le(g, f, cs.drop_last(), ntg, ntf);
        assert(cs[cs.len() - 1] == cs.last());
    }
}

/// Score-threshold monotonicity: raising the score threshold never
/// increases the number of candidate regions.
pub proof fn lemma_score_threshold_monotone(raw: Seq<Detection>, s1: u32, s2: u32, nt: u32)
    requires
        s1 <= s2,
    ensures
        spec_normalize(raw, s2, nt).len() <= spec_normalize(raw, s1, nt).len(),
{
    let f1 = filter_by_score(raw, s1);
    let f2 = filter_by_score(raw, s2);
    lemma_filter_score_compose(raw, s1, s2);
    assert(f2 == filter_by_score(f1, s2));
    let cs1 = class_order(f1);
    let cs2 = class_order(f2);
    lemma_class_order_nodup(f1);
    lemma_class_order_nodup(f2);
    lemma_sift_elems(f1, score_pred(s2));
    assert forall|c: i32| #[trigger] cs2.contains(c) implies cs1.contains(c) by {
        lemma_class_order_complete(f2, c);
        let i = choose|i: int| 0 <= i < f2.len() && f2[i].class_id == c;
        assert(f1.contains(f2[i]));
        let j = choose|j: int| 0 <= j < f1.len() && f1[j] == f2[i];
        lemma_class_order_complete(f1, c);
    }
    assert forall|k: int|
        0 <= k < cs1.len() && !cs2.contains(#[trigger] cs1[k]) implies of_class(
        f2,
        cs1[k],
    ).len() == 0 by {
        lemma_class_order_complete(f2, cs1[k]);
        assert(forall|i: int| 0 <= i < f2.len() ==> (#[trigger] f2[i]).class_id != cs1[k]);
        lemma_sift_none(f2, class_pred(cs1[k]));
    }
    lemma_concat_len_same_set(f2, cs1, cs2, nt);
    assert forall|k: int|
        0 <= k < cs1.len() implies nms_class(of_class(f2, #[trigger] cs1[k]), nt).len()
        <= nms_class(of_class(f1, cs1[k]), nt).len() by {
        let c = cs1[k];
        lemma_sift_comm(f1, score_pred(s2), class_pred(c));
        assert(of_class(f2, c) == filter_by_score(of_class(f1, c), s2));
        lemma_nms_score_filter(of_class(f1, c), s2, nt);
        lemma_sift_len(nms_class(of_class(f1, c), nt), score_pred(s2));
    }
    lemma_concat_len_le(f2, f1, cs1, nt, nt);
}

/// Per-class NMS on at most two proposals keeps no fewer of them at a
/// higher overlap threshold.
proof fn lemma_nms_pair_monotone(s: Seq<Detection>, n1: u32, n2: u32)
    requires
        n1 <= n2,
        s.len() <= 2,
    ensures
        nms_class(s, n1).len() <= nms_class(s, n2).len(),
{
    if s.len() == 2 {
        lemma_best_index(s);
        let b = best_index(s);
        let keep = s[b];
        let rest = s.remove(b);
        assert(rest.len() == 1);
        let o = rest[0];
        assert(rest =~= seq![o]);
        assert(seq![o].drop_last() =~= Seq::<Detection>::empty());
        assert(seq![o].last() == o);
        assert(sift(Seq::<Detection>::empty(), survive_pred(keep, n1)) == Seq::<
            Detection,
        >::empty());
        assert(sift(Seq::<Detection>::empty(), survive_pred(keep, n2)) == Seq::<
            Detection,
        >::empty());
        if crate::geometry::iou_exceeds(keep.rect, o.rect, n2) {
            crate::geometry::lemma_iou_exceeds_monotone(keep.rect, o.rect, n1, n2);
            assert(prune(rest, keep, n1) == Seq::<Detection>::empty());
            assert(prune(rest, keep, n2) == Seq::<Detection>::empty());
            assert(nms_class(Seq::<Detection>::empty(), n1) == Seq::<Detection>::empty());
            assert(nms_class(Seq::<Detection>::empty(), n2) == Seq::<Detection>::empty());
            assert(nms_class(s, n1) == seq![keep] + Seq::<Detection>::empty());
            assert(nms_class(s, n2) == seq![keep] + Seq::<Detection>::empty());
        } else {
            let k1 = prune(rest, keep, n1);
            assert(prune(rest, keep, n2) == Seq::<Detection>::empty().push(o));
            assert(Seq::<Detection>::empty().push(o) =~= seq![o]);
            lemma_nms_singleton(o, n2);
            assert(nms_class(s, n2) == seq![keep] + seq![o]);
            assert(nms_class(s, n2).len() == 2);
            if crate::geometry::iou_exceeds(keep.rect, o.rect, n1) {
                assert(k1 == Seq::<Detection>::empty());
                assert(nms_class(Seq::<Detection>::empty(), n1) == Seq::<Detection>::empty());
                assert(nms_class(s, n1) == seq![keep] + Seq::<Detection>::empty());
            } else {
                assert(k1 == Seq::<Detection>::empty().push(o));
                lemma_nms_singleton(o, n1);
                assert(nms_class(s, n1) == seq![keep] + seq![o]);
            }
        }
    } else if s.len() == 1 {
        assert(s =~= seq![s[0]]);
        lemma_nms_singleton(s[0], n1);
        lemma_nms_singleton(s[0], n2);
    } else {
        assert(s.len() == 0);
        assert(nms_class(s, n1) == Seq::<Detection>::empty());
        assert(nms_class(s, n2) == Seq::<Detection>::empty());
    }
}

/// Overlap-threshold monotonicity, on inputs whose classes each hold at
/// most two proposals after score filtering: raising the overlap threshold
/// never decreases the candidate count. With three or more proposals in one
/// class the greedy suppression does not have this property: a higher
/// threshold can free the second-best proposal, which may then suppress
/// several proposals the lower threshold kept.
pub proof fn lemma_nms_threshold_monotone_pairs(raw: Seq<Detection>, st: u32, n1: u32, n2: u32)
    requires
        n1 <= n2,
        forall|c: i32| #[trigger] of_class(filter_by_score(raw, st), c).len() <= 2,
    ensures
        spec_normalize(raw, st, n1).len() <= spec_normalize(raw, st, n2).len(),
{
    let f = filter_by_score(raw, st);
    let cs = class_order(f);
    assert forall|k: int|
        0 <= k < cs.len() implies nms_class(of_class(f, #[trigger] cs[k]), n1).len() <= nms_class(
        of_class(f, cs[k]),
        n2,
    ).len() by {
        assert(of_class(f, cs[k]).len() <= 2);
        lemma_nms_pair_monotone(of_class(f, cs[k]), n1, n2);
    }
    lemma_concat_len_le(f, f, cs, n1, n2);
}

/// NMS of a single proposal keeps exactly that proposal.
pub proof fn lemma_nms_singleton(x: Detection, nt: u32)
    ensures
        nms_class(seq![x], nt) == seq![x],
{
    let s = seq![x];
    assert(best_index(s) == 0);
    assert(s.remove(0) =~= Seq::<Detection>::empty());
    assert(prune(Seq::<Detection>::empty(), x, nt) == Seq::<Detection>::empty());
    assert(nms_class(Seq::<Detection>::empty(), nt) == Seq::<Detection>::empty());
    assert(nms_class(s, nt) == seq![x] + Seq::<Detection>::empty());
    assert(seq![x] + Seq::<Detection>::empty() =~= seq![x]);
}

} // verus!
