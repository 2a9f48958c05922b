//! Region proposal normalizer: confidence filtering followed by class-aware
//! non-maximum suppression (NMS).
//!
//! Proposals are first filtered by score, then partitioned by class id;
//! within each class the highest-scoring proposal (earliest on ties) is
//! selected greedily and every remaining proposal of the same class whose
//! overlap ratio with it exceeds the threshold is suppressed. The output
//! concatenates each class's survivors, classes ordered as first
//! encountered.

use vstd::prelude::*;
use crate::detect::{Detection, SCORE_SCALE};
use crate::geometry::{iou_above, iou_exceeds, IOU_SCALE};
use crate::sift::{lemma_sift_len, lemma_sift_push, sift};

verus! {

/// Keep proposals whose score reaches the threshold.
pub open spec fn score_pred(st: u32) -> spec_fn(Detection) -> bool {
    |d: Detection| d.score >= st
}

/// Keep proposals of the given class.
pub open spec fn class_pred(c: i32) -> spec_fn(Detection) -> bool {
    |d: Detection| d.class_id == c
}

/// Keep proposals that the selected proposal `keep` does not suppress.
pub open spec fn survive_pred(keep: Detection, nt: u32) -> spec_fn(Detection) -> bool {
    |d: Detection| !iou_exceeds(keep.rect, d.rect, nt)
}

/// Proposals whose score reaches the threshold, in order.
pub open spec fn filter_by_score(s: Seq<Detection>, st: u32) -> Seq<Detection> {
    sift(s, score_pred(st))
}

/// Proposals of class `c`, in order.
pub open spec fn of_class(s: Seq<Detection>, c: i32) -> Seq<Detection> {
    sift(s, class_pred(c))
}

/// Proposals not suppressed by `keep`, in order.
pub open spec fn prune(s: Seq<Detection>, keep: Detection, nt: u32) -> Seq<Detection> {
    sift(s, survive_pred(keep, nt))
}

/// Index of the highest-scoring proposal, earliest on ties.
pub open spec fn best_index(s: Seq<Detection>) -> int
    decreases s.len(),
{
    if s.len() <= 1 {
        0
    } else {
        let t = best_index(s.drop_first()) + 1;
        if s[0].score >= s[t].score {
            0
        } else {
            t
        }
    }
}

/// `best_index` names a position in the sequence whose score no other
/// position exceeds, and every strictly earlier position scores strictly
/// less.
pub proof fn lemma_best_index(s: Seq<Detection>)
    requires
        s.len() > 0,
    ensures
        0 <= best_index(s) < s.len(),
        forall|j: int| 0 <= j < s.len() ==> (#[trigger] s[j]).score <= s[best_index(s)].score,
        forall|j: int| 0 <= j < best_index(s) ==> (#[trigger] s[j]).score < s[best_index(s)].score,
    decreases s.len(),
{
    if s.len() > 1 {
        let rest = s.drop_first();
        lemma_best_index(rest);
        let t = best_index(rest) + 1;
        assert(forall|j: int| 0 <= j < rest.len() ==> rest[j] == #[trigger] s[j + 1]);
        assert forall|j: int| 0 <= j < s.len() implies (#[trigger] s[j]).score <= s[best_index(
            s,
        )].score by {
            if j >= 1 {
                assert(rest[j - 1] == s[j]);
                assert(rest[j - 1].score <= rest[t - 1].score);
            }
        }
        assert forall|j: int| 0 <= j < best_index(s) implies (#[trigger] s[j]).score < s[best_index(
            s,
        )].score by {
            if j >= 1 {
                assert(rest[j - 1] == s[j]);
                assert(rest[j - 1].score < rest[t - 1].score);
            }
        }
    }
}

/// Any position that scores at least every other position, with every
/// earlier position scoring strictly less, is `best_index`.
pub proof fn lemma_best_index_unique(s: Seq<Detection>, b: int)
    requires
        0 <= b < s.len(),
        forall|j: int| 0 <= j < s.len() ==> (#[trigger] s[j]).score <= s[b].score,
        forall|j: int| 0 <= j < b ==> (#[trigger] s[j]).score < s[b].score,
    ensures
        b == best_index(s),
{
    lemma_best_index(s);
    let bi = best_index(s);
    if bi < b {
        assert(s[bi].score < s[b].score);
        assert(s[b].score <= s[bi].score);
    } else if b < bi {
        assert(s[b].score < s[bi].score);
        assert(s[bi].score <= s[b].score);
    }
}

/// Greedy per-class NMS: pick the best-scoring proposal, drop every other
/// proposal it suppresses, and repeat on the remainder.
pub open spec fn nms_class(s: Seq<Detection>, nt: u32) -> Seq<Detection>
    decreases s.len(),
    via nms_class_decreases
{
    if s.len() == 0 {
        Seq::empty()
    } else {
        let keep = s[best_index(s)];
        seq![keep] + nms_class(prune(s.remove(best_index(s)), keep, nt), nt)
    }
}

#[via_fn]
proof fn nms_class_decreases(s: Seq<Detection>, nt: u32) {
    if s.len() != 0 {
        lemma_best_index(s);
        let keep = s[best_index(s)];
        lemma_sift_len(s.remove(best_index(s)), survive_pred(keep, nt));
    }
}

/// Distinct class ids in order of first appearance.
pub open spec fn class_order(s: Seq<Detection>) -> Seq<i32>
    decreases s.len(),
{
    if s.len() == 0 {
        Seq::empty()
    } else {
        let prev = class_order(s.drop_last());
        if prev.contains(s.last().class_id) {
            prev
        } else {
            prev.push(s.last().class_id)
        }
    }
}

/// Concatenation of each listed class's NMS survivors, in list order.
pub open spec fn concat_classes(s: Seq<Detection>, cs: Seq<i32>, nt: u32) -> Seq<Detection>
    decreases cs.len(),
{
    if cs.len() == 0 {
        Seq::empty()
    } else {
        concat_classes(s, cs.drop_last(), nt) + nms_class(of_class(s, cs.last()), nt)
    }
}

/// The normalizer: filter by score, then class-aware NMS, output grouped by
/// class in order of first appearance.
pub open spec fn spec_normalize(raw: Seq<Detection>, st: u32, nt: u32) -> Seq<Detection> {
    let f = filter_by_score(raw, st);
    concat_classes(f, class_order(f), nt)
}

/// Proposals whose score reaches the threshold, in their original order.
fn filter_proposals(raw: &Vec<Detection>, st: u32) -> (out: Vec<Detection>)
    ensures
        out@ == filter_by_score(raw@, st),
{
    let mut out: Vec<Detection> = Vec::new();
    let mut i: usize = 0;
    while i < raw.len()
        invariant
            i <= raw.len(),
            out@ == filter_by_score(raw@.take(i as int), st),
        decreases raw.len() - i,
    {
        proof {
            assert(raw@.take(i + 1 as int).drop_last() =~= raw@.take(i as int));
            assert(raw@.take(i + 1 as int) =~= raw@.take(i as int).push(raw@[i as int]));
            lemma_sift_push(raw@.take(i as int), score_pred(st), raw@[i as int]);
        }
        if raw[i].score >= st {
            out.push(raw[i]);
        }
        i = i + 1;
    }
    proof {
        assert(raw@.take(raw@.len() as int) =~= raw@);
    }
    out
}

/// Proposals of class `c`, in their original order.
fn gather_class(f: &Vec<Detection>, c: i32) -> (out: Vec<Detection>)
    ensures
        out@ == of_class(f@, c),
{
    let mut out: Vec<Detection> = Vec::new();
    let mut i: usize = 0;
    while i < f.len()
        invariant
            i <= f.len(),
            out@ == of_class(f@.take(i as int), c),
        decreases f.len() - i,
    {
        proof {
            assert(f@.take(i + 1 as int) =~= f@.take(i as int).push(f@[i as int]));
            lemma_sift_push(f@.take(i as int), class_pred(c), f@[i as int]);
        }
        if f[i].class_id == c {
            out.push(f[i]);
        }
        i = i + 1;
    }
    proof {
        assert(f@.take(f@.len() as int) =~= f@);
    }
    out
}

/// Does the class list already hold `c`?
fn contains_class(cs: &Vec<i32>, c: i32) -> (r: bool)
    ensures
        r == cs@.contains(c),
{
    let mut j: usize = 0;
    while j < cs.len()
        invariant
            j <= cs.len(),
            forall|k: int| 0 <= k < j ==> cs@[k] != c,
        decreases cs.len() - j,
    {
        if cs[j] == c {
            return true;
        }
        j = j + 1;
    }
    false
}

/// Distinct class ids of `f`, in order of first appearance.
fn collect_classes(f: &Vec<Detection>) -> (cs: Vec<i32>)
    ensures
        cs@ == class_order(f@),
{
    let mut cs: Vec<i32> = Vec::new();
    let mut i: usize = 0;
    while i < f.len()
        invariant
            i <= f.len(),
            cs@ == class_order(f@.take(i as int)),
        decreases f.len() - i,
    {
        proof {
            assert(f@.take(i + 1 as int).drop_last() =~= f@.take(i as int));
            assert(f@.take(i + 1 as int).last() == f@[i as int]);
        }
        let c = f[i].class_id;
        if !contains_class(&cs, c) {
            cs.push(c);
        }
        i = i + 1;
    }
    proof {
        assert(f@.take(f@.len() as int) =~= f@);
    }
    cs
}

/// Greedy NMS over the proposals of one class.
fn nms_one_class(members: Vec<Detection>, nt: u32) -> (out: Vec<Detection>)
    ensures
        out@ == nms_class(members@, nt),
{
    let ghost orig = members@;
    let mut work = members;
    let mut out: Vec<Detection> = Vec::new();
    while work.len() > 0
        invariant
            out@ + nms_class(work@, nt) == nms_class(orig, nt),
        decreases work.len(),
    {
        // Select the highest-scoring remaining proposal, earliest on ties.
        let mut b: usize = 0;
        let mut j: usize = 1;
        while j < work.len()
            invariant
                0 < j <= work.len(),
                b < j,
                forall|k: int| 0 <= k < j ==> (#[trigger] work@[k]).score <= work@[b as int].score,
                forall|k: int| 0 <= k < b ==> (#[trigger] work@[k]).score < work@[b as int].score,
            decreases work.len() - j,
        {
            if work[j].score > work[b].score {
                b = j;
            }
            j = j + 1;
        }
        proof {
            lemma_best_index_unique(work@, b as int);
        }
        let keep = work[b];
        // Drop the selection and everything it suppresses.
        let mut next: Vec<Detection> = Vec::new();
        let mut k: usize = 0;
        while k < work.len()
            invariant
                k <= work.len(),
                b < work.len(),
                keep == work@[b as int],
                k <= b ==> next@ == prune(work@.subrange(0, k as int), keep, nt),
                k > b ==> next@ == prune(
                    work@.subrange(0, b as int) + work@.subrange(b as int + 1, k as int),
                    keep,
                    nt,
                ),
            decreases work.len() - k,
        {
            proof {
                if k < b {
                    assert(work@.subrange(0, k + 1 as int) =~= work@.subrange(0, k as int).push(
                        work@[k as int],
                    ));
                    lemma_sift_push(
                        work@.subrange(0, k as int),
                        survive_pred(keep, nt),
                        work@[k as int],
                    );
                } else if k == b {
                    assert(work@.subrange(0, b as int) + work@.subrange(b as int + 1, k + 1 as int)
                        =~= work@.subrange(0, k as int));
                } else {
                    assert(work@.subrange(0, b as int) + work@.subrange(b as int + 1, k + 1 as int)
                        =~= (work@.subrange(0, b as int) + work@.subrange(
                        b as int + 1,
                        k as int,
                    )).push(work@[k as int]));
                    lemma_sift_push(
                        work@.subrange(0, b as int) + work@.subrange(b as int + 1, k as int),
                        survive_pred(keep, nt),
                        work@[k as int],
                    );
                }
            }
            if k != b {
                if !iou_above(&keep.rect, &work[k].rect, nt) {
                    next.push(work[k]);
                }
            }
            k = k + 1;
        }
        proof {
            assert(next@ == prune(work@.remove(b as int), keep, nt));
            assert(nms_class(work@, nt) == seq![keep] + nms_class(
                prune(work@.remove(b as int), keep, nt),
                nt,
            ));
            assert(out@ + nms_class(work@, nt) == (out@ + seq![keep]) + nms_class(next@, nt)) by {
                assert(out@ + (seq![keep] + nms_class(next@, nt)) =~= (out@ + seq![keep])
                    + nms_class(next@, nt));
            }
            assert(out@.push(keep) =~= out@ + seq![keep]);
            lemma_sift_len(work@.remove(b as int), survive_pred(keep, nt));
        }
        out.push(keep);
        work = next;
    }
    proof {
        assert(out@ + nms_class(work@, nt) =~= out@);
    }
    out
}

/// Normalize raw detector proposals: drop every proposal scoring below
/// `score_threshold`, then suppress, per class, every proposal whose overlap
/// ratio with a higher-scoring surviving proposal of the same class exceeds
/// `nms_threshold / IOU_SCALE`. Survivors are grouped by class in order of
/// first appearance; within a class they are ordered by descending score,
/// earliest first on ties. Suppression never crosses class boundaries, and
/// the output is a pure function of the inputs.
pub fn normalize(raw: &Vec<Detection>, score_threshold: u32, nms_threshold: u32) -> (out: Vec<
    Detection,
>)
    requires
        score_threshold <= SCORE_SCALE,
        nms_threshold <= IOU_SCALE,
    ensures
        out@ == spec_normalize(raw@, score_threshold, nms_threshold),
{
    let f = filter_proposals(raw, score_threshold);
    let classes = collect_classes(&f);
    let mut out: Vec<Detection> = Vec::new();
    let mut i: usize = 0;
    while i < classes.len()
        invariant
            i <= classes.len(),
            f@ == filter_by_score(raw@, score_threshold),
            classes@ == class_order(f@),
            out@ == concat_classes(f@, classes@.take(i as int), nms_threshold),
        decreases classes.len() - i,
    {
        proof {
            assert(classes@.take(i + 1 as int).drop_last() =~= classes@.take(i as int));
            assert(classes@.take(i + 1 as int).last() == classes@[i as int]);
        }
        let members = gather_class(&f, classes[i]);
        let mut sel = nms_one_class(members, nms_threshold);
        out.append(&mut sel);
        i = i + 1;
    }
    proof {
        assert(classes@.take(classes@.len() as int) =~= classes@);
    }
    out
}

} // verus!
