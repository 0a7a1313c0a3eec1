//! Greedy per-class non-maximum suppression.
use vstd::prelude::*;
use crate::geometry::{
    TargetBox, IouThreshold, iou_gt, iou_exceeds, lemma_iou_symmetric, well_formed, intersection_spec,
    union_spec, overlap_len,
};
use crate::score::{score_key, order_key, is_nan};

verus! {

/// `s` with `x` placed after every element whose score is not below `x`'s
/// and before the rest: the step of a stable sort by descending score.
pub open spec fn insert_desc(s: Seq<TargetBox>, x: TargetBox) -> Seq<TargetBox>
    decreases s.len(),
{
    if s.len() == 0 {
        seq![x]
    } else if score_key(s.last().score) >= score_key(x.score) {
        s.push(x)
    } else {
        insert_desc(s.drop_last(), x).push(s.last())
    }
}

/// Stable sort by descending score.
pub open spec fn sort_desc(s: Seq<TargetBox>) -> Seq<TargetBox>
    decreases s.len(),
{
    if s.len() == 0 {
        s
    } else {
        insert_desc(sort_desc(s.drop_last()), s.last())
    }
}

/// Scores never increase along `s`.
pub open spec fn sorted_desc(s: Seq<TargetBox>) -> bool {
    forall|i: int, j: int| 0 <= i < j < s.len() ==> score_key(#[trigger] s[i].score) >= score_key(#[trigger] s[j].score)
}

/// Some box already in `kept` has the class of `b` and overlaps it above `t`.
pub open spec fn blocked(kept: Seq<TargetBox>, b: TargetBox, t: IouThreshold) -> bool {
    exists|j: int| 0 <= j < kept.len() && (#[trigger] kept[j]).class == b.class && iou_gt(b, kept[j], t)
}

/// Walk `s` in order and keep each box that no box kept before it blocks.
pub open spec fn greedy(s: Seq<TargetBox>, t: IouThreshold) -> Seq<TargetBox>
    decreases s.len(),
{
    if s.len() == 0 {
        s
    } else {
        let kept = greedy(s.drop_last(), t);
        if blocked(kept, s.last(), t) {
            kept
        } else {
            kept.push(s.last())
        }
    }
}

/// Non-maximum suppression: sort by descending score, then keep greedily.
pub open spec fn suppress(s: Seq<TargetBox>, t: IouThreshold) -> Seq<TargetBox> {
    greedy(sort_desc(s), t)
}

/// No two boxes of one class overlap above `t`, in either order.
pub open spec fn pairwise_apart(s: Seq<TargetBox>, t: IouThreshold) -> bool {
    forall|i: int, j: int|
        0 <= i < s.len() && 0 <= j < s.len() && i != j && (#[trigger] s[i]).class == (#[trigger] s[j]).class
            ==> !iou_gt(s[i], s[j], t)
}

/// No later box of one class overlaps an earlier one above `t`.
pub open spec fn forward_apart(s: Seq<TargetBox>, t: IouThreshold) -> bool {
    forall|i: int, j: int|
        0 <= i < j < s.len() && (#[trigger] s[i]).class == (#[trigger] s[j]).class ==> !iou_gt(s[j], s[i], t)
}

pub open spec fn all_at_least(s: Seq<TargetBox>, m: int) -> bool {
    forall|i: int| 0 <= i < s.len() ==> score_key(#[trigger] s[i].score) >= m
}

proof fn lemma_insert_bound(s: Seq<TargetBox>, x: TargetBox, m: int)
    requires
        all_at_least(s, m),
        score_key(x.score) >= m,
    ensures
        all_at_least(insert_desc(s, x), m),
        insert_desc(s, x).len() == s.len() + 1,
    decreases s.len(),
{
    if s.len() > 0 && score_key(s.last().score) < score_key(x.score) {
        lemma_insert_bound(s.drop_last(), x, m);
    }
}

proof fn lemma_insert_sorted(s: Seq<TargetBox>, x: TargetBox)
    requires
        sorted_desc(s),
    ensures
        sorted_desc(insert_desc(s, x)),
    decreases s.len(),
{
    if s.len() > 0 && score_key(s.last().score) < score_key(x.score) {
        let p = s.drop_last();
        lemma_insert_sorted(p, x);
        lemma_insert_bound(p, x, score_key(s.last().score));
    }
}

proof fn lemma_sort_sorted(s: Seq<TargetBox>)
    ensures
        sorted_desc(sort_desc(s)),
        sort_desc(s).len() == s.len(),
    decreases s.len(),
{
    if s.len() > 0 {
        lemma_sort_sorted(s.drop_last());
        lemma_insert_sorted(sort_desc(s.drop_last()), s.last());
        lemma_insert_bound(sort_desc(s.drop_last()), s.last(), score_key(s.last().score) - 1 - 0x1_0000_0000);
    }
}

/// Sorting an already sorted sequence leaves it as it is.
proof fn lemma_sort_sorted_id(s: Seq<TargetBox>)
    requires
        sorted_desc(s),
    ensures
        sort_desc(s) == s,
    decreases s.len(),
{
    if s.len() > 0 {
        let p = s.drop_last();
        lemma_sort_sorted_id(p);
        if p.len() > 0 {
            assert(score_key(p.last().score) >= score_key(s.last().score)) by {
                assert(p.last() == s[s.len() - 2]);
            }
        }
        assert(p.push(s.last()) =~= s);
    }
}

proof fn lemma_greedy_bound(s: Seq<TargetBox>, t: IouThreshold, m: int)
    requires
        all_at_least(s, m),
    ensures
        all_at_least(greedy(s, t), m),
        greedy(s, t).len() <= s.len(),
    decreases s.len(),
{
    if s.len() > 0 {
        lemma_greedy_bound(s.drop_last(), t, m);
    }
}

proof fn lemma_greedy_sorted(s: Seq<TargetBox>, t: IouThreshold)
    requires
        sorted_desc(s),
    ensures
        sorted_desc(greedy(s, t)),
    decreases s.len(),
{
    if s.len() > 0 {
        let p = s.drop_last();
        lemma_greedy_sorted(p, t);
        assert(all_at_least(p, score_key(s.last().score)));
        lemma_greedy_bound(p, t, score_key(s.last().score));
    }
}

proof fn lemma_greedy_apart(s: Seq<TargetBox>, t: IouThreshold)
    ensures
        forward_apart(greedy(s, t), t),
    decreases s.len(),
{
    if s.len() > 0 {
        lemma_greedy_apart(s.drop_last(), t);
        let kept = greedy(s.drop_last(), t);
        if !blocked(kept, s.last(), t) {
            let g = kept.push(s.last());
            assert forall|i: int, j: int|
                0 <= i < j < g.len() && (#[trigger] g[i]).class == (#[trigger] g[j]).class implies !iou_gt(g[j], g[i], t) by {
                if j == g.len() - 1 {
                    assert(kept[i] == g[i]);
                } else {
                    assert(kept[i] == g[i] && kept[j] == g[j]);
                }
            }
        }
    }
}

/// A sequence whose boxes are already apart passes the greedy walk whole.
proof fn lemma_greedy_id(s: Seq<TargetBox>, t: IouThreshold)
    requires
        forward_apart(s, t),
    ensures
        greedy(s, t) == s,
    decreases s.len(),
{
    if s.len() > 0 {
        let p = s.drop_last();
        assert(forward_apart(p, t)) by {
            assert forall|i: int, j: int| 0 <= i < j < p.len() && (#[trigger] p[i]).class == (#[trigger] p[j]).class
                implies !iou_gt(p[j], p[i], t) by {
                assert(p[i] == s[i] && p[j] == s[j]);
            }
        }
        lemma_greedy_id(p, t);
        assert(!blocked(p, s.last(), t)) by {
            assert forall|j: int| 0 <= j < p.len() && (#[trigger] p[j]).class == s.last().class
                implies !iou_gt(s.last(), p[j], t) by {
                assert(p[j] == s[j]);
            }
        }
        assert(p.push(s.last()) =~= s);
    }
}

/// Suppression is idempotent: what survives it once survives it again,
/// unchanged and in the same order.
pub proof fn lemma_suppress_idempotent(s: Seq<TargetBox>, t: IouThreshold)
    ensures
        suppress(suppress(s, t), t) == suppress(s, t),
{
    let g = suppress(s, t);
    lemma_sort_sorted(s);
    lemma_greedy_sorted(sort_desc(s), t);
    lemma_sort_sorted_id(g);
    lemma_greedy_apart(sort_desc(s), t);
    lemma_greedy_id(g, t);
}

/// Suppression never adds boxes.
pub proof fn lemma_suppress_len(s: Seq<TargetBox>, t: IouThreshold)
    ensures
        suppress(s, t).len() <= s.len(),
{
    lemma_sort_sorted(s);
    lemma_greedy_bound(sort_desc(s), t, -0x1_0000_0000);
}

/// No two survivors of suppression share a class and overlap above the threshold.
pub proof fn lemma_suppress_apart(s: Seq<TargetBox>, t: IouThreshold)
    ensures
        pairwise_apart(suppress(s, t), t),
{
    let g = suppress(s, t);
    lemma_greedy_apart(sort_desc(s), t);
    assert forall|i: int, j: int|
        0 <= i < g.len() && 0 <= j < g.len() && i != j && (#[trigger] g[i]).class == (#[trigger] g[j]).class
            implies !iou_gt(g[i], g[j], t) by {
        lemma_iou_symmetric(g[i], g[j]);
    }
}

/// Places `x` into `v`, which is already sorted by descending score, after
/// every box whose score is not below its own.
fn insert_by_score(v: &mut Vec<TargetBox>, x: TargetBox)
    ensures
        final(v)@ == insert_desc(old(v)@, x),
{
    let k = order_key(x.score);
    let mut p: usize = v.len();
    assert(v@.subrange(0, v@.len() as int) =~= v@);
    assert(v@ + v@.subrange(v@.len() as int, v@.len() as int) =~= v@);
    while p > 0
        invariant
            p <= v.len(),
            v@ == old(v)@,
            k == score_key(x.score),
            insert_desc(v@, x) == insert_desc(v@.subrange(0, p as int), x) + v@.subrange(p as int, v@.len() as int),
        ensures
            p <= v.len(),
            v@ == old(v)@,
            insert_desc(v@, x) == insert_desc(v@.subrange(0, p as int), x) + v@.subrange(p as int, v@.len() as int),
            p == 0 || score_key(v@[p - 1].score) >= score_key(x.score),
        decreases p,
    {
        if order_key(v[p - 1].score) >= k {
            break;
        }
        proof {
            let s = v@.subrange(0, p as int);
            assert(s.last() == v@[p - 1]);
            assert(s.drop_last() =~= v@.subrange(0, p - 1));
            assert(insert_desc(s, x) == insert_desc(s.drop_last(), x).push(s.last()));
            assert(insert_desc(v@.subrange(0, p - 1), x).push(v@[p - 1]) + v@.subrange(p as int, v@.len() as int)
                =~= insert_desc(v@.subrange(0, p - 1), x) + v@.subrange(p - 1, v@.len() as int));
        }
        p = p - 1;
    }
    proof {
        let s = v@.subrange(0, p as int);
        if p == 0 {
            assert(insert_desc(s, x) == seq![x]);
        } else {
            assert(s.last() == v@[p - 1]);
            assert(insert_desc(s, x) == s.push(x));
        }
        assert(insert_desc(s, x) + v@.subrange(p as int, v@.len() as int) =~= v@.insert(p as int, x));
    }
    v.insert(p, x);
}

/// Non-maximum suppression. The boxes are ordered by descending score (boxes
/// of equal score keep their input order); each is then kept unless a box
/// already kept has its class and an IoU with it strictly above
/// `nms_threshold`. The input is not changed. Scores must not be NaN: a
/// decoder never produces one.
pub fn nms_handle(boxes: &[TargetBox], nms_threshold: IouThreshold) -> (picked: Vec<TargetBox>)
    requires
        nms_threshold.wf(),
        forall|i: int| 0 <= i < boxes@.len() ==> !is_nan(#[trigger] boxes@[i].score),
    ensures
        picked@ == suppress(boxes@, nms_threshold),
        picked@.len() <= boxes@.len(),
        pairwise_apart(picked@, nms_threshold),
{
    let t = nms_threshold;
    let mut sorted: Vec<TargetBox> = Vec::new();
    let mut i: usize = 0;
    while i < boxes.len()
        invariant
            i <= boxes@.len(),
            sorted@ == sort_desc(boxes@.subrange(0, i as int)),
        decreases boxes@.len() - i,
    {
        proof {
            assert(boxes@.subrange(0, i + 1).drop_last() =~= boxes@.subrange(0, i as int));
        }
        insert_by_score(&mut sorted, boxes[i]);
        i = i + 1;
    }
    assert(boxes@.subrange(0, boxes@.len() as int) =~= boxes@);
    let mut picked: Vec<TargetBox> = Vec::new();
    let mut i: usize = 0;
    while i < sorted.len()
        invariant
            i <= sorted@.len(),
            sorted@ == sort_desc(boxes@),
            picked@ == greedy(sorted@.subrange(0, i as int), t),
            t.wf(),
        decreases sorted@.len() - i,
    {
        let b = sorted[i];
        let mut keep = true;
        let mut j: usize = 0;
        while j < picked.len()
            invariant
                j <= picked@.len(),
                t.wf(),
                keep ==> forall|k: int| 0 <= k < j ==> !((#[trigger] picked@[k]).class == b.class && iou_gt(b, picked@[k], t)),
                !keep ==> blocked(picked@, b, t),
            ensures
                keep ==> !blocked(picked@, b, t),
                !keep ==> blocked(picked@, b, t),
            decreases picked@.len() - j,
        {
            if iou_exceeds(&b, &picked[j], &t) && b.class == picked[j].class {
                keep = false;
                break;
            }
            j = j + 1;
        }
        proof {
            let s = sorted@.subrange(0, i + 1);
            assert(s.drop_last() =~= sorted@.subrange(0, i as int));
            assert(s.last() == b);
        }
        if keep {
            picked.push(b);
        }
        i = i + 1;
    }
    assert(sorted@.subrange(0, sorted@.len() as int) =~= sorted@);
    proof {
        lemma_suppress_len(boxes@, t);
        lemma_suppress_apart(boxes@, t);
    }
    picked
}

/// For boxes with ordered corners the overlap is no larger than either box.
proof fn lemma_intersection_within(a: TargetBox, b: TargetBox)
    requires
        well_formed(a),
        well_formed(b),
    ensures
        0 <= intersection_spec(a, b) <= a.area_spec(),
        intersection_spec(a, b) <= b.area_spec(),
        union_spec(a, b) >= intersection_spec(a, b),
{
    let ow = overlap_len(a.x1 as int, a.x2 as int, b.x1 as int, b.x2 as int);
    let oh = overlap_len(a.y1 as int, a.y2 as int, b.y1 as int, b.y2 as int);
    assert(0 <= ow * oh <= a.width_spec() * a.height_spec()) by (nonlinear_arith)
        requires
            0 <= ow <= a.width_spec(),
            0 <= oh <= a.height_spec(),
    ;
    assert(ow * oh <= b.width_spec() * b.height_spec()) by (nonlinear_arith)
        requires
            0 <= ow <= b.width_spec(),
            0 <= oh <= b.height_spec(),
    ;
}

/// The two orders in which a pair can leave the sort.
proof fn lemma_sort_pair(a: TargetBox, b: TargetBox)
    ensures
        sort_desc(seq![a, b]) == if score_key(b.score) > score_key(a.score) { seq![b, a] } else { seq![a, b] },
{
    let s = seq![a, b];
    assert(s.drop_last() =~= seq![a]);
    assert(seq![a].drop_last() =~= Seq::<TargetBox>::empty());
    assert(sort_desc(Seq::<TargetBox>::empty()) == Seq::<TargetBox>::empty());
    assert(insert_desc(Seq::<TargetBox>::empty(), a) == seq![a]);
    assert(seq![a].last() == a);
    assert(sort_desc(seq![a]) == seq![a]);
    assert(seq![a].push(b) =~= s);
    if score_key(b.score) > score_key(a.score) {
        assert(insert_desc(Seq::<TargetBox>::empty(), b) == seq![b]);
        assert(seq![b].push(a) =~= seq![b, a]);
    }
}

/// The greedy walk over a pair keeps the second box exactly when the first does
/// not block it.
proof fn lemma_greedy_pair(p: TargetBox, q: TargetBox, t: IouThreshold)
    ensures
        greedy(seq![p, q], t) == if p.class == q.class && iou_gt(q, p, t) { seq![p] } else { seq![p, q] },
{
    let s = seq![p, q];
    assert(s.drop_last() =~= seq![p]);
    assert(seq![p].drop_last() =~= Seq::<TargetBox>::empty());
    assert(Seq::<TargetBox>::empty().push(p) =~= seq![p]);
    assert(seq![p].last() == p);
    assert(greedy(Seq::<TargetBox>::empty(), t) == Seq::<TargetBox>::empty());
    assert(!blocked(Seq::<TargetBox>::empty(), p, t));
    assert(greedy(seq![p], t) == seq![p]);
    assert(seq![p][0] == p);
    assert(seq![p].push(q) =~= s);
}

/// With a threshold of 0, of two boxes of one class that share a region of
/// positive area only the higher-scoring one survives (the first one when the
/// scores are equal).
pub proof fn lemma_zero_threshold_pair(a: TargetBox, b: TargetBox)
    requires
        well_formed(a),
        well_formed(b),
        a.class == b.class,
        intersection_spec(a, b) > 0,
    ensures
        suppress(seq![a, b], IouThreshold { num: 0, den: 1 })
            == if score_key(b.score) > score_key(a.score) { seq![b] } else { seq![a] },
{
    let t = IouThreshold { num: 0, den: 1 };
    lemma_intersection_within(a, b);
    lemma_iou_symmetric(a, b);
    lemma_sort_pair(a, b);
    let i = intersection_spec(a, b);
    let u = union_spec(a, b);
    assert(u > 0);
    assert(i * 1 > 0 * u);
    assert(iou_gt(a, b, t));
    if score_key(b.score) > score_key(a.score) {
        lemma_greedy_pair(b, a, t);
    } else {
        lemma_greedy_pair(a, b, t);
    }
}

/// With a threshold of 1, two boxes with ordered corners both survive: their
/// IoU is never above 1.
pub proof fn lemma_unit_threshold_pair(a: TargetBox, b: TargetBox)
    requires
        well_formed(a),
        well_formed(b),
    ensures
        suppress(seq![a, b], IouThreshold { num: 1, den: 1 })
            == if score_key(b.score) > score_key(a.score) { seq![b, a] } else { seq![a, b] },
{
    let t = IouThreshold { num: 1, den: 1 };
    lemma_intersection_within(a, b);
    lemma_iou_symmetric(a, b);
    lemma_sort_pair(a, b);
    let i = intersection_spec(a, b);
    let u = union_spec(a, b);
    assert(u >= i >= 0);
    assert(!(i * 1 > 1 * u));
    assert(!iou_gt(a, b, t));
    if score_key(b.score) > score_key(a.score) {
        lemma_greedy_pair(b, a, t);
    } else {
        lemma_greedy_pair(a, b, t);
    }
}

} // verus!
