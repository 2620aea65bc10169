//! Soft non-maximum suppression with Gaussian score decay (`sigma = 0.5`):
//! rounds of extracting the highest-scoring box and decaying every remaining
//! box's score by `e^(-iou^2 / sigma)`.

use crate::bbox::{iou, iou_spec, lemma_iou_range, BBox};
use crate::fixed::{exp_neg_q, exp_neg_spec, lemma_exp_neg_range, SCALE};
use vstd::arithmetic::div_mod::{
    lemma_div_is_ordered, lemma_div_multiples_vanish, lemma_div_pos_is_pos,
};
use vstd::arithmetic::mul::{lemma_mul_is_commutative, lemma_mul_nonnegative};
use vstd::prelude::*;

verus! {

/// The score left after Gaussian decay with `sigma = 0.5`: the exponent is
/// `iou^2 / sigma == 2 * iou^2`, and both the decay factor and the product
/// are fixed-point operations.
pub open spec fn decay_spec(score: int, iou_v: int) -> int {
    (score * exp_neg_spec((2 * iou_v * iou_v) / (SCALE as int))) / (SCALE as int)
}

/// Decay never raises a score and never makes it negative.
pub proof fn lemma_decay_range(score: int, iou_v: int)
    requires
        0 <= score <= SCALE,
        0 <= iou_v <= SCALE,
    ensures
        0 <= decay_spec(score, iou_v) <= score,
{
    let t = (2 * iou_v * iou_v) / (SCALE as int);
    assert(0 <= 2 * iou_v * iou_v <= 2 * 65536 * 65536) by (nonlinear_arith)
        requires
            0 <= iou_v <= 65536,
    ;
    lemma_div_pos_is_pos(2 * iou_v * iou_v, 65536);
    lemma_div_is_ordered(2 * iou_v * iou_v, 2int * 65536 * 65536, 65536);
    assert(2int * 65536 * 65536 / 65536 == 2 * 65536);
    lemma_exp_neg_range(t);
    let e = exp_neg_spec(t);
    lemma_mul_nonnegative(score, e);
    if score > 0 {
        vstd::arithmetic::mul::lemma_mul_left_inequality(score, e, SCALE as int);
        lemma_div_pos_is_pos(score * e, 65536);
        lemma_div_is_ordered(score * e, score * 65536, 65536);
        lemma_mul_is_commutative(score, 65536);
        lemma_div_multiples_vanish(score, 65536);
    } else {
        assert(score * e == 0) by (nonlinear_arith)
            requires
                score == 0,
        ;
    }
}

/// The box `b` with its score decayed against the kept box `m`.
pub open spec fn decay_box(m: BBox, b: BBox) -> BBox {
    BBox {
        x_min: b.x_min,
        y_min: b.y_min,
        x_max: b.x_max,
        y_max: b.y_max,
        score: decay_spec(b.score as int, iou_spec(m, b)) as i64,
    }
}

/// Applies Gaussian score decay to `b` against the kept box `m`.
pub fn decay(m: &BBox, b: &BBox) -> (r: BBox)
    requires
        m.wf(),
        b.wf(),
    ensures
        r == decay_box(*m, *b),
        r.wf(),
        r.score <= b.score,
{
    let iou_v = iou(m, b);
    proof {
        lemma_iou_range(*m, *b);
        lemma_decay_range(b.score as int, iou_v as int);
        assert(0 <= 2 * (iou_v as int) * (iou_v as int) <= 2 * 65536 * 65536) by (nonlinear_arith)
            requires
                0 <= iou_v <= 65536,
        ;
        lemma_div_pos_is_pos(2 * (iou_v as int) * (iou_v as int), 65536);
        lemma_div_is_ordered(2 * (iou_v as int) * (iou_v as int), 2int * 65536 * 65536, 65536);
        assert(2int * 65536 * 65536 / 65536 == 2 * 65536);
        lemma_exp_neg_range((2 * (iou_v as int) * (iou_v as int)) / 65536);
        lemma_mul_nonnegative(b.score as int, exp_neg_spec(
            (2 * (iou_v as int) * (iou_v as int)) / 65536,
        ));
    }
    let t: u64 = 2 * (iou_v as u64) * (iou_v as u64) / 65536;
    let e = exp_neg_q(t as i64);
    let ns: u64 = ((b.score as u64) * (e as u64)) / 65536;
    BBox {
        x_min: b.x_min,
        y_min: b.y_min,
        x_max: b.x_max,
        y_max: b.y_max,
        score: ns as i64,
    }
}

/// The index of the first box holding the maximal score.
pub open spec fn argmax_box(s: Seq<BBox>) -> int
    decreases s.len(),
{
    if s.len() <= 1 {
        0
    } else {
        let rest = 1 + argmax_box(s.drop_first());
        if s[0].score >= s[rest].score {
            0
        } else {
            rest
        }
    }
}

/// `argmax_box` points at a maximal score and at the first index holding it.
pub proof fn lemma_argmax_box(s: Seq<BBox>)
    requires
        s.len() >= 1,
    ensures
        0 <= argmax_box(s) < s.len(),
        forall|i: int| 0 <= i < s.len() ==> (#[trigger] s[i]).score <= s[argmax_box(s)].score,
        forall|i: int| 0 <= i < argmax_box(s) ==> (#[trigger] s[i]).score < s[argmax_box(s)].score,
    decreases s.len(),
{
    if s.len() > 1 {
        let t = s.drop_first();
        lemma_argmax_box(t);
        let a = argmax_box(s);
        assert forall|i: int| 0 <= i < s.len() implies (#[trigger] s[i]).score <= s[a].score by {
            if i >= 1 {
                assert(t[i - 1] == s[i]);
            }
        }
        assert forall|i: int| 0 <= i < a implies (#[trigger] s[i]).score < s[a].score by {
            if i >= 1 {
                assert(t[i - 1] == s[i]);
            }
        }
    }
}

/// Soft non-maximum suppression of a box list: extract the first
/// highest-scoring box, decay every remaining box's score against it, and
/// repeat until nothing remains; kept boxes appear in extraction order.
pub open spec fn soft_nms_spec(s: Seq<BBox>) -> Seq<BBox>
    decreases s.len(),
{
    if s.len() == 0 {
        Seq::<BBox>::empty()
    } else {
        let a = argmax_box(s);
        if 0 <= a < s.len() {
            let m = s[a];
            seq![m] + soft_nms_spec(s.remove(a).map_values(|b: BBox| decay_box(m, b)))
        } else {
            Seq::<BBox>::empty()
        }
    }
}

/// Law: soft-NMS keeps exactly as many boxes as it was given.
pub proof fn lemma_soft_nms_len(s: Seq<BBox>)
    ensures
        soft_nms_spec(s).len() == s.len(),
    decreases s.len(),
{
    if s.len() > 0 {
        lemma_argmax_box(s);
        let a = argmax_box(s);
        let m = s[a];
        lemma_soft_nms_len(s.remove(a).map_values(|b: BBox| decay_box(m, b)));
    }
}

/// Decayed well-formed boxes are well-formed and keep their geometry.
pub proof fn lemma_decay_box_wf(m: BBox, b: BBox)
    requires
        m.wf(),
        b.wf(),
    ensures
        decay_box(m, b).wf(),
        decay_box(m, b).score <= b.score,
{
    lemma_iou_range(m, b);
    lemma_decay_range(b.score as int, iou_spec(m, b));
}

/// Law: every score soft-NMS emits is bounded by any bound on the input
/// scores.
pub proof fn lemma_soft_nms_score_bound(s: Seq<BBox>, bound: int)
    requires
        forall|i: int| 0 <= i < s.len() ==> (#[trigger] s[i]).wf(),
        forall|i: int| 0 <= i < s.len() ==> (#[trigger] s[i]).score <= bound,
    ensures
        forall|i: int|
            0 <= i < soft_nms_spec(s).len() ==> (#[trigger] soft_nms_spec(s)[i]).score <= bound,
    decreases s.len(),
{
    if s.len() > 0 {
        lemma_argmax_box(s);
        let a = argmax_box(s);
        let m = s[a];
        let rest = s.remove(a).map_values(|b: BBox| decay_box(m, b));
        assert forall|i: int| 0 <= i < rest.len() implies (#[trigger] rest[i]).wf()
            && rest[i].score <= bound by {
            let orig = s.remove(a)[i];
            if i < a {
                assert(s[i] == orig);
            } else {
                assert(s[i + 1] == orig);
            }
            lemma_decay_box_wf(m, orig);
        }
        lemma_soft_nms_score_bound(rest, bound);
        lemma_soft_nms_len(rest);
        let out = soft_nms_spec(s);
        assert forall|i: int| 0 <= i < out.len() implies (#[trigger] out[i]).score <= bound by {
            if i > 0 {
                assert(out[i] == soft_nms_spec(rest)[i - 1]);
            }
        }
    }
}

/// Law: soft-NMS emits well-formed boxes whose scores never increase along
/// the output order.
pub proof fn lemma_soft_nms_sorted(s: Seq<BBox>)
    requires
        forall|i: int| 0 <= i < s.len() ==> (#[trigger] s[i]).wf(),
    ensures
        forall|i: int| 0 <= i < soft_nms_spec(s).len() ==> (#[trigger] soft_nms_spec(s)[i]).wf(),
        forall|i: int, j: int|
            0 <= i < j < soft_nms_spec(s).len() ==> (#[trigger] soft_nms_spec(s)[i]).score >= (
            #[trigger] soft_nms_spec(s)[j]).score,
    decreases s.len(),
{
    if s.len() > 0 {
        lemma_argmax_box(s);
        let a = argmax_box(s);
        let m = s[a];
        let rest = s.remove(a).map_values(|b: BBox| decay_box(m, b));
        assert forall|i: int| 0 <= i < rest.len() implies (#[trigger] rest[i]).wf()
            && rest[i].score <= m.score by {
            let orig = s.remove(a)[i];
            if i < a {
                assert(s[i] == orig);
            } else {
                assert(s[i + 1] == orig);
            }
            lemma_decay_box_wf(m, orig);
        }
        lemma_soft_nms_sorted(rest);
        lemma_soft_nms_score_bound(rest, m.score as int);
        lemma_soft_nms_len(rest);
        let out = soft_nms_spec(s);
        assert forall|i: int, j: int|
            0 <= i < j < out.len() implies (#[trigger] out[i]).score >= (
        #[trigger] out[j]).score by {
            if i == 0 {
                assert(out[j] == soft_nms_spec(rest)[j - 1]);
            } else {
                assert(out[i] == soft_nms_spec(rest)[i - 1]);
                assert(out[j] == soft_nms_spec(rest)[j - 1]);
            }
        }
    }
}

/// The index of the first maximal-score box of a nonempty vector.
fn find_max_box(v: &Vec<BBox>) -> (a: usize)
    requires
        v@.len() >= 1,
    ensures
        a as int == argmax_box(v@),
{
    let mut best: usize = 0;
    let mut i: usize = 1;
    while i < v.len()
        invariant
            1 <= i <= v@.len(),
            best < i,
            forall|j: int| 0 <= j < i ==> (#[trigger] v@[j]).score <= v@[best as int].score,
            forall|j: int| 0 <= j < best ==> (#[trigger] v@[j]).score < v@[best as int].score,
        decreases v@.len() - i,
    {
        if v[i].score > v[best].score {
            best = i;
        }
        i = i + 1;
    }
    proof {
        lemma_argmax_box(v@);
        let a = argmax_box(v@);
        if a < best {
            assert(v@[a].score < v@[best as int].score);
        }
        if best < a {
            assert(v@[best as int].score < v@[a].score);
        }
    }
    best
}

/// Runs soft non-maximum suppression over a list of well-formed boxes.
/// The output has the input's length, its boxes are well-formed, and its
/// scores never increase along the list.
pub fn soft_nms(boxes: Vec<BBox>) -> (r: Vec<BBox>)
    requires
        forall|i: int| 0 <= i < boxes@.len() ==> (#[trigger] boxes@[i]).wf(),
    ensures
        r@ == soft_nms_spec(boxes@),
        r@.len() == boxes@.len(),
        forall|i: int| 0 <= i < r@.len() ==> (#[trigger] r@[i]).wf(),
        forall|i: int, j: int|
            0 <= i < j < r@.len() ==> (#[trigger] r@[i]).score >= (#[trigger] r@[j]).score,
{
    proof {
        lemma_soft_nms_len(boxes@);
        lemma_soft_nms_sorted(boxes@);
    }
    let mut pool = boxes;
    let mut keep: Vec<BBox> = Vec::new();
    while pool.len() > 0
        invariant
            forall|i: int| 0 <= i < pool@.len() ==> (#[trigger] pool@[i]).wf(),
            soft_nms_spec(boxes@) == keep@ + soft_nms_spec(pool@),
        decreases pool@.len(),
    {
        let a = find_max_box(&pool);
        proof {
            lemma_argmax_box(pool@);
        }
        let ghost before = pool@;
        let m = pool.remove(a);
        let ghost removed = pool@;
        let mut i: usize = 0;
        while i < pool.len()
            invariant
                m.wf(),
                pool@.len() == removed.len(),
                forall|j: int| 0 <= j < removed.len() ==> (#[trigger] removed[j]).wf(),
                i <= pool@.len(),
                forall|j: int| 0 <= j < i ==> pool@[j] == decay_box(m, #[trigger] removed[j]),
                forall|j: int| i <= j < pool@.len() ==> #[trigger] pool@[j] == removed[j],
            decreases pool@.len() - i,
        {
            let b = pool[i];
            let nb = decay(&m, &b);
            pool.set(i, nb);
            i = i + 1;
        }
        proof {
            assert(pool@ =~= removed.map_values(|b: BBox| decay_box(m, b)));
            assert forall|j: int| 0 <= j < pool@.len() implies (#[trigger] pool@[j]).wf() by {
                lemma_decay_box_wf(m, removed[j]);
            }
        }
        let ghost old_keep = keep@;
        keep.push(m);
        proof {
            assert(soft_nms_spec(before) == seq![m] + soft_nms_spec(pool@));
            assert(keep@ + soft_nms_spec(pool@) =~= old_keep + (seq![m] + soft_nms_spec(pool@)));
        }
    }
    proof {
        assert(keep@ =~= keep@ + soft_nms_spec(pool@));
    }
    keep
}

} // verus!
