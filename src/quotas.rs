//! The daily quota table: planning, smoothing and missed-day reconciliation.
use vstd::prelude::*;

use crate::session::Quota;
use vstd::arithmetic::div_mod::{
    lemma_div_pos_is_pos, lemma_fundamental_div_mod, lemma_fundamental_div_mod_converse,
    lemma_mod_bound, lemma_mod_pos_bound,
};

verus! {

/// One day of a deck's schedule. `days_to_go` counts down to the deadline
/// (day 0). The `*_assigned` counts are the day's targets, the `*_initial`
/// counts the targets as first planned, the `*_practiced` counts what was done.
#[derive(Clone, Copy, Debug, PartialEq, Eq, Structural)]
pub struct QuotaRecord {
    pub days_to_go: u32,
    pub new_assigned: u32,
    pub review_assigned: u32,
    pub new_quota_initial: u32,
    pub review_quota_initial: u32,
    pub new_practiced: u32,
    pub review_practiced: u32,
}

/// Sum of `new_assigned` over a sequence of records.
pub open spec fn sum_new(s: Seq<QuotaRecord>) -> int
    decreases s.len(),
{
    if s.len() == 0 {
        0
    } else {
        sum_new(s.drop_last()) + s.last().new_assigned
    }
}

/// Sum of `review_assigned` over a sequence of records.
pub open spec fn sum_review(s: Seq<QuotaRecord>) -> int
    decreases s.len(),
{
    if s.len() == 0 {
        0
    } else {
        sum_review(s.drop_last()) + s.last().review_assigned
    }
}

/// `0 + 1 + ... + (k - 1)`.
pub open spec fn tri(k: int) -> int
    decreases k,
{
    if k <= 0 {
        0
    } else {
        tri(k - 1) + (k - 1)
    }
}

/// `(t - 1) + (t - 2) + ... + (t - k)`.
pub open spec fn tri_from(t: int, k: int) -> int
    decreases k,
{
    if k <= 0 {
        0
    } else {
        tri_from(t, k - 1) + (t - k)
    }
}

/// The divisor of the plan: `tri(t)`, or 1 where that is 0.
pub open spec fn plan_divisor(t: int) -> int {
    if tri(t) == 0 {
        1
    } else {
        tri(t)
    }
}

/// Weight of day `d` (1 <= d <= t) for new items: days far from the deadline weigh more.
pub open spec fn new_weight(t: int, d: int) -> int {
    d - 1
}

/// Weight of day `d` (1 <= d <= t) for reviews: days near the deadline weigh more.
pub open spec fn review_weight(t: int, d: int) -> int {
    t - d
}

/// Sum over days `1..=k` of `floor(new_weight * n / divisor)`.
pub open spec fn new_base_sum(n: int, t: int, k: int) -> int
    decreases k,
{
    if k <= 0 {
        0
    } else {
        new_base_sum(n, t, k - 1) + new_weight(t, k) * n / plan_divisor(t)
    }
}

/// Sum over days `1..=k` of `floor(review_weight * m / divisor)`.
pub open spec fn review_base_sum(m: int, t: int, k: int) -> int
    decreases k,
{
    if k <= 0 {
        0
    } else {
        review_base_sum(m, t, k - 1) + review_weight(t, k) * m / plan_divisor(t)
    }
}

/// New items planned for day `d` of a plan of `n` items over `t` days:
/// the weighted share, with the rounding remainder on the day furthest away.
pub open spec fn planned_new(n: int, t: int, d: int) -> int {
    if d == 0 {
        if t == 0 { n } else { 0 }
    } else {
        new_weight(t, d) * n / plan_divisor(t) + if d == t {
            n - new_base_sum(n, t, t)
        } else {
            0
        }
    }
}

/// Reviews planned for day `d`: the weighted share of `n * (b - 2)`, with the
/// rounding remainder on day 1; on the deadline day every item is reviewed.
pub open spec fn planned_review(n: int, t: int, b: int, d: int) -> int {
    if d == 0 {
        if t == 0 { n * (b - 1) } else { n }
    } else {
        review_weight(t, d) * (n * (b - 2)) / plan_divisor(t) + if d == 1 {
            n * (b - 2) - review_base_sum(n * (b - 2), t, t)
        } else {
            0
        }
    }
}

/// The record planned for day `d`.
pub open spec fn planned_record(n: int, t: int, b: int, d: int) -> QuotaRecord {
    QuotaRecord {
        days_to_go: d as u32,
        new_assigned: planned_new(n, t, d) as u32,
        review_assigned: planned_review(n, t, b, d) as u32,
        new_quota_initial: planned_new(n, t, d) as u32,
        review_quota_initial: planned_review(n, t, b, d) as u32,
        new_practiced: 0,
        review_practiced: 0,
    }
}

/// The whole plan, indexed by days to go.
pub open spec fn planned_table(n: int, t: int, b: int) -> Seq<QuotaRecord> {
    Seq::new((t + 1) as nat, |d: int| planned_record(n, t, b, d))
}


proof fn lemma_floor_div(x: int, d: int)
    requires
        0 <= x,
        0 < d,
    ensures
        0 <= x / d,
        d * (x / d) <= x,
{
    lemma_div_pos_is_pos(x, d);
    lemma_fundamental_div_mod(x, d);
    lemma_mod_pos_bound(x, d);
}

proof fn lemma_tri_bounds(k: int)
    requires
        0 <= k,
    ensures
        0 <= tri(k) <= k * k,
    decreases k,
{
    if k > 0 {
        lemma_tri_bounds(k - 1);
        assert((k - 1) * (k - 1) + (k - 1) <= k * k) by (nonlinear_arith)
            requires
                k >= 1,
        ;
    }
}

proof fn lemma_tri_from(t: int, k: int)
    requires
        0 <= k <= t,
    ensures
        tri_from(t, k) == tri(t) - tri(t - k),
    decreases k,
{
    if k > 0 {
        lemma_tri_from(t, k - 1);
        assert(tri(t - k + 1) == tri(t - k) + (t - k));
    }
}

proof fn lemma_new_base_sum_scaled(n: int, t: int, k: int)
    requires
        0 <= n,
        0 <= k <= t,
    ensures
        0 <= new_base_sum(n, t, k),
        plan_divisor(t) * new_base_sum(n, t, k) <= n * tri(k),
    decreases k,
{
    lemma_tri_bounds(t);
    let dv = plan_divisor(t);
    if k > 0 {
        lemma_new_base_sum_scaled(n, t, k - 1);
        assert((k - 1) * n >= 0) by (nonlinear_arith)
            requires
                k >= 1,
                n >= 0,
        ;
        lemma_floor_div((k - 1) * n, dv);
        let prev = new_base_sum(n, t, k - 1);
        let q = (k - 1) * n / dv;
        let a = tri(k - 1);
        assert(dv * (prev + q) <= n * (a + (k - 1))) by (nonlinear_arith)
            requires
                dv * prev <= n * a,
                dv * q <= (k - 1) * n,
        ;
    }
}

proof fn lemma_review_base_sum_scaled(m: int, t: int, k: int)
    requires
        0 <= m,
        0 <= k <= t,
    ensures
        0 <= review_base_sum(m, t, k),
        plan_divisor(t) * review_base_sum(m, t, k) <= m * tri_from(t, k),
    decreases k,
{
    lemma_tri_bounds(t);
    let dv = plan_divisor(t);
    if k > 0 {
        lemma_review_base_sum_scaled(m, t, k - 1);
        assert((t - k) * m >= 0) by (nonlinear_arith)
            requires
                k <= t,
                m >= 0,
        ;
        lemma_floor_div((t - k) * m, dv);
        let prev = review_base_sum(m, t, k - 1);
        let q = (t - k) * m / dv;
        let a = tri_from(t, k - 1);
        assert(dv * (prev + q) <= m * (a + (t - k))) by (nonlinear_arith)
            requires
                dv * prev <= m * a,
                dv * q <= (t - k) * m,
        ;
    }
}

/// The weighted shares never exceed what is being shared out.
proof fn lemma_base_sums_bounded(n: int, m: int, t: int)
    requires
        0 <= n,
        0 <= m,
        0 <= t,
    ensures
        0 <= new_base_sum(n, t, t) <= n,
        0 <= review_base_sum(m, t, t) <= m,
{
    lemma_tri_bounds(t);
    lemma_tri_from(t, t);
    lemma_new_base_sum_scaled(n, t, t);
    lemma_review_base_sum_scaled(m, t, t);
    let dv = plan_divisor(t);
    let a = new_base_sum(n, t, t);
    let c = review_base_sum(m, t, t);
    let w = tri(t);
    assert(a <= n) by (nonlinear_arith)
        requires
            dv * a <= n * w,
            w == 0 ==> dv == 1,
            w != 0 ==> dv == w,
            w >= 0,
            n >= 0,
    ;
    assert(c <= m) by (nonlinear_arith)
        requires
            dv * c <= m * w,
            w == 0 ==> dv == 1,
            w != 0 ==> dv == w,
            w >= 0,
            m >= 0,
    ;
}

proof fn lemma_base_sums_monotone(n: int, m: int, t: int, j: int, k: int)
    requires
        0 <= n,
        0 <= m,
        0 <= j <= k <= t,
    ensures
        new_base_sum(n, t, j) <= new_base_sum(n, t, k),
        review_base_sum(m, t, j) <= review_base_sum(m, t, k),
    decreases k - j,
{
    lemma_tri_bounds(t);
    if j < k {
        lemma_base_sums_monotone(n, m, t, j, k - 1);
        assert((k - 1) * n >= 0) by (nonlinear_arith)
            requires
                k >= 1,
                n >= 0,
        ;
        assert((t - k) * m >= 0) by (nonlinear_arith)
            requires
                k <= t,
                m >= 0,
        ;
        lemma_floor_div((k - 1) * n, plan_divisor(t));
        lemma_floor_div((t - k) * m, plan_divisor(t));
    }
}

/// Every planned count lies between 0 and the total it is a share of.
proof fn lemma_planned_ranges(n: int, t: int, b: int, d: int)
    requires
        n >= 1,
        b >= 2,
        0 <= t,
        0 <= d <= t,
    ensures
        0 <= planned_new(n, t, d) <= n,
        0 <= planned_review(n, t, b, d) <= n * (b - 1),
{
    assert(n * (b - 2) >= 0) by (nonlinear_arith)
        requires
            n >= 1,
            b >= 2,
    ;
    assert(n * (b - 1) == n * (b - 2) + n) by (nonlinear_arith);
    let m = n * (b - 2);
    lemma_base_sums_bounded(n, m, t);
    assert(n <= n * (b - 1)) by (nonlinear_arith)
        requires
            n >= 1,
            b >= 2,
    ;
    if d >= 1 {
        lemma_tri_bounds(t);
        lemma_base_sums_monotone(n, m, t, d, t);
        lemma_new_base_sum_scaled(n, t, d - 1);
        lemma_review_base_sum_scaled(m, t, d - 1);
        assert((d - 1) * n >= 0) by (nonlinear_arith)
            requires
                d >= 1,
                n >= 0,
        ;
        assert((t - d) * m >= 0) by (nonlinear_arith)
            requires
                d <= t,
                m >= 0,
        ;
        lemma_floor_div((d - 1) * n, plan_divisor(t));
        lemma_floor_div((t - d) * m, plan_divisor(t));
        assert(new_base_sum(n, t, d) == new_base_sum(n, t, d - 1) + new_weight(t, d) * n
            / plan_divisor(t));
        assert(review_base_sum(m, t, d) == review_base_sum(m, t, d - 1) + review_weight(t, d) * m
            / plan_divisor(t));
    }
}

/// Sums over the first `k + 1` days of the plan.
proof fn lemma_plan_prefix_sums(n: int, t: int, b: int, k: int)
    requires
        n >= 1,
        b >= 2,
        n * (b - 1) <= u32::MAX,
        1 <= t <= u32::MAX,
        0 <= k <= t,
    ensures
        sum_new(planned_table(n, t, b).take(k + 1)) == new_base_sum(n, t, k) + if k == t {
            n - new_base_sum(n, t, t)
        } else {
            0
        },
        sum_review(planned_table(n, t, b).take(k + 1)) == n + review_base_sum(n * (b - 2), t, k)
            + if k >= 1 {
            n * (b - 2) - review_base_sum(n * (b - 2), t, t)
        } else {
            0
        },
    decreases k,
{
    let tb = planned_table(n, t, b);
    let m = n * (b - 2);
    lemma_planned_ranges(n, t, b, k);
    assert(n * (b - 1) == n * (b - 2) + n) by (nonlinear_arith);
    let pre = tb.take(k + 1);
    assert(pre.drop_last() =~= tb.take(k));
    assert(pre.last() == planned_record(n, t, b, k));
    assert(sum_new(pre) == sum_new(tb.take(k)) + planned_new(n, t, k));
    assert(sum_review(pre) == sum_review(tb.take(k)) + planned_review(n, t, b, k));
    if k == 0 {
        assert(tb.take(0) =~= Seq::<QuotaRecord>::empty());
        assert(sum_new(tb.take(0)) == 0);
        assert(sum_review(tb.take(0)) == 0);
    } else {
        lemma_plan_prefix_sums(n, t, b, k - 1);
        assert(new_base_sum(n, t, k) == new_base_sum(n, t, k - 1) + new_weight(t, k) * n
            / plan_divisor(t));
        assert(review_base_sum(m, t, k) == review_base_sum(m, t, k - 1) + review_weight(t, k) * m
            / plan_divisor(t));
    }
}

/// The plan shares out exactly `n` introductions and `n * (b - 1)` reviews.
pub proof fn lemma_plan_totals(n: int, t: int, b: int)
    requires
        n >= 1,
        b >= 2,
        n * (b - 1) <= u32::MAX,
        0 <= t <= u32::MAX,
    ensures
        planned_table(n, t, b).len() == t + 1,
        sum_new(planned_table(n, t, b)) == n,
        sum_review(planned_table(n, t, b)) == n * (b - 1),
        t >= 1 ==> planned_table(n, t, b)[0].new_assigned == 0,
{
    let tb = planned_table(n, t, b);
    assert(tb.take(t + 1) =~= tb);
    assert(n <= n * (b - 1)) by (nonlinear_arith)
        requires
            n >= 1,
            b >= 2,
    ;
    lemma_planned_ranges(n, t, b, 0);
    if t == 0 {
        assert(tb.drop_last() =~= Seq::<QuotaRecord>::empty());
        assert(sum_new(tb.drop_last()) == 0);
        assert(sum_review(tb.drop_last()) == 0);
        assert(tb.last() == planned_record(n, t, b, 0));
        assert(sum_new(tb) == sum_new(tb.drop_last()) + tb.last().new_assigned);
        assert(sum_review(tb) == sum_review(tb.drop_last()) + tb.last().review_assigned);
    } else {
        lemma_plan_prefix_sums(n, t, b, t);
        assert(sum_new(tb.take(t + 1)) == n);
        assert(n * (b - 1) == n * (b - 2) + n) by (nonlinear_arith);
    }
}

/// Why a plan cannot be made.
#[derive(Clone, Copy, Debug, PartialEq, Eq, Structural)]
pub enum PlanError {
    /// There are no items to plan.
    NoCards,
    /// A deck needs at least two boxes.
    TooFewBoxes,
    /// `num_cards * (num_boxes - 1)` reviews do not fit in a count.
    TooLarge,
}

/// Plans the quota table of `num_cards` items over `days_to_go` days before
/// a deadline with `num_boxes` boxes: one record per day, indexed by days to
/// go. No items, fewer than two boxes, or more reviews than a count holds
/// are refused.
pub fn compute_quotas(num_cards: u32, days_to_go: u32, num_boxes: u32) -> (r: Result<
    Vec<QuotaRecord>,
    PlanError,
>)
    ensures
        num_cards == 0 ==> r == Err::<Vec<QuotaRecord>, PlanError>(PlanError::NoCards),
        num_cards > 0 && num_boxes < 2 ==> r == Err::<Vec<QuotaRecord>, PlanError>(
            PlanError::TooFewBoxes,
        ),
        num_cards > 0 && num_boxes >= 2 && num_cards * (num_boxes - 1) > u32::MAX ==> r == Err::<
            Vec<QuotaRecord>,
            PlanError,
        >(PlanError::TooLarge),
        num_cards > 0 && num_boxes >= 2 && num_cards * (num_boxes - 1) <= u32::MAX ==> (r matches Ok(
            t,
        ) && t@ == planned_table(num_cards as int, days_to_go as int, num_boxes as int)),
{
    if num_cards == 0 {
        return Err(PlanError::NoCards);
    }
    if num_boxes < 2 {
        return Err(PlanError::TooFewBoxes);
    }
    let n = num_cards as u64;
    let b = num_boxes as u64 - 1;
    assert(n * b <= 0xffff_ffff * 0xffff_ffff) by (nonlinear_arith)
        requires
            n <= 0xffff_ffff,
            b <= 0xffff_ffff,
    ;
    if n * b > u32::MAX as u64 {
        return Err(PlanError::TooLarge);
    }
    Ok(plan_quotas(num_cards, days_to_go, num_boxes))
}

/// The plan of `compute_quotas`, with its totals.
#[verifier::spinoff_prover]
pub fn plan_quotas(num_cards: u32, days_to_go: u32, num_boxes: u32) -> (r: Vec<QuotaRecord>)
    requires
        num_cards > 0,
        num_boxes >= 2,
        num_cards * (num_boxes - 1) <= u32::MAX,
    ensures
        r@ == planned_table(num_cards as int, days_to_go as int, num_boxes as int),
        r@.len() == days_to_go + 1,
        sum_new(r@) == num_cards,
        sum_review(r@) == num_cards * (num_boxes - 1),
{
    let ghost (gn, gt, gb) = (num_cards as int, days_to_go as int, num_boxes as int);
    proof {
        lemma_plan_totals(gn, gt, gb);
        assert(gn * (gb - 1) == gn * (gb - 2) + gn) by (nonlinear_arith);
        assert(gn * (gb - 2) >= 0) by (nonlinear_arith)
            requires
                gn >= 1,
                gb >= 2,
        ;
        lemma_tri_bounds(gt);
        lemma_base_sums_bounded(gn, gn * (gb - 2), gt);
    }
    let n: u64 = num_cards as u64;
    let t: u64 = days_to_go as u64;
    let m: u64 = n * (num_boxes as u64 - 2);
    let mut tri_t: u64 = 0;
    let mut i: u64 = 0;
    while i < t
        invariant
            i <= t,
            t == days_to_go,
            tri_t == tri(i as int),
        decreases t - i,
    {
        proof {
            lemma_tri_bounds(i + 1);
            assert((i + 1) * (i + 1) <= u32::MAX * u32::MAX) by (nonlinear_arith)
                requires
                    i + 1 <= u32::MAX,
            ;
        }
        tri_t = tri_t + i;
        i = i + 1;
    }
    let dv: u64 = if tri_t == 0 {
        1
    } else {
        tri_t
    };
    assert(dv == plan_divisor(gt));
    let mut new_sum: u64 = 0;
    let mut review_sum: u64 = 0;
    let mut d: u64 = 1;
    while d <= t
        invariant
            1 <= d <= t + 1,
            t == days_to_go,
            gn == num_cards,
            gt == days_to_go,
            gb == num_boxes,
            gn >= 1,
            gb >= 2,
            gn * (gb - 1) <= u32::MAX,
            n == num_cards,
            m == gn * (gb - 2),
            m <= u32::MAX,
            dv == plan_divisor(gt),
            dv >= 1,
            new_sum == new_base_sum(gn, gt, d - 1),
            review_sum == review_base_sum(m as int, gt, d - 1),
            new_base_sum(gn, gt, gt) <= gn,
            review_base_sum(m as int, gt, gt) <= m,
        decreases t + 1 - d,
    {
        proof {
            lemma_base_sums_monotone(gn, m as int, gt, d as int, gt);
            assert((d - 1) * n <= u32::MAX * u32::MAX) by (nonlinear_arith)
                requires
                    d - 1 <= u32::MAX,
                    n <= u32::MAX,
            ;
            assert((t - d) * m <= u32::MAX * u32::MAX) by (nonlinear_arith)
                requires
                    t - d <= u32::MAX,
                    m <= u32::MAX,
            ;
        }
        new_sum = new_sum + (d - 1) * n / dv;
        review_sum = review_sum + (t - d) * m / dv;
        d = d + 1;
    }
    let mut r: Vec<QuotaRecord> = Vec::new();
    let (new0, review0): (u32, u32) = if t == 0 {
        (num_cards, (n * (num_boxes as u64 - 1)) as u32)
    } else {
        (0, num_cards)
    };
    r.push(
        QuotaRecord {
            days_to_go: 0,
            new_assigned: new0,
            review_assigned: review0,
            new_quota_initial: new0,
            review_quota_initial: review0,
            new_practiced: 0,
            review_practiced: 0,
        },
    );
    let mut d: u64 = 1;
    while d <= t
        invariant
            1 <= d <= t + 1,
            t == days_to_go,
            gn == num_cards,
            gt == days_to_go,
            gb == num_boxes,
            gn >= 1,
            gb >= 2,
            gn * (gb - 1) <= u32::MAX,
            n == num_cards,
            m == gn * (gb - 2),
            m <= u32::MAX,
            dv == plan_divisor(gt),
            dv >= 1,
            new_sum == new_base_sum(gn, gt, gt),
            review_sum == review_base_sum(m as int, gt, gt),
            new_sum <= n,
            review_sum <= m,
            r@.len() == d,
            forall|j: int| 0 <= j < d ==> r@[j] == planned_record(gn, gt, gb, j),
        decreases t + 1 - d,
    {
        proof {
            lemma_planned_ranges(gn, gt, gb, d as int);
            assert((d - 1) * n <= u32::MAX * u32::MAX) by (nonlinear_arith)
                requires
                    d - 1 <= u32::MAX,
                    n <= u32::MAX,
            ;
            assert((t - d) * m <= u32::MAX * u32::MAX) by (nonlinear_arith)
                requires
                    t - d <= u32::MAX,
                    m <= u32::MAX,
            ;
        }
        let extra_new: u64 = if d == t {
            n - new_sum
        } else {
            0
        };
        let extra_review: u64 = if d == 1 {
            m - review_sum
        } else {
            0
        };
        let nq: u64 = (d - 1) * n / dv + extra_new;
        let rq: u64 = (t - d) * m / dv + extra_review;
        let rec = QuotaRecord {
            days_to_go: d as u32,
            new_assigned: nq as u32,
            review_assigned: rq as u32,
            new_quota_initial: nq as u32,
            review_quota_initial: rq as u32,
            new_practiced: 0,
            review_practiced: 0,
        };
        assert(rec == planned_record(gn, gt, gb, d as int));
        r.push(rec);
        d = d + 1;
    }
    assert(r@ =~= planned_table(gn, gt, gb));
    r
}

/// The study cost of a day: a new item weighs twice as much as a review.
pub open spec fn cost(r: QuotaRecord) -> int {
    2 * r.new_assigned + r.review_assigned
}

/// The mean study cost of a table, rounded down.
pub open spec fn mean_cost(s: Seq<QuotaRecord>) -> int {
    (2 * sum_new(s) + sum_review(s)) / s.len() as int
}

/// Sum of the squared costs: it falls with every unit moved from a dearer day
/// to a cheaper one, which bounds the smoothing.
pub open spec fn cost_energy(s: Seq<QuotaRecord>) -> int
    decreases s.len(),
{
    if s.len() == 0 {
        0
    } else {
        cost_energy(s.drop_last()) + cost(s.last()) * cost(s.last())
    }
}

/// No unit can leave day `i` for a cheaper day without making the two days
/// at least as uneven as before.
pub open spec fn no_move_helps(s: Seq<QuotaRecord>, i: int) -> bool {
    forall|j: int|
        1 <= j < s.len() ==> (s[i].new_assigned == 0 || cost(s[i]) - cost(s[j]) < 3) && (
        s[i].review_assigned == 0 || cost(s[i]) - cost(s[j]) < 2)
}

/// Day `i` is within 4 of the mean `avg`, or nothing moved from it could help.
pub open spec fn smoothed_at(s: Seq<QuotaRecord>, avg: int, i: int) -> bool {
    cost(s[i]) < avg + 4 || no_move_helps(s, i)
}

/// Every day but the deadline day costs less than the mean plus 4.
pub open spec fn balanced(s: Seq<QuotaRecord>) -> bool {
    forall|i: int| 1 <= i < s.len() ==> cost(#[trigger] s[i]) < mean_cost(s) + 4
}

/// What smoothing leaves behind: only assigned counts of days other than 0
/// moved, both totals kept, every other day smoothed against the mean, and
/// a table that was balanced already left as it was.
pub open spec fn redistributed(old: Seq<QuotaRecord>, new: Seq<QuotaRecord>) -> bool {
    &&& balanced(old) ==> new == old
    &&& only_assigned_moved(old, new)
    &&& sum_new(new) == sum_new(old)
    &&& sum_review(new) == sum_review(old)
    &&& forall|i: int| 1 <= i < new.len() ==> smoothed_at(new, mean_cost(old), i)
}

/// `new` differs from `old` at most in the assigned counts of days other than 0.
pub open spec fn only_assigned_moved(old: Seq<QuotaRecord>, new: Seq<QuotaRecord>) -> bool {
    &&& new.len() == old.len()
    &&& (old.len() > 0 ==> new[0] == old[0])
    &&& forall|j: int|
        0 <= j < old.len() ==> {
            &&& #[trigger] new[j].days_to_go == old[j].days_to_go
            &&& new[j].new_quota_initial == old[j].new_quota_initial
            &&& new[j].review_quota_initial == old[j].review_quota_initial
            &&& new[j].new_practiced == old[j].new_practiced
            &&& new[j].review_practiced == old[j].review_practiced
        }
}

proof fn lemma_sums_update(s: Seq<QuotaRecord>, i: int, r: QuotaRecord)
    requires
        0 <= i < s.len(),
    ensures
        sum_new(s.update(i, r)) == sum_new(s) - s[i].new_assigned + r.new_assigned,
        sum_review(s.update(i, r)) == sum_review(s) - s[i].review_assigned + r.review_assigned,
        cost_energy(s.update(i, r)) == cost_energy(s) - cost(s[i]) * cost(s[i]) + cost(r) * cost(
            r,
        ),
    decreases s.len(),
{
    let u = s.update(i, r);
    if i == s.len() - 1 {
        assert(u.drop_last() =~= s.drop_last());
    } else {
        assert(u.drop_last() =~= s.drop_last().update(i, r));
        lemma_sums_update(s.drop_last(), i, r);
    }
}

proof fn lemma_sums_bound_each(s: Seq<QuotaRecord>, i: int, j: int)
    requires
        0 <= i < s.len(),
        0 <= j < s.len(),
        i != j,
    ensures
        s[i].new_assigned + s[j].new_assigned <= sum_new(s),
        s[i].review_assigned + s[j].review_assigned <= sum_review(s),
        s[i].new_assigned <= sum_new(s),
        s[i].review_assigned <= sum_review(s),
        0 <= cost_energy(s),
    decreases s.len(),
{
    lemma_sums_nonneg(s.drop_last());
    if i == s.len() - 1 {
        lemma_sums_one(s.drop_last(), j);
    } else if j == s.len() - 1 {
        lemma_sums_one(s.drop_last(), i);
    } else {
        lemma_sums_bound_each(s.drop_last(), i, j);
    }
}

proof fn lemma_sums_one(s: Seq<QuotaRecord>, i: int)
    requires
        0 <= i < s.len(),
    ensures
        s[i].new_assigned <= sum_new(s),
        s[i].review_assigned <= sum_review(s),
    decreases s.len(),
{
    lemma_sums_nonneg(s.drop_last());
    if i < s.len() - 1 {
        lemma_sums_one(s.drop_last(), i);
    }
}

proof fn lemma_sums_nonneg(s: Seq<QuotaRecord>)
    ensures
        0 <= sum_new(s),
        0 <= sum_review(s),
        0 <= cost_energy(s),
    decreases s.len(),
{
    if s.len() > 0 {
        lemma_sums_nonneg(s.drop_last());
        let c = cost(s.last());
        assert(c * c >= 0) by (nonlinear_arith);
    }
}

/// The study cost of each day.
fn compute_study_cost(quotas: &Vec<QuotaRecord>) -> (r: Vec<u64>)
    ensures
        r@.len() == quotas@.len(),
        forall|j: int| 0 <= j < r@.len() ==> r@[j] == cost(#[trigger] quotas@[j]),
{
    let mut r: Vec<u64> = Vec::new();
    let mut j: usize = 0;
    while j < quotas.len()
        invariant
            j <= quotas@.len(),
            r@.len() == j,
            forall|k: int| 0 <= k < j ==> r@[k] == cost(#[trigger] quotas@[k]),
        decreases quotas@.len() - j,
    {
        let q = quotas[j];
        r.push(2 * (q.new_assigned as u64) + q.review_assigned as u64);
        j = j + 1;
    }
    r
}

/// The first index at or after `from` that holds the least value.
fn argmin(collection: &Vec<u64>, from: usize) -> (r: usize)
    requires
        from < collection@.len(),
    ensures
        from <= r < collection@.len(),
        forall|j: int| from <= j < collection@.len() ==> collection@[r as int] <= collection@[j],
        forall|j: int| from <= j < r ==> collection@[r as int] < collection@[j],
{
    let mut best: usize = from;
    let mut j: usize = from;
    while j < collection.len()
        invariant
            from <= best < collection@.len(),
            from <= j <= collection@.len(),
            best <= j,
            forall|k: int| from <= k < j ==> collection@[best as int] <= collection@[k],
            forall|k: int| from <= k < best ==> collection@[best as int] < collection@[k],
        decreases collection@.len() - j,
    {
        if collection[j] < collection[best] {
            best = j;
        }
        j = j + 1;
    }
    best
}

proof fn lemma_div_le_self(x: int, d: int)
    requires
        0 <= x,
        1 <= d,
    ensures
        x / d <= x,
{
    lemma_floor_div(x, d);
    assert(x / d <= x) by (nonlinear_arith)
        requires
            d * (x / d) <= x,
            0 <= x / d,
            1 <= d,
    ;
}

proof fn lemma_prefix_sums_le(s: Seq<QuotaRecord>, j: int)
    requires
        0 <= j <= s.len(),
    ensures
        sum_new(s.take(j)) <= sum_new(s),
        sum_review(s.take(j)) <= sum_review(s),
    decreases s.len() - j,
{
    if j < s.len() {
        lemma_prefix_sums_le(s, j + 1);
        assert(s.take(j + 1).drop_last() =~= s.take(j));
    } else {
        assert(s.take(j) =~= s);
    }
}

/// Moves one new item (`is_new`) or one review from day `i` to day `m`.
fn move_unit(quotas: &mut Vec<QuotaRecord>, i: usize, m: usize, is_new: bool)
    requires
        1 <= i < old(quotas)@.len(),
        1 <= m < old(quotas)@.len(),
        is_new ==> old(quotas)@[i as int].new_assigned > 0 && cost(old(quotas)@[i as int]) - cost(
            old(quotas)@[m as int],
        ) >= 3,
        !is_new ==> old(quotas)@[i as int].review_assigned > 0 && cost(old(quotas)@[i as int])
            - cost(old(quotas)@[m as int]) >= 2,
        sum_new(old(quotas)@) <= u32::MAX,
        sum_review(old(quotas)@) <= u32::MAX,
    ensures
        only_assigned_moved(old(quotas)@, final(quotas)@),
        sum_new(final(quotas)@) == sum_new(old(quotas)@),
        sum_review(final(quotas)@) == sum_review(old(quotas)@),
        cost_energy(final(quotas)@) < cost_energy(old(quotas)@),
{
    let ghost s0 = quotas@;
    proof {
        lemma_sums_bound_each(s0, i as int, m as int);
    }
    let ci = 2 * (quotas[i].new_assigned as u64) + quotas[i].review_assigned as u64;
    let cm = 2 * (quotas[m].new_assigned as u64) + quotas[m].review_assigned as u64;
    if is_new {
        quotas[i].new_assigned = quotas[i].new_assigned - 1;
        let ghost s1 = quotas@;
        proof {
            lemma_sums_update(s0, i as int, s1[i as int]);
            assert(s1 =~= s0.update(i as int, s1[i as int]));
        }
        quotas[m].new_assigned = quotas[m].new_assigned + 1;
        proof {
            lemma_sums_update(s1, m as int, quotas@[m as int]);
            assert(quotas@ =~= s1.update(m as int, quotas@[m as int]));
            assert((ci - 2) * (ci - 2) - ci * ci + (cm + 2) * (cm + 2) - cm * cm < 0)
                by (nonlinear_arith)
                requires
                    ci - cm >= 3,
            ;
        }
    } else {
        quotas[i].review_assigned = quotas[i].review_assigned - 1;
        let ghost s1 = quotas@;
        proof {
            lemma_sums_update(s0, i as int, s1[i as int]);
            assert(s1 =~= s0.update(i as int, s1[i as int]));
        }
        quotas[m].review_assigned = quotas[m].review_assigned + 1;
        proof {
            lemma_sums_update(s1, m as int, quotas@[m as int]);
            assert(quotas@ =~= s1.update(m as int, quotas@[m as int]));
            assert((ci - 1) * (ci - 1) - ci * ci + (cm + 1) * (cm + 1) - cm * cm < 0)
                by (nonlinear_arith)
                requires
                    ci - cm >= 2,
            ;
        }
    }
}

/// Smooths the daily study cost of a table whose record 0 is the deadline
/// day, which keeps its counts. While some other day costs at least 4 more
/// than the mean, days are visited from the farthest to the nearest, and a
/// day that is 4 or more over the mean gives one new item and then up to two
/// reviews, one at a time, to the cheapest day (the first on a tie). A unit
/// moves only when the source count is positive and the move makes the two
/// days more even, so the routine always ends. It ends with every day within
/// 4 of the mean, or with no helpful move left from a day that is not.
#[verifier::spinoff_prover]
pub fn redistribute_quotas(quotas: &mut Vec<QuotaRecord>)
    requires
        sum_new(old(quotas)@) <= u32::MAX,
        sum_review(old(quotas)@) <= u32::MAX,
    ensures
        redistributed(old(quotas)@, final(quotas)@),
{
    let ghost s0 = quotas@;
    let n = quotas.len();
    if n <= 1 {
        return;
    }
    let mut total_new: u64 = 0;
    let mut total_review: u64 = 0;
    let mut j: usize = 0;
    while j < n
        invariant
            n == quotas@.len(),
            quotas@ == s0,
            j <= n,
            sum_new(s0) <= u32::MAX,
            sum_review(s0) <= u32::MAX,
            total_new == sum_new(s0.take(j as int)),
            total_review == sum_review(s0.take(j as int)),
        decreases n - j,
    {
        proof {
            lemma_prefix_sums_le(s0, j + 1);
            assert(s0.take(j + 1).drop_last() =~= s0.take(j as int));
        }
        total_new = total_new + quotas[j].new_assigned as u64;
        total_review = total_review + quotas[j].review_assigned as u64;
        j = j + 1;
    }
    assert(s0.take(n as int) =~= s0);
    let avg: u64 = (2 * total_new + total_review) / (n as u64);
    assert(avg == mean_cost(s0));
    assert(avg <= 2 * total_new + total_review) by {
        lemma_div_le_self((2 * total_new + total_review) as int, n as int);
    }
    let mut done = false;
    while !done
        invariant
            n == quotas@.len(),
            n >= 2,
            avg == mean_cost(s0),
            avg <= 3 * u32::MAX,
            only_assigned_moved(s0, quotas@),
            sum_new(quotas@) == sum_new(s0),
            sum_review(quotas@) == sum_review(s0),
            sum_new(s0) <= u32::MAX,
            sum_review(s0) <= u32::MAX,
            done ==> forall|k: int| 1 <= k < n ==> smoothed_at(quotas@, avg as int, k),
            balanced(s0) ==> quotas@ == s0,
        decreases 2 * cost_energy(quotas@) + if done {
            0int
        } else {
            1int
        },
    {
        let ghost start = quotas@;
        proof {
            lemma_sums_nonneg(start);
        }
        let mut moved = false;
        let mut i: usize = n - 1;
        while i >= 1
            invariant
                n == quotas@.len(),
                n >= 2,
                i < n,
                avg == mean_cost(s0),
                avg <= 3 * u32::MAX,
                only_assigned_moved(s0, quotas@),
                sum_new(quotas@) == sum_new(s0),
                sum_review(quotas@) == sum_review(s0),
                sum_new(s0) <= u32::MAX,
                sum_review(s0) <= u32::MAX,
                !moved ==> quotas@ == start,
                moved ==> cost_energy(quotas@) < cost_energy(start),
                !moved ==> forall|k: int| i < k < n ==> smoothed_at(start, avg as int, k),
                balanced(s0) ==> !moved && start == s0,
            decreases i,
        {
            let day_costs = compute_study_cost(quotas);
            if day_costs[i] >= avg + 4 {
                proof {
                    if balanced(s0) {
                        assert(cost(s0[i as int]) < avg + 4);
                    }
                }
                let costs = compute_study_cost(quotas);
                let m = argmin(&costs, 1);
                if quotas[i].new_assigned > 0 && costs[i] >= costs[m] + 3 {
                    move_unit(quotas, i, m, true);
                    moved = true;
                }
                let mut k: usize = 0;
                while k < 2
                    invariant
                        n == quotas@.len(),
                        n >= 2,
                        1 <= i < n,
                        k <= 2,
                        avg == mean_cost(s0),
                        avg <= 3 * u32::MAX,
                        only_assigned_moved(s0, quotas@),
                        sum_new(quotas@) == sum_new(s0),
                        sum_review(quotas@) == sum_review(s0),
                        sum_new(s0) <= u32::MAX,
                        sum_review(s0) <= u32::MAX,
                        !moved ==> quotas@ == start,
                        moved ==> cost_energy(quotas@) < cost_energy(start),
                        day_costs@.len() == n,
                        !moved ==> forall|k2: int|
                            i < k2 < n ==> smoothed_at(start, avg as int, k2),
                        !moved ==> forall|j: int|
                            0 <= j < n ==> day_costs@[j] == cost(#[trigger] quotas@[j]),
                        !moved ==> (quotas@[i as int].new_assigned == 0 || forall|j: int|
                            1 <= j < n ==> cost(quotas@[i as int]) - cost(quotas@[j]) < 3),
                        !moved && k >= 1 ==> (quotas@[i as int].review_assigned == 0 || forall|
                            j: int,
                        |
                            1 <= j < n ==> cost(quotas@[i as int]) - cost(quotas@[j]) < 2),
                    decreases 2 - k,
                {
                    let costs = compute_study_cost(quotas);
                    let m = argmin(&costs, 1);
                    if quotas[i].review_assigned > 0 && costs[i] >= costs[m] + 2 {
                        move_unit(quotas, i, m, false);
                        moved = true;
                    }
                    k = k + 1;
                }
            }
            proof {
                if !moved {
                    assert(cost(quotas@[i as int]) == day_costs@[i as int]);
                    assert(smoothed_at(start, avg as int, i as int));
                }
            }
            i = i - 1;
        }
        if !moved {
            done = true;
        }
        proof {
            lemma_sums_nonneg(quotas@);
        }
        assert(2 * cost_energy(quotas@) + (if done {
            0int
        } else {
            1int
        }) < 2 * cost_energy(start) + 1);
    }
}

proof fn lemma_costs_at_least(s: Seq<QuotaRecord>, x: int)
    requires
        s.len() >= 1,
        forall|j: int| 1 <= j < s.len() ==> cost(#[trigger] s[j]) >= x,
    ensures
        2 * sum_new(s) + sum_review(s) >= cost(s[0]) + (s.len() - 1) * x,
    decreases s.len(),
{
    if s.len() > 1 {
        let p = s.drop_last();
        assert forall|j: int| 1 <= j < p.len() implies cost(#[trigger] p[j]) >= x by {
            assert(p[j] == s[j]);
        }
        lemma_costs_at_least(p, x);
        assert(cost(s.last()) >= x);
        assert((s.len() - 1) * x == (p.len() - 1) * x + x) by (nonlinear_arith)
            requires
                p.len() == s.len() - 1,
        ;
    } else {
        assert(s.drop_last().len() == 0);
        assert(sum_new(s.drop_last()) == 0 && sum_review(s.drop_last()) == 0);
    }
}

/// After smoothing, either every day but the deadline day costs less than
/// the mean plus 4, or every such day costs at least the mean plus 2, so
/// that no unit can move to a cheaper day without making it the dearer one.
pub proof fn lemma_redistribute_outcome(old: Seq<QuotaRecord>, new: Seq<QuotaRecord>)
    requires
        redistributed(old, new),
        old.len() >= 1,
    ensures
        mean_cost(new) == mean_cost(old),
        (forall|i: int| 1 <= i < new.len() ==> cost(#[trigger] new[i]) < mean_cost(new) + 4) || (
        forall|j: int| 1 <= j < new.len() ==> cost(#[trigger] new[j]) >= mean_cost(new) + 2),
{
    let avg = mean_cost(old);
    if exists|i: int| 1 <= i < new.len() && cost(#[trigger] new[i]) >= avg + 4 {
        let i = choose|i: int| 1 <= i < new.len() && cost(#[trigger] new[i]) >= avg + 4;
        assert(smoothed_at(new, avg, i));
        lemma_sums_nonneg(old);
        assert(avg >= 0) by {
            lemma_div_pos_is_pos(2 * sum_new(old) + sum_review(old), old.len() as int);
        }
        assert forall|j: int| 1 <= j < new.len() implies cost(#[trigger] new[j]) >= avg + 2 by {
            assert(new[i].new_assigned > 0 || new[i].review_assigned > 0);
        }
    }
}

/// Smoothing keeps both totals; and wherever the days other than the
/// deadline day cost less than the mean plus 2 on average, it leaves each of
/// them costing less than the mean plus 4.
pub proof fn lemma_redistribute_keeps_totals_and_smooths(
    old: Seq<QuotaRecord>,
    new: Seq<QuotaRecord>,
)
    requires
        redistributed(old, new),
        old.len() >= 1,
        2 * sum_new(old) + sum_review(old) - cost(old[0]) < (old.len() - 1) * (mean_cost(old)
            + 2),
    ensures
        sum_new(new) == sum_new(old),
        sum_review(new) == sum_review(old),
        mean_cost(new) == mean_cost(old),
        forall|i: int| 1 <= i < new.len() ==> cost(#[trigger] new[i]) < mean_cost(new) + 4,
{
    let avg = mean_cost(old);
    assert forall|i: int| 1 <= i < new.len() implies cost(#[trigger] new[i]) < avg + 4 by {
        if cost(new[i]) >= avg + 4 {
            assert(smoothed_at(new, avg, i));
            lemma_sums_nonneg(old);
            assert(avg >= 0) by {
                lemma_div_pos_is_pos(2 * sum_new(old) + sum_review(old), old.len() as int);
            }
            assert forall|j: int| 1 <= j < new.len() implies cost(#[trigger] new[j]) >= avg + 2 by {
                assert(new[i].new_assigned > 0 || new[i].review_assigned > 0);
            }
            lemma_costs_at_least(new, avg + 2);
        }
    }
}

/// A past day's record set to what was practiced on it.
pub open spec fn settled(r: QuotaRecord) -> QuotaRecord {
    QuotaRecord { new_assigned: r.new_practiced, review_assigned: r.review_practiced, ..r }
}

/// Sum of `new_assigned - new_practiced` over the days after index `c`:
/// what was missed, less what was done beyond the targets.
pub open spec fn missed_new(s: Seq<QuotaRecord>, c: int) -> int
    decreases s.len(),
{
    if s.len() == 0 || s.len() <= c + 1 {
        0
    } else {
        missed_new(s.drop_last(), c) + s.last().new_assigned - s.last().new_practiced
    }
}

/// Sum of `review_assigned - review_practiced` over the days after index `c`.
pub open spec fn missed_review(s: Seq<QuotaRecord>, c: int) -> int
    decreases s.len(),
{
    if s.len() == 0 || s.len() <= c + 1 {
        0
    } else {
        missed_review(s.drop_last(), c) + s.last().review_assigned - s.last().review_practiced
    }
}

/// Both missed totals of the days after index `c` are 0.
pub open spec fn no_backlog(s: Seq<QuotaRecord>, c: int) -> bool {
    missed_new(s, c) == 0 && missed_review(s, c) == 0
}

/// New items still owed by the days after index `c`: the missed total,
/// or 0 where more was done than assigned.
pub open spec fn owed_new(s: Seq<QuotaRecord>, c: int) -> int {
    if missed_new(s, c) < 0 {
        0
    } else {
        missed_new(s, c)
    }
}

/// Reviews still owed by the days after index `c`, as `owed_new`.
pub open spec fn owed_review(s: Seq<QuotaRecord>, c: int) -> int {
    if missed_review(s, c) < 0 {
        0
    } else {
        missed_review(s, c)
    }
}

/// Sum of `new_assigned` over indices `lo..hi`.
pub open spec fn range_new(s: Seq<QuotaRecord>, lo: int, hi: int) -> int
    decreases hi - lo,
{
    if hi <= lo {
        0
    } else {
        range_new(s, lo, hi - 1) + s[hi - 1].new_assigned
    }
}

/// Sum of `review_assigned` over indices `lo..hi`.
pub open spec fn range_review(s: Seq<QuotaRecord>, lo: int, hi: int) -> int
    decreases hi - lo,
{
    if hi <= lo {
        0
    } else {
        range_review(s, lo, hi - 1) + s[hi - 1].review_assigned
    }
}

/// A surplus: what the days after index `c` did beyond their targets in
/// all, where their missed total is negative; else 0.
pub open spec fn surplus(m: int) -> int {
    if m < 0 {
        -m
    } else {
        0
    }
}

/// How many days take up missed work on day `c`: the deadline day alone
/// when `c` is 0, else days `1..=c`.
pub open spec fn absorbers(c: int) -> int {
    if c == 0 {
        1
    } else {
        c
    }
}

/// The day that `k`-th takes up missed work: day 0 when `c` is 0, else day
/// `k + 1`, the day nearest the deadline first.
pub open spec fn absorber_day(c: int, k: int) -> int {
    if c == 0 {
        0
    } else {
        k + 1
    }
}

/// The new-item targets of the days that take up missed work.
pub open spec fn new_absorber_targets(s: Seq<QuotaRecord>, c: int) -> Seq<int> {
    Seq::new(absorbers(c) as nat, |k: int| s[absorber_day(c, k)].new_assigned as int)
}

/// The review targets of the days that take up missed work.
pub open spec fn review_absorber_targets(s: Seq<QuotaRecord>, c: int) -> Seq<int> {
    Seq::new(absorbers(c) as nat, |k: int| s[absorber_day(c, k)].review_assigned as int)
}

/// What a new-item surplus takes off each of those days: as much as it can
/// from each in turn, until the surplus is used up.
pub open spec fn new_absorbed(s: Seq<QuotaRecord>, c: int) -> Seq<int> {
    greedy_takes(new_absorber_targets(s, c), 0, surplus(missed_new(s, c)))
}

/// What a review surplus takes off each of those days, as `new_absorbed`.
pub open spec fn review_absorbed(s: Seq<QuotaRecord>, c: int) -> Seq<int> {
    greedy_takes(review_absorber_targets(s, c), 0, surplus(missed_review(s, c)))
}

/// Day `d`'s even share of `m` owed items: all of it on day 0 when `c` is
/// 0, else `m / c` on each of days `1..=c` and the remainder on `rem_day`.
pub open spec fn share(m: int, c: int, d: int, rem_day: int) -> int {
    if c == 0 {
        if d == 0 {
            m
        } else {
            0
        }
    } else if d == 0 {
        0
    } else {
        m / c + if d == rem_day {
            m % c
        } else {
            0
        }
    }
}

/// What the takes `t` take off day `d`.
pub open spec fn taken(t: Seq<int>, c: int, d: int) -> int {
    if c == 0 {
        if d == 0 {
            t[0]
        } else {
            0
        }
    } else if d == 0 {
        0
    } else {
        t[d - 1]
    }
}

/// The first `c + 1` days of `s` with the past days' backlog rolled
/// forward: what they owe is shared out evenly (new remainder on day `c`,
/// review remainder on day 1), and what they did beyond their targets is
/// taken off the days that take up missed work.
pub open spec fn spread_prefix(s: Seq<QuotaRecord>, c: int) -> Seq<QuotaRecord> {
    Seq::new(
        (c + 1) as nat,
        |d: int|
            QuotaRecord {
                new_assigned: (s[d].new_assigned + share(owed_new(s, c), c, d, c) - taken(
                    new_absorbed(s, c),
                    c,
                    d,
                )) as u32,
                review_assigned: (s[d].review_assigned + share(owed_review(s, c), c, d, 1) - taken(
                    review_absorbed(s, c),
                    c,
                    d,
                )) as u32,
                ..s[d]
            },
    )
}

/// What reconciling the missed days of `old` on day `c` (days to go) yields.
/// Where both missed totals of the past days are 0 the table is unchanged.
/// Else each past day is set to what was practiced on it, and the backlog
/// rolls forward (`spread_prefix`): onto the deadline day when `c` is 0, else
/// onto days `1..=c`, which are smoothed again.
pub open spec fn missed_days_handled(old: Seq<QuotaRecord>, new: Seq<QuotaRecord>, c: int) -> bool {
    &&& new.len() == old.len()
    &&& no_backlog(old, c) ==> new == old
    &&& !no_backlog(old, c) ==> {
        &&& forall|i: int| c < i < old.len() ==> new[i] == settled(#[trigger] old[i])
        &&& c == 0 ==> new[0] == spread_prefix(old, c)[0]
        &&& c > 0 ==> redistributed(spread_prefix(old, c), new.take(c + 1))
    }
    &&& no_backlog(new, c)
}

/// The sum of a sequence of integers.
pub open spec fn seq_total(t: Seq<int>) -> int
    decreases t.len(),
{
    if t.len() == 0 {
        0
    } else {
        t[0] + seq_total(t.drop_first())
    }
}

proof fn lemma_seq_total_push(t: Seq<int>, x: int)
    ensures
        seq_total(t.push(x)) == seq_total(t) + x,
    decreases t.len(),
{
    if t.len() > 0 {
        assert(t.push(x).drop_first() =~= t.drop_first().push(x));
        assert(t.push(x)[0] == t[0]);
        lemma_seq_total_push(t.drop_first(), x);
    } else {
        assert(t.push(x)[0] == x);
        assert(seq_total(Seq::<int>::empty()) == 0);
        assert(t.push(x).drop_first() =~= Seq::<int>::empty());
    }
}

/// Taking as much as possible from each count in turn takes the whole
/// amount, or everything there is where that is less.
proof fn lemma_greedy_total(avail: Seq<int>, owed: int)
    requires
        0 <= owed,
        forall|j: int| 0 <= j < avail.len() ==> 0 <= #[trigger] avail[j],
    ensures
        seq_total(greedy_takes(avail, 0, owed)) == if owed <= seq_total(avail) {
            owed
        } else {
            seq_total(avail)
        },
        0 <= seq_total(avail),
    decreases avail.len(),
{
    if avail.len() > 0 {
        let t = if avail[0] < owed {
            avail[0]
        } else {
            owed
        };
        lemma_greedy_step(avail, 0, owed);
        assert forall|j: int| 0 <= j < avail.drop_first().len() implies 0 <= #[trigger] avail.drop_first()[j] by {
            assert(avail.drop_first()[j] == avail[j + 1]);
        }
        lemma_greedy_total(avail.drop_first(), owed - t);
    } else {
        assert(greedy_takes(avail, 0, owed) =~= Seq::<int>::empty());
    }
}

proof fn lemma_range_split(s: Seq<QuotaRecord>, lo: int, mid: int, hi: int)
    requires
        0 <= lo <= mid <= hi <= s.len(),
    ensures
        range_new(s, lo, hi) == range_new(s, lo, mid) + range_new(s, mid, hi),
        range_review(s, lo, hi) == range_review(s, lo, mid) + range_review(s, mid, hi),
        0 <= range_new(s, mid, hi),
        0 <= range_review(s, mid, hi),
    decreases hi - mid,
{
    if mid < hi {
        lemma_range_split(s, lo, mid, hi - 1);
    }
}

proof fn lemma_range_is_sum(s: Seq<QuotaRecord>, k: int)
    requires
        0 <= k <= s.len(),
    ensures
        range_new(s, 0, k) == sum_new(s.take(k)),
        range_review(s, 0, k) == sum_review(s.take(k)),
    decreases k,
{
    if k > 0 {
        lemma_range_is_sum(s, k - 1);
        assert(s.take(k).drop_last() =~= s.take(k - 1));
    } else {
        assert(s.take(0) =~= Seq::<QuotaRecord>::empty());
    }
}

proof fn lemma_missed_bounds(s: Seq<QuotaRecord>, c: int, i: int)
    requires
        0 <= c,
        c + 1 <= i <= s.len(),
    ensures
        missed_new(s.take(i), c) <= range_new(s, c + 1, i),
        missed_review(s.take(i), c) <= range_review(s, c + 1, i),
        -(i - c - 1) * 0x1_0000_0000 <= missed_new(s.take(i), c) <= (i - c - 1) * 0x1_0000_0000,
        -(i - c - 1) * 0x1_0000_0000 <= missed_review(s.take(i), c) <= (i - c - 1) * 0x1_0000_0000,
    decreases i,
{
    if i > c + 1 {
        lemma_missed_bounds(s, c, i - 1);
        assert(s.take(i).drop_last() =~= s.take(i - 1));
        assert(s.take(i).last() == s[i - 1]);
        lemma_range_split(s, c + 1, c + 1, i - 1);
        assert((i - c - 1) * 0x1_0000_0000 == (i - c - 2) * 0x1_0000_0000 + 0x1_0000_0000)
            by (nonlinear_arith);
    } else {
        assert(s.take(i).len() == c + 1);
    }
}

/// After every day past `c` is set to what was practiced, nothing is missed.
proof fn lemma_settled_no_backlog(s: Seq<QuotaRecord>, c: int, i: int)
    requires
        0 <= c,
        c + 1 <= i <= s.len(),
        forall|j: int|
            c < j < s.len() ==> #[trigger] s[j].new_assigned == s[j].new_practiced
                && s[j].review_assigned == s[j].review_practiced,
    ensures
        missed_new(s.take(i), c) == 0,
        missed_review(s.take(i), c) == 0,
    decreases i,
{
    if i > c + 1 {
        lemma_settled_no_backlog(s, c, i - 1);
        assert(s.take(i).drop_last() =~= s.take(i - 1));
        assert(s.take(i).last() == s[i - 1]);
    } else {
        assert(s.take(i).len() == c + 1);
    }
}

/// Each day of the rolled-forward prefix stays within a count.
proof fn lemma_prefix_day(s: Seq<QuotaRecord>, c: int, d: int)
    requires
        0 <= c < s.len(),
        0 <= d <= c,
        owed_new(s, c) >= 0,
        owed_review(s, c) >= 0,
        s[d].new_assigned + owed_new(s, c) <= u32::MAX,
        s[d].review_assigned + owed_review(s, c) <= u32::MAX,
    ensures
        0 <= share(owed_new(s, c), c, d, c) <= owed_new(s, c),
        0 <= share(owed_review(s, c), c, d, 1) <= owed_review(s, c),
        0 <= taken(new_absorbed(s, c), c, d) <= s[d].new_assigned,
        0 <= taken(review_absorbed(s, c), c, d) <= s[d].review_assigned,
        spread_prefix(s, c)[d].new_assigned == s[d].new_assigned + share(owed_new(s, c), c, d, c)
            - taken(new_absorbed(s, c), c, d),
        spread_prefix(s, c)[d].review_assigned == s[d].review_assigned + share(
            owed_review(s, c),
            c,
            d,
            1,
        ) - taken(review_absorbed(s, c), c, d),
{
    let on = owed_new(s, c);
    let or = owed_review(s, c);
    let nt = new_absorber_targets(s, c);
    let rt = review_absorber_targets(s, c);
    if c > 0 {
        lemma_div_mod_parts(on, c);
        lemma_div_mod_parts(or, c);
    }
    if c > 0 && d == 0 {
    } else {
        let k = if c == 0 {
            0
        } else {
            d - 1
        };
        assert(nt[k] == s[d].new_assigned);
        assert(rt[k] == s[d].review_assigned);
        lemma_greedy_takes(nt, 0, surplus(missed_new(s, c)), k);
        lemma_greedy_takes(rt, 0, surplus(missed_review(s, c)), k);
    }
}

/// The sums of the first `k + 1` days of the rolled-forward prefix.
proof fn lemma_prefix_partial(s: Seq<QuotaRecord>, c: int, k: int)
    requires
        1 <= c < s.len(),
        0 <= k <= c,
        forall|d: int|
            0 <= d <= c ==> s[d].new_assigned + owed_new(s, c) <= u32::MAX
                && s[d].review_assigned + owed_review(s, c) <= u32::MAX,
    ensures
        sum_new(spread_prefix(s, c).take(k + 1)) == range_new(s, 0, k + 1) + k * (owed_new(s, c)
            / c) + (if k == c {
            owed_new(s, c) % c
        } else {
            0
        }) - seq_total(new_absorbed(s, c).take(k)),
        sum_review(spread_prefix(s, c).take(k + 1)) == range_review(s, 0, k + 1) + k * (
        owed_review(s, c) / c) + (if k >= 1 {
            owed_review(s, c) % c
        } else {
            0
        }) - seq_total(review_absorbed(s, c).take(k)),
    decreases k,
{
    let on = owed_new(s, c);
    let or = owed_review(s, c);
    let sp = spread_prefix(s, c);
    let tn = new_absorbed(s, c);
    let tr = review_absorbed(s, c);
    lemma_greedy_len(new_absorber_targets(s, c), 0, surplus(missed_new(s, c)));
    lemma_greedy_len(review_absorber_targets(s, c), 0, surplus(missed_review(s, c)));
    lemma_prefix_day(s, c, k);
    assert(sp.take(k + 1).drop_last() =~= sp.take(k));
    assert(sp.take(k + 1).last() == sp[k]);
    assert(sum_new(sp.take(k + 1)) == sum_new(sp.take(k)) + sp[k].new_assigned);
    assert(sum_review(sp.take(k + 1)) == sum_review(sp.take(k)) + sp[k].review_assigned);
    assert(range_new(s, 0, k + 1) == range_new(s, 0, k) + s[k].new_assigned);
    assert(range_review(s, 0, k + 1) == range_review(s, 0, k) + s[k].review_assigned);
    if k == 0 {
        assert(sp.take(0) =~= Seq::<QuotaRecord>::empty());
        assert(sum_new(sp.take(0)) == 0 && sum_review(sp.take(0)) == 0);
        assert(tn.take(0) =~= Seq::<int>::empty());
        assert(tr.take(0) =~= Seq::<int>::empty());
    } else {
        lemma_prefix_partial(s, c, k - 1);
        assert(tn.take(k) =~= tn.take(k - 1).push(tn[k - 1]));
        assert(tr.take(k) =~= tr.take(k - 1).push(tr[k - 1]));
        lemma_seq_total_push(tn.take(k - 1), tn[k - 1]);
        lemma_seq_total_push(tr.take(k - 1), tr[k - 1]);
        assert(k * (on / c) == (k - 1) * (on / c) + on / c) by (nonlinear_arith);
        assert(k * (or / c) == (k - 1) * (or / c) + or / c) by (nonlinear_arith);
    }
}

/// The totals of the rolled-forward prefix: the days' own targets, plus
/// what is owed, less what a surplus took off.
proof fn lemma_prefix_sums(s: Seq<QuotaRecord>, c: int)
    requires
        0 <= c < s.len(),
        forall|d: int|
            0 <= d <= c ==> s[d].new_assigned + owed_new(s, c) <= u32::MAX
                && s[d].review_assigned + owed_review(s, c) <= u32::MAX,
    ensures
        sum_new(spread_prefix(s, c)) == range_new(s, 0, c + 1) + owed_new(s, c) - seq_total(
            new_absorbed(s, c),
        ),
        sum_review(spread_prefix(s, c)) == range_review(s, 0, c + 1) + owed_review(s, c)
            - seq_total(review_absorbed(s, c)),
{
    let sp = spread_prefix(s, c);
    let tn = new_absorbed(s, c);
    let tr = review_absorbed(s, c);
    lemma_greedy_len(new_absorber_targets(s, c), 0, surplus(missed_new(s, c)));
    lemma_greedy_len(review_absorber_targets(s, c), 0, surplus(missed_review(s, c)));
    if c == 0 {
        lemma_prefix_day(s, 0, 0);
        assert(sp.drop_last() =~= Seq::<QuotaRecord>::empty());
        assert(sum_new(sp.drop_last()) == 0 && sum_review(sp.drop_last()) == 0);
        assert(sp.last() == sp[0]);
        assert(tn.drop_first() =~= Seq::<int>::empty());
        assert(tr.drop_first() =~= Seq::<int>::empty());
        assert(seq_total(tn.drop_first()) == 0);
        assert(seq_total(tr.drop_first()) == 0);
        assert(seq_total(tn) == tn[0]);
        assert(seq_total(tr) == tr[0]);
        assert(sum_new(sp) == sp[0].new_assigned);
        assert(sum_review(sp) == sp[0].review_assigned);
        assert(range_new(s, 0, 1) == range_new(s, 0, 0) + s[0].new_assigned);
        assert(range_review(s, 0, 1) == range_review(s, 0, 0) + s[0].review_assigned);
    } else {
        lemma_prefix_partial(s, c, c);
        assert(sp.take(c + 1) =~= sp);
        assert(tn.len() == c);
        assert(tn.take(c) =~= tn);
        assert(tr.take(c) =~= tr);
        lemma_div_mod_parts(owed_new(s, c), c);
        lemma_div_mod_parts(owed_review(s, c), c);
        assert(c * (owed_new(s, c) / c) + owed_new(s, c) % c == owed_new(s, c));
        assert(c * (owed_review(s, c) / c) + owed_review(s, c) % c == owed_review(s, c));
    }
}

proof fn lemma_div_mod_parts(x: int, d: int)
    requires
        0 <= x,
        1 <= d,
    ensures
        0 <= x / d,
        0 <= x % d,
        x / d + x % d <= x,
        d * (x / d) + x % d == x,
{
    lemma_floor_div(x, d);
    lemma_fundamental_div_mod(x, d);
    lemma_mod_pos_bound(x, d);
    assert(x / d <= d * (x / d)) by (nonlinear_arith)
        requires
            0 <= x / d,
            1 <= d,
    ;
}

/// The index of today's record: days to go, or 0 once the deadline has passed.
pub open spec fn today_index(days_to_go: int) -> int {
    if days_to_go < 0 {
        0
    } else {
        days_to_go
    }
}

/// Computes `greedy_takes(avail, 0, amount)`: as much as possible from each
/// count in turn until `amount` is used up.
fn absorb(avail: &Vec<u32>, amount: u128) -> (takes: Vec<u32>)
    ensures
        takes@.len() == avail@.len(),
        as_ints(takes@) == greedy_takes(as_ints(avail@), 0, amount as int),
{
    let ghost all = greedy_takes(as_ints(avail@), 0, amount as int);
    let ghost n = avail@.len();
    proof {
        lemma_greedy_len(as_ints(avail@), 0, amount as int);
        assert(as_ints(avail@).skip(0) =~= as_ints(avail@));
        assert(all.skip(0) =~= all);
    }
    let mut takes: Vec<u32> = Vec::new();
    let mut still: u128 = amount;
    let mut k: usize = 0;
    while k < avail.len()
        invariant
            n == avail@.len(),
            k <= n,
            all == greedy_takes(as_ints(avail@), 0, amount as int),
            all.len() == n,
            all.skip(k as int) == greedy_takes(as_ints(avail@).skip(k as int), 0, still as int),
            takes@.len() == k,
            forall|j: int| 0 <= j < k ==> takes@[j] as int == all[j],
        decreases n - k,
    {
        let ghost rest = as_ints(avail@).skip(k as int);
        proof {
            lemma_greedy_step(rest, 0, still as int);
            assert(rest[0] == avail@[k as int]);
            assert(rest.drop_first() =~= as_ints(avail@).skip(k + 1));
            assert(all.skip(k as int)[0] == all[k as int]);
            assert(all.skip(k + 1) =~= all.skip(k as int).drop_first());
        }
        let a = avail[k] as u128;
        let t: u128 = if a < still {
            a
        } else {
            still
        };
        takes.push(t as u32);
        still = still - t;
        k = k + 1;
    }
    assert(as_ints(takes@) =~= all);
    takes
}

/// Reconciles a quota table, indexed by days to go, with the days that went
/// by: where the past days' assigned minus practiced totals are not both 0,
/// each past day is set to what was practiced on it, and what they owe (a
/// negative total owes nothing) is added to today and the days left before
/// the deadline (see `missed_days_handled`).
#[verifier::spinoff_prover]
pub fn handle_missed_days(quotas: &mut Vec<QuotaRecord>, days_to_go: i32)
    requires
        sum_new(old(quotas)@) <= u32::MAX,
        sum_review(old(quotas)@) <= u32::MAX,
    ensures
        missed_days_handled(old(quotas)@, final(quotas)@, today_index(days_to_go as int)),
{
    let ghost s0 = quotas@;
    let c: usize = if days_to_go < 0 {
        0
    } else {
        days_to_go as usize
    };
    let ghost gc = c as int;
    let n = quotas.len();
    if c + 1 >= n {
        assert(no_backlog(s0, gc));
        return;
    }
    proof {
        lemma_range_is_sum(s0, n as int);
        assert(s0.take(n as int) =~= s0);
        lemma_range_split(s0, 0, gc + 1, n as int);
        lemma_range_split(s0, 0, 0, gc + 1);
    }
    let mut sum_n: i128 = 0;
    let mut sum_r: i128 = 0;
    let mut i: usize = c + 1;
    while i < n
        invariant
            n == quotas@.len(),
            quotas@ == s0,
            gc == c,
            c + 1 <= i <= n,
            sum_n == missed_new(s0.take(i as int), gc),
            sum_r == missed_review(s0.take(i as int), gc),
        decreases n - i,
    {
        proof {
            lemma_missed_bounds(s0, gc, i + 1);
            assert(s0.take(i + 1).drop_last() =~= s0.take(i as int));
            assert(s0.take(i + 1).last() == s0[i as int]);
            assert((i + 1 - gc - 1) * 0x1_0000_0000 <= 0xffff_ffff_ffff_ffff * 0x1_0000_0000)
                by (nonlinear_arith)
                requires
                    i + 1 - gc - 1 <= 0xffff_ffff_ffff_ffff,
            ;
        }
        let q = quotas[i];
        sum_n = sum_n + (q.new_assigned as i128 - q.new_practiced as i128);
        sum_r = sum_r + (q.review_assigned as i128 - q.review_practiced as i128);
        i = i + 1;
    }
    proof {
        lemma_missed_bounds(s0, gc, n as int);
        assert(s0.take(n as int) =~= s0);
        lemma_range_split(s0, gc + 1, gc + 1, n as int);
    }
    if sum_n == 0 && sum_r == 0 {
        assert(no_backlog(s0, gc));
        return;
    }
    assert(!no_backlog(s0, gc));
    let owed_n: u64 = if sum_n < 0 {
        0
    } else {
        sum_n as u64
    };
    let owed_r: u64 = if sum_r < 0 {
        0
    } else {
        sum_r as u64
    };
    let surplus_n: u128 = if sum_n < 0 {
        (-sum_n) as u128
    } else {
        0
    };
    let surplus_r: u128 = if sum_r < 0 {
        (-sum_r) as u128
    } else {
        0
    };
    proof {
        assert(owed_n == owed_new(s0, gc) && owed_r == owed_review(s0, gc));
        assert(surplus_n == surplus(missed_new(s0, gc)));
        assert(surplus_r == surplus(missed_review(s0, gc)));
        assert(range_new(s0, 0, gc + 1) + range_new(s0, gc + 1, n as int) <= u32::MAX);
        assert(range_review(s0, 0, gc + 1) + range_review(s0, gc + 1, n as int) <= u32::MAX);
        assert forall|d: int| 0 <= d <= gc implies s0[d].new_assigned + owed_new(s0, gc)
            <= u32::MAX && s0[d].review_assigned + owed_review(s0, gc) <= u32::MAX by {
            lemma_range_split(s0, 0, d, gc + 1);
            lemma_range_split(s0, d, d + 1, gc + 1);
            lemma_range_split(s0, 0, 0, d);
            assert(range_new(s0, d, d) == 0);
            assert(range_review(s0, d, d) == 0);
            assert(range_new(s0, d, d + 1) == s0[d].new_assigned);
            assert(range_review(s0, d, d + 1) == s0[d].review_assigned);
        }
    }
    let k_abs: usize = if c == 0 {
        1
    } else {
        c
    };
    let mut new_targets: Vec<u32> = Vec::new();
    let mut review_targets: Vec<u32> = Vec::new();
    let mut k: usize = 0;
    while k < k_abs
        invariant
            n == quotas@.len(),
            quotas@ == s0,
            gc == c,
            c < n,
            k_abs == absorbers(gc),
            k <= k_abs,
            new_targets@.len() == k,
            review_targets@.len() == k,
            forall|j: int|
                0 <= j < k ==> new_targets@[j] == s0[absorber_day(gc, j)].new_assigned
                    && review_targets@[j] == s0[absorber_day(gc, j)].review_assigned,
        decreases k_abs - k,
    {
        let day: usize = if c == 0 {
            0
        } else {
            k + 1
        };
        new_targets.push(quotas[day].new_assigned);
        review_targets.push(quotas[day].review_assigned);
        k = k + 1;
    }
    assert(as_ints(new_targets@) =~= new_absorber_targets(s0, gc));
    assert(as_ints(review_targets@) =~= review_absorber_targets(s0, gc));
    let new_takes = absorb(&new_targets, surplus_n);
    let review_takes = absorb(&review_targets, surplus_r);
    let ghost tn = new_absorbed(s0, gc);
    let ghost tr = review_absorbed(s0, gc);
    assert(as_ints(new_takes@) == tn);
    assert(as_ints(review_takes@) == tr);
    let mut out: Vec<QuotaRecord> = Vec::new();
    let mut d: usize = 0;
    while d <= c
        invariant
            n == quotas@.len(),
            quotas@ == s0,
            gc == c,
            c < n,
            d <= c + 1,
            owed_n == owed_new(s0, gc),
            owed_r == owed_review(s0, gc),
            new_takes@.len() == absorbers(gc),
            review_takes@.len() == absorbers(gc),
            as_ints(new_takes@) == tn,
            as_ints(review_takes@) == tr,
            tn == new_absorbed(s0, gc),
            tr == review_absorbed(s0, gc),
            forall|e: int|
                0 <= e <= gc ==> s0[e].new_assigned + owed_new(s0, gc) <= u32::MAX
                    && s0[e].review_assigned + owed_review(s0, gc) <= u32::MAX,
            out@ =~= spread_prefix(s0, gc).take(d as int),
        decreases c + 1 - d,
    {
        proof {
            lemma_prefix_day(s0, gc, d as int);
            if c > 0 {
                lemma_div_mod_parts(owed_n as int, gc);
                lemma_div_mod_parts(owed_r as int, gc);
            }
        }
        let q = quotas[d];
        let share_n: u64 = if c == 0 {
            if d == 0 {
                owed_n
            } else {
                0
            }
        } else if d == 0 {
            0
        } else {
            owed_n / (c as u64) + if d == c {
                owed_n % (c as u64)
            } else {
                0
            }
        };
        let share_r: u64 = if c == 0 {
            if d == 0 {
                owed_r
            } else {
                0
            }
        } else if d == 0 {
            0
        } else {
            owed_r / (c as u64) + if d == 1 {
                owed_r % (c as u64)
            } else {
                0
            }
        };
        let take_n: u32 = if c == 0 {
            if d == 0 {
                new_takes[0]
            } else {
                0
            }
        } else if d == 0 {
            0
        } else {
            new_takes[d - 1]
        };
        let take_r: u32 = if c == 0 {
            if d == 0 {
                review_takes[0]
            } else {
                0
            }
        } else if d == 0 {
            0
        } else {
            review_takes[d - 1]
        };
        proof {
            assert(share_n == share(owed_new(s0, gc), gc, d as int, gc));
            assert(share_r == share(owed_review(s0, gc), gc, d as int, 1));
            if c == 0 {
                assert(as_ints(new_takes@)[0] == tn[0]);
                assert(as_ints(review_takes@)[0] == tr[0]);
            } else if d > 0 {
                assert(as_ints(new_takes@)[d - 1] == tn[d - 1]);
                assert(as_ints(review_takes@)[d - 1] == tr[d - 1]);
            }
            assert(take_n == taken(tn, gc, d as int));
            assert(take_r == taken(tr, gc, d as int));
        }
        out.push(
            QuotaRecord {
                new_assigned: (q.new_assigned as u64 + share_n - take_n as u64) as u32,
                review_assigned: (q.review_assigned as u64 + share_r - take_r as u64) as u32,
                ..q
            },
        );
        d = d + 1;
    }
    proof {
        assert(out@ =~= spread_prefix(s0, gc));
        lemma_prefix_sums(s0, gc);
        lemma_greedy_total(new_absorber_targets(s0, gc), surplus(missed_new(s0, gc)));
        lemma_greedy_total(review_absorber_targets(s0, gc), surplus(missed_review(s0, gc)));
        lemma_range_split(s0, 0, 0, gc + 1);
    }
    if c > 0 {
        redistribute_quotas(&mut out);
    }
    assert(out@.len() == c + 1);
    assert(c > 0 ==> redistributed(spread_prefix(s0, gc), out@));
    assert(c == 0 ==> out@[0] == spread_prefix(s0, gc)[0]);
    let ghost head = out@;
    let mut i: usize = c + 1;
    while i < n
        invariant
            n == quotas@.len(),
            quotas@ == s0,
            c + 1 <= i <= n,
            out@.len() == i,
            out@.take(c + 1) == head,
            head.len() == c + 1,
            forall|j: int| c < j < i ==> out@[j] == settled(#[trigger] s0[j]),
        decreases n - i,
    {
        let q = quotas[i];
        out.push(QuotaRecord { new_assigned: q.new_practiced, review_assigned: q.review_practiced, ..q });
        proof {
            assert(out@.take(c + 1) =~= head);
        }
        i = i + 1;
    }
    proof {
        assert(out@.take(c + 1) == head);
        assert(out@[0] == head[0]);
        assert(out@.len() == s0.len());
        assert(out@.take(gc + 1) == head);
        assert forall|j: int| gc < j < out@.len() implies #[trigger] out@[j].new_assigned
            == out@[j].new_practiced && out@[j].review_assigned == out@[j].review_practiced by {
            assert(out@[j] == settled(s0[j]));
        }
        lemma_settled_no_backlog(out@, gc, n as int);
        assert(out@.take(n as int) =~= out@);
        assert(no_backlog(out@, gc));
        assert(!no_backlog(s0, gc));
        assert(forall|j: int| gc < j < s0.len() ==> out@[j] == settled(#[trigger] s0[j]));
        assert(gc == 0 ==> out@[0] == spread_prefix(s0, gc)[0]);
        assert(gc > 0 ==> redistributed(spread_prefix(s0, gc), out@.take(gc + 1)));
        assert(missed_days_handled(s0, out@, gc));
    }
    *quotas = out;
}

/// Reconciling missed days twice on the same day changes nothing the second
/// time: the first pass leaves both missed totals of the past days at 0.
pub proof fn lemma_handle_missed_days_idempotent(
    first: Seq<QuotaRecord>,
    once: Seq<QuotaRecord>,
    twice: Seq<QuotaRecord>,
    c: int,
)
    requires
        missed_days_handled(first, once, c),
        missed_days_handled(once, twice, c),
    ensures
        twice == once,
{
}

/// The counts of a record are small enough for a `Quota`.
pub open spec fn record_fits(r: QuotaRecord) -> bool {
    &&& r.new_assigned <= 0x3fff_ffff
    &&& r.review_assigned <= 0x3fff_ffff
    &&& r.new_practiced <= 0x3fff_ffff
    &&& r.review_practiced <= 0x3fff_ffff
}

/// `a - b`, or 0 where `b` is larger.
pub open spec fn left(a: int, b: int) -> int {
    if a > b {
        a - b
    } else {
        0
    }
}

/// What a record leaves to do: assigned minus practiced, and the progress so far.
pub open spec fn quota_of(r: QuotaRecord) -> Quota {
    Quota {
        new_left: left(r.new_assigned as int, r.new_practiced as int) as i32,
        review_left: left(r.review_assigned as int, r.review_practiced as int) as i32,
        num_progressed: (r.new_practiced + r.review_practiced) as i32,
    }
}

/// A quota with nothing to do.
pub open spec fn zero_quota() -> Quota {
    Quota { new_left: 0, review_left: 0, num_progressed: 0 }
}

/// Today's quota: what the first record for `days_to_go` leaves to do, or
/// nothing at all where the table has no record for that day (a deck with
/// no cards, say).
pub fn get_quotas(quotas: &Vec<QuotaRecord>, days_to_go: u32) -> (r: Quota)
    requires
        forall|i: int| 0 <= i < quotas@.len() ==> record_fits(#[trigger] quotas@[i]),
    ensures
        (forall|i: int| 0 <= i < quotas@.len() ==> #[trigger] quotas@[i].days_to_go != days_to_go)
            ==> r == zero_quota(),
        forall|i: int|
            0 <= i < quotas@.len() && #[trigger] quotas@[i].days_to_go == days_to_go && (forall|j: int|
                0 <= j < i ==> quotas@[j].days_to_go != days_to_go) ==> r == quota_of(quotas@[i]),
{
    let mut i: usize = 0;
    while i < quotas.len()
        invariant
            i <= quotas@.len(),
            forall|j: int| 0 <= j < i ==> #[trigger] quotas@[j].days_to_go != days_to_go,
            forall|j: int| 0 <= j < quotas@.len() ==> record_fits(#[trigger] quotas@[j]),
        decreases quotas@.len() - i,
    {
        let q = quotas[i];
        if q.days_to_go == days_to_go {
            let new_left: u32 = if q.new_assigned > q.new_practiced {
                q.new_assigned - q.new_practiced
            } else {
                0
            };
            let review_left: u32 = if q.review_assigned > q.review_practiced {
                q.review_assigned - q.review_practiced
            } else {
                0
            };
            assert(record_fits(quotas@[i as int]));
            return Quota {
                new_left: new_left as i32,
                review_left: review_left as i32,
                num_progressed: (q.new_practiced + q.review_practiced) as i32,
            };
        }
        i = i + 1;
    }
    Quota { new_left: 0, review_left: 0, num_progressed: 0 }
}

/// Sets today's practiced counts from what a session left to do: what was
/// assigned minus what is left, and no less than 0.
pub fn record_progress(quotas: &mut Vec<QuotaRecord>, day: usize, new_left: i32, review_left: i32)
    requires
        day < old(quotas)@.len(),
    ensures
        final(quotas)@ == old(quotas)@.update(
            day as int,
            QuotaRecord {
                new_practiced: left(old(quotas)@[day as int].new_assigned as int, new_left as int) as u32,
                review_practiced: left(
                    old(quotas)@[day as int].review_assigned as int,
                    review_left as int,
                ) as u32,
                ..old(quotas)@[day as int]
            },
        ),
{
    let q = quotas[day];
    let nl: i64 = new_left as i64;
    let rl: i64 = review_left as i64;
    let new_done: u32 = if q.new_assigned as i64 > nl {
        (q.new_assigned as i64 - nl) as u32
    } else {
        0
    };
    let review_done: u32 = if q.review_assigned as i64 > rl {
        (q.review_assigned as i64 - rl) as u32
    } else {
        0
    };
    quotas.set(day, QuotaRecord { new_practiced: new_done, review_practiced: review_done, ..q });
}

/// The number of boxes for a deck whose deadline is `days_to_go` days away:
/// 2 for up to a day, then one more for each bin of days
/// (2..=6, 7..=15, 16..=32, 33..=65, 66..=130, 131..=259).
pub open spec fn num_boxes_for(days_to_go: int) -> int {
    if days_to_go <= 1 {
        2
    } else if days_to_go <= 6 {
        3
    } else if days_to_go <= 15 {
        4
    } else if days_to_go <= 32 {
        5
    } else if days_to_go <= 65 {
        6
    } else if days_to_go <= 130 {
        7
    } else {
        8
    }
}

/// The number of boxes for a deadline `days_to_go` days away, between 0 and 259.
pub fn get_num_boxes(days_to_go: i64) -> (r: i32)
    requires
        0 <= days_to_go <= 259,
    ensures
        r == num_boxes_for(days_to_go as int),
{
    let bins: [(i64, i64); 7] = [(0, 1), (2, 6), (7, 15), (16, 32), (33, 65), (66, 130), (131, 259)];
    let mut i: usize = 0;
    while i < 7
        invariant
            i <= 7,
            bins@ == seq![(0i64, 1i64), (2, 6), (7, 15), (16, 32), (33, 65), (66, 130), (131, 259)],
            0 <= days_to_go <= 259,
            forall|j: int| 0 <= j < i ==> !(#[trigger] bins@[j].0 <= days_to_go <= bins@[j].1),
        decreases 7 - i,
    {
        let (a, b) = bins[i];
        if a <= days_to_go && days_to_go <= b {
            return 2 + i as i32;
        }
        i = i + 1;
    }
    proof {
        assert(!(bins@[0].0 <= days_to_go <= bins@[0].1));
        assert(!(bins@[1].0 <= days_to_go <= bins@[1].1));
        assert(!(bins@[2].0 <= days_to_go <= bins@[2].1));
        assert(!(bins@[3].0 <= days_to_go <= bins@[3].1));
        assert(!(bins@[4].0 <= days_to_go <= bins@[4].1));
        assert(!(bins@[5].0 <= days_to_go <= bins@[5].1));
        assert(!(bins@[6].0 <= days_to_go <= bins@[6].1));
    }
    2
}

/// Cards that have left box 0.
pub open spec fn advanced_new(pos: Seq<usize>) -> int
    decreases pos.len(),
{
    if pos.len() == 0 {
        0
    } else {
        advanced_new(pos.drop_last()) + if pos.last() > 0 {
            1int
        } else {
            0int
        }
    }
}

/// Box moves made beyond the first, over all cards.
pub open spec fn advanced_review(pos: Seq<usize>) -> int
    decreases pos.len(),
{
    if pos.len() == 0 {
        0
    } else {
        advanced_review(pos.drop_last()) + if pos.last() > 0 {
            pos.last() - 1
        } else {
            0
        }
    }
}

/// Takes `per` from each of `avail` in turn, plus what is still owed
/// (`owed` to begin with); no count gives more than it has.
pub open spec fn greedy_takes(avail: Seq<int>, per: int, owed: int) -> Seq<int>
    decreases avail.len(),
{
    if avail.len() == 0 {
        Seq::empty()
    } else {
        let want = per + owed;
        let t = if avail[0] < want {
            avail[0]
        } else {
            want
        };
        seq![t] + greedy_takes(avail.drop_first(), per, want - t)
    }
}

/// The new counts of days `1..len`, nearest day first.
pub open spec fn new_counts(t: Seq<QuotaRecord>) -> Seq<int> {
    Seq::new((t.len() - 1) as nat, |k: int| t[k + 1].new_assigned as int)
}

/// The review counts of days `1..len`, farthest day first.
pub open spec fn review_counts(t: Seq<QuotaRecord>) -> Seq<int> {
    Seq::new((t.len() - 1) as nat, |k: int| t[t.len() - 1 - k].review_assigned as int)
}

/// A fresh plan less the progress that `box_positions` shows: one
/// introduction for each card out of box 0, taken evenly from days
/// `1..len` with the remainder from the nearest days, and one review for
/// each further box move, taken evenly with the remainder from the farthest
/// days. A day short of its share passes the rest on to the next one.
pub open spec fn discounted(t: Seq<QuotaRecord>, box_positions: Seq<usize>) -> Seq<QuotaRecord> {
    let days = t.len() - 1;
    let an = advanced_new(box_positions);
    let ar = advanced_review(box_positions);
    let tn = greedy_takes(new_counts(t), an / days, an % days);
    let tr = greedy_takes(review_counts(t), ar / days, ar % days);
    Seq::new(
        t.len(),
        |d: int|
            if d == 0 {
                t[0]
            } else {
                QuotaRecord {
                    new_assigned: (t[d].new_assigned - tn[d - 1]) as u32,
                    new_quota_initial: (t[d].new_quota_initial - tn[d - 1]) as u32,
                    review_assigned: (t[d].review_assigned - tr[t.len() - 1 - d]) as u32,
                    review_quota_initial: (t[d].review_quota_initial - tr[t.len() - 1 - d]) as u32,
                    ..t[d]
                }
            },
    )
}

proof fn lemma_greedy_takes(avail: Seq<int>, per: int, owed: int, k: int)
    requires
        0 <= per,
        0 <= owed,
        0 <= k < avail.len(),
        forall|j: int| 0 <= j < avail.len() ==> 0 <= #[trigger] avail[j],
    ensures
        greedy_takes(avail, per, owed).len() == avail.len(),
        0 <= greedy_takes(avail, per, owed)[k] <= avail[k],
    decreases avail.len(),
{
    lemma_greedy_len(avail, per, owed);
    if k > 0 {
        let want = per + owed;
        let t = if avail[0] < want {
            avail[0]
        } else {
            want
        };
        lemma_greedy_takes(avail.drop_first(), per, want - t, k - 1);
    }
}

proof fn lemma_greedy_len(avail: Seq<int>, per: int, owed: int)
    ensures
        greedy_takes(avail, per, owed).len() == avail.len(),
    decreases avail.len(),
{
    if avail.len() > 0 {
        let want = per + owed;
        let t = if avail[0] < want {
            avail[0]
        } else {
            want
        };
        lemma_greedy_len(avail.drop_first(), per, want - t);
    }
}

/// The takes from `k` on are the takes of the counts from `k` on, with
/// what is owed at `k`.
proof fn lemma_greedy_step(avail: Seq<int>, per: int, owed: int)
    requires
        avail.len() > 0,
    ensures
        greedy_takes(avail, per, owed)[0] == (if avail[0] < per + owed {
            avail[0]
        } else {
            per + owed
        }),
        greedy_takes(avail, per, owed).drop_first() == greedy_takes(
            avail.drop_first(),
            per,
            per + owed - greedy_takes(avail, per, owed)[0],
        ),
{
    let g = greedy_takes(avail, per, owed);
    let want = per + owed;
    let t = if avail[0] < want {
        avail[0]
    } else {
        want
    };
    assert(g == seq![t] + greedy_takes(avail.drop_first(), per, want - t));
    assert(g.drop_first() =~= greedy_takes(avail.drop_first(), per, want - t));
}

/// The counts of `avail` as integers.
pub open spec fn as_ints(avail: Seq<u32>) -> Seq<int> {
    Seq::new(avail.len(), |k: int| avail[k] as int)
}

/// Computes `greedy_takes` of `avail`.
fn greedy_take_counts(avail: &Vec<u32>, per: u64, owed: u64) -> (takes: Vec<u32>)
    requires
        owed + per * avail@.len() <= u64::MAX,
    ensures
        takes@.len() == avail@.len(),
        as_ints(takes@) == greedy_takes(as_ints(avail@), per as int, owed as int),
{
    let ghost all = greedy_takes(as_ints(avail@), per as int, owed as int);
    let ghost n = avail@.len();
    proof {
        lemma_greedy_len(as_ints(avail@), per as int, owed as int);
        assert(as_ints(avail@).skip(0) =~= as_ints(avail@));
        assert(all.skip(0) =~= all);
    }
    let mut takes: Vec<u32> = Vec::new();
    let mut still: u64 = owed;
    let mut k: usize = 0;
    while k < avail.len()
        invariant
            n == avail@.len(),
            k <= n,
            all == greedy_takes(as_ints(avail@), per as int, owed as int),
            all.len() == n,
            all.skip(k as int) == greedy_takes(as_ints(avail@).skip(k as int), per as int, still as int),
            takes@.len() == k,
            forall|j: int| 0 <= j < k ==> takes@[j] as int == all[j],
            still + per * (n - k) <= owed + per * n,
            owed + per * n <= u64::MAX,
        decreases n - k,
    {
        let ghost rest = as_ints(avail@).skip(k as int);
        proof {
            lemma_greedy_step(rest, per as int, still as int);
            assert(rest[0] == avail@[k as int]);
            assert(rest.drop_first() =~= as_ints(avail@).skip(k + 1));
            assert(all.skip(k as int)[0] == all[k as int]);
            assert(all.skip(k + 1) =~= all.skip(k as int).drop_first());
            assert(per * (n - k) == per * (n - k - 1) + per) by (nonlinear_arith);
        }
        let want: u64 = per + still;
        let a = avail[k] as u64;
        let t: u64 = if a < want {
            a
        } else {
            want
        };
        takes.push(t as u32);
        still = want - t;
        k = k + 1;
    }
    assert(as_ints(takes@) =~= all);
    takes
}

proof fn lemma_advanced_bounds(pos: Seq<usize>, k: int)
    requires
        0 <= k <= pos.len(),
    ensures
        0 <= advanced_new(pos.take(k)) <= advanced_new(pos),
        0 <= advanced_review(pos.take(k)) <= advanced_review(pos),
        advanced_new(pos) <= pos.len(),
    decreases pos.len() - k,
{
    if k < pos.len() {
        lemma_advanced_bounds(pos, k + 1);
        assert(pos.take(k + 1).drop_last() =~= pos.take(k));
        assert(pos.take(k + 1).last() == pos[k]);
        lemma_advanced_nonneg(pos.take(k));
    } else {
        assert(pos.take(k) =~= pos);
        lemma_advanced_nonneg(pos);
    }
}

proof fn lemma_advanced_nonneg(pos: Seq<usize>)
    ensures
        0 <= advanced_new(pos) <= pos.len(),
        0 <= advanced_review(pos),
    decreases pos.len(),
{
    if pos.len() > 0 {
        lemma_advanced_nonneg(pos.drop_last());
    }
}

/// Takes the progress that `box_positions` shows off a fresh plan (see
/// `discounted`); a plan of one day is left as it is.
#[verifier::spinoff_prover]
pub fn discount_past_progressions(new_quotas: &mut Vec<QuotaRecord>, box_positions: &Vec<usize>)
    requires
        advanced_review(box_positions@) <= u64::MAX,
        forall|d: int|
            0 <= d < old(new_quotas)@.len() ==> #[trigger] old(new_quotas)@[d].new_quota_initial
                >= old(new_quotas)@[d].new_assigned && old(new_quotas)@[d].review_quota_initial
                >= old(new_quotas)@[d].review_assigned,
    ensures
        old(new_quotas)@.len() <= 1 ==> final(new_quotas)@ == old(new_quotas)@,
        old(new_quotas)@.len() > 1 ==> final(new_quotas)@ == discounted(
            old(new_quotas)@,
            box_positions@,
        ),
{
    let ghost t0 = new_quotas@;
    let len = new_quotas.len();
    if len <= 1 {
        return;
    }
    let mut an: u64 = 0;
    let mut ar: u64 = 0;
    let mut j: usize = 0;
    while j < box_positions.len()
        invariant
            j <= box_positions@.len(),
            an == advanced_new(box_positions@.take(j as int)),
            ar == advanced_review(box_positions@.take(j as int)),
            advanced_review(box_positions@) <= u64::MAX,
        decreases box_positions@.len() - j,
    {
        proof {
            lemma_advanced_bounds(box_positions@, j + 1);
            assert(box_positions@.take(j + 1).drop_last() =~= box_positions@.take(j as int));
        }
        let p = box_positions[j];
        if p > 0 {
            an = an + 1;
            ar = ar + (p as u64 - 1);
        }
        j = j + 1;
    }
    proof {
        assert(box_positions@.take(box_positions@.len() as int) =~= box_positions@);
    }
    let days = (len - 1) as u64;
    let mut new_avail: Vec<u32> = Vec::new();
    let mut review_avail: Vec<u32> = Vec::new();
    let mut k: usize = 0;
    while k < len - 1
        invariant
            len == new_quotas@.len(),
            new_quotas@ == t0,
            len > 1,
            k <= len - 1,
            new_avail@.len() == k,
            review_avail@.len() == k,
            forall|i: int| 0 <= i < k ==> new_avail@[i] == t0[i + 1].new_assigned,
            forall|i: int| 0 <= i < k ==> review_avail@[i] == t0[len - 1 - i].review_assigned,
        decreases len - 1 - k,
    {
        new_avail.push(new_quotas[k + 1].new_assigned);
        review_avail.push(new_quotas[len - 1 - k].review_assigned);
        k = k + 1;
    }
    proof {
        assert(as_ints(new_avail@) =~= new_counts(t0));
        assert(as_ints(review_avail@) =~= review_counts(t0));
        lemma_fundamental_div_mod(an as int, days as int);
        lemma_fundamental_div_mod(ar as int, days as int);
        lemma_mod_pos_bound(an as int, days as int);
        lemma_mod_pos_bound(ar as int, days as int);
        assert((an / days) * days == days * (an / days)) by (nonlinear_arith);
        assert((ar / days) * days == days * (ar / days)) by (nonlinear_arith);
    }
    let new_takes = greedy_take_counts(&new_avail, an / days, an % days);
    let review_takes = greedy_take_counts(&review_avail, ar / days, ar % days);
    let ghost tn = greedy_takes(new_counts(t0), (an / days) as int, (an % days) as int);
    let ghost tr = greedy_takes(review_counts(t0), (ar / days) as int, (ar % days) as int);
    proof {
        assert forall|i: int| 0 <= i < len - 1 implies 0 <= #[trigger] tn[i] <= new_counts(t0)[i] by {
            lemma_greedy_takes(new_counts(t0), (an / days) as int, (an % days) as int, i);
        }
        assert forall|i: int| 0 <= i < len - 1 implies 0 <= #[trigger] tr[i] <= review_counts(t0)[i] by {
            lemma_greedy_takes(review_counts(t0), (ar / days) as int, (ar % days) as int, i);
        }
        assert(tn == greedy_takes(
            new_counts(t0),
            advanced_new(box_positions@) / (t0.len() - 1),
            advanced_new(box_positions@) % (t0.len() - 1),
        ));
        assert(tr == greedy_takes(
            review_counts(t0),
            advanced_review(box_positions@) / (t0.len() - 1),
            advanced_review(box_positions@) % (t0.len() - 1),
        ));
    }
    let mut d: usize = 1;
    while d < len
        invariant
            len == new_quotas@.len(),
            len == t0.len(),
            len > 1,
            1 <= d <= len,
            new_takes@.len() == len - 1,
            review_takes@.len() == len - 1,
            as_ints(new_takes@) == tn,
            as_ints(review_takes@) == tr,
            forall|i: int| 0 <= i < len - 1 ==> 0 <= #[trigger] tn[i] <= new_counts(t0)[i],
            forall|i: int| 0 <= i < len - 1 ==> 0 <= #[trigger] tr[i] <= review_counts(t0)[i],
            forall|i: int|
                0 <= i < len ==> #[trigger] t0[i].new_quota_initial >= t0[i].new_assigned
                    && t0[i].review_quota_initial >= t0[i].review_assigned,
            new_quotas@[0] == t0[0],
            forall|i: int| d <= i < len ==> #[trigger] new_quotas@[i] == t0[i],
            forall|i: int|
                1 <= i < d ==> #[trigger] new_quotas@[i] == discounted(t0, box_positions@)[i],
            an == advanced_new(box_positions@),
            ar == advanced_review(box_positions@),
            days == len - 1,
            tn == greedy_takes(
                new_counts(t0),
                advanced_new(box_positions@) / (t0.len() - 1),
                advanced_new(box_positions@) % (t0.len() - 1),
            ),
            tr == greedy_takes(
                review_counts(t0),
                advanced_review(box_positions@) / (t0.len() - 1),
                advanced_review(box_positions@) % (t0.len() - 1),
            ),
        decreases len - d,
    {
        let q = new_quotas[d];
        let nt = new_takes[d - 1];
        let rt = review_takes[len - 1 - d];
        proof {
            assert(as_ints(new_takes@)[d - 1] == tn[d - 1]);
            assert(as_ints(review_takes@)[len - 1 - d] == tr[len - 1 - d]);
            assert(new_counts(t0)[d - 1] == t0[d as int].new_assigned);
            assert(review_counts(t0)[len - 1 - d] == t0[d as int].review_assigned);
            assert(0 <= tn[d - 1] <= new_counts(t0)[d - 1]);
            assert(0 <= tr[len - 1 - d] <= review_counts(t0)[len - 1 - d]);
        }
        let ghost want = discounted(t0, box_positions@)[d as int];
        proof {
            assert(want.new_assigned == q.new_assigned - nt);
            assert(want.review_assigned == q.review_assigned - rt);
        }
        new_quotas.set(
            d,
            QuotaRecord {
                new_assigned: q.new_assigned - nt,
                new_quota_initial: q.new_quota_initial - nt,
                review_assigned: q.review_assigned - rt,
                review_quota_initial: q.review_quota_initial - rt,
                ..q
            },
        );
        d = d + 1;
    }
    assert(new_quotas@ =~= discounted(t0, box_positions@));
}

/// The last day at or before index `i` with a new item assigned, or -1.
pub open spec fn last_new_day(t: Seq<QuotaRecord>, i: int) -> int
    decreases i + 1,
{
    if i < 0 {
        -1
    } else if t[i].new_assigned > 0 {
        i
    } else {
        last_new_day(t, i - 1)
    }
}

/// The review counts of days `0..=c`.
pub open spec fn review_prefix(t: Seq<QuotaRecord>, c: int) -> Seq<int> {
    Seq::new((c + 1) as nat, |k: int| t[k].review_assigned as int)
}

/// The table once a card at `box_pos` of `num_boxes` boxes is deleted on day
/// `c`: the `num_boxes - box_pos` progressions it still needed come off. One
/// review leaves the deadline day; for a card never introduced one
/// introduction leaves the last day up to `c` that has one; the remaining
/// reviews leave days `0..=c` in turn. No count goes below zero.
pub open spec fn card_deleted(t: Seq<QuotaRecord>, c: int, num_boxes: int, box_pos: int) -> Seq<
    QuotaRecord,
> {
    let q = num_boxes - box_pos;
    let first = if t[0].review_assigned > 0 {
        1int
    } else {
        0int
    };
    let t1 = t.update(0, QuotaRecord { review_assigned: (t[0].review_assigned - first) as u32, ..t[0] });
    let q1 = q - 1;
    let nd = last_new_day(t1, c);
    let takes_new = box_pos == 0 && q1 > 0;
    let t2 = if takes_new && nd >= 0 {
        t1.update(nd, QuotaRecord { new_assigned: (t1[nd].new_assigned - 1) as u32, ..t1[nd] })
    } else {
        t1
    };
    let q2 = if takes_new {
        q1 - 1
    } else {
        q1
    };
    let takes = greedy_takes(review_prefix(t2, c), 0, q2);
    Seq::new(
        t.len(),
        |d: int|
            if d <= c {
                QuotaRecord { review_assigned: (t2[d].review_assigned - takes[d]) as u32, ..t2[d] }
            } else {
                t2[d]
            },
    )
}

proof fn lemma_last_new_day(t: Seq<QuotaRecord>, i: int)
    requires
        -1 <= i < t.len(),
    ensures
        -1 <= last_new_day(t, i) <= i,
        last_new_day(t, i) >= 0 ==> t[last_new_day(t, i)].new_assigned > 0,
    decreases i + 1,
{
    if i >= 0 && t[i].new_assigned == 0 {
        lemma_last_new_day(t, i - 1);
    }
}

/// Takes a deleted card's outstanding progressions off the quota table of
/// its deck (see `card_deleted`); `days_to_go` is today's index.
#[verifier::spinoff_prover]
pub fn delete_card(quotas: &mut Vec<QuotaRecord>, days_to_go: usize, num_boxes: usize, box_pos: usize)
    requires
        days_to_go < old(quotas)@.len(),
        box_pos < num_boxes,
        num_boxes - box_pos <= u64::MAX,
    ensures
        final(quotas)@ == card_deleted(
            old(quotas)@,
            days_to_go as int,
            num_boxes as int,
            box_pos as int,
        ),
{
    let ghost t0 = quotas@;
    let n = quotas.len();
    let c = days_to_go;
    let mut q: u64 = (num_boxes - box_pos) as u64;
    let r0 = quotas[0];
    if r0.review_assigned > 0 {
        quotas.set(0, QuotaRecord { review_assigned: r0.review_assigned - 1, ..r0 });
    }
    let ghost t1 = quotas@;
    proof {
        let first = if t0[0].review_assigned > 0 {
            1int
        } else {
            0int
        };
        assert(t1 =~= t0.update(
            0,
            QuotaRecord { review_assigned: (t0[0].review_assigned - first) as u32, ..t0[0] },
        ));
    }
    q = q - 1;
    if box_pos == 0 && q > 0 {
        let mut i: usize = c;
        let mut found = false;
        let mut searching = true;
        while searching
            invariant
                i <= c,
                c < quotas@.len(),
                n == quotas@.len(),
                n == t1.len(),
                searching ==> !found,
                !found ==> quotas@ == t1,
                searching ==> last_new_day(t1, i as int) == last_new_day(t1, c as int),
                !searching && !found ==> last_new_day(t1, c as int) == -1,
                found ==> last_new_day(t1, c as int) >= 0 && quotas@ == t1.update(
                    last_new_day(t1, c as int),
                    QuotaRecord {
                        new_assigned: (t1[last_new_day(t1, c as int)].new_assigned - 1) as u32,
                        ..t1[last_new_day(t1, c as int)]
                    },
                ),
            decreases i + if searching {
                1int
            } else {
                0int
            },
        {
            let r = quotas[i];
            if r.new_assigned > 0 {
                quotas.set(i, QuotaRecord { new_assigned: r.new_assigned - 1, ..r });
                found = true;
                searching = false;
            } else if i == 0 {
                assert(last_new_day(t1, -1) == -1);
                searching = false;
            } else {
                i = i - 1;
            }
        }
        q = q - 1;
    }
    let ghost t2 = quotas@;
    let mut avail: Vec<u32> = Vec::new();
    let mut k: usize = 0;
    while k <= c
        invariant
            k <= c + 1,
            c < n,
            n == quotas@.len(),
            quotas@ == t2,
            avail@.len() == k,
            forall|j: int| 0 <= j < k ==> avail@[j] == t2[j].review_assigned,
        decreases c + 1 - k,
    {
        avail.push(quotas[k].review_assigned);
        k = k + 1;
    }
    assert(as_ints(avail@) =~= review_prefix(t2, c as int));
    let takes = greedy_take_counts(&avail, 0, q);
    let ghost tk = greedy_takes(review_prefix(t2, c as int), 0, q as int);
    proof {
        assert forall|j: int| 0 <= j <= c implies 0 <= #[trigger] tk[j] <= review_prefix(t2, c as int)[j] by {
            lemma_greedy_takes(review_prefix(t2, c as int), 0, q as int, j);
        }
    }
    let mut d: usize = 0;
    while d <= c
        invariant
            d <= c + 1,
            c < n,
            n == quotas@.len(),
            quotas@.len() == t2.len(),
            takes@.len() == c + 1,
            as_ints(takes@) == tk,
            forall|j: int| 0 <= j <= c ==> 0 <= #[trigger] tk[j] <= review_prefix(t2, c as int)[j],
            forall|j: int| d <= j < t2.len() ==> #[trigger] quotas@[j] == t2[j],
            forall|j: int|
                0 <= j < d ==> #[trigger] quotas@[j] == (QuotaRecord {
                    review_assigned: (t2[j].review_assigned - tk[j]) as u32,
                    ..t2[j]
                }),
        decreases c + 1 - d,
    {
        let r = quotas[d];
        let tkd = takes[d];
        proof {
            assert(as_ints(takes@)[d as int] == tk[d as int]);
            assert(review_prefix(t2, c as int)[d as int] == t2[d as int].review_assigned);
        }
        quotas.set(d, QuotaRecord { review_assigned: r.review_assigned - tkd, ..r });
        d = d + 1;
    }
    proof {
        lemma_last_new_day(t1, c as int);
        assert(t2.len() == t0.len());
        assert(quotas@ =~= card_deleted(t0, c as int, num_boxes as int, box_pos as int));
    }
}

proof fn lemma_settled_sums(old: Seq<QuotaRecord>, new: Seq<QuotaRecord>, c: int, k: int)
    requires
        0 <= c,
        c + 1 <= k <= old.len(),
        new.len() == old.len(),
        forall|i: int| c < i < old.len() ==> new[i] == settled(#[trigger] old[i]),
    ensures
        range_new(new, c + 1, k) == range_new(old, c + 1, k) - missed_new(old.take(k), c),
        range_review(new, c + 1, k) == range_review(old, c + 1, k) - missed_review(old.take(k), c),
    decreases k,
{
    if k > c + 1 {
        lemma_settled_sums(old, new, c, k - 1);
        assert(old.take(k).drop_last() =~= old.take(k - 1));
        assert(old.take(k).last() == old[k - 1]);
        assert(new[k - 1] == settled(old[k - 1]));
    } else {
        assert(old.take(k).len() == c + 1);
    }
}

/// The part of `amount` beyond `room`.
pub open spec fn excess(amount: int, room: int) -> int {
    if amount <= room {
        0
    } else {
        amount - room
    }
}

/// Reconciling missed days rolls the backlog forward and keeps both totals,
/// but for what the past days did beyond their targets in excess of the
/// targets of the days that take it up: the totals grow by just that. So
/// they are kept whenever such a surplus fits in those targets.
pub proof fn lemma_handle_missed_days_keeps_totals(
    old: Seq<QuotaRecord>,
    new: Seq<QuotaRecord>,
    c: int,
)
    requires
        missed_days_handled(old, new, c),
        0 <= c,
        sum_new(old) <= u32::MAX,
        sum_review(old) <= u32::MAX,
    ensures
        sum_new(new) == sum_new(old) + excess(
            surplus(missed_new(old, c)),
            seq_total(new_absorber_targets(old, c)),
        ),
        sum_review(new) == sum_review(old) + excess(
            surplus(missed_review(old, c)),
            seq_total(review_absorber_targets(old, c)),
        ),
        surplus(missed_new(old, c)) <= seq_total(new_absorber_targets(old, c)) ==> sum_new(new)
            == sum_new(old),
        surplus(missed_review(old, c)) <= seq_total(review_absorber_targets(old, c))
            ==> sum_review(new) == sum_review(old),
{
    let n = old.len() as int;
    lemma_greedy_total(new_absorber_targets(old, c), surplus(missed_new(old, c)));
    lemma_greedy_total(review_absorber_targets(old, c), surplus(missed_review(old, c)));
    if no_backlog(old, c) || c + 1 >= n {
        assert(no_backlog(old, c));
        return;
    }
    lemma_range_is_sum(old, n);
    lemma_range_is_sum(new, n);
    assert(old.take(n) =~= old);
    assert(new.take(n) =~= new);
    lemma_range_split(old, 0, c + 1, n);
    lemma_range_split(new, 0, c + 1, n);
    lemma_settled_sums(old, new, c, n);
    lemma_missed_bounds(old, c, n);
    lemma_range_is_sum(new, c + 1);
    assert forall|d: int| 0 <= d <= c implies old[d].new_assigned + owed_new(old, c) <= u32::MAX
        && old[d].review_assigned + owed_review(old, c) <= u32::MAX by {
        lemma_range_split(old, 0, d, c + 1);
        lemma_range_split(old, d, d + 1, c + 1);
        lemma_range_split(old, 0, 0, d);
        assert(range_new(old, d, d) == 0);
        assert(range_review(old, d, d) == 0);
        assert(range_new(old, d, d + 1) == old[d].new_assigned);
        assert(range_review(old, d, d + 1) == old[d].review_assigned);
    }
    lemma_prefix_sums(old, c);
    lemma_greedy_total(new_absorber_targets(old, c), surplus(missed_new(old, c)));
    lemma_greedy_total(review_absorber_targets(old, c), surplus(missed_review(old, c)));
    let sp = spread_prefix(old, c);
    if c == 0 {
        assert(new.take(1) =~= seq![sp[0]]);
        assert(sp =~= seq![sp[0]]);
    } else {
        assert(sum_new(new.take(c + 1)) == sum_new(sp));
    }
}

/// Seconds in a day.
pub const DAY_SECS: i64 = 86400;

/// The day boundaries (at `new_day_hour` local time, a time given in local
/// seconds) strictly between local times `now` and `deadline`.
pub open spec fn boundaries_between(now: int, deadline: int, new_day_hour: int) -> int {
    let h = new_day_hour * 3600;
    let k = (deadline - 1 - h) / DAY_SECS as int - (now - h) / DAY_SECS as int;
    if k < 0 {
        0
    } else {
        k
    }
}

/// Days to go before a deadline, a new day starting at `new_day_hour` local
/// time: the day boundaries until the deadline, less one where the deadline
/// falls before `test_day_hour` on its day; 0 on the deadline day before the
/// deadline, -1 after it. Times are Unix seconds; `offset` is the deadline's
/// offset from UTC in seconds.
pub open spec fn days_to_deadline(
    now: int,
    deadline: int,
    offset: int,
    new_day_hour: int,
    test_day_hour: int,
) -> int {
    let k = boundaries_between(now + offset, deadline + offset, new_day_hour);
    let hour = ((deadline + offset) % DAY_SECS as int) / 3600;
    if k == 0 {
        if now < deadline {
            0
        } else {
            -1
        }
    } else if hour < test_day_hour {
        k - 1
    } else {
        k
    }
}

/// `x / DAY_SECS` rounded down.
fn floor_days(x: i64) -> (r: i64)
    requires
        -0x7000_0000_0000_0000 <= x <= 0x7000_0000_0000_0000,
    ensures
        r == (x as int) / (DAY_SECS as int),
{
    if x >= 0 {
        x / DAY_SECS
    } else {
        let q = (-x + DAY_SECS - 1) / DAY_SECS;
        proof {
            let nx = -x as int;
            let qq = (nx + 86399) / 86400;
            lemma_fundamental_div_mod(nx + 86399, 86400);
            lemma_mod_pos_bound(nx + 86399, 86400);
            lemma_fundamental_div_mod_converse(x as int, 86400, -qq, 86400 * qq - nx);
        }
        -q
    }
}

/// The number of days to go before a deadline: see `days_to_deadline`.
pub fn days_until_deadline(
    now: i64,
    deadline: i64,
    offset: i64,
    new_day_time: i64,
    test_day_time: i64,
) -> (r: i64)
    requires
        -0x1000_0000_0000 <= now <= 0x1000_0000_0000,
        -0x1000_0000_0000 <= deadline <= 0x1000_0000_0000,
        -DAY_SECS <= offset <= DAY_SECS,
        0 <= new_day_time < 24,
        0 <= test_day_time <= 24,
    ensures
        r == days_to_deadline(
            now as int,
            deadline as int,
            offset as int,
            new_day_time as int,
            test_day_time as int,
        ),
{
    let h = new_day_time * 3600;
    let k = floor_days(deadline + offset - 1 - h) - floor_days(now + offset - h);
    let k = if k < 0 {
        0
    } else {
        k
    };
    let local = deadline + offset;
    let day = floor_days(local);
    proof {
        lemma_fundamental_div_mod(local as int, 86400);
        lemma_mod_bound(local as int, 86400);
    }
    let hour = (local - day * DAY_SECS) / 3600;
    if k == 0 {
        if now < deadline {
            0
        } else {
            -1
        }
    } else if hour < test_day_time {
        k - 1
    } else {
        k
    }
}

} // verus!
