use mio0::quotas::{compute_quotas, handle_missed_days, redistribute_quotas, QuotaRecord};

fn totals(t: &[QuotaRecord]) -> (u64, u64) {
    let mut n = 0u64;
    let mut r = 0u64;
    for q in t {
        n += q.new_assigned as u64;
        r += q.review_assigned as u64;
    }
    (n, r)
}

fn cost(q: &QuotaRecord) -> u64 {
    2 * q.new_assigned as u64 + q.review_assigned as u64
}

fn pairs(t: &[QuotaRecord]) -> Vec<(u32, u32)> {
    t.iter().map(|q| (q.new_assigned, q.review_assigned)).collect()
}

#[test]
fn compute_quotas_ten_cards_five_days_four_boxes() {
    let t = compute_quotas(10, 5, 4).unwrap();
    assert_eq!(t.len(), 6);
    assert_eq!(totals(&t), (10, 30));
    assert_eq!(t[0].new_assigned, 0);
    assert_eq!(t[0].review_assigned, 10);
    assert_eq!(pairs(&t), vec![(0, 10), (0, 8), (1, 6), (2, 4), (3, 2), (4, 0)]);
    for (d, q) in t.iter().enumerate() {
        assert_eq!(q.days_to_go as usize, d);
        assert_eq!(q.new_quota_initial, q.new_assigned);
        assert_eq!(q.review_quota_initial, q.review_assigned);
        assert_eq!(q.new_practiced, 0);
        assert_eq!(q.review_practiced, 0);
    }
}

#[test]
fn compute_quotas_places_rounding_remainders() {
    // divisor 3: new shares 0, 2, 4 (+1 on the farthest day), reviews 4 (+1 on day 1), 2, 0
    let t = compute_quotas(7, 3, 3).unwrap();
    assert_eq!(pairs(&t), vec![(0, 7), (0, 5), (2, 2), (5, 0)]);
    assert_eq!(totals(&t), (7, 14));
}

#[test]
fn compute_quotas_on_the_deadline_day() {
    let t = compute_quotas(5, 0, 3).unwrap();
    assert_eq!(pairs(&t), vec![(5, 10)]);
}

#[test]
fn compute_quotas_one_day_before() {
    let t = compute_quotas(6, 1, 4).unwrap();
    assert_eq!(pairs(&t), vec![(0, 6), (6, 12)]);
    assert_eq!(totals(&t), (6, 18));
}

#[test]
fn compute_quotas_totals_over_many_plans() {
    for n in 1..12u32 {
        for t in 0..9u32 {
            for b in 2..6u32 {
                let plan = compute_quotas(n, t, b).unwrap();
                assert_eq!(plan.len() as u32, t + 1);
                assert_eq!(totals(&plan), (n as u64, (n * (b - 1)) as u64));
                if t >= 1 {
                    assert_eq!(plan[0].new_assigned, 0);
                }
            }
        }
    }
}

fn rec(d: u32, n: u32, r: u32) -> QuotaRecord {
    QuotaRecord {
        days_to_go: d,
        new_assigned: n,
        review_assigned: r,
        new_quota_initial: n,
        review_quota_initial: r,
        new_practiced: 0,
        review_practiced: 0,
    }
}

#[test]
fn redistribute_keeps_totals_and_smooths() {
    let mut t = vec![rec(0, 0, 10), rec(1, 0, 0), rec(2, 0, 0), rec(3, 12, 20)];
    let before = totals(&t);
    let mean = (2 * before.0 + before.1) / t.len() as u64;
    redistribute_quotas(&mut t);
    assert_eq!(totals(&t), before);
    assert_eq!((t[0].new_assigned, t[0].review_assigned), (0, 10));
    for q in &t[1..] {
        assert!(cost(q) < mean + 4, "{:?}", q);
    }
}

#[test]
fn redistribute_smooths_a_planned_table() {
    let mut t = compute_quotas(40, 6, 5).unwrap();
    let before = totals(&t);
    let mean = (2 * before.0 + before.1) / t.len() as u64;
    redistribute_quotas(&mut t);
    assert_eq!(totals(&t), before);
    for q in &t[1..] {
        assert!(cost(q) < mean + 4, "{:?}", q);
    }
}

#[test]
fn redistribute_stops_when_no_move_helps() {
    // one day besides the deadline: nothing can move, and it stays above the mean
    let mut t = compute_quotas(10, 1, 4).unwrap();
    let before = pairs(&t);
    redistribute_quotas(&mut t);
    assert_eq!(pairs(&t), before);
}

#[test]
fn redistribute_leaves_short_tables() {
    let mut t = vec![rec(0, 3, 9)];
    redistribute_quotas(&mut t);
    assert_eq!(pairs(&t), vec![(3, 9)]);
    let mut e: Vec<QuotaRecord> = Vec::new();
    redistribute_quotas(&mut e);
    assert!(e.is_empty());
}

fn practiced(mut q: QuotaRecord, n: u32, r: u32) -> QuotaRecord {
    q.new_practiced = n;
    q.review_practiced = r;
    q
}

#[test]
fn handle_missed_days_rolls_work_forward() {
    // today is day 2; day 4 and day 3 went by with work left
    let mut t = vec![
        rec(0, 0, 10),
        rec(1, 2, 4),
        rec(2, 2, 4),
        practiced(rec(3, 3, 3), 1, 3),
        practiced(rec(4, 3, 1), 0, 0),
    ];
    let before = totals(&t);
    handle_missed_days(&mut t, 2);
    assert_eq!((t[3].new_assigned, t[3].review_assigned), (1, 3));
    assert_eq!((t[4].new_assigned, t[4].review_assigned), (0, 0));
    assert_eq!((t[0].new_assigned, t[0].review_assigned), (0, 10));
    assert_eq!(totals(&t), before);
}

#[test]
fn handle_missed_days_twice_changes_nothing_more() {
    let mut t = vec![
        rec(0, 0, 10),
        rec(1, 2, 4),
        rec(2, 2, 4),
        practiced(rec(3, 3, 3), 1, 3),
        practiced(rec(4, 3, 1), 0, 0),
    ];
    handle_missed_days(&mut t, 2);
    let once = t.clone();
    handle_missed_days(&mut t, 2);
    assert_eq!(t, once);
}

#[test]
fn handle_missed_days_on_the_deadline_day() {
    let mut t = vec![rec(0, 0, 4), practiced(rec(1, 2, 3), 1, 1)];
    handle_missed_days(&mut t, 0);
    assert_eq!((t[0].new_assigned, t[0].review_assigned), (1, 6));
    assert_eq!((t[1].new_assigned, t[1].review_assigned), (1, 1));
}

#[test]
fn handle_missed_days_after_the_deadline_acts_as_deadline_day() {
    let mut t = vec![rec(0, 0, 4), practiced(rec(1, 2, 3), 1, 1)];
    handle_missed_days(&mut t, -3);
    assert_eq!((t[0].new_assigned, t[0].review_assigned), (1, 6));
}

#[test]
fn handle_missed_days_with_nothing_missed() {
    let mut t = vec![rec(0, 0, 4), rec(1, 1, 1), practiced(rec(2, 2, 3), 2, 3)];
    let before = t.clone();
    handle_missed_days(&mut t, 1);
    assert_eq!(t, before);
    handle_missed_days(&mut t, 2);
    assert_eq!(t, before);
}

#[test]
fn handle_missed_days_spreads_remainders() {
    // 5 new and 5 reviews missed over 2 days: 2 each, the new remainder on
    // today (day 2), the review remainder on day 1
    let mut t = vec![rec(0, 0, 0), rec(1, 0, 0), rec(2, 0, 0), rec(3, 5, 5)];
    handle_missed_days(&mut t, 2);
    assert_eq!(totals(&t), (5, 5));
    assert_eq!((t[3].new_assigned, t[3].review_assigned), (0, 0));
}

use mio0::quotas::{get_num_boxes, get_quotas, record_progress};

#[test]
fn get_quotas_reads_what_is_left() {
    let t = vec![rec(0, 0, 10), practiced(rec(1, 4, 6), 1, 7), rec(2, 3, 3)];
    let q = get_quotas(&t, 1);
    assert_eq!((q.new_left, q.review_left, q.num_progressed), (3, 0, 8));
    // a day with no record has nothing to do
    let z = get_quotas(&t, 5);
    assert_eq!((z.new_left, z.review_left, z.num_progressed), (0, 0, 0));
    assert_eq!(get_quotas(&vec![], 0).new_left, 0);
}

#[test]
fn record_progress_sets_practiced() {
    let mut t = vec![rec(0, 0, 10), rec(1, 4, 6)];
    record_progress(&mut t, 1, 1, 2);
    assert_eq!((t[1].new_practiced, t[1].review_practiced), (3, 4));
    record_progress(&mut t, 1, 9, -2);
    assert_eq!((t[1].new_practiced, t[1].review_practiced), (0, 8));
    assert_eq!(t[0], rec(0, 0, 10));
}

#[test]
fn num_boxes_by_days_to_go() {
    let got: Vec<i32> = [0i64, 1, 2, 6, 7, 15, 16, 32, 33, 65, 66, 130, 131, 259]
        .iter()
        .map(|&d| get_num_boxes(d))
        .collect();
    assert_eq!(got, vec![2, 2, 3, 3, 4, 4, 5, 5, 6, 6, 7, 7, 8, 8]);
}

use mio0::quotas::discount_past_progressions;

#[test]
fn discount_takes_off_progress_already_made() {
    let mut t = compute_quotas(10, 5, 4).unwrap();
    // four cards out of box 0, three further moves
    discount_past_progressions(&mut t, &vec![1, 1, 3, 0, 2]);
    assert_eq!(pairs(&t), vec![(0, 10), (0, 8), (0, 6), (0, 3), (2, 0), (4, 0)]);
    for q in &t {
        assert_eq!(q.new_quota_initial, q.new_assigned);
        assert_eq!(q.review_quota_initial, q.review_assigned);
    }
}

#[test]
fn discount_spreads_evenly() {
    let mut t = vec![rec(0, 0, 8), rec(1, 3, 3), rec(2, 3, 3)];
    discount_past_progressions(&mut t, &vec![1, 1, 1, 0, 3, 2]);
    // 5 introductions: 2 a day and 1 more from day 1; 3 reviews: 1 a day and 1 more from day 2
    assert_eq!(pairs(&t), vec![(0, 8), (0, 2), (1, 1)]);
}

#[test]
fn discount_leaves_nothing_to_do_and_one_day_plans() {
    let mut t = compute_quotas(4, 3, 3).unwrap();
    let before = t.clone();
    discount_past_progressions(&mut t, &vec![0, 0, 0, 0]);
    assert_eq!(t, before);
    let mut one = compute_quotas(4, 0, 3).unwrap();
    let one_before = one.clone();
    discount_past_progressions(&mut one, &vec![2, 2, 2, 2]);
    assert_eq!(one, one_before);
}

use mio0::quotas::delete_card;

#[test]
fn delete_card_takes_off_its_progressions() {
    let mut t = compute_quotas(10, 5, 4).unwrap();
    // never introduced: one review off the deadline day, one introduction
    // off the farthest day, two more reviews from day 0 on
    delete_card(&mut t, 5, 4, 0);
    assert_eq!(pairs(&t), vec![(0, 7), (0, 8), (1, 6), (2, 4), (3, 2), (3, 0)]);
    let mut u = compute_quotas(10, 5, 4).unwrap();
    delete_card(&mut u, 2, 4, 2);
    assert_eq!(pairs(&u), vec![(0, 8), (0, 8), (1, 6), (2, 4), (3, 2), (4, 0)]);
    let mut v = compute_quotas(10, 5, 4).unwrap();
    delete_card(&mut v, 5, 4, 3);
    assert_eq!(pairs(&v), vec![(0, 9), (0, 8), (1, 6), (2, 4), (3, 2), (4, 0)]);
}

#[test]
fn delete_card_never_goes_below_zero() {
    let mut t = vec![rec(0, 0, 0), rec(1, 0, 1)];
    delete_card(&mut t, 1, 3, 1);
    assert_eq!(pairs(&t), vec![(0, 0), (0, 0)]);
    let mut u = vec![rec(0, 0, 1), rec(1, 0, 0)];
    delete_card(&mut u, 1, 3, 0);
    assert_eq!(pairs(&u), vec![(0, 0), (0, 0)]);
}

use mio0::quotas::PlanError;

#[test]
fn compute_quotas_refuses_bad_inputs() {
    assert_eq!(compute_quotas(0, 5, 4), Err(PlanError::NoCards));
    assert_eq!(compute_quotas(3, 5, 1), Err(PlanError::TooFewBoxes));
    assert_eq!(compute_quotas(3, 5, 0), Err(PlanError::TooFewBoxes));
    assert_eq!(compute_quotas(u32::MAX, 2, 3), Err(PlanError::TooLarge));
    assert!(compute_quotas(u32::MAX, 2, 2).is_ok());
}

use mio0::quotas::days_until_deadline;

const H: i64 = 3600;
const D: i64 = 86400;

#[test]
fn days_until_deadline_counts_day_boundaries() {
    let now = 10 * H;
    // boundaries at 2 am of days 1, 2 and 3
    assert_eq!(days_until_deadline(now, 3 * D + 15 * H, 0, 2, 14), 3);
    // a deadline before 2 pm does not count its own day
    assert_eq!(days_until_deadline(now, 3 * D + 10 * H, 0, 2, 14), 2);
    // on the deadline day
    assert_eq!(days_until_deadline(now, 20 * H, 0, 2, 14), 0);
    // past the deadline
    assert_eq!(days_until_deadline(now, 5 * H, 0, 2, 14), -1);
    // before 2 am the day has not turned yet
    assert_eq!(days_until_deadline(H, 15 * H, 0, 2, 14), 1);
    // local time one hour ahead of UTC
    assert_eq!(days_until_deadline(0, 14 * H - H, H, 2, 14), 1);
    // from midnight, 2 am of both days lies ahead
    assert_eq!(days_until_deadline(-2 * D, -D + 15 * H, 0, 2, 14), 2);
}

#[test]
fn handle_missed_days_sums_with_sign() {
    // deadline day: one past day 2 new short, another 1 new over: 1 owed
    let mut t = vec![rec(0, 0, 0), rec(1, 2, 0), practiced(rec(2, 0, 0), 1, 0)];
    handle_missed_days(&mut t, 0);
    assert_eq!((t[0].new_assigned, t[0].review_assigned), (1, 0));
    assert_eq!((t[1].new_assigned, t[2].new_assigned), (0, 1));
}

#[test]
fn handle_missed_days_balanced_past_changes_nothing() {
    // one past day 1 short, another 1 over: both totals are 0
    let mut t = vec![rec(0, 0, 3), rec(1, 1, 0), practiced(rec(2, 0, 0), 1, 0)];
    let before = t.clone();
    handle_missed_days(&mut t, 0);
    assert_eq!(t, before);
}

#[test]
fn handle_missed_days_surplus_comes_off_the_days_left() {
    // today is day 1; day 2 did one new item beyond its target
    let mut t = vec![rec(0, 0, 5), rec(1, 2, 2), practiced(rec(2, 0, 0), 1, 0)];
    let before = totals(&t);
    handle_missed_days(&mut t, 1);
    assert_eq!(pairs(&t), vec![(0, 5), (1, 2), (1, 0)]);
    assert_eq!(totals(&t), before);
    let once = t.clone();
    handle_missed_days(&mut t, 1);
    assert_eq!(t, once);
}

#[test]
fn handle_missed_days_surplus_on_the_deadline_day() {
    // a day-0 target of 5 and a past surplus of 2
    let mut t = vec![rec(0, 5, 0), practiced(rec(1, 0, 0), 2, 0)];
    handle_missed_days(&mut t, 0);
    assert_eq!(pairs(&t), vec![(3, 0), (2, 0)]);
    assert_eq!(totals(&t), (5, 0));
}

#[test]
fn handle_missed_days_surplus_one_day_to_go() {
    let mut t = vec![rec(0, 0, 10), rec(1, 5, 0), practiced(rec(2, 0, 0), 2, 0)];
    handle_missed_days(&mut t, 1);
    assert_eq!(pairs(&t), vec![(0, 10), (3, 0), (2, 0)]);
    assert_eq!(totals(&t), (5, 10));
}

#[test]
fn handle_missed_days_surplus_beyond_the_days_left() {
    // nothing is left to take the surplus off: the total grows by it
    let mut t = vec![rec(0, 0, 0), practiced(rec(1, 0, 0), 2, 0)];
    handle_missed_days(&mut t, 0);
    assert_eq!(pairs(&t), vec![(0, 0), (2, 0)]);
}
