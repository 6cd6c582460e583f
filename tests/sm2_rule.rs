use mio0::sm2::{calculate_sm, SmResponse};

#[test]
fn calculate_sm_first_success() {
    // quality 4 keeps the easiness: 0.1 - 1 * (0.08 + 1 * 0.02) = 0
    let r = calculate_sm(4, 0, 0, 250);
    assert_eq!(r, SmResponse { interval: 1, repetitions: 1, ease_factor: 250 });
}

#[test]
fn calculate_sm_perfect_grade_raises_easiness() {
    let r = calculate_sm(5, 0, 0, 250);
    assert_eq!(r, SmResponse { interval: 1, repetitions: 1, ease_factor: 260 });
}

#[test]
fn calculate_sm_second_success_is_six_days() {
    let r = calculate_sm(3, 1, 1, 250);
    assert_eq!(r, SmResponse { interval: 6, repetitions: 2, ease_factor: 236 });
}

#[test]
fn calculate_sm_later_success_scales_interval() {
    // 6 * 2.5 = 15; 7 * 2.36 = 16.52 rounds to 17
    assert_eq!(calculate_sm(4, 2, 6, 250).interval, 15);
    assert_eq!(calculate_sm(4, 3, 7, 236).interval, 17);
    assert_eq!(calculate_sm(5, 3, 3, 250).interval, 8);
}

#[test]
fn calculate_sm_failures() {
    assert_eq!(calculate_sm(1, 4, 20, 200), SmResponse { interval: 0, repetitions: 4, ease_factor: 200 });
    assert_eq!(calculate_sm(2, 4, 20, 200), SmResponse { interval: 1, repetitions: 4, ease_factor: 200 });
}

#[test]
fn calculate_sm_easiness_floor() {
    let r = calculate_sm(3, 5, 10, 145);
    assert_eq!(r.ease_factor, 140);
    assert_eq!(r.repetitions, 6);
}

use mio0::session::{Quota, StackKind};
use mio0::sm2::{get_anki_quota, update_card_anki, GradeError, IntervalState};

#[test]
fn update_card_anki_schedules_the_next_practice() {
    let s = IntervalState { repetitions: 2, interval: 6, ease_factor: 250, next_practice: 0 };
    let u = update_card_anki(s, 4, 1000, StackKind::Review).unwrap();
    assert_eq!(u.state, IntervalState { repetitions: 3, interval: 15, ease_factor: 250, next_practice: 1015 });
    assert_eq!(u.stack_after, StackKind::Done);
    assert!(u.counts_as_practice);
    let again = update_card_anki(s, 1, 1000, StackKind::New).unwrap();
    assert_eq!(again.state.interval, 0);
    assert_eq!(again.state.next_practice, 1000);
    assert_eq!(again.stack_after, StackKind::New);
    assert!(!again.counts_as_practice);
}

#[test]
fn update_card_anki_refuses_bad_grades() {
    let s = IntervalState { repetitions: 0, interval: 0, ease_factor: 250, next_practice: 0 };
    assert_eq!(update_card_anki(s, 0, 10, StackKind::New), Err(GradeError::QualityOutOfRange));
    assert_eq!(update_card_anki(s, 6, 10, StackKind::New), Err(GradeError::QualityOutOfRange));
    assert_eq!(update_card_anki(s, -1, 10, StackKind::New), Err(GradeError::QualityOutOfRange));
    let bad = IntervalState { repetitions: -1, ..s };
    assert_eq!(update_card_anki(bad, 3, 10, StackKind::New), Err(GradeError::StateOutOfRange));
}

#[test]
fn anki_quota_counts_and_caps_new_items() {
    let reps = vec![0, 2, 0, 0, 5];
    assert_eq!(get_anki_quota(&reps, 10, None), Quota { new_left: 3, review_left: 2, num_progressed: 0 });
    // nothing recorded today: new items are still capped at the day's allowance
    assert_eq!(get_anki_quota(&reps, 2, None), Quota { new_left: 2, review_left: 2, num_progressed: 0 });
    assert_eq!(get_anki_quota(&reps, -1, None), Quota { new_left: 0, review_left: 2, num_progressed: 0 });
    assert_eq!(get_anki_quota(&reps, 4, Some((2, 3))), Quota { new_left: 2, review_left: 2, num_progressed: 5 });
    assert_eq!(get_anki_quota(&reps, 1, Some((4, 0))), Quota { new_left: 0, review_left: 2, num_progressed: 4 });
}
