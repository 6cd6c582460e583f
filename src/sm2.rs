//! The SM-2 interval rule for items that are not bound to a deadline.
//! Easiness is kept in hundredths (250 stands for 2.5), which keeps every
//! step of the rule exact.
use vstd::prelude::*;

use crate::session::{Quota, StackKind};

verus! {

/// The lowest easiness, in hundredths.
pub const MIN_EASE: u32 = 140;

/// The outcome of one graded review under SM-2.
#[derive(Clone, Copy, Debug, PartialEq, Eq, Structural)]
pub struct SmResponse {
    /// Days until the item is due again.
    pub interval: i32,
    /// Successful reviews in a row.
    pub repetitions: i32,
    /// Easiness, in hundredths.
    pub ease_factor: u32,
}

/// Easiness after a grade of `quality`, in hundredths, before the floor.
pub open spec fn ease_after(quality: int, ease: int) -> int {
    if quality >= 3 {
        ease + 10 - (5 - quality) * (8 + (5 - quality) * 2)
    } else {
        ease
    }
}

/// `x * e / 100` rounded to the nearest integer, halves away from zero.
pub open spec fn scaled_round(x: int, e: int) -> int {
    (x * e + 50) / 100
}

/// The interval that SM-2 gives after a grade of `quality`.
pub open spec fn interval_after(quality: int, repetitions: int, interval: int, ease: int) -> int {
    if quality >= 3 {
        if repetitions == 0 {
            1
        } else if repetitions == 1 {
            6
        } else {
            scaled_round(interval, ease)
        }
    } else if quality == 1 {
        0
    } else {
        1
    }
}

/// What SM-2 gives after a grade of `quality`.
pub open spec fn sm_spec(quality: int, repetitions: int, interval: int, ease: int) -> SmResponse {
    SmResponse {
        interval: interval_after(quality, repetitions, interval, ease) as i32,
        repetitions: (if quality >= 3 {
            repetitions + 1
        } else {
            repetitions
        }) as i32,
        ease_factor: (if ease_after(quality, ease) < MIN_EASE {
            MIN_EASE as int
        } else {
            ease_after(quality, ease)
        }) as u32,
    }
}

/// Applies the SM-2 rule to one grade. `quality` runs from 1 to 5, and 3 or
/// more counts as a success; `previous_ease_factor` is in hundredths.
pub fn calculate_sm(
    quality: i32,
    repetitions: i32,
    previous_interval: i32,
    previous_ease_factor: u32,
) -> (r: SmResponse)
    requires
        1 <= quality <= 5,
        repetitions >= 0,
        previous_interval >= 0,
        previous_ease_factor <= u32::MAX - 10,
        quality >= 3 ==> repetitions < i32::MAX,
        quality >= 3 && repetitions >= 2 ==> scaled_round(
            previous_interval as int,
            previous_ease_factor as int,
        ) <= i32::MAX,
    ensures
        r == sm_spec(
            quality as int,
            repetitions as int,
            previous_interval as int,
            previous_ease_factor as int,
        ),
        r.ease_factor >= MIN_EASE,
{
    let (interval, reps, ease): (i32, i32, i64) = if quality >= 3 {
        let interval: i32 = if repetitions == 0 {
            1
        } else if repetitions == 1 {
            6
        } else {
            ((previous_interval as u64 * previous_ease_factor as u64 + 50) / 100) as i32
        };
        let k: i64 = 5 - quality as i64;
        assert(0 <= k * (8 + k * 2) <= 24) by (nonlinear_arith)
            requires
                0 <= k <= 2,
        ;
        let lost: i64 = k * (8 + k * 2);
        (interval, repetitions + 1, previous_ease_factor as i64 + 10 - lost)
    } else if quality == 1 {
        (0, repetitions, previous_ease_factor as i64)
    } else {
        (1, repetitions, previous_ease_factor as i64)
    };
    let ease_factor: u32 = if ease < MIN_EASE as i64 {
        MIN_EASE
    } else {
        ease as u32
    };
    SmResponse { interval, repetitions: reps, ease_factor }
}

/// The scheduling state of an item under SM-2; days are counted from a fixed
/// epoch.
#[derive(Clone, Copy, Debug, PartialEq, Eq, Structural)]
pub struct IntervalState {
    pub repetitions: i32,
    pub interval: i32,
    /// Easiness, in hundredths.
    pub ease_factor: u32,
    /// The day the item is due next.
    pub next_practice: i64,
}

/// The result of grading an item under SM-2.
#[derive(Clone, Copy, Debug, PartialEq, Eq, Structural)]
pub struct AnkiUpdate {
    pub state: IntervalState,
    /// Where the item goes in today's session: done once it is not due today.
    pub stack_after: StackKind,
    /// Whether the response counts towards today's practice.
    pub counts_as_practice: bool,
}

/// Why a grade could not be applied.
#[derive(Clone, Copy, Debug, PartialEq, Eq, Structural)]
pub enum GradeError {
    /// The grade is not between 1 and 5.
    QualityOutOfRange,
    /// The counters or dates of the item would overflow.
    StateOutOfRange,
}

/// The state of an item graded `quality` on day `today`, with the next
/// practice day `interval` days later.
pub open spec fn graded_state(s: IntervalState, quality: int, today: int) -> IntervalState {
    let r = sm_spec(quality, s.repetitions as int, s.interval as int, s.ease_factor as int);
    IntervalState {
        repetitions: r.repetitions,
        interval: r.interval,
        ease_factor: r.ease_factor,
        next_practice: (today + r.interval) as i64,
    }
}

/// The state can be graded without overflow.
pub open spec fn gradable(s: IntervalState, today: int) -> bool {
    &&& s.repetitions >= 0
    &&& s.interval >= 0
    &&& s.ease_factor <= u32::MAX - 10
    &&& s.repetitions < i32::MAX
    &&& scaled_round(s.interval as int, s.ease_factor as int) <= i32::MAX
    &&& today + i32::MAX <= i64::MAX
    &&& today >= 0
}

/// Grades an item under SM-2 on day `today`: its new state, and whether it
/// leaves today's session (an interval of a day or more) and so counts as
/// practiced. A grade outside 1..=5 is refused, as is a state whose counters
/// or dates would overflow.
pub fn update_card_anki(state: IntervalState, score: i32, today: i64, stack_before: StackKind) -> (r:
    Result<AnkiUpdate, GradeError>)
    ensures
        !(1 <= score <= 5) ==> r == Err::<AnkiUpdate, GradeError>(GradeError::QualityOutOfRange),
        1 <= score <= 5 && !gradable(state, today as int) ==> r == Err::<AnkiUpdate, GradeError>(
            GradeError::StateOutOfRange,
        ),
        1 <= score <= 5 && gradable(state, today as int) ==> (r matches Ok(u) && u.state
            == graded_state(state, score as int, today as int) && u.counts_as_practice == (
        u.state.interval > 0) && u.stack_after == (if u.state.interval > 0 {
            StackKind::Done
        } else {
            stack_before
        })),
{
    if score < 1 || score > 5 {
        return Err(GradeError::QualityOutOfRange);
    }
    if state.repetitions < 0 || state.interval < 0 || state.ease_factor > u32::MAX - 10
        || state.repetitions == i32::MAX || today < 0 || today > i64::MAX - (i32::MAX as i64) {
        return Err(GradeError::StateOutOfRange);
    }
    let iv = state.interval as u64;
    let ef = state.ease_factor as u64;
    assert(iv * ef <= 0x7fff_ffff * 0xffff_ffff) by (nonlinear_arith)
        requires
            iv <= 0x7fff_ffff,
            ef <= 0xffff_ffff,
    ;
    if (iv * ef + 50) / 100 > i32::MAX as u64 {
        return Err(GradeError::StateOutOfRange);
    }
    let r = calculate_sm(score, state.repetitions, state.interval, state.ease_factor);
    let next = IntervalState {
        repetitions: r.repetitions,
        interval: r.interval,
        ease_factor: r.ease_factor,
        next_practice: today + r.interval as i64,
    };
    let done = r.interval > 0;
    Ok(
        AnkiUpdate {
            state: next,
            stack_after: if done {
                StackKind::Done
            } else {
                stack_before
            },
            counts_as_practice: done,
        },
    )
}

/// Due items never reviewed before, given the repetitions of each due item.
pub open spec fn count_unseen(reps: Seq<i32>) -> int
    decreases reps.len(),
{
    if reps.len() == 0 {
        0
    } else {
        count_unseen(reps.drop_last()) + if reps.last() > 0 {
            0int
        } else {
            1int
        }
    }
}

proof fn lemma_count_unseen_bounds(reps: Seq<i32>)
    ensures
        0 <= count_unseen(reps) <= reps.len(),
    decreases reps.len(),
{
    if reps.len() > 0 {
        lemma_count_unseen_bounds(reps.drop_last());
    }
}

/// Today's quota of a deck without a deadline: the due items never seen
/// are new, the others reviews; new items are capped by `new_per_day` less
/// those already introduced today, and never below 0 (`practiced_today`
/// holds today's new and review counts, where anything was recorded today).
pub open spec fn anki_quota(reps: Seq<i32>, new_per_day: int, practiced_today: Option<(i32, i32)>) -> Quota {
    let unseen = count_unseen(reps);
    let seen = reps.len() - unseen;
    match practiced_today {
        None => Quota {
            new_left: (if new_per_day < 0 {
                0
            } else if new_per_day < unseen {
                new_per_day
            } else {
                unseen
            }) as i32,
            review_left: seen as i32,
            num_progressed: 0,
        },
        Some((np, rp)) => {
            let cap = new_per_day - np;
            let capped = if cap < unseen {
                cap
            } else {
                unseen
            };
            Quota {
                new_left: (if capped < 0 {
                    0
                } else {
                    capped
                }) as i32,
                review_left: seen as i32,
                num_progressed: (np + rp) as i32,
            }
        },
    }
}

/// Today's quota of a deck reviewed under SM-2; `due_repetitions` holds the
/// repetitions of each item due today.
pub fn get_anki_quota(
    due_repetitions: &Vec<i32>,
    new_per_day: i32,
    practiced_today: Option<(i32, i32)>,
) -> (r: Quota)
    requires
        due_repetitions@.len() <= i32::MAX,
        practiced_today matches Some((np, rp)) ==> i32::MIN <= np + rp <= i32::MAX,
    ensures
        r == anki_quota(due_repetitions@, new_per_day as int, practiced_today),
{
    let ghost reps = due_repetitions@;
    let mut unseen: i32 = 0;
    let mut seen: i32 = 0;
    let mut j: usize = 0;
    while j < due_repetitions.len()
        invariant
            j <= reps.len(),
            reps == due_repetitions@,
            reps.len() <= i32::MAX,
            unseen == count_unseen(reps.take(j as int)),
            seen == j - count_unseen(reps.take(j as int)),
        decreases reps.len() - j,
    {
        proof {
            assert(reps.take(j + 1).drop_last() =~= reps.take(j as int));
            lemma_count_unseen_bounds(reps.take(j as int));
        }
        if due_repetitions[j] > 0 {
            seen = seen + 1;
        } else {
            unseen = unseen + 1;
        }
        j = j + 1;
    }
    assert(reps.take(reps.len() as int) =~= reps);
    match practiced_today {
        None => {
            let new_left: i32 = if new_per_day < 0 {
                0
            } else if new_per_day < unseen {
                new_per_day
            } else {
                unseen
            };
            Quota { new_left, review_left: seen, num_progressed: 0 }
        },
        Some((np, rp)) => {
            let cap: i64 = new_per_day as i64 - np as i64;
            let capped: i64 = if cap < unseen as i64 {
                cap
            } else {
                unseen as i64
            };
            let new_left: i32 = if capped < 0 {
                0
            } else {
                capped as i32
            };
            Quota { new_left, review_left: seen, num_progressed: (np as i64 + rp as i64) as i32 }
        },
    }
}

} // verus!
