//! The review session: Leitner boxes, drawing, grading and undo.
use vstd::prelude::*;
use vstd::arithmetic::div_mod::{lemma_fundamental_div_mod, lemma_fundamental_div_mod_converse, lemma_mod_pos_bound};

use priority_queue::DoublePriorityQueue;
use rand::Rng;

verus! {

#[verifier::external_type_specification]
#[verifier::external_body]
#[verifier::reject_recursive_types(I)]
#[verifier::reject_recursive_types(P)]
#[verifier::reject_recursive_types(H)]
pub struct ExDoublePriorityQueue<I: std::hash::Hash + Eq, P: Ord, H>(DoublePriorityQueue<I, P, H>);

/// A Leitner box: card indices keyed by when they are due.
pub type BoxQueue = DoublePriorityQueue<usize, u64>;

/// A card index with its priority key.
pub type KeyedCard = (usize, u64);

/// A box with nothing in it.
pub open spec fn empty_box() -> Map<usize, u64> {
    Map::empty()
}

/// What a box holds: each card index with its priority key.
pub uninterp spec fn box_items(q: DoublePriorityQueue<usize, u64>) -> Map<usize, u64>;

/// Relies on `DoublePriorityQueue::new`: an empty queue.
#[verifier::external_body]
fn box_new() -> (r: BoxQueue)
    ensures
        box_items(r) == empty_box(),
{
    DoublePriorityQueue::new()
}

/// Relies on `DoublePriorityQueue::push`: the item is in the queue with the
/// given priority afterwards, and its earlier priority, if any, comes back.
#[verifier::external_body]
fn box_push(q: &mut DoublePriorityQueue<usize, u64>, item: usize, key: u64) -> (r: Option<u64>)
    ensures
        box_items(*final(q)) == box_items(*old(q)).insert(item, key),
        r == (if box_items(*old(q)).contains_key(item) {
            Some(box_items(*old(q))[item])
        } else {
            None
        }),
{
    q.push(item, key)
}

/// Relies on `DoublePriorityQueue::pop_min`: removes and returns an item of
/// least priority, or `None` when the queue is empty.
#[verifier::external_body]
fn box_pop_min(q: &mut DoublePriorityQueue<usize, u64>) -> (r: Option<KeyedCard>)
    ensures
        r is None ==> box_items(*old(q)) == empty_box() && box_items(*final(q))
            == box_items(*old(q)),
        r matches Some((i, k)) ==> box_items(*old(q)).contains_key(i) && box_items(*old(q))[i]
            == k && box_items(*final(q)) == box_items(*old(q)).remove(i),
        r matches Some((i, k)) ==> forall|j: usize| #[trigger]
            box_items(*old(q)).contains_key(j) ==> k <= box_items(*old(q))[j],
{
    q.pop_min()
}

/// Relies on `DoublePriorityQueue::remove`: takes the item out if it is there.
#[verifier::external_body]
fn box_remove(q: &mut DoublePriorityQueue<usize, u64>, item: usize) -> (r: Option<KeyedCard>)
    ensures
        box_items(*final(q)) == box_items(*old(q)).remove(item),
        r is Some <==> box_items(*old(q)).contains_key(item),
        r matches Some((i, k)) ==> i == item && k == box_items(*old(q))[item],
{
    q.remove(&item)
}

/// Relies on `DoublePriorityQueue::is_empty`.
#[verifier::external_body]
fn box_is_empty(q: &DoublePriorityQueue<usize, u64>) -> (r: bool)
    ensures
        r == (box_items(*q) == empty_box()),
{
    q.is_empty()
}

/// Relies on rand's `thread_rng` and `Rng::gen_range`: a value in `0..bound`.
#[verifier::external_body]
fn random_below(bound: u64) -> (r: u64)
    requires
        bound > 0,
    ensures
        r < bound,
{
    rand::thread_rng().gen_range(0..bound)
}

/// Relies on chrono's `Local::now` and `DateTime::timestamp`: the time now,
/// in seconds since the Unix epoch.
#[verifier::external_body]
fn now_timestamp() -> (r: i64) {
    chrono::Local::now().timestamp()
}

/// Which stack an item is in before or after a response.
#[derive(Clone, Copy, Debug, PartialEq, Eq, Structural)]
pub enum StackKind {
    New,
    Review,
    Done,
}

/// A card as the scheduler sees it; its text stays with the caller.
#[derive(Clone, Copy, Debug, PartialEq, Eq, Structural)]
pub struct Card {
    pub id: u64,
    pub box_pos: usize,
    pub last_review: u64,
}

/// What is left of today's quota.
#[derive(Clone, Copy, Debug, PartialEq, Eq, Structural)]
pub struct Quota {
    pub new_left: i32,
    pub review_left: i32,
    pub num_progressed: i32,
}

/// A graded response, with what undoing it needs.
#[derive(Clone, Copy, Debug, PartialEq, Eq, Structural)]
pub struct UserResponse {
    pub card: usize,
    pub score: i32,
    pub prev_box_pos: usize,
    pub prev_last_review: u64,
    pub prev_key: u64,
    pub prev_quota: Quota,
    pub stack_before: StackKind,
    pub stack_after: StackKind,
}

/// The card drawn and not graded yet.
#[derive(Clone, Copy, Debug, PartialEq, Eq, Structural)]
pub struct DrawnCard {
    pub card: usize,
    pub key: u64,
    pub stack_before: StackKind,
}

/// The outcome of a draw.
#[derive(Clone, Copy, Debug, PartialEq, Eq, Structural)]
pub enum Drawn {
    /// The card at this index is drawn.
    Card(usize),
    /// Nothing is left to study today.
    SessionComplete,
    /// The quota asks for a card of a kind that no box can give.
    Stalled,
}

/// The model of a session.
pub struct SessionView {
    pub num_boxes: nat,
    pub cards: Seq<Card>,
    /// What each box holds, card index to priority key.
    pub boxes: Seq<Map<usize, u64>>,
    /// The new cards picked for today, taken out of box 0.
    pub fresh: Map<usize, u64>,
    /// The cards picked for today, in the order they were picked.
    pub introduced: Seq<usize>,
    pub quota: Quota,
    pub is_last_day: bool,
    pub drawn: Option<DrawnCard>,
    pub history: Seq<UserResponse>,
    /// The answer typed with each recorded response.
    pub answers: Seq<Seq<char>>,
}

impl SessionView {
    /// Every card is in the box its position names, or among today's new
    /// cards, but the drawn one, which is in none.
    pub open spec fn wf(&self) -> bool {
        &&& 2 <= self.num_boxes <= u32::MAX
        &&& self.answers.len() == self.history.len()
        &&& self.cards.len() <= usize::MAX
        &&& self.boxes.len() == self.num_boxes
        &&& forall|i: int|
            0 <= i < self.cards.len() ==> #[trigger] self.cards[i].box_pos < self.num_boxes
        &&& forall|b: int, k: usize|
            0 <= b < self.boxes.len() && #[trigger] self.boxes[b].contains_key(k) ==> k
                < self.cards.len() && self.cards[k as int].box_pos == b && !self.is_drawn(k)
                && !self.fresh.contains_key(k)
        &&& forall|k: usize|
            #[trigger] self.fresh.contains_key(k) ==> k < self.cards.len() && self.cards[k as int].box_pos
                == 0 && !self.is_drawn(k)
        &&& forall|i: int|
            0 <= i < self.cards.len() && !self.is_drawn(i as usize) ==> #[trigger] self.boxes[self.cards[i].box_pos as int].contains_key(
                i as usize,
            ) || self.fresh.contains_key(i as usize)
        &&& self.drawn matches Some(d) ==> d.card < self.cards.len() && (d.stack_before
            == StackKind::New ==> self.cards[d.card as int].box_pos == 0) && d.stack_before
            != StackKind::Done
        &&& forall|h: int|
            0 <= h < self.history.len() ==> #[trigger] self.history[h].card < self.cards.len()
                && self.history[h].prev_box_pos < self.num_boxes && self.history[h].stack_before
                != StackKind::Done && (self.history[h].stack_before == StackKind::New
                ==> self.history[h].prev_box_pos == 0)
    }

    pub open spec fn is_drawn(&self, i: usize) -> bool {
        self.drawn matches Some(d) && d.card == i
    }

    /// The highest box that reviews draw from: the last one only on the
    /// deadline day.
    pub open spec fn top_review_box(&self) -> int {
        if self.is_last_day {
            self.num_boxes - 1
        } else {
            self.num_boxes - 2
        }
    }

    /// The weight of box `b` when a review is drawn: `b` for a non-empty box
    /// among `1..=top_review_box()`, else 0.
    pub open spec fn review_weight(&self, b: int) -> u64 {
        if 1 <= b <= self.top_review_box() && self.boxes[b] != empty_box() {
            b as u64
        } else {
            0
        }
    }

    pub open spec fn review_weights(&self) -> Seq<u64> {
        Seq::new(self.num_boxes, |b: int| self.review_weight(b))
    }
}

/// A review session over one deck.
pub struct ReviewSessionState {
    num_boxes: usize,
    cards: Vec<Card>,
    boxes: Vec<BoxQueue>,
    fresh: BoxQueue,
    introduced: Vec<usize>,
    quota: Quota,
    is_last_day: bool,
    drawn: Option<DrawnCard>,
    history: Vec<UserResponse>,
    answers: Vec<String>,
}

impl View for ReviewSessionState {
    type V = SessionView;

    closed spec fn view(&self) -> SessionView {
        SessionView {
            num_boxes: self.num_boxes as nat,
            cards: self.cards@,
            boxes: Seq::new(self.boxes@.len(), |b: int| box_items(self.boxes@[b])),
            fresh: box_items(self.fresh),
            introduced: self.introduced@,
            quota: self.quota,
            is_last_day: self.is_last_day,
            drawn: self.drawn,
            history: self.history@,
            answers: Seq::new(self.answers@.len(), |i: int| self.answers@[i]@),
        }
    }
}

/// `x` clamped into `lo..=hi`.
pub open spec fn clamp(x: int, lo: int, hi: int) -> int {
    if x < lo {
        lo
    } else if x > hi {
        hi
    } else {
        x
    }
}

/// The box a card moves to after a response of `score`: its position moved
/// by the score and kept within the boxes.
pub fn get_new_pos(score: i32, box_pos: usize, num_boxes: i32) -> (r: i32)
    requires
        num_boxes >= 1,
        box_pos < num_boxes,
        -1 <= score <= 1,
    ensures
        r == clamp(box_pos + score, 0, num_boxes - 1),
{
    let pos = box_pos as i32;
    let mut new_pos = pos + score;
    if new_pos > num_boxes - 1 {
        new_pos = num_boxes - 1;
    }
    if new_pos < 0 {
        new_pos = 0;
    }
    new_pos
}

/// Sum of `new_left` over several decks' quotas.
pub open spec fn total_new_left(q: Seq<Quota>) -> int
    decreases q.len(),
{
    if q.len() == 0 {
        0
    } else {
        total_new_left(q.drop_last()) + q.last().new_left
    }
}

/// Sum of `review_left` over several decks' quotas.
pub open spec fn total_review_left(q: Seq<Quota>) -> int
    decreases q.len(),
{
    if q.len() == 0 {
        0
    } else {
        total_review_left(q.drop_last()) + q.last().review_left
    }
}

/// Sum of `num_progressed` over several decks' quotas.
pub open spec fn total_progressed(q: Seq<Quota>) -> int
    decreases q.len(),
{
    if q.len() == 0 {
        0
    } else {
        total_progressed(q.drop_last()) + q.last().num_progressed
    }
}

/// The cadence of a session: five new items, then ten reviews.
pub open spec fn in_new_window(progressed: int) -> bool {
    progressed % 15 < 5
}

/// Whether the next card is new, or `None` once nothing is left today.
pub open spec fn drawing_new(q: Seq<Quota>) -> Option<bool> {
    let new_exists = total_new_left(q) > 0;
    let review_exists = total_review_left(q) > 0;
    if !new_exists && !review_exists {
        None
    } else {
        Some((in_new_window(total_progressed(q)) && new_exists) || !review_exists)
    }
}

proof fn lemma_quota_totals_bounded(q: Seq<Quota>)
    ensures
        -q.len() * 0x8000_0000 <= total_new_left(q) <= q.len() * 0x8000_0000,
        -q.len() * 0x8000_0000 <= total_review_left(q) <= q.len() * 0x8000_0000,
        -q.len() * 0x8000_0000 <= total_progressed(q) <= q.len() * 0x8000_0000,
    decreases q.len(),
{
    if q.len() > 0 {
        lemma_quota_totals_bounded(q.drop_last());
    }
}

/// Decides whether the next card of a session over several decks is new:
/// within the first five of every fifteen progressions new cards come first,
/// and a kind with nothing left gives way to the other.
pub fn is_drawing_new(quotas_state: &Vec<Quota>) -> (r: Option<bool>)
    requires
        quotas_state@.len() <= u32::MAX,
    ensures
        r == drawing_new(quotas_state@),
{
    let ghost q = quotas_state@;
    let mut new_total: i64 = 0;
    let mut review_total: i64 = 0;
    let mut progressed: i64 = 0;
    let mut j: usize = 0;
    while j < quotas_state.len()
        invariant
            j <= q.len(),
            q == quotas_state@,
            q.len() <= u32::MAX,
            new_total == total_new_left(q.take(j as int)),
            review_total == total_review_left(q.take(j as int)),
            progressed == total_progressed(q.take(j as int)),
        decreases q.len() - j,
    {
        proof {
            assert(q.take(j + 1).drop_last() =~= q.take(j as int));
            lemma_quota_totals_bounded(q.take(j + 1));
        }
        let x = quotas_state[j];
        new_total = new_total + x.new_left as i64;
        review_total = review_total + x.review_left as i64;
        progressed = progressed + x.num_progressed as i64;
        j = j + 1;
    }
    assert(q.take(q.len() as int) =~= q);
    proof {
        lemma_quota_totals_bounded(q);
        assert(q.len() * 0x8000_0000 <= 0x7fff_ffff_8000_0000) by (nonlinear_arith)
            requires
                q.len() <= u32::MAX,
        ;
    }
    let new_exists = new_total > 0;
    let review_exists = review_total > 0;
    if !new_exists && !review_exists {
        return None;
    }
    let window: i64 = if progressed >= 0 {
        progressed % 15
    } else {
        let m = (-progressed) % 15;
        if m == 0 {
            0
        } else {
            15 - m
        }
    };
    proof {
        if progressed < 0 {
            let p = progressed as int;
            let m = (-p) % 15;
            assert(-p == 15 * ((-p) / 15) + m) by {
                lemma_fundamental_div_mod(-p, 15);
            }
            lemma_mod_pos_bound(-p, 15);
            if m == 0 {
                lemma_fundamental_div_mod_converse(p, 15, -((-p) / 15), 0);
            } else {
                lemma_fundamental_div_mod_converse(p, 15, -((-p) / 15) - 1, 15 - m);
            }
        }
    }
    Some((window < 5 && new_exists) || !review_exists)
}

/// Whether a deck's quota still asks for a card of the given kind.
pub open spec fn deck_wants(q: Quota, is_new: bool) -> bool {
    (is_new && q.new_left > 0) || (!is_new && q.review_left > 0)
}

/// Retries allowed when sampling a deck.
pub const DECK_DRAW_RETRIES: u32 = 10000;

/// The deck at index `idx`, where it exists and its quota still asks for
/// a card of the given kind; else `None`.
pub fn accept_deck(quotas: &Vec<Quota>, idx: usize, is_new: bool) -> (r: Option<usize>)
    ensures
        r == (if idx < quotas@.len() && deck_wants(quotas@[idx as int], is_new) {
            Some(idx)
        } else {
            None::<usize>
        }),
{
    if idx >= quotas.len() {
        return None;
    }
    let q = quotas[idx];
    if (is_new && q.new_left > 0) || (!is_new && q.review_left > 0) {
        Some(idx)
    } else {
        None
    }
}

/// Picks a deck at random among those whose quota still asks for a card of
/// the given kind, by drawing again while the drawn deck asks for none (see
/// `accept_deck`). It gives up with `None` after `DECK_DRAW_RETRIES` draws,
/// and at once where no deck asks for such a card; where every deck asks for
/// one, the first draw is taken.
pub fn choose_deck(quotas: &Vec<Quota>, is_new: bool) -> (r: Option<usize>)
    ensures
        r matches Some(i) ==> i < quotas@.len() && deck_wants(quotas@[i as int], is_new),
        (forall|i: int| 0 <= i < quotas@.len() ==> !deck_wants(#[trigger] quotas@[i], is_new))
            ==> r is None,
        quotas@.len() > 0 && (forall|i: int|
            0 <= i < quotas@.len() ==> deck_wants(#[trigger] quotas@[i], is_new)) ==> r is Some,
{
    let mut any = false;
    let mut j: usize = 0;
    while j < quotas.len()
        invariant
            j <= quotas@.len(),
            any <==> exists|i: int| 0 <= i < j && deck_wants(#[trigger] quotas@[i], is_new),
        decreases quotas@.len() - j,
    {
        if accept_deck(quotas, j, is_new).is_some() {
            any = true;
        }
        j = j + 1;
    }
    if !any {
        proof {
            if quotas@.len() > 0 {
                assert(!deck_wants(quotas@[0], is_new));
            }
        }
        return None;
    }
    let mut tries: u32 = 0;
    while tries < DECK_DRAW_RETRIES
        invariant
            quotas@.len() > 0,
            tries > 0 ==> exists|i: int| 0 <= i < quotas@.len() && !deck_wants(#[trigger] quotas@[i], is_new),
        decreases DECK_DRAW_RETRIES - tries,
    {
        let idx = random_below(quotas.len() as u64) as usize;
        match accept_deck(quotas, idx, is_new) {
            Some(i) => {
                return Some(i);
            },
            None => {
                assert(!deck_wants(quotas@[idx as int], is_new));
            },
        }
        tries = tries + 1;
    }
    None
}

/// Sum of the first `k` weights.
pub open spec fn weight_prefix(w: Seq<u64>, k: int) -> int
    decreases k,
{
    if k <= 0 {
        0
    } else {
        weight_prefix(w, k - 1) + w[k - 1]
    }
}

/// The index whose slice of `0..total` holds `r` when index `i` owns the
/// next `w[i]` values.
pub fn choose_weighted_index(weights: &Vec<u64>, r: u64) -> (idx: usize)
    requires
        r < weight_prefix(weights@, weights@.len() as int),
        weight_prefix(weights@, weights@.len() as int) <= u64::MAX,
    ensures
        idx < weights@.len(),
        weight_prefix(weights@, idx as int) <= r < weight_prefix(weights@, idx + 1),
        weights@[idx as int] > 0,
{
    let ghost w = weights@;
    let mut acc: u64 = 0;
    let mut i: usize = 0;
    while i < weights.len()
        invariant
            w == weights@,
            i <= w.len(),
            acc == weight_prefix(w, i as int),
            acc <= r,
            r < weight_prefix(w, w.len() as int),
            weight_prefix(w, w.len() as int) <= u64::MAX,
        decreases w.len() - i,
    {
        proof {
            lemma_weight_prefix_monotone(w, i + 1, w.len() as int);
        }
        if r < acc + weights[i] {
            return i;
        }
        acc = acc + weights[i];
        i = i + 1;
    }
    proof {
        assert(false);
    }
    0
}

proof fn lemma_weight_prefix_monotone(w: Seq<u64>, j: int, k: int)
    requires
        0 <= j <= k <= w.len(),
    ensures
        weight_prefix(w, j) <= weight_prefix(w, k),
    decreases k - j,
{
    if j < k {
        lemma_weight_prefix_monotone(w, j, k - 1);
    }
}

/// `current_utc + noise`, or the largest key where that does not fit.
pub open spec fn queue_score(current_utc: u64, noise: u64) -> u64 {
    if current_utc + noise <= u64::MAX {
        (current_utc + noise) as u64
    } else {
        u64::MAX
    }
}

/// The priority key of a card last reviewed at `current_utc`: the time plus
/// a jitter below 1800 seconds, so that cards due at about the same time come
/// out in no fixed order.
pub fn get_queue_score(current_utc: u64, noise: u64) -> (r: u64)
    ensures
        r == queue_score(current_utc, noise),
{
    if current_utc <= u64::MAX - noise {
        current_utc + noise
    } else {
        u64::MAX
    }
}

/// Moves the `num_to_introduce` cards of least key out of box 0
/// (`new_cards`) into `fresh`, or all of box 0 where it holds fewer, and
/// returns their indices in the order they were picked.
#[verifier::spinoff_prover]
fn get_ids_to_introduce(new_cards: &mut BoxQueue, fresh: &mut BoxQueue, num_to_introduce: i32) -> (ids:
    Vec<usize>)
    requires
        box_items(*old(fresh)) == empty_box(),
    ensures
        ids@.no_duplicates(),
        ids@.len() <= if num_to_introduce < 0 {
            0
        } else {
            num_to_introduce as int
        },
        ids@.len() < num_to_introduce ==> box_items(*final(new_cards)) == empty_box(),
        forall|k: usize|
            #[trigger] box_items(*final(fresh)).contains_key(k) <==> ids@.contains(k),
        forall|k: usize|
            #[trigger] box_items(*final(new_cards)).contains_key(k) <==> box_items(
                *old(new_cards),
            ).contains_key(k) && !ids@.contains(k),
        forall|k: usize| #[trigger]
            box_items(*final(fresh)).contains_key(k) ==> box_items(*old(new_cards)).contains_key(k)
                && box_items(*final(fresh))[k] == box_items(*old(new_cards))[k],
        forall|k: usize| #[trigger]
            box_items(*final(new_cards)).contains_key(k) ==> box_items(*final(new_cards))[k]
                == box_items(*old(new_cards))[k],
        forall|a: usize, b: usize|
            #[trigger] box_items(*final(fresh)).contains_key(a) && #[trigger] box_items(
                *final(new_cards),
            ).contains_key(b) ==> box_items(*final(fresh))[a] <= box_items(*final(new_cards))[b],
{
    let ghost orig = box_items(*new_cards);
    let mut ids: Vec<usize> = Vec::new();
    let mut t: i32 = 0;
    let mut done = false;
    while t < num_to_introduce && !done
        invariant
            0 <= t,
            t <= num_to_introduce || t == 0,
            ids@.len() == t,
            ids@.no_duplicates(),
            done ==> box_items(*new_cards) == empty_box(),
            forall|k: usize| #[trigger] box_items(*fresh).contains_key(k) <==> ids@.contains(k),
            forall|k: usize|
                #[trigger] box_items(*new_cards).contains_key(k) <==> orig.contains_key(k)
                    && !ids@.contains(k),
            forall|k: usize| #[trigger]
                box_items(*fresh).contains_key(k) ==> orig.contains_key(k) && box_items(*fresh)[k]
                    == orig[k],
            forall|k: usize| #[trigger]
                box_items(*new_cards).contains_key(k) ==> box_items(*new_cards)[k] == orig[k],
            forall|a: usize, b: usize|
                #[trigger] box_items(*fresh).contains_key(a) && #[trigger] box_items(
                    *new_cards,
                ).contains_key(b) ==> box_items(*fresh)[a] <= box_items(*new_cards)[b],
        decreases 2 * (num_to_introduce - t) + if done {
            0int
        } else {
            1int
        },
    {
        match box_pop_min(new_cards) {
            None => {
                done = true;
            },
            Some((i, k)) => {
                box_push(fresh, i, k);
                proof {
                    assert(!ids@.contains(i));
                }
                let ghost before = ids@;
                ids.push(i);
                proof {
                    assert forall|x: usize| #[trigger] ids@.contains(x) <==> (before.contains(x) || x == i) by {
                        if x == i {
                            assert(ids@[ids@.len() - 1] == i);
                        }
                        if before.contains(x) {
                            let j = choose|j: int| 0 <= j < before.len() && before[j] == x;
                            assert(ids@[j] == x);
                        }
                    }
                }
                t = t + 1;
            },
        }
    }
    ids
}

/// Card `k` is filed under box `b` in `v`, counting today's new cards as box 0.
pub open spec fn filed_in(v: SessionView, b: int, k: usize) -> bool {
    v.boxes[b].contains_key(k) || (b == 0 && v.fresh.contains_key(k))
}

/// The key card `k` is filed with.
pub open spec fn filed_key(v: SessionView, k: usize) -> u64 {
    if v.fresh.contains_key(k) {
        v.fresh[k]
    } else {
        v.boxes[v.cards[k as int].box_pos as int][k]
    }
}

impl ReviewSessionState {
    /// Starts a session over `cards` in `num_boxes` boxes, each card filed
    /// with the priority key of the same index in `keys`, and picks today's
    /// new cards: the `quota.new_left` cards of least key in box 0. `None`
    /// where there are fewer than two boxes or a card's box does not exist.
    #[verifier::spinoff_prover]
    pub fn new_with_keys(
        num_boxes: usize,
        cards: Vec<Card>,
        quota: Quota,
        is_last_day: bool,
        keys: &Vec<u64>,
    ) -> (r: Option<Self>)
        requires
            keys@.len() == cards@.len(),
            num_boxes <= u32::MAX,
        ensures
            r is None <==> (num_boxes < 2 || exists|i: int|
                0 <= i < cards@.len() && #[trigger] cards@[i].box_pos >= num_boxes),
            r matches Some(s) ==> {
                &&& s@.wf()
                &&& s@.num_boxes == num_boxes
                &&& s@.cards == cards@
                &&& s@.quota == quota
                &&& s@.is_last_day == is_last_day
                &&& s@.drawn is None
                &&& s@.history.len() == 0
                &&& forall|b: int, k: usize|
                    0 <= b < num_boxes ==> (#[trigger] filed_in(s@, b, k) <==> k < cards@.len()
                        && cards@[k as int].box_pos == b)
                &&& forall|k: usize| k < cards@.len() ==> #[trigger] filed_key(s@, k) == keys@[k as int]
                &&& s@.introduced.no_duplicates()
                &&& forall|k: usize| #[trigger] s@.fresh.contains_key(k) <==> s@.introduced.contains(k)
                &&& s@.introduced.len() <= if quota.new_left < 0 {
                    0
                } else {
                    quota.new_left as int
                }
                &&& s@.introduced.len() < quota.new_left ==> s@.boxes[0] == empty_box()
                &&& forall|a: usize, b: usize|
                    #[trigger] s@.fresh.contains_key(a) && #[trigger] s@.boxes[0].contains_key(b)
                        ==> s@.fresh[a] <= s@.boxes[0][b]
            },
    {
        if num_boxes < 2 {
            return None;
        }
        let n = cards.len();
        let mut i: usize = 0;
        while i < n
            invariant
                n == cards@.len(),
                i <= n,
                forall|j: int| 0 <= j < i ==> #[trigger] cards@[j].box_pos < num_boxes,
            decreases n - i,
        {
            if cards[i].box_pos >= num_boxes {
                return None;
            }
            i = i + 1;
        }
        let mut boxes: Vec<BoxQueue> = Vec::new();
        let mut b: usize = 0;
        while b < num_boxes
            invariant
                b <= num_boxes,
                boxes@.len() == b,
                forall|c: int| 0 <= c < b ==> box_items(#[trigger] boxes@[c]) == empty_box(),
            decreases num_boxes - b,
        {
            boxes.push(box_new());
            b = b + 1;
        }
        let mut i: usize = 0;
        while i < n
            invariant
                n == cards@.len(),
                n == keys@.len(),
                i <= n,
                boxes@.len() == num_boxes,
                forall|j: int| 0 <= j < n ==> #[trigger] cards@[j].box_pos < num_boxes,
                forall|c: int, k: usize|
                    0 <= c < num_boxes ==> (#[trigger] box_items(boxes@[c]).contains_key(k) <==> k < i
                        && cards@[k as int].box_pos == c),
                forall|c: int, k: usize|
                    0 <= c < num_boxes && #[trigger] box_items(boxes@[c]).contains_key(k) ==> box_items(boxes@[c])[k]
                        == keys@[k as int],
            decreases n - i,
        {
            let p = cards[i].box_pos;
            box_push(&mut boxes[p], i, keys[i]);
            i = i + 1;
        }
        let mut fresh = box_new();
        let ghost filled = boxes@;
        let introduced = get_ids_to_introduce(&mut boxes[0], &mut fresh, quota.new_left);
        assert(boxes@.len() == num_boxes);
        assert forall|c: int| 1 <= c < num_boxes implies boxes@[c] == filled[c] by {}
        let s = ReviewSessionState {
            num_boxes,
            cards,
            boxes,
            fresh,
            introduced,
            quota,
            is_last_day,
            drawn: None,
            history: Vec::new(),
            answers: Vec::new(),
        };
        proof {
            let v = s@;
            assert(v.boxes.len() == num_boxes);
            assert forall|c: int| 0 <= c < num_boxes implies v.boxes[c] == box_items(
                #[trigger] boxes@[c],
            ) by {}
            assert forall|c: int, k: usize|
                0 <= c < num_boxes && #[trigger] v.boxes[c].contains_key(k) implies k < n
                && cards@[k as int].box_pos == c && !v.is_drawn(k) && !v.fresh.contains_key(k) by {
                if c != 0 {
                    assert(box_items(filled[c]).contains_key(k));
                } else {
                    assert(box_items(filled[0]).contains_key(k));
                }
            }
            assert forall|k: usize| #[trigger] v.fresh.contains_key(k) implies k < n
                && cards@[k as int].box_pos == 0 && !v.is_drawn(k) by {
                assert(box_items(filled[0]).contains_key(k));
            }
            assert forall|j: int|
                0 <= j < n && !v.is_drawn(j as usize) implies #[trigger] v.boxes[v.cards[j].box_pos as int].contains_key(
                j as usize,
            ) || v.fresh.contains_key(j as usize) by {
                let c = cards@[j].box_pos as int;
                assert(box_items(filled[c]).contains_key(j as usize));
            }
            assert forall|c: int, k: usize| 0 <= c < num_boxes implies (#[trigger] filed_in(v, c, k) <==> k
                < n && cards@[k as int].box_pos == c) by {
                if k < n && cards@[k as int].box_pos == c {
                    assert(box_items(filled[c]).contains_key(k));
                }
            }
            assert forall|k: usize| k < n implies #[trigger] filed_key(v, k) == keys@[k as int] by {
                let c = cards@[k as int].box_pos as int;
                assert(box_items(filled[c]).contains_key(k));
                assert(box_items(filled[c])[k] == keys@[k as int]);
                if v.fresh.contains_key(k) {
                    assert(v.fresh[k] == box_items(filled[0])[k]);
                } else if c == 0 {
                    assert(v.boxes[0].contains_key(k));
                    assert(v.boxes[0][k] == box_items(filled[0])[k]);
                } else {
                    assert(v.boxes[c] == box_items(filled[c]));
                }
            }
        }
        Some(s)
    }
}

proof fn lemma_weight_prefix_bound(w: Seq<u64>, k: int, m: int)
    requires
        0 <= k <= w.len(),
        0 <= m,
        forall|j: int| 0 <= j < w.len() ==> #[trigger] w[j] <= m,
    ensures
        0 <= weight_prefix(w, k) <= k * m,
    decreases k,
{
    if k > 0 {
        lemma_weight_prefix_bound(w, k - 1, m);
        assert(k * m == (k - 1) * m + m) by (nonlinear_arith);
    }
}

/// What a draw that gives card `i` does: `i` leaves today's new cards (a
/// new draw) or the box whose share of the weights holds `point` (a review draw),
/// whichever it was drawn from, with the least key there; the rest stays.
pub open spec fn drawn_from(
    old: SessionView,
    new: SessionView,
    i: usize,
    is_new: bool,
    point: int,
) -> bool {
    &&& new.cards == old.cards
    &&& new.num_boxes == old.num_boxes
    &&& new.quota == old.quota
    &&& new.introduced == old.introduced
    &&& new.is_last_day == old.is_last_day
    &&& new.history == old.history
    &&& new.answers == old.answers
    &&& if is_new {
        &&& old.fresh.contains_key(i)
        &&& forall|j: usize| #[trigger] old.fresh.contains_key(j) ==> old.fresh[i] <= old.fresh[j]
        &&& new.fresh == old.fresh.remove(i)
        &&& new.boxes == old.boxes
        &&& new.drawn == Some(DrawnCard { card: i, key: old.fresh[i], stack_before: StackKind::New })
    } else {
        exists|b: int|
            {
                &&& 0 <= b < old.num_boxes
                &&& weight_prefix(old.review_weights(), b) <= point < weight_prefix(
                    old.review_weights(),
                    b + 1,
                )
                &&& #[trigger] old.boxes[b].contains_key(i)
                &&& forall|j: usize| #[trigger]
                    old.boxes[b].contains_key(j) ==> old.boxes[b][i] <= old.boxes[b][j]
                &&& new.boxes == old.boxes.update(b, old.boxes[b].remove(i))
                &&& new.fresh == old.fresh
                &&& new.drawn == Some(
                    DrawnCard { card: i, key: old.boxes[b][i], stack_before: StackKind::Review },
                )
            }
    }
}

/// Card `i` was drawn from `old` to give `new`, for some random pick.
pub open spec fn drawn_at_random(old: SessionView, new: SessionView, i: usize, is_new: bool) -> bool {
    exists|point: int| drawn_from(old, new, i, is_new, point)
}

/// The total review weight of a session.
pub open spec fn total_review_weight(v: SessionView) -> int {
    weight_prefix(v.review_weights(), v.num_boxes as int)
}

impl ReviewSessionState {
    /// The review weight of every box.
    fn review_weights(&self) -> (w: Vec<u64>)
        requires
            self@.wf(),
        ensures
            w@ == self@.review_weights(),
    {
        let ghost v = self@;
        let nb = self.num_boxes;
        let top: usize = if self.is_last_day {
            nb - 1
        } else {
            nb - 2
        };
        let mut w: Vec<u64> = Vec::new();
        let mut b: usize = 0;
        while b < nb
            invariant
                v == self@,
                v.wf(),
                nb == v.num_boxes,
                nb == self.boxes@.len(),
                top == v.top_review_box(),
                b <= nb,
                w@.len() == b,
                forall|c: int| 0 <= c < b ==> w@[c] == v.review_weight(c),
            decreases nb - b,
        {
            proof {
                assert(v.boxes[b as int] == box_items(self.boxes@[b as int]));
            }
            let x: u64 = if 1 <= b && b <= top && !box_is_empty(&self.boxes[b]) {
                b as u64
            } else {
                0
            };
            w.push(x);
            b = b + 1;
        }
        assert(w@ =~= v.review_weights());
        w
    }
}

impl ReviewSessionState {
    /// Draws the next card, with `r` standing for the random choice of a
    /// review box: the weights share out `0..total`, and the box whose share
    /// holds `r % total` is drawn from. A new card is the one of least key
    /// among today's new cards; a review card the one of least key in its box.
    #[verifier::spinoff_prover]
    pub fn draw_card_with(&mut self, r: u64) -> (d: Drawn)
        requires
            old(self)@.wf(),
            old(self)@.drawn is None,
        ensures
            final(self)@.wf(),
            d == Drawn::SessionComplete <==> drawing_new(seq![old(self)@.quota]) is None,
            d == Drawn::SessionComplete || d == Drawn::Stalled ==> final(self)@ == old(self)@,
            d == Drawn::Stalled ==> (drawing_new(seq![old(self)@.quota]) == Some(true)
                && old(self)@.fresh == empty_box()) || (drawing_new(seq![old(self)@.quota]) == Some(
                false) && total_review_weight(old(self)@) == 0),
            d matches Drawn::Card(i) ==> drawing_new(seq![old(self)@.quota]) matches Some(is_new)
                && drawn_from(
                old(self)@,
                final(self)@,
                i,
                is_new,
                if total_review_weight(old(self)@) > 0 {
                    (r as int) % total_review_weight(old(self)@)
                } else {
                    0
                },
            ),
    {
        let qs = vec![self.quota];
        assert(qs@ =~= seq![self@.quota]);
        match is_drawing_new(&qs) {
            None => Drawn::SessionComplete,
            Some(is_new) => self.draw_card_of_kind(is_new, r),
        }
    }

    /// Draws a card of the given kind, as `draw_card_with` does once the
    /// kind is decided; `Stalled` where no card of that kind can be drawn.
    #[verifier::spinoff_prover]
    pub fn draw_card_of_kind(&mut self, is_new: bool, r: u64) -> (d: Drawn)
        requires
            old(self)@.wf(),
            old(self)@.drawn is None,
        ensures
            final(self)@.wf(),
            d != Drawn::SessionComplete,
            d == Drawn::Stalled ==> final(self)@ == old(self)@ && (if is_new {
                old(self)@.fresh == empty_box()
            } else {
                total_review_weight(old(self)@) == 0
            }),
            d matches Drawn::Card(i) ==> drawn_from(
                old(self)@,
                final(self)@,
                i,
                is_new,
                if total_review_weight(old(self)@) > 0 {
                    (r as int) % total_review_weight(old(self)@)
                } else {
                    0
                },
            ),
    {
        let ghost v = self@;
        if is_new {
            match box_pop_min(&mut self.fresh) {
                None => {
                    assert(self@ == v);
                    Drawn::Stalled
                },
                Some((i, k)) => {
                    self.drawn = Some(DrawnCard { card: i, key: k, stack_before: StackKind::New });
                    proof {
                        let w = self@;
                        assert(w.boxes == v.boxes);
                        assert(w.fresh == v.fresh.remove(i));
                        assert forall|b: int, k: usize|
                            0 <= b < w.boxes.len() && #[trigger] w.boxes[b].contains_key(k) implies k
                            < w.cards.len() && w.cards[k as int].box_pos == b && !w.is_drawn(k)
                            && !w.fresh.contains_key(k) by {
                            assert(v.boxes[b].contains_key(k));
                        }
                        assert forall|j: int|
                            0 <= j < w.cards.len() && !w.is_drawn(j as usize) implies #[trigger] w.boxes[w.cards[j].box_pos as int].contains_key(
                            j as usize,
                        ) || w.fresh.contains_key(j as usize) by {
                            assert(!v.is_drawn(j as usize));
                        }
                    }
                    Drawn::Card(i)
                },
            }
        } else {
            let weights = self.review_weights();
            let nb = self.num_boxes;
            let mut total: u64 = 0;
            let mut b: usize = 0;
            proof {
                assert forall|j: int| 0 <= j < weights@.len() implies #[trigger] weights@[j] <= u32::MAX by {}
            }
            while b < nb
                invariant
                    nb == weights@.len(),
                    nb <= u32::MAX,
                    b <= nb,
                    forall|j: int| 0 <= j < weights@.len() ==> #[trigger] weights@[j] <= u32::MAX,
                    total == weight_prefix(weights@, b as int),
                decreases nb - b,
            {
                proof {
                    lemma_weight_prefix_bound(weights@, b + 1, u32::MAX as int);
                    assert((b + 1) * (u32::MAX as int) <= u32::MAX * u32::MAX) by (nonlinear_arith)
                        requires
                            b + 1 <= u32::MAX,
                    ;
                }
                total = total + weights[b];
                b = b + 1;
            }
            if total == 0 {
                assert(self@ == v);
                return Drawn::Stalled;
            }
            let point = r % total;
            let c = choose_weighted_index(&weights, point);
            proof {
                assert(v.boxes[c as int] == box_items(self.boxes@[c as int]));
            }
            match box_pop_min(&mut self.boxes[c]) {
                None => {
                    proof {
                        assert(false);
                    }
                    Drawn::Stalled
                },
                Some((i, k)) => {
                    self.drawn = Some(DrawnCard { card: i, key: k, stack_before: StackKind::Review });
                    proof {
                        let w = self@;
                        assert(w.boxes =~= v.boxes.update(c as int, v.boxes[c as int].remove(i)));
                        assert(v.boxes[c as int].contains_key(i));
                        assert(v.cards[i as int].box_pos == c);
                        assert forall|b: int, k: usize|
                            0 <= b < w.boxes.len() && #[trigger] w.boxes[b].contains_key(k) implies k
                            < w.cards.len() && w.cards[k as int].box_pos == b && !w.is_drawn(k)
                            && !w.fresh.contains_key(k) by {
                            assert(v.boxes[b].contains_key(k));
                        }
                        assert forall|k: usize| #[trigger] w.fresh.contains_key(k) implies k
                            < w.cards.len() && w.cards[k as int].box_pos == 0 && !w.is_drawn(k) by {
                            assert(v.fresh.contains_key(k));
                        }
                        assert forall|j: int|
                            0 <= j < w.cards.len() && !w.is_drawn(j as usize) implies #[trigger] w.boxes[w.cards[j].box_pos as int].contains_key(
                            j as usize,
                        ) || w.fresh.contains_key(j as usize) by {
                            assert(!v.is_drawn(j as usize));
                            assert(v.boxes[v.cards[j].box_pos as int].contains_key(j as usize)
                                || v.fresh.contains_key(j as usize));
                        }
                        assert(drawn_from(v, w, i, false, point as int));
                    }
                    Drawn::Card(i)
                },
            }
        }
    }
}

/// The quota after a response of `score` to a card at `box_pos`: a new card
/// counts only once answered right; a review card moves the review count
/// and the progress by the score.
pub open spec fn quota_after(q: Quota, box_pos: int, score: int) -> Quota {
    if box_pos == 0 {
        if score == 1 {
            Quota { new_left: (q.new_left - 1) as i32, num_progressed: (q.num_progressed + 1) as i32, ..q }
        } else {
            q
        }
    } else {
        Quota {
            review_left: (q.review_left - score) as i32,
            num_progressed: (q.num_progressed + score) as i32,
            ..q
        }
    }
}

/// The stack a card goes to after a response: done once answered right.
pub open spec fn stack_after_spec(before: StackKind, score: int) -> StackKind {
    if score == 1 {
        StackKind::Done
    } else {
        before
    }
}

/// The session after the drawn card is graded `score` at time `now` and
/// filed again with priority `key`: it moves by the score within the boxes,
/// a new card that stays in box 0 stays among today's new cards, and the
/// response is recorded for undo.
pub open spec fn apply_view(
    v: SessionView,
    score: int,
    now: u64,
    key: u64,
    answer: Seq<char>,
) -> SessionView {
    let d = v.drawn->0;
    let i = d.card;
    let p = v.cards[i as int].box_pos as int;
    let np = clamp(p + score, 0, v.num_boxes - 1);
    let stays_fresh = d.stack_before == StackKind::New && np == 0;
    SessionView {
        cards: v.cards.update(
            i as int,
            Card { id: v.cards[i as int].id, box_pos: np as usize, last_review: now },
        ),
        boxes: if stays_fresh {
            v.boxes
        } else {
            v.boxes.update(np, v.boxes[np].insert(i, key))
        },
        fresh: if stays_fresh {
            v.fresh.insert(i, key)
        } else {
            v.fresh
        },
        quota: quota_after(v.quota, p, score),
        drawn: None,
        history: v.history.push(
            UserResponse {
                card: i,
                score: score as i32,
                prev_box_pos: p as usize,
                prev_last_review: v.cards[i as int].last_review,
                prev_key: d.key,
                prev_quota: v.quota,
                stack_before: d.stack_before,
                stack_after: stack_after_spec(d.stack_before, score),
            },
        ),
        answers: v.answers.push(answer),
        ..v
    }
}

/// The session with its drawn card, if any, filed back where it came from.
pub open spec fn put_back(v: SessionView) -> SessionView {
    match v.drawn {
        None => v,
        Some(d) => if d.stack_before == StackKind::New {
            SessionView { fresh: v.fresh.insert(d.card, d.key), drawn: None, ..v }
        } else {
            let b = v.cards[d.card as int].box_pos as int;
            SessionView { boxes: v.boxes.update(b, v.boxes[b].insert(d.card, d.key)), drawn: None, ..v }
        },
    }
}

/// The session once its last response is undone: the drawn card goes back,
/// the card of the last response leaves its box, gets back its position and
/// review time, and is the drawn card again; the quota is as before.
pub open spec fn undo_view(v: SessionView) -> SessionView {
    let m = put_back(v);
    let h = v.history.last();
    let i = h.card;
    let b = m.cards[i as int].box_pos as int;
    SessionView {
        cards: m.cards.update(
            i as int,
            Card { id: m.cards[i as int].id, box_pos: h.prev_box_pos, last_review: h.prev_last_review },
        ),
        boxes: m.boxes.update(b, m.boxes[b].remove(i)),
        fresh: m.fresh.remove(i),
        quota: h.prev_quota,
        drawn: Some(DrawnCard { card: i, key: h.prev_key, stack_before: h.stack_before }),
        history: v.history.drop_last(),
        answers: v.answers.drop_last(),
        ..m
    }
}

/// The quota counters leave room for one more response.
pub open spec fn quota_has_room(q: Quota) -> bool {
    &&& i32::MIN < q.new_left
    &&& i32::MIN < q.review_left < i32::MAX
    &&& i32::MIN < q.num_progressed < i32::MAX
}

impl ReviewSessionState {
    /// Records the response `score` (-1, 0 or 1) to the drawn card at time
    /// `now`, filing the card again with the priority key of `now` and
    /// `noise`; returns the stack the card is in after it.
    #[verifier::spinoff_prover]
    pub fn apply_response_at(&mut self, score: i32, now: u64, noise: u64, user_answer: String) -> (r:
        StackKind)
        requires
            old(self)@.wf(),
            old(self)@.drawn is Some,
            -1 <= score <= 1,
            quota_has_room(old(self)@.quota),
        ensures
            final(self)@.wf(),
            final(self)@ == apply_view(
                old(self)@,
                score as int,
                now,
                queue_score(now, noise),
                user_answer@,
            ),
            r == stack_after_spec(old(self)@.drawn->0.stack_before, score as int),
    {
        let ghost v = self@;
        let d = match self.drawn {
            Some(d) => d,
            None => {
                proof {
                    assert(false);
                }
                return StackKind::Done;
            },
        };
        let i = d.card;
        let old_card = self.cards[i];
        let p = old_card.box_pos;
        let nb = self.num_boxes;
        let np: usize = if score == 1 && p + 1 < nb {
            p + 1
        } else if score == -1 && p > 0 {
            p - 1
        } else {
            p
        };
        assert(np == clamp(p + score, 0, nb - 1));
        let key = get_queue_score(now, noise);
        let q = self.quota;
        self.quota = if p == 0 {
            if score == 1 {
                Quota { new_left: q.new_left - 1, num_progressed: q.num_progressed + 1, ..q }
            } else {
                q
            }
        } else {
            Quota { review_left: q.review_left - score, num_progressed: q.num_progressed + score, ..q }
        };
        self.cards.set(i, Card { id: old_card.id, box_pos: np, last_review: now });
        if d.stack_before == StackKind::New && np == 0 {
            box_push(&mut self.fresh, i, key);
        } else {
            box_push(&mut self.boxes[np], i, key);
        }
        let after = if score == 1 {
            StackKind::Done
        } else {
            d.stack_before
        };
        self.history.push(
            UserResponse {
                card: i,
                score,
                prev_box_pos: p,
                prev_last_review: old_card.last_review,
                prev_key: d.key,
                prev_quota: q,
                stack_before: d.stack_before,
                stack_after: after,
            },
        );
        let ghost typed = user_answer@;
        self.answers.push(user_answer);
        self.drawn = None;
        proof {
            let w = self@;
            let e = apply_view(v, score as int, now, key, typed);
            assert(w.boxes =~= e.boxes);
            assert(w.cards =~= e.cards);
            assert(w.history =~= e.history);
            assert(w.answers =~= e.answers);
            assert(w == e);
            assert(w.answers.len() == v.answers.len() + 1);
            assert(w.history.len() == v.history.len() + 1);
            assert forall|b: int, k: usize|
                0 <= b < w.boxes.len() && #[trigger] w.boxes[b].contains_key(k) implies k
                < w.cards.len() && w.cards[k as int].box_pos == b && !w.is_drawn(k)
                && !w.fresh.contains_key(k) by {
                if k != i {
                    assert(v.boxes[b].contains_key(k));
                }
            }
            assert forall|k: usize| #[trigger] w.fresh.contains_key(k) implies k < w.cards.len()
                && w.cards[k as int].box_pos == 0 && !w.is_drawn(k) by {
                if k != i {
                    assert(v.fresh.contains_key(k));
                }
            }
            assert forall|j: int|
                0 <= j < w.cards.len() && !w.is_drawn(j as usize) implies #[trigger] w.boxes[w.cards[j].box_pos as int].contains_key(
                j as usize,
            ) || w.fresh.contains_key(j as usize) by {
                if j != i {
                    assert(v.drawn == Some(d));
                    assert((j as usize) != i);
                    assert(!v.is_drawn(j as usize));
                    assert(v.boxes[v.cards[j].box_pos as int].contains_key(j as usize)
                        || v.fresh.contains_key(j as usize));
                }
            }
            assert forall|h: int| 0 <= h < w.history.len() implies #[trigger] w.history[h].card
                < w.cards.len() && w.history[h].prev_box_pos < w.num_boxes
                && w.history[h].stack_before != StackKind::Done && (w.history[h].stack_before
                == StackKind::New ==> w.history[h].prev_box_pos == 0) by {
                if h < v.history.len() {
                    assert(w.history[h] == v.history[h]);
                }
            }
        }
        after
    }
}

impl ReviewSessionState {
    /// Undoes the last recorded response: its quota and the card's position
    /// come back, and the card is the drawn one again, while a card drawn
    /// since goes back to where it came from. Returns the undone response
    /// with the answer typed with it, or `None`, changing nothing, when there
    /// is none.
    #[verifier::spinoff_prover]
    pub fn undo(&mut self) -> (r: Option<(UserResponse, String)>)
        requires
            old(self)@.wf(),
        ensures
            final(self)@.wf(),
            old(self)@.history.len() == 0 ==> r is None && final(self)@ == old(self)@,
            old(self)@.history.len() > 0 ==> r is Some && final(self)@ == undo_view(old(self)@),
            r matches Some((h, a)) ==> h == old(self)@.history.last() && a@ == old(self)@.answers.last(),
    {
        let ghost v = self@;
        if self.history.len() == 0 {
            return None;
        }
        match self.drawn {
            None => {},
            Some(d) => {
                if d.stack_before == StackKind::New {
                    box_push(&mut self.fresh, d.card, d.key);
                } else {
                    let b = self.cards[d.card].box_pos;
                    box_push(&mut self.boxes[b], d.card, d.key);
                }
                self.drawn = None;
            },
        }
        let ghost m = self@;
        proof {
            assert(m.boxes =~= put_back(v).boxes);
            assert(m == put_back(v));
        }
        let h = match self.history.pop() {
            Some(h) => h,
            None => {
                proof {
                    assert(false);
                }
                return None;
            },
        };
        let answer = match self.answers.pop() {
            Some(a) => a,
            None => {
                proof {
                    assert(false);
                }
                return None;
            },
        };
        let i = h.card;
        let cur = self.cards[i];
        box_remove(&mut self.boxes[cur.box_pos], i);
        box_remove(&mut self.fresh, i);
        self.cards.set(
            i,
            Card { id: cur.id, box_pos: h.prev_box_pos, last_review: h.prev_last_review },
        );
        self.quota = h.prev_quota;
        self.drawn = Some(DrawnCard { card: i, key: h.prev_key, stack_before: h.stack_before });
        proof {
            let w = self@;
            let e = undo_view(v);
            assert(h == v.history.last());
            assert(w.boxes =~= e.boxes);
            assert(w.cards =~= e.cards);
            assert(w.history =~= e.history);
            assert(w.answers =~= e.answers);
            assert(answer@ == v.answers.last());
            assert(w == e);
            assert(v.history[v.history.len() - 1] == h);
            assert forall|b: int, k: usize|
                0 <= b < w.boxes.len() && #[trigger] w.boxes[b].contains_key(k) implies k
                < w.cards.len() && w.cards[k as int].box_pos == b && !w.is_drawn(k)
                && !w.fresh.contains_key(k) by {
                assert(m.boxes[b].contains_key(k));
            }
            assert forall|k: usize| #[trigger] w.fresh.contains_key(k) implies k < w.cards.len()
                && w.cards[k as int].box_pos == 0 && !w.is_drawn(k) by {
                assert(m.fresh.contains_key(k));
            }
            assert forall|j: int|
                0 <= j < w.cards.len() && !w.is_drawn(j as usize) implies #[trigger] w.boxes[w.cards[j].box_pos as int].contains_key(
                j as usize,
            ) || w.fresh.contains_key(j as usize) by {
                assert((j as usize) != i);
                assert(m.boxes[m.cards[j].box_pos as int].contains_key(j as usize)
                    || m.fresh.contains_key(j as usize));
            }
            assert forall|g: int| 0 <= g < w.history.len() implies #[trigger] w.history[g].card
                < w.cards.len() && w.history[g].prev_box_pos < w.num_boxes
                && w.history[g].stack_before != StackKind::Done && (w.history[g].stack_before
                == StackKind::New ==> w.history[g].prev_box_pos == 0) by {
                assert(w.history[g] == v.history[g]);
                assert(0 <= g < v.history.len());
                assert(v.history[g].card < v.cards.len());
                assert(w.cards.len() == v.cards.len());
            }
        }
        Some((h, answer))
    }
}

/// Grading the drawn card and then undoing that response gives back the
/// session exactly: quota counters, box positions, review times, box
/// contents, the drawn card and the recorded responses.
pub proof fn lemma_apply_then_undo(
    v: SessionView,
    score: int,
    now: u64,
    key: u64,
    answer: Seq<char>,
)
    requires
        v.wf(),
        v.drawn is Some,
        -1 <= score <= 1,
        quota_has_room(v.quota),
    ensures
        undo_view(apply_view(v, score, now, key, answer)) == v,
{
    let a = apply_view(v, score, now, key, answer);
    let u = undo_view(a);
    let d = v.drawn->0;
    let i = d.card;
    assert(put_back(a) == a);
    assert(a.history.last().card == i);
    let p = v.cards[i as int].box_pos as int;
    let np = clamp(p + score, 0, v.num_boxes - 1);
    assert(a.cards[i as int].box_pos == np);
    assert(!v.fresh.contains_key(i));
    assert forall|b: int| 0 <= b < v.boxes.len() implies !v.boxes[b].contains_key(i) by {}
    assert(u.fresh =~= v.fresh);
    assert(u.boxes[np] =~= v.boxes[np]);
    assert(u.boxes =~= v.boxes);
    assert(u.cards =~= v.cards);
    assert(u.history =~= v.history);
    assert(u.answers =~= v.answers);
}

/// In a well-formed session every card's box lies within the boxes.
pub proof fn lemma_box_positions_in_range(v: SessionView)
    requires
        v.wf(),
    ensures
        forall|i: int| 0 <= i < v.cards.len() ==> #[trigger] v.cards[i].box_pos < v.num_boxes,
{
}

/// A response keeps every card's box within the boxes.
pub proof fn lemma_response_keeps_boxes_in_range(
    v: SessionView,
    score: int,
    now: u64,
    key: u64,
    answer: Seq<char>,
)
    requires
        v.wf(),
        v.drawn is Some,
        -1 <= score <= 1,
    ensures
        forall|i: int|
            0 <= i < v.cards.len() ==> #[trigger] apply_view(v, score, now, key, answer).cards[i].box_pos
                < v.num_boxes,
{
    let a = apply_view(v, score, now, key, answer);
    assert forall|i: int| 0 <= i < v.cards.len() implies #[trigger] a.cards[i].box_pos
        < v.num_boxes by {
        if i != v.drawn->0.card {
            assert(a.cards[i] == v.cards[i]);
        }
    }
}

/// Jitter is drawn from `0..QUEUE_NOISE` seconds.
pub const QUEUE_NOISE: u64 = 1800;

impl ReviewSessionState {
    /// Starts a session as `new_with_keys` does, each card keyed by its last
    /// review time plus a random jitter.
    pub fn new(num_boxes: usize, cards: Vec<Card>, quota: Quota, is_last_day: bool) -> (r: Option<
        Self,
    >)
        requires
            num_boxes <= u32::MAX,
        ensures
            r is None <==> (num_boxes < 2 || exists|i: int|
                0 <= i < cards@.len() && #[trigger] cards@[i].box_pos >= num_boxes),
            r matches Some(s) ==> {
                &&& s@.wf()
                &&& s@.num_boxes == num_boxes
                &&& s@.cards == cards@
                &&& s@.quota == quota
                &&& s@.is_last_day == is_last_day
                &&& s@.drawn is None
                &&& s@.history.len() == 0
                &&& forall|b: int, k: usize|
                    0 <= b < num_boxes ==> (#[trigger] filed_in(s@, b, k) <==> k < cards@.len()
                        && cards@[k as int].box_pos == b)
                &&& s@.introduced.no_duplicates()
                &&& forall|k: usize| #[trigger] s@.fresh.contains_key(k) <==> s@.introduced.contains(k)
                &&& s@.introduced.len() <= if quota.new_left < 0 {
                    0
                } else {
                    quota.new_left as int
                }
                &&& s@.introduced.len() < quota.new_left ==> s@.boxes[0] == empty_box()
                &&& forall|a: usize, b: usize|
                    #[trigger] s@.fresh.contains_key(a) && #[trigger] s@.boxes[0].contains_key(b)
                        ==> s@.fresh[a] <= s@.boxes[0][b]
            },
    {
        let mut keys: Vec<u64> = Vec::new();
        let mut i: usize = 0;
        while i < cards.len()
            invariant
                i <= cards@.len(),
                keys@.len() == i,
            decreases cards@.len() - i,
        {
            let noise = random_below(QUEUE_NOISE);
            keys.push(get_queue_score(cards[i].last_review, noise));
            i = i + 1;
        }
        Self::new_with_keys(num_boxes, cards, quota, is_last_day, &keys)
    }

    /// Draws the next card, picking a review box at random by weight.
    pub fn draw_card(&mut self) -> (d: Drawn)
        requires
            old(self)@.wf(),
            old(self)@.drawn is None,
        ensures
            final(self)@.wf(),
            d == Drawn::SessionComplete <==> drawing_new(seq![old(self)@.quota]) is None,
            d == Drawn::SessionComplete || d == Drawn::Stalled ==> final(self)@ == old(self)@,
            d == Drawn::Stalled ==> (drawing_new(seq![old(self)@.quota]) == Some(true)
                && old(self)@.fresh == empty_box()) || (drawing_new(seq![old(self)@.quota]) == Some(
                false) && total_review_weight(old(self)@) == 0),
            d matches Drawn::Card(i) ==> drawing_new(seq![old(self)@.quota]) matches Some(is_new)
                && drawn_at_random(old(self)@, final(self)@, i, is_new),
    {
        let r = random_below(u64::MAX);
        self.draw_card_with(r)
    }

    /// Records the response `score` (-1, 0 or 1) to the drawn card now,
    /// with the answer the user typed.
    pub fn apply_response(&mut self, score: i32, user_answer: String) -> (r: StackKind)
        requires
            old(self)@.wf(),
            old(self)@.drawn is Some,
            -1 <= score <= 1,
            quota_has_room(old(self)@.quota),
        ensures
            final(self)@.wf(),
            exists|now: u64, key: u64|
                final(self)@ == apply_view(old(self)@, score as int, now, key, user_answer@),
            r == stack_after_spec(old(self)@.drawn->0.stack_before, score as int),
    {
        let t = now_timestamp();
        let now: u64 = if t < 0 {
            0
        } else {
            t as u64
        };
        let noise = random_below(QUEUE_NOISE);
        self.apply_response_at(score, now, noise, user_answer)
    }

    /// Today's remaining quota.
    pub fn quota(&self) -> (q: Quota)
        ensures
            q == self@.quota,
    {
        self.quota
    }

    /// The number of cards in the session.
    pub fn num_cards(&self) -> (n: usize)
        ensures
            n == self@.cards.len(),
    {
        self.cards.len()
    }

    /// The card at index `i`.
    pub fn card(&self, i: usize) -> (c: Card)
        requires
            i < self@.cards.len(),
        ensures
            c == self@.cards[i as int],
    {
        self.cards[i]
    }

    /// The drawn card, if any.
    pub fn drawn_card(&self) -> (d: Option<DrawnCard>)
        ensures
            d == self@.drawn,
    {
        self.drawn
    }
}

/// The quota of a deadline: the quotas of its decks added up.
pub fn get_deadline_summed_quota(quotas: &Vec<Quota>) -> (r: Quota)
    requires
        quotas@.len() <= u32::MAX,
        i32::MIN <= total_new_left(quotas@) <= i32::MAX,
        i32::MIN <= total_review_left(quotas@) <= i32::MAX,
        i32::MIN <= total_progressed(quotas@) <= i32::MAX,
    ensures
        r.new_left == total_new_left(quotas@),
        r.review_left == total_review_left(quotas@),
        r.num_progressed == total_progressed(quotas@),
{
    let ghost q = quotas@;
    let mut new_total: i64 = 0;
    let mut review_total: i64 = 0;
    let mut progressed: i64 = 0;
    let mut j: usize = 0;
    while j < quotas.len()
        invariant
            j <= q.len(),
            q == quotas@,
            q.len() <= u32::MAX,
            new_total == total_new_left(q.take(j as int)),
            review_total == total_review_left(q.take(j as int)),
            progressed == total_progressed(q.take(j as int)),
        decreases q.len() - j,
    {
        proof {
            assert(q.take(j + 1).drop_last() =~= q.take(j as int));
            lemma_quota_totals_bounded(q.take(j + 1));
        }
        let x = quotas[j];
        new_total = new_total + x.new_left as i64;
        review_total = review_total + x.review_left as i64;
        progressed = progressed + x.num_progressed as i64;
        j = j + 1;
    }
    assert(q.take(q.len() as int) =~= q);
    Quota {
        new_left: new_total as i32,
        review_left: review_total as i32,
        num_progressed: progressed as i32,
    }
}

/// What a line typed during a review asks for.
#[derive(Clone, Copy, Debug, PartialEq, Eq, Structural)]
pub enum UserInput {
    /// Enter on the front of a card: show the back.
    Flip,
    /// `q`: leave the session.
    Quit,
    /// `1`, `2` or `3`: the score -1, 0 or 1.
    Score(i32),
    /// Anything else: ask again.
    Invalid,
}

/// Reads one line typed during a review, newline included.
pub fn get_response(line: &String, is_front: bool) -> (r: UserInput)
    ensures
        r == (if line@ == "\n"@ && is_front {
            UserInput::Flip
        } else if line@ == "q\n"@ {
            UserInput::Quit
        } else if line@ == "1\n"@ {
            UserInput::Score(-1i32)
        } else if line@ == "2\n"@ {
            UserInput::Score(0i32)
        } else if line@ == "3\n"@ {
            UserInput::Score(1i32)
        } else {
            UserInput::Invalid
        }),
{
    if is_front && *line == "\n".to_owned() {
        UserInput::Flip
    } else if *line == "q\n".to_owned() {
        UserInput::Quit
    } else if *line == "1\n".to_owned() {
        UserInput::Score(-1)
    } else if *line == "2\n".to_owned() {
        UserInput::Score(0)
    } else if *line == "3\n".to_owned() {
        UserInput::Score(1)
    } else {
        UserInput::Invalid
    }
}

impl ReviewSessionState {
    /// Puts the drawn card, if any, back where it came from, as if it had
    /// not been drawn.
    pub fn abandon_draw(&mut self)
        requires
            old(self)@.wf(),
        ensures
            final(self)@.wf(),
            final(self)@ == put_back(old(self)@),
    {
        let ghost v = self@;
        match self.drawn {
            None => {},
            Some(d) => {
                if d.stack_before == StackKind::New {
                    box_push(&mut self.fresh, d.card, d.key);
                } else {
                    let b = self.cards[d.card].box_pos;
                    box_push(&mut self.boxes[b], d.card, d.key);
                }
                self.drawn = None;
                proof {
                    let w = self@;
                    assert(w.boxes =~= put_back(v).boxes);
                    assert forall|b: int, k: usize|
                        0 <= b < w.boxes.len() && #[trigger] w.boxes[b].contains_key(k) implies k
                        < w.cards.len() && w.cards[k as int].box_pos == b && !w.is_drawn(k)
                        && !w.fresh.contains_key(k) by {
                        if k != d.card {
                            assert(v.boxes[b].contains_key(k));
                        }
                    }
                    assert forall|k: usize| #[trigger] w.fresh.contains_key(k) implies k
                        < w.cards.len() && w.cards[k as int].box_pos == 0 && !w.is_drawn(k) by {
                        if k != d.card {
                            assert(v.fresh.contains_key(k));
                        }
                    }
                    assert forall|j: int|
                        0 <= j < w.cards.len() && !w.is_drawn(j as usize) implies #[trigger] w.boxes[w.cards[j].box_pos as int].contains_key(
                        j as usize,
                    ) || w.fresh.contains_key(j as usize) by {
                        if (j as usize) != d.card {
                            assert(!v.is_drawn(j as usize));
                            assert(v.boxes[v.cards[j].box_pos as int].contains_key(j as usize)
                                || v.fresh.contains_key(j as usize));
                        }
                    }
                }
            },
        }
    }
}

/// The outcome of a draw in a session over several decks.
#[derive(Clone, Copy, Debug, PartialEq, Eq, Structural)]
pub enum DeckDraw {
    /// The card at index `card` of deck `deck` is drawn, a new card or not.
    Card { deck: usize, card: usize, is_new: bool },
    /// Nothing is left to study today in any deck.
    SessionComplete,
    /// No deck that asks for a card of the kind the quotas ask for was picked.
    Stalled,
    /// Deck `deck` was picked for a card of that kind and could give none.
    DeckStalled { deck: usize, is_new: bool },
}

/// Whether a deck's session can give a card of the given kind: a new card
/// among today's new cards, or a review from a box of positive weight.
pub open spec fn can_give(v: SessionView, is_new: bool) -> bool {
    if is_new {
        v.fresh != empty_box()
    } else {
        total_review_weight(v) > 0
    }
}

/// How many times `j` occurs in `s`.
pub open spec fn count_in(s: Seq<usize>, j: usize) -> nat
    decreases s.len(),
{
    if s.len() == 0 {
        0
    } else {
        count_in(s.drop_last(), j) + if s.last() == j {
            1nat
        } else {
            0nat
        }
    }
}

proof fn lemma_count_push(s: Seq<usize>, k: usize, j: usize)
    ensures
        count_in(s.push(k), j) == count_in(s, j) + if k == j {
            1nat
        } else {
            0nat
        },
{
    assert(s.push(k).drop_last() =~= s);
}

/// The model of a session over the decks of one deadline.
pub struct DeadlineView {
    pub decks: Seq<SessionView>,
    /// The deck whose card is drawn, if any.
    pub current: Option<usize>,
    /// The deck of each recorded response, oldest first.
    pub responded: Seq<usize>,
}

impl DeadlineView {
    pub open spec fn wf(&self) -> bool {
        &&& self.decks.len() <= u32::MAX
        &&& forall|j: int| 0 <= j < self.decks.len() ==> (#[trigger] self.decks[j]).wf()
        &&& forall|j: int|
            0 <= j < self.decks.len() ==> ((#[trigger] self.decks[j]).drawn is Some <==> self.current
                == Some(j as usize))
        &&& self.current matches Some(k) ==> k < self.decks.len()
        &&& forall|h: int| 0 <= h < self.responded.len() ==> #[trigger] self.responded[h] < self.decks.len()
        &&& forall|j: int|
            0 <= j < self.decks.len() ==> (#[trigger] self.decks[j]).history.len() == count_in(
                self.responded,
                j as usize,
            )
    }

    /// The quota of each deck.
    pub open spec fn quotas(&self) -> Seq<Quota> {
        Seq::new(self.decks.len(), |j: int| self.decks[j].quota)
    }
}

/// A review session over the decks of one deadline.
pub struct DeadlineSession {
    decks: Vec<ReviewSessionState>,
    current: Option<usize>,
    responded: Vec<usize>,
}

impl View for DeadlineSession {
    type V = DeadlineView;

    closed spec fn view(&self) -> DeadlineView {
        DeadlineView {
            decks: Seq::new(self.decks@.len(), |j: int| self.decks@[j]@),
            current: self.current,
            responded: self.responded@,
        }
    }
}

impl DeadlineSession {
    /// A session over decks whose own sessions have started and hold no
    /// drawn card and no response yet.
    pub fn new(decks: Vec<ReviewSessionState>) -> (r: Self)
        requires
            decks@.len() <= u32::MAX,
            forall|j: int|
                0 <= j < decks@.len() ==> (#[trigger] decks@[j])@.wf() && decks@[j]@.drawn is None
                    && decks@[j]@.history.len() == 0,
        ensures
            r@.wf(),
            r@.decks == Seq::new(decks@.len(), |j: int| decks@[j]@),
            r@.current is None,
            r@.responded.len() == 0,
    {
        DeadlineSession { decks, current: None, responded: Vec::new() }
    }

    /// The quota of each deck.
    pub fn quotas(&self) -> (q: Vec<Quota>)
        ensures
            q@ == self@.quotas(),
    {
        let mut q: Vec<Quota> = Vec::new();
        let mut j: usize = 0;
        while j < self.decks.len()
            invariant
                j <= self.decks@.len(),
                q@.len() == j,
                forall|i: int| 0 <= i < j ==> q@[i] == self@.decks[i].quota,
            decreases self.decks@.len() - j,
        {
            q.push(self.decks[j].quota());
            j = j + 1;
        }
        assert(q@ =~= self@.quotas());
        q
    }

    /// Draws the next card: the summed quotas decide its kind as for one
    /// deck, then a deck that still asks for that kind is picked at random,
    /// and the card is drawn from it.
    pub fn draw_card(&mut self) -> (d: DeckDraw)
        requires
            old(self)@.wf(),
            old(self)@.current is None,
        ensures
            final(self)@.wf(),
            final(self)@.responded == old(self)@.responded,
            d == DeckDraw::SessionComplete <==> drawing_new(old(self)@.quotas()) is None,
            !(d is Card) ==> final(self)@ == old(self)@,
            d matches DeckDraw::DeckStalled { deck, is_new } ==> deck < old(self)@.decks.len()
                && drawing_new(old(self)@.quotas()) == Some(is_new) && deck_wants(
                old(self)@.decks[deck as int].quota,
                is_new,
            ) && !can_give(old(self)@.decks[deck as int], is_new),
            drawing_new(old(self)@.quotas()) == Some(true) && (forall|j: int|
                0 <= j < old(self)@.decks.len() ==> deck_wants((#[trigger] old(self)@.decks[j]).quota, true)
                    && can_give(old(self)@.decks[j], true)) ==> d is Card,
            drawing_new(old(self)@.quotas()) == Some(false) && (forall|j: int|
                0 <= j < old(self)@.decks.len() ==> deck_wants((#[trigger] old(self)@.decks[j]).quota, false)
                    && can_give(old(self)@.decks[j], false)) ==> d is Card,
            d matches DeckDraw::Card { deck, card, is_new } ==> deck < old(self)@.decks.len()
                && final(self)@.current == Some(deck) && final(self)@.decks == old(
                self,
            )@.decks.update(deck as int, final(self)@.decks[deck as int]),
            d matches DeckDraw::Card { deck, card, is_new } ==> drawing_new(old(self)@.quotas())
                == Some(is_new) && deck_wants(old(self)@.decks[deck as int].quota, is_new),
            d matches DeckDraw::Card { deck, card, is_new } ==> drawn_at_random(
                old(self)@.decks[deck as int],
                final(self)@.decks[deck as int],
                card,
                is_new,
            ),
    {
        let ghost v = self@;
        let quotas = self.quotas();
        let is_new = match is_drawing_new(&quotas) {
            None => {
                return DeckDraw::SessionComplete;
            },
            Some(k) => k,
        };
        proof {
            assert(quotas@ == v.quotas());
            if v.decks.len() == 0 {
                assert(quotas@ =~= Seq::<Quota>::empty());
                assert(drawing_new(quotas@) is None);
            }
            assert forall|j: int| 0 <= j < quotas@.len() implies #[trigger] quotas@[j] == v.decks[j].quota by {}
        }
        let deck = match choose_deck(&quotas, is_new) {
            None => {
                return DeckDraw::Stalled;
            },
            Some(i) => i,
        };
        assert(self@.decks[deck as int] == self.decks@[deck as int]@);
        let r = random_below(u64::MAX);
        let ghost before = self.decks@;
        match self.decks[deck].draw_card_of_kind(is_new, r) {
            Drawn::Card(card) => {
                self.current = Some(deck);
                proof {
                    let w = self@;
                    let od = v.decks[deck as int];
                    let nd = w.decks[deck as int];
                    let pt = if total_review_weight(od) > 0 {
                        (r as int) % total_review_weight(od)
                    } else {
                        0
                    };
                    assert(self.decks@ =~= before.update(deck as int, self.decks@[deck as int]));
                    assert(w.decks =~= v.decks.update(deck as int, w.decks[deck as int]));
                    assert(drawn_from(od, nd, card, is_new, pt));
                    if !is_new {
                        let b = choose|b: int|
                            {
                                &&& 0 <= b < od.num_boxes
                                &&& weight_prefix(od.review_weights(), b) <= pt < weight_prefix(
                                    od.review_weights(),
                                    b + 1,
                                )
                                &&& #[trigger] od.boxes[b].contains_key(card)
                                &&& forall|j: usize| #[trigger]
                                    od.boxes[b].contains_key(j) ==> od.boxes[b][card] <= od.boxes[b][j]
                                &&& nd.boxes == od.boxes.update(b, od.boxes[b].remove(card))
                                &&& nd.fresh == od.fresh
                                &&& nd.drawn == Some(
                                    DrawnCard { card: card, key: od.boxes[b][card], stack_before: StackKind::Review },
                                )
                            };
                        assert(nd.drawn is Some);
                    }
                    assert(nd.drawn is Some);
                    assert(quotas@[deck as int] == od.quota);
                    assert(deck_wants(od.quota, is_new));
                    assert(w.responded == v.responded);
                    assert(w.current == Some(deck));
                    assert(quotas@ == v.quotas());
                    assert(drawing_new(v.quotas()) == Some(is_new));
                    assert forall|j: int| 0 <= j < w.decks.len() implies (#[trigger] w.decks[j]).wf()
                        && (w.decks[j].drawn is Some <==> w.current == Some(j as usize)) by {
                        if j != deck {
                            assert(w.decks[j] == v.decks[j]);
                        }
                    }
                    assert forall|h: int| 0 <= h < w.responded.len() implies #[trigger] w.responded[h]
                        < w.decks.len() by {
                        assert(w.responded[h] == v.responded[h]);
                    }
                    assert(w.wf());
                    assert(drawn_at_random(od, nd, card, is_new));
                }
                DeckDraw::Card { deck, card, is_new }
            },
            _ => {
                proof {
                    assert(self.decks@ =~= before.update(deck as int, self.decks@[deck as int]));
                    assert(self@.decks =~= v.decks);
                    assert(quotas@[deck as int] == v.decks[deck as int].quota);
                }
                DeckDraw::DeckStalled { deck, is_new }
            },
        }
    }

    /// Records the response `score` (-1, 0 or 1) to the drawn card now,
    /// with the answer the user typed.
    pub fn apply_response(&mut self, score: i32, user_answer: String) -> (r: StackKind)
        requires
            old(self)@.wf(),
            old(self)@.current matches Some(k) && quota_has_room(old(self)@.decks[k as int].quota),
            -1 <= score <= 1,
        ensures
            final(self)@.wf(),
            final(self)@.current is None,
            final(self)@.responded == old(self)@.responded.push(old(self)@.current->0),
            exists|now: u64, key: u64|
                final(self)@.decks == old(self)@.decks.update(
                    old(self)@.current->0 as int,
                    apply_view(
                        old(self)@.decks[old(self)@.current->0 as int],
                        score as int,
                        now,
                        key,
                        user_answer@,
                    ),
                ),
            r == stack_after_spec(
                old(self)@.decks[old(self)@.current->0 as int].drawn->0.stack_before,
                score as int,
            ),
    {
        let ghost v = self@;
        let k = match self.current {
            Some(k) => k,
            None => {
                proof {
                    assert(false);
                }
                return StackKind::Done;
            },
        };
        assert(self@.decks[k as int] == self.decks@[k as int]@);
        let ghost before = self.decks@;
        let r = self.decks[k].apply_response(score, user_answer);
        self.current = None;
        self.responded.push(k);
        proof {
            let w = self@;
            assert(self.decks@ =~= before.update(k as int, self.decks@[k as int]));
            assert(w.decks =~= v.decks.update(k as int, w.decks[k as int]));
            assert forall|j: int| 0 <= j < w.decks.len() implies (#[trigger] w.decks[j]).wf()
                && (w.decks[j].drawn is Some <==> w.current == Some(j as usize)) by {
                if j != k {
                    assert(w.decks[j] == v.decks[j]);
                }
            }
            assert forall|h: int| 0 <= h < w.responded.len() implies #[trigger] w.responded[h]
                < w.decks.len() by {
                if h < v.responded.len() {
                    assert(w.responded[h] == v.responded[h]);
                }
            }
            assert forall|j: int| 0 <= j < w.decks.len() implies (#[trigger] w.decks[j]).history.len()
                == count_in(w.responded, j as usize) by {
                lemma_count_push(v.responded, k, j as usize);
                if j != k {
                    assert(w.decks[j] == v.decks[j]);
                } else {
                    assert(w.decks[j].history.len() == v.decks[j].history.len() + 1);
                }
            }
        }
        r
    }

    /// Undoes the last recorded response in whichever deck it was: a card
    /// drawn since goes back, and that response's card is drawn again.
    /// Returns its deck, the response and the answer typed with it, or
    /// `None` where there is none.
    pub fn undo(&mut self) -> (r: Option<(usize, UserResponse, String)>)
        requires
            old(self)@.wf(),
        ensures
            final(self)@.wf(),
            old(self)@.responded.len() == 0 ==> r is None && final(self)@ == old(self)@,
            old(self)@.responded.len() > 0 ==> r is Some,
            r matches Some((deck, h, a)) ==> deck == old(self)@.responded.last() && final(self)@.current
                == Some(deck) && final(self)@.decks[deck as int] == undo_view(
                put_back(old(self)@.decks[deck as int]),
            ) && h == old(self)@.decks[deck as int].history.last() && a@ == old(
                self,
            )@.decks[deck as int].answers.last(),
            r matches Some((deck, h, a)) ==> final(self)@.responded == old(self)@.responded.drop_last()
                && final(self)@.decks.len() == old(self)@.decks.len() && forall|j: int|
                0 <= j < old(self)@.decks.len() && j != deck ==> #[trigger] final(self)@.decks[j]
                    == put_back(old(self)@.decks[j]),
    {
        let ghost v = self@;
        if self.responded.len() == 0 {
            return None;
        }
        match self.current {
            None => {},
            Some(k) => {
                assert(self@.decks[k as int] == self.decks@[k as int]@);
                let ghost before = self.decks@;
                self.decks[k].abandon_draw();
                self.current = None;
                proof {
                    assert(self.decks@ =~= before.update(k as int, self.decks@[k as int]));
                    let w = self@;
                    assert forall|j: int| 0 <= j < w.decks.len() implies (#[trigger] w.decks[j]).wf()
                        && (w.decks[j].drawn is Some <==> w.current == Some(j as usize)) by {
                        if j != k {
                            assert(w.decks[j] == v.decks[j]);
                        }
                    }
                    assert forall|j: int| 0 <= j < w.decks.len() implies (#[trigger] w.decks[j]).history
                        == v.decks[j].history by {
                        if j != k {
                            assert(w.decks[j] == v.decks[j]);
                        }
                    }
                }
            },
        }
        let ghost mid = self@;
        assert(forall|j: int| 0 <= j < mid.decks.len() ==> (#[trigger] mid.decks[j]).history
            == v.decks[j].history);
        assert forall|j: int| 0 <= j < mid.decks.len() implies #[trigger] mid.decks[j] == put_back(
            v.decks[j],
        ) by {
            if v.decks[j].drawn is Some {
                assert(v.current == Some(j as usize));
            }
        }
        let deck = match self.responded.pop() {
            Some(j) => j,
            None => {
                proof {
                    assert(false);
                }
                return None;
            },
        };
        proof {
            assert(deck == v.responded.last());
            assert(v.responded[v.responded.len() - 1] == deck);
            assert(self@.decks[deck as int] == self.decks@[deck as int]@);
            assert(mid.decks[deck as int] == put_back(v.decks[deck as int]));
            assert(v.responded.drop_last() =~= self.responded@);
            assert(v.decks[deck as int].history.len() == count_in(v.responded, deck));
            assert(count_in(v.responded, deck) == count_in(self.responded@, deck) + 1);
            assert(mid.decks[deck as int].history.len() > 0);
        }
        let ghost before = self.decks@;
        match self.decks[deck].undo() {
            None => {
                proof {
                    assert(false);
                }
                None
            },
            Some((h, a)) => {
                self.current = Some(deck);
                proof {
                    assert(self.decks@ =~= before.update(deck as int, self.decks@[deck as int]));
                    let w = self@;
                    assert forall|j: int| 0 <= j < w.decks.len() implies (#[trigger] w.decks[j]).wf()
                        && (w.decks[j].drawn is Some <==> w.current == Some(j as usize)) by {
                        if j != deck {
                            assert(w.decks[j] == mid.decks[j]);
                        }
                    }
                    assert forall|g: int| 0 <= g < w.responded.len() implies #[trigger] w.responded[g]
                        < w.decks.len() by {
                        assert(w.responded[g] == v.responded[g]);
                    }
                    assert(w.responded =~= v.responded.drop_last());
                    assert forall|j: int| 0 <= j < v.decks.len() && j != deck implies #[trigger] w.decks[j]
                        == put_back(v.decks[j]) by {
                        assert(w.decks[j] == mid.decks[j]);
                    }
                    assert forall|j: int| 0 <= j < w.decks.len() implies (#[trigger] w.decks[j]).history.len()
                        == count_in(w.responded, j as usize) by {
                        assert(count_in(v.responded, j as usize) == count_in(w.responded, j as usize)
                            + if j == deck {
                            1nat
                        } else {
                            0nat
                        });
                        if j != deck {
                            assert(w.decks[j] == mid.decks[j]);
                            assert(mid.decks[j].history == v.decks[j].history);
                        } else {
                            assert(mid.decks[j].history == v.decks[j].history);
                        }
                    }
                }
                Some((deck, h, a))
            },
        }
    }

    /// The session of deck `i`.
    pub fn deck(&self, i: usize) -> (d: &ReviewSessionState)
        requires
            i < self@.decks.len(),
        ensures
            d@ == self@.decks[i as int],
    {
        &self.decks[i]
    }
}

} // verus!
