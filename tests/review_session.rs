use mio0::session::{
    choose_deck, choose_weighted_index, get_deadline_summed_quota, get_new_pos, get_queue_score,
    get_response, is_drawing_new, Card, Drawn, Quota, ReviewSessionState, StackKind, UserInput,
};

fn quota(new_left: i32, review_left: i32, num_progressed: i32) -> Quota {
    Quota { new_left, review_left, num_progressed }
}

fn card(id: u64, box_pos: usize, last_review: u64) -> Card {
    Card { id, box_pos, last_review }
}

#[test]
fn review_response_moves_card_up_one_box() {
    let mut s = ReviewSessionState::new_with_keys(3, vec![card(7, 1, 100)], quota(0, 1, 0), false, &vec![100])
        .unwrap();
    assert_eq!(s.draw_card_with(0), Drawn::Card(0));
    assert_eq!(s.apply_response_at(1, 200, 5, String::new()), StackKind::Done);
    assert_eq!(s.card(0).box_pos, 2);
    assert_eq!(s.card(0).last_review, 200);
    assert_eq!(s.quota(), quota(0, 0, 1));
}

#[test]
fn drawing_with_nothing_left_completes_the_session() {
    let cards = vec![card(1, 0, 0), card(2, 1, 0), card(3, 2, 0)];
    let mut s = ReviewSessionState::new_with_keys(3, cards, quota(0, 0, 4), true, &vec![0, 0, 0]).unwrap();
    for r in [0u64, 1, 99, u64::MAX] {
        assert_eq!(s.draw_card_with(r), Drawn::SessionComplete);
    }
    assert_eq!(s.draw_card(), Drawn::SessionComplete);
    assert_eq!(s.drawn_card(), None);
    let mut t = ReviewSessionState::new(3, vec![card(1, 1, 0)], quota(-2, -1, 0), false).unwrap();
    assert_eq!(t.draw_card(), Drawn::SessionComplete);
}

#[test]
fn undo_restores_quota_and_box() {
    let mut s = ReviewSessionState::new_with_keys(4, vec![card(7, 2, 100), card(8, 1, 50)], quota(0, 3, 5), false, &vec![100, 50])
        .unwrap();
    let i = match s.draw_card_with(0) {
        Drawn::Card(i) => i,
        other => panic!("{:?}", other),
    };
    let before = (s.quota(), s.card(i));
    assert_eq!(s.apply_response_at(-1, 900, 3, "mitochondria".to_string()), StackKind::Review);
    assert_ne!(s.card(i).box_pos, before.1.box_pos);
    let (undone, answer) = s.undo().unwrap();
    assert_eq!(answer, "mitochondria");
    assert_eq!(undone.card, i);
    assert_eq!(undone.score, -1);
    assert_eq!((s.quota(), s.card(i)), before);
    assert_eq!(s.drawn_card().unwrap().card, i);
    assert_eq!(s.undo(), None);
}

#[test]
fn undo_puts_a_later_draw_back() {
    let cards = vec![card(1, 1, 10), card(2, 1, 20)];
    let mut s = ReviewSessionState::new_with_keys(3, cards, quota(0, 2, 0), false, &vec![10, 20]).unwrap();
    assert_eq!(s.draw_card_with(0), Drawn::Card(0));
    s.apply_response_at(0, 500, 0, String::new());
    assert_eq!(s.quota(), quota(0, 2, 0));
    // card 1 (key 20) is now due before card 0 (key 500)
    assert_eq!(s.draw_card_with(0), Drawn::Card(1));
    assert!(s.undo().is_some());
    assert_eq!(s.drawn_card().unwrap().card, 0);
    assert_eq!(s.card(0).last_review, 10);
    assert_eq!(s.apply_response_at(1, 600, 0, String::new()), StackKind::Done);
    assert_eq!(s.draw_card_with(0), Drawn::Card(1));
}

#[test]
fn new_cards_come_from_todays_pick() {
    // box 0 holds keys 50, 10, 30; today introduces the two of least key
    let cards = vec![card(1, 0, 50), card(2, 0, 10), card(3, 0, 30)];
    let mut s = ReviewSessionState::new_with_keys(3, cards, quota(2, 0, 0), false, &vec![50, 10, 30]).unwrap();
    assert_eq!(s.draw_card_with(0), Drawn::Card(1));
    assert_eq!(s.apply_response_at(0, 200, 0, String::new()), StackKind::New);
    assert_eq!(s.quota(), quota(2, 0, 0));
    assert_eq!(s.card(1).box_pos, 0);
    assert_eq!(s.draw_card_with(0), Drawn::Card(2));
    assert_eq!(s.apply_response_at(1, 210, 0, String::new()), StackKind::Done);
    assert_eq!(s.quota(), quota(1, 0, 1));
    assert_eq!(s.card(2).box_pos, 1);
    assert_eq!(s.draw_card_with(0), Drawn::Card(1));
    assert_eq!(s.apply_response_at(-1, 220, 0, String::new()), StackKind::New);
    assert_eq!(s.card(1).box_pos, 0);
    assert_eq!(s.draw_card_with(0), Drawn::Card(1));
    s.apply_response_at(1, 230, 0, String::new());
    assert_eq!(s.quota(), quota(0, 0, 2));
    assert_eq!(s.draw_card_with(0), Drawn::SessionComplete);
    assert_eq!(s.card(0).box_pos, 0);
}

#[test]
fn stalled_when_no_box_can_give_a_review() {
    let mut s = ReviewSessionState::new_with_keys(3, vec![card(1, 2, 0)], quota(0, 1, 0), false, &vec![0]).unwrap();
    assert_eq!(s.draw_card_with(0), Drawn::Stalled);
    // on the deadline day the last box is drawn from too
    let mut t = ReviewSessionState::new_with_keys(3, vec![card(1, 2, 0)], quota(0, 1, 0), true, &vec![0]).unwrap();
    assert_eq!(t.draw_card_with(0), Drawn::Card(0));
    let mut u = ReviewSessionState::new_with_keys(3, vec![card(1, 1, 0)], quota(1, 0, 0), false, &vec![0]).unwrap();
    assert_eq!(u.draw_card_with(0), Drawn::Stalled);
}

#[test]
fn review_box_is_picked_by_weight() {
    // boxes 1, 2 and 3 of 5 hold a card each: weights 1, 2, 3 share out 0..6
    let cards = vec![card(1, 1, 0), card(2, 2, 0), card(3, 3, 0)];
    let keys = vec![0, 0, 0];
    for (r, want) in [(0u64, 0usize), (1, 1), (2, 1), (3, 2), (5, 2), (6, 0), (10, 2)] {
        let mut s = ReviewSessionState::new_with_keys(5, cards.clone(), quota(0, 3, 0), false, &keys).unwrap();
        assert_eq!(s.draw_card_with(r), Drawn::Card(want), "r = {}", r);
    }
}

#[test]
fn box_positions_stay_in_range() {
    let mut s = ReviewSessionState::new_with_keys(3, vec![card(1, 2, 0)], quota(0, 9, 0), true, &vec![0]).unwrap();
    for step in 0..4u64 {
        assert_eq!(s.draw_card_with(0), Drawn::Card(0));
        s.apply_response_at(1, step, 0, String::new());
        assert_eq!(s.card(0).box_pos, 2);
    }
    let mut t = ReviewSessionState::new_with_keys(3, vec![card(1, 0, 0)], quota(5, 0, 0), false, &vec![0]).unwrap();
    for step in 0..3u64 {
        assert_eq!(t.draw_card_with(0), Drawn::Card(0));
        t.apply_response_at(-1, step, 0, String::new());
        assert_eq!(t.card(0).box_pos, 0);
    }
}

#[test]
fn session_rejects_bad_boxes() {
    assert!(ReviewSessionState::new_with_keys(1, vec![], quota(0, 0, 0), false, &vec![]).is_none());
    assert!(ReviewSessionState::new_with_keys(3, vec![card(1, 3, 0)], quota(0, 0, 0), false, &vec![0]).is_none());
    assert!(ReviewSessionState::new(2, vec![card(1, 1, 0)], quota(0, 0, 0), false).is_some());
}

#[test]
fn apply_response_now_records_the_time() {
    let mut s = ReviewSessionState::new(3, vec![card(1, 1, 0)], quota(0, 1, 0), false).unwrap();
    assert_eq!(s.draw_card(), Drawn::Card(0));
    assert_eq!(s.apply_response(1, String::new()), StackKind::Done);
    assert!(s.card(0).last_review > 1_600_000_000);
    assert_eq!(s.num_cards(), 1);
}

#[test]
fn new_positions_are_clamped() {
    assert_eq!(get_new_pos(1, 1, 3), 2);
    assert_eq!(get_new_pos(1, 2, 3), 2);
    assert_eq!(get_new_pos(-1, 0, 3), 0);
    assert_eq!(get_new_pos(-1, 2, 3), 1);
    assert_eq!(get_new_pos(0, 1, 3), 1);
}

#[test]
fn drawing_new_follows_the_cadence() {
    assert_eq!(is_drawing_new(&vec![quota(0, 0, 3)]), None);
    assert_eq!(is_drawing_new(&vec![quota(3, 4, 0)]), Some(true));
    assert_eq!(is_drawing_new(&vec![quota(3, 4, 5)]), Some(false));
    assert_eq!(is_drawing_new(&vec![quota(3, 4, 15)]), Some(true));
    assert_eq!(is_drawing_new(&vec![quota(0, 4, 0)]), Some(false));
    assert_eq!(is_drawing_new(&vec![quota(2, 0, 7)]), Some(true));
    assert_eq!(is_drawing_new(&vec![quota(1, 2, 2), quota(0, 0, 4)]), Some(false));
    // -3 lies at 12 of the cadence
    assert_eq!(is_drawing_new(&vec![quota(1, 1, -3)]), Some(false));
    assert_eq!(is_drawing_new(&vec![quota(1, 1, -15)]), Some(true));
    assert_eq!(is_drawing_new(&vec![]), None);
}

#[test]
fn choose_deck_picks_a_deck_that_wants_the_kind() {
    let qs = vec![quota(0, 3, 0), quota(2, 0, 0), quota(0, 0, 0)];
    for _ in 0..20 {
        assert_eq!(choose_deck(&qs, true), Some(1));
        assert_eq!(choose_deck(&qs, false), Some(0));
    }
    assert_eq!(choose_deck(&vec![quota(0, 0, 0)], true), None);
    assert_eq!(choose_deck(&vec![], false), None);
}

#[test]
fn weighted_index_slices() {
    let w = vec![0u64, 1, 2, 0, 3];
    let got: Vec<usize> = (0..6).map(|r| choose_weighted_index(&w, r)).collect();
    assert_eq!(got, vec![1, 2, 2, 4, 4, 4]);
}

#[test]
fn queue_score_adds_jitter() {
    assert_eq!(get_queue_score(1000, 17), 1017);
    assert_eq!(get_queue_score(u64::MAX - 3, 10), u64::MAX);
}

#[test]
fn summed_quota_adds_decks() {
    let q = get_deadline_summed_quota(&vec![quota(1, 2, 3), quota(4, 5, 6), quota(0, -1, 0)]);
    assert_eq!(q, quota(5, 6, 9));
    assert_eq!(get_deadline_summed_quota(&vec![]), quota(0, 0, 0));
}

#[test]
fn responses_are_read_from_lines() {
    let r = |s: &str, front: bool| get_response(&s.to_string(), front);
    assert_eq!(r("\n", true), UserInput::Flip);
    assert_eq!(r("\n", false), UserInput::Invalid);
    assert_eq!(r("q\n", false), UserInput::Quit);
    assert_eq!(r("1\n", false), UserInput::Score(-1));
    assert_eq!(r("2\n", true), UserInput::Score(0));
    assert_eq!(r("3\n", false), UserInput::Score(1));
    assert_eq!(r("4\n", false), UserInput::Invalid);
    assert_eq!(r("3", false), UserInput::Invalid);
}

use mio0::session::{DeadlineSession, DeckDraw};

#[test]
fn deadline_session_draws_across_decks() {
    let a = ReviewSessionState::new_with_keys(3, vec![card(1, 0, 0)], quota(1, 0, 0), false, &vec![0]).unwrap();
    let b = ReviewSessionState::new_with_keys(3, vec![card(2, 1, 0)], quota(0, 1, 0), false, &vec![0]).unwrap();
    let mut s = DeadlineSession::new(vec![a, b]);
    assert_eq!(s.draw_card(), DeckDraw::Card { deck: 0, card: 0, is_new: true });
    assert_eq!(s.apply_response(1, String::new()), StackKind::Done);
    assert_eq!(s.draw_card(), DeckDraw::Card { deck: 1, card: 0, is_new: false });
    assert_eq!(s.apply_response(1, String::new()), StackKind::Done);
    assert_eq!(s.quotas(), vec![quota(0, 0, 1), quota(0, 0, 1)]);
    assert_eq!(s.draw_card(), DeckDraw::SessionComplete);
    let (deck, r, _) = s.undo().unwrap();
    assert_eq!((deck, r.card, r.score), (1, 0, 1));
    assert_eq!(s.deck(1).quota(), quota(0, 1, 0));
    assert_eq!(s.deck(1).card(0).box_pos, 1);
    assert_eq!(s.deck(1).drawn_card().unwrap().card, 0);
    let (deck, _, _) = s.undo().unwrap();
    assert_eq!(deck, 0);
    assert_eq!(s.deck(1).drawn_card(), None);
    assert_eq!(s.deck(0).quota(), quota(1, 0, 0));
    assert_eq!(s.deck(0).card(0).box_pos, 0);
    assert_eq!(s.undo(), None);
}

use mio0::session::accept_deck;

#[test]
fn accept_deck_checks_index_and_kind() {
    let qs = vec![quota(0, 3, 0), quota(2, 0, 0)];
    assert_eq!(accept_deck(&qs, 0, false), Some(0));
    assert_eq!(accept_deck(&qs, 0, true), None);
    assert_eq!(accept_deck(&qs, 1, true), Some(1));
    assert_eq!(accept_deck(&qs, 2, true), None);
    // every deck wants reviews: the first draw is taken
    let all = vec![quota(0, 1, 0), quota(0, 2, 0), quota(0, 5, 0)];
    for _ in 0..20 {
        assert!(choose_deck(&all, false).is_some());
    }
}

#[test]
fn deadline_session_reports_a_deck_that_cannot_give() {
    // the deck wants a review, but its only card sits in the last box
    let a = ReviewSessionState::new_with_keys(3, vec![card(1, 2, 0)], quota(0, 1, 0), false, &vec![0]).unwrap();
    let mut s = DeadlineSession::new(vec![a]);
    assert_eq!(s.draw_card(), DeckDraw::DeckStalled { deck: 0, is_new: false });
    assert_eq!(s.deck(0).drawn_card(), None);
}
