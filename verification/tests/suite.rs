use mnemo::deck::Deck;
use mnemo::suite::{Phase, Session, Suite};

fn deck_with_new_cards(ids: &[usize]) -> Deck {
    let mut text = String::new();
    for id in ids {
        text.push_str(&format!("{} | answer {} | cue\n", id, id));
    }
    Deck::parse(&text, None).unwrap()
}

#[test]
fn merge_interleaves_two_decks_round_robin() {
    // Lists [1,2,3] and [4,5]: the shorter deck exhausts first, the rest of
    // the longer one follows.
    let a = deck_with_new_cards(&[1, 2, 3]);
    let b = deck_with_new_cards(&[4, 5]);
    let mut suite = Suite { decks: vec![a, b] };
    let merged = suite.get_new(None, false);
    assert_eq!(merged, vec![(0, 1), (1, 4), (0, 2), (1, 5), (0, 3)]);
}

#[test]
fn single_deck_merge_takes_first_items_in_order() {
    let a = deck_with_new_cards(&[7, 8, 9]);
    let mut suite = Suite { decks: vec![a] };
    assert_eq!(suite.get_new(Some(2), false), vec![(0, 7), (0, 8)]);
    assert_eq!(
        suite.get_new(Some(10), false),
        vec![(0, 7), (0, 8), (0, 9)]
    );
    assert_eq!(suite.get_new(Some(0), false), vec![]);
}

#[test]
fn merge_stops_mid_round_when_cap_is_reached() {
    let a = deck_with_new_cards(&[1, 2]);
    let b = deck_with_new_cards(&[3, 4]);
    let mut suite = Suite { decks: vec![a, b] };
    assert_eq!(suite.get_new(Some(3), false), vec![(0, 1), (1, 3), (0, 2)]);
}

#[test]
fn merge_skips_empty_decks() {
    let a = deck_with_new_cards(&[]);
    let b = deck_with_new_cards(&[4, 5]);
    let mut suite = Suite { decks: vec![a, b] };
    assert_eq!(suite.get_new(None, false), vec![(1, 4), (1, 5)]);
}

#[test]
fn shuffled_merge_keeps_the_same_cards() {
    let a = deck_with_new_cards(&[1, 2, 3, 4, 5, 6, 7, 8]);
    let mut suite = Suite { decks: vec![a] };
    let mut merged = suite.get_new(None, true);
    assert_eq!(merged.len(), 8);
    merged.sort();
    assert_eq!(
        merged,
        vec![
            (0, 1),
            (0, 2),
            (0, 3),
            (0, 4),
            (0, 5),
            (0, 6),
            (0, 7),
            (0, 8)
        ]
    );
}

#[test]
fn get_old_interleaves_due_cards() {
    let deck_a = "1 | a | x\n2 | b | y\n";
    let log_a = "1,100,1.0\n2,200,2.0\n";
    let deck_b = "7 | c | z\n";
    let log_b = "7,50,3.0\n";
    let a = Deck::parse(deck_a, Some(log_a)).unwrap();
    let b = Deck::parse(deck_b, Some(log_b)).unwrap();
    let mut suite = Suite { decks: vec![a, b] };
    let old = suite.get_old(None, false);
    assert_eq!(old, vec![(0, 1), (1, 7), (0, 2)]);
}

#[test]
fn session_reviews_new_cards_until_their_streak_completes() {
    let a = deck_with_new_cards(&[1, 2]);
    let mut suite = Suite { decks: vec![a] };
    let mut session = Session::begin(&mut suite, 10, None, false);
    assert_eq!(session.phase, Phase::ReviewingOld);

    let tomorrow = mnemo::card::Status::new(0).timestamp + 86400;
    let mut answered: Vec<(usize, usize)> = Vec::new();
    loop {
        match session.next_card(&suite, tomorrow) {
            Some((d, id)) => {
                let (dd, aid, _ticks) = session.answer(&mut suite, true, false);
                assert_eq!((dd, aid), (d, id));
                answered.push((d, id));
                assert!(answered.len() <= 8);
            }
            None => break,
        }
    }
    assert_eq!(session.phase, Phase::Finished);
    // Each new card needs two correct answers in one session.
    assert_eq!(answered, vec![(0, 1), (0, 2), (0, 1), (0, 2)]);
    let deck = &suite.decks[0];
    assert_eq!(deck.status[&1].factor, 100);
    assert_eq!(deck.status[&2].factor, 100);
    assert!(deck.played.contains(&1));
    assert!(deck.played.contains(&2));
    assert!(deck.wrong.is_empty());
}

#[test]
fn session_cancel_is_terminal() {
    let a = deck_with_new_cards(&[1]);
    let mut suite = Suite { decks: vec![a] };
    let mut session = Session::begin(&mut suite, 10, None, false);
    let tomorrow = mnemo::card::Status::new(0).timestamp + 86400;
    assert!(session.next_card(&suite, tomorrow).is_some());
    session.cancel();
    assert_eq!(session.next_card(&suite, tomorrow), None);
    assert_eq!(session.phase, Phase::Cancelled);
    // The in-flight card was discarded: nothing was recorded.
    assert!(suite.decks[0].status.is_empty());
}

#[test]
fn session_sweeps_old_cards_before_new_ones() {
    let deck = "1 | a | x\n2 | b | y\n";
    let log = "1,100,1.0\n";
    let d = Deck::parse(deck, Some(log)).unwrap();
    let mut suite = Suite { decks: vec![d] };
    let mut session = Session::begin(&mut suite, 10, None, false);
    let tomorrow = mnemo::card::Status::new(0).timestamp + 86400;

    // The due card 1 comes first; the new card 2 follows with its streak.
    let mut answered: Vec<usize> = Vec::new();
    while let Some((_, id)) = session.next_card(&suite, tomorrow) {
        session.answer(&mut suite, true, false);
        answered.push(id);
        assert!(answered.len() <= 8);
    }
    assert_eq!(answered, vec![1, 2, 2]);
    assert_eq!(suite.decks[0].status[&1].factor, 200);
}
