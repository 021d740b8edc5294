use mnemo::card::{CardParseErr, StatusParseErr};
use mnemo::deck::{Deck, DeckErr};

const DECK_TEXT: &str = "0 | Capital | Country | First letter | Founded\n\
1 | Stockholm | Sweden | S | 1252\n\
2 | Oslo | Norway | O |\n\
3 | Washington DC | USA | W | 1790\n\
4 | Antananarivo | Madagascar | A | 1625\n\
10 | Mogadishu | Somalia | M | 900\n";

const LOG_TEXT: &str = "1,100000000,1.0\n2,200000000,2.0\n3,300000000,3.0\n";

#[test]
fn test_parse_good() {
    let d = Deck::parse(DECK_TEXT, Some(LOG_TEXT)).unwrap();
    assert!(d.header.is_some());
    assert_eq!(d.cards.len(), 5);

    // cards
    assert_eq!(d.cards[&1].answer, "Stockholm");
    assert_eq!(d.cards[&2].cues, vec!["Norway", "O", ""]);

    // status
    assert_eq!(d.status[&1].factor, 100);
    assert_eq!(d.status[&2].factor, 200);
    assert_eq!(d.status[&3].factor, 300);
    assert_eq!(d.status[&1].timestamp, 100000000);
    assert_eq!(d.status[&2].timestamp, 200000000);
    assert_eq!(d.status[&3].timestamp, 300000000);

    // header
    assert_eq!(d.header.as_ref().unwrap().answer, "Capital");
    assert_eq!(
        d.header.as_ref().unwrap().cues,
        vec!["Country", "First letter", "Founded"]
    );
}

#[test]
fn test_parse_inconsistent_number_of_fields() {
    let bad = "0 | Capital | Country | First letter | Founded\n\
1 | Stockholm | Sweden | S | 1252\n\
2 | Oslo | Norway | O |\n\
3 | Washington DC | USA\n";
    let d = Deck::parse(bad, None).unwrap_err();
    assert_eq!(
        d,
        DeckErr::InconsistentNumberOfFields {
            id: 3,
            line: 4,
            size: 1,
            expected_size: 3
        }
    );
}

#[test]
fn test_get_due() {
    let d = Deck::parse(DECK_TEXT, Some(LOG_TEXT)).unwrap();
    let old = d.get_due();
    assert_eq!(old.len(), 3);
    assert_eq!(d.cards[&old[0]].answer, "Stockholm");
    assert_eq!(d.cards[&old[1]].answer, "Oslo");
    assert_eq!(d.cards[&old[2]].answer, "Washington DC");
}

#[test]
fn test_get_new() {
    let d = Deck::parse(DECK_TEXT, Some(LOG_TEXT)).unwrap();
    let new = d.get_new();
    assert_eq!(new.len(), 2);
    assert_eq!(d.cards[&new[0]].answer, "Antananarivo");
    assert_eq!(d.cards[&new[1]].answer, "Mogadishu");
}

#[test]
fn parse_reports_first_bad_card_line() {
    let bad = "1 | one | a\nnonsense\n2 | two | b\n";
    let e = Deck::parse(bad, None).unwrap_err();
    assert_eq!(
        e,
        DeckErr::BadCard {
            line: 1,
            err: CardParseErr::InvalidId
        }
    );
    let short = "1 | one | a\n2\n";
    let e = Deck::parse(short, None).unwrap_err();
    assert_eq!(
        e,
        DeckErr::BadCard {
            line: 1,
            err: CardParseErr::NotEnoughFields
        }
    );
}

#[test]
fn parse_reports_first_bad_log_line() {
    let deck = "1 | one | a\n";
    let e = Deck::parse(deck, Some("1,100,1.0\n2,x,1.0\n")).unwrap_err();
    assert_eq!(
        e,
        DeckErr::BadStatus {
            line: 1,
            err: StatusParseErr::InvalidTimestamp
        }
    );
}

#[test]
fn missing_log_means_all_cards_new() {
    let d = Deck::parse(DECK_TEXT, None).unwrap();
    assert!(d.status.is_empty());
    let new = d.get_new();
    assert_eq!(new, vec![1, 2, 3, 4, 10]);
    assert!(d.get_due().is_empty());
}

#[test]
fn due_never_returns_graduated_cards() {
    // Card 2 sits at the graduation ceiling, card 1 just below it.
    let log = "1,100,59.99\n2,100,60.0\n";
    let d = Deck::parse(DECK_TEXT, Some(log)).unwrap();
    let due = d.get_due();
    assert_eq!(due, vec![1]);
    assert_eq!(d.get_done(), vec![2]);
}

#[test]
fn due_is_ordered_by_due_timestamp() {
    let log = "1,300,1.0\n2,100,1.0\n3,200,1.0\n";
    let d = Deck::parse(DECK_TEXT, Some(log)).unwrap();
    assert_eq!(d.get_due(), vec![2, 3, 1]);
}

#[test]
fn new_is_complement_of_non_new_statuses_sorted_by_id() {
    // Card 3 has a real interval, card 10 was seen but never completed.
    let log = "3,100,2.0\n10,100,0.0\n";
    let d = Deck::parse(DECK_TEXT, Some(log)).unwrap();
    assert_eq!(d.get_new(), vec![1, 2, 4, 10]);
}

#[test]
fn log_round_trips_through_parse() {
    let d = Deck::parse(DECK_TEXT, Some(LOG_TEXT)).unwrap();
    let written = d.log_string();
    let d2 = Deck::parse(DECK_TEXT, Some(&written)).unwrap();
    assert_eq!(d2.status.len(), d.status.len());
    for (id, st) in d.status.iter() {
        let st2 = d2.status[id];
        assert_eq!(st2.id, st.id);
        assert_eq!(st2.timestamp, st.timestamp);
        assert_eq!(st2.factor, st.factor);
    }
}

#[test]
fn record_answer_tallies_completed_cycles() {
    let mut d = Deck::parse(DECK_TEXT, Some(LOG_TEXT)).unwrap();
    // Card 1 owes one repetition; a wrong final answer completes the cycle.
    let ticks = d.record_answer(1, false, false);
    assert_eq!(ticks, 0);
    assert_eq!(d.status[&1].factor, 100);
    assert!(d.played.contains(&1));
    assert!(d.wrong.contains(&1));

    // A new card needs its full streak before anything is tallied.
    let ticks = d.record_answer(4, true, false);
    assert_eq!(ticks, 1);
    assert!(!d.played.contains(&4));
    let ticks = d.record_answer(4, true, false);
    assert_eq!(ticks, 0);
    assert!(d.played.contains(&4));
    assert!(!d.wrong.contains(&4));
    assert_eq!(d.status[&4].factor, 100);
}

#[test]
fn parse_keeps_first_occurrence_order_of_ids() {
    let deck = "5 | five | a\n2 | two | b\n9 | nine | c\n";
    let d = Deck::parse(deck, None).unwrap();
    assert_eq!(d.ids, vec![5, 2, 9]);
    assert_eq!(d.highest_id, 9);
    assert_eq!(d.fields, 2);
}
