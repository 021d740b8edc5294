use mnemo::card::{Card, CardParseErr, Status, StatusParseErr, GRADUATION, INIT_TICKS};

#[test]
fn test_card_fromstr() {
    assert!(Card::from_str("1 | asd").is_ok());
    assert!(Card::from_str("1 | answer | cue 1 | cue 2").is_ok());
    assert!(Card::from_str("") == Err(CardParseErr::EmptyStr));
    assert!(Card::from_str("1") == Err(CardParseErr::NotEnoughFields));
    assert!(Card::from_str("1 | ") == Err(CardParseErr::NotEnoughFields));
    assert!(matches!(Card::from_str("a | a"), Err(CardParseErr::InvalidId)));

    let c = Card::from_str("12 |    answer    |   cue 1   |    cue 2   |  こんにちは世界").unwrap();
    assert_eq!(c.id, 12);
    assert_eq!(c.answer, "answer");
    assert_eq!(c.cues, vec!["cue 1", "cue 2", "こんにちは世界"]);
}

#[test]
fn test_status_fromstr() {
    assert!(Status::from_str("1,100,1.0").is_ok());
    assert!(Status::from_str("1,100") == Err(StatusParseErr::NotEnoughFields));
    assert!(matches!(Status::from_str("a,100,1.0"), Err(StatusParseErr::InvalidId)));
    assert!(matches!(Status::from_str("1,a,1.0"), Err(StatusParseErr::InvalidTimestamp)));
    assert!(matches!(Status::from_str("1,100,a"), Err(StatusParseErr::InvalidFactor)));

    let c = Card::from_str("12 |    answer    |   cue 1   |    cue 2   |  こんにちは世界").unwrap();
    assert_eq!(c.id, 12);
    assert_eq!(c.answer, "answer");
    assert_eq!(c.cues, vec!["cue 1", "cue 2", "こんにちは世界"]);
}

#[test]
fn test_card_to_string() {
    for s in [
        "1 | ans",
        "2 | 日本語 | ελλενικη",
        "123123123 | ans | cue1 | cue2 | cue3 | cue4",
    ] {
        assert_eq!(Ok(s.to_string()), Card::from_str(s).map(|c| c.to_string()))
    }
}

#[test]
fn test_card_update() {
    let mut s = Status::new(1);

    for _ in 0..INIT_TICKS {
        assert_eq!(s.factor, 0);
        s.update(true, false);
    }
    assert_eq!(s.factor, 100);

    // new turn
    s.ticks = 1;
    s.update(true, false);
    assert_eq!(s.factor, 200);

    // new turn
    s.ticks = 1;
    s.update(true, false);
    assert_eq!(s.factor, 400);

    // new turn
    s.ticks = 1;
    s.update(false, false);
    assert_eq!(s.factor, 200);
}

#[test]
fn fresh_card_full_scenario() {
    // A freshly unseen card: no factor, the full streak of repetitions owed.
    let mut s = Status::new(9);
    assert_eq!(s.factor, 0);
    assert_eq!(s.ticks, 2);

    // Two consecutive correct answers complete the first cycle at one day.
    assert_eq!(s.update(true, false), 1);
    assert_eq!(s.factor, 0);
    assert_eq!(s.update(true, false), 0);
    assert_eq!(s.factor, 100);
    assert_eq!(s.ticks, 0);

    // Each further correct cycle doubles the factor; a missed cycle halves it.
    s.ticks = 1;
    assert_eq!(s.update(true, false), 0);
    assert_eq!(s.factor, 200);
    s.ticks = 1;
    assert_eq!(s.update(true, false), 0);
    assert_eq!(s.factor, 400);
    s.ticks = 1;
    assert_eq!(s.update(false, false), 0);
    assert_eq!(s.factor, 200);
}

#[test]
fn wrong_answer_on_new_card_restarts_streak() {
    let mut s = Status::new(3);
    assert_eq!(s.update(true, false), 1);
    // One miss, and the full streak is owed again rather than one less.
    assert_eq!(s.update(false, false), INIT_TICKS);
    assert_eq!(s.factor, 0);
}

#[test]
fn completed_cycle_never_drops_below_one_day() {
    // Halving a one-day factor still leaves one day.
    let mut s = Status {
        id: 1,
        timestamp: 0,
        factor: 100,
        ticks: 1,
    };
    s.update(false, false);
    assert_eq!(s.factor, 100);
}

#[test]
fn randomized_completion_keeps_factor_within_jitter_range() {
    // With jitter the doubled factor is stretched by zero to twenty percent;
    // a draw handed back unchanged would leave it at exactly the double.
    let mut seen_stretched = false;
    for _ in 0..200 {
        let mut s = Status {
            id: 1,
            timestamp: 0,
            factor: 1000,
            ticks: 1,
        };
        s.update(true, true);
        assert!(s.factor >= 2000);
        assert!(s.factor < 2400);
        if s.factor != 2000 {
            seen_stretched = true;
        }
    }
    assert!(seen_stretched);
}

#[test]
fn status_log_line_round_trips() {
    let s = Status {
        id: 7,
        timestamp: 12345,
        factor: 150,
        ticks: 1,
    };
    let line = s.to_log_line();
    assert_eq!(line, "7,12345,1.50");
    let back = Status::from_str(&line).unwrap();
    assert_eq!(back.id, 7);
    assert_eq!(back.timestamp, 12345);
    assert_eq!(back.factor, 150);
    assert_eq!(back.ticks, 1);

    let fresh = Status {
        id: 8,
        timestamp: -5,
        factor: 0,
        ticks: 2,
    };
    let line = fresh.to_log_line();
    assert_eq!(line, "8,-5,0.00");
    let back = Status::from_str(&line).unwrap();
    assert_eq!(back.factor, 0);
    assert_eq!(back.ticks, 2);
}

#[test]
fn due_and_new_and_graduation_checks() {
    let s = Status {
        id: 1,
        timestamp: 1000,
        factor: 0,
        ticks: 2,
    };
    assert!(s.is_new());
    assert!(s.is_due_at(1001));
    assert!(!s.is_due_at(1000));
    let done = Status {
        id: 1,
        timestamp: 1000,
        factor: GRADUATION,
        ticks: 0,
    };
    assert!(!done.is_new());
    assert!(!done.is_due_at(2000));
}

#[test]
fn status_parse_rejects_empty_and_extreme_values() {
    assert!(Status::from_str("") == Err(StatusParseErr::EmptyStr));
    // A factor beyond the stored range is rejected like any unreadable one.
    assert!(matches!(
        Status::from_str("1,100,99999999999.0"),
        Err(StatusParseErr::InvalidFactor)
    ));
    // A timestamp beyond the stored range as well.
    assert!(matches!(
        Status::from_str("1,99999999999999999,1.0"),
        Err(StatusParseErr::InvalidTimestamp)
    ));
    // Whole-day factors need no decimal point.
    let s = Status::from_str("4,0,3").unwrap();
    assert_eq!(s.factor, 300);
    assert_eq!(s.ticks, 1);
}
