//! Cards and their per-card review state.
//!
//! A [`Card`] is immutable content; a [`Status`] is the schedule of one card:
//! when it is next due and how fast its interval grows.  The factor is an
//! interval multiplier in hundredths of a day, so `100` is one
//! day-equivalent and `0` marks a card never completed — a new card.

use vstd::prelude::*;

use crate::clock::{now_timestamp, today_hour_zero_timestamp, tomorrow_start_timestamp, CLOCK_BOUND};
use crate::nums::{
    centi_rep, centi_to_string, dec_rep, i64_to_string, int_rep, is_digit, lemma_dec_rep,
    lemma_parse_centi_rep, lemma_parse_int_int_rep, lemma_parse_uint_dec_rep, parse_centi,
    parse_centi_str, parse_i64_str, parse_int, parse_uint, parse_usize_str, u64_to_string,
};
use crate::rng::rand_below;
use crate::strutil::{
    is_blank, lemma_split_on_step, lemma_split_on_whole, lemma_trim_noop, split_on, split_str,
    trim_spec, trim_str,
};

verus! {

/// Correct repetitions a fresh or reset card needs before its interval is
/// recomputed.
pub const INIT_TICKS: usize = 2;

/// The graduation ceiling: a card whose factor reaches this many hundredths
/// of a day (sixty day-equivalents) is done and leaves active review.
pub const GRADUATION: u64 = 6000;

/// Largest factor the crate stores, in hundredths of a day; interval growth
/// is clamped here so that the arithmetic stays within machine range.
pub const FACTOR_LIMIT: u64 = 100_000_000;

/// Largest distance from the epoch, in seconds, that a stored due timestamp
/// may have; far beyond any clock reading, it only keeps the arithmetic
/// within machine range.
pub const TIMESTAMP_LIMIT: i64 = 4_000_000_000_000_000;

/// Immutable card content: a unique id (zero is reserved for a deck's header
/// record), the answer, and the cue fields shown before it.
#[derive(Debug, PartialEq)]
pub struct Card {
    pub id: usize,
    pub answer: String,
    pub cues: Vec<String>,
}

/// The mathematical content of a card.
pub ghost struct CardView {
    pub id: nat,
    pub answer: Seq<char>,
    pub cues: Seq<Seq<char>>,
}

impl View for Card {
    type V = CardView;

    open spec fn view(&self) -> CardView {
        CardView { id: self.id as nat, answer: self.answer@, cues: self.cues.deep_view() }
    }
}

/// The review state of one card: its id, the due timestamp in seconds since
/// the epoch, the interval factor in hundredths of a day (zero while the
/// card is new), and the correct repetitions still owed in the current cycle.
#[derive(Debug, PartialEq, Eq, Structural, Copy, Clone)]
pub struct Status {
    pub id: usize,
    pub timestamp: i64,
    pub factor: u64,
    pub ticks: usize,
}

/// Why a card line was rejected.
#[derive(Debug, PartialEq, Eq, Structural, Copy, Clone)]
pub enum CardParseErr {
    NotEnoughFields,
    InvalidId,
    EmptyStr,
}

/// Why a log line was rejected.
#[derive(Debug, PartialEq, Eq, Structural, Copy, Clone)]
pub enum StatusParseErr {
    NotEnoughFields,
    InvalidId,
    InvalidTimestamp,
    InvalidFactor,
    EmptyStr,
}

/// Bounds within which a stored status keeps all scheduling arithmetic exact.
pub open spec fn status_in_range(s: Status) -> bool {
    &&& s.factor <= FACTOR_LIMIT
    &&& -TIMESTAMP_LIMIT <= s.timestamp <= TIMESTAMP_LIMIT
}

/// The factor after a completed tick cycle: doubled on a correct final
/// answer, halved otherwise, floored at one day-equivalent, stretched by
/// `jitter` hundredths of a percent, and clamped to the machine limit.
pub open spec fn next_factor(factor: u64, correct: bool, jitter: u64) -> int {
    let grown: int = if correct {
        2 * factor
    } else {
        factor as int / 2
    };
    let floored: int = if grown < 100 {
        100
    } else {
        grown
    };
    let jittered: int = floored * (10000 + jitter) / 10000;
    if jittered > FACTOR_LIMIT {
        FACTOR_LIMIT as int
    } else {
        jittered
    }
}

/// The due timestamp after a completed tick cycle: an overdue card first
/// snaps to the start of the current day, then the new interval of `f`
/// hundredths of a day is added, clamped to the machine limit.
pub open spec fn next_timestamp(ts: i64, day_start: i64, f: int) -> int {
    let base: int = if ts < day_start {
        day_start as int
    } else {
        ts as int
    };
    let moved: int = base + f * 864;
    if moved > TIMESTAMP_LIMIT {
        TIMESTAMP_LIMIT as int
    } else {
        moved
    }
}

/// What one answer does to a status: a wrong answer on a new card restarts
/// its streak; otherwise the countdown falls by one, and on reaching zero
/// the interval is recomputed.
pub open spec fn update_spec(s: Status, correct: bool, jitter: u64, day_start: i64) -> Status {
    if !correct && s.factor == 0 {
        Status { id: s.id, timestamp: s.timestamp, factor: s.factor, ticks: INIT_TICKS }
    } else if s.ticks >= 2 {
        Status { id: s.id, timestamp: s.timestamp, factor: s.factor, ticks: (s.ticks - 1) as usize }
    } else {
        let f = next_factor(s.factor, correct, jitter);
        Status {
            id: s.id,
            timestamp: next_timestamp(s.timestamp, day_start, f) as i64,
            factor: f as u64,
            ticks: 0,
        }
    }
}

impl Status {
    /// Whether the card was never completed through a full tick cycle.
    pub open spec fn is_new_spec(&self) -> bool {
        self.factor == 0
    }

    /// Whether the card still owes repetitions and its due date has arrived,
    /// `tomorrow_start` being the first instant after today.
    pub open spec fn is_due_spec(&self, tomorrow_start: i64) -> bool {
        self.ticks > 0 && self.timestamp < tomorrow_start
    }

    /// The default state of a card reviewed for the first time: due now, no
    /// factor yet, the full streak of repetitions owed.
    pub fn new(id: usize) -> (s: Status)
        ensures
            s.id == id,
            s.factor == 0,
            s.ticks == INIT_TICKS,
            -CLOCK_BOUND <= s.timestamp <= CLOCK_BOUND,
            status_in_range(s),
    {
        Status { id, timestamp: now_timestamp(), factor: 0, ticks: INIT_TICKS }
    }

    pub fn is_new(&self) -> (r: bool)
        ensures
            r == self.is_new_spec(),
    {
        self.factor == 0
    }

    /// Due-ness against a given day boundary.
    pub fn is_due_at(&self, tomorrow_start: i64) -> (r: bool)
        ensures
            r == self.is_due_spec(tomorrow_start),
    {
        self.ticks > 0 && self.timestamp < tomorrow_start
    }

    /// Due-ness against the wall clock: true exactly when the card owes
    /// repetitions and its due date is today or earlier.
    pub fn is_due(&self) -> (r: bool)
        ensures
            exists|t: i64|
                #![auto]
                -CLOCK_BOUND <= t <= CLOCK_BOUND && r == self.is_due_spec(t),
            r ==> self.ticks > 0,
    {
        let t = tomorrow_start_timestamp();
        self.is_due_at(t)
    }

    /// Applies one answer, as the specification `update_spec` says, and
    /// returns the repetitions still owed; zero means the cycle completed
    /// and the interval was recomputed.  Must only be called while
    /// repetitions are owed.
    pub fn update(&mut self, correct: bool, randomize: bool) -> (ticks: usize)
        requires
            old(self).ticks >= 1,
            status_in_range(*old(self)),
        ensures
            ticks == final(self).ticks,
            exists|jitter: u64, ds: i64|
                #![auto]
                jitter < 2000 && (!randomize ==> jitter == 0) && -CLOCK_BOUND <= ds <= CLOCK_BOUND
                    && *final(self) == update_spec(*old(self), correct, jitter, ds),
            final(self).id == old(self).id,
            status_in_range(*final(self)),
            !correct && old(self).factor == 0 ==> *final(self) == (Status {
                ticks: INIT_TICKS,
                ..*old(self)
            }),
            !(!correct && old(self).factor == 0) ==> final(self).ticks == old(self).ticks - 1,
            final(self).ticks > 0 ==> final(self).factor == old(self).factor
                && final(self).timestamp == old(self).timestamp,
            final(self).ticks == 0 ==> final(self).factor >= 100,
            final(self).ticks == 0 && !randomize ==> final(self).factor == next_factor(
                old(self).factor,
                correct,
                0,
            ),
    {
        let ghost s0 = *self;
        if !correct && self.factor == 0 {
            self.ticks = INIT_TICKS;
            proof {
                assert(*self == update_spec(s0, correct, 0u64, 0i64));
            }
            self.ticks
        } else {
            self.ticks = self.ticks - 1;
            if self.ticks == 0 {
                let grown: u64 = if correct {
                    self.factor * 2
                } else {
                    self.factor / 2
                };
                let floored: u64 = if grown < 100 {
                    100
                } else {
                    grown
                };
                let jitter: u64 = if randomize {
                    rand_below(2000)
                } else {
                    0
                };
                proof {
                    assert(floored * (10000 + jitter) <= 200_000_000 * 12000) by (nonlinear_arith)
                        requires
                            0 <= floored <= 200_000_000,
                            0 <= jitter < 2000,
                    ;
                }
                let jittered: u64 = floored * (10000 + jitter) / 10000;
                let f: u64 = if jittered > FACTOR_LIMIT {
                    FACTOR_LIMIT
                } else {
                    jittered
                };
                proof {
                    assert(f == next_factor(s0.factor, correct, jitter));
                    assert(f >= 100) by {
                        assert(floored * (10000 + jitter) >= floored * 10000) by (nonlinear_arith)
                            requires
                                floored >= 0,
                                jitter >= 0,
                        ;
                        assert(floored * 10000 / 10000 == floored) by (nonlinear_arith);
                        assert(floored * (10000 + jitter) / 10000 >= floored * 10000 / 10000)
                            by (nonlinear_arith)
                            requires
                                floored * (10000 + jitter) >= floored * 10000,
                        ;
                    }
                }
                self.factor = f;
                let day_start: i64 = today_hour_zero_timestamp();
                let base: i64 = if self.timestamp < day_start {
                    day_start
                } else {
                    self.timestamp
                };
                let moved: i64 = base + (f as i64) * 864;
                self.timestamp = if moved > TIMESTAMP_LIMIT {
                    TIMESTAMP_LIMIT
                } else {
                    moved
                };
                proof {
                    assert(*self == update_spec(s0, correct, jitter, day_start));
                }
            } else {
                proof {
                    assert(*self == update_spec(s0, correct, 0u64, 0i64));
                }
            }
            self.ticks
        }
    }
}

/// What a card line means: an id, the answer, then the cue fields, separated
/// by pipes, each field trimmed of blanks; the answer may not be empty.
pub open spec fn spec_parse_card(s: Seq<char>) -> Result<CardView, CardParseErr> {
    if s.len() == 0 {
        Err(CardParseErr::EmptyStr)
    } else {
        let parts = split_on(s, '|');
        match parse_uint(trim_spec(parts[0])) {
            None => Err(CardParseErr::InvalidId),
            Some(id) => if id > usize::MAX {
                Err(CardParseErr::InvalidId)
            } else if parts.len() < 2 {
                Err(CardParseErr::NotEnoughFields)
            } else {
                let answer = trim_spec(parts[1]);
                if answer.len() == 0 {
                    Err(CardParseErr::NotEnoughFields)
                } else {
                    Ok(
                        CardView {
                            id: id,
                            answer: answer,
                            cues: parts.skip(2).map_values(|p: Seq<char>| trim_spec(p)),
                        },
                    )
                }
            },
        }
    }
}

/// What a log line means: an id, a timestamp and a factor, separated by
/// commas; the countdown is not stored but derived from the factor, one
/// repetition owed for a seen card, the full streak for a new one.
pub open spec fn spec_parse_status(s: Seq<char>) -> Result<Status, StatusParseErr> {
    if s.len() == 0 {
        Err(StatusParseErr::EmptyStr)
    } else {
        let parts = split_on(s, ',');
        match parse_uint(trim_spec(parts[0])) {
            None => Err(StatusParseErr::InvalidId),
            Some(id) => if id > usize::MAX {
                Err(StatusParseErr::InvalidId)
            } else if parts.len() < 2 {
                Err(StatusParseErr::NotEnoughFields)
            } else {
                match parse_int(trim_spec(parts[1])) {
                    None => Err(StatusParseErr::InvalidTimestamp),
                    Some(ts) => if !(-TIMESTAMP_LIMIT <= ts <= TIMESTAMP_LIMIT) {
                        Err(StatusParseErr::InvalidTimestamp)
                    } else if parts.len() < 3 {
                        Err(StatusParseErr::NotEnoughFields)
                    } else {
                        match parse_centi(trim_spec(parts[2])) {
                            None => Err(StatusParseErr::InvalidFactor),
                            Some(f) => if f > FACTOR_LIMIT {
                                Err(StatusParseErr::InvalidFactor)
                            } else {
                                Ok(
                                    Status {
                                        id: id as usize,
                                        timestamp: ts as i64,
                                        factor: f as u64,
                                        ticks: if f != 0 {
                                            1
                                        } else {
                                            INIT_TICKS
                                        },
                                    },
                                )
                            },
                        }
                    },
                }
            },
        }
    }
}

impl Card {
    /// Reads a card line, as the specification `spec_parse_card` says.
    pub fn from_str(s: &str) -> (r: Result<Card, CardParseErr>)
        ensures
            match r {
                Ok(c) => spec_parse_card(s@) == Ok::<CardView, CardParseErr>(c@) && c@.cues.len()
                    + 2 <= usize::MAX,
                Err(e) => spec_parse_card(s@) == Err::<CardView, CardParseErr>(e),
            },
    {
        if s.unicode_len() == 0 {
            return Err(CardParseErr::EmptyStr);
        }
        let parts = split_str(s, '|');
        let id_field = trim_str(parts[0].as_str());
        let id: usize = match parse_usize_str(id_field.as_str()) {
            Some(v) => v,
            None => {
                return Err(CardParseErr::InvalidId);
            },
        };
        if parts.len() < 2 {
            return Err(CardParseErr::NotEnoughFields);
        }
        let answer = trim_str(parts[1].as_str());
        if answer.as_str().unicode_len() == 0 {
            return Err(CardParseErr::NotEnoughFields);
        }
        let mut cues: Vec<String> = Vec::new();
        let mut i: usize = 2;
        let ghost ps = parts.deep_view();
        while i < parts.len()
            invariant
                2 <= i <= ps.len(),
                ps == parts.deep_view(),
                ps.len() == parts.len(),
                cues.deep_view() =~= ps.subrange(2, i as int).map_values(
                    |p: Seq<char>| trim_spec(p),
                ),
            decreases parts.len() - i,
        {
            let ghost old_cues = cues.deep_view();
            cues.push(trim_str(parts[i].as_str()));
            proof {
                assert(cues.deep_view() =~= old_cues.push(trim_spec(ps[i as int])));
                assert(ps.subrange(2, i + 1).drop_last() =~= ps.subrange(2, i as int));
            }
            i = i + 1;
        }
        let card = Card { id, answer, cues };
        proof {
            assert(ps.subrange(2, ps.len() as int) =~= ps.skip(2));
            assert(card@.cues =~= ps.skip(2).map_values(|p: Seq<char>| trim_spec(p)));
        }
        Ok(card)
    }

    /// Writes the card back as a line, as the specification `card_rep` says.
    pub fn to_string(&self) -> (r: String)
        ensures
            r@ == card_rep(self@),
    {
        let mut out = u64_to_string(self.id as u64);
        out.append(" | ");
        out.append(self.answer.as_str());
        let ghost cs = self@.cues;
        proof {
            reveal_strlit(" | ");
            assert(out@ + fields_rep(cs, 0) =~= card_rep(self@));
        }
        let mut i: usize = 0;
        while i < self.cues.len()
            invariant
                cs == self@.cues,
                cs.len() == self.cues.len(),
                0 <= i <= self.cues.len(),
                out@ + fields_rep(cs, i as int) == card_rep(self@),
            decreases self.cues.len() - i,
        {
            let ghost before = out@;
            out.append(" | ");
            out.append(self.cues[i].as_str());
            proof {
                reveal_strlit(" | ");
                assert(out@ + fields_rep(cs, i + 1) =~= before + fields_rep(cs, i as int));
            }
            i = i + 1;
        }
        proof {
            assert(out@ + fields_rep(cs, cs.len() as int) =~= out@);
        }
        out
    }
}

/// The tail of a card line from cue `i` on: each cue preceded by the field
/// separator.
pub open spec fn fields_rep(cs: Seq<Seq<char>>, i: int) -> Seq<char>
    decreases cs.len() - i,
{
    if i < 0 || i >= cs.len() {
        Seq::empty()
    } else {
        seq![' ', '|', ' '] + cs[i] + fields_rep(cs, i + 1)
    }
}

/// The line a card is written as: its fields joined by the separator.
pub open spec fn card_rep(c: CardView) -> Seq<char> {
    dec_rep(c.id) + seq![' ', '|', ' '] + c.answer + fields_rep(c.cues, 0)
}

/// The line a status is written as: id, timestamp and factor, separated by
/// commas, the factor with two fraction digits.
pub open spec fn status_rep(s: Status) -> Seq<char> {
    dec_rep(s.id as nat) + seq![','] + int_rep(s.timestamp as int) + seq![','] + centi_rep(
        s.factor as nat,
    )
}

impl Status {
    /// Reads a log line, as the specification `spec_parse_status` says.
    pub fn from_str(s: &str) -> (r: Result<Status, StatusParseErr>)
        ensures
            r == spec_parse_status(s@),
    {
        if s.unicode_len() == 0 {
            return Err(StatusParseErr::EmptyStr);
        }
        let parts = split_str(s, ',');
        let id_field = trim_str(parts[0].as_str());
        let id: usize = match parse_usize_str(id_field.as_str()) {
            Some(v) => v,
            None => {
                return Err(StatusParseErr::InvalidId);
            },
        };
        if parts.len() < 2 {
            return Err(StatusParseErr::NotEnoughFields);
        }
        let ts_field = trim_str(parts[1].as_str());
        let timestamp: i64 = match parse_i64_str(ts_field.as_str()) {
            Some(v) => v,
            None => {
                return Err(StatusParseErr::InvalidTimestamp);
            },
        };
        if timestamp < -TIMESTAMP_LIMIT || timestamp > TIMESTAMP_LIMIT {
            return Err(StatusParseErr::InvalidTimestamp);
        }
        if parts.len() < 3 {
            return Err(StatusParseErr::NotEnoughFields);
        }
        let f_field = trim_str(parts[2].as_str());
        let factor: u64 = match parse_centi_str(f_field.as_str()) {
            Some(v) => v,
            None => {
                return Err(StatusParseErr::InvalidFactor);
            },
        };
        if factor > FACTOR_LIMIT {
            return Err(StatusParseErr::InvalidFactor);
        }
        let ticks: usize = if factor != 0 {
            1
        } else {
            INIT_TICKS
        };
        Ok(Status { id, timestamp, factor, ticks })
    }

    /// Writes the status as a log line, as the specification `status_rep`
    /// says.
    pub fn to_log_line(&self) -> (r: String)
        requires
            self.timestamp > i64::MIN,
        ensures
            r@ == status_rep(*self),
    {
        let mut out = u64_to_string(self.id as u64);
        out.append(",");
        let ts = i64_to_string(self.timestamp);
        out.append(ts.as_str());
        out.append(",");
        let f = centi_to_string(self.factor);
        out.append(f.as_str());
        proof {
            reveal_strlit(",");
            assert(out@ =~= status_rep(*self));
        }
        out
    }
}

/// Every character a number notation holds: a digit, a minus sign, or the
/// decimal point.
spec fn numeric_char(c: char) -> bool {
    is_digit(c) || c == '-' || c == '.'
}

proof fn lemma_rep_chars_numeric(s: Status)
    ensures
        forall|i: int|
            0 <= i < dec_rep(s.id as nat).len() ==> #[trigger] numeric_char(
                dec_rep(s.id as nat)[i],
            ),
        forall|i: int|
            0 <= i < int_rep(s.timestamp as int).len() ==> #[trigger] numeric_char(
                int_rep(s.timestamp as int)[i],
            ),
        forall|i: int|
            0 <= i < centi_rep(s.factor as nat).len() ==> #[trigger] numeric_char(
                centi_rep(s.factor as nat)[i],
            ),
{
    lemma_dec_rep(s.id as nat);
    let b = int_rep(s.timestamp as int);
    if s.timestamp < 0 {
        lemma_dec_rep((-(s.timestamp as int)) as nat);
        assert forall|i: int| 0 <= i < b.len() implies #[trigger] numeric_char(b[i]) by {
            if i >= 1 {
                assert(is_digit(dec_rep((-(s.timestamp as int)) as nat)[i - 1]));
            }
        }
    } else {
        lemma_dec_rep(s.timestamp as nat);
    }
    let f = s.factor as nat;
    lemma_dec_rep(f / 100);
    let w = dec_rep(f / 100);
    let c = centi_rep(f);
    assert forall|i: int| 0 <= i < c.len() implies #[trigger] numeric_char(c[i]) by {
        if i < w.len() {
            assert(is_digit(w[i]));
            assert(c[i] == w[i]);
        }
    }
}

/// A written log line is a single line: never empty and free of line breaks.
pub proof fn lemma_status_rep_line(s: Status)
    ensures
        status_rep(s).len() >= 1,
        forall|i: int|
            0 <= i < status_rep(s).len() ==> #[trigger] status_rep(s)[i] != '\n' && status_rep(
                s,
            )[i] != '\r',
{
    lemma_dec_rep(s.id as nat);
    lemma_rep_chars_numeric(s);
    let a = dec_rep(s.id as nat);
    let b = int_rep(s.timestamp as int);
    let c = centi_rep(s.factor as nat);
    let line = status_rep(s);
    assert(b.len() >= 1 && c.len() >= 1) by {
        if s.timestamp < 0 {
            lemma_dec_rep((-(s.timestamp as int)) as nat);
        } else {
            lemma_dec_rep(s.timestamp as nat);
        }
        lemma_dec_rep((s.factor as nat) / 100);
    }
    assert forall|i: int| 0 <= i < line.len() implies #[trigger] line[i] != '\n' && line[i]
        != '\r' by {
        let ka = a.len() as int;
        let kb = b.len() as int;
        if i < ka {
            assert(line[i] == a[i] && numeric_char(a[i]));
        } else if i == ka {
            assert(line[i] == ',');
        } else if i < ka + 1 + kb {
            assert(line[i] == b[i - ka - 1] && numeric_char(b[i - ka - 1]));
        } else if i == ka + 1 + kb {
            assert(line[i] == ',');
        } else {
            assert(line[i] == c[i - ka - kb - 2] && numeric_char(c[i - ka - kb - 2]));
        }
    }
}

/// Writing a status as a log line and reading the line back yields the same
/// id, timestamp and factor; only the countdown is rederived from the factor.
pub proof fn lemma_status_log_round_trip(s: Status)
    requires
        status_in_range(s),
    ensures
        spec_parse_status(status_rep(s)) == Ok::<Status, StatusParseErr>(
            Status {
                id: s.id,
                timestamp: s.timestamp,
                factor: s.factor,
                ticks: if s.factor != 0 {
                    1
                } else {
                    INIT_TICKS
                },
            },
        ),
{
    let a = dec_rep(s.id as nat);
    let b = int_rep(s.timestamp as int);
    let c = centi_rep(s.factor as nat);
    let line = status_rep(s);
    lemma_dec_rep(s.id as nat);
    lemma_rep_chars_numeric(s);
    assert(line.len() > 0);
    let ka = a.len() as int;
    assert(line[ka] == ',');
    assert forall|i: int| 0 <= i < ka implies line[i] != ',' by {
        assert(line[i] == a[i]);
        assert(numeric_char(a[i]));
    }
    lemma_split_on_step(line, ',', ka);
    let rest = line.skip(ka + 1);
    assert(rest =~= b + seq![','] + c);
    let kb = b.len() as int;
    assert(rest[kb] == ',');
    assert forall|i: int| 0 <= i < kb implies rest[i] != ',' by {
        assert(rest[i] == b[i]);
        assert(numeric_char(b[i]));
    }
    lemma_split_on_step(rest, ',', kb);
    let rest2 = rest.skip(kb + 1);
    assert(rest2 =~= c);
    assert forall|i: int| 0 <= i < c.len() implies c[i] != ',' by {
        assert(numeric_char(c[i]));
    }
    lemma_split_on_whole(rest2, ',');
    let parts = split_on(line, ',');
    assert(line.take(ka) =~= a);
    assert(rest.take(kb) =~= b);
    assert(parts =~= seq![a, b, c]);
    assert(!is_blank(a[0]) && !is_blank(a[a.len() - 1])) by {
        assert(numeric_char(a[0]) && numeric_char(a[a.len() - 1]));
    }
    assert(!is_blank(b[0]) && !is_blank(b[b.len() - 1])) by {
        assert(b.len() > 0);
        assert(numeric_char(b[0]) && numeric_char(b[b.len() - 1]));
    }
    assert(!is_blank(c[0]) && !is_blank(c[c.len() - 1])) by {
        assert(c.len() > 0);
        assert(numeric_char(c[0]) && numeric_char(c[c.len() - 1]));
    }
    lemma_trim_noop(a);
    lemma_trim_noop(b);
    lemma_trim_noop(c);
    lemma_parse_uint_dec_rep(s.id as nat);
    lemma_parse_int_int_rep(s.timestamp as int);
    lemma_parse_centi_rep(s.factor as nat);
}

/// The factor a completed cycle computes while the countdown runs is the old
/// one; the completing step doubles or halves it, floored at one
/// day-equivalent, and never ends below that floor.  The exact double-or-halve
/// shape is stated without jitter and away from the clamp, where it would not
/// hold.
pub proof fn lemma_cycle_factor(s: Status, correct: bool, jitter: u64, day_start: i64)
    requires
        s.ticks >= 1,
        s.factor <= FACTOR_LIMIT,
        jitter < 2000,
    ensures
        update_spec(s, correct, jitter, day_start).ticks > 0 ==> update_spec(
            s,
            correct,
            jitter,
            day_start,
        ).factor == s.factor,
        update_spec(s, correct, jitter, day_start).ticks == 0 ==> update_spec(
            s,
            correct,
            jitter,
            day_start,
        ).factor >= 100,
        update_spec(s, correct, jitter, day_start).ticks == 0 && jitter == 0 ==> update_spec(
            s,
            correct,
            jitter,
            day_start,
        ).factor == (if correct {
            if 2 * s.factor < 100 {
                100int
            } else if 2 * s.factor > FACTOR_LIMIT {
                FACTOR_LIMIT as int
            } else {
                2 * s.factor
            }
        } else {
            if s.factor as int / 2 < 100 {
                100int
            } else {
                s.factor as int / 2
            }
        }),
{
    let s1 = update_spec(s, correct, jitter, day_start);
    if s1.ticks == 0 {
        let grown: int = if correct {
            2 * s.factor
        } else {
            s.factor as int / 2
        };
        let floored: int = if grown < 100 {
            100
        } else {
            grown
        };
        assert(floored * (10000 + jitter) >= floored * 10000) by (nonlinear_arith)
            requires
                floored >= 0,
                jitter >= 0,
        ;
        assert(floored * 10000 / 10000 == floored) by (nonlinear_arith);
        assert(floored * (10000 + jitter) / 10000 >= floored * 10000 / 10000) by (nonlinear_arith)
            requires
                floored * (10000 + jitter) >= floored * 10000,
        ;
        assert(next_factor(s.factor, correct, jitter) >= 100);
        if jitter == 0 {
            assert(next_factor(s.factor, correct, 0) == if floored > FACTOR_LIMIT {
                FACTOR_LIMIT as int
            } else {
                floored
            });
            if !correct {
                assert(s.factor as int / 2 <= FACTOR_LIMIT);
            }
        }
    }
}

} // verus!
