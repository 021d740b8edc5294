//! A deck: cards, their review states, and the queries a session asks of
//! them.
//!
//! The deck text is line oriented, one card per line; the log text holds one
//! status per reviewed card.  Loading rejects a deck whose records do not all
//! have the same number of cue fields.  The due, new and done queries
//! classify the deck's cards and order them for review.

use vstd::prelude::*;

use std::collections::HashMap;
use std::collections::HashSet;

use crate::card::{
    spec_parse_card, spec_parse_status, status_in_range, update_spec, Card, CardParseErr, CardView,
    Status, StatusParseErr, GRADUATION, INIT_TICKS,
};
use crate::clock::CLOCK_BOUND;
use crate::card::{lemma_status_rep_line, status_rep};
use crate::strutil::{
    lemma_find_sep_none, lemma_split_on_len, lemma_split_on_step, lines_spec, split_lines,
    split_on, strip_cr,
};

verus! {

broadcast use vstd::std_specs::hash::group_hash_axioms;

/// Why a deck could not be loaded.
#[derive(Debug, PartialEq, Eq, Structural, Copy, Clone)]
pub enum DeckErr {
    FileNotFound,
    BadStatus { line: usize, err: StatusParseErr },
    BadCard { line: usize, err: CardParseErr },
    InconsistentNumberOfFields { id: usize, line: usize, size: usize, expected_size: usize },
}

/// The views of the cards on a deck's lines, once every line parses.
pub open spec fn parsed_cards_of(lines: Seq<Seq<char>>) -> Seq<CardView> {
    lines.map_values(|l: Seq<char>| spec_parse_card(l)->Ok_0)
}

/// The statuses on a log's lines, once every line parses.
pub open spec fn parsed_statuses_of(lines: Seq<Seq<char>>) -> Seq<Status> {
    lines.map_values(|l: Seq<char>| spec_parse_status(l)->Ok_0)
}

/// The last card of the sequence carrying the given id, if any: a later line
/// with the same id shadows an earlier one.
pub open spec fn last_card_for(cards: Seq<CardView>, id: nat) -> Option<CardView>
    decreases cards.len(),
{
    if cards.len() == 0 {
        None
    } else if cards.last().id == id {
        Some(cards.last())
    } else {
        last_card_for(cards.drop_last(), id)
    }
}

/// The last status of the sequence carrying the given id, if any.
pub open spec fn last_status_for(sts: Seq<Status>, id: usize) -> Option<Status>
    decreases sts.len(),
{
    if sts.len() == 0 {
        None
    } else if sts.last().id == id {
        Some(sts.last())
    } else {
        last_status_for(sts.drop_last(), id)
    }
}

/// The known ids of a deck, in the order their cards first appear, without
/// the header id zero and without repetitions.
pub open spec fn deck_id_seq(cards: Seq<CardView>) -> Seq<usize>
    decreases cards.len(),
{
    if cards.len() == 0 {
        Seq::empty()
    } else {
        let rest = deck_id_seq(cards.drop_last());
        let id = cards.last().id;
        if id == 0 || id > usize::MAX || rest.contains(id as usize) {
            rest
        } else {
            rest.push(id as usize)
        }
    }
}

/// A card id occurs in the sequence exactly when some card carries it.
proof fn lemma_last_card_exists(cards: Seq<CardView>, id: nat)
    ensures
        last_card_for(cards, id).is_some() <==> exists|j: int|
            0 <= j < cards.len() && cards[j].id == id,
    decreases cards.len(),
{
    if cards.len() > 0 {
        lemma_last_card_exists(cards.drop_last(), id);
        if cards.last().id != id {
            if exists|j: int| 0 <= j < cards.len() && cards[j].id == id {
                let j = choose|j: int| 0 <= j < cards.len() && cards[j].id == id;
                assert(j < cards.len() - 1);
                assert(cards.drop_last()[j].id == id);
            }
        }
    }
}

/// The ids a deck keeps are exactly the non-zero ids its cards carry.
proof fn lemma_deck_id_seq_contains(cards: Seq<CardView>, x: usize)
    ensures
        deck_id_seq(cards).contains(x) <==> (x != 0 && exists|j: int|
            0 <= j < cards.len() && cards[j].id == x),
    decreases cards.len(),
{
    if cards.len() > 0 {
        let prefix = cards.drop_last();
        lemma_deck_id_seq_contains(prefix, x);
        let rest = deck_id_seq(prefix);
        let id = cards.last().id;
        if id != 0 && id <= usize::MAX && !rest.contains(id as usize) {
            let cur = rest.push(id as usize);
            assert(cur.drop_last() =~= rest);
            if cur.contains(x) {
                if x == id as usize {
                    assert(cards[cards.len() - 1].id == x);
                } else {
                    let w = choose|w: int| 0 <= w < cur.len() && cur[w] == x;
                    assert(w < rest.len());
                    assert(rest[w] == x);
                }
            }
            if rest.contains(x) {
                let w = choose|w: int| 0 <= w < rest.len() && rest[w] == x;
                assert(cur[w] == x);
            }
            if x == id as usize {
                assert(cur.last() == x);
            }
        }
        if exists|j: int| 0 <= j < cards.len() && cards[j].id == x && x != 0 {
            let j = choose|j: int| 0 <= j < cards.len() && cards[j].id == x;
            if j < cards.len() - 1 {
                assert(prefix[j].id == x);
            }
        }
        if exists|j: int| 0 <= j < prefix.len() && prefix[j].id == x {
            let j = choose|j: int| 0 <= j < prefix.len() && prefix[j].id == x;
            assert(cards[j].id == x);
        }
    }
}

/// What the last status for an id is: a status of the sequence, under that id.
proof fn lemma_last_status_mem(sts: Seq<Status>, id: usize)
    ensures
        match last_status_for(sts, id) {
            Some(v) => v.id == id && exists|j: int| 0 <= j < sts.len() && sts[j] == v,
            None => true,
        },
    decreases sts.len(),
{
    if sts.len() > 0 {
        lemma_last_status_mem(sts.drop_last(), id);
        if sts.last().id != id {
            match last_status_for(sts.drop_last(), id) {
                Some(v) => {
                    let j = choose|j: int| 0 <= j < sts.len() - 1 && sts.drop_last()[j] == v;
                    assert(sts[j] == v);
                },
                None => {},
            }
        } else {
            assert(sts[sts.len() - 1] == sts.last());
        }
    }
}

/// A log line that parses yields a status within the scheduler's ranges.
proof fn lemma_status_ok_in_range(l: Seq<char>)
    ensures
        spec_parse_status(l).is_ok() ==> status_in_range(spec_parse_status(l)->Ok_0),
{
}

/// One deck: its cards keyed by id, the review state keyed by id, the known
/// ids in source order, the optional header card (id zero) with the column
/// labels, the uniform field count, the highest id ever seen, and the
/// session tallies of played and wrong cards.
#[derive(Debug)]
pub struct Deck {
    pub cards: HashMap<usize, Card>,
    pub status: HashMap<usize, Status>,
    pub ids: Vec<usize>,
    pub header: Option<Card>,
    pub fields: usize,
    pub highest_id: usize,
    pub played: HashSet<usize>,
    pub wrong: HashSet<usize>,
}

impl Deck {
    /// Structural soundness: ids are unique, non-zero, and exactly the keys
    /// of the card map; every status sits under its own id and within the
    /// ranges the scheduler's arithmetic needs.
    pub open spec fn wf(&self) -> bool {
        &&& self.ids@.no_duplicates()
        &&& (forall|i: int| 0 <= i < self.ids@.len() ==> self.ids@[i] != 0)
        &&& (forall|id: usize| #[trigger] self.cards@.contains_key(id) <==> self.ids@.contains(id))
        &&& (forall|id: usize| #[trigger]
            self.status@.contains_key(id) ==> self.status@[id].id == id && status_in_range(
                self.status@[id],
            ))
    }

    /// Reads a deck from its text and the text of its log, if the log
    /// exists; a missing log means no card was ever reviewed.  Every line
    /// must parse and all cards must agree on the number of cue fields, or
    /// the first offending line is reported.
    #[verifier::loop_isolation(false)]
    #[verifier::rlimit(60)]
    pub fn parse(deck_text: &str, log_text: Option<&str>) -> (r: Result<Deck, DeckErr>)
        ensures
            ({
                let lines = lines_spec(deck_text@);
                let cards = parsed_cards_of(lines);
                match r {
                    Ok(d) => {
                        &&& (forall|j: int|
                            0 <= j < lines.len() ==> (#[trigger] spec_parse_card(lines[j])).is_ok())
                        &&& (forall|j: int|
                            0 <= j < cards.len() ==> (#[trigger] cards[j].cues).len()
                                == cards[0].cues.len())
                        &&& d.wf()
                        &&& d.ids@ == deck_id_seq(cards)
                        &&& (forall|id: usize| #[trigger]
                            d.cards@.contains_key(id) ==> last_card_for(cards, id as nat) == Some(
                                d.cards@[id]@,
                            ))
                        &&& (match d.header {
                            Some(h) => last_card_for(cards, 0) == Some(h@),
                            None => last_card_for(cards, 0).is_none(),
                        })
                        &&& d.fields == (if lines.len() == 0 {
                            0int
                        } else {
                            cards[0].cues.len() + 1int
                        })
                        &&& (forall|i: int| 0 <= i < d.ids@.len() ==> d.ids@[i] <= d.highest_id)
                        &&& (forall|id: usize| #[trigger]
                            d.status@.contains_key(id) ==> id <= d.highest_id)
                        &&& (d.highest_id == 0 || d.ids@.contains(d.highest_id)
                            || d.status@.contains_key(d.highest_id))
                        &&& d.played@ == Set::<usize>::empty()
                        &&& d.wrong@ == Set::<usize>::empty()
                        &&& (match log_text {
                            Some(t) => {
                                let loglines = lines_spec(t@);
                                let sts = parsed_statuses_of(loglines);
                                &&& (forall|j: int|
                                    0 <= j < loglines.len() ==> (#[trigger] spec_parse_status(
                                        loglines[j],
                                    )).is_ok())
                                &&& (forall|id: usize| #[trigger]
                                    d.status@.contains_key(id) <==> last_status_for(
                                        sts,
                                        id,
                                    ).is_some())
                                &&& (forall|id: usize| #[trigger]
                                    d.status@.contains_key(id) ==> last_status_for(sts, id) == Some(
                                        d.status@[id],
                                    ))
                            },
                            None => d.status@ == Map::<usize, Status>::empty(),
                        })
                    },
                    Err(e) => match e {
                        DeckErr::BadCard { line, err } => {
                            &&& 0 <= line < lines.len()
                            &&& spec_parse_card(lines[line as int]) == Err::<CardView, CardParseErr>(
                                err,
                            )
                            &&& (forall|j: int|
                                0 <= j < line ==> (#[trigger] spec_parse_card(lines[j])).is_ok())
                        },
                        DeckErr::BadStatus { line, err } => {
                            &&& (forall|j: int|
                                0 <= j < lines.len() ==> (#[trigger] spec_parse_card(
                                    lines[j],
                                )).is_ok())
                            &&& log_text.is_some()
                            &&& (match log_text {
                                Some(t) => {
                                    let loglines = lines_spec(t@);
                                    &&& 0 <= line < loglines.len()
                                    &&& spec_parse_status(loglines[line as int]) == Err::<
                                        Status,
                                        StatusParseErr,
                                    >(err)
                                    &&& (forall|j: int|
                                        0 <= j < line ==> (#[trigger] spec_parse_status(
                                            loglines[j],
                                        )).is_ok())
                                },
                                None => false,
                            })
                        },
                        DeckErr::InconsistentNumberOfFields { id, line, size, expected_size } => {
                            &&& (forall|j: int|
                                0 <= j < lines.len() ==> (#[trigger] spec_parse_card(
                                    lines[j],
                                )).is_ok())
                            &&& 1 <= line <= cards.len()
                            &&& cards[line - 1].id == id
                            &&& cards[line - 1].cues.len() == size
                            &&& cards.len() > 0 && cards[0].cues.len() == expected_size
                            &&& size != expected_size
                            &&& (forall|j: int|
                                0 <= j < line - 1 ==> (#[trigger] cards[j].cues).len()
                                    == expected_size)
                        },
                        DeckErr::FileNotFound => false,
                    },
                }
            }),
    {
        let lines = split_lines(deck_text);
        let ghost lns = lines_spec(deck_text@);
        let ghost pcards = parsed_cards_of(lns);

        let mut cards: HashMap<usize, Card> = HashMap::new();
        let mut header: Option<Card> = None;
        let mut meta: Vec<(usize, usize)> = Vec::new();
        let mut i: usize = 0;
        while i < lines.len()
            invariant
                lns == lines_spec(deck_text@),
                pcards == parsed_cards_of(lns),
                lines.deep_view() == lns,
                lines@.len() == lns.len(),
                0 <= i <= lns.len(),
                forall|j: int| 0 <= j < i ==> (#[trigger] spec_parse_card(lns[j])).is_ok(),
                meta@.len() == i,
                forall|j: int|
                    0 <= j < i ==> (#[trigger] meta@[j]).0 == pcards[j].id && meta@[j].1
                        == pcards[j].cues.len(),
                forall|j: int| 0 <= j < i ==> (#[trigger] pcards[j].cues).len() + 2 <= usize::MAX,
                forall|id: usize| #[trigger]
                    cards@.contains_key(id) <==> (id != 0 && last_card_for(
                        pcards.take(i as int),
                        id as nat,
                    ).is_some()),
                forall|id: usize| #[trigger]
                    cards@.contains_key(id) ==> last_card_for(pcards.take(i as int), id as nat)
                        == Some(cards@[id]@),
                match header {
                    Some(h) => last_card_for(pcards.take(i as int), 0) == Some(h@),
                    None => last_card_for(pcards.take(i as int), 0).is_none(),
                },
            decreases lines.len() - i,
        {
            let ghost prefix = pcards.take(i as int);
            proof {
                assert(lns[i as int] == lines.deep_view()[i as int]);
            }
            let c = match Card::from_str(lines[i].as_str()) {
                Ok(c) => c,
                Err(err) => {
                    return Err(DeckErr::BadCard { line: i, err });
                },
            };
            let ghost cv = c@;
            proof {
                assert(pcards[i as int] == cv);
                assert(pcards.take(i + 1).drop_last() =~= prefix);
                assert(pcards.take(i + 1).last() == cv);
                assert(cv.id <= usize::MAX);
            }
            meta.push((c.id, c.cues.len()));
            if c.id == 0 {
                header = Some(c);
            } else {
                let id = c.id;
                cards.insert(id, c);
            }
            i = i + 1;
        }
        proof {
            assert(pcards.take(lns.len() as int) =~= pcards);
        }

        let mut status: HashMap<usize, Status> = HashMap::new();
        let mut log_max: usize = 0;
        match log_text {
            Some(t) => {
                let loglines = split_lines(t);
                let ghost lls = lines_spec(t@);
                let ghost psts = parsed_statuses_of(lls);
                let mut k: usize = 0;
                while k < loglines.len()
                    invariant
                        lls == lines_spec(t@),
                        psts == parsed_statuses_of(lls),
                        loglines.deep_view() == lls,
                        loglines@.len() == lls.len(),
                        0 <= k <= lls.len(),
                        forall|j: int|
                            0 <= j < k ==> (#[trigger] spec_parse_status(lls[j])).is_ok(),
                        forall|id: usize| #[trigger]
                            status@.contains_key(id) <==> last_status_for(
                                psts.take(k as int),
                                id,
                            ).is_some(),
                        forall|id: usize| #[trigger]
                            status@.contains_key(id) ==> last_status_for(psts.take(k as int), id)
                                == Some(status@[id]),
                        forall|id: usize| #[trigger] status@.contains_key(id) ==> id <= log_max,
                        log_max == 0 || status@.contains_key(log_max),
                    decreases loglines.len() - k,
                {
                    let ghost prefix = psts.take(k as int);
                    proof {
                        assert(lls[k as int] == loglines.deep_view()[k as int]);
                    }
                    let st = match Status::from_str(loglines[k].as_str()) {
                        Ok(st) => st,
                        Err(err) => {
                            return Err(DeckErr::BadStatus { line: k, err });
                        },
                    };
                    proof {
                        assert(psts[k as int] == st);
                        assert(psts.take(k + 1).drop_last() =~= prefix);
                        assert(psts.take(k + 1).last() == st);
                    }
                    status.insert(st.id, st);
                    if st.id > log_max {
                        log_max = st.id;
                    }
                    k = k + 1;
                }
                proof {
                    assert(psts.take(lls.len() as int) =~= psts);
                }
            },
            None => {},
        }

        let mut fields: usize = 0;
        if meta.len() > 0 {
            let expected: usize = meta[0].1;
            let mut j: usize = 1;
            while j < meta.len()
                invariant
                    meta@.len() == pcards.len(),
                    forall|q: int|
                        0 <= q < pcards.len() ==> (#[trigger] meta@[q]).0 == pcards[q].id
                            && meta@[q].1 == pcards[q].cues.len(),
                    pcards.len() > 0,
                    expected == pcards[0].cues.len(),
                    1 <= j <= meta@.len(),
                    forall|q: int| 0 <= q < j ==> (#[trigger] pcards[q].cues).len() == expected,
                decreases meta.len() - j,
            {
                if meta[j].1 != expected {
                    return Err(
                        DeckErr::InconsistentNumberOfFields {
                            id: meta[j].0,
                            line: j + 1,
                            size: meta[j].1,
                            expected_size: expected,
                        },
                    );
                }
                j = j + 1;
            }
            fields = expected + 1;
        }

        let mut ids: Vec<usize> = Vec::new();
        let mut highest: usize = 0;
        let mut m: usize = 0;
        while m < meta.len()
            invariant
                meta@.len() == pcards.len(),
                forall|q: int|
                    0 <= q < pcards.len() ==> (#[trigger] meta@[q]).0 == pcards[q].id
                        && meta@[q].1 == pcards[q].cues.len(),
                0 <= m <= meta@.len(),
                ids@ == deck_id_seq(pcards.take(m as int)),
                ids@.no_duplicates(),
                forall|i2: int| 0 <= i2 < ids@.len() ==> ids@[i2] != 0,
                forall|i2: int| 0 <= i2 < ids@.len() ==> #[trigger] ids@[i2] <= highest,
                highest == 0 || ids@.contains(highest),
            decreases meta.len() - m,
        {
            let ghost prefix = pcards.take(m as int);
            proof {
                assert(pcards.take(m + 1).drop_last() =~= prefix);
                assert(pcards.take(m + 1).last() == pcards[m as int]);
            }
            let id = meta[m].0;
            proof {
                assert(pcards[m as int].id == id);
            }
            if id != 0 && !vec_contains(&ids, id) {
                let ghost old_ids = ids@;
                ids.push(id);
                if id > highest {
                    highest = id;
                }
                proof {
                    assert(ids@.drop_last() =~= old_ids);
                    assert(ids@.last() == id);
                    assert forall|x: usize| old_ids.contains(x) implies ids@.contains(x) by {
                        let w = choose|w: int| 0 <= w < old_ids.len() && old_ids[w] == x;
                        assert(ids@[w] == x);
                    }
                    assert(ids@.contains(id));
                    assert forall|a: int, b: int|
                        0 <= a < b < ids@.len() implies ids@[a] != ids@[b] by {
                        if b == ids@.len() - 1 {
                            assert(old_ids[a] == ids@[a]);
                            assert(!old_ids.contains(id));
                        }
                    }
                }
            }
            m = m + 1;
        }
        proof {
            assert(pcards.take(pcards.len() as int) =~= pcards);
        }

        if log_max > highest {
            highest = log_max;
        }

        proof {
            assert forall|id: usize| #[trigger] cards@.contains_key(id) <==> ids@.contains(
                id,
            ) by {
                lemma_deck_id_seq_contains(pcards, id);
                lemma_last_card_exists(pcards, id as nat);
                if cards@.contains_key(id) {
                    assert(id != 0 && last_card_for(pcards, id as nat).is_some());
                    let j = choose|j: int| 0 <= j < pcards.len() && pcards[j].id == id as nat;
                    assert(pcards[j].id == id);
                }
                if ids@.contains(id) {
                    let j = choose|j: int| 0 <= j < pcards.len() && pcards[j].id == id;
                    assert(pcards[j].id == id as nat);
                }
            }
            assert forall|id: usize| #[trigger] status@.contains_key(id) implies status@[id].id
                == id && status_in_range(status@[id]) by {
                match log_text {
                    Some(t) => {
                        let lls2 = lines_spec(t@);
                        let psts2 = parsed_statuses_of(lls2);
                        lemma_last_status_mem(psts2, id);
                        let v = last_status_for(psts2, id)->Some_0;
                        let j = choose|j: int| 0 <= j < psts2.len() && psts2[j] == v;
                        lemma_status_ok_in_range(lls2[j]);
                    },
                    None => {},
                }
            }
        }

        Ok(
            Deck {
                cards,
                status,
                ids,
                header,
                fields,
                highest_id: highest,
                played: HashSet::new(),
                wrong: HashSet::new(),
            },
        )
    }
}

/// Ordering of due cards: earlier due timestamp first, ties broken by id.
pub open spec fn pair_le(a: (i64, usize), b: (i64, usize)) -> bool {
    a.0 < b.0 || (a.0 == b.0 && a.1 <= b.1)
}

/// Sorts schedule pairs ascending, keeping exactly the same pairs.
fn sort_pairs(input: Vec<(i64, usize)>) -> (out: Vec<(i64, usize)>)
    ensures
        out@.to_multiset() == input@.to_multiset(),
        out@.len() == input@.len(),
        forall|i: int, j: int| 0 <= i < j < out@.len() ==> pair_le(out@[i], out@[j]),
{
    broadcast use vstd::seq_lib::group_to_multiset_ensures;

    let mut src = input;
    let mut out: Vec<(i64, usize)> = Vec::new();
    let ghost whole = src@.to_multiset();
    proof {
        assert(out@.to_multiset().add(src@.to_multiset()) =~= whole);
    }
    while src.len() > 0
        invariant
            out@.to_multiset().add(src@.to_multiset()) == whole,
            whole == input@.to_multiset(),
            out@.len() + src@.len() == input@.len(),
            forall|i: int, j: int| 0 <= i < j < out@.len() ==> pair_le(out@[i], out@[j]),
            forall|i: int, j: int|
                0 <= i < out@.len() && 0 <= j < src@.len() ==> pair_le(out@[i], src@[j]),
        decreases src.len(),
    {
        let mut m: usize = 0;
        let mut i: usize = 1;
        while i < src.len()
            invariant
                0 <= m < src@.len(),
                1 <= i <= src@.len(),
                forall|k: int| 0 <= k < i ==> pair_le(src@[m as int], src@[k]),
            decreases src.len() - i,
        {
            let (a0, a1) = src[i];
            let (b0, b1) = src[m];
            if a0 < b0 || (a0 == b0 && a1 < b1) {
                m = i;
            }
            i = i + 1;
        }
        let ghost old_src = src@;
        let ghost old_out = out@;
        let x = src.remove(m);
        out.push(x);
        proof {
            broadcast use vstd::multiset::group_multiset_axioms;

            vstd::seq_lib::to_multiset_remove(old_src, m as int);
            vstd::seq_lib::to_multiset_build(old_out, x);
            vstd::seq_lib::to_multiset_contains(old_src, x);
            assert(src@ == old_src.remove(m as int));
            assert(old_src.remove(m as int).to_multiset() == old_src.to_multiset().remove(x));
            assert(out@ == old_out.push(x));
            assert(old_out.push(x).to_multiset() =~= old_out.to_multiset().insert(x));
            assert(old_src.contains(x));
            assert(old_src.to_multiset().count(x) > 0);
            assert(out@.to_multiset().add(src@.to_multiset()) =~= whole);
            assert(out@.drop_last() =~= old_out);
            assert forall|i2: int, j2: int|
                0 <= i2 < out@.len() && 0 <= j2 < src@.len() implies pair_le(
                out@[i2],
                src@[j2],
            ) by {
                let orig_j = if j2 < m {
                    j2
                } else {
                    j2 + 1
                };
                assert(src@[j2] == old_src[orig_j]);
                if i2 < out@.len() - 1 {
                    assert(pair_le(out@[i2], old_src[orig_j]));
                } else {
                    assert(out@[i2] == x);
                    assert(pair_le(old_src[m as int], old_src[orig_j]));
                }
            }
        }
    }
    out
}

impl Deck {
    /// Whether the card with this id is due for review against the given day
    /// boundary: it has a state, owes repetitions, is not new, and has not
    /// graduated.
    pub open spec fn due_pred(&self, id: usize, tomorrow_start: i64) -> bool {
        &&& self.status@.contains_key(id)
        &&& self.status@[id].is_due_spec(tomorrow_start)
        &&& !self.status@[id].is_new_spec()
        &&& self.status@[id].factor < GRADUATION
    }

    /// Whether the card with this id is new: no state, or a factor of zero.
    pub open spec fn new_pred(&self, id: usize) -> bool {
        !self.status@.contains_key(id) || self.status@[id].is_new_spec()
    }

    /// Whether the card with this id has graduated.
    pub open spec fn done_pred(&self, id: usize) -> bool {
        self.status@.contains_key(id) && self.status@[id].factor >= GRADUATION
    }

    /// The ids of this deck that satisfy the given kind of schedule filter,
    /// paired with their due timestamps, in deck order.
    #[verifier::loop_isolation(false)]
    fn scheduled_pairs(&self, tomorrow_start: i64, kind_done: bool) -> (pairs: Vec<(i64, usize)>)
        requires
            self.wf(),
        ensures
            forall|k: int|
                0 <= k < pairs@.len() ==> {
                    let id = (#[trigger] pairs@[k]).1;
                    &&& self.ids@.contains(id)
                    &&& (if kind_done {
                        self.done_pred(id)
                    } else {
                        self.due_pred(id, tomorrow_start)
                    })
                    &&& self.status@.contains_key(id)
                    &&& pairs@[k].0 == self.status@[id].timestamp
                },
            forall|id: usize|
                self.ids@.contains(id) && (if kind_done {
                    self.done_pred(id)
                } else {
                    self.due_pred(id, tomorrow_start)
                }) ==> exists|k: int| 0 <= k < pairs@.len() && (#[trigger] pairs@[k]).1 == id,
            forall|k: int, l: int|
                0 <= k < l < pairs@.len() ==> (#[trigger] pairs@[k]).1 != (#[trigger] pairs@[l]).1,
    {
        let mut pairs: Vec<(i64, usize)> = Vec::new();
        let mut i: usize = 0;
        while i < self.ids.len()
            invariant
                0 <= i <= self.ids@.len(),
                forall|k: int|
                    0 <= k < pairs@.len() ==> {
                        let id = (#[trigger] pairs@[k]).1;
                        &&& self.ids@.contains(id)
                        &&& (if kind_done {
                            self.done_pred(id)
                        } else {
                            self.due_pred(id, tomorrow_start)
                        })
                        &&& self.status@.contains_key(id)
                        &&& pairs@[k].0 == self.status@[id].timestamp
                    },
                forall|j: int|
                    0 <= j < i ==> ((if kind_done {
                        self.done_pred(#[trigger] self.ids@[j])
                    } else {
                        self.due_pred(self.ids@[j], tomorrow_start)
                    }) ==> exists|k: int|
                        0 <= k < pairs@.len() && (#[trigger] pairs@[k]).1 == self.ids@[j]),
                forall|k: int, l: int|
                    0 <= k < l < pairs@.len() ==> (#[trigger] pairs@[k]).1 != (
                    #[trigger] pairs@[l]).1,
                forall|k: int|
                    0 <= k < pairs@.len() ==> exists|j: int|
                        0 <= j < i && self.ids@[j] == (#[trigger] pairs@[k]).1,
            decreases self.ids@.len() - i,
        {
            let id = self.ids[i];
            let picked: bool = match self.status.get(&id) {
                Some(st) => {
                    if kind_done {
                        st.factor >= GRADUATION
                    } else {
                        st.is_due_at(tomorrow_start) && !st.is_new() && st.factor < GRADUATION
                    }
                },
                None => false,
            };
            if picked {
                let st = *self.status.get(&id).unwrap();
                let ghost old_pairs = pairs@;
                pairs.push((st.timestamp, id));
                proof {
                    assert(pairs@.drop_last() =~= old_pairs);
                    assert forall|k: int, l: int|
                        0 <= k < l < pairs@.len() implies (#[trigger] pairs@[k]).1 != (
                    #[trigger] pairs@[l]).1 by {
                        if l == pairs@.len() - 1 {
                            let w = choose|j: int|
                                0 <= j < i && self.ids@[j] == (#[trigger] old_pairs[k]).1;
                            if pairs@[k].1 == id {
                                assert(self.ids@[w] == self.ids@[i as int]);
                            }
                        }
                    }
                }
            }
            i = i + 1;
            proof {
                assert forall|j: int|
                    0 <= j < i && ((if kind_done {
                        self.done_pred(#[trigger] self.ids@[j])
                    } else {
                        self.due_pred(self.ids@[j], tomorrow_start)
                    })) implies exists|k: int|
                    0 <= k < pairs@.len() && (#[trigger] pairs@[k]).1 == self.ids@[j] by {
                    if j == i - 1 {
                        assert(pairs@[pairs@.len() - 1].1 == self.ids@[j]);
                    }
                }
            }
        }
        pairs
    }

    /// The ids of the pairs, in order.
    fn second_of(pairs: &Vec<(i64, usize)>) -> (out: Vec<usize>)
        ensures
            out@.len() == pairs@.len(),
            forall|k: int| 0 <= k < out@.len() ==> out@[k] == (#[trigger] pairs@[k]).1,
    {
        let mut out: Vec<usize> = Vec::new();
        let mut i: usize = 0;
        while i < pairs.len()
            invariant
                0 <= i <= pairs@.len(),
                out@.len() == i,
                forall|k: int| 0 <= k < i ==> out@[k] == (#[trigger] pairs@[k]).1,
            decreases pairs.len() - i,
        {
            let (_, id) = pairs[i];
            out.push(id);
            i = i + 1;
        }
        out
    }

    /// The cards due for review against the given day boundary: every card
    /// with a state that owes repetitions, is not new, has not graduated,
    /// and whose due date has arrived — ordered by due timestamp, earliest
    /// first, ties by id.  No returned card has a factor at or above the
    /// graduation ceiling.
    pub fn get_due_at(&self, tomorrow_start: i64) -> (r: Vec<usize>)
        requires
            self.wf(),
        ensures
            forall|k: int|
                0 <= k < r@.len() ==> self.ids@.contains(#[trigger] r@[k]) && self.due_pred(
                    r@[k],
                    tomorrow_start,
                ),
            forall|id: usize| #[trigger]
                self.due_pred(id, tomorrow_start) && self.ids@.contains(id) ==> r@.contains(id),
            r@.no_duplicates(),
            forall|k: int, l: int|
                0 <= k < l < r@.len() ==> pair_le(
                    (self.status@[r@[k]].timestamp, r@[k]),
                    (self.status@[r@[l]].timestamp, r@[l]),
                ),
    {
        broadcast use vstd::seq_lib::group_to_multiset_ensures;

        let pairs = self.scheduled_pairs(tomorrow_start, false);
        let sorted = sort_pairs(pairs);
        let ghost ps = pairs@;
        proof {
            assert forall|k: int| 0 <= k < sorted@.len() implies ps.contains(
                #[trigger] sorted@[k],
            ) by {
                assert(sorted@.to_multiset().count(sorted@[k]) > 0);
            }
            assert forall|k: int| 0 <= k < ps.len() implies sorted@.contains(#[trigger] ps[k]) by {
                assert(ps.to_multiset().count(ps[k]) > 0);
            }
        }
        let r = Self::second_of(&sorted);
        proof {
            assert forall|k: int| 0 <= k < r@.len() implies self.ids@.contains(#[trigger] r@[k])
                && self.due_pred(r@[k], tomorrow_start) && sorted@[k].0
                == self.status@[r@[k]].timestamp by {
                assert(ps.contains(sorted@[k]));
                let w = choose|w: int| 0 <= w < ps.len() && ps[w] == sorted@[k];
                assert(ps[w].1 == r@[k]);
            }
            assert forall|id: usize|
                #[trigger] self.due_pred(id, tomorrow_start) && self.ids@.contains(
                    id,
                ) implies r@.contains(id) by {
                let k = choose|k: int| 0 <= k < ps.len() && (#[trigger] ps[k]).1 == id;
                let w = choose|w: int| 0 <= w < sorted@.len() && sorted@[w] == ps[k];
                assert(r@[w] == id);
            }
            assert forall|k: int, l: int| 0 <= k < l < r@.len() implies pair_le(
                (self.status@[r@[k]].timestamp, r@[k]),
                (self.status@[r@[l]].timestamp, r@[l]),
            ) by {
                assert(ps.contains(sorted@[k]));
                assert(ps.contains(sorted@[l]));
                let wk = choose|w: int| 0 <= w < ps.len() && ps[w] == sorted@[k];
                let wl = choose|w: int| 0 <= w < ps.len() && ps[w] == sorted@[l];
                assert(sorted@[k].0 == self.status@[r@[k]].timestamp);
                assert(sorted@[l].0 == self.status@[r@[l]].timestamp);
                assert(pair_le(sorted@[k], sorted@[l]));
            }
            assert(r@.no_duplicates()) by {
                assert forall|a: int, b: int| 0 <= a < b < ps.len() implies ps[a] != ps[b] by {
                    assert(ps[a].1 != ps[b].1);
                }
                ps.lemma_multiset_has_no_duplicates();
                sorted@.lemma_multiset_has_no_duplicates_conv();
                assert forall|a: int, b: int| 0 <= a < b < r@.len() implies r@[a] != r@[b] by {
                    if r@[a] == r@[b] {
                        assert(sorted@[a].0 == self.status@[r@[a]].timestamp);
                        assert(sorted@[b].0 == self.status@[r@[b]].timestamp);
                        assert(sorted@[a] == sorted@[b]);
                    }
                }
            }
        }
        r
    }

    /// Whether `r` consists of exactly this deck's due ids against the day
    /// boundary `t`.
    pub open spec fn due_exact(&self, r: Seq<usize>, t: i64) -> bool {
        &&& (forall|k: int| 0 <= k < r.len() ==> self.due_pred(#[trigger] r[k], t))
        &&& (forall|id: usize| #[trigger]
            self.due_pred(id, t) && self.ids@.contains(id) ==> r.contains(id))
    }

    /// Whether `r` consists of exactly this deck's new ids.
    pub open spec fn new_exact(&self, r: Seq<usize>) -> bool {
        &&& (forall|k: int|
            0 <= k < r.len() ==> self.ids@.contains(#[trigger] r[k]) && self.new_pred(r[k]))
        &&& (forall|id: usize| #[trigger]
            self.new_pred(id) && self.ids@.contains(id) ==> r.contains(id))
    }

    /// The due cards against the wall clock's current day: the same as
    /// `get_due_at` for the day boundary the clock read.
    pub fn get_due(&self) -> (r: Vec<usize>)
        requires
            self.wf(),
        ensures
            forall|k: int| 0 <= k < r@.len() ==> self.ids@.contains(#[trigger] r@[k]),
            forall|k: int|
                0 <= k < r@.len() ==> self.status@.contains_key(#[trigger] r@[k])
                    && !self.status@[r@[k]].is_new_spec() && self.status@[r@[k]].factor
                    < GRADUATION && self.status@[r@[k]].ticks > 0,
            r@.no_duplicates(),
            exists|t: i64|
                #![auto]
                -CLOCK_BOUND <= t <= CLOCK_BOUND && self.due_exact(r@, t),
            forall|k: int, l: int|
                0 <= k < l < r@.len() ==> pair_le(
                    (self.status@[r@[k]].timestamp, r@[k]),
                    (self.status@[r@[l]].timestamp, r@[l]),
                ),
    {
        let t = crate::clock::tomorrow_start_timestamp();
        let r = self.get_due_at(t);
        proof {
            assert(self.due_exact(r@, t));
        }
        r
    }

    /// The graduated cards, ordered by due timestamp, earliest first, ties
    /// by id.
    pub fn get_done(&self) -> (r: Vec<usize>)
        requires
            self.wf(),
        ensures
            forall|k: int|
                0 <= k < r@.len() ==> self.ids@.contains(#[trigger] r@[k]) && self.done_pred(
                    r@[k],
                ),
            forall|id: usize| #[trigger]
                self.done_pred(id) && self.ids@.contains(id) ==> r@.contains(id),
            r@.no_duplicates(),
            forall|k: int, l: int|
                0 <= k < l < r@.len() ==> pair_le(
                    (self.status@[r@[k]].timestamp, r@[k]),
                    (self.status@[r@[l]].timestamp, r@[l]),
                ),
    {
        broadcast use vstd::seq_lib::group_to_multiset_ensures;

        let pairs = self.scheduled_pairs(0, true);
        let sorted = sort_pairs(pairs);
        let ghost ps = pairs@;
        proof {
            assert forall|k: int| 0 <= k < sorted@.len() implies ps.contains(
                #[trigger] sorted@[k],
            ) by {
                assert(sorted@.to_multiset().count(sorted@[k]) > 0);
            }
            assert forall|k: int| 0 <= k < ps.len() implies sorted@.contains(#[trigger] ps[k]) by {
                assert(ps.to_multiset().count(ps[k]) > 0);
            }
        }
        let r = Self::second_of(&sorted);
        proof {
            assert forall|k: int| 0 <= k < r@.len() implies self.ids@.contains(#[trigger] r@[k])
                && self.done_pred(r@[k]) && sorted@[k].0
                == self.status@[r@[k]].timestamp by {
                assert(ps.contains(sorted@[k]));
                let w = choose|w: int| 0 <= w < ps.len() && ps[w] == sorted@[k];
                assert(ps[w].1 == r@[k]);
            }
            assert forall|id: usize|
                #[trigger] self.done_pred(id) && self.ids@.contains(id) implies r@.contains(
                id,
            ) by {
                let k = choose|k: int| 0 <= k < ps.len() && (#[trigger] ps[k]).1 == id;
                let w = choose|w: int| 0 <= w < sorted@.len() && sorted@[w] == ps[k];
                assert(r@[w] == id);
            }
            assert forall|k: int, l: int| 0 <= k < l < r@.len() implies pair_le(
                (self.status@[r@[k]].timestamp, r@[k]),
                (self.status@[r@[l]].timestamp, r@[l]),
            ) by {
                assert(ps.contains(sorted@[k]));
                assert(ps.contains(sorted@[l]));
                let wk = choose|w: int| 0 <= w < ps.len() && ps[w] == sorted@[k];
                let wl = choose|w: int| 0 <= w < ps.len() && ps[w] == sorted@[l];
                assert(sorted@[k].0 == self.status@[r@[k]].timestamp);
                assert(sorted@[l].0 == self.status@[r@[l]].timestamp);
                assert(pair_le(sorted@[k], sorted@[l]));
            }
            assert(r@.no_duplicates()) by {
                assert forall|a: int, b: int| 0 <= a < b < ps.len() implies ps[a] != ps[b] by {
                    assert(ps[a].1 != ps[b].1);
                }
                ps.lemma_multiset_has_no_duplicates();
                sorted@.lemma_multiset_has_no_duplicates_conv();
                assert forall|a: int, b: int| 0 <= a < b < r@.len() implies r@[a] != r@[b] by {
                    if r@[a] == r@[b] {
                        assert(sorted@[a].0 == self.status@[r@[a]].timestamp);
                        assert(sorted@[b].0 == self.status@[r@[b]].timestamp);
                        assert(sorted@[a] == sorted@[b]);
                    }
                }
            }
        }
        r
    }

    /// The new cards: exactly the known ids without a non-new state, sorted
    /// ascending by id.
    #[verifier::loop_isolation(false)]
    pub fn get_new(&self) -> (r: Vec<usize>)
        requires
            self.wf(),
        ensures
            forall|k: int|
                0 <= k < r@.len() ==> self.ids@.contains(#[trigger] r@[k]) && self.new_pred(r@[k]),
            forall|id: usize| #[trigger]
                self.new_pred(id) && self.ids@.contains(id) ==> r@.contains(id),
            forall|k: int, l: int| 0 <= k < l < r@.len() ==> r@[k] < r@[l],
    {
        broadcast use vstd::seq_lib::group_to_multiset_ensures;

        let mut pairs: Vec<(i64, usize)> = Vec::new();
        let mut i: usize = 0;
        while i < self.ids.len()
            invariant
                0 <= i <= self.ids@.len(),
                forall|k: int|
                    0 <= k < pairs@.len() ==> {
                        let id = (#[trigger] pairs@[k]).1;
                        &&& self.ids@.contains(id)
                        &&& self.new_pred(id)
                        &&& pairs@[k].0 == 0i64
                    },
                forall|j: int|
                    0 <= j < i ==> (self.new_pred(#[trigger] self.ids@[j]) ==> exists|k: int|
                        0 <= k < pairs@.len() && (#[trigger] pairs@[k]).1 == self.ids@[j]),
                forall|k: int, l: int|
                    0 <= k < l < pairs@.len() ==> (#[trigger] pairs@[k]).1 != (
                    #[trigger] pairs@[l]).1,
                forall|k: int|
                    0 <= k < pairs@.len() ==> exists|j: int|
                        0 <= j < i && self.ids@[j] == (#[trigger] pairs@[k]).1,
            decreases self.ids@.len() - i,
        {
            let id = self.ids[i];
            let picked: bool = match self.status.get(&id) {
                Some(st) => st.is_new(),
                None => true,
            };
            if picked {
                let ghost old_pairs = pairs@;
                pairs.push((0, id));
                proof {
                    assert(pairs@.drop_last() =~= old_pairs);
                    assert forall|k: int, l: int|
                        0 <= k < l < pairs@.len() implies (#[trigger] pairs@[k]).1 != (
                    #[trigger] pairs@[l]).1 by {
                        if l == pairs@.len() - 1 {
                            let w = choose|j: int|
                                0 <= j < i && self.ids@[j] == (#[trigger] old_pairs[k]).1;
                            if pairs@[k].1 == id {
                                assert(self.ids@[w] == self.ids@[i as int]);
                            }
                        }
                    }
                }
            }
            i = i + 1;
            proof {
                assert forall|j: int|
                    0 <= j < i && self.new_pred(#[trigger] self.ids@[j]) implies exists|k: int|
                    0 <= k < pairs@.len() && (#[trigger] pairs@[k]).1 == self.ids@[j] by {
                    if j == i - 1 {
                        assert(pairs@[pairs@.len() - 1].1 == self.ids@[j]);
                    }
                }
            }
        }
        let sorted = sort_pairs(pairs);
        let ghost ps = pairs@;
        proof {
            assert forall|k: int| 0 <= k < sorted@.len() implies ps.contains(
                #[trigger] sorted@[k],
            ) by {
                assert(sorted@.to_multiset().count(sorted@[k]) > 0);
            }
            assert forall|k: int| 0 <= k < ps.len() implies sorted@.contains(#[trigger] ps[k]) by {
                assert(ps.to_multiset().count(ps[k]) > 0);
            }
        }
        let r = Self::second_of(&sorted);
        proof {
            assert forall|k: int| 0 <= k < r@.len() implies self.ids@.contains(#[trigger] r@[k])
                && self.new_pred(r@[k]) by {
                assert(ps.contains(sorted@[k]));
                let w = choose|w: int| 0 <= w < ps.len() && ps[w] == sorted@[k];
                assert(ps[w].1 == r@[k]);
            }
            assert forall|id: usize|
                #[trigger] self.new_pred(id) && self.ids@.contains(id) implies r@.contains(id) by {
                let k = choose|k: int| 0 <= k < ps.len() && (#[trigger] ps[k]).1 == id;
                let w = choose|w: int| 0 <= w < sorted@.len() && sorted@[w] == ps[k];
                assert(r@[w] == id);
            }
            assert forall|k: int, l: int| 0 <= k < l < r@.len() implies r@[k] < r@[l] by {
                assert(ps.contains(sorted@[k]));
                assert(ps.contains(sorted@[l]));
                assert(pair_le(sorted@[k], sorted@[l]));
                if sorted@[k].1 == sorted@[l].1 {
                    assert(sorted@[k] == sorted@[l]);
                    assert(sorted@.no_duplicates()) by {
                        assert forall|a: int, b: int|
                            0 <= a < b < ps.len() implies ps[a] != ps[b] by {
                            assert(ps[a].1 != ps[b].1);
                        }
                        ps.lemma_multiset_has_no_duplicates();
                        sorted@.lemma_multiset_has_no_duplicates_conv();
                    }
                }
            }
        }
        r
    }

    /// Records one answer for a card: its state (a fresh one for an unseen
    /// card) is updated by the scheduler, and on a completed cycle the card
    /// is tallied as played, and as wrong when the final answer missed.
    /// Must only be called for a card that still owes repetitions.
    pub fn record_answer(&mut self, id: usize, correct: bool, randomize: bool) -> (ticks: usize)
        requires
            old(self).wf(),
            old(self).status@.contains_key(id) ==> old(self).status@[id].ticks >= 1,
        ensures
            final(self).wf(),
            final(self).cards@ == old(self).cards@,
            final(self).ids@ == old(self).ids@,
            final(self).header == old(self).header,
            final(self).fields == old(self).fields,
            final(self).highest_id == old(self).highest_id,
            final(self).status@.contains_key(id),
            ticks == final(self).status@[id].ticks,
            forall|x: usize|
                x != id ==> ((#[trigger] final(self).status@.contains_key(x)
                    <==> old(self).status@.contains_key(x)) && (old(self).status@.contains_key(x)
                    ==> final(self).status@[x] == old(self).status@[x])),
            ticks == 0 ==> final(self).played@ == old(self).played@.insert(id),
            ticks != 0 ==> final(self).played@ == old(self).played@,
            ticks == 0 && !correct ==> final(self).wrong@ == old(self).wrong@.insert(id),
            !(ticks == 0 && !correct) ==> final(self).wrong@ == old(self).wrong@,
            exists|jitter: u64, ds: i64, start: Status|
                #![auto]
                {
                    &&& jitter < 2000
                    &&& (!randomize ==> jitter == 0)
                    &&& -CLOCK_BOUND <= ds <= CLOCK_BOUND
                    &&& (if old(self).status@.contains_key(id) {
                        start == old(self).status@[id]
                    } else {
                        start.id == id && start.factor == 0 && start.ticks == INIT_TICKS
                    })
                    &&& final(self).status@[id] == update_spec(start, correct, jitter, ds)
                },
            !correct && (!old(self).status@.contains_key(id) || old(self).status@[id].factor == 0)
                ==> ticks == INIT_TICKS,
    {
        let current: Status = match self.status.get(&id) {
            Some(st) => *st,
            None => Status::new(id),
        };
        let mut st = current;
        let ticks = st.update(correct, randomize);
        self.status.insert(id, st);
        if ticks == 0 {
            self.played.insert(id);
            if !correct {
                self.wrong.insert(id);
            }
        }
        ticks
    }
}

/// The log text for a deck from id position `i` on: one `id,timestamp,factor`
/// line, newline terminated, for each known id that has a state, in deck
/// order.
pub open spec fn log_rep(ids: Seq<usize>, status: Map<usize, Status>, i: int) -> Seq<char>
    decreases ids.len() - i,
{
    if i < 0 || i >= ids.len() {
        Seq::empty()
    } else {
        let rest = log_rep(ids, status, i + 1);
        if status.contains_key(ids[i]) {
            status_rep(status[ids[i]]) + seq!['\n'] + rest
        } else {
            rest
        }
    }
}

impl Deck {
    /// The whole log text for this deck, as the specification `log_rep` says;
    /// states whose card is no longer known are not written.
    #[verifier::loop_isolation(false)]
    pub fn log_string(&self) -> (r: String)
        requires
            self.wf(),
        ensures
            r@ == log_rep(self.ids@, self.status@, 0),
    {
        let mut out = String::new();
        proof {
            assert(out@ + log_rep(self.ids@, self.status@, 0) =~= log_rep(self.ids@, self.status@, 0));
        }
        let mut i: usize = 0;
        while i < self.ids.len()
            invariant
                0 <= i <= self.ids@.len(),
                out@ + log_rep(self.ids@, self.status@, i as int) == log_rep(
                    self.ids@,
                    self.status@,
                    0,
                ),
            decreases self.ids@.len() - i,
        {
            let id = self.ids[i];
            let ghost before = out@;
            match self.status.get(&id) {
                Some(st) => {
                    let line = st.to_log_line();
                    out.append(line.as_str());
                    out.append("\n");
                    proof {
                        reveal_strlit("\n");
                        assert(out@ + log_rep(self.ids@, self.status@, i + 1) =~= before + log_rep(
                            self.ids@,
                            self.status@,
                            i as int,
                        ));
                    }
                },
                None => {
                    proof {
                        assert(log_rep(self.ids@, self.status@, i as int) == log_rep(
                            self.ids@,
                            self.status@,
                            i + 1,
                        ));
                    }
                },
            }
            i = i + 1;
        }
        proof {
            assert(out@ + log_rep(self.ids@, self.status@, self.ids@.len() as int) =~= out@);
        }
        out
    }
}

/// The written log as single lines, without their terminators.
pub open spec fn log_lines(ids: Seq<usize>, status: Map<usize, Status>, i: int) -> Seq<Seq<char>>
    decreases ids.len() - i,
{
    if i < 0 || i >= ids.len() {
        Seq::empty()
    } else {
        let rest = log_lines(ids, status, i + 1);
        if status.contains_key(ids[i]) {
            seq![status_rep(status[ids[i]])] + rest
        } else {
            rest
        }
    }
}

/// Cutting the written log into lines yields exactly the written lines.
proof fn lemma_log_rep_lines(ids: Seq<usize>, status: Map<usize, Status>, i: int)
    ensures
        lines_spec(log_rep(ids, status, i)) == log_lines(ids, status, i),
    decreases ids.len() - i,
{
    if i < 0 || i >= ids.len() {
        let empty = Seq::<char>::empty();
        lemma_find_sep_none(empty, '\n');
        assert(split_on(empty, '\n') == seq![empty]);
        assert(lines_spec(empty) =~= Seq::<Seq<char>>::empty());
    } else {
        lemma_log_rep_lines(ids, status, i + 1);
        if !status.contains_key(ids[i]) {
            assert(log_rep(ids, status, i) == log_rep(ids, status, i + 1));
            assert(log_lines(ids, status, i) == log_lines(ids, status, i + 1));
        } else {
            let line = status_rep(status[ids[i]]);
            lemma_status_rep_line(status[ids[i]]);
            let rest = log_rep(ids, status, i + 1);
            let whole = log_rep(ids, status, i);
            assert(whole == line + seq!['\n'] + rest);
            let k = line.len() as int;
            assert(whole[k] == '\n');
            assert forall|j: int| 0 <= j < k implies whole[j] != '\n' by {
                assert(whole[j] == line[j]);
            }
            lemma_split_on_step(whole, '\n', k);
            assert(whole.take(k) =~= line);
            assert(whole.skip(k + 1) =~= rest);
            let pr = split_on(rest, '\n');
            lemma_split_on_len(rest, '\n');
            let p = split_on(whole, '\n');
            assert(p == seq![line] + pr);
            assert(p.last() == pr.last());
            let lw = lines_spec(whole);
            let lr = lines_spec(rest);
            if pr.last().len() == 0 {
                assert(p.drop_last() =~= seq![line] + pr.drop_last());
                assert(lw == (seq![line] + pr.drop_last()).map_values(
                    |l: Seq<char>| strip_cr(l),
                ));
                assert(lw =~= seq![line] + lr) by {
                    assert(strip_cr(line) == line);
                    assert forall|j: int| 0 <= j < lw.len() implies lw[j] == (seq![line] + lr)[j] by {
                        if j > 0 {
                            assert(lw[j] == strip_cr(pr.drop_last()[j - 1]));
                        }
                    }
                }
            } else {
                assert(lw == (seq![line] + pr).map_values(|l: Seq<char>| strip_cr(l)));
                assert(lw =~= seq![line] + lr) by {
                    assert(strip_cr(line) == line);
                    assert forall|j: int| 0 <= j < lw.len() implies lw[j] == (seq![line] + lr)[j] by {
                        if j > 0 {
                            assert(lw[j] == strip_cr(pr[j - 1]));
                        }
                    }
                }
            }
            assert(log_lines(ids, status, i) == seq![line] + log_lines(ids, status, i + 1));
        }
    }
}

/// The last status in a sequence opening with `v`: a later occurrence of the
/// id shadows `v`.
proof fn lemma_last_status_cons(v: Status, rest: Seq<Status>, id: usize)
    ensures
        last_status_for(seq![v] + rest, id) == (if last_status_for(rest, id).is_some() {
            last_status_for(rest, id)
        } else if v.id == id {
            Some(v)
        } else {
            None::<Status>
        }),
    decreases rest.len(),
{
    let whole = seq![v] + rest;
    if rest.len() == 0 {
        assert(whole =~= seq![v]);
        assert(whole.len() == 1);
        assert(whole.last() == v);
        assert(whole.drop_last() =~= Seq::<Status>::empty());
        assert(last_status_for(Seq::<Status>::empty(), id).is_none());
        assert(last_status_for(rest, id).is_none());
    } else {
        assert(whole.last() == rest.last());
        assert(whole.drop_last() =~= seq![v] + rest.drop_last());
        lemma_last_status_cons(v, rest.drop_last(), id);
        if rest.last().id == id {
            assert(last_status_for(whole, id) == Some(rest.last()));
            assert(last_status_for(rest, id) == Some(rest.last()));
        } else {
            assert(last_status_for(whole, id) == last_status_for(whole.drop_last(), id));
            assert(last_status_for(rest, id) == last_status_for(rest.drop_last(), id));
        }
    }
}

/// Writing a deck's log and reading the written lines back yields exactly the
/// states of the known ids, each with the same id, timestamp and factor, and
/// the countdown rederived from the factor: one repetition owed for a seen
/// card, the full streak for a new one.
pub proof fn lemma_deck_log_round_trip(d: Deck)
    requires
        d.wf(),
    ensures
        ({
            let lls = lines_spec(log_rep(d.ids@, d.status@, 0));
            let sts = parsed_statuses_of(lls);
            &&& (forall|j: int|
                0 <= j < lls.len() ==> (#[trigger] spec_parse_status(lls[j])).is_ok())
            &&& (forall|id: usize|
                (#[trigger] last_status_for(sts, id)).is_some() <==> (d.ids@.contains(id)
                    && d.status@.contains_key(id)))
            &&& (forall|id: usize|
                d.ids@.contains(id) && d.status@.contains_key(id)
                    ==> #[trigger] last_status_for(sts, id) == Some(
                    Status {
                        id: id,
                        timestamp: d.status@[id].timestamp,
                        factor: d.status@[id].factor,
                        ticks: if d.status@[id].factor != 0 {
                            1
                        } else {
                            INIT_TICKS
                        },
                    },
                ))
        }),
{
    lemma_log_rep_lines(d.ids@, d.status@, 0);
    lemma_log_tail(d.ids@, d.status@, 0);
    assert forall|id: usize|
        (#[trigger] last_status_for(
            parsed_statuses_of(log_lines(d.ids@, d.status@, 0)),
            id,
        )).is_some() <==> (d.ids@.contains(id) && d.status@.contains_key(id)) by {
        if d.ids@.contains(id) {
            let k = choose|k: int| 0 <= k < d.ids@.len() && d.ids@[k] == id;
            assert(exists|k2: int| 0 <= k2 < d.ids@.len() && d.ids@[k2] == id);
        }
    }
}

/// The reparsed tail of the written log holds exactly the states of the ids
/// from position `i` on.
proof fn lemma_log_tail(ids: Seq<usize>, status: Map<usize, Status>, i: int)
    requires
        i >= 0,
        forall|id: usize| #[trigger]
            status.contains_key(id) ==> status[id].id == id && status_in_range(status[id]),
    ensures
        ({
            let lls = log_lines(ids, status, i);
            let sts = parsed_statuses_of(lls);
            &&& (forall|j: int|
                0 <= j < lls.len() ==> (#[trigger] spec_parse_status(lls[j])).is_ok())
            &&& (forall|id: usize|
                #![trigger last_status_for(parsed_statuses_of(log_lines(ids, status, i)), id)]
                {
                    let found = last_status_for(sts, id);
                    if (exists|k: int| i <= k < ids.len() && ids[k] == id) && status.contains_key(
                        id,
                    ) {
                        found == Some(
                            Status {
                                id: id,
                                timestamp: status[id].timestamp,
                                factor: status[id].factor,
                                ticks: if status[id].factor != 0 {
                                    1
                                } else {
                                    INIT_TICKS
                                },
                            },
                        )
                    } else {
                        found.is_none()
                    }
                })
        }),
    decreases ids.len() - i,
{
    if i >= ids.len() {
        assert(log_lines(ids, status, i) == Seq::<Seq<char>>::empty());
        assert(parsed_statuses_of(log_lines(ids, status, i)) =~= Seq::<Status>::empty());
        assert forall|id: usize|
            #![trigger last_status_for(parsed_statuses_of(log_lines(ids, status, i)), id)]
            last_status_for(parsed_statuses_of(log_lines(ids, status, i)), id).is_none() by {
            assert(parsed_statuses_of(log_lines(ids, status, i)).len() == 0);
        }
    } else {
        lemma_log_tail(ids, status, i + 1);
        let lls = log_lines(ids, status, i);
        let rest_lls = log_lines(ids, status, i + 1);
        let sts = parsed_statuses_of(lls);
        let rest_sts = parsed_statuses_of(rest_lls);
        if !status.contains_key(ids[i]) {
            assert(lls == rest_lls);
            assert forall|id: usize|
                #![trigger last_status_for(parsed_statuses_of(log_lines(ids, status, i)), id)]
                {
                    let found = last_status_for(sts, id);
                    if (exists|k: int| i <= k < ids.len() && ids[k] == id) && status.contains_key(
                        id,
                    ) {
                        found == Some(
                            Status {
                                id: id,
                                timestamp: status[id].timestamp,
                                factor: status[id].factor,
                                ticks: if status[id].factor != 0 {
                                    1
                                } else {
                                    INIT_TICKS
                                },
                            },
                        )
                    } else {
                        found.is_none()
                    }
                } by {
                let prev = last_status_for(rest_sts, id);
                assert(sts == rest_sts);
                if (exists|k: int| i <= k < ids.len() && ids[k] == id) && status.contains_key(id) {
                    let k = choose|k: int| i <= k < ids.len() && ids[k] == id;
                    assert(k != i);
                    assert(exists|k2: int| i + 1 <= k2 < ids.len() && ids[k2] == id);
                }
                if (exists|k: int| i + 1 <= k < ids.len() && ids[k] == id) {
                    assert(exists|k2: int| i <= k2 < ids.len() && ids[k2] == id);
                }
            }
        } else {
            let cur = status[ids[i]];
            let line = status_rep(cur);
            crate::card::lemma_status_log_round_trip(cur);
            let reparsed = Status {
                id: cur.id,
                timestamp: cur.timestamp,
                factor: cur.factor,
                ticks: if cur.factor != 0 {
                    1
                } else {
                    INIT_TICKS
                },
            };
            assert(spec_parse_status(line) == Ok::<Status, StatusParseErr>(reparsed));
            assert(lls == seq![line] + rest_lls);
            assert forall|j: int| 0 <= j < lls.len() implies (#[trigger] spec_parse_status(
                lls[j],
            )).is_ok() by {
                if j > 0 {
                    assert(lls[j] == rest_lls[j - 1]);
                    assert(spec_parse_status(rest_lls[j - 1]).is_ok());
                }
            }
            assert(sts =~= seq![reparsed] + rest_sts) by {
                assert forall|j: int| 0 <= j < sts.len() implies sts[j] == (seq![reparsed]
                    + rest_sts)[j] by {
                    if j > 0 {
                        assert(lls[j] == rest_lls[j - 1]);
                        assert(sts[j] == spec_parse_status(rest_lls[j - 1])->Ok_0);
                    }
                }
            }
            assert forall|id: usize|
                #![trigger last_status_for(parsed_statuses_of(log_lines(ids, status, i)), id)]
                {
                let found = last_status_for(sts, id);
                if (exists|k: int| i <= k < ids.len() && ids[k] == id) && status.contains_key(id) {
                    found == Some(
                        Status {
                            id: id,
                            timestamp: status[id].timestamp,
                            factor: status[id].factor,
                            ticks: if status[id].factor != 0 {
                                1
                            } else {
                                INIT_TICKS
                            },
                        },
                    )
                } else {
                    found.is_none()
                }
            } by {
                lemma_last_status_cons(reparsed, rest_sts, id);
                let prev = last_status_for(rest_sts, id);
                assert(last_status_for(sts, id) == (if prev.is_some() {
                    prev
                } else if reparsed.id == id {
                    Some(reparsed)
                } else {
                    None::<Status>
                }));
                if (exists|k: int| i <= k < ids.len() && ids[k] == id) && status.contains_key(id) {
                    if exists|k: int| i + 1 <= k < ids.len() && ids[k] == id {
                    } else {
                        let k = choose|k: int| i <= k < ids.len() && ids[k] == id;
                        assert(k == i);
                        assert(reparsed.id == id);
                    }
                } else {
                    if last_status_for(rest_sts, id).is_some() {
                        assert((exists|k: int| i + 1 <= k < ids.len() && ids[k] == id)
                            && status.contains_key(id));
                        assert(exists|k: int| i <= k < ids.len() && ids[k] == id);
                    }
                    if reparsed.id == id {
                        assert(ids[i] == id);
                        assert(exists|k: int| i <= k < ids.len() && ids[k] == id);
                    }
                }
            }
        }
    }
}

/// Whether the vector holds the id, by a linear scan.
fn vec_contains(v: &Vec<usize>, x: usize) -> (r: bool)
    ensures
        r == v@.contains(x),
{
    let mut i: usize = 0;
    while i < v.len()
        invariant
            0 <= i <= v@.len(),
            forall|j: int| 0 <= j < i ==> v@[j] != x,
        decreases v.len() - i,
    {
        if v[i] == x {
            return true;
        }
        i = i + 1;
    }
    false
}

} // verus!
