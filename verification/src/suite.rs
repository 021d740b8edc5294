//! A suite of decks and the review session across them.
//!
//! The due and new card lists of every deck are merged round-robin into one
//! queue, so that no single large deck monopolizes the front of a session.
//! The session itself is a small state machine: it sweeps the queue, hands
//! out each card that is still due, takes the answer back, and moves from the
//! due cards to the new ones and on to the end of the session.

use vstd::prelude::*;

use crate::card::{update_spec, Status, GRADUATION, INIT_TICKS};
use crate::clock::CLOCK_BOUND;
use crate::deck::{pair_le, Deck};
use crate::rng::shuffle_ids;

verus! {

broadcast use vstd::std_specs::hash::group_hash_axioms;

/// The longest of the given lists.
pub open spec fn max_len(lists: Seq<Seq<usize>>) -> nat
    decreases lists.len(),
{
    if lists.len() == 0 {
        0
    } else {
        let m = max_len(lists.drop_last());
        if lists.last().len() > m {
            lists.last().len()
        } else {
            m
        }
    }
}

/// Whether another card may still be taken under the cap.
pub open spec fn within_cap(taken: nat, cap: Option<usize>) -> bool {
    match cap {
        Some(m) => taken < m,
        None => true,
    }
}

/// The round-robin merge from round `round`, deck `deck` on, with `taken`
/// cards already taken: one not-yet-exhausted deck at a time in deck order,
/// appending its next card, until every list is exhausted or the cap is
/// reached — also mid-round.
pub open spec fn rr_from(
    lists: Seq<Seq<usize>>,
    round: nat,
    deck: nat,
    taken: nat,
    cap: Option<usize>,
) -> Seq<(usize, usize)>
    decreases max_len(lists) - round, lists.len() - deck,
{
    if round >= max_len(lists) || !within_cap(taken, cap) {
        Seq::empty()
    } else if deck >= lists.len() {
        rr_from(lists, round + 1, 0, taken, cap)
    } else if round < lists[deck as int].len() {
        seq![((deck as usize), lists[deck as int][round as int])] + rr_from(
            lists,
            round,
            deck + 1,
            taken + 1,
            cap,
        )
    } else {
        rr_from(lists, round, deck + 1, taken, cap)
    }
}

/// The whole round-robin merge of the per-deck lists under the cap.
pub open spec fn rr_merge(lists: Seq<Seq<usize>>, cap: Option<usize>) -> Seq<(usize, usize)> {
    rr_from(lists, 0, 0, 0, cap)
}

/// Every merged entry names a deck in range and a card of that deck's list.
proof fn lemma_rr_from_items(
    lists: Seq<Seq<usize>>,
    round: nat,
    deck: nat,
    taken: nat,
    cap: Option<usize>,
)
    requires
        lists.len() <= usize::MAX,
    ensures
        forall|k: int|
            0 <= k < rr_from(lists, round, deck, taken, cap).len() ==> {
                let e = #[trigger] rr_from(lists, round, deck, taken, cap)[k];
                &&& (e.0 as int) < lists.len()
                &&& lists[e.0 as int].contains(e.1)
            },
    decreases max_len(lists) - round, lists.len() - deck,
{
    if round >= max_len(lists) || !within_cap(taken, cap) {
    } else if deck >= lists.len() {
        lemma_rr_from_items(lists, (round + 1) as nat, 0, taken, cap);
        let cur = rr_from(lists, round, deck, taken, cap);
        let rec = rr_from(lists, (round + 1) as nat, 0, taken, cap);
        assert(cur == rec);
        assert forall|k: int|
            0 <= k < cur.len() implies ((#[trigger] cur[k]).0 as int) < lists.len()
            && lists[cur[k].0 as int].contains(cur[k].1) by {
            assert(cur[k] == rec[k]);
        }
    } else if round < lists[deck as int].len() {
        lemma_rr_from_items(lists, round, (deck + 1) as nat, (taken + 1) as nat, cap);
        let e0 = ((deck as usize), lists[deck as int][round as int]);
        let cur = rr_from(lists, round, deck, taken, cap);
        let rest = rr_from(lists, round, (deck + 1) as nat, (taken + 1) as nat, cap);
        assert(cur == seq![e0] + rest);
        assert forall|k: int|
            0 <= k < cur.len() implies ((#[trigger] cur[k]).0 as int) < lists.len()
            && lists[cur[k].0 as int].contains(cur[k].1) by {
            if k == 0 {
                assert(cur[0] == e0);
                assert(lists[deck as int][round as int] == e0.1);
                assert(lists[e0.0 as int].contains(e0.1));
            } else {
                assert(cur[k] == rest[k - 1]);
            }
        }
    } else {
        lemma_rr_from_items(lists, round, (deck + 1) as nat, taken, cap);
        let cur = rr_from(lists, round, deck, taken, cap);
        let rec = rr_from(lists, round, (deck + 1) as nat, taken, cap);
        assert(cur == rec);
        assert forall|k: int|
            0 <= k < cur.len() implies ((#[trigger] cur[k]).0 as int) < lists.len()
            && lists[cur[k].0 as int].contains(cur[k].1) by {
            assert(cur[k] == rec[k]);
        }
    }
}

/// The cap only stops the draw: what the merge takes under no cap does not
/// depend on how many cards were counted so far.
proof fn lemma_rr_from_cap_free(lists: Seq<Seq<usize>>, round: nat, deck: nat, t1: nat, t2: nat)
    ensures
        rr_from(lists, round, deck, t1, None) == rr_from(lists, round, deck, t2, None),
    decreases max_len(lists) - round, lists.len() - deck,
{
    if round >= max_len(lists) {
    } else if deck >= lists.len() {
        lemma_rr_from_cap_free(lists, (round + 1) as nat, 0, t1, t2);
    } else if round < lists[deck as int].len() {
        lemma_rr_from_cap_free(lists, round, (deck + 1) as nat, (t1 + 1) as nat, (t2 + 1) as nat);
    } else {
        lemma_rr_from_cap_free(lists, round, (deck + 1) as nat, t1, t2);
    }
}

proof fn lemma_rr_from_cap_len(lists: Seq<Seq<usize>>, round: nat, deck: nat, taken: nat, m: usize)
    requires
        taken <= m,
    ensures
        rr_from(lists, round, deck, taken, Some(m)).len() == (if m - taken <= rr_from(
            lists,
            round,
            deck,
            taken,
            None,
        ).len() {
            m - taken
        } else {
            rr_from(lists, round, deck, taken, None).len() as int
        }),
    decreases max_len(lists) - round, lists.len() - deck,
{
    if round >= max_len(lists) {
    } else if taken == m {
    } else if deck >= lists.len() {
        lemma_rr_from_cap_len(lists, (round + 1) as nat, 0, taken, m);
    } else if round < lists[deck as int].len() {
        lemma_rr_from_cap_len(lists, round, (deck + 1) as nat, (taken + 1) as nat, m);
        lemma_rr_from_cap_free(lists, round, (deck + 1) as nat, (taken + 1) as nat, taken);
        let e0 = seq![((deck as usize), lists[deck as int][round as int])];
        assert(rr_from(lists, round, deck, taken, Some(m)) == e0 + rr_from(
            lists,
            round,
            (deck + 1) as nat,
            (taken + 1) as nat,
            Some(m),
        ));
        assert(rr_from(lists, round, deck, taken, None) == e0 + rr_from(
            lists,
            round,
            (deck + 1) as nat,
            (taken + 1) as nat,
            None,
        ));
    } else {
        lemma_rr_from_cap_len(lists, round, (deck + 1) as nat, taken, m);
    }
}

/// The capped merge takes exactly the cap, or — when the decks hold fewer —
/// everything the uncapped merge takes.
pub proof fn lemma_rr_merge_cap_len(lists: Seq<Seq<usize>>, m: usize)
    ensures
        rr_merge(lists, Some(m)).len() == (if m <= rr_merge(lists, None).len() {
            m as int
        } else {
            rr_merge(lists, None).len() as int
        }),
{
    lemma_rr_from_cap_len(lists, 0, 0, 0, m);
}

/// Merges the per-deck lists round-robin under the cap, as the specification
/// `rr_merge` says.
#[verifier::loop_isolation(false)]
fn merge_lists(lists: &Vec<Vec<usize>>, cap: Option<usize>) -> (r: Vec<(usize, usize)>)
    ensures
        r@ == rr_merge(lists.deep_view(), cap),
{
    let ghost vs = lists.deep_view();
    let mut out: Vec<(usize, usize)> = Vec::new();

    let mut ml: usize = 0;
    let mut i: usize = 0;
    while i < lists.len()
        invariant
            0 <= i <= vs.len(),
            ml == max_len(vs.take(i as int)),
        decreases lists.len() - i,
    {
        proof {
            assert(vs.take(i + 1).drop_last() =~= vs.take(i as int));
            assert(vs.take(i + 1).last() == vs[i as int]);
        }
        let cur = lists[i].len();
        if cur > ml {
            ml = cur;
        }
        i = i + 1;
    }
    proof {
        assert(vs.take(vs.len() as int) =~= vs);
    }

    proof {
        assert(out@ + rr_from(vs, 0, 0, 0, cap) =~= rr_merge(vs, cap));
    }
    let mut round: usize = 0;
    while round < ml
        invariant
            0 <= round <= ml,
            ml == max_len(vs),
            out@ + rr_from(vs, round as nat, 0, out@.len() as nat, cap) == rr_merge(vs, cap),
        decreases ml - round,
    {
        let mut d: usize = 0;
        while d < lists.len()
            invariant
                0 <= d <= vs.len(),
                round < ml,
                out@ + rr_from(vs, round as nat, d as nat, out@.len() as nat, cap) == rr_merge(
                    vs,
                    cap,
                ),
            decreases lists.len() - d,
        {
            match cap {
                Some(m) => {
                    if out.len() >= m {
                        proof {
                            assert(rr_from(vs, round as nat, d as nat, out@.len() as nat, cap)
                                =~= Seq::<(usize, usize)>::empty());
                            assert(out@ + rr_from(vs, round as nat, d as nat, out@.len() as nat, cap)
                                =~= out@);
                        }
                        return out;
                    }
                },
                None => {},
            }
            let ghost taken = out@.len() as nat;
            if round < lists[d].len() {
                let id = lists[d][round];
                let ghost before = out@;
                out.push((d, id));
                proof {
                    assert(vs[d as int][round as int] == id);
                    assert(rr_from(vs, round as nat, d as nat, taken, cap) == seq![
                        ((d as usize), id),
                    ] + rr_from(vs, round as nat, (d + 1) as nat, (taken + 1) as nat, cap));
                    assert(out@ =~= before + seq![(d, id)]);
                    assert(out@ + rr_from(vs, round as nat, (d + 1) as nat, out@.len() as nat, cap)
                        =~= rr_merge(vs, cap));
                }
            } else {
                proof {
                    assert(rr_from(vs, round as nat, d as nat, taken, cap) == rr_from(
                        vs,
                        round as nat,
                        (d + 1) as nat,
                        taken,
                        cap,
                    ));
                }
            }
            d = d + 1;
        }
        proof {
            assert(rr_from(vs, round as nat, vs.len() as nat, out@.len() as nat, cap) == rr_from(
                vs,
                (round + 1) as nat,
                0,
                out@.len() as nat,
                cap,
            ));
        }
        round = round + 1;
    }
    proof {
        assert(rr_from(vs, round as nat, 0, out@.len() as nat, cap) =~= Seq::<(
            usize,
            usize,
        )>::empty());
        assert(out@ + rr_from(vs, round as nat, 0, out@.len() as nat, cap) =~= out@);
    }
    out
}

/// Whether `l` consists of exactly the due ids of the deck against some day
/// boundary the clock may have read.
pub open spec fn due_exact_somewhen(deck: Deck, l: Seq<usize>) -> bool {
    exists|t: i64| #![auto] -CLOCK_BOUND <= t <= CLOCK_BOUND && deck.due_exact(l, t)
}

/// Whether `l` is the deck's due list as a session queue takes it: exactly
/// the due ids for some day boundary the clock may have read, without
/// repetition, and — when no shuffle was asked for — ordered earliest due
/// first, ties by id.
pub open spec fn old_list_exact(deck: Deck, l: Seq<usize>, randomize: bool) -> bool {
    &&& due_exact_somewhen(deck, l)
    &&& l.no_duplicates()
    &&& (!randomize ==> (forall|k: int, m: int|
        0 <= k < m < l.len() ==> pair_le(
            (deck.status@[l[k]].timestamp, l[k]),
            (deck.status@[l[m]].timestamp, l[m]),
        )))
}

/// Whether `l` is the deck's new list as a session queue takes it: exactly
/// the new ids, without repetition, and — when no shuffle was asked for —
/// ascending by id.
pub open spec fn new_list_exact(deck: Deck, l: Seq<usize>, randomize: bool) -> bool {
    &&& deck.new_exact(l)
    &&& l.no_duplicates()
    &&& (!randomize ==> (forall|k: int, m: int| 0 <= k < m < l.len() ==> l[k] < l[m]))
}

/// A suite: the decks reviewed together in one session.
pub struct Suite {
    pub decks: Vec<Deck>,
}

impl Suite {
    /// Every deck is structurally sound.
    pub open spec fn wf(&self) -> bool {
        forall|d: int| 0 <= d < self.decks@.len() ==> (#[trigger] self.decks@[d]).wf()
    }

    /// The interleaved queue of due cards across the decks, as `(deck index,
    /// card id)` pairs: each deck's due list (shuffled when asked), merged
    /// round-robin under the cap.  Every queued card is a known, non-new,
    /// non-graduated card of its deck that owes repetitions.
    pub fn get_old(&mut self, max: Option<usize>, randomize: bool) -> (r: Vec<(usize, usize)>)
        requires
            old(self).wf(),
        ensures
            *final(self) == *old(self),
            exists|ls: Seq<Seq<usize>>|
                #![auto]
                {
                    &&& ls.len() == old(self).decks@.len()
                    &&& r@ == rr_merge(ls, max)
                    &&& (forall|d: int|
                        0 <= d < ls.len() ==> old_list_exact(
                            old(self).decks@[d],
                            #[trigger] ls[d],
                            randomize,
                        ))
                },
            forall|k: int|
                0 <= k < r@.len() ==> {
                    let (d, id) = #[trigger] r@[k];
                    &&& (d as int) < old(self).decks@.len()
                    &&& old(self).decks@[d as int].ids@.contains(id)
                    &&& old(self).decks@[d as int].status@.contains_key(id)
                    &&& !old(self).decks@[d as int].status@[id].is_new_spec()
                    &&& old(self).decks@[d as int].status@[id].factor < GRADUATION
                    &&& old(self).decks@[d as int].status@[id].ticks > 0
                },
    {
        let mut lists: Vec<Vec<usize>> = Vec::new();
        let mut d: usize = 0;
        while d < self.decks.len()
            invariant
                *self == *old(self),
                self.wf(),
                0 <= d <= self.decks@.len(),
                lists.deep_view().len() == d,
                forall|e: int, k: int|
                    0 <= e < d && 0 <= k < lists.deep_view()[e].len() ==> {
                        let id = #[trigger] lists.deep_view()[e][k];
                        &&& self.decks@[e].ids@.contains(id)
                        &&& self.decks@[e].status@.contains_key(id)
                        &&& !self.decks@[e].status@[id].is_new_spec()
                        &&& self.decks@[e].status@[id].factor < GRADUATION
                        &&& self.decks@[e].status@[id].ticks > 0
                    },
                forall|e: int|
                    0 <= e < d ==> old_list_exact(
                        self.decks@[e],
                        #[trigger] lists.deep_view()[e],
                        randomize,
                    ),
            decreases self.decks.len() - d,
        {
            broadcast use vstd::seq_lib::group_to_multiset_ensures;

            let mut due = self.decks[d].get_due();
            let ghost plain = due@;
            let ghost t0 = choose|t: i64|
                -CLOCK_BOUND <= t <= CLOCK_BOUND && self.decks@[d as int].due_exact(plain, t);
            if randomize {
                shuffle_ids(&mut due);
                proof {
                    assert forall|k: int| 0 <= k < due@.len() implies plain.contains(
                        #[trigger] due@[k],
                    ) by {
                        assert(due@.to_multiset().count(due@[k]) > 0);
                    }
                    assert forall|id: usize| plain.contains(id) implies due@.contains(id) by {
                        assert(plain.to_multiset().count(id) > 0);
                        assert(due@.to_multiset().count(id) > 0);
                    }
                }
            }
            let ghost dv = due@;
            let ghost old_lists = lists.deep_view();
            lists.push(due);
            proof {
                assert(lists.deep_view() =~~= old_lists.push(dv));
                assert forall|k: int| 0 <= k < dv.len() implies plain.contains(
                    #[trigger] dv[k],
                ) by {
                    if !randomize {
                        assert(plain[k] == dv[k]);
                    }
                }
                assert(self.decks@[d as int].due_exact(dv, t0)) by {
                    assert forall|k: int|
                        0 <= k < dv.len() implies self.decks@[d as int].due_pred(
                        #[trigger] dv[k],
                        t0,
                    ) by {
                        let j = choose|j: int| 0 <= j < plain.len() && plain[j] == dv[k];
                        assert(self.decks@[d as int].due_pred(plain[j], t0));
                    }
                    assert forall|id: usize|
                        #[trigger] self.decks@[d as int].due_pred(id, t0)
                            && self.decks@[d as int].ids@.contains(id) implies dv.contains(id) by {
                        assert(plain.contains(id));
                        if randomize {
                        } else {
                            assert(dv == plain);
                        }
                    }
                }
                assert(dv.no_duplicates()) by {
                    if randomize {
                        plain.lemma_multiset_has_no_duplicates();
                        dv.lemma_multiset_has_no_duplicates_conv();
                    } else {
                        assert(dv == plain);
                    }
                }
                assert(old_list_exact(self.decks@[d as int], dv, randomize)) by {
                    assert(-CLOCK_BOUND <= t0 <= CLOCK_BOUND && self.decks@[d as int].due_exact(
                        dv,
                        t0,
                    ));
                    if !randomize {
                        assert(dv == plain);
                    }
                }
                assert forall|e: int| 0 <= e <= d implies old_list_exact(
                    self.decks@[e],
                    #[trigger] lists.deep_view()[e],
                    randomize,
                ) by {
                    if e == d {
                        assert(lists.deep_view()[e] == dv);
                    } else {
                        assert(lists.deep_view()[e] == old_lists[e]);
                        assert(old_list_exact(self.decks@[e], old_lists[e], randomize));
                    }
                }
            }
            d = d + 1;
        }
        let r = merge_lists(&lists, max);
        proof {
            lemma_rr_from_items(lists.deep_view(), 0, 0, 0, max);
        }
        r
    }

    /// The interleaved queue of new cards across the decks: each deck's new
    /// list (shuffled when asked), merged round-robin under the cap.  Every
    /// queued card is a known card of its deck with no state or a factor of
    /// zero.
    pub fn get_new(&mut self, max: Option<usize>, randomize: bool) -> (r: Vec<(usize, usize)>)
        requires
            old(self).wf(),
        ensures
            *final(self) == *old(self),
            exists|ls: Seq<Seq<usize>>|
                #![auto]
                {
                    &&& ls.len() == old(self).decks@.len()
                    &&& r@ == rr_merge(ls, max)
                    &&& (forall|d: int|
                        0 <= d < ls.len() ==> new_list_exact(
                            old(self).decks@[d],
                            #[trigger] ls[d],
                            randomize,
                        ))
                },
            forall|k: int|
                0 <= k < r@.len() ==> {
                    let (d, id) = #[trigger] r@[k];
                    &&& (d as int) < old(self).decks@.len()
                    &&& old(self).decks@[d as int].ids@.contains(id)
                    &&& old(self).decks@[d as int].new_pred(id)
                },
    {
        let mut lists: Vec<Vec<usize>> = Vec::new();
        let mut d: usize = 0;
        while d < self.decks.len()
            invariant
                *self == *old(self),
                self.wf(),
                0 <= d <= self.decks@.len(),
                lists.deep_view().len() == d,
                forall|e: int, k: int|
                    0 <= e < d && 0 <= k < lists.deep_view()[e].len() ==> {
                        let id = #[trigger] lists.deep_view()[e][k];
                        &&& self.decks@[e].ids@.contains(id)
                        &&& self.decks@[e].new_pred(id)
                    },
                forall|e: int|
                    0 <= e < d ==> new_list_exact(
                        self.decks@[e],
                        #[trigger] lists.deep_view()[e],
                        randomize,
                    ),
            decreases self.decks.len() - d,
        {
            broadcast use vstd::seq_lib::group_to_multiset_ensures;

            let mut fresh = self.decks[d].get_new();
            let ghost plain = fresh@;
            if randomize {
                shuffle_ids(&mut fresh);
                proof {
                    assert forall|k: int| 0 <= k < fresh@.len() implies plain.contains(
                        #[trigger] fresh@[k],
                    ) by {
                        assert(fresh@.to_multiset().count(fresh@[k]) > 0);
                    }
                    assert forall|id: usize| plain.contains(id) implies fresh@.contains(id) by {
                        assert(plain.to_multiset().count(id) > 0);
                        assert(fresh@.to_multiset().count(id) > 0);
                    }
                }
            }
            let ghost dv = fresh@;
            let ghost old_lists = lists.deep_view();
            lists.push(fresh);
            proof {
                assert(lists.deep_view() =~~= old_lists.push(dv));
                assert forall|k: int| 0 <= k < dv.len() implies plain.contains(
                    #[trigger] dv[k],
                ) by {
                    if !randomize {
                        assert(plain[k] == dv[k]);
                    }
                }
                assert(self.decks@[d as int].new_exact(dv)) by {
                    assert forall|k: int|
                        0 <= k < dv.len() implies self.decks@[d as int].ids@.contains(
                        #[trigger] dv[k],
                    ) && self.decks@[d as int].new_pred(dv[k]) by {
                        let j = choose|j: int| 0 <= j < plain.len() && plain[j] == dv[k];
                    }
                    assert forall|id: usize|
                        #[trigger] self.decks@[d as int].new_pred(id)
                            && self.decks@[d as int].ids@.contains(id) implies dv.contains(id) by {
                        assert(plain.contains(id));
                        if randomize {
                        } else {
                            assert(dv == plain);
                        }
                    }
                }
                assert(plain.no_duplicates()) by {
                    assert forall|a: int, b: int|
                        0 <= a < b < plain.len() implies plain[a] != plain[b] by {
                        assert(plain[a] < plain[b]);
                    }
                }
                assert(dv.no_duplicates()) by {
                    if randomize {
                        plain.lemma_multiset_has_no_duplicates();
                        dv.lemma_multiset_has_no_duplicates_conv();
                    } else {
                        assert(dv == plain);
                    }
                }
                assert(new_list_exact(self.decks@[d as int], dv, randomize)) by {
                    if !randomize {
                        assert(dv == plain);
                    }
                }
                assert forall|e: int| 0 <= e <= d implies new_list_exact(
                    self.decks@[e],
                    #[trigger] lists.deep_view()[e],
                    randomize,
                ) by {
                    if e == d {
                        assert(lists.deep_view()[e] == dv);
                    } else {
                        assert(lists.deep_view()[e] == old_lists[e]);
                        assert(new_list_exact(self.decks@[e], old_lists[e], randomize));
                    }
                }
            }
            d = d + 1;
        }
        let r = merge_lists(&lists, max);
        proof {
            lemma_rr_from_items(lists.deep_view(), 0, 0, 0, max);
        }
        r
    }
}

/// Round robin across two decks: with lists `[a1, a2, a3]` and `[b1, b2]` and
/// no cap, the merge alternates the decks until the shorter list is
/// exhausted, then the remainder of the longer one follows.
pub proof fn lemma_merge_two_decks(a1: usize, a2: usize, a3: usize, b1: usize, b2: usize)
    ensures
        rr_merge(seq![seq![a1, a2, a3], seq![b1, b2]], None) == seq![
            (0usize, a1),
            (1usize, b1),
            (0usize, a2),
            (1usize, b2),
            (0usize, a3),
        ],
{
    let ls = seq![seq![a1, a2, a3], seq![b1, b2]];
    assert(max_len(ls) == 3) by {
        assert(ls.drop_last() =~= seq![seq![a1, a2, a3]]);
        assert(seq![seq![a1, a2, a3]].drop_last() =~= Seq::<Seq<usize>>::empty());
        assert(max_len(Seq::<Seq<usize>>::empty()) == 0);
        assert(max_len(seq![seq![a1, a2, a3]]) == 3);
    }
    assert(rr_from(ls, 0, 0, 0, None) =~= seq![(0usize, a1)] + rr_from(ls, 0, 1, 1, None));
    assert(rr_from(ls, 0, 1, 1, None) =~= seq![(1usize, b1)] + rr_from(ls, 0, 2, 2, None));
    assert(rr_from(ls, 0, 2, 2, None) =~= rr_from(ls, 1, 0, 2, None));
    assert(rr_from(ls, 1, 0, 2, None) =~= seq![(0usize, a2)] + rr_from(ls, 1, 1, 3, None));
    assert(rr_from(ls, 1, 1, 3, None) =~= seq![(1usize, b2)] + rr_from(ls, 1, 2, 4, None));
    assert(rr_from(ls, 1, 2, 4, None) =~= rr_from(ls, 2, 0, 4, None));
    assert(rr_from(ls, 2, 0, 4, None) =~= seq![(0usize, a3)] + rr_from(ls, 2, 1, 5, None));
    assert(rr_from(ls, 2, 1, 5, None) =~= rr_from(ls, 2, 2, 5, None));
    assert(rr_from(ls, 2, 2, 5, None) =~= rr_from(ls, 3, 0, 5, None));
    assert(rr_from(ls, 3, 0, 5, None) =~= Seq::<(usize, usize)>::empty());
    assert(rr_merge(ls, None) =~= seq![
        (0usize, a1),
        (1usize, b1),
        (0usize, a2),
        (1usize, b2),
        (0usize, a3),
    ]);
}

/// A single deck under a cap of `m` merges to exactly the first
/// `min(m, len)` items of its list, in the list's own order.
pub proof fn lemma_merge_single_deck(l: Seq<usize>, m: usize)
    ensures
        rr_merge(seq![l], Some(m)).len() == (if m < l.len() {
            m as int
        } else {
            l.len() as int
        }),
        forall|k: int|
            0 <= k < rr_merge(seq![l], Some(m)).len() ==> #[trigger] rr_merge(seq![l], Some(m))[k]
                == (0usize, l[k]),
{
    assert(max_len(seq![l]) == l.len()) by {
        assert(seq![l].drop_last() =~= Seq::<Seq<usize>>::empty());
        assert(max_len(Seq::<Seq<usize>>::empty()) == 0);
    }
    lemma_merge_single_from(l, 0, m);
}

proof fn lemma_merge_single_from(l: Seq<usize>, r: nat, m: usize)
    requires
        r <= l.len(),
        r <= m,
        max_len(seq![l]) == l.len(),
    ensures
        rr_from(seq![l], r, 0, r, Some(m)).len() == (if m < l.len() {
            m - r
        } else {
            l.len() - r
        }),
        forall|k: int|
            0 <= k < rr_from(seq![l], r, 0, r, Some(m)).len() ==> #[trigger] rr_from(
                seq![l],
                r,
                0,
                r,
                Some(m),
            )[k] == (0usize, l[r + k]),
    decreases l.len() - r,
{
    let ls = seq![l];
    if r >= l.len() || r >= m {
        assert(rr_from(ls, r, 0, r, Some(m)) =~= Seq::<(usize, usize)>::empty());
    } else {
        assert(rr_from(ls, r, 0, r, Some(m)) =~= seq![(0usize, l[r as int])] + rr_from(
            ls,
            r,
            1,
            r + 1,
            Some(m),
        ));
        assert(rr_from(ls, r, 1, r + 1, Some(m)) =~= rr_from(ls, r + 1, 0, r + 1, Some(m)));
        lemma_merge_single_from(l, r + 1, m);
    }
}

/// Where the session stands.
#[derive(Debug, PartialEq, Eq, Structural, Copy, Clone)]
pub enum Phase {
    ReviewingOld,
    ReviewingNew,
    Finished,
    Cancelled,
}

/// How far a phase still has to go; used only to show the machine moves on.
pub open spec fn phase_rank(p: Phase) -> int {
    match p {
        Phase::ReviewingOld => 2,
        Phase::ReviewingNew => 1,
        Phase::Finished => 0,
        Phase::Cancelled => 0,
    }
}

/// Whether a card must still be asked in this session: it has no state yet,
/// or it owes repetitions and its due date has arrived.
pub open spec fn live_due(deck: Deck, id: usize, tomorrow_start: i64) -> bool {
    !deck.status@.contains_key(id) || deck.status@[id].is_due_spec(tomorrow_start)
}

/// No entry of the queue between positions `from` and `to` is still due.
pub open spec fn none_live(
    q: Seq<(usize, usize)>,
    suite: Suite,
    t: i64,
    from: int,
    to: int,
) -> bool {
    forall|k: int|
        from <= k < to ==> !live_due(suite.decks@[(#[trigger] q[k]).0 as int], q[k].1, t)
}

/// One review session: the queue of due cards, the queue of new cards, the
/// phase, the sweep position in the active queue, and whether the current
/// sweep has handed out a card (a sweep that hands out none ends its phase).
pub struct Session {
    pub old_queue: Vec<(usize, usize)>,
    pub new_queue: Vec<(usize, usize)>,
    pub phase: Phase,
    pub pos: usize,
    pub progressed: bool,
}

impl Session {
    /// The queue the current phase sweeps.
    pub open spec fn active_queue(&self) -> Seq<(usize, usize)> {
        match self.phase {
            Phase::ReviewingOld => self.old_queue@,
            Phase::ReviewingNew => self.new_queue@,
            Phase::Finished => Seq::empty(),
            Phase::Cancelled => Seq::empty(),
        }
    }

    /// Every queued entry names a deck of the suite.
    pub open spec fn wf(&self, suite: Suite) -> bool {
        &&& (forall|k: int|
            0 <= k < self.old_queue@.len() ==> ((#[trigger] self.old_queue@[k]).0 as int)
                < suite.decks@.len())
        &&& (forall|k: int|
            0 <= k < self.new_queue@.len() ==> ((#[trigger] self.new_queue@[k]).0 as int)
                < suite.decks@.len())
        &&& self.pos <= self.active_queue().len()
    }

    /// Opens a session over the suite: the due cards first (capped by
    /// `max_old`), then the new ones (capped by `max_new`), each queue
    /// interleaved round-robin across the decks.
    pub fn begin(suite: &mut Suite, max_new: usize, max_old: Option<usize>, randomize: bool) -> (s:
        Session)
        requires
            old(suite).wf(),
        ensures
            *final(suite) == *old(suite),
            s.wf(*final(suite)),
            s.phase == Phase::ReviewingOld,
            s.pos == 0,
            forall|k: int|
                0 <= k < s.old_queue@.len() ==> {
                    let (d, id) = #[trigger] s.old_queue@[k];
                    &&& (d as int) < old(suite).decks@.len()
                    &&& old(suite).decks@[d as int].ids@.contains(id)
                    &&& old(suite).decks@[d as int].status@.contains_key(id)
                    &&& old(suite).decks@[d as int].status@[id].factor < GRADUATION
                },
            forall|k: int|
                0 <= k < s.new_queue@.len() ==> {
                    let (d, id) = #[trigger] s.new_queue@[k];
                    &&& (d as int) < old(suite).decks@.len()
                    &&& old(suite).decks@[d as int].ids@.contains(id)
                    &&& old(suite).decks@[d as int].new_pred(id)
                },
            exists|ls: Seq<Seq<usize>>|
                #![auto]
                {
                    &&& ls.len() == old(suite).decks@.len()
                    &&& s.old_queue@ == rr_merge(ls, max_old)
                    &&& (forall|d: int|
                        0 <= d < ls.len() ==> old_list_exact(
                            old(suite).decks@[d],
                            #[trigger] ls[d],
                            randomize,
                        ))
                },
            exists|ls: Seq<Seq<usize>>|
                #![auto]
                {
                    &&& ls.len() == old(suite).decks@.len()
                    &&& s.new_queue@ == rr_merge(ls, Some(max_new))
                    &&& (forall|d: int|
                        0 <= d < ls.len() ==> new_list_exact(
                            old(suite).decks@[d],
                            #[trigger] ls[d],
                            randomize,
                        ))
                },
    {
        let old_queue = suite.get_old(max_old, randomize);
        let new_queue = suite.get_new(Some(max_new), randomize);
        Session { old_queue, new_queue, phase: Phase::ReviewingOld, pos: 0, progressed: false }
    }

    /// A quit request: the session is over at once; the in-flight card's
    /// answer is discarded.
    pub fn cancel(&mut self)
        ensures
            final(self).phase == Phase::Cancelled,
            final(self).pos == 0,
            final(self).old_queue == old(self).old_queue,
            final(self).new_queue == old(self).new_queue,
            forall|s: Suite| old(self).wf(s) ==> final(self).wf(s),
    {
        self.phase = Phase::Cancelled;
        self.pos = 0;
    }

    /// The next card to present, against the given day boundary: the first
    /// entry from the sweep position on that is still due, re-checked live
    /// since answering changes due-ness.  A sweep that handed out a card is
    /// repeated once it ends; a sweep that handed out none ends the phase,
    /// due cards giving way to new ones and new ones to the finished state.
    /// `None` means the session is over, and comes only once no queued card
    /// from the swept position on is still due.
    pub fn next_card(&mut self, suite: &Suite, tomorrow_start: i64) -> (r: Option<(usize, usize)>)
        requires
            old(self).wf(*suite),
            suite.wf(),
        ensures
            final(self).wf(*suite),
            final(self).old_queue == old(self).old_queue,
            final(self).new_queue == old(self).new_queue,
            phase_rank(final(self).phase) <= phase_rank(old(self).phase),
            (old(self).phase == Phase::Finished || old(self).phase == Phase::Cancelled)
                ==> *final(self) == *old(self),
            match r {
                Some(e) => {
                    &&& (final(self).phase == Phase::ReviewingOld || final(self).phase
                        == Phase::ReviewingNew)
                    &&& final(self).pos < final(self).active_queue().len()
                    &&& final(self).active_queue()[final(self).pos as int] == e
                    &&& (e.0 as int) < suite.decks@.len()
                    &&& live_due(suite.decks@[e.0 as int], e.1, tomorrow_start)
                    &&& (old(self).phase == Phase::ReviewingOld && final(self).phase
                        == Phase::ReviewingNew ==> none_live(
                        old(self).old_queue@,
                        *suite,
                        tomorrow_start,
                        old(self).pos as int,
                        old(self).old_queue@.len() as int,
                    ))
                },
                None => {
                    &&& (final(self).phase == Phase::Finished || final(self).phase
                        == Phase::Cancelled)
                    &&& ((old(self).phase == Phase::ReviewingOld || old(self).phase
                        == Phase::ReviewingNew) ==> {
                        &&& none_live(
                            old(self).active_queue(),
                            *suite,
                            tomorrow_start,
                            old(self).pos as int,
                            old(self).active_queue().len() as int,
                        )
                        &&& (old(self).phase == Phase::ReviewingOld ==> none_live(
                            old(self).new_queue@,
                            *suite,
                            tomorrow_start,
                            0,
                            old(self).new_queue@.len() as int,
                        ))
                    })
                },
            },
    {
        loop
            invariant
                self.wf(*suite),
                suite.wf(),
                self.old_queue == old(self).old_queue,
                self.new_queue == old(self).new_queue,
                phase_rank(self.phase) <= phase_rank(old(self).phase),
                (old(self).phase == Phase::Finished || old(self).phase == Phase::Cancelled)
                    ==> *self == *old(self),
                self.phase == Phase::Cancelled ==> old(self).phase == Phase::Cancelled,
                ((old(self).phase == Phase::ReviewingOld || old(self).phase == Phase::ReviewingNew)
                    && self.phase == old(self).phase) ==> ({
                    ||| (self.progressed == old(self).progressed && self.pos >= old(self).pos
                        && none_live(
                        old(self).active_queue(),
                        *suite,
                        tomorrow_start,
                        old(self).pos as int,
                        self.pos as int,
                    ))
                    ||| (!self.progressed && none_live(
                        old(self).active_queue(),
                        *suite,
                        tomorrow_start,
                        old(self).pos as int,
                        old(self).active_queue().len() as int,
                    ) && none_live(
                        old(self).active_queue(),
                        *suite,
                        tomorrow_start,
                        0,
                        self.pos as int,
                    ))
                }),
                (old(self).phase == Phase::ReviewingOld && self.phase == Phase::ReviewingNew) ==> ({
                    &&& none_live(
                        old(self).old_queue@,
                        *suite,
                        tomorrow_start,
                        old(self).pos as int,
                        old(self).old_queue@.len() as int,
                    )
                    &&& !self.progressed
                    &&& none_live(
                        old(self).new_queue@,
                        *suite,
                        tomorrow_start,
                        0,
                        self.pos as int,
                    )
                }),
                ((old(self).phase == Phase::ReviewingOld || old(self).phase == Phase::ReviewingNew)
                    && self.phase == Phase::Finished) ==> ({
                    &&& none_live(
                        old(self).active_queue(),
                        *suite,
                        tomorrow_start,
                        old(self).pos as int,
                        old(self).active_queue().len() as int,
                    )
                    &&& (old(self).phase == Phase::ReviewingOld ==> none_live(
                        old(self).new_queue@,
                        *suite,
                        tomorrow_start,
                        0,
                        old(self).new_queue@.len() as int,
                    ))
                }),
            decreases
                    phase_rank(self.phase),
                    (if self.progressed {
                        1int
                    } else {
                        0int
                    }),
                    self.active_queue().len() - self.pos,
        {
            match self.phase {
                Phase::Finished => {
                    return None;
                },
                Phase::Cancelled => {
                    return None;
                },
                _ => {},
            }
            let qlen = match self.phase {
                Phase::ReviewingOld => self.old_queue.len(),
                _ => self.new_queue.len(),
            };
            if self.pos < qlen {
                let (d, id) = match self.phase {
                    Phase::ReviewingOld => self.old_queue[self.pos],
                    _ => self.new_queue[self.pos],
                };
                let live: bool = match suite.decks[d].status.get(&id) {
                    Some(st) => st.is_due_at(tomorrow_start),
                    None => true,
                };
                if live {
                    self.progressed = true;
                    return Some((d, id));
                }
                proof {
                    assert(self.active_queue()[self.pos as int] == (d, id));
                    assert(!live_due(suite.decks@[d as int], id, tomorrow_start));
                }
                self.pos = self.pos + 1;
            } else if self.progressed {
                self.progressed = false;
                self.pos = 0;
            } else {
                self.phase = match self.phase {
                    Phase::ReviewingOld => Phase::ReviewingNew,
                    _ => Phase::Finished,
                };
                self.pos = 0;
                self.progressed = false;
            }
        }
    }

    /// Takes the answer for the card the sweep stands on: the owning deck
    /// records it (scheduling the card anew and tallying a completed cycle),
    /// and the sweep moves past the card.  The returned countdown is zero
    /// exactly when the card completed its cycle, which is the moment the
    /// deck's log is worth saving.
    pub fn answer(&mut self, suite: &mut Suite, correct: bool, randomize: bool) -> (out: (
        usize,
        usize,
        usize,
    ))
        requires
            old(self).wf(*old(suite)),
            old(suite).wf(),
            old(self).phase == Phase::ReviewingOld || old(self).phase == Phase::ReviewingNew,
            old(self).pos < old(self).active_queue().len(),
            ({
                let (d, id) = old(self).active_queue()[old(self).pos as int];
                !old(suite).decks@[d as int].status@.contains_key(id) || old(
                    suite,
                ).decks@[d as int].status@[id].ticks >= 1
            }),
        ensures
            ({
                let (d, id) = old(self).active_queue()[old(self).pos as int];
                let deck0 = old(suite).decks@[d as int];
                let deck1 = final(suite).decks@[d as int];
                &&& out.0 == d && out.1 == id
                &&& final(suite).decks@.len() == old(suite).decks@.len()
                &&& (forall|e: int|
                    0 <= e < old(suite).decks@.len() && e != d as int ==> final(suite).decks@[e]
                        == old(suite).decks@[e])
                &&& final(suite).wf()
                &&& deck1.status@.contains_key(id)
                &&& deck1.cards@ == deck0.cards@ && deck1.ids@ == deck0.ids@
                &&& out.2 == deck1.status@[id].ticks
                &&& (exists|jitter: u64, ds: i64, start: Status|
                    #![auto]
                    {
                        &&& jitter < 2000
                        &&& (!randomize ==> jitter == 0)
                        &&& -CLOCK_BOUND <= ds <= CLOCK_BOUND
                        &&& (if deck0.status@.contains_key(id) {
                            start == deck0.status@[id]
                        } else {
                            start.id == id && start.factor == 0 && start.ticks == INIT_TICKS
                        })
                        &&& deck1.status@[id] == update_spec(start, correct, jitter, ds)
                    })
                &&& (out.2 == 0 ==> deck1.played@ == deck0.played@.insert(id))
                &&& (out.2 != 0 ==> deck1.played@ == deck0.played@)
                &&& (out.2 == 0 && !correct ==> deck1.wrong@ == deck0.wrong@.insert(id))
                &&& (!(out.2 == 0 && !correct) ==> deck1.wrong@ == deck0.wrong@)
                &&& final(self).wf(*final(suite))
                &&& final(self).phase == old(self).phase
                &&& final(self).old_queue == old(self).old_queue
                &&& final(self).new_queue == old(self).new_queue
                &&& final(self).pos == old(self).pos + 1
            }),
    {
        let qlen: usize = match self.phase {
            Phase::ReviewingOld => self.old_queue.len(),
            _ => self.new_queue.len(),
        };
        let (d, id) = match self.phase {
            Phase::ReviewingOld => self.old_queue[self.pos],
            _ => self.new_queue[self.pos],
        };
        let ghost decks0 = suite.decks@;
        let mut deck = suite.decks.remove(d);
        let ticks = deck.record_answer(id, correct, randomize);
        suite.decks.insert(d, deck);
        proof {
            assert(suite.decks@ =~= decks0.update(d as int, suite.decks@[d as int]));
        }
        self.pos = self.pos + 1;
        (d, id, ticks)
    }
}

} // verus!
