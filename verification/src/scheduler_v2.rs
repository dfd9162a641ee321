//! The priority scheduler: a single continuously re-sorted card list.
//!
//! The three queues of the interval scheduler collapse into one pool,
//! ordered by a strict total order on (tier, key): overdue review cards come
//! first (earliest due first), then fresh cards, then learning cards by
//! their next-appearance distance (stable), then not-yet-due review cards by
//! due time. After a rating the pool is re-sorted, and when the winner is
//! the card just rated the top two entries are swapped, so the same card is
//! never presented twice in a row.
//!
//! Units are as in the interval scheduler, except that `last_interval` is
//! kept in tenths (10 stands for one whole interval), which represents the
//! half-interval opening steps (0.5, 1.5, 3.0) exactly.

use vstd::prelude::*;

use crate::scheduler::{
    attempts_after, attempts_after_spec, count_matching, ef_after_spec, imin, lemma_count_bounds,
    lemma_count_take_step, sat_add_i64, sat_add_i64_spec, Rating, ScheduleParam, EF_START_MILLI,
};
use crate::scheme::{scheme_zigen_eq, GroupListV, SchemeZigen, SchemeZigenV, ZigenConfusable};

verus! {

/// Due distance of a freshly promoted card, in seconds.
pub const V2_PROMOTED_DUE_S: i64 = 300;

/// Memory state of a card under the priority scheduler. `last_interval` is
/// in tenths, `easiness_factor` in thousandths, timestamps in seconds.
#[derive(Clone, Copy, Debug, PartialEq, Eq, Structural)]
pub enum Card {
    /// Never studied.
    New,
    /// Mid-acquisition. `attempts` is an asymmetric ratchet: a failure moves
    /// it to `min(attempts - 1, 0)`, a success to `max(attempts + 1, 0)`.
    Learning { attempts: i32, last_reviewed: i64 },
    /// Consolidated; due-ness is a stored timestamp.
    Review {
        last_interval: u64,
        repetition: usize,
        easiness_factor: u64,
        last_reviewed: i64,
        due: i64,
    },
}

/// A zigen together with its memory state.
#[derive(Clone, Debug)]
pub struct SchedulerV2Card {
    pub zigen: SchemeZigen<ZigenConfusable>,
    pub card: Card,
}

impl SchedulerV2Card {
    /// True exactly when the card was never studied.
    pub fn is_new_card(&self) -> (b: bool)
        ensures
            b == (self.card == Card::New),
    {
        self.card == Card::New
    }
}

/// The interval growth step in tenths: `round(interval * ef)` whole
/// intervals, saturating at `u64::MAX` tenths.
pub open spec fn v2_next_interval_spec(li: u64, ef: u64) -> u64 {
    let q = (li * ef + 5000) / 10000;
    if 10 * q > u64::MAX {
        u64::MAX
    } else {
        (10 * q) as u64
    }
}

/// Computes the interval growth step.
pub fn v2_next_interval(li: u64, ef: u64) -> (r: u64)
    ensures
        r == v2_next_interval_spec(li, ef),
{
    proof {
        assert((li as u128) * (ef as u128) <= (u64::MAX as u128) * (u64::MAX as u128))
            by (nonlinear_arith)
            requires
                li as u128 <= u64::MAX as u128,
                ef as u128 <= u64::MAX as u128,
        ;
    }
    let q: u128 = (li as u128 * ef as u128 + 5000) / 10000;
    if q > u64::MAX as u128 / 10 {
        u64::MAX
    } else {
        (10 * q) as u64
    }
}

/// The due distance of a reviewed card, in seconds: 30 seconds per tenth of
/// interval, saturating at the top of `i64`.
pub open spec fn v2_due_distance_spec(li: u64) -> int {
    if 30 * li > i64::MAX {
        i64::MAX as int
    } else {
        30 * li
    }
}

/// One rating applied to a card's memory state: a fresh card enters
/// learning; a learning card moves its counter along the asymmetric ratchet
/// (failure to `min(attempts - 1, 0)`, success to `max(attempts + 1, 0)`)
/// and is promoted at the threshold with default review state and a
/// five-minute due distance; a review card grows its interval (0.5, 1.5,
/// 3.0, then by the easiness factor), advances or resets its repetition
/// count by success or failure, updates its floored easiness factor, and is
/// due 30 seconds per tenth of its new interval.
pub open spec fn v2_rate_spec(p: ScheduleParam, c: Card, rating: Rating, now: i64) -> Card {
    match c {
        Card::New => Card::Learning { attempts: 0, last_reviewed: now },
        Card::Learning { attempts, .. } => {
            let a2 = attempts_after_spec(attempts as int, rating == Rating::Again);
            if a2 >= p.max_learning_attempts_spec() {
                Card::Review {
                    last_interval: 10,
                    repetition: 1,
                    easiness_factor: EF_START_MILLI,
                    last_reviewed: now,
                    due: sat_add_i64_spec(now as int, V2_PROMOTED_DUE_S as int),
                }
            } else {
                Card::Learning { attempts: a2 as i32, last_reviewed: now }
            }
        },
        Card::Review { last_interval, repetition, easiness_factor, .. } => {
            let li2: u64 = if repetition == 0 {
                5
            } else if repetition == 1 {
                15
            } else if repetition == 2 {
                30
            } else {
                v2_next_interval_spec(last_interval, easiness_factor)
            };
            let rep2: usize = if rating != Rating::Again {
                if repetition == usize::MAX {
                    usize::MAX
                } else {
                    (repetition + 1) as usize
                }
            } else {
                0
            };
            Card::Review {
                last_interval: li2,
                repetition: rep2,
                easiness_factor: ef_after_spec(easiness_factor, rating.difficulty_spec()),
                last_reviewed: now,
                due: sat_add_i64_spec(now as int, v2_due_distance_spec(li2)),
            }
        },
    }
}

/// Whether a card still needs learning work now: fresh and learning cards
/// always, review cards once overdue.
pub open spec fn v2_needs_learning(c: Card, now: int) -> bool {
    match c {
        Card::New => true,
        Card::Learning { .. } => true,
        Card::Review { due, .. } => due < now,
    }
}

/// The "needs learning now" test, as a function value, for counting.
pub open spec fn needs_learning_pred(now: int) -> spec_fn(SchedulerV2Card) -> bool {
    |c: SchedulerV2Card| v2_needs_learning(c.card, now)
}

/// The "never studied" test, as a function value, for counting.
pub open spec fn v2_new_pred() -> spec_fn(SchedulerV2Card) -> bool {
    |c: SchedulerV2Card| c.card == Card::New
}

/// The precedence tier of a card: overdue review cards first, then fresh
/// cards, then learning cards, then not-yet-due review cards.
pub open spec fn v2_tier(c: Card, now: int) -> int {
    match c {
        Card::Review { due, .. } => if due < now {
            0
        } else {
            3
        },
        Card::New => 1,
        Card::Learning { .. } => 2,
    }
}

/// The key ordering cards within a tier: the due time of a review card, the
/// computed next-appearance distance of a learning card (the success table
/// indexed by a non-negative counter, the failure table by the magnitude of
/// a negative one, indices clamped), zero for a fresh card.
pub open spec fn v2_key(p: ScheduleParam, c: Card, now: int) -> int {
    match c {
        Card::Review { due, .. } => due as int,
        Card::New => 0,
        Card::Learning { attempts, .. } => {
            if attempts >= 0 {
                let s = p.learning_intervals_s_spec();
                s[imin(attempts as int, s.len() - 1)]
            } else {
                let f = p.learning_intervals_f_spec();
                f[imin(-(attempts as int) - 1, f.len() - 1)]
            }
        },
    }
}

/// The pool order: by tier, then by key; a total preorder.
pub open spec fn v2_le(p: ScheduleParam, now: int, a: SchedulerV2Card, b: SchedulerV2Card) -> bool {
    v2_tier(a.card, now) < v2_tier(b.card, now) || (v2_tier(a.card, now) == v2_tier(b.card, now)
        && v2_key(p, a.card, now) <= v2_key(p, b.card, now))
}

/// Stable insertion of a card into a sorted pool: after every card that
/// does not come strictly later, before the first that does.
pub open spec fn insert_sorted(
    p: ScheduleParam,
    now: int,
    x: SchedulerV2Card,
    s: Seq<SchedulerV2Card>,
) -> Seq<SchedulerV2Card>
    decreases s.len(),
{
    if s.len() == 0 {
        seq![x]
    } else if v2_le(p, now, s[0], x) {
        seq![s[0]] + insert_sorted(p, now, x, s.drop_first())
    } else {
        seq![x] + s
    }
}

/// Stable insertion sort of the pool: the sort the scheduler performs,
/// fixed up to equality by this definition.
pub open spec fn sort_spec(p: ScheduleParam, now: int, s: Seq<SchedulerV2Card>) -> Seq<
    SchedulerV2Card,
>
    decreases s.len(),
{
    if s.len() == 0 {
        s
    } else {
        insert_sorted(p, now, s.last(), sort_spec(p, now, s.drop_last()))
    }
}

/// A pool is sorted when every earlier card comes no later in the order.
pub open spec fn sorted(p: ScheduleParam, now: int, s: Seq<SchedulerV2Card>) -> bool {
    forall|i: int, j: int| 0 <= i <= j < s.len() ==> v2_le(p, now, #[trigger] s[i], #[trigger] s[j])
}

/// Every element of a stable insertion is the inserted card or one of the
/// original pool; the length grows by one.
pub proof fn lemma_insert_sorted_elems(
    p: ScheduleParam,
    now: int,
    x: SchedulerV2Card,
    s: Seq<SchedulerV2Card>,
)
    ensures
        insert_sorted(p, now, x, s).len() == s.len() + 1,
        forall|k: int|
            0 <= k < insert_sorted(p, now, x, s).len() ==> (#[trigger] insert_sorted(
                p,
                now,
                x,
                s,
            )[k] == x || s.contains(insert_sorted(p, now, x, s)[k])),
    decreases s.len(),
{
    if s.len() > 0 && v2_le(p, now, s[0], x) {
        lemma_insert_sorted_elems(p, now, x, s.drop_first());
        let t = insert_sorted(p, now, x, s);
        let rec = insert_sorted(p, now, x, s.drop_first());
        assert forall|k: int| 0 <= k < t.len() implies (#[trigger] t[k] == x || s.contains(
            t[k],
        )) by {
            if k == 0 {
                assert(t[0] == s[0]);
                assert(s.contains(s[0]));
            } else {
                assert(t[k] == rec[k - 1]);
                if rec[k - 1] != x {
                    assert(s.drop_first().contains(rec[k - 1]));
                    let w = choose|w: int|
                        0 <= w < s.drop_first().len() && s.drop_first()[w] == rec[k - 1];
                    assert(s[w + 1] == rec[k - 1]);
                }
            }
        }
    }
}

/// Stable insertion into a sorted pool keeps it sorted.
pub proof fn lemma_insert_sorted_sorted(
    p: ScheduleParam,
    now: int,
    x: SchedulerV2Card,
    s: Seq<SchedulerV2Card>,
)
    requires
        sorted(p, now, s),
    ensures
        sorted(p, now, insert_sorted(p, now, x, s)),
    decreases s.len(),
{
    if s.len() > 0 && v2_le(p, now, s[0], x) {
        assert forall|i: int, j: int|
            0 <= i <= j < s.drop_first().len() implies v2_le(
            p,
            now,
            #[trigger] s.drop_first()[i],
            #[trigger] s.drop_first()[j],
        ) by {
            assert(s.drop_first()[i] == s[i + 1]);
            assert(s.drop_first()[j] == s[j + 1]);
        }
        lemma_insert_sorted_sorted(p, now, x, s.drop_first());
        lemma_insert_sorted_elems(p, now, x, s.drop_first());
        let t = insert_sorted(p, now, x, s);
        let rec = insert_sorted(p, now, x, s.drop_first());
        assert forall|i: int, j: int| 0 <= i <= j < t.len() implies v2_le(
            p,
            now,
            #[trigger] t[i],
            #[trigger] t[j],
        ) by {
            if i == 0 {
                if j > 0 {
                    assert(t[j] == rec[j - 1]);
                    if rec[j - 1] == x {
                    } else {
                        assert(s.drop_first().contains(rec[j - 1]));
                        let w = choose|w: int|
                            0 <= w < s.drop_first().len() && s.drop_first()[w] == rec[j - 1];
                        assert(s[w + 1] == rec[j - 1]);
                        assert(v2_le(p, now, s[0], s[w + 1]));
                    }
                }
            } else {
                assert(t[i] == rec[i - 1]);
                assert(t[j] == rec[j - 1]);
            }
        }
    }
}

/// The stable insertion sort sorts: its result is ordered and has the same
/// length.
pub proof fn lemma_sort_spec_sorted(p: ScheduleParam, now: int, s: Seq<SchedulerV2Card>)
    ensures
        sorted(p, now, sort_spec(p, now, s)),
        sort_spec(p, now, s).len() == s.len(),
    decreases s.len(),
{
    if s.len() > 0 {
        lemma_sort_spec_sorted(p, now, s.drop_last());
        lemma_insert_sorted_sorted(p, now, s.last(), sort_spec(p, now, s.drop_last()));
        lemma_insert_sorted_elems(p, now, s.last(), sort_spec(p, now, s.drop_last()));
    }
}

/// The count over a single element is its test.
pub proof fn lemma_count_singleton<T>(x: T, pred: spec_fn(T) -> bool)
    ensures
        count_matching(seq![x], pred) == if pred(x) {
            1int
        } else {
            0int
        },
{
    assert(count_matching(Seq::<T>::empty(), pred) == 0);
    assert(seq![x].drop_last() =~= Seq::<T>::empty());
    assert(seq![x].last() == x);
}

/// Counting commutes with concatenation.
pub proof fn lemma_count_concat<T>(a: Seq<T>, b: Seq<T>, pred: spec_fn(T) -> bool)
    ensures
        count_matching(a + b, pred) == count_matching(a, pred) + count_matching(b, pred),
    decreases b.len(),
{
    if b.len() == 0 {
        assert(a + b =~= a);
    } else {
        assert((a + b).drop_last() =~= a + b.drop_last());
        assert((a + b).last() == b.last());
        lemma_count_concat(a, b.drop_last(), pred);
    }
}

/// Stable insertion adds exactly the inserted card to every count.
pub proof fn lemma_insert_sorted_count(
    p: ScheduleParam,
    now: int,
    x: SchedulerV2Card,
    s: Seq<SchedulerV2Card>,
    pred: spec_fn(SchedulerV2Card) -> bool,
)
    ensures
        count_matching(insert_sorted(p, now, x, s), pred) == count_matching(s, pred) + if pred(
            x,
        ) {
            1int
        } else {
            0int
        },
    decreases s.len(),
{
    if s.len() == 0 {
        lemma_count_singleton(x, pred);
    } else if v2_le(p, now, s[0], x) {
        lemma_insert_sorted_count(p, now, x, s.drop_first(), pred);
        lemma_count_concat(seq![s[0]], insert_sorted(p, now, x, s.drop_first()), pred);
        lemma_count_singleton(s[0], pred);
        lemma_count_concat(seq![s[0]], s.drop_first(), pred);
        assert(seq![s[0]] + s.drop_first() =~= s);
    } else {
        lemma_count_concat(seq![x], s, pred);
        lemma_count_singleton(x, pred);
    }
}

/// Sorting keeps every count.
pub proof fn lemma_sort_count(
    p: ScheduleParam,
    now: int,
    s: Seq<SchedulerV2Card>,
    pred: spec_fn(SchedulerV2Card) -> bool,
)
    ensures
        count_matching(sort_spec(p, now, s), pred) == count_matching(s, pred),
    decreases s.len(),
{
    if s.len() > 0 {
        lemma_sort_count(p, now, s.drop_last(), pred);
        lemma_insert_sorted_count(p, now, s.last(), sort_spec(p, now, s.drop_last()), pred);
    }
}

/// A positive count has a witness.
pub proof fn lemma_count_pos<T>(s: Seq<T>, pred: spec_fn(T) -> bool)
    requires
        count_matching(s, pred) > 0,
    ensures
        exists|i: int| 0 <= i < s.len() && pred(#[trigger] s[i]),
    decreases s.len(),
{
    if s.len() > 0 {
        if pred(s.last()) {
            assert(pred(s[s.len() - 1]));
        } else {
            lemma_count_pos(s.drop_last(), pred);
            let i = choose|i: int| 0 <= i < s.drop_last().len() && pred(#[trigger] s.drop_last()[i]);
            assert(pred(s[i]));
        }
    }
}

/// Every element of the sorted pool satisfies what every pool element
/// satisfies.
pub proof fn lemma_sort_all(
    p: ScheduleParam,
    now: int,
    s: Seq<SchedulerV2Card>,
    pred: spec_fn(SchedulerV2Card) -> bool,
)
    requires
        forall|i: int| 0 <= i < s.len() ==> pred(#[trigger] s[i]),
    ensures
        forall|i: int|
            0 <= i < sort_spec(p, now, s).len() ==> pred(#[trigger] sort_spec(p, now, s)[i]),
    decreases s.len(),
{
    if s.len() > 0 {
        assert forall|i: int| 0 <= i < s.drop_last().len() implies pred(
            #[trigger] s.drop_last()[i],
        ) by {
            assert(s.drop_last()[i] == s[i]);
        }
        lemma_sort_all(p, now, s.drop_last(), pred);
        lemma_insert_sorted_elems(p, now, s.last(), sort_spec(p, now, s.drop_last()));
        let rec = sort_spec(p, now, s.drop_last());
        let t = sort_spec(p, now, s);
        assert forall|i: int| 0 <= i < t.len() implies pred(#[trigger] t[i]) by {
            if t[i] == s.last() {
            } else {
                assert(rec.contains(t[i]));
            }
        }
    }
}

/// A well-formed card state: learning counters sit below the mastery
/// threshold, easiness factors at or above the floor.
pub open spec fn v2_card_wf(p: ScheduleParam, c: Card) -> bool {
    match c {
        Card::New => true,
        Card::Learning { attempts, .. } => attempts < p.max_learning_attempts_spec(),
        Card::Review { easiness_factor, .. } => easiness_factor
            >= crate::scheduler::EF_FLOOR_MILLI,
    }
}

/// The pool and stack of a priority scheduler, as mathematical sequences.
pub struct V2View {
    /// Not-yet-introduced cards; the last element is the top of the stack.
    pub new_cards: Seq<SchedulerV2Card>,
    /// The active pool, kept sorted by the pool order.
    pub learning: Seq<SchedulerV2Card>,
    /// The configured parameter set.
    pub params: ScheduleParam,
}

impl V2View {
    /// Total number of cards held.
    pub open spec fn total(self) -> int {
        self.new_cards.len() + self.learning.len() as int
    }

    /// Well-formedness: well-formed card states, a fresh stack, a non-empty
    /// pool that is at capacity while unseen cards remain, and a deck that
    /// fits in a machine count.
    pub open spec fn wf(self) -> bool {
        &&& forall|i: int|
            0 <= i < self.learning.len() ==> v2_card_wf(self.params, (#[trigger] self.learning[i]).card)
        &&& forall|i: int|
            0 <= i < self.new_cards.len() ==> (#[trigger] self.new_cards[i]).card == Card::New
        &&& self.learning.len() >= 1
        &&& self.new_cards.len() > 0 ==> self.learning.len()
            >= self.params.learning_cards_spec()
        &&& self.total() <= usize::MAX
    }
}

/// Refills the pool from the unseen stack up to the configured capacity,
/// appending at the pool's end in stack order.
pub open spec fn v2_fill_spec(v: V2View) -> V2View {
    let cap = v.params.learning_cards_spec();
    if v.learning.len() < cap && v.new_cards.len() > 0 {
        let take_n = imin(cap - v.learning.len(), v.new_cards.len() as int);
        let start = v.new_cards.len() - take_n;
        V2View {
            new_cards: v.new_cards.take(start),
            learning: v.learning + v.new_cards.subrange(start, v.new_cards.len() as int).reverse(),
            ..v
        }
    } else {
        v
    }
}

/// Pulls one more unseen card whenever fewer pooled cards need learning now
/// than the capacity: the pool is momentarily too easy.
pub open spec fn v2_topup_spec(v: V2View, now: int) -> V2View {
    if v.new_cards.len() > 0 && count_matching(v.learning, needs_learning_pred(now))
        < v.params.learning_cards_spec() {
        V2View {
            new_cards: v.new_cards.drop_last(),
            learning: v.learning.push(v.new_cards.last()),
            ..v
        }
    } else {
        v
    }
}

/// Capacity control and re-sort: refill, top up, and sort the pool.
pub open spec fn v2_populate_spec(v: V2View, now: int) -> V2View {
    let v1 = v2_topup_spec(v2_fill_spec(v), now);
    V2View { learning: sort_spec(v.params, now, v1.learning), ..v1 }
}

/// The state of a freshly constructed scheduler: the reversed deck as the
/// unseen stack, the pool filled and sorted at the construction time.
pub open spec fn v2_new_spec(pending: Seq<SchedulerV2Card>, adept: bool, now: i64) -> V2View {
    v2_populate_spec(
        V2View {
            new_cards: pending.reverse(),
            learning: Seq::empty(),
            params: if adept {
                ScheduleParam::Adept
            } else {
                ScheduleParam::Novice
            },
        },
        now as int,
    )
}

/// The pool with its top two entries exchanged.
pub open spec fn swap01(s: Seq<SchedulerV2Card>) -> Seq<SchedulerV2Card> {
    seq![s[1], s[0]] + s.skip(2)
}

/// One full rating step: the top card's memory state is transitioned, the
/// pool refilled, topped up and re-sorted, and when the winner after the
/// sort is the card just rated, the top two entries are swapped.
pub open spec fn v2_rate_card_spec(v: V2View, rating: Rating, now: i64) -> V2View {
    let c0 = v.learning[0];
    let rated = V2View {
        learning: v.learning.update(
            0,
            SchedulerV2Card { zigen: c0.zigen, card: v2_rate_spec(v.params, c0.card, rating, now) },
        ),
        ..v
    };
    let v1 = v2_populate_spec(rated, now as int);
    if v1.learning.len() > 1 && v1.learning[0].zigen@ == c0.zigen@ {
        V2View { learning: swap01(v1.learning), ..v1 }
    } else {
        v1
    }
}

/// One rated card state is again well-formed.
pub proof fn lemma_v2_rate_wf(p: ScheduleParam, c: Card, rating: Rating, now: i64)
    requires
        v2_card_wf(p, c),
    ensures
        v2_card_wf(p, v2_rate_spec(p, c, rating, now)),
{
    p.lemma_tables_well_formed();
}

/// Capacity control and re-sort keep the deck: the total is conserved, card
/// states stay well-formed, and the result is well-formed and sorted.
pub proof fn lemma_v2_populate(v: V2View, now: int)
    requires
        forall|i: int|
            0 <= i < v.learning.len() ==> v2_card_wf(v.params, (#[trigger] v.learning[i]).card),
        forall|i: int|
            0 <= i < v.new_cards.len() ==> (#[trigger] v.new_cards[i]).card == Card::New,
        1 <= v.total() <= usize::MAX,
    ensures
        v2_populate_spec(v, now).total() == v.total(),
        v2_populate_spec(v, now).wf(),
        v2_populate_spec(v, now).params == v.params,
        sorted(v.params, now, v2_populate_spec(v, now).learning),
{
    v.params.lemma_tables_well_formed();
    let cap = v.params.learning_cards_spec();
    let f = v2_fill_spec(v);
    assert(f.total() == v.total());
    assert forall|i: int| 0 <= i < f.learning.len() implies v2_card_wf(
        v.params,
        (#[trigger] f.learning[i]).card,
    ) by {
        if i >= v.learning.len() {
            let start = v.new_cards.len() - imin(cap - v.learning.len(), v.new_cards.len() as int);
            assert(f.learning[i] == v.new_cards[v.new_cards.len() - 1 - (i - v.learning.len())]);
        }
    }
    assert forall|i: int| 0 <= i < f.new_cards.len() implies (#[trigger] f.new_cards[i]).card
        == Card::New by {
        assert(f.new_cards[i] == v.new_cards[i]);
    }
    assert(f.new_cards.len() > 0 ==> f.learning.len() >= cap);
    assert(f.learning.len() >= 1);
    let t = v2_topup_spec(f, now);
    assert(t.total() == f.total());
    assert forall|i: int| 0 <= i < t.learning.len() implies v2_card_wf(
        v.params,
        (#[trigger] t.learning[i]).card,
    ) by {
        if i < f.learning.len() {
            assert(t.learning[i] == f.learning[i]);
        }
    }
    let r = v2_populate_spec(v, now);
    lemma_sort_spec_sorted(v.params, now, t.learning);
    lemma_sort_all(
        v.params,
        now,
        t.learning,
        |c: SchedulerV2Card| v2_card_wf(v.params, c.card),
    );
}

/// One rating step conserves the card total and keeps the scheduler
/// well-formed.
pub proof fn lemma_v2_rate_preserves(v: V2View, rating: Rating, now: i64)
    requires
        v.wf(),
    ensures
        v2_rate_card_spec(v, rating, now).wf(),
        v2_rate_card_spec(v, rating, now).total() == v.total(),
        v2_rate_card_spec(v, rating, now).params == v.params,
{
    v.params.lemma_tables_well_formed();
    let c0 = v.learning[0];
    lemma_v2_rate_wf(v.params, c0.card, rating, now);
    let rated = V2View {
        learning: v.learning.update(
            0,
            SchedulerV2Card { zigen: c0.zigen, card: v2_rate_spec(v.params, c0.card, rating, now) },
        ),
        ..v
    };
    assert forall|i: int| 0 <= i < rated.learning.len() implies v2_card_wf(
        v.params,
        (#[trigger] rated.learning[i]).card,
    ) by {
        if i != 0 {
            assert(rated.learning[i] == v.learning[i]);
        }
    }
    lemma_v2_populate(rated, now as int);
    let v1 = v2_populate_spec(rated, now as int);
    if v1.learning.len() > 1 && v1.learning[0].zigen@ == c0.zigen@ {
        let w = swap01(v1.learning);
        assert(w.len() == v1.learning.len());
        assert forall|i: int| 0 <= i < w.len() implies v2_card_wf(
            v.params,
            (#[trigger] w[i]).card,
        ) by {
            if i == 0 {
                assert(w[0] == v1.learning[1]);
            } else if i == 1 {
                assert(w[1] == v1.learning[0]);
            } else {
                assert(w[i] == v1.learning[i]);
            }
        }
    }
}

/// A whole session under the priority scheduler: the state after a
/// sequence of rating steps, each with its own timestamp.
pub open spec fn v2_run_spec(v: V2View, steps: Seq<(Rating, i64)>) -> V2View
    decreases steps.len(),
{
    if steps.len() == 0 {
        v
    } else {
        v2_run_spec(v2_rate_card_spec(v, steps[0].0, steps[0].1), steps.drop_first())
    }
}

/// Conservation: across every sequence of ratings the priority scheduler
/// keeps its card total and stays well-formed.
pub proof fn lemma_v2_conservation(v: V2View, steps: Seq<(Rating, i64)>)
    requires
        v.wf(),
    ensures
        v2_run_spec(v, steps).wf(),
        v2_run_spec(v, steps).total() == v.total(),
        v2_run_spec(v, steps).params == v.params,
    decreases steps.len(),
{
    if steps.len() > 0 {
        lemma_v2_rate_preserves(v, steps[0].0, steps[0].1);
        lemma_v2_conservation(v2_rate_card_spec(v, steps[0].0, steps[0].1), steps.drop_first());
    }
}

/// The "carries this zigen" test, as a function value, for counting.
pub open spec fn zigen_pred(z: SchemeZigenV<GroupListV>) -> spec_fn(SchedulerV2Card) -> bool {
    |c: SchedulerV2Card| c.zigen@ == z
}

/// No two cards of the sequence carry the same zigen.
pub open spec fn zigens_unique(s: Seq<SchedulerV2Card>) -> bool {
    forall|i: int, j: int|
        0 <= i < j < s.len() ==> (#[trigger] s[i]).zigen@ != (#[trigger] s[j]).zigen@
}

/// Nothing matches, nothing is counted.
pub proof fn lemma_count_zero<T>(s: Seq<T>, pred: spec_fn(T) -> bool)
    requires
        forall|i: int| 0 <= i < s.len() ==> !pred(#[trigger] s[i]),
    ensures
        count_matching(s, pred) == 0,
    decreases s.len(),
{
    if s.len() > 0 {
        assert forall|i: int| 0 <= i < s.drop_last().len() implies !pred(
            #[trigger] s.drop_last()[i],
        ) by {
            assert(s.drop_last()[i] == s[i]);
        }
        lemma_count_zero(s.drop_last(), pred);
        assert(!pred(s[s.len() - 1]));
    }
}

/// A match at one index makes the count at least one.
pub proof fn lemma_count_one_index<T>(s: Seq<T>, pred: spec_fn(T) -> bool, i: int)
    requires
        0 <= i < s.len(),
        pred(s[i]),
    ensures
        count_matching(s, pred) >= 1,
    decreases s.len(),
{
    lemma_count_bounds(s.drop_last(), pred);
    if i == s.len() - 1 {
        assert(pred(s.last()));
    } else {
        assert(s.drop_last()[i] == s[i]);
        lemma_count_one_index(s.drop_last(), pred, i);
    }
}

/// Matches at two distinct indices make the count at least two.
pub proof fn lemma_count_two_indices<T>(s: Seq<T>, pred: spec_fn(T) -> bool, i: int, j: int)
    requires
        0 <= i < j < s.len(),
        pred(s[i]),
        pred(s[j]),
    ensures
        count_matching(s, pred) >= 2,
    decreases s.len(),
{
    if j == s.len() - 1 {
        assert(pred(s.last()));
        assert(s.drop_last()[i] == s[i]);
        lemma_count_one_index(s.drop_last(), pred, i);
    } else {
        assert(s.drop_last()[i] == s[i]);
        assert(s.drop_last()[j] == s[j]);
        lemma_count_two_indices(s.drop_last(), pred, i, j);
        lemma_count_bounds(s.drop_last(), pred);
    }
}

/// The count of a non-empty sequence splits off its first element.
pub proof fn lemma_count_first<T>(s: Seq<T>, pred: spec_fn(T) -> bool)
    requires
        s.len() > 0,
    ensures
        count_matching(s, pred) == (if pred(s[0]) {
            1int
        } else {
            0int
        }) + count_matching(s.drop_first(), pred),
{
    assert(s =~= seq![s[0]] + s.drop_first());
    lemma_count_singleton(s[0], pred);
    lemma_count_concat(seq![s[0]], s.drop_first(), pred);
}

/// No-repeat guarantee: when the deck's zigens are pairwise distinct and at
/// least two cards remain pooled after a rating, the newly selected top card
/// never carries the zigen of the card just rated.
///
/// A deck with duplicate zigens can defeat the guarantee: with two pooled
/// cards carrying the same zigen, the swap can surface the twin of the card
/// just rated.
pub proof fn lemma_no_repeat(v: V2View, rating: Rating, now: i64)
    requires
        v.wf(),
        zigens_unique(v.learning + v.new_cards),
        v2_rate_card_spec(v, rating, now).learning.len() >= 2,
    ensures
        v2_rate_card_spec(v, rating, now).learning[0].zigen@ != v.learning[0].zigen@,
{
    let c0 = v.learning[0];
    let anchor = c0.zigen@;
    let zp = zigen_pred(anchor);
    let all = v.learning + v.new_cards;
    let rated = V2View {
        learning: v.learning.update(
            0,
            SchedulerV2Card { zigen: c0.zigen, card: v2_rate_spec(v.params, c0.card, rating, now) },
        ),
        ..v
    };
    // The rated pool holds the anchor zigen exactly once.
    assert forall|i: int| 0 <= i < rated.learning.drop_first().len() implies !zp(
        #[trigger] rated.learning.drop_first()[i],
    ) by {
        assert(rated.learning.drop_first()[i] == v.learning[i + 1]);
        assert(all[0] == v.learning[0]);
        assert(all[i + 1] == v.learning[i + 1]);
    }
    lemma_count_zero(rated.learning.drop_first(), zp);
    lemma_count_first(rated.learning, zp);
    assert(count_matching(rated.learning, zp) == 1);
    // Refill and top-up add only unseen cards, none with the anchor zigen.
    let f = v2_fill_spec(rated);
    assert(count_matching(f.learning, zp) == 1) by {
        if rated.learning.len() < v.params.learning_cards_spec() && rated.new_cards.len() > 0 {
            let start = rated.new_cards.len() - imin(
                v.params.learning_cards_spec() - rated.learning.len(),
                rated.new_cards.len() as int,
            );
            let appended = rated.new_cards.subrange(start, rated.new_cards.len() as int).reverse();
            assert forall|i: int| 0 <= i < appended.len() implies !zp(#[trigger] appended[i]) by {
                let k = rated.new_cards.len() - 1 - i;
                assert(appended[i] == v.new_cards[k]);
                assert(all[0] == v.learning[0]);
                assert(all[v.learning.len() + k] == v.new_cards[k]);
            }
            lemma_count_zero(appended, zp);
            lemma_count_concat(rated.learning, appended, zp);
        }
    }
    let t = v2_topup_spec(f, now as int);
    assert(count_matching(t.learning, zp) == 1) by {
        if f.new_cards.len() > 0 && count_matching(f.learning, needs_learning_pred(now as int))
            < v.params.learning_cards_spec() {
            let x = f.new_cards.last();
            assert(!zp(x)) by {
                if f.new_cards.len() == rated.new_cards.len() {
                    let k = v.new_cards.len() - 1;
                    assert(x == v.new_cards[k]);
                    assert(all[0] == v.learning[0]);
                    assert(all[v.learning.len() + k] == v.new_cards[k]);
                } else {
                    let start = rated.new_cards.len() - imin(
                        v.params.learning_cards_spec() - rated.learning.len(),
                        rated.new_cards.len() as int,
                    );
                    assert(x == rated.new_cards.take(start)[start - 1]);
                    assert(x == v.new_cards[start - 1]);
                    assert(all[0] == v.learning[0]);
                    assert(all[v.learning.len() + start - 1] == v.new_cards[start - 1]);
                }
            }
            assert(t.learning =~= f.learning + seq![x]);
            lemma_count_singleton(x, zp);
            lemma_count_concat(f.learning, seq![x], zp);
        }
    }
    let sorted_pool = sort_spec(v.params, now as int, t.learning);
    lemma_sort_count(v.params, now as int, t.learning, zp);
    assert(count_matching(sorted_pool, zp) == 1);
    let v1 = v2_populate_spec(rated, now as int);
    assert(v1.learning == sorted_pool);
    let w = v2_rate_card_spec(v, rating, now);
    if v1.learning.len() > 1 && v1.learning[0].zigen@ == anchor {
        assert(w.learning == swap01(v1.learning));
        assert(w.learning[0] == v1.learning[1]);
        if w.learning[0].zigen@ == anchor {
            lemma_count_two_indices(v1.learning, zp, 0, 1);
        }
    } else {
        assert(w == v1);
    }
}

/// Stable insertion lands exactly at the first position whose card comes
/// strictly later than the inserted one.
pub proof fn lemma_insert_sorted_at(
    p: ScheduleParam,
    now: int,
    x: SchedulerV2Card,
    s: Seq<SchedulerV2Card>,
    k: int,
)
    requires
        0 <= k <= s.len(),
        forall|j: int| 0 <= j < k ==> v2_le(p, now, #[trigger] s[j], x),
        k < s.len() ==> !v2_le(p, now, s[k], x),
    ensures
        insert_sorted(p, now, x, s) == s.take(k) + seq![x] + s.skip(k),
    decreases k,
{
    if s.len() == 0 {
        assert(insert_sorted(p, now, x, s) =~= s.take(k) + seq![x] + s.skip(k));
    } else if k == 0 {
        assert(insert_sorted(p, now, x, s) =~= s.take(0) + seq![x] + s.skip(0));
    } else {
        assert(v2_le(p, now, s[0], x));
        let rest = s.drop_first();
        assert forall|j: int| 0 <= j < k - 1 implies v2_le(p, now, #[trigger] rest[j], x) by {
            assert(rest[j] == s[j + 1]);
        }
        assert(k - 1 < rest.len() ==> !v2_le(p, now, rest[k - 1], x));
        lemma_insert_sorted_at(p, now, x, rest, k - 1);
        assert(seq![s[0]] + (rest.take(k - 1) + seq![x] + rest.skip(k - 1)) =~= s.take(k)
            + seq![x] + s.skip(k));
    }
}

/// Whether one card comes no later than another in the pool order.
fn v2_card_le(p: &ScheduleParam, now: i64, a: &SchedulerV2Card, b: &SchedulerV2Card) -> (r: bool)
    ensures
        r == v2_le(*p, now as int, *a, *b),
{
    let ta = v2_card_tier(now, &a.card);
    let tb = v2_card_tier(now, &b.card);
    if ta != tb {
        ta < tb
    } else {
        v2_card_key(p, &a.card) <= v2_card_key(p, &b.card)
    }
}

/// The precedence tier of a card.
fn v2_card_tier(now: i64, c: &Card) -> (t: u8)
    ensures
        t as int == v2_tier(*c, now as int),
{
    match c {
        Card::Review { due, .. } => if *due < now {
            0
        } else {
            3
        },
        Card::New => 1,
        Card::Learning { .. } => 2,
    }
}

/// The in-tier ordering key of a card.
fn v2_card_key(p: &ScheduleParam, c: &Card) -> (k: i64)
    ensures
        k as int == v2_key(*p, *c, 0) && k as int == v2_key(*p, *c, 1),
{
    match c {
        Card::Review { due, .. } => *due,
        Card::New => 0,
        Card::Learning { attempts, .. } => {
            proof {
                p.lemma_tables_well_formed();
            }
            let len = match p {
                ScheduleParam::Novice => 3usize,
                ScheduleParam::Adept => 2usize,
            };
            if *attempts >= 0 {
                let idx: usize = if (*attempts as usize) < len - 1 {
                    *attempts as usize
                } else {
                    len - 1
                };
                p.learning_interval_s_at(idx) as i64
            } else {
                let mag: i64 = -(*attempts as i64) - 1;
                let idx: usize = if mag < (len - 1) as i64 {
                    mag as usize
                } else {
                    len - 1
                };
                p.learning_interval_f_at(idx) as i64
            }
        },
    }
}

/// Sorts a pool by the pool order with a stable insertion sort.
fn sort_cards(cards: Vec<SchedulerV2Card>, p: &ScheduleParam, now: i64) -> (r: Vec<
    SchedulerV2Card,
>)
    ensures
        r@ == sort_spec(*p, now as int, cards@),
{
    let ghost orig = cards@;
    let mut cards = cards;
    let mut out: Vec<SchedulerV2Card> = Vec::new();
    proof {
        assert(cards@ =~= orig.skip(0));
    }
    while cards.len() > 0
        invariant
            cards@.len() <= orig.len(),
            cards@ == orig.skip(orig.len() - cards@.len()),
            out@ == sort_spec(*p, now as int, orig.take(orig.len() - cards@.len())),
        decreases cards@.len(),
    {
        let ghost i = orig.len() - cards@.len();
        let x = cards.remove(0);
        proof {
            assert(orig.skip(i)[0] == orig[i]);
            assert(x == orig[i]);
            assert(cards@ =~= orig.skip(i + 1));
        }
        let mut k: usize = 0;
        while k < out.len() && v2_card_le(p, now, &out[k], &x)
            invariant
                k <= out@.len(),
                forall|j: int| 0 <= j < k ==> v2_le(*p, now as int, #[trigger] out@[j], x),
            decreases out@.len() - k,
        {
            k = k + 1;
        }
        proof {
            lemma_insert_sorted_at(*p, now as int, x, out@, k as int);
        }
        let ghost out_pre = out@;
        out.insert(k, x);
        proof {
            assert(out@ =~= out_pre.take(k as int) + seq![x] + out_pre.skip(k as int));
            assert(orig.take(i + 1).drop_last() =~= orig.take(i));
            assert(orig.take(i + 1).last() == orig[i]);
            assert(out@ == sort_spec(*p, now as int, orig.take(i + 1)));
        }
    }
    proof {
        assert(orig.take(orig.len() as int) =~= orig);
    }
    out
}

/// Applies one rating to a card's memory state.
fn v2_rate_card_state(p: &ScheduleParam, c: &Card, rating: Rating, now: i64) -> (r: Card)
    requires
        v2_card_wf(*p, *c),
    ensures
        r == v2_rate_spec(*p, *c, rating, now),
{
    proof {
        p.lemma_tables_well_formed();
    }
    match c {
        Card::New => Card::Learning { attempts: 0, last_reviewed: now },
        Card::Learning { attempts, .. } => {
            let a2 = attempts_after(*attempts, rating == Rating::Again);
            let max = p.max_learning_attempts();
            if a2 >= max as i32 {
                Card::Review {
                    last_interval: 10,
                    repetition: 1,
                    easiness_factor: EF_START_MILLI,
                    last_reviewed: now,
                    due: sat_add_i64(now, V2_PROMOTED_DUE_S),
                }
            } else {
                Card::Learning { attempts: a2, last_reviewed: now }
            }
        },
        Card::Review { last_interval, repetition, easiness_factor, .. } => {
            let li2: u64 = if *repetition == 0 {
                5
            } else if *repetition == 1 {
                15
            } else if *repetition == 2 {
                30
            } else {
                v2_next_interval(*last_interval, *easiness_factor)
            };
            let rep2: usize = if rating != Rating::Again {
                if *repetition == usize::MAX {
                    usize::MAX
                } else {
                    *repetition + 1
                }
            } else {
                0
            };
            let dur: i64 = if li2 > (i64::MAX / 30) as u64 {
                i64::MAX
            } else {
                30 * (li2 as i64)
            };
            proof {
                assert(dur as int == v2_due_distance_spec(li2));
            }
            Card::Review {
                last_interval: li2,
                repetition: rep2,
                easiness_factor: crate::scheduler::ef_after(
                    *easiness_factor,
                    rating.difficulty(),
                ),
                last_reviewed: now,
                due: sat_add_i64(now, dur),
            }
        },
    }
}

/// The priority scheduler: an unseen stack and one continuously re-sorted
/// pool of active cards.
#[derive(Clone, Debug)]
pub struct SchedulerV2 {
    new_cards: Vec<SchedulerV2Card>,
    learning_cards: Vec<SchedulerV2Card>,
    sched_param: ScheduleParam,
}

impl View for SchedulerV2 {
    type V = V2View;

    closed spec fn view(&self) -> V2View {
        V2View {
            new_cards: self.new_cards@,
            learning: self.learning_cards@,
            params: self.sched_param,
        }
    }
}

impl SchedulerV2 {
    /// Refills the pool from the unseen stack up to capacity.
    fn fill_pool(&mut self)
        ensures
            final(self)@ == v2_fill_spec(old(self)@),
    {
        let cap = self.sched_param.learning_cards();
        let ghost orig_new = self.new_cards@;
        let ghost orig_learning = self.learning_cards@;
        proof {
            assert(orig_new.subrange(orig_new.len() as int, orig_new.len() as int).reverse()
                =~= Seq::<SchedulerV2Card>::empty());
            assert(orig_learning + orig_new.subrange(
                orig_new.len() as int,
                orig_new.len() as int,
            ).reverse() =~= orig_learning);
        }
        while self.learning_cards.len() < cap && self.new_cards.len() > 0
            invariant
                cap == self.sched_param.learning_cards_spec(),
                self.sched_param == old(self)@.params,
                self.new_cards@.len() <= orig_new.len(),
                self.new_cards@ == orig_new.take(self.new_cards@.len() as int),
                self.learning_cards@ == orig_learning + orig_new.subrange(
                    self.new_cards@.len() as int,
                    orig_new.len() as int,
                ).reverse(),
                self.learning_cards@.len() > orig_learning.len() ==> self.learning_cards@.len()
                    <= cap,
                orig_new == old(self)@.new_cards,
                orig_learning == old(self)@.learning,
            decreases self.new_cards@.len(),
        {
            let ghost n = self.new_cards@.len() as int;
            let c = self.new_cards.pop().unwrap();
            proof {
                assert(self.new_cards@ =~= orig_new.take(n - 1));
                assert(c == orig_new[n - 1]);
            }
            self.learning_cards.push(c);
            proof {
                assert(self.learning_cards@ =~= orig_learning + orig_new.subrange(
                    n - 1,
                    orig_new.len() as int,
                ).reverse());
            }
        }
        proof {
            let v = old(self)@;
            let take_n = imin(cap - v.learning.len(), v.new_cards.len() as int);
            if v.learning.len() < cap && v.new_cards.len() > 0 {
                assert(self.new_cards@.len() == v.new_cards.len() - take_n);
                assert(final(self)@ == v2_fill_spec(v));
            } else {
                assert(self.learning_cards@ =~= orig_learning);
                assert(self.new_cards@ =~= orig_new);
            }
        }
    }

    /// How many pooled cards still need learning work now.
    fn count_needs_learning(&self, now: i64) -> (n: usize)
        ensures
            n == count_matching(self@.learning, needs_learning_pred(now as int)),
    {
        let ghost p = needs_learning_pred(now as int);
        let mut cnt: usize = 0;
        let mut i: usize = 0;
        proof {
            lemma_count_bounds(self.learning_cards@, p);
        }
        while i < self.learning_cards.len()
            invariant
                i <= self.learning_cards@.len(),
                cnt <= i,
                p == needs_learning_pred(now as int),
                cnt == count_matching(self.learning_cards@.take(i as int), p),
            decreases self.learning_cards@.len() - i,
        {
            let c = &self.learning_cards[i];
            let needs = match c.card {
                Card::New => true,
                Card::Learning { .. } => true,
                Card::Review { due, .. } => due < now,
            };
            proof {
                lemma_count_take_step(self.learning_cards@, p, i as int);
                assert(needs == p(self.learning_cards@[i as int]));
            }
            if needs {
                cnt = cnt + 1;
            }
            i = i + 1;
        }
        proof {
            assert(self.learning_cards@.take(self.learning_cards@.len() as int)
                =~= self.learning_cards@);
        }
        cnt
    }

    /// Capacity control and re-sort, as one exec step.
    fn populate_at(&mut self, now: i64)
        ensures
            final(self)@ == v2_populate_spec(old(self)@, now as int),
    {
        self.fill_pool();
        let ghost f = self@;
        let cap = self.sched_param.learning_cards();
        if self.new_cards.len() > 0 {
            let cnt = self.count_needs_learning(now);
            if cnt < cap {
                let c = self.new_cards.pop().unwrap();
                self.learning_cards.push(c);
            }
        }
        proof {
            assert(self@ == v2_topup_spec(f, now as int));
        }
        let ghost t = self@;
        let mut cards: Vec<SchedulerV2Card> = Vec::new();
        core::mem::swap(&mut cards, &mut self.learning_cards);
        let sorted_cards = sort_cards(cards, &self.sched_param, now);
        self.learning_cards = sorted_cards;
        proof {
            assert(self@ == v2_populate_spec(old(self)@, now as int));
        }
    }

    /// Builds a scheduler from the deck, all cards unseen, fills the pool
    /// and sorts it. The current wall-clock time seeds the first sort;
    /// every contract holds for any value of it.
    pub fn new(pending_cards: Vec<SchedulerV2Card>, adept: bool) -> (s: Self)
        requires
            pending_cards@.len() >= 1,
            forall|i: int|
                0 <= i < pending_cards@.len() ==> (#[trigger] pending_cards@[i]).card == Card::New,
        ensures
            exists|now: i64| s@ == #[trigger] v2_new_spec(pending_cards@, adept, now),
            s@.wf(),
            s@.total() == pending_cards@.len(),
            s@.params == if adept {
                ScheduleParam::Adept
            } else {
                ScheduleParam::Novice
            },
    {
        let now = crate::clock::now_timestamp();
        let ghost orig = pending_cards@;
        let mut pending = pending_cards;
        let mut stack: Vec<SchedulerV2Card> = Vec::new();
        proof {
            assert(pending@ =~= orig.take(pending@.len() as int));
            assert(stack@ =~= orig.skip(pending@.len() as int).reverse());
        }
        while pending.len() > 0
            invariant
                pending@.len() <= orig.len(),
                pending@ == orig.take(pending@.len() as int),
                stack@ == orig.skip(pending@.len() as int).reverse(),
            decreases pending@.len(),
        {
            let ghost n = pending@.len() as int;
            let c = pending.pop().unwrap();
            proof {
                assert(pending@ =~= orig.take(n - 1));
                assert(c == orig[n - 1]);
            }
            stack.push(c);
            proof {
                assert(stack@ =~= orig.skip(n - 1).reverse());
            }
        }
        proof {
            assert(stack@ =~= orig.reverse());
        }
        let mut this = SchedulerV2 {
            new_cards: stack,
            learning_cards: Vec::new(),
            sched_param: if adept {
                ScheduleParam::Adept
            } else {
                ScheduleParam::Novice
            },
        };
        let stack_len = this.new_cards.len();
        proof {
            let v0 = this@;
            assert(v0.total() == stack_len);
            assert forall|i: int| 0 <= i < v0.new_cards.len() implies (#[trigger] v0.new_cards[i]).card
                == Card::New by {
                assert(v0.new_cards[i] == orig[orig.len() - 1 - i]);
            }
            lemma_v2_populate(v0, now as int);
        }
        let ghost v0 = this@;
        this.populate_at(now);
        proof {
            assert(v0 == V2View {
                new_cards: orig.reverse(),
                learning: Seq::<SchedulerV2Card>::empty(),
                params: if adept {
                    ScheduleParam::Adept
                } else {
                    ScheduleParam::Novice
                },
            });
            assert(this@ == v2_new_spec(orig, adept, now));
        }
        this
    }

    /// Whether the scheduler uses the parameter set for experienced users.
    pub fn is_adept(&self) -> (b: bool)
        ensures
            b == (self@.params == ScheduleParam::Adept),
    {
        match self.sched_param {
            ScheduleParam::Adept => true,
            ScheduleParam::Novice => false,
        }
    }

    /// The card to present next: the top of the sorted pool. Read-only and
    /// idempotent.
    pub fn get_card(&self) -> (c: &SchedulerV2Card)
        requires
            self@.wf(),
        ensures
            *c == self@.learning[0],
    {
        &self.learning_cards[0]
    }

    /// Applies a rating to the presented card at the given time: the top
    /// card's memory state transitions, the pool is refilled, topped up and
    /// re-sorted, and the top two entries are swapped when the winner is the
    /// card just rated. The full effect is pinned by `v2_rate_card_spec`;
    /// the card total is conserved.
    pub fn rate_card_at(&mut self, rating: Rating, now: i64)
        requires
            old(self)@.wf(),
        ensures
            final(self)@ == v2_rate_card_spec(old(self)@, rating, now),
            final(self)@.wf(),
            final(self)@.total() == old(self)@.total(),
    {
        proof {
            lemma_v2_rate_preserves(old(self)@, rating, now);
        }
        let ghost v = self@;
        let mut c0 = self.learning_cards.remove(0);
        let anchor = crate::scheme::clone_scheme_zigen(&c0.zigen);
        let new_state = v2_rate_card_state(&self.sched_param, &c0.card, rating, now);
        c0.card = new_state;
        self.learning_cards.insert(0, c0);
        proof {
            assert(self.learning_cards@ =~= v.learning.update(
                0,
                SchedulerV2Card {
                    zigen: v.learning[0].zigen,
                    card: v2_rate_spec(v.params, v.learning[0].card, rating, now),
                },
            ));
        }
        self.populate_at(now);
        let ghost v1 = self@;
        if self.learning_cards.len() > 1 && scheme_zigen_eq(
            &self.learning_cards[0].zigen,
            &anchor,
        ) {
            let a = self.learning_cards.remove(0);
            self.learning_cards.insert(1, a);
            proof {
                assert(self.learning_cards@ =~= swap01(v1.learning));
            }
        }
        proof {
            assert(self@ == v2_rate_card_spec(v, rating, now));
        }
    }

    /// Applies a rating at the current wall-clock time. Whatever the clock
    /// returns, the effect is one `v2_rate_card_spec` step.
    pub fn rate_card(&mut self, rating: Rating)
        requires
            old(self)@.wf(),
        ensures
            exists|now: i64| final(self)@ == v2_rate_card_spec(old(self)@, rating, now),
            final(self)@.wf(),
            final(self)@.total() == old(self)@.total(),
    {
        let now = crate::clock::now_timestamp();
        self.rate_card_at(rating, now);
        proof {
            assert(self@ == v2_rate_card_spec(old(self)@, rating, now));
        }
    }

    /// How many cards have at least entered study.
    pub fn reviewed_cards(&self) -> (n: usize)
        ensures
            n == self@.learning.len() - count_matching(self@.learning, v2_new_pred()),
    {
        let ghost p = v2_new_pred();
        let mut cnt: usize = 0;
        let mut i: usize = 0;
        while i < self.learning_cards.len()
            invariant
                i <= self.learning_cards@.len(),
                cnt <= i,
                p == v2_new_pred(),
                cnt == count_matching(self.learning_cards@.take(i as int), p),
            decreases self.learning_cards@.len() - i,
        {
            let isn = self.learning_cards[i].card == Card::New;
            proof {
                lemma_count_take_step(self.learning_cards@, p, i as int);
            }
            if isn {
                cnt = cnt + 1;
            }
            i = i + 1;
        }
        proof {
            assert(self.learning_cards@.take(self.learning_cards@.len() as int)
                =~= self.learning_cards@);
            lemma_count_bounds(self.learning_cards@, p);
        }
        self.learning_cards.len() - cnt
    }

    /// The total number of cards held, conserved across every rating.
    pub fn total_cards(&self) -> (n: usize)
        requires
            self@.total() <= usize::MAX,
        ensures
            n == self@.total(),
    {
        self.new_cards.len() + self.learning_cards.len()
    }
}

} // verus!
