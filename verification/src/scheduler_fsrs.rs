//! The retrievability scheduler: a pool ordered by a continuous
//! forgetting-curve model.
//!
//! A reviewed card carries `stability` and `difficulty`; its retrievability
//! after `t` elapsed seconds is `R(t) = (1 + F*t/S)^(-w)` for fixed positive
//! constants `F` and `w`. That function is strictly decreasing in `t/S`, so
//! every comparison the scheduler makes — ordering the pool ascending by
//! retrievability, or testing retrievability against the retention target —
//! is exactly an integer comparison of cross products, which this module
//! performs and verifies without any floating point. Stability is kept in
//! millionths of a day, difficulty in millionths; the update formulas that
//! produce new stability and difficulty values are continuous-model
//! arithmetic and live with the caller, which hands the updated memory back
//! through `set_top_memory`.

use vstd::prelude::*;

use crate::scheduler::{
    count_matching, lemma_count_bounds, lemma_count_take_step,
};
use crate::scheme::{SchemeZigen, ZigenConfusable};

verus! {

/// The pool is topped up from the unseen stack until it holds this many
/// cards.
pub const MINIMUM_LEARNING_CARDS: usize = 8;

/// Upper bound on a stability value, in millionths of a day (a billion
/// days), so that every cross product the scheduler compares fits
/// comfortably in `i128`.
pub const STABILITY_MAX_MICRO: u64 = 1_000_000_000_000_000;

/// The retention target as a ratio of elapsed time to stability:
/// retrievability exceeds 0.85 exactly when `t/S` lies below
/// `((1/0.85)^(1/w) - 1) / ((1/0.9)^(1/w) - 1)` for the decay `w = 11111`,
/// which this numerator over the denominator below states to six decimal
/// places.
pub const GOOD_RETENTION_NUM: i64 = 1542507;

/// Denominator of the retention-target ratio.
pub const GOOD_RETENTION_DEN: i64 = 1000000;

/// Memory state of a card under the retrievability scheduler. `stability`
/// is in millionths of a day (always positive), `difficulty` in millionths,
/// `last_reviewed` in seconds.
#[derive(Clone, Copy, Debug, PartialEq, Eq, Structural)]
pub enum Card {
    /// Never studied; its retrievability counts as zero.
    New,
    /// Studied; due-ness is derived continuously from elapsed time.
    Review { stability: u64, difficulty: i64, last_reviewed: i64 },
}

/// A zigen together with its memory state.
#[derive(Clone, Debug)]
pub struct FsrsSchedulerCard {
    pub zigen: SchemeZigen<ZigenConfusable>,
    pub card: Card,
}

impl FsrsSchedulerCard {
    /// True exactly when the card was never studied.
    pub fn is_new_card(&self) -> (b: bool)
        ensures
            b == (self.card == Card::New),
    {
        self.card == Card::New
    }
}

/// A well-formed memory state: a studied card's stability is positive and
/// bounded.
pub open spec fn fsrs_card_wf(c: Card) -> bool {
    match c {
        Card::New => true,
        Card::Review { stability, .. } => 0 < stability <= STABILITY_MAX_MICRO,
    }
}

/// Retrievability `R(t1, s1)` lies strictly below `R(t2, s2)`: since `R` is
/// strictly decreasing in `t/S`, that is exactly `t1*s2 > t2*s1` for
/// positive stabilities.
pub open spec fn retrievability_below(t1: int, s1: int, t2: int, s2: int) -> bool {
    t1 * s2 > t2 * s1
}

/// Retrievability monotonicity: for a fixed stability, retrievability
/// strictly decreases as elapsed time grows.
pub proof fn lemma_retrievability_strictly_decreasing(s: int, t1: int, t2: int)
    requires
        s > 0,
        t1 < t2,
    ensures
        retrievability_below(t2, s, t1, s),
{
    assert(t2 * s > t1 * s) by (nonlinear_arith)
        requires
            s > 0,
            t1 < t2,
    ;
}

/// Retrievability after `t` elapsed seconds exceeds the retention target:
/// exactly when `t/S` is below the target ratio. A fresh card never does
/// (its retrievability counts as zero).
pub open spec fn well_studied(c: Card, now: int) -> bool {
    match c {
        Card::New => false,
        Card::Review { stability, last_reviewed, .. } => (now - last_reviewed)
            * GOOD_RETENTION_DEN < stability * GOOD_RETENTION_NUM,
    }
}

/// The "well studied now" test, as a function value, for counting.
pub open spec fn well_studied_pred(now: int) -> spec_fn(FsrsSchedulerCard) -> bool {
    |c: FsrsSchedulerCard| well_studied(c.card, now)
}

/// The "never studied" test, as a function value, for counting.
pub open spec fn fsrs_new_pred() -> spec_fn(FsrsSchedulerCard) -> bool {
    |c: FsrsSchedulerCard| c.card == Card::New
}

/// The pool order: ascending retrievability. A fresh card (retrievability
/// zero) comes before every studied one; studied cards compare by the exact
/// cross product, most-at-risk first.
pub open spec fn fsrs_le(now: int, a: FsrsSchedulerCard, b: FsrsSchedulerCard) -> bool {
    match (a.card, b.card) {
        (Card::New, _) => true,
        (Card::Review { .. }, Card::New) => false,
        (
            Card::Review { stability: s1, last_reviewed: l1, .. },
            Card::Review { stability: s2, last_reviewed: l2, .. },
        ) => (now - l1) * s2 >= (now - l2) * s1,
    }
}

/// The pool order is transitive over well-formed cards.
pub proof fn lemma_fsrs_le_trans(
    now: int,
    a: FsrsSchedulerCard,
    b: FsrsSchedulerCard,
    c: FsrsSchedulerCard,
)
    requires
        fsrs_card_wf(a.card),
        fsrs_card_wf(b.card),
        fsrs_card_wf(c.card),
        fsrs_le(now, a, b),
        fsrs_le(now, b, c),
    ensures
        fsrs_le(now, a, c),
{
    match (a.card, b.card, c.card) {
        (
            Card::Review { stability: s1, last_reviewed: l1, .. },
            Card::Review { stability: s2, last_reviewed: l2, .. },
            Card::Review { stability: s3, last_reviewed: l3, .. },
        ) => {
            let t1 = now - l1;
            let t2 = now - l2;
            let t3 = now - l3;
            assert(t1 * s3 >= t3 * s1) by (nonlinear_arith)
                requires
                    s1 > 0,
                    s2 > 0,
                    s3 > 0,
                    t1 * s2 >= t2 * s1,
                    t2 * s3 >= t3 * s2,
            ;
        },
        _ => {},
    }
}

/// Stable insertion of a card into a sorted pool.
pub open spec fn fsrs_insert_sorted(
    now: int,
    x: FsrsSchedulerCard,
    s: Seq<FsrsSchedulerCard>,
) -> Seq<FsrsSchedulerCard>
    decreases s.len(),
{
    if s.len() == 0 {
        seq![x]
    } else if fsrs_le(now, s[0], x) {
        seq![s[0]] + fsrs_insert_sorted(now, x, s.drop_first())
    } else {
        seq![x] + s
    }
}

/// Stable insertion sort of the pool by ascending retrievability.
pub open spec fn fsrs_sort_spec(now: int, s: Seq<FsrsSchedulerCard>) -> Seq<FsrsSchedulerCard>
    decreases s.len(),
{
    if s.len() == 0 {
        s
    } else {
        fsrs_insert_sorted(now, s.last(), fsrs_sort_spec(now, s.drop_last()))
    }
}

/// A pool is sorted when every earlier card's retrievability is no higher.
pub open spec fn fsrs_sorted(now: int, s: Seq<FsrsSchedulerCard>) -> bool {
    forall|i: int, j: int|
        0 <= i <= j < s.len() ==> fsrs_le(now, #[trigger] s[i], #[trigger] s[j])
}

/// Every element of a stable insertion is the inserted card or one of the
/// original pool; the length grows by one.
pub proof fn lemma_fsrs_insert_elems(now: int, x: FsrsSchedulerCard, s: Seq<FsrsSchedulerCard>)
    ensures
        fsrs_insert_sorted(now, x, s).len() == s.len() + 1,
        forall|k: int|
            0 <= k < fsrs_insert_sorted(now, x, s).len() ==> (#[trigger] fsrs_insert_sorted(
                now,
                x,
                s,
            )[k] == x || s.contains(fsrs_insert_sorted(now, x, s)[k])),
    decreases s.len(),
{
    if s.len() > 0 && fsrs_le(now, s[0], x) {
        lemma_fsrs_insert_elems(now, x, s.drop_first());
        let t = fsrs_insert_sorted(now, x, s);
        let rec = fsrs_insert_sorted(now, x, s.drop_first());
        assert forall|k: int| 0 <= k < t.len() implies (#[trigger] t[k] == x || s.contains(
            t[k],
        )) by {
            if k == 0 {
                assert(s.contains(s[0]));
            } else {
                assert(t[k] == rec[k - 1]);
                if rec[k - 1] != x {
                    assert(s.drop_first().contains(rec[k - 1]));
                    let w = choose|w: int|
                        0 <= w < s.drop_first().len() && s.drop_first()[w] == rec[k - 1];
                    assert(s[w + 1] == rec[k - 1]);
                }
            }
        }
    }
}

/// Stable insertion of a well-formed card into a sorted pool of well-formed
/// cards keeps it sorted.
pub proof fn lemma_fsrs_insert_sorted(now: int, x: FsrsSchedulerCard, s: Seq<FsrsSchedulerCard>)
    requires
        fsrs_sorted(now, s),
        fsrs_card_wf(x.card),
        forall|i: int| 0 <= i < s.len() ==> fsrs_card_wf((#[trigger] s[i]).card),
    ensures
        fsrs_sorted(now, fsrs_insert_sorted(now, x, s)),
    decreases s.len(),
{
    if s.len() > 0 && fsrs_le(now, s[0], x) {
        assert forall|i: int, j: int|
            0 <= i <= j < s.drop_first().len() implies fsrs_le(
            now,
            #[trigger] s.drop_first()[i],
            #[trigger] s.drop_first()[j],
        ) by {
            assert(s.drop_first()[i] == s[i + 1]);
            assert(s.drop_first()[j] == s[j + 1]);
        }
        assert forall|i: int| 0 <= i < s.drop_first().len() implies fsrs_card_wf(
            (#[trigger] s.drop_first()[i]).card,
        ) by {
            assert(s.drop_first()[i] == s[i + 1]);
        }
        lemma_fsrs_insert_sorted(now, x, s.drop_first());
        lemma_fsrs_insert_elems(now, x, s.drop_first());
        let t = fsrs_insert_sorted(now, x, s);
        let rec = fsrs_insert_sorted(now, x, s.drop_first());
        assert forall|i: int, j: int| 0 <= i <= j < t.len() implies fsrs_le(
            now,
            #[trigger] t[i],
            #[trigger] t[j],
        ) by {
            if i == 0 {
                if j > 0 {
                    assert(t[j] == rec[j - 1]);
                    if rec[j - 1] == x {
                    } else {
                        assert(s.drop_first().contains(rec[j - 1]));
                        let w = choose|w: int|
                            0 <= w < s.drop_first().len() && s.drop_first()[w] == rec[j - 1];
                        assert(s[w + 1] == rec[j - 1]);
                        assert(fsrs_le(now, s[0], s[w + 1]));
                    }
                }
            } else {
                assert(t[i] == rec[i - 1]);
                assert(t[j] == rec[j - 1]);
            }
        }
    } else if s.len() > 0 {
        let t = fsrs_insert_sorted(now, x, s);
        assert(!fsrs_le(now, s[0], x));
        assert(fsrs_le(now, x, s[0]));
        assert forall|i: int, j: int| 0 <= i <= j < t.len() implies fsrs_le(
            now,
            #[trigger] t[i],
            #[trigger] t[j],
        ) by {
            if i == 0 && j > 0 {
                assert(t[j] == s[j - 1]);
                assert(fsrs_le(now, s[0], s[j - 1]));
                lemma_fsrs_le_trans(now, x, s[0], s[j - 1]);
            } else if i > 0 {
                assert(t[i] == s[i - 1]);
                assert(t[j] == s[j - 1]);
            }
        }
    }
}

/// The stable insertion sort sorts a pool of well-formed cards and keeps
/// its length and every count.
pub proof fn lemma_fsrs_sort(now: int, s: Seq<FsrsSchedulerCard>)
    requires
        forall|i: int| 0 <= i < s.len() ==> fsrs_card_wf((#[trigger] s[i]).card),
    ensures
        fsrs_sorted(now, fsrs_sort_spec(now, s)),
        fsrs_sort_spec(now, s).len() == s.len(),
        forall|i: int|
            0 <= i < fsrs_sort_spec(now, s).len() ==> fsrs_card_wf(
                (#[trigger] fsrs_sort_spec(now, s)[i]).card,
            ),
    decreases s.len(),
{
    if s.len() > 0 {
        assert forall|i: int| 0 <= i < s.drop_last().len() implies fsrs_card_wf(
            (#[trigger] s.drop_last()[i]).card,
        ) by {
            assert(s.drop_last()[i] == s[i]);
        }
        lemma_fsrs_sort(now, s.drop_last());
        let rec = fsrs_sort_spec(now, s.drop_last());
        lemma_fsrs_insert_sorted(now, s.last(), rec);
        lemma_fsrs_insert_elems(now, s.last(), rec);
        let t = fsrs_sort_spec(now, s);
        assert forall|i: int| 0 <= i < t.len() implies fsrs_card_wf((#[trigger] t[i]).card) by {
            if t[i] == s.last() {
                assert(fsrs_card_wf(s[s.len() - 1].card));
            } else {
                assert(rec.contains(t[i]));
            }
        }
    }
}

/// The pool and stack of a retrievability scheduler, as mathematical
/// sequences.
pub struct FsrsView {
    /// Not-yet-introduced cards; the last element is the top of the stack.
    pub new_cards: Seq<FsrsSchedulerCard>,
    /// The active pool, sorted ascending by retrievability at presentation.
    pub learning: Seq<FsrsSchedulerCard>,
}

impl FsrsView {
    /// Total number of cards held.
    pub open spec fn total(self) -> int {
        self.new_cards.len() + self.learning.len() as int
    }

    /// Well-formedness: well-formed memory states, a fresh stack, a
    /// non-empty pool at the minimum size while unseen cards remain, and a
    /// deck that fits in a machine count.
    pub open spec fn wf(self) -> bool {
        &&& forall|i: int|
            0 <= i < self.learning.len() ==> fsrs_card_wf((#[trigger] self.learning[i]).card)
        &&& forall|i: int|
            0 <= i < self.new_cards.len() ==> (#[trigger] self.new_cards[i]).card == Card::New
        &&& self.learning.len() >= 1
        &&& self.new_cards.len() > 0 ==> self.learning.len() >= MINIMUM_LEARNING_CARDS
        &&& self.total() <= usize::MAX
    }
}

/// Refills the pool from the unseen stack up to the minimum size.
pub open spec fn fsrs_fill_spec(v: FsrsView) -> FsrsView {
    let cap = MINIMUM_LEARNING_CARDS as int;
    if v.learning.len() < cap && v.new_cards.len() > 0 {
        let take_n = crate::scheduler::imin(cap - v.learning.len(), v.new_cards.len() as int);
        let start = v.new_cards.len() - take_n;
        FsrsView {
            new_cards: v.new_cards.take(start),
            learning: v.learning + v.new_cards.subrange(start, v.new_cards.len() as int).reverse(),
        }
    } else {
        v
    }
}

/// Pulls one more unseen card whenever every pooled card is already above
/// the retention target: the pool is momentarily too easy and needs
/// challenge.
pub open spec fn fsrs_topup_spec(v: FsrsView, now: int) -> FsrsView {
    if v.new_cards.len() > 0 && count_matching(v.learning, well_studied_pred(now))
        == v.learning.len() {
        FsrsView {
            new_cards: v.new_cards.drop_last(),
            learning: v.learning.push(v.new_cards.last()),
        }
    } else {
        v
    }
}

/// Capacity control and re-sort: refill, top up, and sort the pool
/// ascending by retrievability now.
pub open spec fn fsrs_populate_spec(v: FsrsView, now: int) -> FsrsView {
    let v1 = fsrs_topup_spec(fsrs_fill_spec(v), now);
    FsrsView { learning: fsrs_sort_spec(now, v1.learning), ..v1 }
}

/// Capacity control and re-sort keep the deck: the total is conserved and
/// the result is well-formed and sorted.
pub proof fn lemma_fsrs_populate(v: FsrsView, now: int)
    requires
        forall|i: int|
            0 <= i < v.learning.len() ==> fsrs_card_wf((#[trigger] v.learning[i]).card),
        forall|i: int|
            0 <= i < v.new_cards.len() ==> (#[trigger] v.new_cards[i]).card == Card::New,
        1 <= v.total() <= usize::MAX,
    ensures
        fsrs_populate_spec(v, now).total() == v.total(),
        fsrs_populate_spec(v, now).wf(),
        fsrs_sorted(now, fsrs_populate_spec(v, now).learning),
{
    let cap = MINIMUM_LEARNING_CARDS as int;
    let f = fsrs_fill_spec(v);
    assert(f.total() == v.total());
    assert forall|i: int| 0 <= i < f.learning.len() implies fsrs_card_wf(
        (#[trigger] f.learning[i]).card,
    ) by {
        if i >= v.learning.len() {
            assert(f.learning[i] == v.new_cards[v.new_cards.len() - 1 - (i - v.learning.len())]);
        }
    }
    assert forall|i: int| 0 <= i < f.new_cards.len() implies (#[trigger] f.new_cards[i]).card
        == Card::New by {
        assert(f.new_cards[i] == v.new_cards[i]);
    }
    let t = fsrs_topup_spec(f, now);
    assert(t.total() == f.total());
    assert forall|i: int| 0 <= i < t.learning.len() implies fsrs_card_wf(
        (#[trigger] t.learning[i]).card,
    ) by {
        if i < f.learning.len() {
            assert(t.learning[i] == f.learning[i]);
        }
    }
    lemma_fsrs_sort(now, t.learning);
}

/// Stable insertion lands exactly at the first position whose card has
/// strictly higher retrievability than the inserted one.
pub proof fn lemma_fsrs_insert_at(
    now: int,
    x: FsrsSchedulerCard,
    s: Seq<FsrsSchedulerCard>,
    k: int,
)
    requires
        0 <= k <= s.len(),
        forall|j: int| 0 <= j < k ==> fsrs_le(now, #[trigger] s[j], x),
        k < s.len() ==> !fsrs_le(now, s[k], x),
    ensures
        fsrs_insert_sorted(now, x, s) == s.take(k) + seq![x] + s.skip(k),
    decreases k,
{
    if s.len() == 0 {
        assert(fsrs_insert_sorted(now, x, s) =~= s.take(k) + seq![x] + s.skip(k));
    } else if k == 0 {
        assert(fsrs_insert_sorted(now, x, s) =~= s.take(0) + seq![x] + s.skip(0));
    } else {
        assert(fsrs_le(now, s[0], x));
        let rest = s.drop_first();
        assert forall|j: int| 0 <= j < k - 1 implies fsrs_le(now, #[trigger] rest[j], x) by {
            assert(rest[j] == s[j + 1]);
        }
        assert(k - 1 < rest.len() ==> !fsrs_le(now, rest[k - 1], x));
        lemma_fsrs_insert_at(now, x, rest, k - 1);
        assert(seq![s[0]] + (rest.take(k - 1) + seq![x] + rest.skip(k - 1)) =~= s.take(k)
            + seq![x] + s.skip(k));
    }
}

/// Whether one card's retrievability is no higher than another's now.
fn fsrs_card_le(now: i64, a: &FsrsSchedulerCard, b: &FsrsSchedulerCard) -> (r: bool)
    requires
        fsrs_card_wf(a.card),
        fsrs_card_wf(b.card),
    ensures
        r == fsrs_le(now as int, *a, *b),
{
    match (&a.card, &b.card) {
        (Card::New, _) => true,
        (Card::Review { .. }, Card::New) => false,
        (
            Card::Review { stability: s1, last_reviewed: l1, .. },
            Card::Review { stability: s2, last_reviewed: l2, .. },
        ) => {
            let t1: i128 = now as i128 - *l1 as i128;
            let t2: i128 = now as i128 - *l2 as i128;
            proof {
                assert(-36893488147419103232i128 <= t1 <= 36893488147419103232i128);
                assert(-36893488147419103232i128 <= t2 <= 36893488147419103232i128);
                assert(0 <= (*s1 as i128) <= 1125899906842624i128);
                assert(0 <= (*s2 as i128) <= 1125899906842624i128);
                assert(-41538374868278621066046230981151129600i128 <= t1 * (*s2 as i128)
                    <= 41538374868278621066046230981151129600i128) by (nonlinear_arith)
                    requires
                        -36893488147419103232i128 <= t1 <= 36893488147419103232i128,
                        0 <= (*s2 as i128) <= 1125899906842624i128,
                ;
                assert(-41538374868278621066046230981151129600i128 <= t2 * (*s1 as i128)
                    <= 41538374868278621066046230981151129600i128) by (nonlinear_arith)
                    requires
                        -36893488147419103232i128 <= t2 <= 36893488147419103232i128,
                        0 <= (*s1 as i128) <= 1125899906842624i128,
                ;
            }
            t1 * (*s2 as i128) >= t2 * (*s1 as i128)
        },
    }
}

/// Sorts a pool ascending by retrievability with a stable insertion sort.
fn fsrs_sort_cards(cards: Vec<FsrsSchedulerCard>, now: i64) -> (r: Vec<FsrsSchedulerCard>)
    requires
        forall|i: int| 0 <= i < cards@.len() ==> fsrs_card_wf((#[trigger] cards@[i]).card),
    ensures
        r@ == fsrs_sort_spec(now as int, cards@),
{
    let ghost orig = cards@;
    let mut cards = cards;
    let mut out: Vec<FsrsSchedulerCard> = Vec::new();
    proof {
        assert(cards@ =~= orig.skip(0));
    }
    while cards.len() > 0
        invariant
            forall|i: int| 0 <= i < orig.len() ==> fsrs_card_wf((#[trigger] orig[i]).card),
            cards@.len() <= orig.len(),
            cards@ == orig.skip(orig.len() - cards@.len()),
            out@ == fsrs_sort_spec(now as int, orig.take(orig.len() - cards@.len())),
            forall|i: int| 0 <= i < out@.len() ==> fsrs_card_wf((#[trigger] out@[i]).card),
        decreases cards@.len(),
    {
        let ghost i = orig.len() - cards@.len();
        let x = cards.remove(0);
        proof {
            assert(orig.skip(i)[0] == orig[i]);
            assert(x == orig[i]);
            assert(cards@ =~= orig.skip(i + 1));
        }
        let mut k: usize = 0;
        while k < out.len() && fsrs_card_le(now, &out[k], &x)
            invariant
                forall|i2: int| 0 <= i2 < out@.len() ==> fsrs_card_wf((#[trigger] out@[i2]).card),
                fsrs_card_wf(x.card),
                k <= out@.len(),
                forall|j: int| 0 <= j < k ==> fsrs_le(now as int, #[trigger] out@[j], x),
            decreases out@.len() - k,
        {
            k = k + 1;
        }
        proof {
            lemma_fsrs_insert_at(now as int, x, out@, k as int);
        }
        let ghost out_pre = out@;
        out.insert(k, x);
        proof {
            assert(out@ =~= out_pre.take(k as int) + seq![x] + out_pre.skip(k as int));
            assert(orig.take(i + 1).drop_last() =~= orig.take(i));
            assert(orig.take(i + 1).last() == orig[i]);
            assert(out@ == fsrs_sort_spec(now as int, orig.take(i + 1)));
            assert forall|i2: int| 0 <= i2 < out@.len() implies fsrs_card_wf(
                (#[trigger] out@[i2]).card,
            ) by {
                if i2 < k {
                    assert(out@[i2] == out_pre[i2]);
                } else if i2 > k {
                    assert(out@[i2] == out_pre[i2 - 1]);
                }
            }
        }
    }
    proof {
        assert(orig.take(orig.len() as int) =~= orig);
    }
    out
}

/// The retrievability scheduler: an unseen stack and a pool re-sorted by
/// retrievability at every presentation.
#[derive(Clone, Debug)]
pub struct FsrsScheduler {
    new_cards: Vec<FsrsSchedulerCard>,
    learning_cards: Vec<FsrsSchedulerCard>,
}

impl View for FsrsScheduler {
    type V = FsrsView;

    closed spec fn view(&self) -> FsrsView {
        FsrsView { new_cards: self.new_cards@, learning: self.learning_cards@ }
    }
}

impl FsrsScheduler {
    /// Refills the pool from the unseen stack up to the minimum size.
    fn fill_pool(&mut self)
        ensures
            final(self)@ == fsrs_fill_spec(old(self)@),
    {
        let cap = MINIMUM_LEARNING_CARDS;
        let ghost orig_new = self.new_cards@;
        let ghost orig_learning = self.learning_cards@;
        proof {
            assert(orig_learning + orig_new.subrange(
                orig_new.len() as int,
                orig_new.len() as int,
            ).reverse() =~= orig_learning);
        }
        while self.learning_cards.len() < cap && self.new_cards.len() > 0
            invariant
                self.new_cards@.len() <= orig_new.len(),
                self.new_cards@ == orig_new.take(self.new_cards@.len() as int),
                self.learning_cards@ == orig_learning + orig_new.subrange(
                    self.new_cards@.len() as int,
                    orig_new.len() as int,
                ).reverse(),
                self.learning_cards@.len() > orig_learning.len() ==> self.learning_cards@.len()
                    <= cap,
                orig_new == old(self)@.new_cards,
                orig_learning == old(self)@.learning,
            decreases self.new_cards@.len(),
        {
            let ghost n = self.new_cards@.len() as int;
            let c = self.new_cards.pop().unwrap();
            proof {
                assert(self.new_cards@ =~= orig_new.take(n - 1));
                assert(c == orig_new[n - 1]);
            }
            self.learning_cards.push(c);
            proof {
                assert(self.learning_cards@ =~= orig_learning + orig_new.subrange(
                    n - 1,
                    orig_new.len() as int,
                ).reverse());
            }
        }
        proof {
            let v = old(self)@;
            let take_n = crate::scheduler::imin(
                cap - v.learning.len(),
                v.new_cards.len() as int,
            );
            if v.learning.len() < cap && v.new_cards.len() > 0 {
                assert(self.new_cards@.len() == v.new_cards.len() - take_n);
                assert(final(self)@ == fsrs_fill_spec(v));
            } else {
                assert(self.learning_cards@ =~= orig_learning);
                assert(self.new_cards@ =~= orig_new);
            }
        }
    }

    /// How many pooled cards are above the retention target now.
    fn count_well_studied(&self, now: i64) -> (n: usize)
        requires
            forall|i: int|
                0 <= i < self@.learning.len() ==> fsrs_card_wf((#[trigger] self@.learning[i]).card),
        ensures
            n == count_matching(self@.learning, well_studied_pred(now as int)),
    {
        let ghost p = well_studied_pred(now as int);
        let mut cnt: usize = 0;
        let mut i: usize = 0;
        proof {
            lemma_count_bounds(self.learning_cards@, p);
            assert(self@.learning == self.learning_cards@);
        }
        while i < self.learning_cards.len()
            invariant
                forall|i2: int|
                    0 <= i2 < self.learning_cards@.len() ==> fsrs_card_wf(
                        (#[trigger] self.learning_cards@[i2]).card,
                    ),
                i <= self.learning_cards@.len(),
                cnt <= i,
                p == well_studied_pred(now as int),
                cnt == count_matching(self.learning_cards@.take(i as int), p),
            decreases self.learning_cards@.len() - i,
        {
            let c = &self.learning_cards[i];
            let ws = match &c.card {
                Card::New => false,
                Card::Review { stability, last_reviewed, .. } => {
                    let t: i128 = now as i128 - *last_reviewed as i128;
                    proof {
                        assert(fsrs_card_wf(self.learning_cards@[i as int].card));
                        assert(-36893488147419103232i128 <= t <= 36893488147419103232i128);
                        assert(-36893488147419103232000000i128 <= t * (GOOD_RETENTION_DEN as i128)
                            <= 36893488147419103232000000i128) by (nonlinear_arith)
                            requires
                                -36893488147419103232i128 <= t <= 36893488147419103232i128,
                        ;
                        assert(0 <= (*stability as i128) * (GOOD_RETENTION_NUM as i128)
                            <= 1736706458844559179944944i128) by (nonlinear_arith)
                            requires
                                0 <= (*stability as i128) <= 1125899906842624i128,
                        ;
                    }
                    t * (GOOD_RETENTION_DEN as i128) < (*stability as i128) * (
                    GOOD_RETENTION_NUM as i128)
                },
            };
            proof {
                lemma_count_take_step(self.learning_cards@, p, i as int);
                assert(ws == p(self.learning_cards@[i as int]));
            }
            if ws {
                cnt = cnt + 1;
            }
            i = i + 1;
        }
        proof {
            assert(self.learning_cards@.take(self.learning_cards@.len() as int)
                =~= self.learning_cards@);
        }
        cnt
    }

    /// Capacity control and re-sort, as one exec step.
    fn populate_at_internal(&mut self, now: i64)
        requires
            forall|i: int|
                0 <= i < old(self)@.learning.len() ==> fsrs_card_wf(
                    (#[trigger] old(self)@.learning[i]).card,
                ),
            forall|i: int|
                0 <= i < old(self)@.new_cards.len() ==> (#[trigger] old(
                    self,
                )@.new_cards[i]).card == Card::New,
        ensures
            final(self)@ == fsrs_populate_spec(old(self)@, now as int),
    {
        self.fill_pool();
        let ghost f = self@;
        proof {
            assert forall|i: int| 0 <= i < f.learning.len() implies fsrs_card_wf(
                (#[trigger] f.learning[i]).card,
            ) by {
                let v = old(self)@;
                if i >= v.learning.len() {
                    assert(f.learning[i] == v.new_cards[v.new_cards.len() - 1 - (i
                        - v.learning.len())]);
                }
            }
        }
        if self.new_cards.len() > 0 {
            let cnt = self.count_well_studied(now);
            let len = self.learning_cards.len();
            if cnt == len {
                let c = self.new_cards.pop().unwrap();
                self.learning_cards.push(c);
            }
        }
        proof {
            assert(self@ == fsrs_topup_spec(f, now as int));
        }
        let ghost t = self@;
        proof {
            assert forall|i: int| 0 <= i < t.learning.len() implies fsrs_card_wf(
                (#[trigger] t.learning[i]).card,
            ) by {
                let v = old(self)@;
                if i < f.learning.len() {
                    assert(t.learning[i] == f.learning[i]);
                } else {
                    assert(t.learning[i] == f.new_cards.last());
                    assert(f.new_cards.last() == v.new_cards[f.new_cards.len() - 1]);
                }
            }
        }
        let mut cards: Vec<FsrsSchedulerCard> = Vec::new();
        core::mem::swap(&mut cards, &mut self.learning_cards);
        let sorted_cards = fsrs_sort_cards(cards, now);
        self.learning_cards = sorted_cards;
        proof {
            assert(self@ == fsrs_populate_spec(old(self)@, now as int));
        }
    }

    /// Builds a scheduler from the deck, all cards unseen, and fills and
    /// sorts the pool at the current wall-clock time.
    pub fn new(pending_cards: Vec<FsrsSchedulerCard>) -> (s: Self)
        requires
            pending_cards@.len() >= 1,
            forall|i: int|
                0 <= i < pending_cards@.len() ==> (#[trigger] pending_cards@[i]).card == Card::New,
        ensures
            exists|now: i64| s@ == #[trigger] fsrs_new_spec(pending_cards@, now),
            s@.wf(),
            s@.total() == pending_cards@.len(),
    {
        let now = crate::clock::now_timestamp();
        let ghost orig = pending_cards@;
        let mut pending = pending_cards;
        let mut stack: Vec<FsrsSchedulerCard> = Vec::new();
        proof {
            assert(pending@ =~= orig.take(pending@.len() as int));
            assert(stack@ =~= orig.skip(pending@.len() as int).reverse());
        }
        while pending.len() > 0
            invariant
                pending@.len() <= orig.len(),
                pending@ == orig.take(pending@.len() as int),
                stack@ == orig.skip(pending@.len() as int).reverse(),
            decreases pending@.len(),
        {
            let ghost n = pending@.len() as int;
            let c = pending.pop().unwrap();
            proof {
                assert(pending@ =~= orig.take(n - 1));
                assert(c == orig[n - 1]);
            }
            stack.push(c);
            proof {
                assert(stack@ =~= orig.skip(n - 1).reverse());
            }
        }
        proof {
            assert(stack@ =~= orig.reverse());
        }
        let mut this = FsrsScheduler { new_cards: stack, learning_cards: Vec::new() };
        let stack_len = this.new_cards.len();
        proof {
            let v0 = this@;
            assert(v0.total() == stack_len);
            assert forall|i: int| 0 <= i < v0.new_cards.len() implies (#[trigger] v0.new_cards[i]).card
                == Card::New by {
                assert(v0.new_cards[i] == orig[orig.len() - 1 - i]);
            }
            lemma_fsrs_populate(v0, now as int);
        }
        let ghost v0 = this@;
        this.populate_at_internal(now);
        proof {
            assert(v0 == FsrsView {
                new_cards: orig.reverse(),
                learning: Seq::<FsrsSchedulerCard>::empty(),
            });
            assert(this@ == fsrs_new_spec(orig, now));
        }
        this
    }

    /// Re-sorts the pool for the given time and presents its most
    /// at-risk card: the top of the pool ordered ascending by
    /// retrievability.
    pub fn get_card_at(&mut self, now: i64) -> (c: &FsrsSchedulerCard)
        requires
            old(self)@.wf(),
        ensures
            final(self)@ == fsrs_populate_spec(old(self)@, now as int),
            final(self)@.wf(),
            final(self)@.total() == old(self)@.total(),
            fsrs_sorted(now as int, final(self)@.learning),
            *c == final(self)@.learning[0],
    {
        proof {
            lemma_fsrs_populate(old(self)@, now as int);
        }
        self.populate_at_internal(now);
        &self.learning_cards[0]
    }

    /// Re-sorts the pool at the current wall-clock time and presents its
    /// most at-risk card.
    pub fn get_card(&mut self) -> (c: &FsrsSchedulerCard)
        requires
            old(self)@.wf(),
        ensures
            exists|now: i64| final(self)@ == #[trigger] fsrs_populate_spec(old(self)@, now as int),
            final(self)@.wf(),
            final(self)@.total() == old(self)@.total(),
            *c == final(self)@.learning[0],
    {
        let now = crate::clock::now_timestamp();
        proof {
            lemma_fsrs_populate(old(self)@, now as int);
        }
        self.populate_at_internal(now);
        proof {
            assert(self@ == fsrs_populate_spec(old(self)@, now as int));
        }
        &self.learning_cards[0]
    }

    /// Installs the updated memory state of the presented (top) card: the
    /// continuous-model update is computed by the caller from the old state,
    /// the rating and the elapsed time, and handed back here. Everything
    /// else in the deck is untouched.
    pub fn set_top_memory(&mut self, memory: Card)
        requires
            old(self)@.wf(),
            fsrs_card_wf(memory),
        ensures
            final(self)@.learning == old(self)@.learning.update(
                0,
                FsrsSchedulerCard { zigen: old(self)@.learning[0].zigen, card: memory },
            ),
            final(self)@.new_cards == old(self)@.new_cards,
            final(self)@.wf(),
            final(self)@.total() == old(self)@.total(),
    {
        let ghost v = self@;
        let mut c0 = self.learning_cards.remove(0);
        c0.card = memory;
        self.learning_cards.insert(0, c0);
        proof {
            assert(self.learning_cards@ =~= v.learning.update(
                0,
                FsrsSchedulerCard { zigen: v.learning[0].zigen, card: memory },
            ));
            assert forall|i: int| 0 <= i < self@.learning.len() implies fsrs_card_wf(
                (#[trigger] self@.learning[i]).card,
            ) by {
                if i != 0 {
                    assert(self@.learning[i] == v.learning[i]);
                }
            }
        }
    }

    /// How many cards have at least entered study.
    pub fn reviewed_cards(&self) -> (n: usize)
        ensures
            n == self@.learning.len() - count_matching(self@.learning, fsrs_new_pred()),
    {
        let ghost p = fsrs_new_pred();
        let mut cnt: usize = 0;
        let mut i: usize = 0;
        while i < self.learning_cards.len()
            invariant
                i <= self.learning_cards@.len(),
                cnt <= i,
                p == fsrs_new_pred(),
                cnt == count_matching(self.learning_cards@.take(i as int), p),
            decreases self.learning_cards@.len() - i,
        {
            let isn = self.learning_cards[i].card == Card::New;
            proof {
                lemma_count_take_step(self.learning_cards@, p, i as int);
            }
            if isn {
                cnt = cnt + 1;
            }
            i = i + 1;
        }
        proof {
            assert(self.learning_cards@.take(self.learning_cards@.len() as int)
                =~= self.learning_cards@);
            lemma_count_bounds(self.learning_cards@, p);
        }
        self.learning_cards.len() - cnt
    }

    /// The total number of cards held, conserved across every operation.
    pub fn total_cards(&self) -> (n: usize)
        requires
            self@.total() <= usize::MAX,
        ensures
            n == self@.total(),
    {
        self.new_cards.len() + self.learning_cards.len()
    }
}

/// The state of a freshly constructed scheduler: the reversed deck as the
/// unseen stack, the pool filled and sorted at the construction time.
pub open spec fn fsrs_new_spec(pending: Seq<FsrsSchedulerCard>, now: i64) -> FsrsView {
    fsrs_populate_spec(
        FsrsView { new_cards: pending.reverse(), learning: Seq::empty() },
        now as int,
    )
}

} // verus!
