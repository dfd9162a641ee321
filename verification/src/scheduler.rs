//! Card memory model and the interval (queue-position based) scheduler.
//!
//! All quantities are exact integers:
//! - easiness factors are kept in thousandths (`2500` stands for 2.5, the
//!   floor `1300` for 1.3), which represents the update formula
//!   `ef + 0.1 - d*(0.08 + d*0.2)` exactly, since every delta is a whole
//!   number of thousandths;
//! - review intervals are whole queue positions, and the growth step
//!   `round(interval * ef)` is computed as exact rational rounding
//!   (half away from zero) over the thousandths representation;
//! - timestamps are seconds; additions saturate at the ends of `i64`.

use std::collections::VecDeque;

use vstd::prelude::*;

verus! {

/// Easiness floor, in thousandths: an easiness factor never drops below 1.3.
pub const EF_FLOOR_MILLI: u64 = 1300;

/// Easiness factor of a freshly promoted card, in thousandths (2.5).
pub const EF_START_MILLI: u64 = 2500;

/// One day, in seconds: the due distance of a successfully reviewed card.
pub const DAY_S: i64 = 86400;

/// One minute, in seconds: the due distance of a failed review card.
pub const MINUTE_S: i64 = 60;

/// How well the learner answered a card.
#[derive(Clone, Copy, Debug, PartialEq, Eq, Structural)]
pub enum Rating {
    Again,
    Hard,
    Good,
    Easy,
}

impl Rating {
    /// Difficulty scalar of a rating: `Again` is hardest (3), `Easy` easiest (0).
    pub open spec fn difficulty_spec(self) -> int {
        match self {
            Rating::Again => 3,
            Rating::Hard => 2,
            Rating::Good => 1,
            Rating::Easy => 0,
        }
    }

    /// Maps a rating to its difficulty scalar.
    pub fn difficulty(self) -> (d: u64)
        ensures
            d == self.difficulty_spec(),
    {
        match self {
            Rating::Again => 3,
            Rating::Hard => 2,
            Rating::Good => 1,
            Rating::Easy => 0,
        }
    }
}

/// Memory state of a single card.
///
/// Timestamps (`last_reviewed`, `due`) are seconds; `easiness_factor` is in
/// thousandths; `last_interval` is a whole count of queue positions.
#[derive(Clone, Copy, Debug, PartialEq, Eq, Structural)]
pub enum Card {
    /// Never studied.
    New,
    /// Mid-acquisition. `attempts` is an asymmetric ratchet: a failure moves
    /// it to `min(attempts - 1, 0)`, a success to `max(attempts + 1, 0)`.
    Learning { attempts: i32, last_reviewed: i64 },
    /// Consolidated; presented at growing intervals governed by the
    /// easiness factor.
    Review {
        last_interval: u64,
        repetition: usize,
        easiness_factor: u64,
        last_reviewed: i64,
        due: i64,
    },
}

/// A content item together with its memory state. The scheduler never
/// inspects the content.
#[derive(Clone, Debug)]
pub struct FlashCard<C> {
    pub content: C,
    pub card: Card,
}

impl<C> FlashCard<C> {
    /// True exactly when the card was never studied.
    pub fn is_new_card(&self) -> (b: bool)
        ensures
            b == (self.card == Card::New),
    {
        self.card == Card::New
    }
}

/// Scheduling parameter set: `Novice` paces new material gently,
/// `Adept` assumes prior familiarity.
#[derive(Clone, Copy, Debug, PartialEq, Eq, Structural)]
pub enum ScheduleParam {
    Novice,
    Adept,
}

impl ScheduleParam {
    /// How many learning answers are interleaved with one review answer
    /// while unseen cards remain.
    pub open spec fn learn_review_ratio_spec(self) -> int {
        match self {
            ScheduleParam::Novice => 8,
            ScheduleParam::Adept => 20,
        }
    }

    /// Consecutive successes needed to consider a card learned.
    pub open spec fn max_learning_attempts_spec(self) -> int {
        match self {
            ScheduleParam::Novice => 3,
            ScheduleParam::Adept => 2,
        }
    }

    /// Re-appearance distances after a successful learning answer,
    /// indexed by the attempts counter.
    pub open spec fn learning_intervals_s_spec(self) -> Seq<int> {
        match self {
            ScheduleParam::Novice => seq![3, 6, 9],
            ScheduleParam::Adept => seq![3, 6],
        }
    }

    /// Re-appearance distances after a failed learning answer,
    /// indexed by the magnitude of the negative attempts counter.
    pub open spec fn learning_intervals_f_spec(self) -> Seq<int> {
        match self {
            ScheduleParam::Novice => seq![2, 4, 6],
            ScheduleParam::Adept => seq![2, 4],
        }
    }

    /// Capacity of the learning queue: one more than the largest success
    /// interval, so a reinserted card always fits.
    pub open spec fn learning_cards_spec(self) -> int {
        self.learning_intervals_s_spec().last() + 1
    }

    /// The interval tables have exactly one entry per learning attempt, and
    /// the learning-queue capacity is the largest success interval plus one.
    pub proof fn lemma_tables_well_formed(self)
        ensures
            self.learning_intervals_s_spec().len() == self.max_learning_attempts_spec(),
            self.learning_intervals_f_spec().len() == self.max_learning_attempts_spec(),
            self.learning_cards_spec() == self.learning_intervals_s_spec()[
                self.max_learning_attempts_spec() - 1
            ] + 1,
            self.learning_cards_spec() >= 2,
            self.max_learning_attempts_spec() >= 1,
            forall|i: int| 0 <= i < self.learning_intervals_s_spec().len()
                ==> #[trigger] self.learning_intervals_s_spec()[i] >= 1,
            forall|i: int| 0 <= i < self.learning_intervals_f_spec().len()
                ==> #[trigger] self.learning_intervals_f_spec()[i] >= 1,
    {
        match self {
            ScheduleParam::Novice => {
                assert(self.learning_intervals_s_spec() =~= seq![3, 6, 9]);
                assert(self.learning_intervals_f_spec() =~= seq![2, 4, 6]);
            },
            ScheduleParam::Adept => {
                assert(self.learning_intervals_s_spec() =~= seq![3, 6]);
                assert(self.learning_intervals_f_spec() =~= seq![2, 4]);
            },
        }
    }

    /// Learning-to-review interleave ratio.
    pub fn learn_review_ratio(&self) -> (r: usize)
        ensures
            r == self.learn_review_ratio_spec(),
    {
        match self {
            ScheduleParam::Novice => 8,
            ScheduleParam::Adept => 20,
        }
    }

    /// Consecutive successes needed to consider a card learned.
    pub fn max_learning_attempts(&self) -> (r: usize)
        ensures
            r == self.max_learning_attempts_spec(),
    {
        match self {
            ScheduleParam::Novice => 3,
            ScheduleParam::Adept => 2,
        }
    }

    /// The success interval table as a vector.
    pub fn learning_intervals_s(&self) -> (r: Vec<usize>)
        ensures
            r@.len() == self.learning_intervals_s_spec().len(),
            forall|i: int| 0 <= i < r@.len()
                ==> r@[i] == self.learning_intervals_s_spec()[i],
    {
        match self {
            ScheduleParam::Novice => vec![3, 6, 9],
            ScheduleParam::Adept => vec![3, 6],
        }
    }

    /// The failure interval table as a vector.
    pub fn learning_intervals_f(&self) -> (r: Vec<usize>)
        ensures
            r@.len() == self.learning_intervals_f_spec().len(),
            forall|i: int| 0 <= i < r@.len()
                ==> r@[i] == self.learning_intervals_f_spec()[i],
    {
        match self {
            ScheduleParam::Novice => vec![2, 4, 6],
            ScheduleParam::Adept => vec![2, 4],
        }
    }

    /// One entry of the success interval table.
    pub fn learning_interval_s_at(&self, i: usize) -> (r: usize)
        requires
            0 <= i < self.learning_intervals_s_spec().len(),
        ensures
            r == self.learning_intervals_s_spec()[i as int],
    {
        match self {
            ScheduleParam::Novice => {
                if i == 0 { 3 } else if i == 1 { 6 } else { 9 }
            },
            ScheduleParam::Adept => {
                if i == 0 { 3 } else { 6 }
            },
        }
    }

    /// One entry of the failure interval table.
    pub fn learning_interval_f_at(&self, i: usize) -> (r: usize)
        requires
            0 <= i < self.learning_intervals_f_spec().len(),
        ensures
            r == self.learning_intervals_f_spec()[i as int],
    {
        match self {
            ScheduleParam::Novice => {
                if i == 0 { 2 } else if i == 1 { 4 } else { 6 }
            },
            ScheduleParam::Adept => {
                if i == 0 { 2 } else { 4 }
            },
        }
    }

    /// Capacity of the learning queue.
    pub fn learning_cards(&self) -> (r: usize)
        ensures
            r == self.learning_cards_spec(),
    {
        match self {
            ScheduleParam::Novice => 10,
            ScheduleParam::Adept => 7,
        }
    }
}

/// Adds two timestamps, saturating at the ends of `i64`.
pub open spec fn sat_add_i64_spec(a: int, b: int) -> i64 {
    if a + b > i64::MAX {
        i64::MAX
    } else if a + b < i64::MIN {
        i64::MIN
    } else {
        (a + b) as i64
    }
}

/// Saturating timestamp addition.
pub fn sat_add_i64(a: i64, b: i64) -> (r: i64)
    ensures
        r == sat_add_i64_spec(a as int, b as int),
{
    if b >= 0 {
        if a <= i64::MAX - b {
            a + b
        } else {
            i64::MAX
        }
    } else {
        if a >= i64::MIN - b {
            a + b
        } else {
            i64::MIN
        }
    }
}

/// The easiness factor after a rating of difficulty `d`, in thousandths:
/// `max(1.3, ef + 0.1 - d*(0.08 + d*0.2))`, saturating at `u64::MAX`.
pub open spec fn ef_after_spec(ef: u64, d: int) -> u64 {
    let raw = ef + 100 - d * (80 + 200 * d);
    if raw < EF_FLOOR_MILLI {
        EF_FLOOR_MILLI
    } else if raw > u64::MAX {
        u64::MAX
    } else {
        raw as u64
    }
}

/// Applies the easiness update formula.
pub fn ef_after(ef: u64, d: u64) -> (r: u64)
    requires
        d <= 3,
    ensures
        r == ef_after_spec(ef, d as int),
{
    let dec: i128 = if d == 0 {
        0
    } else if d == 1 {
        280
    } else if d == 2 {
        960
    } else {
        2040
    };
    assert(dec == (d as int) * (80 + 200 * (d as int)));
    let raw: i128 = ef as i128 + 100 - dec;
    if raw < EF_FLOOR_MILLI as i128 {
        EF_FLOOR_MILLI
    } else if raw > u64::MAX as i128 {
        u64::MAX
    } else {
        raw as u64
    }
}

/// The easiness update never drops below the floor of 1.3.
pub proof fn lemma_easiness_floor(ef: u64, d: int)
    ensures
        ef_after_spec(ef, d) >= EF_FLOOR_MILLI,
{
}

/// The next review interval: 3 after the first success, 6 after the second,
/// then `round(last_interval * easiness_factor)` (half away from zero),
/// saturating at `u64::MAX`.
pub open spec fn next_interval_spec(li: u64, rep: int, ef: u64) -> u64 {
    if rep == 0 {
        3
    } else if rep == 1 {
        6
    } else {
        let q = (li * ef + 500) / 1000;
        if q > u64::MAX {
            u64::MAX
        } else {
            q as u64
        }
    }
}

/// Computes the next review interval.
pub fn next_interval(li: u64, rep: usize, ef: u64) -> (r: u64)
    ensures
        r == next_interval_spec(li, rep as int, ef),
{
    if rep == 0 {
        3
    } else if rep == 1 {
        6
    } else {
        proof {
            assert((li as u128) * (ef as u128) <= (u64::MAX as u128) * (u64::MAX as u128))
                by (nonlinear_arith)
                requires
                    li as u128 <= u64::MAX as u128,
                    ef as u128 <= u64::MAX as u128,
            ;
        }
        let q: u128 = (li as u128 * ef as u128 + 500) / 1000;
        if q > u64::MAX as u128 {
            u64::MAX
        } else {
            q as u64
        }
    }
}

/// The attempts ratchet: failure moves the counter to `min(attempts - 1, 0)`,
/// success to `max(attempts + 1, 0)`, saturating at the ends of `i32`.
pub open spec fn attempts_after_spec(a: int, again: bool) -> int {
    if again {
        if a > 0 {
            0
        } else if a - 1 < i32::MIN {
            i32::MIN as int
        } else {
            a - 1
        }
    } else {
        if a < 0 {
            0
        } else if a + 1 > i32::MAX {
            i32::MAX as int
        } else {
            a + 1
        }
    }
}

/// Applies the attempts ratchet.
pub fn attempts_after(a: i32, again: bool) -> (r: i32)
    ensures
        r == attempts_after_spec(a as int, again),
{
    if again {
        if a > 0 {
            0
        } else if a == i32::MIN {
            i32::MIN
        } else {
            a - 1
        }
    } else {
        if a < 0 {
            0
        } else if a == i32::MAX {
            i32::MAX
        } else {
            a + 1
        }
    }
}

/// The re-appearance distance of a learning card with (already updated)
/// attempts counter `a`: the success table indexed by `a` when `a >= 0`,
/// else the failure table indexed by the magnitude of `a`; both indices
/// clamped to the table bounds.
pub open spec fn learning_interval_spec(p: ScheduleParam, a: int) -> int {
    if a < 0 {
        let f = p.learning_intervals_f_spec();
        let idx = if -a < f.len() - 1 { -a } else { f.len() - 1 };
        f[idx]
    } else {
        let s = p.learning_intervals_s_spec();
        let idx = if a < s.len() - 1 { a } else { s.len() - 1 };
        s[idx]
    }
}

/// Looks up the re-appearance distance of a learning card.
pub fn learning_interval(p: &ScheduleParam, a: i32) -> (r: usize)
    ensures
        r == learning_interval_spec(*p, a as int),
{
    proof {
        p.lemma_tables_well_formed();
    }
    if a < 0 {
        let flen = match p {
            ScheduleParam::Novice => 3usize,
            ScheduleParam::Adept => 2usize,
        };
        let mag: i64 = -(a as i64);
        let idx: usize = if mag < (flen - 1) as i64 {
            mag as usize
        } else {
            flen - 1
        };
        p.learning_interval_f_at(idx)
    } else {
        let slen = match p {
            ScheduleParam::Novice => 3usize,
            ScheduleParam::Adept => 2usize,
        };
        let idx: usize = if (a as usize) < slen - 1 {
            a as usize
        } else {
            slen - 1
        };
        p.learning_interval_s_at(idx)
    }
}

/// The smaller of two mathematical integers.
pub open spec fn imin(a: int, b: int) -> int {
    if a < b {
        a
    } else {
        b
    }
}

/// True of a card that may sit in the learning queue.
pub open spec fn is_new_or_learning<C>(fc: FlashCard<C>) -> bool {
    match fc.card {
        Card::New => true,
        Card::Learning { .. } => true,
        Card::Review { .. } => false,
    }
}

/// True of a well-formed review-queue card: consolidated, with the easiness
/// factor at or above the floor.
pub open spec fn is_review_wf<C>(fc: FlashCard<C>) -> bool {
    match fc.card {
        Card::Review { easiness_factor, .. } => easiness_factor >= EF_FLOOR_MILLI,
        _ => false,
    }
}

/// True of a card that was never studied.
pub open spec fn is_new<C>(fc: FlashCard<C>) -> bool {
    fc.card == Card::New
}

/// True of a learning-queue card that still needs learning work: a fresh
/// card, or one whose attempts counter is below the mastery threshold.
pub open spec fn card_unfinished<C>(fc: FlashCard<C>, max: int) -> bool {
    match fc.card {
        Card::Learning { attempts, .. } => attempts < max,
        Card::New => true,
        Card::Review { .. } => false,
    }
}

/// True of a learning-queue card that has reached the mastery threshold.
pub open spec fn card_mastered<C>(fc: FlashCard<C>, max: int) -> bool {
    match fc.card {
        Card::Learning { attempts, .. } => attempts >= max,
        _ => false,
    }
}

/// Every card of the sequence has reached the mastery threshold.
pub open spec fn all_mastered<C>(s: Seq<FlashCard<C>>, max: int) -> bool {
    forall|i: int| 0 <= i < s.len() ==> card_mastered(#[trigger] s[i], max)
}

/// The "still needs learning work" test, as a function value, for counting.
pub open spec fn unfinished_pred<C>(max: int) -> spec_fn(FlashCard<C>) -> bool {
    |fc: FlashCard<C>| card_unfinished(fc, max)
}

/// The "never studied" test, as a function value, for counting.
pub open spec fn new_pred<C>() -> spec_fn(FlashCard<C>) -> bool {
    |fc: FlashCard<C>| is_new(fc)
}

/// The "mid-acquisition" test, as a function value, for counting.
pub open spec fn learning_pred<C>() -> spec_fn(FlashCard<C>) -> bool {
    |fc: FlashCard<C>|
        match fc.card {
            Card::Learning { .. } => true,
            _ => false,
        }
}

/// How many elements of the sequence satisfy the predicate.
pub open spec fn count_matching<T>(s: Seq<T>, p: spec_fn(T) -> bool) -> int
    decreases s.len(),
{
    if s.len() == 0 {
        0
    } else {
        count_matching(s.drop_last(), p) + if p(s.last()) {
            1int
        } else {
            0int
        }
    }
}

/// A matching count lies between zero and the sequence length.
pub proof fn lemma_count_bounds<T>(s: Seq<T>, p: spec_fn(T) -> bool)
    ensures
        0 <= count_matching(s, p) <= s.len(),
    decreases s.len(),
{
    if s.len() > 0 {
        lemma_count_bounds(s.drop_last(), p);
    }
}

/// Extending a counted prefix by one element adds one when it matches.
pub proof fn lemma_count_take_step<T>(
    s: Seq<T>,
    p: spec_fn(T) -> bool,
    i: int,
)
    requires
        0 <= i < s.len(),
    ensures
        count_matching(s.take(i + 1), p) == count_matching(s.take(i), p) + if p(s[i]) {
            1int
        } else {
            0int
        },
{
    assert(s.take(i + 1).drop_last() =~= s.take(i));
    assert(s.take(i + 1).last() == s[i]);
}

/// The queues and counters of an interval scheduler, as mathematical
/// sequences: the model that all contracts speak of.
pub struct SchedView<C> {
    /// Not-yet-introduced cards; the last element is the top of the stack.
    pub new_cards: Seq<FlashCard<C>>,
    /// Learning-phase queue, bounded by the configured capacity.
    pub learning: Seq<FlashCard<C>>,
    /// Review-phase queue.
    pub reviewing: Seq<FlashCard<C>>,
    /// Learning answers given since the last review answer.
    pub done_learning: usize,
    /// The configured parameter set.
    pub params: ScheduleParam,
}

impl<C> SchedView<C> {
    /// Total number of cards held.
    pub open spec fn total(self) -> int {
        self.new_cards.len() + self.learning.len() + self.reviewing.len() as int
    }

    /// Each queue holds only cards of its phase.
    pub open spec fn kinds_ok(self) -> bool {
        &&& forall|i: int|
            0 <= i < self.learning.len() ==> is_new_or_learning(#[trigger] self.learning[i])
        &&& forall|i: int|
            0 <= i < self.reviewing.len() ==> is_review_wf(#[trigger] self.reviewing[i])
        &&& forall|i: int| 0 <= i < self.new_cards.len() ==> is_new(#[trigger] self.new_cards[i])
    }

    /// Well-formedness: phase-correct queues, a non-empty deck that fits in
    /// a machine count, and a learning queue at capacity while unseen cards
    /// remain.
    pub open spec fn wf(self) -> bool {
        &&& self.kinds_ok()
        &&& self.new_cards.len() > 0 ==> self.learning.len() >= self.params.learning_cards_spec()
        &&& 1 <= self.total() <= usize::MAX
    }

    /// Cards counted as `New` across all queues.
    pub open spec fn new_count(self) -> int {
        self.new_cards.len() + count_matching(self.learning, new_pred())
    }

    /// Cards counted as `Learning` across all queues.
    pub open spec fn learning_count(self) -> int {
        count_matching(self.learning, learning_pred())
    }

    /// Cards counted as `Review` across all queues.
    pub open spec fn review_count(self) -> int {
        self.reviewing.len() as int
    }
}

/// Practice phases: acquiring new material, interspersing an old card during
/// acquisition, or plain consolidation once learning is exhausted.
#[derive(Clone, Copy, Debug, PartialEq, Eq, Structural)]
pub enum ReviewStatus {
    Learn,
    ReviewIntersperse,
    Review,
}

/// The phase the next card comes from: learning while the rolling counter is
/// below the ratio threshold or no review card exists; otherwise review, from
/// the queue tail while learning cards remain, from the head once learning is
/// exhausted. While unseen cards remain the threshold is the configured
/// ratio; afterwards it is the number of learning cards not yet mastered.
pub open spec fn review_status_spec<C>(v: SchedView<C>) -> ReviewStatus {
    let ratio: int = if v.new_cards.len() == 0 {
        count_matching(v.learning, unfinished_pred(v.params.max_learning_attempts_spec()))
    } else {
        v.params.learn_review_ratio_spec()
    };
    if v.done_learning >= ratio && v.reviewing.len() > 0 {
        if v.learning.len() > 0 {
            ReviewStatus::ReviewIntersperse
        } else {
            ReviewStatus::Review
        }
    } else {
        ReviewStatus::Learn
    }
}

/// The card the scheduler presents: head of the review queue in plain
/// review, its tail when interspersing, the head of the learning queue
/// otherwise.
pub open spec fn get_card_spec<C>(v: SchedView<C>) -> FlashCard<C> {
    match review_status_spec(v) {
        ReviewStatus::Review => v.reviewing[0],
        ReviewStatus::ReviewIntersperse => v.reviewing.last(),
        ReviewStatus::Learn => v.learning[0],
    }
}

/// Refills the learning queue from the unseen stack up to capacity: the
/// moved cards keep their stack order, the earliest-added card ending up
/// at the queue front.
pub open spec fn populate_spec<C>(v: SchedView<C>) -> SchedView<C> {
    let cap = v.params.learning_cards_spec();
    if v.learning.len() < cap && v.new_cards.len() > 0 {
        let take_n = imin(cap - v.learning.len(), v.new_cards.len() as int);
        let start = v.new_cards.len() - take_n;
        SchedView {
            new_cards: v.new_cards.take(start),
            learning: v.new_cards.subrange(start, v.new_cards.len() as int).reverse()
                + v.learning,
            ..v
        }
    } else {
        v
    }
}

/// Refilling moves cards only between the unseen stack and the learning
/// queue: the total is kept, phase kinds stay correct, and afterwards the
/// learning queue is at capacity whenever unseen cards remain.
pub proof fn lemma_populate<C>(v: SchedView<C>)
    requires
        v.kinds_ok(),
        1 <= v.total() <= usize::MAX,
    ensures
        populate_spec(v).total() == v.total(),
        populate_spec(v).wf(),
        populate_spec(v).reviewing == v.reviewing,
        populate_spec(v).done_learning == v.done_learning,
        populate_spec(v).params == v.params,
{
    let cap = v.params.learning_cards_spec();
    v.params.lemma_tables_well_formed();
    if v.learning.len() < cap && v.new_cards.len() > 0 {
        let take_n = imin(cap - v.learning.len(), v.new_cards.len() as int);
        let start = v.new_cards.len() - take_n;
        let moved = v.new_cards.subrange(start, v.new_cards.len() as int).reverse();
        let r = populate_spec(v);
        assert forall|i: int| 0 <= i < r.learning.len() implies is_new_or_learning(
            #[trigger] r.learning[i],
        ) by {
            if i < moved.len() {
                assert(r.learning[i] == v.new_cards[v.new_cards.len() - 1 - i]);
            } else {
                assert(r.learning[i] == v.learning[i - moved.len()]);
            }
        }
        assert forall|i: int| 0 <= i < r.new_cards.len() implies is_new(
            #[trigger] r.new_cards[i],
        ) by {
            assert(r.new_cards[i] == v.new_cards[i]);
        }
    }
}

/// The memory state of a card freshly promoted to the review phase.
pub open spec fn promoted_card_spec(now: i64) -> Card {
    Card::Review {
        last_interval: 1,
        repetition: 1,
        easiness_factor: EF_START_MILLI,
        last_reviewed: now,
        due: sat_add_i64_spec(now as int, DAY_S as int),
    }
}

/// A successfully reviewed card: the interval grows by the easiness factor,
/// the repetition count rises by one, the easiness factor is updated and
/// floored, and the card is due a day later.
pub open spec fn review_success_card<C>(c: FlashCard<C>, r: Rating, now: i64) -> FlashCard<C> {
    match c.card {
        Card::Review { last_interval, repetition, easiness_factor, .. } => FlashCard {
            content: c.content,
            card: Card::Review {
                last_interval: next_interval_spec(last_interval, repetition as int, easiness_factor),
                repetition: if repetition == usize::MAX {
                    usize::MAX
                } else {
                    (repetition + 1) as usize
                },
                easiness_factor: ef_after_spec(easiness_factor, r.difficulty_spec()),
                last_reviewed: now,
                due: sat_add_i64_spec(now as int, DAY_S as int),
            },
        },
        _ => c,
    }
}

/// A failed review card that stays in the review phase: the repetition count
/// resets, the interval restarts at 3, the easiness factor is updated and
/// floored, and the card is due a minute later.
pub open spec fn review_failure_card<C>(c: FlashCard<C>, now: i64) -> FlashCard<C> {
    match c.card {
        Card::Review { easiness_factor, .. } => FlashCard {
            content: c.content,
            card: Card::Review {
                last_interval: 3,
                repetition: 0,
                easiness_factor: ef_after_spec(easiness_factor, 3),
                last_reviewed: now,
                due: sat_add_i64_spec(now as int, MINUTE_S as int),
            },
        },
        _ => c,
    }
}

/// The reinsertion distance of a successfully reviewed card: its new
/// interval.
pub open spec fn review_success_interval<C>(c: FlashCard<C>) -> int {
    match c.card {
        Card::Review { last_interval, repetition, easiness_factor, .. } => next_interval_spec(
            last_interval,
            repetition as int,
            easiness_factor,
        ) as int,
        _ => 0,
    }
}

/// A review-phase rating: pops the presented review card (head in plain
/// review, tail when interspersing), applies the success or failure update,
/// and reinserts it — a failed card re-enters the learning queue at the first
/// failure distance while that queue is non-empty, otherwise the card
/// restarts its review cycle; the rolling learning counter resets.
pub open spec fn rate_review_spec<C>(
    v: SchedView<C>,
    st: ReviewStatus,
    r: Rating,
    now: i64,
) -> SchedView<C> {
    let c = if st == ReviewStatus::Review {
        v.reviewing[0]
    } else {
        v.reviewing.last()
    };
    let rest = if st == ReviewStatus::Review {
        v.reviewing.drop_first()
    } else {
        v.reviewing.drop_last()
    };
    if r != Rating::Again {
        let c2 = review_success_card(c, r, now);
        let at = imin(review_success_interval(c), rest.len() as int);
        SchedView { reviewing: rest.insert(at, c2), done_learning: 0, ..v }
    } else {
        if v.learning.len() > 0 {
            let c2 = FlashCard {
                content: c.content,
                card: Card::Learning { attempts: 1, last_reviewed: now },
            };
            let at = imin(v.params.learning_intervals_f_spec()[0], v.learning.len() as int);
            SchedView {
                learning: v.learning.insert(at, c2),
                reviewing: rest,
                done_learning: 0,
                ..v
            }
        } else {
            let c2 = review_failure_card(c, now);
            let at = imin(3, rest.len() as int);
            SchedView { reviewing: rest.insert(at, c2), done_learning: 0, ..v }
        }
    }
}

/// A learning-phase card after one rating: a fresh card enters learning with
/// a zero counter; a learning card moves its counter along the ratchet. The
/// returned flag says whether the mastery threshold was reached, and the
/// distance gives the card's next queue position otherwise.
pub open spec fn learn_transition<C>(
    params: ScheduleParam,
    c: FlashCard<C>,
    r: Rating,
    now: i64,
) -> (FlashCard<C>, bool, int) {
    match c.card {
        Card::Learning { attempts, .. } => {
            let a2 = attempts_after_spec(attempts as int, r == Rating::Again);
            let c2 = FlashCard {
                content: c.content,
                card: Card::Learning { attempts: a2 as i32, last_reviewed: now },
            };
            if a2 >= params.max_learning_attempts_spec() {
                (c2, true, 0)
            } else {
                (c2, false, learning_interval_spec(params, a2))
            }
        },
        Card::New => (
            FlashCard {
                content: c.content,
                card: Card::Learning { attempts: 0, last_reviewed: now },
            },
            false,
            params.learning_intervals_s_spec()[0],
        ),
        Card::Review { .. } => (c, false, 0),
    }
}

/// Promotes held learning cards into the review queue, front to back, each
/// at a distance of 1.3 times its attempts counter (clamped), with the
/// default review memory state.
pub open spec fn flush_spec<C>(
    learning: Seq<FlashCard<C>>,
    reviewing: Seq<FlashCard<C>>,
    now: i64,
) -> Seq<FlashCard<C>>
    decreases learning.len(),
{
    if learning.len() == 0 {
        reviewing
    } else {
        let a = match learning[0].card {
            Card::Learning { attempts, .. } => if attempts >= 0 {
                attempts as int
            } else {
                0
            },
            _ => 0,
        };
        let c2 = FlashCard { content: learning[0].content, card: promoted_card_spec(now) };
        flush_spec(
            learning.drop_first(),
            reviewing.insert(imin(a * 13 / 10, reviewing.len() as int), c2),
            now,
        )
    }
}

/// A learning-phase rating: pops the front learning card and applies the
/// ratchet. A card below the threshold re-enters the learning queue at its
/// interval distance (clamped). A card at the threshold is promoted: while
/// unseen cards are exhausted and the queue is not overfull it is held at the
/// queue tail, and once every held card is mastered the whole queue is
/// flushed into review; otherwise it enters the review queue directly at
/// distance 1. The rolling learning counter rises by one.
pub open spec fn rate_learn_spec<C>(v: SchedView<C>, r: Rating, now: i64) -> SchedView<C> {
    let c = v.learning[0];
    let rest = v.learning.drop_first();
    let (c2, to_review, interval) = learn_transition(v.params, c, r, now);
    let done2: usize = if v.done_learning == usize::MAX {
        usize::MAX
    } else {
        (v.done_learning + 1) as usize
    };
    if !to_review {
        let at = imin(interval, rest.len() as int);
        SchedView { learning: rest.insert(at, c2), done_learning: done2, ..v }
    } else if v.new_cards.len() == 0 && rest.len() <= v.params.learning_cards_spec() {
        let held = rest.push(c2);
        if all_mastered(held, v.params.max_learning_attempts_spec()) {
            SchedView {
                learning: Seq::empty(),
                reviewing: flush_spec(held, v.reviewing, now),
                done_learning: done2,
                ..v
            }
        } else {
            SchedView { learning: held, done_learning: done2, ..v }
        }
    } else {
        let c3 = FlashCard { content: c.content, card: promoted_card_spec(now) };
        let at = imin(1, v.reviewing.len() as int);
        SchedView {
            learning: rest,
            reviewing: v.reviewing.insert(at, c3),
            done_learning: done2,
            ..v
        }
    }
}

/// One full rating step: the phase is derived, the presented card popped,
/// transitioned and reinserted, and the learning queue refilled from the
/// unseen stack.
pub open spec fn rate_card_spec<C>(v: SchedView<C>, r: Rating, now: i64) -> SchedView<C> {
    let st = review_status_spec(v);
    let mid = if st == ReviewStatus::Learn {
        rate_learn_spec(v, r, now)
    } else {
        rate_review_spec(v, st, r, now)
    };
    populate_spec(mid)
}

/// Inserting an element that satisfies a predicate into a sequence whose
/// elements all satisfy it keeps the property.
pub proof fn lemma_insert_all<T>(
    s: Seq<T>,
    at: int,
    c: T,
    p: spec_fn(T) -> bool,
)
    requires
        0 <= at <= s.len(),
        forall|i: int| 0 <= i < s.len() ==> p(#[trigger] s[i]),
        p(c),
    ensures
        forall|i: int| 0 <= i < s.insert(at, c).len() ==> p(#[trigger] s.insert(at, c)[i]),
        s.insert(at, c).len() == s.len() + 1,
{
    s.insert_ensures(at, c);
    assert forall|i: int| 0 <= i < s.insert(at, c).len() implies p(s.insert(at, c)[i]) by {
        if i < at {
            assert(s.insert(at, c)[i] == s[i]);
        } else if i > at {
            assert(s.insert(at, c)[i] == s[i - 1]);
        }
    }
}

/// Flushing adds one review card per held learning card and produces only
/// well-formed review cards.
pub proof fn lemma_flush<C>(learning: Seq<FlashCard<C>>, reviewing: Seq<FlashCard<C>>, now: i64)
    requires
        forall|i: int| 0 <= i < reviewing.len() ==> is_review_wf(#[trigger] reviewing[i]),
    ensures
        flush_spec(learning, reviewing, now).len() == learning.len() + reviewing.len(),
        forall|i: int|
            0 <= i < flush_spec(learning, reviewing, now).len() ==> is_review_wf(
                #[trigger] flush_spec(learning, reviewing, now)[i],
            ),
    decreases learning.len(),
{
    if learning.len() > 0 {
        let a = match learning[0].card {
            Card::Learning { attempts, .. } => if attempts >= 0 {
                attempts as int
            } else {
                0
            },
            _ => 0,
        };
        let c2 = FlashCard { content: learning[0].content, card: promoted_card_spec(now) };
        let at = imin(a * 13 / 10, reviewing.len() as int);
        assert(0 <= at <= reviewing.len()) by {
            assert(a * 13 / 10 >= 0) by (nonlinear_arith)
                requires
                    a >= 0,
            ;
        }
        lemma_insert_all(reviewing, at, c2, |fc: FlashCard<C>| is_review_wf(fc));
        assert(forall|i: int|
            0 <= i < reviewing.insert(at, c2).len() ==> is_review_wf(
                #[trigger] reviewing.insert(at, c2)[i],
            ));
        lemma_flush(learning.drop_first(), reviewing.insert(at, c2), now);
    }
}

/// A well-formed scheduler in the learning phase has a learning card to
/// present.
pub proof fn lemma_learn_nonempty<C>(v: SchedView<C>)
    requires
        v.wf(),
        review_status_spec(v) == ReviewStatus::Learn,
    ensures
        v.learning.len() > 0,
{
    v.params.lemma_tables_well_formed();
    if v.learning.len() == 0 {
        assert(v.new_cards.len() == 0);
        assert(count_matching(v.learning, unfinished_pred(v.params.max_learning_attempts_spec()))
            == 0);
        assert(v.reviewing.len() > 0);
        assert(review_status_spec(v) == ReviewStatus::Review);
    }
}

/// One rating step keeps the scheduler well-formed and conserves the card
/// total: no card is created or dropped, only relabeled and relocated.
pub proof fn lemma_rate_preserves<C>(v: SchedView<C>, r: Rating, now: i64)
    requires
        v.wf(),
    ensures
        rate_card_spec(v, r, now).wf(),
        rate_card_spec(v, r, now).total() == v.total(),
        rate_card_spec(v, r, now).params == v.params,
    decreases 0int,
{
    v.params.lemma_tables_well_formed();
    let st = review_status_spec(v);
    let max = v.params.max_learning_attempts_spec();
    if st == ReviewStatus::Learn {
        lemma_learn_nonempty(v);
        let c = v.learning[0];
        let rest = v.learning.drop_first();
        assert(is_new_or_learning(c));
        assert forall|i: int| 0 <= i < rest.len() implies is_new_or_learning(
            #[trigger] rest[i],
        ) by {
            assert(rest[i] == v.learning[i + 1]);
        }
        let (c2, to_review, interval) = learn_transition(v.params, c, r, now);
        let mid = rate_learn_spec(v, r, now);
        if !to_review {
            assert(interval >= 0);
            let at = imin(interval, rest.len() as int);
            lemma_insert_all(rest, at, c2, |fc: FlashCard<C>| is_new_or_learning(fc));
            assert(mid.kinds_ok());
            assert(mid.total() == v.total());
        } else if v.new_cards.len() == 0 && rest.len() <= v.params.learning_cards_spec() {
            let held = rest.push(c2);
            assert forall|i: int| 0 <= i < held.len() implies is_new_or_learning(
                #[trigger] held[i],
            ) by {
                if i < rest.len() {
                    assert(held[i] == rest[i]);
                }
            }
            if all_mastered(held, max) {
                lemma_flush(held, v.reviewing, now);
                assert(mid.kinds_ok());
                assert(mid.total() == v.total());
            } else {
                assert(mid.kinds_ok());
                assert(mid.total() == v.total());
            }
        } else {
            let c3 = FlashCard { content: c.content, card: promoted_card_spec(now) };
            let at = imin(1, v.reviewing.len() as int);
            lemma_insert_all(v.reviewing, at, c3, |fc: FlashCard<C>| is_review_wf(fc));
            assert(mid.kinds_ok());
            assert(mid.total() == v.total());
        }
        lemma_populate(mid);
    } else {
        assert(v.reviewing.len() > 0);
        let c = if st == ReviewStatus::Review {
            v.reviewing[0]
        } else {
            v.reviewing.last()
        };
        let rest = if st == ReviewStatus::Review {
            v.reviewing.drop_first()
        } else {
            v.reviewing.drop_last()
        };
        assert(is_review_wf(c));
        assert forall|i: int| 0 <= i < rest.len() implies is_review_wf(#[trigger] rest[i]) by {
            if st == ReviewStatus::Review {
                assert(rest[i] == v.reviewing[i + 1]);
            } else {
                assert(rest[i] == v.reviewing[i]);
            }
        }
        let mid = rate_review_spec(v, st, r, now);
        if r != Rating::Again {
            let c2 = review_success_card(c, r, now);
            assert(is_review_wf(c2));
            let at = imin(review_success_interval(c), rest.len() as int);
            lemma_insert_all(rest, at, c2, |fc: FlashCard<C>| is_review_wf(fc));
            assert(mid.kinds_ok());
            assert(mid.total() == v.total());
        } else if v.learning.len() > 0 {
            let c2 = FlashCard {
                content: c.content,
                card: Card::Learning { attempts: 1, last_reviewed: now },
            };
            let at = imin(v.params.learning_intervals_f_spec()[0], v.learning.len() as int);
            lemma_insert_all(v.learning, at, c2, |fc: FlashCard<C>| is_new_or_learning(fc));
            assert(mid.kinds_ok());
            assert(mid.total() == v.total());
        } else {
            let c2 = review_failure_card(c, now);
            assert(is_review_wf(c2));
            let at = imin(3, rest.len() as int);
            lemma_insert_all(rest, at, c2, |fc: FlashCard<C>| is_review_wf(fc));
            assert(mid.kinds_ok());
            assert(mid.total() == v.total());
        }
        lemma_populate(mid);
    }
}

/// The interval scheduler: a stack of unseen cards, a bounded learning
/// queue, an unbounded review queue and the rolling interleave counter.
/// Due-ness inside the queues is positional: reinserting a card at offset
/// `k` presents it after `k` more cards of its queue.
#[derive(Clone, Debug)]
pub struct Scheduler<C> {
    new_cards: Vec<FlashCard<C>>,
    learning_cards: VecDeque<FlashCard<C>>,
    reviewing_cards: VecDeque<FlashCard<C>>,
    done_learning: usize,
    params: ScheduleParam,
}

impl<C> View for Scheduler<C> {
    type V = SchedView<C>;

    closed spec fn view(&self) -> SchedView<C> {
        SchedView {
            new_cards: self.new_cards@,
            learning: self.learning_cards@,
            reviewing: self.reviewing_cards@,
            done_learning: self.done_learning,
            params: self.params,
        }
    }
}

impl<C> Scheduler<C> {
    /// Refills the learning queue from the unseen stack up to capacity.
    fn populate_learning_cards(&mut self)
        ensures
            final(self)@ == populate_spec(old(self)@),
    {
        let cap = self.params.learning_cards();
        if self.learning_cards.len() < cap && self.new_cards.len() > 0 {
            let diff = cap - self.learning_cards.len();
            let split_off = if diff < self.new_cards.len() {
                diff
            } else {
                self.new_cards.len()
            };
            let start = self.new_cards.len() - split_off;
            let ghost orig_new = self.new_cards@;
            let ghost orig_learning = self.learning_cards@;
            let ghost orig_reviewing = self.reviewing_cards@;
            let ghost orig_done = self.done_learning;
            let ghost orig_params = self.params;
            let mut k: usize = 0;
            while k < split_off
                invariant
                    k <= split_off,
                    split_off <= orig_new.len(),
                    start == orig_new.len() - split_off,
                    self.new_cards@ == orig_new.take(start as int) + orig_new.skip(
                        start as int + k,
                    ),
                    self.learning_cards@ == orig_new.subrange(
                        start as int,
                        start as int + k,
                    ).reverse() + orig_learning,
                    self.reviewing_cards@ == orig_reviewing,
                    self.done_learning == orig_done,
                    self.params == orig_params,
                decreases split_off - k,
            {
                assert(self.new_cards@.len() == orig_new.len() - k);
                let c = self.new_cards.remove(start);
                proof {
                    let pre = orig_new.take(start as int) + orig_new.skip(start as int + k);
                    assert(pre[start as int] == orig_new[start as int + k]);
                    assert(pre.remove(start as int) =~= orig_new.take(start as int)
                        + orig_new.skip(start as int + k + 1));
                }
                self.learning_cards.push_front(c);
                proof {
                    assert(seq![orig_new[start as int + k]] + orig_new.subrange(
                        start as int,
                        start as int + k,
                    ).reverse() =~= orig_new.subrange(start as int, start as int + k + 1).reverse());
                    assert(self.learning_cards@ =~= orig_new.subrange(
                        start as int,
                        start as int + k + 1,
                    ).reverse() + orig_learning);
                }
                k = k + 1;
            }
            proof {
                assert(self.new_cards@ =~= orig_new.take(start as int));
                assert(orig_new.subrange(start as int, start as int + split_off as int)
                    =~= orig_new.subrange(start as int, orig_new.len() as int));
                assert(final(self)@ == populate_spec(old(self)@));
            }
        }
    }

    /// Builds a scheduler from the deck, all cards unseen, and fills the
    /// learning queue. The first supplied card is presented first.
    pub fn new(pending_cards: Vec<FlashCard<C>>, params: ScheduleParam) -> (s: Self)
        requires
            pending_cards@.len() >= 1,
            forall|i: int| 0 <= i < pending_cards@.len() ==> is_new(#[trigger] pending_cards@[i]),
        ensures
            s@ == populate_spec(
                SchedView {
                    new_cards: pending_cards@.reverse(),
                    learning: Seq::empty(),
                    reviewing: Seq::empty(),
                    done_learning: 0,
                    params,
                },
            ),
            s@.wf(),
            s@.total() == pending_cards@.len(),
    {
        let ghost orig = pending_cards@;
        let mut pending = pending_cards;
        let mut stack: Vec<FlashCard<C>> = Vec::new();
        proof {
            assert(pending@ =~= orig.take(pending@.len() as int));
            assert(stack@ =~= orig.skip(pending@.len() as int).reverse());
        }
        while pending.len() > 0
            invariant
                pending@.len() <= orig.len(),
                pending@ == orig.take(pending@.len() as int),
                stack@ == orig.skip(pending@.len() as int).reverse(),
            decreases pending@.len(),
        {
            let ghost n = pending@.len() as int;
            let c = pending.pop().unwrap();
            proof {
                assert(pending@ =~= orig.take(n - 1));
                assert(c == orig[n - 1]);
            }
            stack.push(c);
            proof {
                assert(stack@ =~= orig.skip(n - 1).reverse());
            }
        }
        proof {
            assert(stack@ =~= orig.reverse());
            assert(stack@.len() == orig.len());
        }
        let mut this = Scheduler {
            new_cards: stack,
            learning_cards: VecDeque::new(),
            reviewing_cards: VecDeque::new(),
            done_learning: 0,
            params,
        };
        let stack_len = this.new_cards.len();
        proof {
            let v0 = this@;
            assert(v0.total() == stack_len);
            assert forall|i: int| 0 <= i < v0.new_cards.len() implies is_new(
                #[trigger] v0.new_cards[i],
            ) by {
                assert(v0.new_cards[i] == orig[orig.len() - 1 - i]);
            }
            lemma_populate(v0);
        }
        this.populate_learning_cards();
        this
    }

    /// The configured parameter set.
    pub fn params(&self) -> (p: ScheduleParam)
        ensures
            p == self@.params,
    {
        self.params
    }

    /// The current practice phase.
    fn review_status(&self) -> (st: ReviewStatus)
        ensures
            st == review_status_spec(self@),
    {
        let ratio: usize = if self.new_cards.len() == 0 {
            let max = self.params.max_learning_attempts();
            let ghost p = unfinished_pred::<C>(self.params.max_learning_attempts_spec());
            let mut cnt: usize = 0;
            let mut i: usize = 0;
            proof {
                lemma_count_bounds(self.learning_cards@, p);
            }
            while i < self.learning_cards.len()
                invariant
                    i <= self.learning_cards@.len(),
                    cnt <= i,
                    max == self.params.max_learning_attempts_spec(),
                    p == unfinished_pred::<C>(self.params.max_learning_attempts_spec()),
                    cnt == count_matching(self.learning_cards@.take(i as int), p),
                decreases self.learning_cards@.len() - i,
            {
                let fc = &self.learning_cards[i];
                let unf = match fc.card {
                    Card::Learning { attempts, .. } => attempts < max as i32,
                    Card::New => true,
                    Card::Review { .. } => false,
                };
                proof {
                    lemma_count_take_step(self.learning_cards@, p, i as int);
                    assert(p(self.learning_cards@[i as int]) == card_unfinished(
                        self.learning_cards@[i as int],
                        max as int,
                    ));
                }
                if unf {
                    cnt = cnt + 1;
                }
                i = i + 1;
            }
            proof {
                assert(self.learning_cards@.take(self.learning_cards@.len() as int)
                    =~= self.learning_cards@);
            }
            cnt
        } else {
            self.params.learn_review_ratio()
        };
        if self.done_learning >= ratio && self.reviewing_cards.len() > 0 {
            if self.learning_cards.len() > 0 {
                ReviewStatus::ReviewIntersperse
            } else {
                ReviewStatus::Review
            }
        } else {
            ReviewStatus::Learn
        }
    }

    /// The card to present next. Read-only and idempotent.
    pub fn get_card(&self) -> (c: &FlashCard<C>)
        requires
            self@.wf(),
        ensures
            *c == get_card_spec(self@),
    {
        let st = self.review_status();
        match st {
            ReviewStatus::Review => &self.reviewing_cards[0],
            ReviewStatus::ReviewIntersperse => &self.reviewing_cards[self.reviewing_cards.len()
                - 1],
            ReviewStatus::Learn => {
                proof {
                    lemma_learn_nonempty(self@);
                }
                &self.learning_cards[0]
            },
        }
    }

    /// How many cards have at least entered study: all cards except the
    /// still-unseen stack and the fresh cards inside the learning queue.
    pub fn reviewed_cards(&self) -> (n: usize)
        requires
            self@.wf(),
        ensures
            n == self@.learning.len() - count_matching(self@.learning, new_pred::<C>())
                + self@.reviewing.len(),
    {
        let ghost p = new_pred::<C>();
        let mut cnt: usize = 0;
        let mut i: usize = 0;
        while i < self.learning_cards.len()
            invariant
                i <= self.learning_cards@.len(),
                cnt <= i,
                p == new_pred::<C>(),
                cnt == count_matching(self.learning_cards@.take(i as int), p),
            decreases self.learning_cards@.len() - i,
        {
            let fc = &self.learning_cards[i];
            let isn = fc.card == Card::New;
            proof {
                lemma_count_take_step(self.learning_cards@, p, i as int);
            }
            if isn {
                cnt = cnt + 1;
            }
            i = i + 1;
        }
        proof {
            assert(self.learning_cards@.take(self.learning_cards@.len() as int)
                =~= self.learning_cards@);
            lemma_count_bounds(self.learning_cards@, p);
        }
        self.learning_cards.len() - cnt + self.reviewing_cards.len()
    }

    /// The total number of cards held, conserved across every rating.
    pub fn total_cards(&self) -> (n: usize)
        requires
            self@.total() <= usize::MAX,
        ensures
            n == self@.total(),
    {
        self.new_cards.len() + self.learning_cards.len() + self.reviewing_cards.len()
    }

    /// Whether every learning-queue card has reached the mastery threshold.
    fn check_all_mastered(&self, max: usize) -> (b: bool)
        requires
            max <= 0x7fff_ffff,
        ensures
            b == all_mastered(self@.learning, max as int),
    {
        let mut ok = true;
        let mut i: usize = 0;
        while i < self.learning_cards.len()
            invariant
                max <= 0x7fff_ffff,
                i <= self.learning_cards@.len(),
                ok == (forall|j: int|
                    0 <= j < i ==> card_mastered(#[trigger] self.learning_cards@[j], max as int)),
            decreases self.learning_cards@.len() - i,
        {
            let fc = &self.learning_cards[i];
            let m = match fc.card {
                Card::Learning { attempts, .. } => attempts >= max as i32,
                _ => false,
            };
            proof {
                assert(m == card_mastered(self.learning_cards@[i as int], max as int));
            }
            ok = ok && m;
            i = i + 1;
        }
        ok
    }

    /// Applies a rating to the currently presented card at the given time.
    /// The full effect — phase selection, the card's memory transition, its
    /// clamped reinsertion, the counter update and the refill — is pinned by
    /// `rate_card_spec`; the card total is conserved and well-formedness
    /// kept.
    pub fn rate_card_at(&mut self, rating: Rating, now: i64)
        requires
            old(self)@.wf(),
        ensures
            final(self)@ == rate_card_spec(old(self)@, rating, now),
            final(self)@.wf(),
            final(self)@.total() == old(self)@.total(),
    {
        proof {
            lemma_rate_preserves(old(self)@, rating, now);
            old(self)@.params.lemma_tables_well_formed();
        }
        let ghost v = self@;
        let st = self.review_status();
        if st != ReviewStatus::Learn {
            let c = if st == ReviewStatus::Review {
                self.reviewing_cards.pop_front().unwrap()
            } else {
                self.reviewing_cards.pop_back().unwrap()
            };
            proof {
                assert(is_review_wf(c));
            }
            let ghost rest = self.reviewing_cards@;
            match c.card {
                Card::Review { last_interval, repetition, easiness_factor, .. } => {
                    if rating != Rating::Again {
                        let li2 = next_interval(last_interval, repetition, easiness_factor);
                        let rep2 = if repetition == usize::MAX {
                            usize::MAX
                        } else {
                            repetition + 1
                        };
                        let ef2 = ef_after(easiness_factor, rating.difficulty());
                        let c2 = FlashCard {
                            content: c.content,
                            card: Card::Review {
                                last_interval: li2,
                                repetition: rep2,
                                easiness_factor: ef2,
                                last_reviewed: now,
                                due: sat_add_i64(now, DAY_S),
                            },
                        };
                        let len = self.reviewing_cards.len();
                        let at: usize = if li2 < len as u64 {
                            li2 as usize
                        } else {
                            len
                        };
                        proof {
                            assert(at as int == imin(review_success_interval(v.reviewing[
                                if st == ReviewStatus::Review {
                                    0int
                                } else {
                                    v.reviewing.len() - 1
                                }]), rest.len() as int));
                        }
                        self.reviewing_cards.insert(at, c2);
                        self.done_learning = 0;
                    } else {
                        if self.learning_cards.len() > 0 {
                            let c2 = FlashCard {
                                content: c.content,
                                card: Card::Learning { attempts: 1, last_reviewed: now },
                            };
                            let f0 = self.params.learning_interval_f_at(0);
                            let len = self.learning_cards.len();
                            let at: usize = if f0 < len {
                                f0
                            } else {
                                len
                            };
                            self.learning_cards.insert(at, c2);
                            self.done_learning = 0;
                        } else {
                            let ef2 = ef_after(easiness_factor, 3);
                            let c2 = FlashCard {
                                content: c.content,
                                card: Card::Review {
                                    last_interval: 3,
                                    repetition: 0,
                                    easiness_factor: ef2,
                                    last_reviewed: now,
                                    due: sat_add_i64(now, MINUTE_S),
                                },
                            };
                            let len = self.reviewing_cards.len();
                            let at: usize = if 3 < len {
                                3
                            } else {
                                len
                            };
                            self.reviewing_cards.insert(at, c2);
                            self.done_learning = 0;
                        }
                    }
                },
                _ => {
                    proof {
                        assert(false);
                    }
                },
            }
            proof {
                assert(self@ == rate_review_spec(v, st, rating, now));
            }
        } else {
            proof {
                lemma_learn_nonempty(v);
            }
            let c = self.learning_cards.pop_front().unwrap();
            proof {
                assert(is_new_or_learning(c));
            }
            let done2: usize = if self.done_learning == usize::MAX {
                usize::MAX
            } else {
                self.done_learning + 1
            };
            match c.card {
                Card::Learning { attempts, .. } => {
                    let a2 = attempts_after(attempts, rating == Rating::Again);
                    let max = self.params.max_learning_attempts();
                    let c2 = FlashCard {
                        content: c.content,
                        card: Card::Learning { attempts: a2, last_reviewed: now },
                    };
                    if a2 >= max as i32 {
                        let cap = self.params.learning_cards();
                        if self.new_cards.len() == 0 && self.learning_cards.len() <= cap {
                            self.learning_cards.push_back(c2);
                            let mastered = self.check_all_mastered(max);
                            if mastered {
                                let ghost vmax = self.params.max_learning_attempts_spec();
                                let ghost held = self.learning_cards@;
                                let ghost rev0 = self.reviewing_cards@;
                                while self.learning_cards.len() > 0
                                    invariant
                                        all_mastered(self.learning_cards@, vmax),
                                        vmax >= 1,
                                        flush_spec(
                                            self.learning_cards@,
                                            self.reviewing_cards@,
                                            now,
                                        ) == flush_spec(held, rev0, now),
                                        self.new_cards@ == v.new_cards,
                                        self.params == v.params,
                                        self.done_learning == v.done_learning,
                                    decreases self.learning_cards@.len(),
                                {
                                    let ghost pre_l = self.learning_cards@;
                                    let ghost pre_r = self.reviewing_cards@;
                                    let cc = self.learning_cards.pop_front().unwrap();
                                    proof {
                                        assert(card_mastered(pre_l[0], vmax));
                                    }
                                    let a = match cc.card {
                                        Card::Learning { attempts, .. } => attempts,
                                        _ => 0,
                                    };
                                    let au: u64 = a as u64;
                                    let ival: u64 = au * 13 / 10;
                                    let len = self.reviewing_cards.len();
                                    let at: usize = if ival < len as u64 {
                                        ival as usize
                                    } else {
                                        len
                                    };
                                    let c3 = FlashCard {
                                        content: cc.content,
                                        card: Card::Review {
                                            last_interval: 1,
                                            repetition: 1,
                                            easiness_factor: EF_START_MILLI,
                                            last_reviewed: now,
                                            due: sat_add_i64(now, DAY_S),
                                        },
                                    };
                                    self.reviewing_cards.insert(at, c3);
                                    proof {
                                        assert(self.learning_cards@ =~= pre_l.drop_first());
                                        assert(at as int == imin(
                                            (a as int) * 13 / 10,
                                            pre_r.len() as int,
                                        ));
                                        assert(self.reviewing_cards@ == pre_r.insert(
                                            at as int,
                                            c3,
                                        ));
                                        assert(flush_spec(pre_l, pre_r, now) == flush_spec(
                                            self.learning_cards@,
                                            self.reviewing_cards@,
                                            now,
                                        ));
                                        assert forall|j: int|
                                            0 <= j < self.learning_cards@.len() implies
                                            card_mastered(
                                                #[trigger] self.learning_cards@[j],
                                                vmax,
                                            ) by {
                                            assert(self.learning_cards@[j] == pre_l[j + 1]);
                                        }
                                    }
                                }
                                proof {
                                    assert(self.learning_cards@ =~= Seq::empty());
                                    assert(self.reviewing_cards@ == flush_spec(held, rev0, now));
                                }
                            }
                        } else {
                            let c3 = FlashCard {
                                content: c2.content,
                                card: Card::Review {
                                    last_interval: 1,
                                    repetition: 1,
                                    easiness_factor: EF_START_MILLI,
                                    last_reviewed: now,
                                    due: sat_add_i64(now, DAY_S),
                                },
                            };
                            let len = self.reviewing_cards.len();
                            let at: usize = if 1 < len {
                                1
                            } else {
                                len
                            };
                            self.reviewing_cards.insert(at, c3);
                        }
                    } else {
                        let ival = learning_interval(&self.params, a2);
                        let len = self.learning_cards.len();
                        let at: usize = if ival < len {
                            ival
                        } else {
                            len
                        };
                        self.learning_cards.insert(at, c2);
                    }
                },
                Card::New => {
                    let c2 = FlashCard {
                        content: c.content,
                        card: Card::Learning { attempts: 0, last_reviewed: now },
                    };
                    let ival = self.params.learning_interval_s_at(0);
                    let len = self.learning_cards.len();
                    let at: usize = if ival < len {
                        ival
                    } else {
                        len
                    };
                    self.learning_cards.insert(at, c2);
                },
                _ => {
                    proof {
                        assert(false);
                    }
                },
            }
            self.done_learning = done2;
            proof {
                assert(self@ == rate_learn_spec(v, rating, now));
            }
        }
        self.populate_learning_cards();
    }

    /// The scheduler's parts, exactly its internal fields, for persistence:
    /// the unseen stack, the learning and review queues, the interleave
    /// counter and the parameter set.
    pub fn parts(&self) -> (r: (
        &Vec<FlashCard<C>>,
        &VecDeque<FlashCard<C>>,
        &VecDeque<FlashCard<C>>,
        usize,
        ScheduleParam,
    ))
        ensures
            r.0@ == self@.new_cards,
            r.1@ == self@.learning,
            r.2@ == self@.reviewing,
            r.3 == self@.done_learning,
            r.4 == self@.params,
    {
        (
            &self.new_cards,
            &self.learning_cards,
            &self.reviewing_cards,
            self.done_learning,
            self.params,
        )
    }

    /// Rebuilds a scheduler from persisted parts. Exactly the well-formed
    /// states are accepted, so a round trip through `parts` reproduces the
    /// scheduler, and with it all subsequent scheduling decisions.
    pub fn from_parts(
        new_cards: Vec<FlashCard<C>>,
        learning_cards: VecDeque<FlashCard<C>>,
        reviewing_cards: VecDeque<FlashCard<C>>,
        done_learning: usize,
        params: ScheduleParam,
    ) -> (r: Option<Self>)
        ensures
            ({
                let v = SchedView {
                    new_cards: new_cards@,
                    learning: learning_cards@,
                    reviewing: reviewing_cards@,
                    done_learning,
                    params,
                };
                match r {
                    Some(s) => v.wf() && s@ == v,
                    None => !v.wf(),
                }
            }),
    {
        let mut kinds_ok = true;
        let mut i: usize = 0;
        while i < learning_cards.len()
            invariant
                i <= learning_cards@.len(),
                kinds_ok == (forall|j: int|
                    0 <= j < i ==> is_new_or_learning(#[trigger] learning_cards@[j])),
            decreases learning_cards@.len() - i,
        {
            let ok = match learning_cards[i].card {
                Card::New => true,
                Card::Learning { .. } => true,
                Card::Review { .. } => false,
            };
            proof {
                assert(ok == is_new_or_learning(learning_cards@[i as int]));
            }
            kinds_ok = kinds_ok && ok;
            i = i + 1;
        }
        let mut i: usize = 0;
        while i < reviewing_cards.len()
            invariant
                i <= reviewing_cards@.len(),
                kinds_ok == ((forall|j: int|
                    0 <= j < learning_cards@.len() ==> is_new_or_learning(
                        #[trigger] learning_cards@[j],
                    )) && (forall|j: int|
                    0 <= j < i ==> is_review_wf(#[trigger] reviewing_cards@[j]))),
            decreases reviewing_cards@.len() - i,
        {
            let ok = match reviewing_cards[i].card {
                Card::Review { easiness_factor, .. } => easiness_factor >= EF_FLOOR_MILLI,
                _ => false,
            };
            proof {
                assert(ok == is_review_wf(reviewing_cards@[i as int]));
            }
            kinds_ok = kinds_ok && ok;
            i = i + 1;
        }
        let mut i: usize = 0;
        while i < new_cards.len()
            invariant
                i <= new_cards@.len(),
                kinds_ok == ((forall|j: int|
                    0 <= j < learning_cards@.len() ==> is_new_or_learning(
                        #[trigger] learning_cards@[j],
                    )) && (forall|j: int|
                    0 <= j < reviewing_cards@.len() ==> is_review_wf(
                        #[trigger] reviewing_cards@[j],
                    )) && (forall|j: int| 0 <= j < i ==> is_new(#[trigger] new_cards@[j]))),
            decreases new_cards@.len() - i,
        {
            let ok = new_cards[i].card == Card::New;
            kinds_ok = kinds_ok && ok;
            i = i + 1;
        }
        let cap_ok = new_cards.len() == 0 || learning_cards.len() >= params.learning_cards();
        let total: u128 = new_cards.len() as u128 + learning_cards.len() as u128
            + reviewing_cards.len() as u128;
        let total_ok = 1 <= total && total <= usize::MAX as u128;
        if kinds_ok && cap_ok && total_ok {
            Some(
                Scheduler {
                    new_cards,
                    learning_cards,
                    reviewing_cards,
                    done_learning,
                    params,
                },
            )
        } else {
            None
        }
    }

    /// Applies a rating to the currently presented card at the current
    /// wall-clock time. Whatever the clock returns, the effect is one
    /// `rate_card_spec` step: the card total is conserved and
    /// well-formedness kept.
    pub fn rate_card(&mut self, rating: Rating)
        requires
            old(self)@.wf(),
        ensures
            exists|now: i64| final(self)@ == rate_card_spec(old(self)@, rating, now),
            final(self)@.wf(),
            final(self)@.total() == old(self)@.total(),
            final(self)@.params == old(self)@.params,
    {
        let now = crate::clock::now_timestamp();
        self.rate_card_at(rating, now);
        proof {
            assert(self@ == rate_card_spec(old(self)@, rating, now));
        }
    }
}

/// A whole session: the scheduler state after a sequence of rating steps,
/// each with its own timestamp.
pub open spec fn run_spec<C>(v: SchedView<C>, steps: Seq<(Rating, i64)>) -> SchedView<C>
    decreases steps.len(),
{
    if steps.len() == 0 {
        v
    } else {
        run_spec(rate_card_spec(v, steps[0].0, steps[0].1), steps.drop_first())
    }
}

/// Conservation: across every sequence of ratings the card total is kept —
/// no card is ever created or dropped — and the scheduler stays well-formed.
pub proof fn lemma_conservation<C>(v: SchedView<C>, steps: Seq<(Rating, i64)>)
    requires
        v.wf(),
    ensures
        run_spec(v, steps).wf(),
        run_spec(v, steps).total() == v.total(),
        run_spec(v, steps).params == v.params,
    decreases steps.len(),
{
    if steps.len() > 0 {
        lemma_rate_preserves(v, steps[0].0, steps[0].1);
        lemma_conservation(rate_card_spec(v, steps[0].0, steps[0].1), steps.drop_first());
    }
}

/// On a well-formed scheduler the three per-state counts partition the deck:
/// `new_count + learning_count + review_count` equals the total.
pub proof fn lemma_state_counts_partition<C>(v: SchedView<C>)
    requires
        v.kinds_ok(),
    ensures
        v.new_count() + v.learning_count() + v.review_count() == v.total(),
{
    lemma_new_learning_counts(v.learning);
}

/// Over a queue of fresh and learning cards, the fresh and the learning
/// counts add up to the length.
proof fn lemma_new_learning_counts<C>(s: Seq<FlashCard<C>>)
    requires
        forall|i: int| 0 <= i < s.len() ==> is_new_or_learning(#[trigger] s[i]),
    ensures
        count_matching(s, new_pred::<C>()) + count_matching(s, learning_pred::<C>()) == s.len(),
    decreases s.len(),
{
    if s.len() > 0 {
        assert forall|i: int| 0 <= i < s.drop_last().len() implies is_new_or_learning(
            #[trigger] s.drop_last()[i],
        ) by {
            assert(s.drop_last()[i] == s[i]);
        }
        lemma_new_learning_counts(s.drop_last());
        assert(is_new_or_learning(s.last()));
    }
}

/// Easiness floor: after any sequence of ratings, every consolidated card
/// keeps an easiness factor of at least 1.3 (thousandths floor 1300).
pub proof fn lemma_easiness_floor_run<C>(v: SchedView<C>, steps: Seq<(Rating, i64)>)
    requires
        v.wf(),
    ensures
        forall|i: int|
            0 <= i < run_spec(v, steps).reviewing.len() ==> is_review_wf(
                #[trigger] run_spec(v, steps).reviewing[i],
            ),
{
    lemma_conservation(v, steps);
}

/// Mastery promotion: a fresh card, rated once and then successfully
/// `MAX_LEARNING_ATTEMPTS` (Novice: 3) times in a row, reaches the mastery
/// threshold exactly at the last of those ratings, and at no earlier one.
pub proof fn lemma_mastery_promotion<C>(
    c: FlashCard<C>,
    r0: Rating,
    r1: Rating,
    r2: Rating,
    r3: Rating,
    t0: i64,
    t1: i64,
    t2: i64,
    t3: i64,
)
    requires
        c.card == Card::New,
        r1 != Rating::Again,
        r2 != Rating::Again,
        r3 != Rating::Again,
    ensures
        ({
            let p = ScheduleParam::Novice;
            let (c1, m1, _) = learn_transition(p, c, r0, t0);
            let (c2, m2, _) = learn_transition(p, c1, r1, t1);
            let (c3, m3, _) = learn_transition(p, c2, r2, t2);
            let (c4, m4, _) = learn_transition(p, c3, r3, t3);
            &&& c1.card == (Card::Learning { attempts: 0i32, last_reviewed: t0 })
            &&& c2.card == (Card::Learning { attempts: 1i32, last_reviewed: t1 })
            &&& c3.card == (Card::Learning { attempts: 2i32, last_reviewed: t2 })
            &&& c4.card == (Card::Learning { attempts: 3i32, last_reviewed: t3 })
            &&& !m1 && !m2 && !m3
            &&& m4
        }),
{
}

/// Failure demotion: a review card rated `Again` either re-enters the
/// learning queue as `Learning { attempts: 1 }` at the first failure
/// distance (while that queue is non-empty), or restarts its review cycle
/// with repetition 0, interval 3 and a due time one minute ahead.
pub proof fn lemma_failure_demotion<C>(v: SchedView<C>, now: i64)
    requires
        v.wf(),
        review_status_spec(v) != ReviewStatus::Learn,
    ensures
        ({
            let st = review_status_spec(v);
            let c = if st == ReviewStatus::Review {
                v.reviewing[0]
            } else {
                v.reviewing.last()
            };
            let rest = if st == ReviewStatus::Review {
                v.reviewing.drop_first()
            } else {
                v.reviewing.drop_last()
            };
            let w = rate_card_spec(v, Rating::Again, now);
            if v.learning.len() > 0 {
                let at = imin(v.params.learning_intervals_f_spec()[0], v.learning.len() as int);
                w.learning[at] == (FlashCard {
                    content: c.content,
                    card: Card::Learning { attempts: 1i32, last_reviewed: now },
                })
            } else {
                let at = imin(3, rest.len() as int);
                w.reviewing[at] == review_failure_card(c, now)
            }
        }),
{
    v.params.lemma_tables_well_formed();
    let st = review_status_spec(v);
    let c = if st == ReviewStatus::Review {
        v.reviewing[0]
    } else {
        v.reviewing.last()
    };
    let rest = if st == ReviewStatus::Review {
        v.reviewing.drop_first()
    } else {
        v.reviewing.drop_last()
    };
    let mid = rate_review_spec(v, st, Rating::Again, now);
    if v.learning.len() > 0 {
        let at = imin(v.params.learning_intervals_f_spec()[0], v.learning.len() as int);
        let c2 = FlashCard {
            content: c.content,
            card: Card::Learning { attempts: 1i32, last_reviewed: now },
        };
        v.learning.insert_ensures(at, c2);
        if v.new_cards.len() > 0 {
            assert(v.learning.len() >= v.params.learning_cards_spec());
            assert(mid.learning.len() >= v.params.learning_cards_spec());
        }
        assert(populate_spec(mid) == mid);
    } else {
        let at = imin(3, rest.len() as int);
        rest.insert_ensures(at, review_failure_card(c, now));
        assert(v.new_cards.len() == 0);
        assert(populate_spec(mid) == mid);
    }
}

} // verus!


