//! Per-user training state: the selected scheme and one training progress
//! per scheme, keyed by scheme identifier. Reading and writing the backing
//! store is the surrounding application's business; this module holds the
//! decisions — initializing a scheme once, addressing the current progress,
//! resetting it — and the progress type that wraps a scheduler with its
//! start time.

use vstd::prelude::*;

use crate::scheduler::{
    populate_spec, rate_card_spec, FlashCard, Rating, ScheduleParam, SchedView, Scheduler,
    get_card_spec, is_new, new_pred, count_matching,
};
use crate::scheme::{
    LoadedScheme, SchemeOptions, SchemeZigen, SchemeZigenV, ZigenConfusable,
    ZigenConfusableUnpopulated, catalog_groups, last_match, sorted_catalog,
};

verus! {

/// The content a flash card carries here: one catalog entry.
pub type ZigenContent = SchemeZigen<ZigenConfusable>;

/// One scheme's training progress: when it started and the scheduler state.
pub struct TrainProgress {
    start_time: i64,
    scheduler: Scheduler<ZigenContent>,
}

impl View for TrainProgress {
    type V = SchedView<ZigenContent>;

    closed spec fn view(&self) -> SchedView<ZigenContent> {
        self.scheduler@
    }
}

impl TrainProgress {
    /// When this progress was started, as Unix seconds.
    pub closed spec fn start_time_spec(&self) -> i64 {
        self.start_time
    }

    /// When this progress was started, as Unix seconds.
    pub fn start_time(&self) -> (t: i64)
        ensures
            t == self.start_time_spec(),
    {
        self.start_time
    }

    /// Builds a progress over a fresh deck, started now. A deck must not be
    /// empty: the caller surfaces that as an error beforehand.
    pub fn new(pending_cards: Vec<FlashCard<ZigenContent>>, adept: bool) -> (r: Self)
        requires
            pending_cards@.len() >= 1,
            forall|i: int| 0 <= i < pending_cards@.len() ==> is_new(#[trigger] pending_cards@[i]),
        ensures
            r@ == populate_spec(
                SchedView {
                    new_cards: pending_cards@.reverse(),
                    learning: Seq::empty(),
                    reviewing: Seq::empty(),
                    done_learning: 0,
                    params: if adept {
                        ScheduleParam::Adept
                    } else {
                        ScheduleParam::Novice
                    },
                },
            ),
            r@.wf(),
            r@.total() == pending_cards@.len(),
    {
        let start_time = crate::clock::now_timestamp();
        let params = if adept {
            ScheduleParam::Adept
        } else {
            ScheduleParam::Novice
        };
        TrainProgress { start_time, scheduler: Scheduler::new(pending_cards, params) }
    }

    /// Applies a rating at the current wall-clock time; one exact
    /// `rate_card_spec` step for some timestamp.
    pub fn rate_card(&mut self, rating: Rating)
        requires
            old(self)@.wf(),
        ensures
            exists|now: i64| final(self)@ == rate_card_spec(old(self)@, rating, now),
            final(self)@.wf(),
            final(self)@.total() == old(self)@.total(),
            final(self).start_time_spec() == old(self).start_time_spec(),
    {
        self.scheduler.rate_card(rating);
    }

    /// The card to present next.
    pub fn get_card(&self) -> (c: &FlashCard<ZigenContent>)
        requires
            self@.wf(),
        ensures
            *c == get_card_spec(self@),
    {
        self.scheduler.get_card()
    }

    /// How many cards have at least entered study.
    pub fn reviewed_cards(&self) -> (n: usize)
        requires
            self@.wf(),
        ensures
            n == self@.learning.len() - count_matching(self@.learning, new_pred::<ZigenContent>())
                + self@.reviewing.len(),
    {
        self.scheduler.reviewed_cards()
    }

    /// The total number of cards held.
    pub fn total_cards(&self) -> (n: usize)
        requires
            self@.total() <= usize::MAX,
        ensures
            n == self@.total(),
    {
        self.scheduler.total_cards()
    }
}

/// The model of a user state: the selected scheme and the keyed progresses.
pub struct UserStateView {
    /// Identifier of the scheme being trained.
    pub current_scheme: Seq<char>,
    /// One progress per initialized scheme, in insertion order.
    pub progresses: Seq<(String, TrainProgress)>,
}

/// Whether some entry carries the key.
pub open spec fn has_key(s: Seq<(String, TrainProgress)>, id: Seq<char>) -> bool {
    exists|i: int| 0 <= i < s.len() && (#[trigger] s[i]).0@ == id
}

/// The index of the first entry carrying the key.
pub open spec fn first_key_index(s: Seq<(String, TrainProgress)>, id: Seq<char>) -> int
    decreases s.len(),
{
    if s.len() == 0 {
        0
    } else if s[0].0@ == id {
        0
    } else {
        1 + first_key_index(s.drop_first(), id)
    }
}

/// On a sequence that carries the key, the first key index is in range,
/// matches, and nothing before it matches.
pub proof fn lemma_first_key_index(s: Seq<(String, TrainProgress)>, id: Seq<char>)
    requires
        has_key(s, id),
    ensures
        0 <= first_key_index(s, id) < s.len(),
        s[first_key_index(s, id)].0@ == id,
        forall|j: int| 0 <= j < first_key_index(s, id) ==> (#[trigger] s[j]).0@ != id,
    decreases s.len(),
{
    if s.len() > 0 && s[0].0@ != id {
        let w = choose|i: int| 0 <= i < s.len() && (#[trigger] s[i]).0@ == id;
        assert(s.drop_first()[w - 1].0@ == id);
        lemma_first_key_index(s.drop_first(), id);
        let k = first_key_index(s.drop_first(), id);
        assert(s[k + 1] == s.drop_first()[k]);
        assert forall|j: int| 0 <= j < first_key_index(s, id) implies (#[trigger] s[j]).0@
            != id by {
            if j > 0 {
                assert(s.drop_first()[j - 1] == s[j]);
            }
        }
    }
}

/// The length of a catalog after ordering to the options.
pub open spec fn sorted_catalog_len(
    sv: Seq<SchemeZigenV<crate::scheme::GroupListV>>,
    options: SchemeOptions,
) -> int {
    sorted_catalog(sv, options).len() as int
}

/// The deck of a training progress in presentation order — the learning
/// queue, then the unseen stack from top to bottom — by the models of the
/// cards' contents.
pub open spec fn fresh_deck_views(v: SchedView<ZigenContent>) -> Seq<
    SchemeZigenV<crate::scheme::GroupListV>,
> {
    let s = v.learning + v.new_cards.reverse();
    Seq::new(s.len(), |i: int| s[i].content@)
}

/// A freshly built progress holds exactly the supplied cards: the learning
/// queue followed by the unseen stack (top down) is the deck in order, the
/// review queue is empty and the interleave counter zero.
pub proof fn lemma_fresh_progress_deck(cards: Seq<FlashCard<ZigenContent>>, adept: bool)
    requires
        cards.len() >= 1,
    ensures
        ({
            let v = populate_spec(
                SchedView {
                    new_cards: cards.reverse(),
                    learning: Seq::empty(),
                    reviewing: Seq::empty(),
                    done_learning: 0,
                    params: if adept {
                        ScheduleParam::Adept
                    } else {
                        ScheduleParam::Novice
                    },
                },
            );
            &&& v.learning + v.new_cards.reverse() == cards
            &&& v.reviewing == Seq::<FlashCard<ZigenContent>>::empty()
            &&& v.done_learning == 0
        }),
{
    let params = if adept {
        ScheduleParam::Adept
    } else {
        ScheduleParam::Novice
    };
    params.lemma_tables_well_formed();
    let n = cards.len() as int;
    let rev = cards.reverse();
    let init = SchedView {
        new_cards: rev,
        learning: Seq::<FlashCard<ZigenContent>>::empty(),
        reviewing: Seq::<FlashCard<ZigenContent>>::empty(),
        done_learning: 0,
        params,
    };
    let v = populate_spec(init);
    let cap = params.learning_cards_spec();
    let take_n = crate::scheduler::imin(cap, n);
    let start = n - take_n;
    assert(v.learning == rev.subrange(start, n).reverse());
    assert(v.new_cards == rev.take(start));
    assert forall|i: int| 0 <= i < n implies (v.learning + v.new_cards.reverse())[i]
        == cards[i] by {
        if i < take_n {
            assert(v.learning[i] == rev.subrange(start, n)[take_n - 1 - i]);
            assert(rev[start + take_n - 1 - i] == cards[n - 1 - (start + take_n - 1 - i)]);
        } else {
            assert(v.new_cards.reverse()[i - take_n] == rev.take(start)[start - 1 - (i - take_n)]);
            assert(rev[start - 1 - (i - take_n)] == cards[n - 1 - (start - 1 - (i - take_n))]);
        }
    }
    assert(v.learning + v.new_cards.reverse() =~= cards);
}

/// Per-user training state.
pub struct UserState {
    current_scheme: String,
    progresses: Vec<(String, TrainProgress)>,
}

impl View for UserState {
    type V = UserStateView;

    closed spec fn view(&self) -> UserStateView {
        UserStateView { current_scheme: self.current_scheme@, progresses: self.progresses@ }
    }
}

impl UserState {
    /// A state with no scheme selected and no progress.
    pub fn new() -> (r: Self)
        ensures
            r@.current_scheme == Seq::<char>::empty(),
            r@.progresses == Seq::<(String, TrainProgress)>::empty(),
    {
        UserState { current_scheme: String::new(), progresses: Vec::new() }
    }

    /// Rebuilds a state from its parts, as the surrounding application does
    /// after loading them from its store.
    pub fn from_parts(current_scheme: String, progresses: Vec<(String, TrainProgress)>) -> (r:
        Self)
        ensures
            r@.current_scheme == current_scheme@,
            r@.progresses == progresses@,
    {
        UserState { current_scheme, progresses }
    }

    /// Identifier of the scheme being trained.
    pub fn current_scheme(&self) -> (r: &str)
        ensures
            r@ == self@.current_scheme,
    {
        self.current_scheme.as_str()
    }

    /// Whether a scheme already has a progress.
    pub fn has_progress(&self, scheme_id: &str) -> (b: bool)
        ensures
            b == has_key(self@.progresses, scheme_id@),
    {
        let key = scheme_id.to_owned();
        let mut i: usize = 0;
        while i < self.progresses.len()
            invariant
                key@ == scheme_id@,
                i <= self.progresses@.len(),
                forall|j: int| 0 <= j < i ==> (#[trigger] self.progresses@[j]).0@ != scheme_id@,
            decreases self.progresses@.len() - i,
        {
            if self.progresses[i].0 == key {
                proof {
                    assert(self.progresses@[i as int].0@ == scheme_id@);
                }
                return true;
            }
            i = i + 1;
        }
        false
    }

    /// The progress of the selected scheme.
    pub fn current_progress(&self) -> (r: &TrainProgress)
        requires
            has_key(self@.progresses, self@.current_scheme),
        ensures
            *r == self@.progresses[first_key_index(self@.progresses, self@.current_scheme)].1,
    {
        proof {
            lemma_first_key_index(self@.progresses, self@.current_scheme);
        }
        let mut i: usize = 0;
        loop
            invariant
                has_key(self@.progresses, self@.current_scheme),
                i <= self.progresses@.len(),
                forall|j: int|
                    0 <= j < i ==> (#[trigger] self.progresses@[j]).0@ != self@.current_scheme,
            ensures
                i < self.progresses@.len(),
                i == first_key_index(self@.progresses, self@.current_scheme),
            decreases self.progresses@.len() - i,
        {
            proof {
                lemma_first_key_index(self@.progresses, self@.current_scheme);
            }
            if i >= self.progresses.len() {
                proof {
                    assert(false);
                }
            }
            if self.progresses[i].0 == self.current_scheme {
                proof {
                    lemma_first_key_index_unique(self@.progresses, self@.current_scheme, i as int);
                }
                break;
            }
            i = i + 1;
        }
        &self.progresses[i].1
    }

    /// Mutable access to the progress of the selected scheme; all other
    /// entries and the selection are untouched.
    pub fn current_progress_mut(&mut self) -> (r: &mut TrainProgress)
        requires
            has_key(old(self)@.progresses, old(self)@.current_scheme),
        ensures
            *r == old(self)@.progresses[first_key_index(
                old(self)@.progresses,
                old(self)@.current_scheme,
            )].1,
            final(self)@.current_scheme == old(self)@.current_scheme,
            final(self)@.progresses == old(self)@.progresses.update(
                first_key_index(old(self)@.progresses, old(self)@.current_scheme),
                (
                    old(self)@.progresses[first_key_index(
                        old(self)@.progresses,
                        old(self)@.current_scheme,
                    )].0,
                    *final(r),
                ),
            ),
    {
        proof {
            lemma_first_key_index(old(self)@.progresses, old(self)@.current_scheme);
        }
        let mut i: usize = 0;
        loop
            invariant
                self == old(self),
                has_key(self@.progresses, self@.current_scheme),
                i <= self.progresses@.len(),
                forall|j: int|
                    0 <= j < i ==> (#[trigger] self.progresses@[j]).0@ != self@.current_scheme,
            ensures
                self == old(self),
                i < self.progresses@.len(),
                i == first_key_index(self@.progresses, self@.current_scheme),
            decreases self.progresses@.len() - i,
        {
            proof {
                lemma_first_key_index(self@.progresses, self@.current_scheme);
            }
            if i >= self.progresses.len() {
                proof {
                    assert(false);
                }
            }
            if self.progresses[i].0 == self.current_scheme {
                proof {
                    lemma_first_key_index_unique(self@.progresses, self@.current_scheme, i as int);
                }
                break;
            }
            i = i + 1;
        }
        let entry = &mut self.progresses[i];
        &mut entry.1
    }

    /// Selects a scheme; on its first selection, builds its training
    /// progress: the confusable sets are populated, the catalog is ordered
    /// to the options, and every entry becomes one fresh card. A scheme
    /// whose ordered catalog is empty is rejected, and exactly then.
    pub fn try_initialize_scheme(
        &mut self,
        scheme_id: &str,
        scheme: &LoadedScheme<ZigenConfusableUnpopulated>,
        options: SchemeOptions,
    ) -> (r: Result<(), String>)
        requires
            forall|i: int|
                0 <= i < scheme@.len() ==> match #[trigger] scheme@[i] {
                    SchemeZigenV::Confusable(con) => forall|j: int|
                        0 <= j < con.zigens.len() ==> last_match(
                            catalog_groups(scheme@),
                            #[trigger] con.zigens[j],
                        ) is Some,
                    SchemeZigenV::Category(_) => true,
                },
        ensures
            final(self)@.current_scheme == scheme_id@,
            has_key(old(self)@.progresses, scheme_id@) ==> r is Ok && final(self)@.progresses
                == old(self)@.progresses,
            !has_key(old(self)@.progresses, scheme_id@) ==> {
                let n = sorted_catalog_len(crate::scheme::populated_view(scheme@), options);
                if n == 0 {
                    r is Err && final(self)@.progresses == old(self)@.progresses
                } else {
                    let p = final(self)@.progresses.last().1@;
                    let target = sorted_catalog(crate::scheme::populated_view(scheme@), options);
                    &&& r is Ok
                    &&& final(self)@.progresses.len() == old(self)@.progresses.len() + 1
                    &&& final(self)@.progresses.take(old(self)@.progresses.len() as int) == old(
                        self,
                    )@.progresses
                    &&& final(self)@.progresses.last().0@ == scheme_id@
                    &&& p.wf()
                    &&& p.total() == n
                    &&& p.reviewing == Seq::<FlashCard<ZigenContent>>::empty()
                    &&& p.done_learning == 0
                    &&& forall|j: int|
                        0 <= j < p.learning.len() ==> is_new(#[trigger] p.learning[j])
                    &&& forall|j: int|
                        0 <= j < p.new_cards.len() ==> is_new(#[trigger] p.new_cards[j])
                    &&& !options.shuffle ==> fresh_deck_views(p) == target
                    &&& fresh_deck_views(p).to_multiset() == target.to_multiset()
                }
            },
    {
        self.current_scheme = scheme_id.to_owned();
        if self.has_progress(scheme_id) {
            return Ok(());
        }
        let copy = crate::scheme::clone_unpopulated_scheme(scheme);
        let populated = copy.populate_confusables();
        proof {
            let pv = crate::scheme::populated_view(scheme@);
            assert forall|i: int| 0 <= i < populated@.len() implies #[trigger] populated@[i]
                == pv[i] by {
                match scheme@[i] {
                    SchemeZigenV::Category(c1) => {},
                    SchemeZigenV::Confusable(con) => {
                        match populated@[i] {
                            SchemeZigenV::Confusable(pc) => {
                                assert(pc.groups =~= Seq::new(
                                    con.zigens.len(),
                                    |j: int|
                                        last_match(
                                            catalog_groups(scheme@),
                                            con.zigens[j],
                                        ).unwrap(),
                                ));
                            },
                            SchemeZigenV::Category(_) => {},
                        }
                    },
                }
            }
            assert(populated@ =~= pv);
        }
        let mut populated = populated;
        populated.sort_to_options(&options);
        proof {
            assert(populated@.len() == sorted_catalog_len(
                crate::scheme::populated_view(scheme@),
                options,
            ));
        }
        let ghost sorted_view = populated@;
        let ghost n_expected = populated@.len() as int;
        let mut entries = populated.0;
        let ghost orig_entries = entries@;
        let mut cards: Vec<FlashCard<ZigenContent>> = Vec::new();
        proof {
            assert(entries@ =~= orig_entries.skip(cards@.len() as int));
        }
        while entries.len() > 0
            invariant
                cards@.len() + entries@.len() == n_expected,
                orig_entries.len() == n_expected,
                entries@ == orig_entries.skip(cards@.len() as int),
                forall|j: int|
                    0 <= j < cards@.len() ==> #[trigger] cards@[j] == (FlashCard {
                        content: orig_entries[j],
                        card: crate::scheduler::Card::New,
                    }),
                forall|j: int| 0 <= j < cards@.len() ==> is_new(#[trigger] cards@[j]),
            decreases entries@.len(),
        {
            let ghost done = cards@.len() as int;
            let e = entries.remove(0);
            proof {
                assert(orig_entries.skip(done)[0] == orig_entries[done]);
                assert(entries@ =~= orig_entries.skip(done + 1));
            }
            cards.push(FlashCard { content: e, card: crate::scheduler::Card::New });
        }
        if cards.len() == 0 {
            return Err("no cards to train".to_owned());
        }
        let ghost deck = cards@;
        let progress = TrainProgress::new(cards, options.adept);
        let ghost pview = progress@;
        let ghost before = self.progresses@;
        self.progresses.push((scheme_id.to_owned(), progress));
        proof {
            assert(self.progresses@.take(before.len() as int) =~= before);
            lemma_fresh_progress_deck(deck, options.adept);
            assert(pview.learning + pview.new_cards.reverse() == deck);
            // The deck's content models are exactly the sorted catalog.
            assert forall|i: int| 0 <= i < n_expected implies fresh_deck_views(pview)[i]
                == sorted_view[i] by {
                assert(deck[i].content == orig_entries[i]);
                assert(sorted_view[i] == populated.0@[i]@);
            }
            assert(fresh_deck_views(pview) =~= sorted_view);
            // Every card in the fresh progress is a fresh card.
            assert forall|j: int| 0 <= j < pview.learning.len() implies is_new(
                #[trigger] pview.learning[j],
            ) by {
                assert(pview.learning[j] == (pview.learning + pview.new_cards.reverse())[j]);
            }
            assert forall|j: int| 0 <= j < pview.new_cards.len() implies is_new(
                #[trigger] pview.new_cards[j],
            ) by {
                let k = pview.new_cards.len() - 1 - j;
                assert(pview.new_cards.reverse()[k] == pview.new_cards[j]);
                assert(pview.new_cards[j] == (pview.learning + pview.new_cards.reverse())[
                    pview.learning.len() + k]);
            }
        }
        Ok(())
    }

    /// Forgets the progress of the selected scheme, if any.
    pub fn reset_current_progress(&mut self)
        ensures
            final(self)@.current_scheme == old(self)@.current_scheme,
            has_key(old(self)@.progresses, old(self)@.current_scheme) ==> final(self)@.progresses
                == old(self)@.progresses.remove(
                first_key_index(old(self)@.progresses, old(self)@.current_scheme),
            ),
            !has_key(old(self)@.progresses, old(self)@.current_scheme) ==> final(self)@.progresses
                == old(self)@.progresses,
    {
        let mut i: usize = 0;
        while i < self.progresses.len()
            invariant
                self == old(self),
                i <= self.progresses@.len(),
                forall|j: int|
                    0 <= j < i ==> (#[trigger] self.progresses@[j]).0@ != self@.current_scheme,
            decreases self.progresses@.len() - i,
        {
            if self.progresses[i].0 == self.current_scheme {
                proof {
                    assert(self.progresses@[i as int].0@ == self@.current_scheme);
                    lemma_first_key_index_unique(self@.progresses, self@.current_scheme, i as int);
                }
                let _ = self.progresses.remove(i);
                return ;
            }
            i = i + 1;
        }
        proof {
            if has_key(self@.progresses, self@.current_scheme) {
                let w = choose|w: int|
                    0 <= w < self@.progresses.len() && (#[trigger] self@.progresses[w]).0@
                        == self@.current_scheme;
                assert(false);
            }
        }
    }
}

/// A match at an index with no earlier match pins the first key index.
pub proof fn lemma_first_key_index_unique(
    s: Seq<(String, TrainProgress)>,
    id: Seq<char>,
    k: int,
)
    requires
        0 <= k < s.len(),
        s[k].0@ == id,
        forall|j: int| 0 <= j < k ==> (#[trigger] s[j]).0@ != id,
    ensures
        first_key_index(s, id) == k,
    decreases k,
{
    if k > 0 {
        assert(s[0].0@ != id);
        assert(s.drop_first()[k - 1] == s[k]);
        assert forall|j: int| 0 <= j < k - 1 implies (#[trigger] s.drop_first()[j]).0@ != id by {
            assert(s.drop_first()[j] == s[j + 1]);
        }
        lemma_first_key_index_unique(s.drop_first(), id, k - 1);
    }
}

} // verus!
