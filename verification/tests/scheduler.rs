use zigen_trainer::scheduler::{
    attempts_after, ef_after, next_interval, sat_add_i64, Card, FlashCard, Rating, ScheduleParam,
    Scheduler,
};

fn deck(n: u32) -> Vec<FlashCard<u32>> {
    let mut cards = Vec::new();
    let mut i = 0;
    while i < n {
        cards.push(FlashCard { content: i, card: Card::New });
        i += 1;
    }
    cards
}

#[test]
fn params_tables_match_thresholds() {
    let novice = ScheduleParam::Novice;
    assert_eq!(novice.max_learning_attempts(), 3);
    assert_eq!(novice.learn_review_ratio(), 8);
    assert_eq!(novice.learning_intervals_s(), vec![3, 6, 9]);
    assert_eq!(novice.learning_intervals_f(), vec![2, 4, 6]);
    assert_eq!(novice.learning_cards(), 10);
    assert_eq!(
        novice.learning_intervals_s().len(),
        novice.max_learning_attempts()
    );
    assert_eq!(
        novice.learning_intervals_f().len(),
        novice.max_learning_attempts()
    );
    assert_eq!(
        novice.learning_cards(),
        novice.learning_intervals_s()[novice.max_learning_attempts() - 1] + 1
    );

    let adept = ScheduleParam::Adept;
    assert_eq!(adept.max_learning_attempts(), 2);
    assert_eq!(adept.learn_review_ratio(), 20);
    assert_eq!(adept.learning_intervals_s(), vec![3, 6]);
    assert_eq!(adept.learning_intervals_f(), vec![2, 4]);
    assert_eq!(adept.learning_cards(), 7);
    assert_eq!(
        adept.learning_cards(),
        adept.learning_intervals_s()[adept.max_learning_attempts() - 1] + 1
    );
}

#[test]
fn easiness_update_is_exact_and_floored() {
    // ef + 0.1 - d*(0.08 + d*0.2), in thousandths.
    assert_eq!(ef_after(2500, 0), 2600); // Easy: +0.1
    assert_eq!(ef_after(2500, 1), 2320); // Good: -0.18
    assert_eq!(ef_after(2500, 2), 1640); // Hard: -0.86
    assert_eq!(ef_after(2500, 3), 1300); // Again: -1.94, floored at 1.3
    assert_eq!(ef_after(1300, 3), 1300);
    assert_eq!(ef_after(1300, 0), 1400);
    assert_eq!(ef_after(3300, 3), 1360); // 3.3 - 1.94 = 1.36, above the floor
}

#[test]
fn next_interval_follows_sm2_steps() {
    assert_eq!(next_interval(1, 0, 2500), 3);
    assert_eq!(next_interval(1, 1, 2500), 6);
    // round(10 * 2.6) = 26
    assert_eq!(next_interval(10, 2, 2600), 26);
    // round(3 * 2.5) = round(7.5) = 8, half away from zero
    assert_eq!(next_interval(3, 2, 2500), 8);
    // round(3 * 1.3) = round(3.9) = 4
    assert_eq!(next_interval(3, 5, 1300), 4);
}

#[test]
fn attempts_ratchet_is_asymmetric() {
    assert_eq!(attempts_after(0, true), -1);
    assert_eq!(attempts_after(-2, true), -3);
    assert_eq!(attempts_after(5, true), 0);
    assert_eq!(attempts_after(-1, false), 0);
    assert_eq!(attempts_after(0, false), 1);
    assert_eq!(attempts_after(2, false), 3);
}

#[test]
fn saturating_add_clamps_at_the_ends() {
    assert_eq!(sat_add_i64(1, 2), 3);
    assert_eq!(sat_add_i64(i64::MAX, 1), i64::MAX);
    assert_eq!(sat_add_i64(i64::MIN, -1), i64::MIN);
    assert_eq!(sat_add_i64(-5, 3), -2);
}

#[test]
fn rating_difficulty_scalars() {
    assert_eq!(Rating::Again.difficulty(), 3);
    assert_eq!(Rating::Hard.difficulty(), 2);
    assert_eq!(Rating::Good.difficulty(), 1);
    assert_eq!(Rating::Easy.difficulty(), 0);
}

#[test]
fn single_card_good_ratings_promote_and_grow() {
    // One card, Novice parameters: New -> Learning{0} -> Learning{1} ->
    // Learning{2} -> Review{repetition: 1, easiness_factor: 2.5}; the next
    // success takes the repetition==1 branch and gives interval 6.
    let mut s: Scheduler<u32> = Scheduler::new(deck(1), ScheduleParam::Novice);
    assert_eq!(s.get_card().card, Card::New);
    assert_eq!(s.total_cards(), 1);
    assert_eq!(s.reviewed_cards(), 0);

    s.rate_card_at(Rating::Good, 100);
    assert_eq!(
        s.get_card().card,
        Card::Learning { attempts: 0, last_reviewed: 100 }
    );
    assert_eq!(s.reviewed_cards(), 1);

    s.rate_card_at(Rating::Good, 200);
    assert_eq!(
        s.get_card().card,
        Card::Learning { attempts: 1, last_reviewed: 200 }
    );

    s.rate_card_at(Rating::Good, 300);
    assert_eq!(
        s.get_card().card,
        Card::Learning { attempts: 2, last_reviewed: 300 }
    );

    s.rate_card_at(Rating::Good, 400);
    assert_eq!(
        s.get_card().card,
        Card::Review {
            last_interval: 1,
            repetition: 1,
            easiness_factor: 2500,
            last_reviewed: 400,
            due: 400 + 86400,
        }
    );

    s.rate_card_at(Rating::Good, 500);
    assert_eq!(
        s.get_card().card,
        Card::Review {
            last_interval: 6,
            repetition: 2,
            easiness_factor: 2320,
            last_reviewed: 500,
            due: 500 + 86400,
        }
    );
    assert_eq!(s.total_cards(), 1);
    assert_eq!(s.reviewed_cards(), 1);
}

#[test]
fn failed_review_without_learning_room_restarts_the_cycle() {
    // With an empty learning queue a failed review resets to repetition 0,
    // interval 3, and a due time one minute ahead.
    let mut s: Scheduler<u32> = Scheduler::new(deck(1), ScheduleParam::Novice);
    for t in 1..=4 {
        s.rate_card_at(Rating::Good, t * 100);
    }
    assert!(matches!(s.get_card().card, Card::Review { .. }));

    s.rate_card_at(Rating::Again, 1000);
    assert_eq!(
        s.get_card().card,
        Card::Review {
            last_interval: 3,
            repetition: 0,
            easiness_factor: 1300, // 2.5 + 0.1 - 1.94 = 0.66, floored at 1.3
            last_reviewed: 1000,
            due: 1000 + 60,
        }
    );
}

#[test]
fn card_total_is_conserved_across_every_rating() {
    let mut s: Scheduler<u32> = Scheduler::new(deck(12), ScheduleParam::Novice);
    let ratings = [Rating::Good, Rating::Again, Rating::Easy, Rating::Hard];
    let mut t: i64 = 0;
    for step in 0..400 {
        s.rate_card_at(ratings[step % 4], t);
        t += 30;
        assert_eq!(s.total_cards(), 12);
        assert!(s.reviewed_cards() <= 12);
    }
}

#[test]
fn adept_parameters_conserve_too() {
    let mut s: Scheduler<u32> = Scheduler::new(deck(9), ScheduleParam::Adept);
    let mut t: i64 = 0;
    for step in 0..200 {
        let r = if step % 5 == 0 { Rating::Again } else { Rating::Good };
        s.rate_card_at(r, t);
        t += 45;
        assert_eq!(s.total_cards(), 9);
    }
}

#[test]
fn reviewed_cards_counts_entered_study() {
    let mut s: Scheduler<u32> = Scheduler::new(deck(3), ScheduleParam::Novice);
    assert_eq!(s.reviewed_cards(), 0);
    s.rate_card_at(Rating::Good, 10);
    assert_eq!(s.reviewed_cards(), 1);
    s.rate_card_at(Rating::Good, 20);
    assert_eq!(s.reviewed_cards(), 2);
}

#[test]
fn snapshot_round_trip_reproduces_decisions() {
    let mut original: Scheduler<u32> = Scheduler::new(deck(5), ScheduleParam::Novice);
    for t in 0..7i64 {
        original.rate_card_at(Rating::Good, t * 50);
    }
    let (new_cards, learning, reviewing, done, params) = original.parts();
    let restored = Scheduler::from_parts(
        new_cards.clone(),
        learning.clone(),
        reviewing.clone(),
        done,
        params,
    );
    let mut restored = restored.expect("a snapshot of a live scheduler is well-formed");
    assert_eq!(restored.get_card().card, original.get_card().card);
    assert_eq!(restored.get_card().content, original.get_card().content);
    // Subsequent decisions are identical.
    for t in 0..9i64 {
        original.rate_card_at(Rating::Hard, 1000 + t * 50);
        restored.rate_card_at(Rating::Hard, 1000 + t * 50);
        assert_eq!(restored.get_card().card, original.get_card().card);
        assert_eq!(restored.get_card().content, original.get_card().content);
    }
}

#[test]
fn malformed_snapshots_are_refused() {
    // A review-state card inside the learning queue is not a valid state.
    let mut learning = std::collections::VecDeque::new();
    learning.push_back(FlashCard {
        content: 1u32,
        card: Card::Review {
            last_interval: 1,
            repetition: 1,
            easiness_factor: 2500,
            last_reviewed: 0,
            due: 60,
        },
    });
    assert!(
        Scheduler::from_parts(Vec::new(), learning, std::collections::VecDeque::new(), 0,
        ScheduleParam::Novice).is_none()
    );
    // An empty deck is not a valid state either.
    assert!(
        Scheduler::<u32>::from_parts(Vec::new(), std::collections::VecDeque::new(),
        std::collections::VecDeque::new(), 0, ScheduleParam::Novice).is_none()
    );
}

fn learning_card(id: u32, attempts: i32) -> FlashCard<u32> {
    FlashCard { content: id, card: Card::Learning { attempts, last_reviewed: 0 } }
}

fn review_card(id: u32, due: i64) -> FlashCard<u32> {
    FlashCard {
        content: id,
        card: Card::Review {
            last_interval: 3,
            repetition: 1,
            easiness_factor: 2500,
            last_reviewed: 0,
            due,
        },
    }
}

#[test]
fn failed_review_with_learning_room_is_demoted() {
    // A review card rated `Again` while the learning queue is non-empty
    // re-enters learning as Learning{attempts: 1}, at the first failure
    // distance (2 for Novice).
    let learning: std::collections::VecDeque<FlashCard<u32>> =
        vec![learning_card(1, 0), learning_card(2, 0), learning_card(3, 0)].into();
    let reviewing: std::collections::VecDeque<FlashCard<u32>> = vec![review_card(9, 60)].into();
    let mut s = Scheduler::from_parts(Vec::new(), learning, reviewing, 10, ScheduleParam::Novice)
        .expect("a well-formed state");
    // Interspersed review: the review card is presented from the queue tail.
    assert_eq!(s.get_card().content, 9);
    s.rate_card_at(Rating::Again, 777);
    let (new_cards, learning, reviewing, done, _) = s.parts();
    assert!(new_cards.is_empty());
    assert!(reviewing.is_empty());
    assert_eq!(done, 0);
    assert_eq!(learning.len(), 4);
    assert_eq!(learning[2].content, 9);
    assert_eq!(
        learning[2].card,
        Card::Learning { attempts: 1, last_reviewed: 777 }
    );
}

#[test]
fn review_phase_takes_head_and_intersperse_takes_tail() {
    let reviewing: std::collections::VecDeque<FlashCard<u32>> =
        vec![review_card(1, 60), review_card(2, 120)].into();
    // Learning cards remain: interspersed review presents the tail.
    let learning: std::collections::VecDeque<FlashCard<u32>> = vec![learning_card(5, 0)].into();
    let s = Scheduler::from_parts(
        Vec::new(),
        learning,
        reviewing.clone(),
        10,
        ScheduleParam::Novice,
    )
    .expect("a well-formed state");
    assert_eq!(s.get_card().content, 2);
    // Learning exhausted: plain review presents the head.
    let s2 = Scheduler::from_parts(
        Vec::new(),
        std::collections::VecDeque::new(),
        reviewing,
        10,
        ScheduleParam::Novice,
    )
    .expect("a well-formed state");
    assert_eq!(s2.get_card().content, 1);
}

#[test]
fn is_new_card_reports_the_state() {
    let fresh: FlashCard<u32> = FlashCard { content: 7, card: Card::New };
    assert!(fresh.is_new_card());
    let studied: FlashCard<u32> = FlashCard {
        content: 7,
        card: Card::Learning { attempts: 1, last_reviewed: 5 },
    };
    assert!(!studied.is_new_card());
}
