use zigen_trainer::scheduler::Rating;
use zigen_trainer::scheduler_v2::{Card, SchedulerV2, SchedulerV2Card};
use zigen_trainer::scheme::{scheme_zigen_eq, SchemeZigen, ZigenConfusable};

fn zigen(name: &str) -> SchemeZigen<ZigenConfusable> {
    SchemeZigen::Confusable(ZigenConfusable { groups: vec![], description: name.to_string() })
}

fn v2_deck(names: &[&str]) -> Vec<SchedulerV2Card> {
    names
        .iter()
        .map(|n| SchedulerV2Card { zigen: zigen(n), card: Card::New })
        .collect()
}

#[test]
fn v2_promotes_after_three_answers() {
    // Novice: three consecutive successes promote, and promotion grants
    // interval 1.0 (ten tenths) with a five-minute due distance.
    let mut s = SchedulerV2::new(v2_deck(&["a"]), false);
    assert!(!s.is_adept());
    assert!(s.get_card().is_new_card());

    s.rate_card_at(Rating::Good, 100);
    assert_eq!(
        s.get_card().card,
        Card::Learning { attempts: 0, last_reviewed: 100 }
    );
    s.rate_card_at(Rating::Good, 200);
    assert_eq!(
        s.get_card().card,
        Card::Learning { attempts: 1, last_reviewed: 200 }
    );
    s.rate_card_at(Rating::Good, 300);
    assert_eq!(
        s.get_card().card,
        Card::Learning { attempts: 2, last_reviewed: 300 }
    );
    s.rate_card_at(Rating::Good, 400);
    assert_eq!(
        s.get_card().card,
        Card::Review {
            last_interval: 10,
            repetition: 1,
            easiness_factor: 2500,
            last_reviewed: 400,
            due: 400 + 300,
        }
    );
}

#[test]
fn v2_review_grows_intervals_in_half_steps() {
    let mut s = SchedulerV2::new(v2_deck(&["a"]), true);
    assert!(s.is_adept());
    // Adept threshold is 2: two answers promote.
    s.rate_card_at(Rating::Good, 100);
    s.rate_card_at(Rating::Good, 200);
    s.rate_card_at(Rating::Good, 300);
    assert_eq!(
        s.get_card().card,
        Card::Review {
            last_interval: 10,
            repetition: 1,
            easiness_factor: 2500,
            last_reviewed: 300,
            due: 300 + 300,
        }
    );
    // repetition 1 -> interval 1.5 (15 tenths), due 450 s ahead.
    s.rate_card_at(Rating::Good, 400);
    assert_eq!(
        s.get_card().card,
        Card::Review {
            last_interval: 15,
            repetition: 2,
            easiness_factor: 2320,
            last_reviewed: 400,
            due: 400 + 450,
        }
    );
    // repetition 2 -> interval 3.0 (30 tenths), and Again resets the count
    // while still advancing the interval.
    s.rate_card_at(Rating::Again, 500);
    assert_eq!(
        s.get_card().card,
        Card::Review {
            last_interval: 30,
            repetition: 0,
            easiness_factor: 1300, // 2.32 + 0.1 - 1.94 = 0.48, floored
            last_reviewed: 500,
            due: 500 + 900,
        }
    );
}

#[test]
fn v2_new_cards_outrank_learning_cards() {
    let mut s = SchedulerV2::new(v2_deck(&["a", "b"]), false);
    assert!(scheme_zigen_eq(&s.get_card().zigen, &zigen("a")));
    s.rate_card_at(Rating::Good, 1000);
    // "a" became a learning card; the fresh "b" outranks it.
    assert!(scheme_zigen_eq(&s.get_card().zigen, &zigen("b")));
    assert!(s.get_card().is_new_card());
}

#[test]
fn v2_never_repeats_the_rated_card() {
    // Two learning cards with equal distances sort stably; the swap rule
    // must still move the just-rated card off the top.
    let mut s = SchedulerV2::new(v2_deck(&["a", "b"]), false);
    s.rate_card_at(Rating::Good, 1000); // a -> Learning{0}
    s.rate_card_at(Rating::Good, 1001); // b -> Learning{0}
    // Both are Learning{0} with the same key; the rated card was b.
    assert!(scheme_zigen_eq(&s.get_card().zigen, &zigen("a")));
    s.rate_card_at(Rating::Good, 1002); // a -> Learning{1}
    assert!(scheme_zigen_eq(&s.get_card().zigen, &zigen("b")));
    // Longer run: the presented card always changes after each rating.
    let mut last = String::new();
    let mut t: i64 = 2000;
    for _ in 0..50 {
        let shown = match &s.get_card().zigen {
            SchemeZigen::Confusable(c) => c.description.clone(),
            SchemeZigen::Category(c) => c.description.clone(),
        };
        assert_ne!(shown, last);
        last = shown;
        s.rate_card_at(Rating::Good, t);
        t += 10;
    }
}

#[test]
fn v2_overdue_review_cards_come_first() {
    let mut s = SchedulerV2::new(v2_deck(&["a", "b"]), true);
    // Promote "a" with two quick answers; rating also rates "b" in between
    // because of the no-repeat swap.
    s.rate_card_at(Rating::Good, 100); // a -> L0, b on top
    s.rate_card_at(Rating::Good, 110); // b -> L0, a on top
    s.rate_card_at(Rating::Good, 120); // a -> L1, b on top
    s.rate_card_at(Rating::Good, 130); // b -> L1, a on top
    s.rate_card_at(Rating::Good, 140); // a -> Review, due 440
    // Rate b far past a's due time: a is overdue and outranks everything.
    s.rate_card_at(Rating::Good, 1000); // b -> Review, due 1300
    assert!(scheme_zigen_eq(&s.get_card().zigen, &zigen("a")));
    assert!(matches!(s.get_card().card, Card::Review { due: 440, .. }));
}

#[test]
fn v2_conserves_the_deck() {
    let mut s = SchedulerV2::new(v2_deck(&["a", "b", "c", "d", "e"]), false);
    assert_eq!(s.total_cards(), 5);
    let ratings = [Rating::Good, Rating::Again, Rating::Hard, Rating::Easy];
    let mut t: i64 = 0;
    for step in 0..200 {
        s.rate_card_at(ratings[step % 4], t);
        t += 60;
        assert_eq!(s.total_cards(), 5);
        assert!(s.reviewed_cards() <= 5);
    }
}

#[test]
fn v2_reviewed_cards_counts_entered_study() {
    let mut s = SchedulerV2::new(v2_deck(&["a", "b", "c"]), false);
    assert_eq!(s.reviewed_cards(), 0);
    s.rate_card_at(Rating::Good, 10);
    assert_eq!(s.reviewed_cards(), 1);
    s.rate_card_at(Rating::Good, 20);
    assert_eq!(s.reviewed_cards(), 2);
}

#[test]
fn v2_failed_learning_answer_ratchets_down() {
    // The attempts counter is an asymmetric ratchet: failing resets it
    // toward and through zero from below, succeeding climbs back from zero.
    let mut s = SchedulerV2::new(v2_deck(&["a"]), false);
    s.rate_card_at(Rating::Good, 100); // New -> Learning{0}
    s.rate_card_at(Rating::Good, 200); // -> Learning{1}
    s.rate_card_at(Rating::Again, 300); // min(1 - 1, 0) = 0
    assert_eq!(
        s.get_card().card,
        Card::Learning { attempts: 0, last_reviewed: 300 }
    );
    s.rate_card_at(Rating::Again, 400); // min(0 - 1, 0) = -1
    assert_eq!(
        s.get_card().card,
        Card::Learning { attempts: -1, last_reviewed: 400 }
    );
    s.rate_card_at(Rating::Good, 500); // max(-1 + 1, 0) = 0
    assert_eq!(
        s.get_card().card,
        Card::Learning { attempts: 0, last_reviewed: 500 }
    );
    s.rate_card_at(Rating::Good, 600);
    s.rate_card_at(Rating::Good, 700);
    s.rate_card_at(Rating::Good, 800); // 2 + 1 reaches the threshold
    assert!(matches!(
        s.get_card().card,
        Card::Review { repetition: 1, .. }
    ));
}
