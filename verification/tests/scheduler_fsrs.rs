use zigen_trainer::scheduler_fsrs::{Card, FsrsScheduler, FsrsSchedulerCard};
use zigen_trainer::scheme::{scheme_zigen_eq, SchemeZigen, ZigenConfusable};

fn zigen(name: &str) -> SchemeZigen<ZigenConfusable> {
    SchemeZigen::Confusable(ZigenConfusable { groups: vec![], description: name.to_string() })
}

fn fsrs_deck(names: &[&str]) -> Vec<FsrsSchedulerCard> {
    names
        .iter()
        .map(|n| FsrsSchedulerCard { zigen: zigen(n), card: Card::New })
        .collect()
}

const DAY_MICRO: u64 = 1_000_000;

#[test]
fn fresh_cards_outrank_studied_ones() {
    let mut s = FsrsScheduler::new(fsrs_deck(&["a", "b"]));
    assert!(scheme_zigen_eq(&s.get_card_at(0).zigen, &zigen("a")));
    s.set_top_memory(Card::Review {
        stability: 10 * DAY_MICRO,
        difficulty: 5_000_000,
        last_reviewed: 0,
    });
    // "b" is still fresh (retrievability zero) and comes first.
    assert!(scheme_zigen_eq(&s.get_card_at(10).zigen, &zigen("b")));
    assert!(s.get_card_at(10).is_new_card());
}

#[test]
fn lower_retrievability_is_presented_first() {
    // Same stability, different ages: the older review has decayed further
    // and is presented first.
    let mut s = FsrsScheduler::new(fsrs_deck(&["a", "b"]));
    let now: i64 = 1_000_000;
    assert!(scheme_zigen_eq(&s.get_card_at(now).zigen, &zigen("a")));
    s.set_top_memory(Card::Review {
        stability: 5 * DAY_MICRO,
        difficulty: 5_000_000,
        last_reviewed: 100, // older
    });
    assert!(scheme_zigen_eq(&s.get_card_at(now).zigen, &zigen("b")));
    s.set_top_memory(Card::Review {
        stability: 5 * DAY_MICRO,
        difficulty: 5_000_000,
        last_reviewed: 500_000, // fresher
    });
    assert!(scheme_zigen_eq(&s.get_card_at(now).zigen, &zigen("a")));

    // With equal ages, the smaller stability decays faster and comes first.
    s.set_top_memory(Card::Review {
        stability: 2 * DAY_MICRO,
        difficulty: 5_000_000,
        last_reviewed: 500_000,
    });
    // a: stability 2 days, b: stability 5 days, both last reviewed at the
    // same time: a is more at risk.
    assert!(scheme_zigen_eq(&s.get_card_at(now).zigen, &zigen("a")));
}

#[test]
fn pool_tops_up_once_everything_is_well_studied() {
    // Ten cards: eight pooled at construction, two left unseen. Once all
    // eight pooled cards are comfortably above the retention target, one
    // more unseen card is pulled in.
    let names = ["a", "b", "c", "d", "e", "f", "g", "h", "i", "j"];
    let mut s = FsrsScheduler::new(fsrs_deck(&names));
    assert_eq!(s.total_cards(), 10);
    assert_eq!(s.reviewed_cards(), 0);
    for _ in 0..8 {
        assert!(s.get_card_at(1000).is_new_card());
        s.set_top_memory(Card::Review {
            stability: 1000 * DAY_MICRO,
            difficulty: 5_000_000,
            last_reviewed: 1000,
        });
    }
    assert_eq!(s.reviewed_cards(), 8);
    // The next presentation finds every pooled card well studied, pulls one
    // unseen card, and presents it.
    assert!(s.get_card_at(1001).is_new_card());
    assert_eq!(s.total_cards(), 10);
    assert_eq!(s.reviewed_cards(), 8);
}

#[test]
fn fsrs_conserves_the_deck() {
    let names = ["a", "b", "c", "d", "e"];
    let mut s = FsrsScheduler::new(fsrs_deck(&names));
    let mut t: i64 = 0;
    for step in 0..100 {
        let _ = s.get_card_at(t);
        s.set_top_memory(Card::Review {
            stability: (1 + step as u64) * DAY_MICRO,
            difficulty: 5_000_000,
            last_reviewed: t,
        });
        t += 3600;
        assert_eq!(s.total_cards(), 5);
        assert!(s.reviewed_cards() <= 5);
    }
}
