use zigen_trainer::scheduler::{Card, FlashCard, Rating};
use zigen_trainer::scheme::{
    LoadedScheme, SchemeOptions, SchemeZigen, Zigen, ZigenCategory, ZigenClass,
    ZigenConfusableUnpopulated, ZigenGroup,
};
use zigen_trainer::user_state::{TrainProgress, UserState};

fn group(code: &str, classify: ZigenClass) -> ZigenGroup {
    ZigenGroup {
        zigens: vec![Zigen(code.to_lowercase())],
        code: code.to_string(),
        classify,
        description: String::new(),
    }
}

fn small_scheme() -> LoadedScheme<ZigenConfusableUnpopulated> {
    LoadedScheme(vec![SchemeZigen::Category(ZigenCategory {
        groups: vec![
            group("A", ZigenClass::Common),
            group("B", ZigenClass::Simplified),
            group("C", ZigenClass::Traditional),
        ],
        description: "cat".to_string(),
    })])
}

fn default_options() -> SchemeOptions {
    SchemeOptions { shuffle: false, combined_training: false, prioritize_trad: false, adept: false }
}

#[test]
fn initialize_select_rate_and_reset() {
    let mut state = UserState::new();
    assert_eq!(state.current_scheme(), "");
    assert!(!state.has_progress("demo"));

    let r = state.try_initialize_scheme("demo", &small_scheme(), default_options());
    assert!(r.is_ok());
    assert_eq!(state.current_scheme(), "demo");
    assert!(state.has_progress("demo"));

    // One category with the simplified pass keeping A (common) and B: one
    // catalog entry, hence one card.
    assert_eq!(state.current_progress().total_cards(), 1);
    assert_eq!(state.current_progress().reviewed_cards(), 0);
    assert!(state.current_progress().get_card().is_new_card());

    state.current_progress_mut().rate_card(Rating::Good);
    assert_eq!(state.current_progress().reviewed_cards(), 1);
    assert_eq!(state.current_progress().total_cards(), 1);

    // A second initialization of the same scheme keeps the progress.
    let r2 = state.try_initialize_scheme("demo", &small_scheme(), default_options());
    assert!(r2.is_ok());
    assert_eq!(state.current_progress().reviewed_cards(), 1);

    state.reset_current_progress();
    assert!(!state.has_progress("demo"));
}

#[test]
fn initializing_an_empty_catalog_is_refused() {
    let mut state = UserState::new();
    // A scheme whose only category holds nothing the options keep: the
    // ordered catalog is empty and initialization fails.
    let scheme = LoadedScheme(vec![SchemeZigen::Category(ZigenCategory {
        groups: vec![],
        description: "empty".to_string(),
    })]);
    let r = state.try_initialize_scheme("empty", &scheme, default_options());
    assert!(r.is_err());
    assert!(!state.has_progress("empty"));
    assert_eq!(state.current_scheme(), "empty");
}

#[test]
fn progresses_are_kept_per_scheme() {
    let mut state = UserState::new();
    assert!(state
        .try_initialize_scheme("one", &small_scheme(), default_options())
        .is_ok());
    assert!(state
        .try_initialize_scheme("two", &small_scheme(), default_options())
        .is_ok());
    assert_eq!(state.current_scheme(), "two");
    state.current_progress_mut().rate_card(Rating::Good);
    assert_eq!(state.current_progress().reviewed_cards(), 1);
    assert!(state.has_progress("one"));
    assert!(state.has_progress("two"));
    state.reset_current_progress();
    assert!(state.has_progress("one"));
    assert!(!state.has_progress("two"));
}

#[test]
fn train_progress_wraps_a_scheduler() {
    let cards = vec![
        FlashCard { content: SchemeZigen::Category(ZigenCategory { groups: vec![], description: "a".to_string() }), card: Card::New },
        FlashCard { content: SchemeZigen::Category(ZigenCategory { groups: vec![], description: "b".to_string() }), card: Card::New },
    ];
    let mut progress = TrainProgress::new(cards, false);
    assert_eq!(progress.total_cards(), 2);
    assert_eq!(progress.reviewed_cards(), 0);
    progress.rate_card(Rating::Easy);
    assert_eq!(progress.total_cards(), 2);
    assert_eq!(progress.reviewed_cards(), 1);
}
