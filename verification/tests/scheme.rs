use zigen_trainer::scheme::{
    group_eq, scheme_zigen_eq, zigen_eq, LoadedScheme, SchemeOptions, SchemeZigen, Zigen,
    ZigenCategory, ZigenClass, ZigenConfusable, ZigenConfusableUnpopulated, ZigenGroup,
};

fn group(code: &str, zigens: &[&str], classify: ZigenClass) -> ZigenGroup {
    ZigenGroup {
        zigens: zigens.iter().map(|z| Zigen(z.to_string())).collect(),
        code: code.to_string(),
        classify,
        description: format!("group {code}"),
    }
}

fn category(desc: &str, groups: Vec<ZigenGroup>) -> SchemeZigen<ZigenConfusableUnpopulated> {
    SchemeZigen::Category(ZigenCategory { groups, description: desc.to_string() })
}

fn pop_category(desc: &str, groups: Vec<ZigenGroup>) -> SchemeZigen<ZigenConfusable> {
    SchemeZigen::Category(ZigenCategory { groups, description: desc.to_string() })
}

#[test]
fn equality_helpers_compare_deeply() {
    let a = group("AB", &["x", "y"], ZigenClass::Common);
    let b = group("AB", &["x", "y"], ZigenClass::Common);
    let c = group("AB", &["x", "z"], ZigenClass::Common);
    assert!(group_eq(&a, &b));
    assert!(!group_eq(&a, &c));
    assert!(zigen_eq(&Zigen("x".to_string()), &Zigen("x".to_string())));
    assert!(!zigen_eq(&Zigen("x".to_string()), &Zigen("y".to_string())));
    assert!(scheme_zigen_eq(
        &pop_category("d", vec![a.clone()]),
        &pop_category("d", vec![b.clone()])
    ));
    assert!(!scheme_zigen_eq(
        &pop_category("d", vec![a]),
        &pop_category("e", vec![b])
    ));
}

#[test]
fn as_raw_parts_exposes_groups_and_description() {
    let entry = pop_category("desc", vec![group("A", &["x"], ZigenClass::Common)]);
    let (groups, description) = entry.as_raw_parts();
    assert_eq!(groups.len(), 1);
    assert_eq!(description, "desc");

    let mut entry = entry;
    {
        let (groups_mut, description_mut) = entry.as_raw_parts_mut();
        groups_mut.push(group("B", &["y"], ZigenClass::Common));
        description_mut.push('!');
    }
    let (groups, description) = entry.as_raw_parts();
    assert_eq!(groups.len(), 2);
    assert_eq!(description, "desc!");
}

#[test]
fn populate_confusables_looks_up_representative_groups() {
    // Two categories; the later carries an overriding group for "x".
    let g1 = group("A", &["x", "x2"], ZigenClass::Common);
    let g2 = group("B", &["y"], ZigenClass::Common);
    let g3 = group("C", &["x"], ZigenClass::Common); // overrides g1 for "x"
    let scheme = LoadedScheme(vec![
        category("first", vec![g1, g2.clone()]),
        category("second", vec![g3.clone()]),
        SchemeZigen::Confusable(ZigenConfusableUnpopulated {
            zigens: vec![Zigen("x".to_string()), Zigen("y".to_string())],
            description: "mixups".to_string(),
        }),
    ]);
    let populated = scheme.populate_confusables();
    assert_eq!(populated.0.len(), 3);
    match &populated.0[2] {
        SchemeZigen::Confusable(con) => {
            assert_eq!(con.description, "mixups");
            assert_eq!(con.groups.len(), 2);
            assert!(group_eq(&con.groups[0], &g3)); // the later category wins
            assert!(group_eq(&con.groups[1], &g2));
        },
        SchemeZigen::Category(_) => panic!("expected a confusable set"),
    }
    match &populated.0[0] {
        SchemeZigen::Category(cat) => assert_eq!(cat.description, "first"),
        _ => panic!("expected a category"),
    }
}

fn mixed_catalog() -> LoadedScheme<ZigenConfusable> {
    LoadedScheme(vec![
        pop_category(
            "cat1",
            vec![
                group("S1", &["s"], ZigenClass::Simplified),
                group("T1", &["t"], ZigenClass::Traditional),
                group("C1", &["c"], ZigenClass::Common),
                group("U1", &["u"], ZigenClass::Uncommon),
            ],
        ),
        SchemeZigen::Confusable(ZigenConfusable {
            groups: vec![group("X1", &["x"], ZigenClass::Common)],
            description: "mix".to_string(),
        }),
        pop_category("cat2", vec![group("T2", &["t2"], ZigenClass::Traditional)]),
    ])
}

#[test]
fn sort_to_options_orders_simplified_first_by_default() {
    let mut catalog = mixed_catalog();
    catalog.sort_to_options(&SchemeOptions {
        shuffle: false,
        combined_training: false,
        prioritize_trad: false,
        adept: false,
    });
    // Simplified pass of cat1 (S1 + common C1), then uncommon (U1), then
    // the confusable set; cat2 has no simplified group and is dropped.
    assert_eq!(catalog.0.len(), 3);
    match &catalog.0[0] {
        SchemeZigen::Category(cat) => {
            assert_eq!(cat.description, "cat1");
            assert_eq!(cat.groups.len(), 2);
            assert_eq!(cat.groups[0].code, "S1");
            assert_eq!(cat.groups[1].code, "C1");
        },
        _ => panic!("expected the simplified category first"),
    }
    match &catalog.0[1] {
        SchemeZigen::Category(cat) => {
            assert_eq!(cat.groups.len(), 1);
            assert_eq!(cat.groups[0].code, "U1");
        },
        _ => panic!("expected the uncommon category"),
    }
    match &catalog.0[2] {
        SchemeZigen::Confusable(con) => assert_eq!(con.description, "mix"),
        _ => panic!("expected the confusable set last"),
    }
}

#[test]
fn sort_to_options_combined_appends_the_other_script() {
    let mut catalog = mixed_catalog();
    catalog.sort_to_options(&SchemeOptions {
        shuffle: false,
        combined_training: true,
        prioritize_trad: true,
        adept: false,
    });
    // Traditional first (T1 + common C1 of cat1, then T2 of cat2), then the
    // simplified pass (S1 only: common went to the traditional pass), then
    // uncommon, then confusables.
    assert_eq!(catalog.0.len(), 5);
    match &catalog.0[0] {
        SchemeZigen::Category(cat) => {
            assert_eq!(cat.groups[0].code, "T1");
            assert_eq!(cat.groups[1].code, "C1");
        },
        _ => panic!("expected traditional cat1 first"),
    }
    match &catalog.0[1] {
        SchemeZigen::Category(cat) => assert_eq!(cat.groups[0].code, "T2"),
        _ => panic!("expected traditional cat2 second"),
    }
    match &catalog.0[2] {
        SchemeZigen::Category(cat) => {
            assert_eq!(cat.groups.len(), 1);
            assert_eq!(cat.groups[0].code, "S1");
        },
        _ => panic!("expected the simplified pass third"),
    }
}

#[test]
fn sort_to_options_shuffle_keeps_the_catalog() {
    let mut catalog = mixed_catalog();
    catalog.sort_to_options(&SchemeOptions {
        shuffle: true,
        combined_training: true,
        prioritize_trad: false,
        adept: false,
    });
    // Shuffling permutes the two leading script segments in place: the
    // length and the multiset of entries are unchanged, and the tail
    // (uncommon, confusables) keeps its place.
    assert_eq!(catalog.0.len(), 5);
    let mut codes: Vec<String> = catalog
        .0
        .iter()
        .map(|e| {
            e.as_raw_parts().0.iter().map(|g| g.code.clone()).collect::<Vec<_>>().join(",")
        })
        .collect();
    codes.sort();
    let mut expected: Vec<String> =
        vec!["S1,C1".to_string(), "T1".to_string(), "T2".to_string(), "U1".to_string(), "X1"
            .to_string()];
    expected.sort();
    assert_eq!(codes, expected);
    match &catalog.0[3] {
        SchemeZigen::Category(cat) => assert_eq!(cat.groups[0].code, "U1"),
        _ => panic!("expected the uncommon category fourth"),
    }
    match &catalog.0[4] {
        SchemeZigen::Confusable(con) => assert_eq!(con.description, "mix"),
        _ => panic!("expected the confusable set last"),
    }
}
