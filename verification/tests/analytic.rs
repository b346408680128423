use schelling::analytic::{
    all_names, classify_equilibria, equilibrium_kind_label, preset_index, region_label, stability_from_crossing,
    stability_label, tipping_type_label, EquilibriumKind, Sign, Stability, TippingType, ViabilityRegion,
};

#[test]
fn all_names_resolve() {
    for (i, name) in all_names().into_iter().enumerate() {
        let idx = preset_index(name).unwrap_or_else(|| panic!("preset {} is not found", name));
        assert_eq!(idx, i);
        assert_eq!(all_names()[idx], name);
    }
    assert_eq!(all_names().len(), 16);
}

#[test]
fn unknown_name_is_none() {
    assert!(preset_index("fig99").is_none());
}

#[test]
fn fig18_equilibria_classify_as_out_tipping() {
    // Equilibria of Fig. 18: both endpoints stable, the empty state, and one unstable
    // mix (near W = 21.7, B = 34); the blacks' reaction curve peaks at 25 < W_max = 100.
    let eqs = vec![
        (EquilibriumKind::AllWhite, Stability::Stable),
        (EquilibriumKind::AllBlack, Stability::Stable),
        (EquilibriumKind::Empty, Stability::Unstable),
        (EquilibriumKind::Mixed, Stability::Unstable),
    ];
    let cls = classify_equilibria(&eqs, false);
    assert_eq!(cls.tipping_type, TippingType::OutTippingOnly);
    assert!(cls.all_white_stable);
    assert!(!cls.mixed_stable_exists);
}

#[test]
fn fig19_equilibria_classify_as_neither() {
    let eqs = vec![
        (EquilibriumKind::AllWhite, Stability::Stable),
        (EquilibriumKind::AllBlack, Stability::Stable),
        (EquilibriumKind::Empty, Stability::Unstable),
        (EquilibriumKind::Mixed, Stability::Unstable),
        (EquilibriumKind::Mixed, Stability::Stable),
    ];
    let cls = classify_equilibria(&eqs, false);
    assert_eq!(cls.tipping_type, TippingType::Neither);
    assert!(cls.all_white_stable);
    assert!(cls.mixed_stable_exists);
}

#[test]
fn in_tipping_classifications() {
    let eqs = vec![(EquilibriumKind::AllWhite, Stability::Unstable), (EquilibriumKind::Empty, Stability::Unstable)];
    let cls = classify_equilibria(&eqs, true);
    assert_eq!(cls.tipping_type, TippingType::Both);
    assert!(!cls.all_white_stable);
    let with_mix = vec![(EquilibriumKind::Mixed, Stability::Stable)];
    let cls = classify_equilibria(&with_mix, true);
    assert_eq!(cls.tipping_type, TippingType::InTippingOnly);
    assert!(cls.all_white_stable);
}

#[test]
fn crossing_signs_give_stability() {
    assert_eq!(stability_from_crossing(Sign::Positive, Sign::Negative), Stability::Stable);
    assert_eq!(stability_from_crossing(Sign::Negative, Sign::Positive), Stability::Unstable);
    assert_eq!(stability_from_crossing(Sign::Positive, Sign::Positive), Stability::Saddle);
    assert_eq!(stability_from_crossing(Sign::Zero, Sign::Positive), Stability::Saddle);
}

#[test]
fn regions_and_signs() {
    assert_eq!(ViabilityRegion::from_viability(true, true), ViabilityRegion::BothViable);
    assert_eq!(ViabilityRegion::from_viability(true, false), ViabilityRegion::WViableOnly);
    assert_eq!(ViabilityRegion::from_viability(false, true), ViabilityRegion::BViableOnly);
    assert_eq!(ViabilityRegion::from_viability(false, false), ViabilityRegion::NeitherViable);
    assert_eq!(ViabilityRegion::BothViable.signs(), (1, 1));
    assert_eq!(ViabilityRegion::WViableOnly.signs(), (1, -1));
    assert_eq!(ViabilityRegion::BViableOnly.signs(), (-1, 1));
    assert_eq!(ViabilityRegion::NeitherViable.signs(), (-1, -1));
}

#[test]
fn labels() {
    assert_eq!(equilibrium_kind_label(EquilibriumKind::AllWhite), "all_white");
    assert_eq!(equilibrium_kind_label(EquilibriumKind::Empty), "empty");
    assert_eq!(stability_label(Stability::Saddle), "saddle");
    assert_eq!(region_label(ViabilityRegion::WViableOnly), "w_viable_only");
    assert_eq!(tipping_type_label(TippingType::OutTippingOnly), "out_tipping_only");
}
