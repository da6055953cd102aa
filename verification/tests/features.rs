use fastfind::features::{everything_features, filter_features, matching_features, FeatureStatus};

#[test]
fn inventory_is_broad_and_has_unique_names() {
    let features = everything_features();
    assert!(features.len() >= 45);
    let mut names = std::collections::HashSet::new();
    for feature in &features {
        assert!(
            names.insert(feature.name),
            "duplicate feature: {}",
            feature.name
        );
    }
}

#[test]
fn inventory_exposes_every_status() {
    let features = everything_features();
    for status in [
        FeatureStatus::Implemented,
        FeatureStatus::Partial,
        FeatureStatus::Planned,
        FeatureStatus::WindowsSpecific,
    ] {
        assert!(features.iter().any(|feature| feature.status == status));
    }
}

#[test]
fn status_labels_are_exact() {
    assert_eq!(FeatureStatus::Implemented.label(), "Implemented");
    assert_eq!(FeatureStatus::Partial.label(), "Partial");
    assert_eq!(FeatureStatus::Planned.label(), "Planned");
    assert_eq!(FeatureStatus::WindowsSpecific.label(), "Windows-specific");
}

#[test]
fn inventory_starts_with_instant_search() {
    let features = everything_features();
    assert_eq!(features.len(), 48);
    assert_eq!(features[0].category, "Core");
    assert_eq!(features[0].name, "Instant filename search");
    assert_eq!(features[0].status, FeatureStatus::Implemented);
    let last = &features[features.len() - 1];
    assert_eq!(last.name, "Diagnostics and troubleshooting");
    assert_eq!(last.status, FeatureStatus::Partial);
}

#[test]
fn empty_filter_keeps_every_feature_in_order() {
    let features = everything_features();
    let shown = filter_features(&features, "");
    assert_eq!(shown.len(), features.len());
    for (a, b) in shown.iter().zip(features.iter()) {
        assert_eq!(a.name, b.name);
    }
}

#[test]
fn filter_matches_name_category_or_description_case_insensitively() {
    let features = everything_features();
    let shown = filter_features(&features, "INSTANT FILENAME");
    assert!(shown.iter().any(|f| f.name == "Instant filename search"));
    for feature in &shown {
        let haystacks = [feature.name, feature.category, feature.description];
        assert!(haystacks
            .iter()
            .any(|text| text.to_lowercase().contains("instant filename")));
    }
    let none = matching_features(&features, "no feature mentions this phrase");
    assert!(none.is_empty());
}
