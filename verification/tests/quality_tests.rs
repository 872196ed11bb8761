use netctl::quality::{classify, quality_assessment, QualityTier};

#[test]
fn tier_boundaries_belong_to_the_worse_tier() {
    assert_eq!(classify(29_900), QualityTier::Excellent);
    assert_eq!(classify(30_000), QualityTier::Good);
    assert_eq!(classify(59_900), QualityTier::Good);
    assert_eq!(classify(60_000), QualityTier::Fair);
    assert_eq!(classify(99_900), QualityTier::Fair);
    assert_eq!(classify(100_000), QualityTier::Poor);
}

#[test]
fn tier_next_to_each_boundary() {
    assert_eq!(classify(0), QualityTier::Excellent);
    assert_eq!(classify(29_999), QualityTier::Excellent);
    assert_eq!(classify(59_999), QualityTier::Good);
    assert_eq!(classify(99_999), QualityTier::Fair);
    assert_eq!(classify(u32::MAX), QualityTier::Poor);
}

#[test]
fn tier_labels_and_descriptions() {
    assert_eq!(QualityTier::Excellent.label(), "Excellent");
    assert_eq!(QualityTier::Good.label(), "Good");
    assert_eq!(QualityTier::Fair.label(), "Fair");
    assert_eq!(QualityTier::Poor.label(), "Poor");
    assert_eq!(
        QualityTier::Excellent.description(),
        "suitable for video calls & real-time apps"
    );
    assert_eq!(QualityTier::Good.description(), "suitable for most applications");
    assert_eq!(QualityTier::Fair.description(), "acceptable, may affect real-time apps");
    assert_eq!(QualityTier::Poor.description(), "high latency, expect delays");
}

#[test]
fn quality_assessment_gives_label_and_description() {
    assert_eq!(
        quality_assessment(12_000),
        ("Excellent", "suitable for video calls & real-time apps".to_string())
    );
    assert_eq!(quality_assessment(30_000), ("Good", "suitable for most applications".to_string()));
    assert_eq!(
        quality_assessment(75_500),
        ("Fair", "acceptable, may affect real-time apps".to_string())
    );
    assert_eq!(quality_assessment(100_000), ("Poor", "high latency, expect delays".to_string()));
}

#[test]
fn the_two_best_tiers_are_healthy() {
    assert!(QualityTier::Excellent.is_healthy());
    assert!(QualityTier::Good.is_healthy());
    assert!(!QualityTier::Fair.is_healthy());
    assert!(!QualityTier::Poor.is_healthy());
}

#[test]
fn a_higher_latency_never_gets_a_better_tier() {
    let rank = |t: QualityTier| match t {
        QualityTier::Excellent => 0,
        QualityTier::Good => 1,
        QualityTier::Fair => 2,
        QualityTier::Poor => 3,
    };
    let mut last = 0;
    let mut latency = 0u32;
    while latency <= 120_000 {
        let r = rank(classify(latency));
        assert!(r >= last);
        last = r;
        latency += 500;
    }
}
