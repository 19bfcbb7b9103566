use shitmail_jmap_filter::policy::should_quarantine;

#[test]
fn under_cutoff_quarantines() {
    assert!(should_quarantine(0, 365));
    assert!(should_quarantine(1, 365));
    assert!(should_quarantine(364, 365));
}

#[test]
fn at_or_above_cutoff_keeps() {
    assert!(!should_quarantine(365, 365));
    assert!(!should_quarantine(366, 365));
    assert!(!should_quarantine(10_000, 365));
}

#[test]
fn extremes_compare_as_numbers() {
    assert!(should_quarantine(i64::MIN, i64::MAX));
    assert!(!should_quarantine(i64::MAX, i64::MIN));
    assert!(should_quarantine(-1, 0));
}
