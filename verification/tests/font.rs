use std::sync::Arc;

use matcha_ecs_widgets::font::any_match;
use matcha_ecs_widgets::FontRegistry;

type FontData = Arc<dyn AsRef<[u8]> + Send + Sync + 'static>;

fn font(bytes: &[u8]) -> FontData {
    Arc::new(bytes.to_vec())
}

fn registry() -> FontRegistry<dyn AsRef<[u8]> + Send + Sync + 'static> {
    FontRegistry::default()
}

#[test]
fn identity_is_the_handle_not_the_bytes() {
    let mut registry = registry();
    let a = font(b"same");
    let b = font(b"same");

    registry.record(&a);

    assert!(registry.contains(&a));
    assert!(
        !registry.contains(&b),
        "identical bytes behind a different Arc are a different font: comparing \
         contents would cost a pass over ~10 MB per call"
    );
    assert!(registry.contains(&a.clone()), "a clone is the same handle");
}

#[test]
fn only_the_first_recorded_font_claims_the_default_slot() {
    let mut registry = registry();
    assert!(registry.claim_default_slot());
    assert!(!registry.claim_default_slot());
    assert!(!registry.claim_default_slot());
}

#[test]
fn a_font_that_failed_to_load_leaves_the_default_slot_open() {
    let mut registry = registry();
    let broken = font(b"not a font");
    let good = font(b"pretend this one loaded");

    // The failure path returns before recording, so nothing is remembered.
    assert!(!registry.contains(&broken));

    registry.record(&good);
    assert!(
        registry.claim_default_slot(),
        "the second font must still be able to become the default"
    );
}

#[test]
fn a_font_that_failed_to_load_can_be_offered_again() {
    let mut registry = registry();
    let broken = font(b"not a font");
    assert!(!registry.contains(&broken));
    assert!(!registry.contains(&broken));
}

#[test]
fn recording_a_font_does_not_claim_the_default_slot() {
    let mut registry = registry();
    let a = font(b"a");
    registry.record(&a);
    registry.record(&a);
    assert!(registry.contains(&a));
    assert!(registry.claim_default_slot());
    assert!(registry.contains(&a), "claiming the slot keeps the recorded fonts");
}

#[test]
fn every_recorded_handle_is_found() {
    let mut registry = registry();
    let fonts: Vec<FontData> = (0u8..5).map(|i| font(&[i])).collect();
    for f in &fonts {
        registry.record(f);
    }
    for f in &fonts {
        assert!(registry.contains(f));
    }
    assert!(!registry.contains(&font(&[0])));
}

#[test]
fn any_match_finds_a_single_true() {
    assert!(!any_match(&[]));
    assert!(!any_match(&[false, false]));
    assert!(any_match(&[false, true, false]));
}
