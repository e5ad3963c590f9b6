use matcha_ecs_widgets::text_box::{DeclaredValue, TextBoxLive};
use matcha_ecs_widgets::live::{bits_changed, changed};
use matcha_ecs_widgets::LiveBool;

#[test]
fn a_bool_cell_reports_only_a_real_change() {
    let cell = LiveBool::new(false);
    assert!(!cell.get());
    assert!(!cell.replace(false), "the same value is not a change");
    assert!(cell.replace(true));
    assert!(cell.get());
    assert!(!LiveBool::default().get());
}

#[test]
fn text_box_cells_are_shared_between_clones() {
    let live = TextBoxLive::default();
    let reader = live.clone();
    assert_eq!(reader.scroll_bits(), 0);
    assert!(live.set_scroll_bits(12.5f32.to_bits()));
    assert!(!live.set_scroll_bits(12.5f32.to_bits()));
    assert_eq!(f32::from_bits(reader.scroll_bits()), 12.5);

    assert!(!reader.caret_visible());
    assert!(live.set_caret_visible(true));
    assert!(!live.set_caret_visible(true));
    assert!(reader.caret_visible());

    assert_eq!(reader.allocated_bits(), [0, 0]);
    live.set_allocated_bits([1.0f32.to_bits(), 2.0f32.to_bits()]);
    assert_eq!(reader.allocated_bits(), [1.0f32.to_bits(), 2.0f32.to_bits()]);

    assert!(live.take_wrap_width_change_bits(f32::MAX.to_bits()));
    assert!(!reader.take_wrap_width_change_bits(f32::MAX.to_bits()));
}

#[test]
fn declared_values_compare_by_their_text() {
    assert_eq!(DeclaredValue("x".to_string()), DeclaredValue("x".to_string()));
    assert_ne!(DeclaredValue("x".to_string()), DeclaredValue("y".to_string()));
}

#[test]
fn a_change_is_a_differing_value() {
    assert!(changed(false, true));
    assert!(!changed(true, true));
    assert!(bits_changed(0, 1));
    assert!(!bits_changed(7, 7));
    // Bitwise: `-0.0` is a change from `0.0`, a repeated NaN is not.
    assert!(bits_changed(0.0f32.to_bits(), (-0.0f32).to_bits()));
    assert!(!bits_changed(f32::NAN.to_bits(), f32::NAN.to_bits()));
}
