use matcha_ecs_widgets::interaction::state_value;
use matcha_ecs_widgets::layout::{AlignItems, JustifyContent, LayoutKind};
use matcha_ecs_widgets::scroll_view::{Axis, Overflow, ScrollAxes, ScrollbarSlot};
use matcha_ecs_widgets::{ButtonLabel, Easing, TextContent};

#[test]
fn a_row_stacks_along_x_and_a_column_along_y() {
    assert_eq!(LayoutKind::Row.main_axis(), 0);
    assert_eq!(LayoutKind::Column.main_axis(), 1);
    assert_eq!(LayoutKind::Container.main_axis(), 1);
}

#[test]
fn the_defaults_match_css() {
    assert_eq!(JustifyContent::default(), JustifyContent::Start);
    assert_eq!(AlignItems::default(), AlignItems::Stretch);
    assert_eq!(
        matcha_ecs_widgets::sizing::AlignItems::default(),
        matcha_ecs_widgets::sizing::AlignItems::Stretch
    );
    assert_eq!(Overflow::default(), Overflow::Hidden);
}

#[test]
fn only_auto_scrolls() {
    assert!(Overflow::Auto.scrolls());
    assert!(!Overflow::Hidden.scrolls());
    assert_eq!(ScrollAxes::of(Overflow::Auto, Overflow::Hidden), ScrollAxes([true, false]));
    assert_eq!(ScrollAxes::of(Overflow::Hidden, Overflow::Auto), ScrollAxes([false, true]));
}

#[test]
fn each_axis_indexes_its_own_half_of_a_pair() {
    assert_eq!(Axis::X.main(), 0);
    assert_eq!(Axis::Y.main(), 1);
    assert_eq!(Axis::X.cross(), 1);
    assert_eq!(Axis::Y.cross(), 0);
}

#[test]
fn the_other_axis_of_the_other_axis_is_the_axis() {
    for axis in [Axis::X, Axis::Y] {
        assert_ne!(axis.other(), axis);
        assert_eq!(axis.other().other(), axis);
        assert_eq!(axis.other().main(), axis.cross());
    }
    assert_eq!(ScrollbarSlot(Axis::X), ScrollbarSlot(Axis::Y.other()));
}

#[test]
fn declared_data_compares_by_value() {
    assert_eq!(ButtonLabel("ok".to_string()), ButtonLabel("ok".to_string()));
    assert_ne!(TextContent("a".to_string()), TextContent("b".to_string()));
    assert_ne!(Easing::Linear, Easing::EaseInOut);
}

#[test]
fn an_exit_fade_carries_its_duration_and_curve() {
    let fade = matcha_ecs_widgets::ExitFade {
        duration: std::time::Duration::from_millis(250),
        easing: Easing::EaseInOut,
    };
    let copy = fade;
    assert_eq!(copy.duration, std::time::Duration::from_millis(250));
    assert_eq!(copy.easing, Easing::EaseInOut);
}

#[test]
fn an_unset_state_falls_back_to_the_one_below_it() {
    assert_eq!(state_value(1, Some(2), Some(3), false, false), 1);
    assert_eq!(state_value(1, Some(2), Some(3), true, false), 2);
    assert_eq!(state_value(1, Some(2), Some(3), true, true), 3);
    assert_eq!(state_value(1, Some(2), None, false, true), 2, "active falls back to hover");
    assert_eq!(state_value(1, None, None, true, false), 1, "hover falls back to base");
    assert_eq!(state_value(1, None, None, true, true), 1, "and active follows it down");
}
