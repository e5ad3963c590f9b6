use matcha_ecs_widgets::text_box::{
    confirm_on_ctrl_enter, confirm_on_enter, key_outcome, DeclaredValue, EditAction, EditKey,
    KeyOutcome,
};

#[test]
fn redeclaring_the_same_value_is_no_change() {
    let mut declared = DeclaredValue("draft".to_string());
    assert!(!declared.redeclare("draft"));
    assert_eq!(declared, DeclaredValue("draft".to_string()));
    assert!(declared.redeclare("final"));
    assert_eq!(declared, DeclaredValue("final".to_string()));
    assert!(!declared.redeclare("final"));
}

#[test]
fn the_ime_owns_the_keyboard_while_composing() {
    assert_eq!(key_outcome(&EditKey::Enter, false, true, true, true), KeyOutcome::Swallow);
    assert_eq!(
        key_outcome(&EditKey::Character("x".to_string()), false, false, true, false),
        KeyOutcome::Swallow
    );
}

#[test]
fn a_confirming_press_never_also_inserts() {
    let confirms = confirm_on_ctrl_enter(&EditKey::Enter, true);
    assert!(confirms);
    assert_eq!(key_outcome(&EditKey::Enter, false, true, false, confirms), KeyOutcome::Confirm);
}

#[test]
fn by_default_enter_inserts_a_newline_and_ctrl_enter_confirms() {
    assert!(!confirm_on_ctrl_enter(&EditKey::Enter, false));
    assert_eq!(
        key_outcome(&EditKey::Enter, false, false, false, false),
        KeyOutcome::Edit(EditAction::InsertNewline)
    );
    assert!(confirm_on_enter(&EditKey::Enter, false));
    assert!(!confirm_on_enter(&EditKey::Enter, true));
    assert!(!confirm_on_enter(&EditKey::Space, false));
}

#[test]
fn arrows_pick_by_shift_and_ctrl() {
    let left = |shift, ctrl| key_outcome(&EditKey::ArrowLeft, shift, ctrl, false, false);
    assert_eq!(left(false, false), KeyOutcome::Edit(EditAction::MoveLeft));
    assert_eq!(left(false, true), KeyOutcome::Edit(EditAction::MoveWordLeft));
    assert_eq!(left(true, false), KeyOutcome::Edit(EditAction::SelectLeft));
    assert_eq!(left(true, true), KeyOutcome::Edit(EditAction::SelectWordLeft));
    assert_eq!(
        key_outcome(&EditKey::End, true, true, false, false),
        KeyOutcome::Edit(EditAction::SelectToTextEnd)
    );
    assert_eq!(
        key_outcome(&EditKey::ArrowUp, true, true, false, false),
        KeyOutcome::Edit(EditAction::SelectUp)
    );
    assert_eq!(
        key_outcome(&EditKey::Backspace, false, true, false, false),
        KeyOutcome::Edit(EditAction::BackdeleteWord)
    );
}

#[test]
fn characters_insert_and_ctrl_a_selects_all() {
    assert_eq!(
        key_outcome(&EditKey::Character("é".to_string()), true, false, false, false),
        KeyOutcome::Edit(EditAction::Insert("é".to_string()))
    );
    assert_eq!(
        key_outcome(&EditKey::Character("A".to_string()), false, true, false, false),
        KeyOutcome::Edit(EditAction::SelectAll)
    );
    assert_eq!(
        key_outcome(&EditKey::Character("c".to_string()), false, true, false, false),
        KeyOutcome::Ignore
    );
    assert_eq!(
        key_outcome(&EditKey::Character("aa".to_string()), false, true, false, false),
        KeyOutcome::Ignore
    );
}

#[test]
fn tab_and_unknown_keys_are_left_alone() {
    for key in [EditKey::Tab, EditKey::OtherNamed, EditKey::Other] {
        assert_eq!(key_outcome(&key, false, false, false, false), KeyOutcome::Ignore);
    }
}
