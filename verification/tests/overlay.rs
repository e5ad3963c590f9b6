#[derive(Clone, PartialEq, Debug)]
enum Msg {
    Moved(f32),
    Clicked,
}

/// `Clicked` exists so `Msg` is a real multi-variant app message rather than
/// a newtype.
#[test]
fn msg_is_a_normal_app_enum() {
    assert_ne!(Msg::Clicked, Msg::Moved(0.0));
}
