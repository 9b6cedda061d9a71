use game_server::authentication_ui::{button, input, ButtonColor, Interaction};

#[test]
fn click_shows_logging_in() {
    let u = button(Interaction::Clicked);
    assert_eq!(u.color, ButtonColor::Pressed);
    assert_eq!(u.label.as_deref(), Some("Logging in..."));
}

#[test]
fn hover_changes_colour_only() {
    let u = button(Interaction::Hovered);
    assert_eq!(u.color, ButtonColor::Hovered);
    assert!(u.label.is_none());
}

#[test]
fn idle_restores_normal_colour() {
    let u = button(Interaction::Idle);
    assert_eq!(u.color, ButtonColor::Normal);
    assert!(u.label.is_none());
}

#[test]
fn typing_appends_and_shows_everything_typed() {
    let mut typed = String::new();
    assert_eq!(input(&mut typed, &vec!['f', 'o']).as_deref(), Some("fo"));
    assert_eq!(input(&mut typed, &vec!['o']).as_deref(), Some("foo"));
    assert_eq!(typed, "foo");
}

#[test]
fn typing_nothing_changes_nothing() {
    let mut typed = "abc".to_string();
    assert!(input(&mut typed, &Vec::new()).is_none());
    assert_eq!(typed, "abc");
}

#[test]
fn typing_keeps_non_ascii_characters() {
    let mut typed = String::new();
    assert_eq!(input(&mut typed, &vec!['é', '名']).as_deref(), Some("é名"));
}
