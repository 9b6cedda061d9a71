//! The login form: how its button reacts to the pointer and how the user
//! name field follows typing.

use vstd::prelude::*;

verus! {

/// How the pointer interacts with the login button (`Idle`: neither
/// hovering nor pressing).
#[derive(Clone, Copy, Debug, PartialEq, Eq, Structural)]
pub enum Interaction {
    Clicked,
    Hovered,
    Idle,
}

/// The colour the login button takes.
#[derive(Clone, Copy, Debug, PartialEq, Eq, Structural)]
pub enum ButtonColor {
    Normal,
    Hovered,
    Pressed,
}

/// What changes on the login button: its colour, and the new text of its
/// label where the label changes.
pub struct ButtonUpdate {
    pub color: ButtonColor,
    pub label: Option<String>,
}

/// The colour the button takes for an interaction.
pub open spec fn color_for(interaction: Interaction) -> ButtonColor {
    match interaction {
        Interaction::Clicked => ButtonColor::Pressed,
        Interaction::Hovered => ButtonColor::Hovered,
        Interaction::Idle => ButtonColor::Normal,
    }
}

/// The label shown while a login is under way.
pub open spec fn logging_in_label() -> Seq<char> {
    "Logging in..."@
}

/// Reacts to the pointer on the login button: a click shows
/// "Logging in..." and the pressed colour, hovering the hovered colour, and
/// otherwise the normal colour; only a click changes the label.
pub fn button(interaction: Interaction) -> (update: ButtonUpdate)
    ensures
        update.color == color_for(interaction),
        interaction == Interaction::Clicked <==> update.label is Some,
        update.label matches Some(label) ==> label@ == logging_in_label(),
{
    match interaction {
        Interaction::Clicked => ButtonUpdate {
            color: ButtonColor::Pressed,
            label: Some(String::from_str("Logging in...")),
        },
        Interaction::Hovered => ButtonUpdate { color: ButtonColor::Hovered, label: Option::None },
        Interaction::Idle => ButtonUpdate { color: ButtonColor::Normal, label: Option::None },
    }
}

/// Appends `c` to `s` (`String::push`).
#[verifier::external_body]
fn push_char(s: &mut String, c: char)
    ensures
        final(s)@ == old(s)@.push(c),
{
    s.push(c);
}

/// Follows typing in the user name field: each typed character is appended
/// to `typed`, and the field then shows all that was typed. Returns the
/// field's new text, or none when nothing was typed.
pub fn input(typed: &mut String, chars: &Vec<char>) -> (shown: Option<String>)
    ensures
        final(typed)@ == old(typed)@ + chars@,
        chars.len() == 0 ==> shown is None,
        chars.len() > 0 ==> (shown matches Some(text) && text@ == final(typed)@),
{
    let mut shown: Option<String> = Option::None;
    let mut i: usize = 0;
    while i < chars.len()
        invariant
            i <= chars.len(),
            typed@ == old(typed)@ + chars@.take(i as int),
            i == 0 ==> shown is None,
            i > 0 ==> (shown matches Some(text) && text@ == typed@),
        decreases chars.len() - i,
    {
        push_char(typed, chars[i]);
        assert(chars@.take(i + 1) == chars@.take(i as int).push(chars@[i as int]));
        shown = Some(typed.clone());
        i = i + 1;
    }
    assert(chars@.take(chars.len() as int) == chars@);
    shown
}

} // verus!
