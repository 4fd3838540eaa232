use gif_anim::{
    button_system, menu_action, ButtonShade, Interaction, MainState, MenuButtonAction, MenuOutcome,
    MenuState, User,
};

#[test]
fn user_new_keeps_its_arguments() {
    let user = User::new("dai", 1, "http://127.0.0.1:8080/connect");
    assert_eq!(user.name, "dai");
    assert_eq!(user.id, 1);
    assert_eq!(user.name(), "dai");
    assert_eq!(user.id(), 1);
    assert_eq!(user.url(), "http://127.0.0.1:8080/connect");
}

#[test]
fn user_new_takes_empty_strings() {
    let user = User::new("", u32::MAX, "");
    assert_eq!(user.name, "");
    assert_eq!(user.id, u32::MAX);
    assert_eq!(user.url(), "");
}

#[test]
fn acknowledged_user_has_the_next_id() {
    let reply = User::new("dai", 1, "here").acknowledged();
    assert_eq!(reply.name, "dai");
    assert_eq!(reply.id, 2);
    assert_eq!(reply.url(), "here");
    assert_eq!(User::new("x", u32::MAX - 1, "").acknowledged().id, u32::MAX);
}

#[test]
fn application_starts_in_the_menu_with_the_menu_down() {
    assert_eq!(MainState::default(), MainState::Menu);
    assert_eq!(MenuState::default(), MenuState::Disabled);
}

#[test]
fn menu_buttons_lead_where_they_say() {
    assert_eq!(
        menu_action(Interaction::Pressed, MenuButtonAction::Game),
        Some(MenuOutcome::Leave { main: MainState::Game, menu: MenuState::Disabled })
    );
    assert_eq!(
        menu_action(Interaction::Pressed, MenuButtonAction::Connect),
        Some(MenuOutcome::Leave { main: MainState::Connect, menu: MenuState::Disabled })
    );
    assert_eq!(menu_action(Interaction::Pressed, MenuButtonAction::Quit), Some(MenuOutcome::Exit));
}

#[test]
fn menu_button_that_is_not_pressed_does_nothing() {
    for interaction in [Interaction::Hovered, Interaction::Idle] {
        for action in [MenuButtonAction::Game, MenuButtonAction::Connect, MenuButtonAction::Quit] {
            assert_eq!(menu_action(interaction, action), None);
        }
    }
}

#[test]
fn pressed_button_is_drawn_lighter() {
    assert_eq!(button_system(Interaction::Pressed), ButtonShade::Hovered);
    assert_eq!(button_system(Interaction::Hovered), ButtonShade::Normal);
    assert_eq!(button_system(Interaction::Idle), ButtonShade::Normal);
}
