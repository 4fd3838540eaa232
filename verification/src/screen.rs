use vstd::prelude::*;

verus! {

/// Which screen the application shows.
#[derive(Clone, Copy, Debug, PartialEq, Eq, Structural, Hash)]
pub enum MainState {
    Game,
    Connect,
    Menu,
}

/// Whether the main menu is up.
#[derive(Clone, Copy, Debug, PartialEq, Eq, Structural, Hash)]
pub enum MenuState {
    Main,
    Disabled,
}

impl Default for MainState {
    /// The application starts in the menu.
    fn default() -> (state: MainState)
        ensures
            state == MainState::Menu,
    {
        MainState::Menu
    }
}

impl Default for MenuState {
    /// The menu stays down until the menu screen is entered.
    fn default() -> (state: MenuState)
        ensures
            state == MenuState::Disabled,
    {
        MenuState::Disabled
    }
}

/// How the pointer touches a button.
#[derive(Clone, Copy, Debug, PartialEq, Eq, Structural)]
pub enum Interaction {
    Pressed,
    Hovered,
    /// The pointer is elsewhere.
    Idle,
}

/// The shade a button is drawn in.
#[derive(Clone, Copy, Debug, PartialEq, Eq, Structural)]
pub enum ButtonShade {
    Normal,
    Hovered,
}

/// The shade of a button under the pointer: lighter while it is pressed,
/// normal otherwise.
pub fn button_system(interaction: Interaction) -> (shade: ButtonShade)
    ensures
        shade == match interaction {
            Interaction::Pressed => ButtonShade::Hovered,
            Interaction::Hovered => ButtonShade::Normal,
            Interaction::Idle => ButtonShade::Normal,
        },
{
    match interaction {
        Interaction::Pressed => ButtonShade::Hovered,
        Interaction::Hovered => ButtonShade::Normal,
        Interaction::Idle => ButtonShade::Normal,
    }
}

/// What a button of the main menu stands for.
#[derive(Clone, Copy, Debug, PartialEq, Eq, Structural)]
pub enum MenuButtonAction {
    Game,
    Connect,
    Quit,
}

/// What pressing a menu button leads to.
#[derive(Clone, Copy, Debug, PartialEq, Eq, Structural)]
pub enum MenuOutcome {
    /// Leave the menu for another screen.
    Leave { main: MainState, menu: MenuState },
    /// End the application.
    Exit,
}

/// What a change of `interaction` on the menu button that stands for
/// `action` leads to: nothing unless the button is pressed, and then what
/// the button stands for.
pub open spec fn menu_outcome(interaction: Interaction, action: MenuButtonAction) -> Option<
    MenuOutcome,
> {
    if interaction != Interaction::Pressed {
        None
    } else {
        Some(
            match action {
                MenuButtonAction::Game => MenuOutcome::Leave {
                    main: MainState::Game,
                    menu: MenuState::Disabled,
                },
                MenuButtonAction::Connect => MenuOutcome::Leave {
                    main: MainState::Connect,
                    menu: MenuState::Disabled,
                },
                MenuButtonAction::Quit => MenuOutcome::Exit,
            },
        )
    }
}

/// The effect of a change of `interaction` on the menu button that stands
/// for `action`. A button that is hovered over or let go sets no state and
/// ends nothing.
pub fn menu_action(interaction: Interaction, action: MenuButtonAction) -> (outcome: Option<
    MenuOutcome,
>)
    ensures
        outcome == menu_outcome(interaction, action),
        outcome is Some <==> interaction == Interaction::Pressed,
{
    match interaction {
        Interaction::Pressed => Some(
            match action {
                MenuButtonAction::Game => MenuOutcome::Leave {
                    main: MainState::Game,
                    menu: MenuState::Disabled,
                },
                MenuButtonAction::Connect => MenuOutcome::Leave {
                    main: MainState::Connect,
                    menu: MenuState::Disabled,
                },
                MenuButtonAction::Quit => MenuOutcome::Exit,
            },
        ),
        Interaction::Hovered => None,
        Interaction::Idle => None,
    }
}

} // verus!
