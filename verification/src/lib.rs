//! Animated textures for a scene-driven UI: a store of named frame
//! sequences, an interval trigger, and bindings that pick the next frame of
//! a sequence each time their trigger fires.

pub mod binding;
pub mod error;
pub mod order;
pub mod plugin;
pub mod screen;
pub mod store;
pub mod trigger;
pub mod user;

pub use binding::{BindingView, GifResource, SelectionPolicy};
pub use error::GifError;
pub use order::{sort_by_name, sorts_before};
pub use plugin::{
    apply, apply_updates, despawn_screen, frame_for, ActiveBinding, FrameUpdate, GifPlugin,
    UiElement,
};
pub use screen::{
    button_system, menu_action, ButtonShade, Interaction, MainState, MenuButtonAction, MenuOutcome,
    MenuState,
};
pub use store::{FrameFile, FrameHandle, Gif, RootEntry, RootListing};
pub use trigger::{TriggerState, DEFAULT_INTERVAL};
pub use user::User;
