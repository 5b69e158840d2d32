//! The logic of a tool that mutes or unmutes the focused application with
//! a global hotkey: its settings file, the decisions of the mute toggle and
//! of the message loop, and the pixel arithmetic of its on-screen
//! indicator.
pub mod audio;
pub mod config;
pub mod events;
pub mod hotkey;
pub mod indicator;
pub mod text;
