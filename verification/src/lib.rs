//! Verified core of the ESP MIDI pedal controller front ends: the pedal
//! commands and their text and wire forms, the pedal configuration, the
//! Bluetooth protocol with the board, and the task that keeps the link up.

pub mod command;
pub mod config;
pub mod connection;
pub mod controller;
pub mod midi_front;
pub mod text;

pub use command::{Command, COMMAND_LEN, COMMAND_SEP};
pub use connection::{ConnectionStatus, Monitor, MonitorAction, MonitorEvent};
pub use controller::{reply_commands, ControllerApp};
