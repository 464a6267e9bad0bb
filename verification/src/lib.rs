//! The decision and parsing logic of a small Wi-Fi / Bluetooth connection
//! manager that drives `nmcli` and `bluetoothctl`.
//!
//! The library never runs a command itself: the program around it runs the
//! tools and hands their outcome (see [`command::CommandOutput`]) to the
//! functions here, which parse the tools' text, pick the next step and keep
//! a model of the window state ([`window::Window`]) up to date.
use vstd::prelude::*;

pub mod command;
pub mod text;
pub mod window;
pub mod wifi;
pub mod scan;
pub mod bluetooth;
pub mod handlers;

verus! {

} // verus!
