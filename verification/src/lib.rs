//! Window swallowing engine for EWMH-style window managers.
//!
//! When a terminal-class process launches a GUI application, the engine hides
//! the terminal's window and moves the application window into the terminal's
//! former place; when the application window closes, the terminal window is
//! restored. The library holds the decision logic: the window-state codec,
//! the window-list differ, the ancestor-walk classification, and the
//! relationship graph. All protocol and process I/O is performed by the
//! surrounding program, which feeds query results in as plain values and
//! carries the emitted protocol requests out.

pub mod context;
pub mod output;
pub mod state;
pub mod swallow;
