//! What the terminal front end is told: a key, a message or a tick.

use vstd::prelude::*;

verus! {

/// A key of the keyboard.
#[derive(Debug, Clone, Copy, PartialEq, Eq, Structural)]
pub enum Key {
    Backspace,
    Left,
    Right,
    Up,
    Down,
    Home,
    End,
    PageUp,
    PageDown,
    BackTab,
    Delete,
    Insert,
    /// A function key, by its number.
    F(u8),
    /// A character key.
    Char(char),
    /// A character key with `Alt`.
    Alt(char),
    /// A character key with `Ctrl`.
    Ctrl(char),
    /// No key.
    Null,
    Esc,
}

/// What happened: input came, a message came, or time went by.
pub enum Event<I> {
    Input(I),
    Message(String),
    Tick,
}

/// How events are gathered: the key that ends the reading of keys, and the
/// time between two ticks in milliseconds.
#[derive(Debug, Clone, Copy)]
pub struct Config {
    pub exit_key: Key,
    pub tick_rate: u64,
}

impl Default for Config {
    /// `q` ends the reading of keys, and a tick comes every 250
    /// milliseconds.
    fn default() -> (config: Config)
        ensures
            config.exit_key == Key::Char('q'),
            config.tick_rate == 250,
    {
        Config { exit_key: Key::Char('q'), tick_rate: 250 }
    }
}

/// Whether the reading of keys ends after `key`: it does if `key` is the
/// exit key, unless the exit key is to be ignored.
pub fn ends_input(ignore_exit_key: bool, key: Key, exit_key: Key) -> (ends: bool)
    ensures
        ends == (!ignore_exit_key && key == exit_key),
{
    !ignore_exit_key && key == exit_key
}

} // verus!
