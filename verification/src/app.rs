//! The state of the terminal front end and what keys, messages and a
//! change of the window size do to it.

use crate::utils::event::Event;
use crate::utils::event::Key;
use vstd::prelude::*;

verus! {

/// How many channels are shown side by side at most.
pub const MAX_CHANNEL_WINDOW_SIZE: usize = 5;

/// A part of the screen.
#[derive(Debug, Clone, Copy, PartialEq, Eq)]
pub enum Block {
    Help,
    Channel([u8; 5]),
    ChannelTree,
    Empty,
}

/// A rectangle of the screen: its top left corner and its size.
#[derive(Debug, Clone, Copy, PartialEq, Eq, Structural)]
pub struct Rect {
    pub x: u16,
    pub y: u16,
    pub width: u16,
    pub height: u16,
}

/// The state of the front end: the part of the screen that is active and
/// the one that is selected, the last key, whether to quit, and the size of
/// the window.
#[derive(Debug, PartialEq, Eq)]
pub struct AppState {
    active_block: Block,
    selected_block: Block,
    key: Key,
    should_quit: bool,
    pub frame: Rect,
}

/// An `AppState` as plain values.
pub struct AppStateView {
    pub active_block: Block,
    pub selected_block: Block,
    pub key: Key,
    pub should_quit: bool,
    pub frame: Rect,
}

impl View for AppState {
    type V = AppStateView;

    closed spec fn view(&self) -> AppStateView {
        AppStateView {
            active_block: self.active_block,
            selected_block: self.selected_block,
            key: self.key,
            should_quit: self.should_quit,
            frame: self.frame,
        }
    }
}

/// Whether `key` asks to quit while the part `active` of the screen is
/// active: `q` does while no part is, and `Ctrl` with `c` always does.
pub open spec fn asks_to_quit(key: Key, active: Block) -> bool {
    (key == Key::Char('q') && active is Empty) || key == Key::Ctrl('c')
}

impl AppState {
    /// The state at the start: nothing active or selected, no key, not
    /// about to quit.
    pub fn new(frame: Rect) -> (state: Self)
        ensures
            state@ == (AppStateView {
                active_block: Block::Empty,
                selected_block: Block::Empty,
                key: Key::Null,
                should_quit: false,
                frame,
            }),
    {
        Self {
            active_block: Block::Empty,
            selected_block: Block::Empty,
            key: Key::Null,
            should_quit: false,
            frame,
        }
    }

    /// Takes a key: it becomes the last key, and the state is about to quit
    /// if the key asks for it.
    pub fn on_key(&mut self, k: Key)
        ensures
            final(self)@ == (AppStateView {
                key: k,
                should_quit: old(self)@.should_quit || asks_to_quit(k, old(self)@.active_block),
                ..old(self)@
            }),
    {
        self.key = k;
        match k {
            Key::Char(c) => {
                let nothing_active = match self.active_block {
                    Block::Empty => true,
                    _ => false,
                };
                if c == 'q' && nothing_active {
                    self.should_quit = true;
                }
            },
            Key::Ctrl(c) => {
                if c == 'c' {
                    self.should_quit = true;
                }
            },
            _ => {},
        }
    }

    /// The last key.
    pub fn key(&self) -> (k: Key)
        ensures
            k == self@.key,
    {
        self.key
    }

    /// Whether the front end is about to quit.
    pub fn should_quit(&self) -> (quit: bool)
        ensures
            quit == self@.should_quit,
    {
        self.should_quit
    }

    /// Takes the size of the window: if it differs from the size `before`,
    /// it becomes the size of the frame and the screen is to be drawn
    /// again.
    pub fn on_size_change(&mut self, before: Rect, size: Rect) -> (redraw: bool)
        ensures
            redraw == (before != size),
            final(self)@ == (AppStateView {
                frame: if before != size {
                    size
                } else {
                    old(self)@.frame
                },
                ..old(self)@
            }),
    {
        if before != size {
            self.frame = size;
            true
        } else {
            false
        }
    }

    /// Takes an event. A key is handled as `on_key` does; a message
    /// becomes the text `msg` that is shown, and the screen is to be drawn
    /// again; a tick changes nothing.
    pub fn on_event(&mut self, event: Event<Key>, msg: &mut String) -> (redraw: bool)
        ensures
            match event {
                Event::Input(k) => !redraw && *final(msg) == *old(msg) && final(self)@ == (
                AppStateView {
                    key: k,
                    should_quit: old(self)@.should_quit || asks_to_quit(
                        k,
                        old(self)@.active_block,
                    ),
                    ..old(self)@
                }),
                Event::Message(text) => redraw && *final(msg) == text
                    && final(self)@ == old(self)@,
                Event::Tick => !redraw && *final(msg) == *old(msg) && final(self)@ == old(self)@,
            },
    {
        match event {
            Event::Input(key) => {
                self.on_key(key);
                false
            },
            Event::Tick => false,
            Event::Message(text) => {
                *msg = text;
                true
            },
        }
    }
}

/// The scroll position in the messages of one channel.
pub struct MessageState {
    pub scroll: u64,
    pub channel_id: String,
}

impl MessageState {
    pub fn new(scroll: u64, channel_id: String) -> (state: Self)
        ensures
            state.scroll == scroll,
            state.channel_id == channel_id,
    {
        Self { scroll, channel_id }
    }
}

/// The channels that are shown and which of them is selected.
pub struct WidgetState {
    pub selected: u8,
    pub msg_state: Vec<MessageState>,
}

impl Default for WidgetState {
    /// No channel is shown and the first place is selected.
    fn default() -> (state: Self)
        ensures
            state.selected == 0,
            state.msg_state@.len() == 0,
    {
        Self { selected: 0, msg_state: Vec::new() }
    }
}

} // verus!
