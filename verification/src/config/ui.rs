//! The screens on which the user chooses the service: a list of known
//! servers, and two fields for the address and the client id of another.

use super::Data;
use super::DataView;
use crate::app::Rect;
use crate::utils::event::Event;
use crate::utils::event::Key;
use unicode_width::UnicodeWidthStr;
use vstd::prelude::*;
use vstd::string::StrSliceExecFns;

verus! {

/// Which item of a list is selected, if any.
#[derive(Debug, Clone, Copy, PartialEq, Eq)]
pub struct ListState {
    selected: Option<usize>,
}

impl ListState {
    /// The place of the selected item, for contracts.
    pub closed spec fn chosen(&self) -> Option<usize> {
        self.selected
    }

    pub fn selected(&self) -> (place: Option<usize>)
        ensures
            place == self.chosen(),
    {
        self.selected
    }

    pub fn select(&mut self, index: Option<usize>)
        ensures
            final(self).chosen() == index,
    {
        self.selected = index;
    }
}

impl Default for ListState {
    /// Nothing is selected.
    fn default() -> (state: Self)
        ensures
            state.chosen() is None,
    {
        ListState { selected: None }
    }
}

/// A list of items with a selection.
pub struct StatefulList<T> {
    pub state: ListState,
    pub items: Vec<T>,
}

impl<T> StatefulList<T> {
    /// The list of the given items, none selected.
    pub fn with_items(items: Vec<T>) -> (list: StatefulList<T>)
        ensures
            list.items == items,
            list.state.chosen() is None,
    {
        StatefulList { state: ListState::default(), items }
    }

    /// Selects the item after the selected one, the first after the last,
    /// and the first if none is selected.
    pub fn next(&mut self)
        requires
            old(self).state.chosen() is Some ==> old(self).items.len() > 0,
        ensures
            final(self).items == old(self).items,
            final(self).state.chosen() == Some(
                match old(self).state.chosen() {
                    Some(i) => if i >= old(self).items.len() - 1 {
                        0usize
                    } else {
                        (i + 1) as usize
                    },
                    None => 0usize,
                },
            ),
    {
        let i: usize = match self.state.selected() {
            Some(i) => {
                if i >= self.items.len() - 1 {
                    0
                } else {
                    i + 1
                }
            },
            None => 0,
        };
        self.state.select(Some(i));
    }

    /// Selects the item before the selected one, the last before the first,
    /// and the first if none is selected.
    pub fn previous(&mut self)
        requires
            old(self).state.chosen() == Some(0usize) ==> old(self).items.len() > 0,
        ensures
            final(self).items == old(self).items,
            final(self).state.chosen() == Some(
                match old(self).state.chosen() {
                    Some(i) => if i == 0 {
                        (old(self).items.len() - 1) as usize
                    } else {
                        (i - 1) as usize
                    },
                    None => 0usize,
                },
            ),
    {
        let i: usize = match self.state.selected() {
            Some(i) => {
                if i == 0 {
                    self.items.len() - 1
                } else {
                    i - 1
                }
            },
            None => 0,
        };
        self.state.select(Some(i));
    }

    /// Selects nothing.
    pub fn unselect(&mut self)
        ensures
            final(self).items == old(self).items,
            final(self).state.chosen() is None,
    {
        self.state.select(None);
    }
}

impl<T> Default for StatefulList<T> {
    /// The empty list.
    fn default() -> (list: StatefulList<T>)
        ensures
            list.items@.len() == 0,
            list.state.chosen() is None,
    {
        StatefulList { state: ListState::default(), items: Vec::new() }
    }
}

/// Which screen is shown.
#[derive(Debug, Clone, Copy, PartialEq, Eq, Structural)]
pub enum DisplayState {
    /// None: the choice is made.
    Quiet,
    /// The list of known servers.
    SelectServer,
    /// The fields for another server.
    InputUrl,
}

/// Whether keys move about or are typed into a field.
#[derive(Debug, Clone, Copy, PartialEq, Eq, Structural)]
pub enum InputMode {
    Normal,
    Editing,
}

/// The field that keys are typed into.
#[derive(Debug, Clone, Copy, PartialEq, Eq, Structural)]
pub enum ConfigKind {
    ServerUrl,
    ClientID,
}

/// What is to be done about the key that ends the reading of keys.
#[derive(Debug, Clone, Copy, PartialEq, Eq, Structural)]
pub enum ExitKey {
    /// Leave it as it is.
    Keep,
    /// Ignore it from now on: it is typed like any other.
    Disable,
    /// Heed it again.
    Enable,
}

/// The choice of the service as far as it is made: the screen that is
/// shown and the settings.
pub struct App {
    display_state: DisplayState,
    data: Data,
}

/// An `App` as plain values.
pub struct AppView {
    pub display_state: DisplayState,
    pub data: DataView,
}

impl View for App {
    type V = AppView;

    closed spec fn view(&self) -> AppView {
        AppView { display_state: self.display_state, data: self.data@ }
    }
}

impl App {
    /// The choice at its start: the list of known servers is shown, and the
    /// settings are those for the development server.
    pub fn new() -> (app: Self)
        ensures
            app@ == (AppView {
                display_state: DisplayState::SelectServer,
                data: DataView {
                    server_url: "https://traq-s-dev.tokyotech.org/api/v3"@,
                    client_id: "xIwrarN2fZn4ikXBscU8YdA8ZcGGOQD2CczY"@,
                },
            }),
    {
        Self { display_state: DisplayState::SelectServer, data: Data::default() }
    }

    /// The screen that is shown.
    pub fn display_state(&self) -> (state: DisplayState)
        ensures
            state == self@.display_state,
    {
        self.display_state
    }

    /// The settings as they stand.
    pub fn data(&self) -> (data: &Data)
        ensures
            data@ == self@.data,
    {
        &self.data
    }

    /// Shows the fields for another server.
    pub fn select_own_server(&mut self)
        ensures
            final(self)@ == (AppView { display_state: DisplayState::InputUrl, ..old(self)@ }),
    {
        self.display_state = DisplayState::InputUrl;
    }

    pub fn set_server_url(&mut self, url: String)
        ensures
            final(self)@ == (AppView {
                data: DataView { server_url: url@, ..old(self)@.data },
                ..old(self)@
            }),
    {
        self.data.set_server_url(url);
    }

    pub fn set_client_id(&mut self, client_id: String)
        ensures
            final(self)@ == (AppView {
                data: DataView { client_id: client_id@, ..old(self)@.data },
                ..old(self)@
            }),
    {
        self.data.set_client_id(client_id);
    }

    /// Ends the choice.
    pub fn set_quiet(&mut self)
        ensures
            final(self)@ == (AppView { display_state: DisplayState::Quiet, ..old(self)@ }),
    {
        self.display_state = DisplayState::Quiet;
    }
}

/// The servers that the list offers: what the list shows, the address of
/// the service and the id of the client. The last entry stands for a server
/// that the user names.
pub fn server_choices() -> (choices: Vec<(&'static str, &'static str, &'static str)>)
    ensures
        choices@.len() == 3,
        choices[0].0@ == "use default url (https://q.trap.jp/api/v3)"@,
        choices[0].1@ == "https://q.trap.jp/api/v3"@,
        choices[0].2@ == "6uT93VLLNjAfEkgX5IOYP4gHdW6p00dfgfPy"@,
        choices[1].0@ == "use dev server (https://traq-s-dev.tokyotech.org/api/v3)"@,
        choices[1].1@ == "https://traq-s-dev.tokyotech.org/api/v3"@,
        choices[1].2@ == "xIwrarN2fZn4ikXBscU8YdA8ZcGGOQD2CczY"@,
        choices[2].0@ == "set manually"@,
        choices[2].1@ == ""@,
        choices[2].2@ == ""@,
{
    let mut choices: Vec<(&'static str, &'static str, &'static str)> = Vec::new();
    choices.push(
        (
            "use default url (https://q.trap.jp/api/v3)",
            "https://q.trap.jp/api/v3",
            "6uT93VLLNjAfEkgX5IOYP4gHdW6p00dfgfPy",
        ),
    );
    choices.push(
        (
            "use dev server (https://traq-s-dev.tokyotech.org/api/v3)",
            "https://traq-s-dev.tokyotech.org/api/v3",
            "xIwrarN2fZn4ikXBscU8YdA8ZcGGOQD2CczY",
        ),
    );
    choices.push(("set manually", "", ""));
    choices
}

/// What a key asks for on the list of servers.
pub enum ListChoice {
    /// To end the choice as it stands.
    Quit,
    /// To take the known server at the given place of the list.
    Known(usize),
    /// To name another server.
    Own,
    /// To select the next item.
    Next,
    /// To select the item before.
    Previous,
    Nothing,
}

/// What `key` asks for on the list of servers while the item at `selected`
/// is selected: `q` ends the choice, `1` and `2` take the first and the
/// second server, `3` leads to the fields for another one, the arrows and
/// `j` and `k` move the selection, and the return key takes the selected
/// item.
pub open spec fn list_choice(key: Key, selected: Option<usize>) -> ListChoice {
    match key {
        Key::Char(c) => if c == 'q' {
            ListChoice::Quit
        } else if c == '1' {
            ListChoice::Known(0)
        } else if c == '2' {
            ListChoice::Known(1)
        } else if c == '3' {
            ListChoice::Own
        } else if c == 'j' {
            ListChoice::Next
        } else if c == 'k' {
            ListChoice::Previous
        } else if c == '\n' {
            match selected {
                Some(i) => if i <= 1 {
                    ListChoice::Known(i)
                } else {
                    ListChoice::Own
                },
                None => ListChoice::Nothing,
            }
        } else {
            ListChoice::Nothing
        },
        Key::Down => ListChoice::Next,
        Key::Up => ListChoice::Previous,
        _ => ListChoice::Nothing,
    }
}

/// What `key` asks for on the list of servers.
fn choose_from_list(key: Key, selected: Option<usize>) -> (choice: ListChoice)
    ensures
        choice == list_choice(key, selected),
{
    match key {
        Key::Char(c) => {
            if c == 'q' {
                ListChoice::Quit
            } else if c == '1' {
                ListChoice::Known(0)
            } else if c == '2' {
                ListChoice::Known(1)
            } else if c == '3' {
                ListChoice::Own
            } else if c == 'j' {
                ListChoice::Next
            } else if c == 'k' {
                ListChoice::Previous
            } else if c == '\n' {
                match selected {
                    Some(i) => {
                        if i <= 1 {
                            ListChoice::Known(i)
                        } else {
                            ListChoice::Own
                        }
                    },
                    None => ListChoice::Nothing,
                }
            } else {
                ListChoice::Nothing
            }
        },
        Key::Down => ListChoice::Next,
        Key::Up => ListChoice::Previous,
        _ => ListChoice::Nothing,
    }
}

/// Takes an event on the list of servers. A key does what it asks for (see
/// `list_choice`); a message or a tick changes nothing.
pub fn on_url_list_event(
    app: &mut App,
    stateful_list: &mut StatefulList<(&'static str, &'static str, &'static str)>,
    event: Event<Key>,
)
    requires
        old(stateful_list).items@.len() == 3,
        old(stateful_list).state.chosen() matches Some(i) ==> i < 3,
    ensures
        final(stateful_list).items == old(stateful_list).items,
        final(stateful_list).state.chosen() matches Some(i) ==> i < 3,
        ({
            let items = old(stateful_list).items;
            let before = old(stateful_list).state;
            let after = final(stateful_list).state;
            let same_app = final(app)@ == old(app)@;
            match event {
                Event::Input(key) => match list_choice(key, before.chosen()) {
                    ListChoice::Quit => after == before && final(app)@ == (AppView {
                        display_state: DisplayState::Quiet,
                        ..old(app)@
                    }),
                    ListChoice::Known(i) => after == before && final(app)@ == (AppView {
                        display_state: DisplayState::Quiet,
                        data: DataView { server_url: items[i as int].1@, client_id: items[i as int].2@ },
                    }),
                    ListChoice::Own => after == before && final(app)@ == (AppView {
                        display_state: DisplayState::InputUrl,
                        ..old(app)@
                    }),
                    ListChoice::Next => same_app && after.chosen() == Some(
                        match before.chosen() {
                            Some(i) => if i >= 2 {
                                0usize
                            } else {
                                (i + 1) as usize
                            },
                            None => 0usize,
                        },
                    ),
                    ListChoice::Previous => same_app && after.chosen() == Some(
                        match before.chosen() {
                            Some(i) => if i == 0 {
                                2usize
                            } else {
                                (i - 1) as usize
                            },
                            None => 0usize,
                        },
                    ),
                    ListChoice::Nothing => same_app && after == before,
                },
                _ => same_app && after == before,
            }
        }),
{
    match event {
        Event::Input(key) => match choose_from_list(key, stateful_list.state.selected()) {
            ListChoice::Quit => app.set_quiet(),
            ListChoice::Known(i) => {
                app.set_server_url(stateful_list.items[i].1.to_owned());
                app.set_client_id(stateful_list.items[i].2.to_owned());
                app.set_quiet();
            },
            ListChoice::Own => app.select_own_server(),
            ListChoice::Next => stateful_list.next(),
            ListChoice::Previous => stateful_list.previous(),
            ListChoice::Nothing => {},
        },
        Event::Tick => {},
        Event::Message(_) => {},
    }
}

/// Puts `c` at the end of `text`.
///
/// Calls `String::push`, which appends the character to the string.
#[verifier::external_body]
fn push_char(text: &mut String, c: char)
    ensures
        final(text)@ == old(text)@.push(c),
{
    text.push(c);
}

/// Takes the last character off `text`, if it has one.
fn pop_char(text: &mut String)
    ensures
        final(text)@ == if old(text)@.len() > 0 {
            old(text)@.drop_last()
        } else {
            old(text)@
        },
{
    let n = text.as_str().unicode_len();
    if n > 0 {
        let shorter = text.as_str().substring_char(0, n - 1).to_owned();
        assert(shorter@ =~= text@.drop_last());
        *text = shorter;
    }
}

/// The fields for another server and how keys are taken there.
pub struct InputView {
    pub app: AppView,
    pub input_mode: InputMode,
    pub config_kind: ConfigKind,
    pub server_url: Seq<char>,
    pub client_id: Seq<char>,
}

/// `fields` with `edit` done to the field that keys are typed into.
pub open spec fn edited(fields: InputView, edit: spec_fn(Seq<char>) -> Seq<char>) -> InputView {
    match fields.config_kind {
        ConfigKind::ServerUrl => InputView { server_url: edit(fields.server_url), ..fields },
        ConfigKind::ClientID => InputView { client_id: edit(fields.client_id), ..fields },
    }
}

/// What a key does to the fields for another server.
///
/// While keys move about: the down arrow and `j` go to the field of the
/// client id, the up arrow and `k` to the field of the address; `i` begins
/// typing, and from then on the exit key is typed like any other; `q` ends
/// the choice as it stands; the return key takes the two fields as the
/// settings and ends the choice.
///
/// While keys are typed: `Esc` ends typing, and the exit key is heeded
/// again; a character goes to the end of the field; the backspace key
/// takes the last character off it.
pub open spec fn after_key(fields: InputView, key: Key) -> (InputView, ExitKey) {
    match fields.input_mode {
        InputMode::Normal => match key {
            Key::Down => (InputView { config_kind: ConfigKind::ClientID, ..fields }, ExitKey::Keep),
            Key::Up => (InputView { config_kind: ConfigKind::ServerUrl, ..fields }, ExitKey::Keep),
            Key::Char(c) => if c == 'j' {
                (InputView { config_kind: ConfigKind::ClientID, ..fields }, ExitKey::Keep)
            } else if c == 'k' {
                (InputView { config_kind: ConfigKind::ServerUrl, ..fields }, ExitKey::Keep)
            } else if c == 'i' {
                (InputView { input_mode: InputMode::Editing, ..fields }, ExitKey::Disable)
            } else if c == 'q' {
                (
                    InputView {
                        app: AppView { display_state: DisplayState::Quiet, ..fields.app },
                        ..fields
                    },
                    ExitKey::Keep,
                )
            } else if c == '\n' {
                (
                    InputView {
                        app: AppView {
                            display_state: DisplayState::Quiet,
                            data: DataView {
                                server_url: fields.server_url,
                                client_id: fields.client_id,
                            },
                        },
                        ..fields
                    },
                    ExitKey::Keep,
                )
            } else {
                (fields, ExitKey::Keep)
            },
            _ => (fields, ExitKey::Keep),
        },
        InputMode::Editing => match key {
            Key::Esc => (InputView { input_mode: InputMode::Normal, ..fields }, ExitKey::Enable),
            Key::Char(c) => (edited(fields, |text: Seq<char>| text.push(c)), ExitKey::Keep),
            Key::Backspace => (
                edited(
                    fields,
                    |text: Seq<char>|
                        if text.len() > 0 {
                            text.drop_last()
                        } else {
                            text
                        },
                ),
                ExitKey::Keep,
            ),
            _ => (fields, ExitKey::Keep),
        },
    }
}

/// Takes an event on the fields for another server, and tells what is to
/// be done about the exit key. A key does what `after_key` says; a message
/// or a tick changes nothing.
pub fn on_input_event(
    app: &mut App,
    input_mode: &mut InputMode,
    server_url: &mut String,
    config_kind: &mut ConfigKind,
    client_id: &mut String,
    event: Event<Key>,
) -> (exit_key: ExitKey)
    ensures
        ({
            let before = InputView {
                app: old(app)@,
                input_mode: *old(input_mode),
                config_kind: *old(config_kind),
                server_url: old(server_url)@,
                client_id: old(client_id)@,
            };
            let after = InputView {
                app: final(app)@,
                input_mode: *final(input_mode),
                config_kind: *final(config_kind),
                server_url: final(server_url)@,
                client_id: final(client_id)@,
            };
            match event {
                Event::Input(key) => (after, exit_key) == after_key(before, key),
                _ => after == before && exit_key == ExitKey::Keep,
            }
        }),
{
    let key = match event {
        Event::Input(key) => key,
        Event::Tick => {
            return ExitKey::Keep;
        },
        Event::Message(_) => {
            return ExitKey::Keep;
        },
    };
    match *input_mode {
        InputMode::Normal => {
            match key {
                Key::Down => {
                    *config_kind = ConfigKind::ClientID;
                },
                Key::Up => {
                    *config_kind = ConfigKind::ServerUrl;
                },
                Key::Char(c) => {
                    if c == 'j' {
                        *config_kind = ConfigKind::ClientID;
                    } else if c == 'k' {
                        *config_kind = ConfigKind::ServerUrl;
                    } else if c == 'i' {
                        *input_mode = InputMode::Editing;
                        return ExitKey::Disable;
                    } else if c == 'q' {
                        app.set_quiet();
                    } else if c == '\n' {
                        app.set_server_url(server_url.clone());
                        app.set_client_id(client_id.clone());
                        app.set_quiet();
                    }
                },
                _ => {},
            }
            ExitKey::Keep
        },
        InputMode::Editing => {
            match key {
                Key::Esc => {
                    *input_mode = InputMode::Normal;
                    return ExitKey::Enable;
                },
                Key::Char(c) => {
                    match *config_kind {
                        ConfigKind::ServerUrl => push_char(server_url, c),
                        ConfigKind::ClientID => push_char(client_id, c),
                    }
                },
                Key::Backspace => {
                    match *config_kind {
                        ConfigKind::ServerUrl => pop_char(server_url),
                        ConfigKind::ClientID => pop_char(client_id),
                    }
                },
                _ => {},
            }
            ExitKey::Keep
        },
    }
}

/// The number of columns that `text` takes on the screen.
pub uninterp spec fn display_width(text: Seq<char>) -> nat;

/// The number of columns that `text` takes on the screen.
///
/// Calls `unicode_width::UnicodeWidthStr::width`, which adds up the widths
/// that its tables give for the characters of the text. The contract gives
/// that number the name `display_width` and claims nothing more of it.
#[verifier::external_body]
fn text_width(text: &str) -> (width: usize)
    ensures
        width == display_width(text@),
{
    UnicodeWidthStr::width(text)
}

/// Whether the cursor behind a text of the given width, in a field that is
/// drawn in `chunk`, is at a place that the screen can name.
pub open spec fn cursor_fits(chunk: Rect, width: nat) -> bool {
    chunk.x + width + 1 <= u16::MAX && chunk.y + 1 <= u16::MAX
}

/// The column and the row of the cursor behind a text of the given width in
/// a field that is drawn in `chunk`: the text begins one column and one row
/// inside the border of the field.
pub fn cursor_at(chunk: Rect, width: usize) -> (cursor: (u16, u16))
    requires
        cursor_fits(chunk, width as nat),
    ensures
        cursor.0 == chunk.x + width + 1,
        cursor.1 == chunk.y + 1,
{
    (chunk.x + (width as u16) + 1, chunk.y + 1)
}

/// The column and the row of the cursor behind `text` in a field that is
/// drawn in `chunk`, if that place is one that the screen can name.
pub fn cursor_position(chunk: Rect, text: &str) -> (cursor: Option<(u16, u16)>)
    ensures
        cursor == if cursor_fits(chunk, display_width(text@)) {
            Some(
                ((chunk.x + display_width(text@) + 1) as u16, (chunk.y + 1) as u16),
            )
        } else {
            None
        },
{
    let width = text_width(text);
    if width < 0xFFFF && chunk.x < 0xFFFF - (width as u16) && chunk.y < 0xFFFF {
        Some(cursor_at(chunk, width))
    } else {
        None
    }
}

/// Where the cursor is shown on the fields for another server: nowhere
/// while keys move about; while keys are typed, behind the text of the
/// field that they are typed into.
pub fn input_cursor(
    input_mode: InputMode,
    config_kind: ConfigKind,
    server_url_chunk: Rect,
    client_id_chunk: Rect,
    server_url: &str,
    client_id: &str,
) -> (cursor: Option<(u16, u16)>)
    ensures
        cursor == match input_mode {
            InputMode::Normal => None,
            InputMode::Editing => {
                let (chunk, text) = match config_kind {
                    ConfigKind::ServerUrl => (server_url_chunk, server_url@),
                    ConfigKind::ClientID => (client_id_chunk, client_id@),
                };
                if cursor_fits(chunk, display_width(text)) {
                    Some(((chunk.x + display_width(text) + 1) as u16, (chunk.y + 1) as u16))
                } else {
                    None
                }
            },
        },
{
    match input_mode {
        InputMode::Normal => None,
        InputMode::Editing => match config_kind {
            ConfigKind::ServerUrl => cursor_position(server_url_chunk, server_url),
            ConfigKind::ClientID => cursor_position(client_id_chunk, client_id),
        },
    }
}

} // verus!
