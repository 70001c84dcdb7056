use qui::app::AppState;
use qui::app::MessageState;
use qui::app::Rect;
use qui::app::WidgetState;
use qui::app::MAX_CHANNEL_WINDOW_SIZE;
use qui::config::ui::cursor_at;
use qui::config::ui::cursor_position;
use qui::config::ui::input_cursor;
use qui::config::ui::on_input_event;
use qui::config::ui::on_url_list_event;
use qui::config::ui::server_choices;
use qui::config::ui::App;
use qui::config::ui::ConfigKind;
use qui::config::ui::DisplayState;
use qui::config::ui::ExitKey;
use qui::config::ui::InputMode;
use qui::config::ui::ListState;
use qui::config::ui::StatefulList;
use qui::config::Data;
use qui::utils::event::ends_input;
use qui::utils::event::Config;
use qui::utils::Event;
use qui::utils::Key;

fn rect(width: u16, height: u16) -> Rect {
    Rect { x: 0, y: 0, width, height }
}

#[test]
fn app_state_starts_idle() {
    let state = AppState::new(rect(80, 24));
    assert_eq!(state.key(), Key::Null);
    assert!(!state.should_quit());
    assert_eq!(state.frame, rect(80, 24));
    assert_eq!(MAX_CHANNEL_WINDOW_SIZE, 5);
}

#[test]
fn q_and_ctrl_c_quit() {
    let mut state = AppState::new(rect(80, 24));
    state.on_key(Key::Char('x'));
    assert_eq!(state.key(), Key::Char('x'));
    assert!(!state.should_quit());
    state.on_key(Key::Ctrl('d'));
    assert!(!state.should_quit());
    state.on_key(Key::Char('q'));
    assert_eq!(state.key(), Key::Char('q'));
    assert!(state.should_quit());
    state.on_key(Key::Left);
    assert!(state.should_quit());

    let mut state = AppState::new(rect(80, 24));
    state.on_key(Key::Ctrl('c'));
    assert!(state.should_quit());
    assert_eq!(state.key(), Key::Ctrl('c'));
}

#[test]
fn size_change_sets_the_frame() {
    let mut state = AppState::new(rect(80, 24));
    assert!(!state.on_size_change(rect(80, 24), rect(80, 24)));
    assert_eq!(state.frame, rect(80, 24));
    assert!(state.on_size_change(rect(80, 24), rect(100, 30)));
    assert_eq!(state.frame, rect(100, 30));
}

#[test]
fn events_reach_the_state() {
    let mut state = AppState::new(rect(80, 24));
    let mut msg = "old".to_owned();
    assert!(!state.on_event(Event::Tick, &mut msg));
    assert_eq!(msg, "old");
    assert!(state.on_event(Event::Message("new".to_owned()), &mut msg));
    assert_eq!(msg, "new");
    assert!(!state.should_quit());
    assert!(!state.on_event(Event::Input(Key::Char('q')), &mut msg));
    assert_eq!(msg, "new");
    assert!(state.should_quit());
}

#[test]
fn widget_and_message_state() {
    let w = WidgetState::default();
    assert_eq!(w.selected, 0);
    assert!(w.msg_state.is_empty());
    let m = MessageState::new(3, "id".to_owned());
    assert_eq!(m.scroll, 3);
    assert_eq!(m.channel_id, "id");
    assert_eq!(qui::ui::WidgetState::new().scroll, 0);
}

#[test]
fn event_config_and_exit_key() {
    let config = Config::default();
    assert_eq!(config.exit_key, Key::Char('q'));
    assert_eq!(config.tick_rate, 250);
    assert!(ends_input(false, Key::Char('q'), config.exit_key));
    assert!(!ends_input(true, Key::Char('q'), config.exit_key));
    assert!(!ends_input(false, Key::Char('x'), config.exit_key));
    assert!(!ends_input(false, Key::Ctrl('q'), config.exit_key));
}

#[test]
fn data_defaults_and_setters() {
    let mut data = Data::default();
    assert_eq!(Data::filename(), "config");
    assert_eq!(data.get_server_url(), "https://traq-s-dev.tokyotech.org/api/v3");
    assert_eq!(data.get_client_id(), "xIwrarN2fZn4ikXBscU8YdA8ZcGGOQD2CczY");
    data.set_server_url("https://example.org".to_owned());
    data.set_client_id("me".to_owned());
    assert_eq!(data.get_server_url(), "https://example.org");
    assert_eq!(data.get_client_id(), "me");
}

#[test]
fn stateful_list_wraps_around() {
    let mut list = StatefulList::with_items(vec!['a', 'b', 'c']);
    assert_eq!(list.state.selected(), None);
    list.next();
    assert_eq!(list.state.selected(), Some(0));
    list.next();
    list.next();
    assert_eq!(list.state.selected(), Some(2));
    list.next();
    assert_eq!(list.state.selected(), Some(0));
    list.previous();
    assert_eq!(list.state.selected(), Some(2));
    list.previous();
    assert_eq!(list.state.selected(), Some(1));
    list.unselect();
    assert_eq!(list.state.selected(), None);
    list.previous();
    assert_eq!(list.state.selected(), Some(0));
    let empty: StatefulList<u8> = StatefulList::default();
    assert!(empty.items.is_empty());
    assert_eq!(empty.state.selected(), None);
    let mut state = ListState::default();
    state.select(Some(4));
    assert_eq!(state.selected(), Some(4));
}

#[test]
fn list_offers_three_servers() {
    let choices = server_choices();
    assert_eq!(choices.len(), 3);
    assert_eq!(choices[0].1, "https://q.trap.jp/api/v3");
    assert_eq!(choices[0].2, "6uT93VLLNjAfEkgX5IOYP4gHdW6p00dfgfPy");
    assert_eq!(choices[1].1, "https://traq-s-dev.tokyotech.org/api/v3");
    assert_eq!(choices[1].2, "xIwrarN2fZn4ikXBscU8YdA8ZcGGOQD2CczY");
    assert_eq!(choices[2], ("set manually", "", ""));
}

#[test]
fn keys_on_the_list_of_servers() {
    let mut app = App::new();
    let mut list = StatefulList::with_items(server_choices());
    assert_eq!(app.display_state(), DisplayState::SelectServer);

    on_url_list_event(&mut app, &mut list, Event::Tick);
    on_url_list_event(&mut app, &mut list, Event::Message("m".to_owned()));
    on_url_list_event(&mut app, &mut list, Event::Input(Key::Char('\n')));
    on_url_list_event(&mut app, &mut list, Event::Input(Key::Char('x')));
    assert_eq!(app.display_state(), DisplayState::SelectServer);
    assert_eq!(list.state.selected(), None);

    on_url_list_event(&mut app, &mut list, Event::Input(Key::Down));
    assert_eq!(list.state.selected(), Some(0));
    on_url_list_event(&mut app, &mut list, Event::Input(Key::Char('j')));
    assert_eq!(list.state.selected(), Some(1));
    on_url_list_event(&mut app, &mut list, Event::Input(Key::Char('k')));
    on_url_list_event(&mut app, &mut list, Event::Input(Key::Up));
    assert_eq!(list.state.selected(), Some(2));
    on_url_list_event(&mut app, &mut list, Event::Input(Key::Char('\n')));
    assert_eq!(app.display_state(), DisplayState::InputUrl);

    let mut app = App::new();
    on_url_list_event(&mut app, &mut list, Event::Input(Key::Char('1')));
    assert_eq!(app.display_state(), DisplayState::Quiet);
    assert_eq!(app.data().get_server_url(), "https://q.trap.jp/api/v3");
    assert_eq!(app.data().get_client_id(), "6uT93VLLNjAfEkgX5IOYP4gHdW6p00dfgfPy");

    let mut app = App::new();
    list.unselect();
    list.next();
    list.next();
    on_url_list_event(&mut app, &mut list, Event::Input(Key::Char('\n')));
    assert_eq!(app.display_state(), DisplayState::Quiet);
    assert_eq!(app.data().get_server_url(), "https://traq-s-dev.tokyotech.org/api/v3");

    let mut app = App::new();
    on_url_list_event(&mut app, &mut list, Event::Input(Key::Char('3')));
    assert_eq!(app.display_state(), DisplayState::InputUrl);
    let mut app = App::new();
    on_url_list_event(&mut app, &mut list, Event::Input(Key::Char('q')));
    assert_eq!(app.display_state(), DisplayState::Quiet);
    assert_eq!(app.data().get_server_url(), "https://traq-s-dev.tokyotech.org/api/v3");
}

#[test]
fn keys_on_the_fields() {
    let mut app = App::new();
    app.select_own_server();
    let mut mode = InputMode::Normal;
    let mut kind = ConfigKind::ServerUrl;
    let mut url = String::new();
    let mut id = String::new();
    let mut press = |app: &mut App,
                     mode: &mut InputMode,
                     kind: &mut ConfigKind,
                     url: &mut String,
                     id: &mut String,
                     key: Key| on_input_event(app, mode, url, kind, id, Event::Input(key));

    assert_eq!(press(&mut app, &mut mode, &mut kind, &mut url, &mut id, Key::Char('x')), ExitKey::Keep);
    assert_eq!(url, "");
    assert_eq!(press(&mut app, &mut mode, &mut kind, &mut url, &mut id, Key::Char('i')), ExitKey::Disable);
    assert_eq!(mode, InputMode::Editing);
    for c in "héq".chars() {
        assert_eq!(press(&mut app, &mut mode, &mut kind, &mut url, &mut id, Key::Char(c)), ExitKey::Keep);
    }
    assert_eq!(url, "héq");
    press(&mut app, &mut mode, &mut kind, &mut url, &mut id, Key::Backspace);
    assert_eq!(url, "hé");
    press(&mut app, &mut mode, &mut kind, &mut url, &mut id, Key::Backspace);
    assert_eq!(url, "h");
    press(&mut app, &mut mode, &mut kind, &mut url, &mut id, Key::Down);
    assert_eq!(kind, ConfigKind::ServerUrl);
    assert_eq!(press(&mut app, &mut mode, &mut kind, &mut url, &mut id, Key::Esc), ExitKey::Enable);
    assert_eq!(mode, InputMode::Normal);
    press(&mut app, &mut mode, &mut kind, &mut url, &mut id, Key::Char('j'));
    assert_eq!(kind, ConfigKind::ClientID);
    press(&mut app, &mut mode, &mut kind, &mut url, &mut id, Key::Char('i'));
    press(&mut app, &mut mode, &mut kind, &mut url, &mut id, Key::Backspace);
    assert_eq!(id, "");
    press(&mut app, &mut mode, &mut kind, &mut url, &mut id, Key::Char('7'));
    assert_eq!(id, "7");
    assert_eq!(url, "h");
    press(&mut app, &mut mode, &mut kind, &mut url, &mut id, Key::Esc);
    press(&mut app, &mut mode, &mut kind, &mut url, &mut id, Key::Up);
    assert_eq!(kind, ConfigKind::ServerUrl);
    press(&mut app, &mut mode, &mut kind, &mut url, &mut id, Key::Down);
    press(&mut app, &mut mode, &mut kind, &mut url, &mut id, Key::Char('k'));
    assert_eq!(kind, ConfigKind::ServerUrl);
    assert_eq!(app.display_state(), DisplayState::InputUrl);
    assert_eq!(
        on_input_event(&mut app, &mut mode, &mut url, &mut kind, &mut id, Event::Tick),
        ExitKey::Keep
    );
    press(&mut app, &mut mode, &mut kind, &mut url, &mut id, Key::Char('\n'));
    assert_eq!(app.display_state(), DisplayState::Quiet);
    assert_eq!(app.data().get_server_url(), "h");
    assert_eq!(app.data().get_client_id(), "7");

    let mut app = App::new();
    app.select_own_server();
    press(&mut app, &mut mode, &mut kind, &mut url, &mut id, Key::Char('q'));
    assert_eq!(app.display_state(), DisplayState::Quiet);
    assert_eq!(app.data().get_server_url(), "https://traq-s-dev.tokyotech.org/api/v3");
}

#[test]
fn cursor_stands_behind_the_text() {
    let chunk = Rect { x: 1, y: 5, width: 40, height: 5 };
    assert_eq!(cursor_at(chunk, 3), (5, 6));
    assert_eq!(cursor_position(chunk, ""), Some((2, 6)));
    assert_eq!(cursor_position(chunk, "abc"), Some((5, 6)));
    assert_eq!(cursor_position(chunk, "日本"), Some((6, 6)));
    let far = Rect { x: 65533, y: 0, width: 2, height: 1 };
    assert_eq!(cursor_position(far, "a"), Some((65535, 1)));
    assert_eq!(cursor_position(far, "ab"), None);
    let low = Rect { x: 0, y: 65535, width: 2, height: 1 };
    assert_eq!(cursor_position(low, "a"), None);
}

#[test]
fn cursor_is_shown_only_while_typing() {
    let first = Rect { x: 1, y: 2, width: 40, height: 5 };
    let second = Rect { x: 1, y: 7, width: 40, height: 5 };
    assert_eq!(
        input_cursor(InputMode::Normal, ConfigKind::ServerUrl, first, second, "url", "id"),
        None
    );
    assert_eq!(
        input_cursor(InputMode::Editing, ConfigKind::ServerUrl, first, second, "url", "id"),
        Some((5, 3))
    );
    assert_eq!(
        input_cursor(InputMode::Editing, ConfigKind::ClientID, first, second, "url", "id"),
        Some((4, 8))
    );
}
