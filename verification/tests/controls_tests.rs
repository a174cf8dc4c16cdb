use taiko_core::beatmap::NoteType;
use taiko_core::controls::{
    key_command, parse_keybind, parse_options, Command, Key, KeyInput, Loading, Options, PreviewPlan,
    PreviewState, SceneKind,
};

fn press(key: Key) -> KeyInput {
    KeyInput { key, press: true }
}

#[test]
fn default_options() {
    let o = Options::new();
    assert_eq!(o.songs_dir, "");
    assert_eq!((o.centre_left, o.centre_right, o.rim_left, o.rim_right), ('f', 'j', 'd', 'k'));
}

#[test]
fn keybinds() {
    assert_eq!(parse_keybind("K", 'x'), 'k');
    assert_eq!(parse_keybind("z", 'x'), 'z');
    assert_eq!(parse_keybind("É", 'x'), 'É');
    assert_eq!(parse_keybind("ab", 'x'), 'x');
    assert_eq!(parse_keybind("", 'x'), 'x');
    assert_eq!(parse_keybind(";", 'x'), ';');
}

#[test]
fn options_file() {
    let text = "Songs Path: /home/me/Songs \r\nDrum Center (Left): X\nDrum Center (Right):v\n  Drum Rim (Left) : ab\nDrum Rim (Right): L\nno colon here\nVolume: 3\n";
    let o = parse_options(text);
    assert_eq!(o.songs_dir, "/home/me/Songs");
    assert_eq!(o.centre_left, 'x');
    assert_eq!(o.centre_right, 'v');
    assert_eq!(o.rim_left, 'd');
    assert_eq!(o.rim_right, 'l');
}

#[test]
fn options_value_keeps_later_colons() {
    let o = parse_options("Songs Path: C:\\Games\\Songs");
    assert_eq!(o.songs_dir, "C:\\Games\\Songs");
    let o = parse_options("");
    assert_eq!(o.centre_left, 'f');
}

#[test]
fn drums() {
    let o = Options::new();
    assert_eq!(o.drum_for_key(press(Key::Char('f'))), Some(NoteType::Don));
    assert_eq!(o.drum_for_key(press(Key::Char('j'))), Some(NoteType::Don));
    assert_eq!(o.drum_for_key(press(Key::Char('d'))), Some(NoteType::Kat));
    assert_eq!(o.drum_for_key(press(Key::Char('k'))), Some(NoteType::Kat));
    assert_eq!(o.drum_for_key(press(Key::Char('F'))), None);
    assert_eq!(o.drum_for_key(press(Key::Enter)), None);
    assert_eq!(o.drum_for_key(KeyInput { key: Key::Char('f'), press: false }), None);
}

#[test]
fn menu_keys() {
    assert_eq!(key_command(SceneKind::Menu, press(Key::Char('q'))), Command::Exit);
    assert_eq!(key_command(SceneKind::Menu, press(Key::Esc)), Command::Exit);
    assert_eq!(key_command(SceneKind::Menu, press(Key::Down)), Command::MoveSelection(1));
    assert_eq!(key_command(SceneKind::Menu, press(Key::Right)), Command::MoveSelection(1));
    assert_eq!(key_command(SceneKind::Menu, press(Key::Up)), Command::MoveSelection(-1));
    assert_eq!(key_command(SceneKind::Menu, press(Key::Left)), Command::MoveSelection(-1));
    assert_eq!(key_command(SceneKind::Menu, press(Key::Enter)), Command::Activate);
    assert_eq!(key_command(SceneKind::Menu, press(Key::Char('x'))), Command::Nothing);
    assert_eq!(key_command(SceneKind::Menu, KeyInput { key: Key::Esc, press: false }), Command::Nothing);
}

#[test]
fn game_and_loading_keys() {
    assert_eq!(key_command(SceneKind::Game, press(Key::Esc)), Command::LeaveGame);
    assert_eq!(key_command(SceneKind::Game, press(Key::Char('q'))), Command::GameKey);
    assert_eq!(key_command(SceneKind::Loading, press(Key::Esc)), Command::Nothing);
    assert_eq!(key_command(SceneKind::Game, KeyInput { key: Key::Char('f'), press: false }), Command::Nothing);
}

#[test]
fn loading_text() {
    assert_eq!(Loading.text(), "Loading map");
}

#[test]
fn preview_polls() {
    let mut p = PreviewState::new();
    assert_eq!(p.poll(false, None), PreviewPlan { stop_current: false, start: false });
    assert_eq!(p.poll(false, Some("songs/a.mp3")), PreviewPlan { stop_current: true, start: true });
    assert_eq!(p.playing.as_deref(), Some("songs/a.mp3"));
    assert_eq!(p.poll(false, Some("songs/a.mp3")), PreviewPlan { stop_current: false, start: false });
    // the same path written differently is not restarted
    assert_eq!(p.poll(false, Some("songs//a.mp3")), PreviewPlan { stop_current: false, start: false });
    assert_eq!(p.poll(false, Some("songs/b.mp3")), PreviewPlan { stop_current: true, start: true });
    assert_eq!(p.poll(true, None), PreviewPlan { stop_current: true, start: false });
    assert_eq!(p.playing, None);
    assert_eq!(p.poll(true, Some("songs/b.mp3")), PreviewPlan { stop_current: true, start: true });
    p.stop();
    assert_eq!(p.playing, None);
}
