//! Key bindings, the options file, what a key press means in each scene, and
//! when the menu's song preview has to change.
use vstd::prelude::*;
use crate::beatmap::NoteType;
use crate::text::{
    ascii_lower, chars_of, find_char, first_index, fold_lines, lemma_fold_lines_step,
    range_equals, to_ascii_lower, trim, trim_range, is_ws, trim_start, trim_end, lemma_first_index,
};

verus! {

/// The options, as values.
pub struct OptionsModel {
    pub songs_dir: Seq<char>,
    pub centre_left: char,
    pub centre_right: char,
    pub rim_left: char,
    pub rim_right: char,
}

/// The songs directory and the four drum keys.
#[derive(Debug)]
pub struct Options {
    pub songs_dir: String,
    pub centre_left: char,
    pub centre_right: char,
    pub rim_left: char,
    pub rim_right: char,
}

impl View for Options {
    type V = OptionsModel;

    open spec fn view(&self) -> OptionsModel {
        OptionsModel {
            songs_dir: self.songs_dir@,
            centre_left: self.centre_left,
            centre_right: self.centre_right,
            rim_left: self.rim_left,
            rim_right: self.rim_right,
        }
    }
}

pub open spec fn default_options() -> OptionsModel {
    OptionsModel {
        songs_dir: Seq::empty(),
        centre_left: 'f',
        centre_right: 'j',
        rim_left: 'd',
        rim_right: 'k',
    }
}

impl Options {
    /// No songs directory; drum keys f and j for the centre, d and k for the rim.
    pub fn new() -> (o: Options)
        ensures
            o@ == default_options(),
    {
        Options {
            songs_dir: String::new(),
            centre_left: 'f',
            centre_right: 'j',
            rim_left: 'd',
            rim_right: 'k',
        }
    }

    /// The drum that a key press plays, if any.
    pub fn drum_for_key(&self, input: KeyInput) -> (r: Option<NoteType>)
        ensures
            r == spec_drum_for_key(self@, input),
    {
        if !input.press {
            return None;
        }
        match input.key {
            Key::Char(c) => {
                if c == self.centre_left || c == self.centre_right {
                    Some(NoteType::Don)
                } else if c == self.rim_left || c == self.rim_right {
                    Some(NoteType::Kat)
                } else {
                    None
                }
            },
            _ => None,
        }
    }
}

/// A single character is the key (in lower case); anything else gives the fallback.
pub open spec fn spec_keybind(value: Seq<char>, fallback: char) -> char {
    if value.len() == 1 {
        ascii_lower(value[0])
    } else {
        fallback
    }
}

/// Reads a key binding: a single character, turned to lower case; anything
/// else gives `fallback`.
pub fn parse_keybind(value: &str, fallback: char) -> (c: char)
    ensures
        c == spec_keybind(value@, fallback),
{
    let v = chars_of(value);
    if v.len() == 1 {
        to_ascii_lower(v[0])
    } else {
        fallback
    }
}

/// One line of the options file, `Key: value`, both sides trimmed; lines
/// without a colon and unknown keys change nothing.
pub open spec fn options_step(o: OptionsModel, raw: Seq<char>) -> OptionsModel {
    let line = trim(raw);
    let k = first_index(line, ':');
    if k >= line.len() {
        o
    } else {
        let key = trim(line.take(k as int));
        let value = trim(line.skip(k as int + 1));
        if key == "Songs Path"@ {
            OptionsModel { songs_dir: value, ..o }
        } else if key == "Drum Center (Left)"@ {
            OptionsModel { centre_left: spec_keybind(value, 'f'), ..o }
        } else if key == "Drum Center (Right)"@ {
            OptionsModel { centre_right: spec_keybind(value, 'j'), ..o }
        } else if key == "Drum Rim (Left)"@ {
            OptionsModel { rim_left: spec_keybind(value, 'd'), ..o }
        } else if key == "Drum Rim (Right)"@ {
            OptionsModel { rim_right: spec_keybind(value, 'k'), ..o }
        } else {
            o
        }
    }
}

pub open spec fn options_stepper() -> spec_fn(OptionsModel, Seq<char>) -> OptionsModel {
    |o: OptionsModel, raw: Seq<char>| options_step(o, raw)
}

/// The options that an options file's text sets, line by line, over the defaults.
pub open spec fn spec_parse_options(text: Seq<char>) -> OptionsModel {
    fold_lines(options_stepper(), default_options(), text)
}

/// A line `key: value`, with neither side padded and no colon in the key,
/// splits into that key and that value.
proof fn lemma_option_line_parts(k: Seq<char>, val: Seq<char>)
    requires
        k.len() > 0,
        forall|i: int| 0 <= i < k.len() ==> k[i] != ':',
        !is_ws(k[0]),
        !is_ws(k.last()),
        val.len() > 0,
        !is_ws(val[0]),
        !is_ws(val.last()),
    ensures
        ({
            let line = k + ": "@ + val;
            &&& trim(line) == line
            &&& first_index(line, ':') == k.len()
            &&& trim(line.take(k.len() as int)) == k
            &&& trim(line.skip(k.len() as int + 1)) == val
        }),
{
    reveal_strlit(": ");
    let line = k + ": "@ + val;
    assert(line[0] == k[0]);
    assert(line.last() == val.last());
    assert(trim_start(line) == line);
    assert(trim_end(line) == line);
    assert forall|i: int| 0 <= i < k.len() implies line[i] != ':' by {
        assert(line[i] == k[i]);
    }
    assert(line[k.len() as int] == ':');
    lemma_first_index(line, ':', k.len() as int);
    assert(line.take(k.len() as int) =~= k);
    assert(trim_start(k) == k);
    assert(trim_end(k) == k);
    let rest = line.skip(k.len() as int + 1);
    assert(rest =~= seq![' '] + val);
    assert(rest.drop_first() =~= val);
    assert(trim_start(val) == val);
    assert(trim_end(val) == val);
}

/// Each option line sets its own option and leaves the others: `Songs Path`
/// the songs directory, and each drum key line its drum key, as the value's
/// single character in lower case.
pub proof fn lemma_option_lines(o: OptionsModel, c: char, path: Seq<char>)
    requires
        !is_ws(c),
        path.len() > 0,
        !is_ws(path[0]),
        !is_ws(path.last()),
    ensures
        options_step(o, "Songs Path: "@ + path) == (OptionsModel { songs_dir: path, ..o }),
        options_step(o, "Drum Center (Left): "@ + seq![c]) == (OptionsModel {
            centre_left: ascii_lower(c),
            ..o
        }),
        options_step(o, "Drum Center (Right): "@ + seq![c]) == (OptionsModel {
            centre_right: ascii_lower(c),
            ..o
        }),
        options_step(o, "Drum Rim (Left): "@ + seq![c]) == (OptionsModel {
            rim_left: ascii_lower(c),
            ..o
        }),
        options_step(o, "Drum Rim (Right): "@ + seq![c]) == (OptionsModel {
            rim_right: ascii_lower(c),
            ..o
        }),
{
    reveal_strlit(": ");
    reveal_strlit("Songs Path");
    reveal_strlit("Drum Center (Left)");
    reveal_strlit("Drum Center (Right)");
    reveal_strlit("Drum Rim (Left)");
    reveal_strlit("Drum Rim (Right)");
    reveal_strlit("Songs Path: ");
    reveal_strlit("Drum Center (Left): ");
    reveal_strlit("Drum Center (Right): ");
    reveal_strlit("Drum Rim (Left): ");
    reveal_strlit("Drum Rim (Right): ");
    let v = seq![c];
    lemma_option_line_parts("Songs Path"@, path);
    assert("Songs Path: "@ + path =~= "Songs Path"@ + ": "@ + path);
    lemma_option_line_parts("Drum Center (Left)"@, v);
    assert("Drum Center (Left): "@ + v =~= "Drum Center (Left)"@ + ": "@ + v);
    lemma_option_line_parts("Drum Center (Right)"@, v);
    assert("Drum Center (Right): "@ + v =~= "Drum Center (Right)"@ + ": "@ + v);
    lemma_option_line_parts("Drum Rim (Left)"@, v);
    assert("Drum Rim (Left): "@ + v =~= "Drum Rim (Left)"@ + ": "@ + v);
    lemma_option_line_parts("Drum Rim (Right)"@, v);
    assert("Drum Rim (Right): "@ + v =~= "Drum Rim (Right)"@ + ": "@ + v);
}

/// An options file that rebinds the right rim key: that key, pressed, plays
/// `Kat` unless it is also a centre key, and the default right rim key no
/// longer plays anything unless it is bound to another drum.
pub proof fn lemma_rebound_rim_key(c: char)
    requires
        !is_ws(c),
    ensures
        ({
            let o = spec_parse_options("Drum Rim (Right): "@ + seq![c]);
            &&& o.rim_right == ascii_lower(c)
            &&& (ascii_lower(c) != 'f' && ascii_lower(c) != 'j' ==> spec_drum_for_key(
                o,
                KeyInput { key: Key::Char(ascii_lower(c)), press: true },
            ) == Some(NoteType::Kat))
            &&& (ascii_lower(c) != 'k' ==> spec_drum_for_key(
                o,
                KeyInput { key: Key::Char('k'), press: true },
            ) is None)
        }),
{
    reveal_strlit("Drum Rim (Right): ");
    let text = "Drum Rim (Right): "@ + seq![c];
    assert(c != '\n');
    assert forall|j: int| 0 <= j < text.len() implies text[j] != '\n' by {}
    lemma_first_index(text, '\n', text.len() as int);
    lemma_option_lines(default_options(), c, seq!['x']);
    assert(spec_parse_options(text) == options_step(default_options(), text));
}

fn options_line(o: &mut Options, text: &str, v: &Vec<char>, lo: usize, hi: usize, keys: &OptionKeys)
    requires
        text@ == v@,
        lo <= hi <= v@.len(),
        keys.wf(),
    ensures
        final(o)@ == options_step(old(o)@, v@.subrange(lo as int, hi as int)),
{
    let (a, b) = trim_range(v, lo, hi);
    let ghost line = v@.subrange(a as int, b as int);
    let k = find_char(v, a, b, ':');
    if k == b {
        return;
    }
    assert(line.take(k - a) =~= v@.subrange(a as int, k as int));
    assert(line.skip(k - a + 1) =~= v@.subrange(k + 1, b as int));
    let (ka, kb) = trim_range(v, a, k);
    let (va, vb) = trim_range(v, k + 1, b);
    if range_equals(v, ka, kb, &keys.songs) {
        o.songs_dir = String::from_str(text.substring_char(va, vb));
    } else if range_equals(v, ka, kb, &keys.centre_left) {
        o.centre_left = keybind_range(v, va, vb, 'f');
    } else if range_equals(v, ka, kb, &keys.centre_right) {
        o.centre_right = keybind_range(v, va, vb, 'j');
    } else if range_equals(v, ka, kb, &keys.rim_left) {
        o.rim_left = keybind_range(v, va, vb, 'd');
    } else if range_equals(v, ka, kb, &keys.rim_right) {
        o.rim_right = keybind_range(v, va, vb, 'k');
    }
}

fn keybind_range(v: &Vec<char>, a: usize, b: usize, fallback: char) -> (c: char)
    requires
        a <= b <= v@.len(),
    ensures
        c == spec_keybind(v@.subrange(a as int, b as int), fallback),
{
    if b - a == 1 {
        to_ascii_lower(v[a])
    } else {
        fallback
    }
}

/// The keys of the options file, as characters.
struct OptionKeys {
    songs: Vec<char>,
    centre_left: Vec<char>,
    centre_right: Vec<char>,
    rim_left: Vec<char>,
    rim_right: Vec<char>,
}

impl OptionKeys {
    spec fn wf(&self) -> bool {
        &&& self.songs@ == "Songs Path"@
        &&& self.centre_left@ == "Drum Center (Left)"@
        &&& self.centre_right@ == "Drum Center (Right)"@
        &&& self.rim_left@ == "Drum Rim (Left)"@
        &&& self.rim_right@ == "Drum Rim (Right)"@
    }

    fn new() -> (k: OptionKeys)
        ensures
            k.wf(),
    {
        OptionKeys {
            songs: chars_of("Songs Path"),
            centre_left: chars_of("Drum Center (Left)"),
            centre_right: chars_of("Drum Center (Right)"),
            rim_left: chars_of("Drum Rim (Left)"),
            rim_right: chars_of("Drum Rim (Right)"),
        }
    }
}

/// Reads an options file: `Songs Path`, and the four drum keys
/// `Drum Center (Left)`, `Drum Center (Right)`, `Drum Rim (Left)`,
/// `Drum Rim (Right)`; later lines override earlier ones.
pub fn parse_options(text: &str) -> (o: Options)
    ensures
        o@ == spec_parse_options(text@),
{
    let v = chars_of(text);
    let keys = OptionKeys::new();
    let ghost target = fold_lines(options_stepper(), default_options(), v@);
    let mut o = Options::new();
    let mut pos: usize = 0;
    assert(v@.skip(0) =~= v@);
    loop
        invariant
            pos <= v@.len(),
            keys.wf(),
            v@ == text@,
            target == fold_lines(options_stepper(), default_options(), v@),
            fold_lines(options_stepper(), o@, v@.skip(pos as int)) == target,
        decreases v@.len() - pos,
    {
        let e = find_char(&v, pos, v.len(), '\n');
        let ghost before = o@;
        proof {
            lemma_fold_lines_step(options_stepper(), before, v@, pos as int, e as int);
        }
        options_line(&mut o, text, &v, pos, e, &keys);
        if e == v.len() {
            return o;
        }
        pos = e + 1;
    }
}

// ---------------------------------------------------------------------------
// Keys and scenes
// ---------------------------------------------------------------------------

/// The keys that the game tells apart.
#[derive(Debug, PartialEq, Eq, Structural, Clone, Copy)]
pub enum Key {
    Char(char),
    Esc,
    Up,
    Down,
    Left,
    Right,
    Enter,
    Other,
}

/// A key event: the key, and whether it was pressed (not repeated or released).
#[derive(Debug, PartialEq, Eq, Structural, Clone, Copy)]
pub struct KeyInput {
    pub key: Key,
    pub press: bool,
}

/// The drum that a key press plays: the centre keys play `Don`, the rim keys
/// `Kat`; releases and other keys play nothing.
pub open spec fn spec_drum_for_key(o: OptionsModel, input: KeyInput) -> Option<NoteType> {
    if !input.press {
        None
    } else {
        match input.key {
            Key::Char(c) => if c == o.centre_left || c == o.centre_right {
                Some(NoteType::Don)
            } else if c == o.rim_left || c == o.rim_right {
                Some(NoteType::Kat)
            } else {
                None
            },
            _ => None,
        }
    }
}

/// Each bound drum key plays its own drum, whatever character it is bound to:
/// a centre key plays `Don`; a rim key that is not also a centre key plays
/// `Kat`; any other character, any other key, and any event that is not a
/// press play nothing.
pub proof fn lemma_drum_keys(o: OptionsModel, key: Key, press: bool)
    ensures
        press && key == Key::Char(o.centre_left) ==> spec_drum_for_key(
            o,
            KeyInput { key, press },
        ) == Some(NoteType::Don),
        press && key == Key::Char(o.centre_right) ==> spec_drum_for_key(
            o,
            KeyInput { key, press },
        ) == Some(NoteType::Don),
        press && key == Key::Char(o.rim_left) && o.rim_left != o.centre_left && o.rim_left
            != o.centre_right ==> spec_drum_for_key(o, KeyInput { key, press }) == Some(
            NoteType::Kat,
        ),
        press && key == Key::Char(o.rim_right) && o.rim_right != o.centre_left && o.rim_right
            != o.centre_right ==> spec_drum_for_key(o, KeyInput { key, press }) == Some(
            NoteType::Kat,
        ),
        key != Key::Char(o.centre_left) && key != Key::Char(o.centre_right) && key != Key::Char(
            o.rim_left,
        ) && key != Key::Char(o.rim_right) ==> spec_drum_for_key(o, KeyInput { key, press })
            is None,
        !press ==> spec_drum_for_key(o, KeyInput { key, press }) is None,
{
}

/// What the game is showing.
#[derive(Debug, PartialEq, Eq, Structural, Clone, Copy)]
pub enum SceneKind {
    Menu,
    Game,
    Loading,
}

/// What a key press asks for.
#[derive(Debug, PartialEq, Eq, Structural, Clone, Copy)]
pub enum Command {
    Nothing,
    Exit,
    MoveSelection(isize),
    Activate,
    LeaveGame,
    GameKey,
}

/// In the menu q and Esc quit, Down and Right move down, Up and Left move up,
/// Enter activates; in a game Esc leaves and other keys go to the game; while
/// loading, and for anything but a press, nothing happens.
pub open spec fn spec_key_command(scene: SceneKind, input: KeyInput) -> Command {
    if !input.press {
        Command::Nothing
    } else {
        match scene {
            SceneKind::Menu => match input.key {
                Key::Char(c) => if c == 'q' {
                    Command::Exit
                } else {
                    Command::Nothing
                },
                Key::Esc => Command::Exit,
                Key::Down | Key::Right => Command::MoveSelection(1isize),
                Key::Up | Key::Left => Command::MoveSelection(-1isize),
                Key::Enter => Command::Activate,
                _ => Command::Nothing,
            },
            SceneKind::Game => if input.key == Key::Esc {
                Command::LeaveGame
            } else {
                Command::GameKey
            },
            SceneKind::Loading => Command::Nothing,
        }
    }
}

/// In the menu, Down and Right move the cursor one row down and Up and Left
/// one row up, Enter activates, and Esc and q quit; in a game Esc leaves and
/// every other key goes to the game; while loading, and for any event that is
/// not a press, nothing happens.
pub proof fn lemma_key_commands(key: Key, press: bool)
    ensures
        press && (key == Key::Down || key == Key::Right) ==> spec_key_command(
            SceneKind::Menu,
            KeyInput { key, press },
        ) == Command::MoveSelection(1isize),
        press && (key == Key::Up || key == Key::Left) ==> spec_key_command(
            SceneKind::Menu,
            KeyInput { key, press },
        ) == Command::MoveSelection(-1isize),
        press && key == Key::Enter ==> spec_key_command(SceneKind::Menu, KeyInput { key, press })
            == Command::Activate,
        press && (key == Key::Esc || key == Key::Char('q')) ==> spec_key_command(
            SceneKind::Menu,
            KeyInput { key, press },
        ) == Command::Exit,
        press && key == Key::Esc ==> spec_key_command(SceneKind::Game, KeyInput { key, press })
            == Command::LeaveGame,
        press && key != Key::Esc ==> spec_key_command(SceneKind::Game, KeyInput { key, press })
            == Command::GameKey,
        spec_key_command(SceneKind::Loading, KeyInput { key, press }) == Command::Nothing,
        !press ==> forall|scene: SceneKind|
            spec_key_command(scene, KeyInput { key, press }) == Command::Nothing,
{
}

/// What a key press asks for in a scene (see `spec_key_command`).
pub fn key_command(scene: SceneKind, input: KeyInput) -> (c: Command)
    ensures
        c == spec_key_command(scene, input),
{
    if !input.press {
        return Command::Nothing;
    }
    match scene {
        SceneKind::Menu => match input.key {
            Key::Char(c) => if c == 'q' {
                Command::Exit
            } else {
                Command::Nothing
            },
            Key::Esc => Command::Exit,
            Key::Down | Key::Right => Command::MoveSelection(1isize),
            Key::Up | Key::Left => Command::MoveSelection(-1isize),
            Key::Enter => Command::Activate,
            _ => Command::Nothing,
        },
        SceneKind::Game => if input.key == Key::Esc {
            Command::LeaveGame
        } else {
            Command::GameKey
        },
        SceneKind::Loading => Command::Nothing,
    }
}

/// The loading screen.
pub struct Loading;

impl Loading {
    /// The text of the loading screen.
    pub fn text(&self) -> (s: String)
        ensures
            s@ == "Loading map"@,
    {
        String::from_str("Loading map")
    }
}

// ---------------------------------------------------------------------------
// Song preview
// ---------------------------------------------------------------------------

/// Whether `std::path::Path` takes two texts for the same path.
pub uninterp spec fn spec_same_path(a: Seq<char>, b: Seq<char>) -> bool;

/// Compares two paths with `std::path::Path`'s `==`; the result is
/// `spec_same_path` of the two texts, and equal texts are the same path.
#[verifier::external_body]
fn same_path(a: &str, b: &str) -> (r: bool)
    ensures
        r == spec_same_path(a@, b@),
        a@ == b@ ==> r,
{
    std::path::Path::new(a) == std::path::Path::new(b)
}

/// What the preview player has to do after a poll.
#[derive(Debug, PartialEq, Eq, Structural, Clone, Copy)]
pub struct PreviewPlan {
    /// stop the preview that is playing
    pub stop_current: bool,
    /// load and start the wanted preview
    pub start: bool,
}

/// Which song file the preview plays, if any.
pub struct PreviewState {
    pub playing: Option<String>,
}

pub open spec fn playing_view(p: Option<String>) -> Option<Seq<char>> {
    match p {
        Some(s) => Some(s@),
        None => None,
    }
}

/// A poll: a failed preview is stopped; then, when a file is wanted and it is
/// not the one playing (the same text, or the same path to `std::path::Path`),
/// the preview is stopped and the wanted file started.
pub open spec fn spec_poll(
    playing: Option<Seq<char>>,
    errored: bool,
    wanted: Option<Seq<char>>,
) -> (Option<Seq<char>>, PreviewPlan) {
    let playing = if errored {
        None
    } else {
        playing
    };
    match wanted {
        None => (playing, PreviewPlan { stop_current: errored, start: false }),
        Some(w) => if playing matches Some(p) && (p == w || spec_same_path(p, w)) {
            (playing, PreviewPlan { stop_current: errored, start: false })
        } else {
            (Some(w), PreviewPlan { stop_current: true, start: true })
        },
    }
}

impl PreviewState {
    /// Nothing playing.
    pub fn new() -> (p: PreviewState)
        ensures
            p.playing is None,
    {
        PreviewState { playing: None }
    }

    /// Decides what the player does, given whether the current preview failed
    /// and the file that the menu wants (see `spec_poll`).
    pub fn poll(&mut self, errored: bool, wanted: Option<&str>) -> (r: PreviewPlan)
        ensures
            (playing_view(final(self).playing), r) == spec_poll(
                playing_view(old(self).playing),
                errored,
                match wanted {
                    Some(w) => Some(w@),
                    None => None,
                },
            ),
    {
        if errored {
            self.playing = None;
        }
        let w = match wanted {
            None => {
                return PreviewPlan { stop_current: errored, start: false };
            },
            Some(w) => w,
        };
        let same = match &self.playing {
            Some(p) => same_path(p.as_str(), w),
            None => false,
        };
        if same {
            return PreviewPlan { stop_current: errored, start: false };
        }
        self.playing = Some(String::from_str(w));
        PreviewPlan { stop_current: true, start: true }
    }

    /// The preview is stopped: nothing plays.
    pub fn stop(&mut self)
        ensures
            final(self).playing is None,
    {
        self.playing = None;
    }
}

/// Once a file is playing, asking for it again changes nothing.
pub proof fn lemma_poll_settles(playing: Option<Seq<char>>, wanted: Seq<char>)
    ensures
        ({
            let (p1, _) = spec_poll(playing, false, Some(wanted));
            let (p2, plan2) = spec_poll(p1, false, Some(wanted));
            p2 == p1 && !plan2.stop_current && !plan2.start
        }),
{
}

} // verus!
