//! Beatmaps: notes, map headers, timing windows and the `.osu` text format.
//!
//! Times are integers: note times in milliseconds from the start of the song,
//! timing windows and game clock in microseconds.  The overall difficulty is
//! a `Number`: finite values in units of `10^-18`, or beyond that range,
//! infinite or `NaN`, as `f64` reads them.
use vstd::prelude::*;
use crate::text::{
    chars_of, find_char, fold_lines, has_prefix, lemma_fold_lines_step, lemma_nth_field_step, nth_field, fixed_limit, Number,
    parse_number, parse_number_range, parse_unsigned, parse_unsigned_range, range_equals, range_has_prefix, skip_bom,
    strip_bom, trim, trim_range, all_digits, digits_value, is_digit, is_ws, trim_start, trim_end, first_index,
    lemma_first_index,
};

verus! {

/// The two kinds of drum notes: centre (`Don`) and rim (`Kat`).
#[derive(Debug, PartialEq, Eq, Structural, Clone, Copy)]
pub enum NoteType {
    Don,
    Kat,
}

/// The colours of the game's palette.
#[derive(Debug, PartialEq, Eq, Structural, Clone, Copy)]
pub enum Color {
    Green,
    Yellow,
    Blue,
    Red,
}

pub open spec fn spec_rgb(c: Color) -> (u8, u8, u8) {
    match c {
        Color::Green => (0x39, 0xFF, 0x88),
        Color::Yellow => (0xFF, 0xD6, 0x2E),
        Color::Blue => (0x3D, 0x9B, 0xFF),
        Color::Red => (0xFF, 0x2D, 0x3A),
    }
}

impl Color {
    /// Red, green and blue components.
    pub fn rgb(&self) -> (r: (u8, u8, u8))
        ensures
            r == spec_rgb(*self),
    {
        match self {
            Color::Green => (0x39, 0xFF, 0x88),
            Color::Yellow => (0xFF, 0xD6, 0x2E),
            Color::Blue => (0x3D, 0x9B, 0xFF),
            Color::Red => (0xFF, 0x2D, 0x3A),
        }
    }
}

/// A note of a beatmap.
#[derive(Debug, PartialEq, Eq, Structural, Clone, Copy)]
pub struct Note {
    /// time since the song starts, in milliseconds
    pub time: u32,
    pub note_type: NoteType,
    pub big: bool,
    /// the note has been judged (hit or missed)
    pub hit: bool,
}

impl Note {
    /// Centre notes are red, rim notes blue.
    pub fn color(&self) -> (c: Color)
        ensures
            c == (if self.note_type == NoteType::Don {
                Color::Red
            } else {
                Color::Blue
            }),
    {
        match self.note_type {
            NoteType::Don => Color::Red,
            NoteType::Kat => Color::Blue,
        }
    }
}

/// What a map header holds, as values.
pub struct HeaderModel {
    pub title: Seq<char>,
    pub artist: Seq<char>,
    pub diff_name: Seq<char>,
    pub mode: u8,
    pub creator: Seq<char>,
    pub od: Number,
    pub song_path: Seq<char>,
    pub preview_ms: u32,
}

/// The header of one difficulty of a song.
#[derive(Debug)]
pub struct MapHeader {
    pub title: String,
    pub artist: String,
    pub diff_name: String,
    pub mode: u8,
    pub creator: String,
    /// overall difficulty
    pub od: Number,
    pub song_path: String,
    pub preview_ms: u32,
}

impl View for MapHeader {
    type V = HeaderModel;

    open spec fn view(&self) -> HeaderModel {
        HeaderModel {
            title: self.title@,
            artist: self.artist@,
            diff_name: self.diff_name@,
            mode: self.mode,
            creator: self.creator@,
            od: self.od,
            song_path: self.song_path@,
            preview_ms: self.preview_ms,
        }
    }
}

/// The overall difficulty of a header that names none: 5.
pub open spec fn default_od() -> Number {
    Number::Fixed(5_000_000_000_000_000_000)
}

/// The header before any line is read.
pub open spec fn default_header() -> HeaderModel {
    HeaderModel {
        title: Seq::empty(),
        artist: Seq::empty(),
        diff_name: Seq::empty(),
        mode: 0,
        creator: Seq::empty(),
        od: default_od(),
        song_path: Seq::empty(),
        preview_ms: 0,
    }
}

impl MapHeader {
    /// Empty texts, mode 0, difficulty 5, no preview offset.
    pub fn new() -> (h: MapHeader)
        ensures
            h@ == default_header(),
    {
        MapHeader {
            title: String::new(),
            artist: String::new(),
            diff_name: String::new(),
            mode: 0,
            creator: String::new(),
            od: Number::Fixed(5_000_000_000_000_000_000),
            song_path: String::new(),
            preview_ms: 0,
        }
    }
}

impl Clone for MapHeader {
    fn clone(&self) -> (h: MapHeader)
        ensures
            h@ == self@,
    {
        MapHeader {
            title: self.title.clone(),
            artist: self.artist.clone(),
            diff_name: self.diff_name.clone(),
            mode: self.mode,
            creator: self.creator.clone(),
            od: self.od,
            song_path: self.song_path.clone(),
            preview_ms: self.preview_ms,
        }
    }
}

/// Hit windows, in microseconds: a hit at most `great` away from the note is
/// great, at most `ok` away is ok; a note more than `miss` in the past is missed.
#[derive(Debug, PartialEq, Eq, Structural, Clone, Copy)]
pub struct TimingWindows {
    pub great: i128,
    pub ok: i128,
    pub miss: i128,
}

/// A difficulty that the windows are defined on: any but a fixed-point value
/// beyond `fixed_limit()`, which text never reads as.
pub open spec fn od_in_range(od: Number) -> bool {
    match od {
        Number::Fixed(n) => -fixed_limit() <= n <= fixed_limit(),
        _ => true,
    }
}

/// Bound on the windows, in microseconds: beyond any difference between a
/// note's time and a clock time that the game works with.
pub open spec fn window_bound() -> int {
    100_000_000_000_000_000_000
}

/// Units of `10^-15` microseconds in a microsecond.
pub open spec fn window_scale() -> int {
    1_000_000_000_000_000
}

/// The great window of a finite difficulty `n` (in units of `10^-18`), in units
/// of `10^-15` microseconds: 50 - 3 od ms.
pub open spec fn great_exact(n: int) -> int {
    50_000_000_000_000_000_000 - 3 * n
}

/// The ok window, as `great_exact`: 120 - 8 od ms up to od 5, 110 - 6 od ms above.
pub open spec fn ok_exact(n: int) -> int {
    if n <= 5_000_000_000_000_000_000 {
        120_000_000_000_000_000_000 - 8 * n
    } else {
        110_000_000_000_000_000_000 - 6 * n
    }
}

/// The miss window, as `great_exact`: 135 - 8 od ms up to od 5, 120 - 5 od ms above.
pub open spec fn miss_exact(n: int) -> int {
    if n <= 5_000_000_000_000_000_000 {
        135_000_000_000_000_000_000 - 8 * n
    } else {
        120_000_000_000_000_000_000 - 5 * n
    }
}

/// An exact window rounded down to a whole microsecond and kept within
/// `window_bound()`.
pub open spec fn whole_window(w: int) -> int {
    let q = w / window_scale();
    if q < -window_bound() {
        -window_bound()
    } else if q > window_bound() {
        window_bound()
    } else {
        q
    }
}

/// The windows for an overall difficulty.  A finite one gives the formulas of
/// `great_exact`, `ok_exact` and `miss_exact`, each rounded down to a whole
/// microsecond and kept within `window_bound()`.  Beyond the fixed range, or
/// infinite, every window lies past the bound: below it for a positive
/// difficulty, above it for a negative one.  For `NaN` no hit is within the
/// great or ok window and no note is ever past the miss window.
pub open spec fn windows_for(od: Number) -> TimingWindows {
    match od {
        Number::Fixed(n) => TimingWindows {
            great: whole_window(great_exact(n as int)) as i128,
            ok: whole_window(ok_exact(n as int)) as i128,
            miss: whole_window(miss_exact(n as int)) as i128,
        },
        Number::Beyond(neg) => all_windows(if neg {
            window_bound()
        } else {
            -window_bound()
        }),
        Number::Infinite(neg) => all_windows(if neg {
            window_bound()
        } else {
            -window_bound()
        }),
        Number::NotANumber => TimingWindows {
            great: -window_bound() as i128,
            ok: -window_bound() as i128,
            miss: window_bound() as i128,
        },
    }
}

/// Three equal windows.
pub open spec fn all_windows(w: int) -> TimingWindows {
    TimingWindows { great: w as i128, ok: w as i128, miss: w as i128 }
}

/// `whole_window` of an exact window.
fn to_whole_window(w: i128) -> (q: i128)
    requires
        -10_000_000_000_000_000_000_000_000_000_000_000_000 <= w
            <= 10_000_000_000_000_000_000_000_000_000_000_000_000,
    ensures
        q as int == whole_window(w as int),
{
    let scale: u128 = 1_000_000_000_000_000;
    let q: i128 = if w >= 0 {
        let q = (w as u128) / scale;
        proof {
            vstd::arithmetic::div_mod::lemma_fundamental_div_mod_converse(
                w as int,
                window_scale(),
                q as int,
                (w as u128 % scale) as int,
            );
        }
        q as i128
    } else {
        let y: u128 = (-w) as u128;
        let q = (y + (scale - 1)) / scale;
        let r = (y + (scale - 1)) % scale;
        proof {
            assert(y + (scale - 1) == q * scale + r);
            vstd::arithmetic::div_mod::lemma_fundamental_div_mod_converse(
                w as int,
                window_scale(),
                -(q as int),
                window_scale() - 1 - r,
            );
        }
        -(q as i128)
    };
    let bound: i128 = 100_000_000_000_000_000_000;
    if q < -bound {
        -bound
    } else if q > bound {
        bound
    } else {
        q
    }
}

/// Whether the timing windows are defined on a difficulty (see `od_in_range`).
pub fn od_supported(od: Number) -> (r: bool)
    ensures
        r == od_in_range(od),
{
    match od {
        Number::Fixed(n) => -1_000_000_000_000_000_000_000_000_000_000_000_000 <= n && n
            <= 1_000_000_000_000_000_000_000_000_000_000_000_000,
        _ => true,
    }
}

impl TimingWindows {
    pub fn new(od: Number) -> (w: TimingWindows)
        requires
            od_in_range(od),
        ensures
            w == windows_for(od),
    {
        let bound: i128 = 100_000_000_000_000_000_000;
        match od {
            Number::Fixed(n) => {
                let great = to_whole_window(50_000_000_000_000_000_000 - 3 * n);
                let ok = if n <= 5_000_000_000_000_000_000 {
                    to_whole_window(120_000_000_000_000_000_000 - 8 * n)
                } else {
                    to_whole_window(110_000_000_000_000_000_000 - 6 * n)
                };
                let miss = if n <= 5_000_000_000_000_000_000 {
                    to_whole_window(135_000_000_000_000_000_000 - 8 * n)
                } else {
                    to_whole_window(120_000_000_000_000_000_000 - 5 * n)
                };
                TimingWindows { great, ok, miss }
            },
            Number::Beyond(neg) | Number::Infinite(neg) => {
                let w = if neg {
                    bound
                } else {
                    -bound
                };
                TimingWindows { great: w, ok: w, miss: w }
            },
            Number::NotANumber => TimingWindows { great: -bound, ok: -bound, miss: bound },
        }
    }
}

/// `whole_window` keeps the order of exact windows.
proof fn lemma_whole_window_mono(a: int, b: int)
    requires
        a <= b,
    ensures
        whole_window(a) <= whole_window(b),
{
    vstd::arithmetic::div_mod::lemma_div_is_ordered(a, b, window_scale());
}

/// A whole-microsecond time difference within the bound lies within a rounded
/// window exactly when it lies within the exact window.
proof fn lemma_whole_window_exact(x: int, w: int)
    requires
        -window_bound() < x < window_bound(),
    ensures
        (x <= whole_window(w)) == (x * window_scale() <= w),
        (x > whole_window(w)) == (x * window_scale() > w),
{
    let q = w / window_scale();
    vstd::arithmetic::div_mod::lemma_fundamental_div_mod(w, window_scale());
    let r = w % window_scale();
    assert(w == window_scale() * q + r);
    assert(0 <= r < window_scale());
    if x <= q {
        assert(x * window_scale() <= q * window_scale()) by (nonlinear_arith)
            requires
                x <= q,
        ;
    } else {
        assert(x * window_scale() >= (q + 1) * window_scale()) by (nonlinear_arith)
            requires
                x >= q + 1,
        ;
    }
}

/// The rounded windows judge every time difference that the game works with
/// exactly as the exact windows do: for a finite difficulty, a difference `x`
/// (in microseconds) is within a window, or past the miss window, exactly when
/// it is so for the window's formula; for `NaN`, as with IEEE comparisons, no
/// difference is within a window or past one; beyond the fixed range or
/// infinite, every difference is past the windows of a positive difficulty and
/// within those of a negative one.
pub proof fn lemma_windows_exact(od: Number, x: int)
    requires
        od_in_range(od),
        -window_bound() < x < window_bound(),
    ensures
        od matches Number::Fixed(n) ==> {
            &&& (x <= windows_for(od).great) == (x * window_scale() <= great_exact(n as int))
            &&& (x <= windows_for(od).ok) == (x * window_scale() <= ok_exact(n as int))
            &&& (x > windows_for(od).miss) == (x * window_scale() > miss_exact(n as int))
        },
        od is NotANumber ==> !(x <= windows_for(od).great) && !(x <= windows_for(od).ok) && !(x
            > windows_for(od).miss),
        (od matches Number::Beyond(neg) && !neg) || (od matches Number::Infinite(neg) && !neg)
            ==> !(x <= windows_for(od).great) && !(x <= windows_for(od).ok) && x > windows_for(
            od,
        ).miss,
        (od matches Number::Beyond(neg) && neg) || (od matches Number::Infinite(neg) && neg) ==> x
            <= windows_for(od).great && x <= windows_for(od).ok && !(x > windows_for(od).miss),
{
    if let Number::Fixed(n) = od {
        lemma_whole_window_exact(x, great_exact(n as int));
        lemma_whole_window_exact(x, ok_exact(n as int));
        lemma_whole_window_exact(x, miss_exact(n as int));
    }
}

/// Up to difficulty 20, and for every difficulty below the fixed range, the
/// windows are nested: great <= ok <= miss.
pub proof fn lemma_windows_nested(od: Number)
    requires
        od_in_range(od),
        match od {
            Number::Fixed(n) => n <= 20_000_000_000_000_000_000,
            Number::Beyond(neg) => neg,
            Number::Infinite(neg) => neg,
            Number::NotANumber => false,
        },
    ensures
        windows_for(od).great <= windows_for(od).ok <= windows_for(od).miss,
{
    if let Number::Fixed(n) = od {
        lemma_whole_window_mono(great_exact(n as int), ok_exact(n as int));
        lemma_whole_window_mono(ok_exact(n as int), miss_exact(n as int));
    }
}

/// Which side of the fixed range a difficulty lies on: -1 below, 1 above, 0 within.
pub open spec fn od_side(od: Number) -> int {
    match od {
        Number::Fixed(_) => 0,
        Number::Beyond(neg) => if neg {
            -1
        } else {
            1
        },
        Number::Infinite(neg) => if neg {
            -1
        } else {
            1
        },
        Number::NotANumber => 0,
    }
}

/// `a` is no harder than `b`: neither is `NaN`, and `a` lies on a lower side of
/// the fixed range, or both are finite within it with `a <= b`, or both lie
/// on the same side beyond it.
pub open spec fn no_harder(a: Number, b: Number) -> bool {
    &&& !(a is NotANumber)
    &&& !(b is NotANumber)
    &&& {
        ||| od_side(a) < od_side(b)
        ||| (a matches Number::Fixed(x) && b matches Number::Fixed(y) && x <= y)
        ||| (od_side(a) == od_side(b) && od_side(a) != 0)
    }
}

/// A harder map never has wider windows.
pub proof fn lemma_windows_shrink(od1: Number, od2: Number)
    requires
        od_in_range(od1),
        od_in_range(od2),
        no_harder(od1, od2),
    ensures
        windows_for(od2).great <= windows_for(od1).great,
        windows_for(od2).ok <= windows_for(od1).ok,
        windows_for(od2).miss <= windows_for(od1).miss,
{
    if let (Number::Fixed(x), Number::Fixed(y)) = (od1, od2) {
        lemma_whole_window_mono(great_exact(y as int), great_exact(x as int));
        lemma_whole_window_mono(ok_exact(y as int), ok_exact(x as int));
        lemma_whole_window_mono(miss_exact(y as int), miss_exact(x as int));
    }
}

/// A parsed beatmap.
#[derive(Debug)]
pub struct Beatmap {
    pub header: MapHeader,
    pub timing_windows: TimingWindows,
    pub notes: Vec<Note>,
}

// ---------------------------------------------------------------------------
// The `.osu` text format
// ---------------------------------------------------------------------------

/// A line as the parsers see it: leading byte order marks removed, then
/// whitespace trimmed.
pub open spec fn clean_line(raw: Seq<char>) -> Seq<char> {
    trim(strip_bom(raw))
}

/// Blank lines and `//` comments carry nothing.
pub open spec fn is_blank_or_comment(line: Seq<char>) -> bool {
    line.len() == 0 || has_prefix(line, "//"@)
}

/// `[Name]` lines open a section.
pub open spec fn is_section_line(line: Seq<char>) -> bool {
    line.len() > 0 && line[0] == '[' && line.last() == ']'
}

/// The sections whose lines the parsers read.
#[derive(Debug, PartialEq, Eq, Structural, Clone, Copy)]
pub enum Section {
    General,
    Difficulty,
    Metadata,
    HitObjects,
    Other,
}

pub open spec fn section_of(line: Seq<char>) -> Section {
    if line == "[General]"@ {
        Section::General
    } else if line == "[Difficulty]"@ {
        Section::Difficulty
    } else if line == "[Metadata]"@ {
        Section::Metadata
    } else if line == "[HitObjects]"@ {
        Section::HitObjects
    } else {
        Section::Other
    }
}

pub open spec fn u32_max() -> nat {
    0xFFFF_FFFF
}

/// One `[HitObjects]` line, `x,y,time,type,hitsound,...`: a circle (odd type)
/// with hitsound 0 or 4 is a centre note, 8 or 12 a rim note; 4 and 12 are big.
/// Anything else is no note.
pub open spec fn spec_parse_hit_object(line: Seq<char>) -> Option<Note> {
    match (nth_field(line, ',', 2), nth_field(line, ',', 3), nth_field(line, ',', 4)) {
        (Some(t), Some(ot), Some(hs)) => match (
            parse_unsigned(trim(ot), u32_max()),
            parse_unsigned(trim(hs), u32_max()),
            parse_unsigned(trim(t), u32_max()),
        ) {
            (Some(o), Some(h), Some(tm)) => {
                if o % 2 == 1 && (h == 0 || h == 4 || h == 8 || h == 12) {
                    Some(
                        Note {
                            time: tm as u32,
                            note_type: if h == 0 || h == 4 {
                                NoteType::Don
                            } else {
                                NoteType::Kat
                            },
                            big: h == 4 || h == 12,
                            hit: false,
                        },
                    )
                } else {
                    None
                }
            },
            _ => None,
        },
        _ => None,
    }
}

/// The state of a header scan: the current section, the fields read so far,
/// and the overall difficulty (`None` once an unreadable value was met).
pub struct HeaderScan {
    pub section: Section,
    pub header: HeaderModel,
    pub od: Option<Number>,
}

pub open spec fn header_scan_start() -> HeaderScan {
    HeaderScan { section: Section::Other, header: default_header(), od: Some(default_od()) }
}

/// The text after a `Key:` prefix, trimmed.
pub open spec fn value_after(line: Seq<char>, key: Seq<char>) -> Seq<char> {
    trim(line.skip(key.len() as int))
}

/// A `[General]` line: the audio file (relative to `dir`), the preview time and
/// the game mode; unreadable numbers count as 0.
pub open spec fn general_step(h: HeaderModel, dir: Seq<char>, line: Seq<char>) -> HeaderModel {
    if has_prefix(line, "AudioFilename:"@) {
        HeaderModel {
            song_path: spec_join_path(dir, value_after(line, "AudioFilename:"@)),
            ..h
        }
    } else if has_prefix(line, "PreviewTime:"@) {
        HeaderModel {
            preview_ms: match parse_unsigned(value_after(line, "PreviewTime:"@), u32_max()) {
                Some(x) => x as u32,
                None => 0,
            },
            ..h
        }
    } else if has_prefix(line, "Mode:"@) {
        HeaderModel {
            mode: match parse_unsigned(value_after(line, "Mode:"@), 255) {
                Some(x) => x as u8,
                None => 0,
            },
            ..h
        }
    } else {
        h
    }
}

/// A `[Difficulty]` line: the overall difficulty, which stays unreadable once it was.
pub open spec fn difficulty_step(od: Option<Number>, line: Seq<char>) -> Option<Number> {
    if has_prefix(line, "OverallDifficulty:"@) {
        match od {
            Some(_) => parse_number(value_after(line, "OverallDifficulty:"@)),
            None => None,
        }
    } else {
        od
    }
}

/// A `[Metadata]` line: title, creator, difficulty name or artist.
pub open spec fn metadata_step(h: HeaderModel, line: Seq<char>) -> HeaderModel {
    if has_prefix(line, "Title:"@) {
        HeaderModel { title: value_after(line, "Title:"@), ..h }
    } else if has_prefix(line, "Creator:"@) {
        HeaderModel { creator: value_after(line, "Creator:"@), ..h }
    } else if has_prefix(line, "Version:"@) {
        HeaderModel { diff_name: value_after(line, "Version:"@), ..h }
    } else if has_prefix(line, "Artist:"@) {
        HeaderModel { artist: value_after(line, "Artist:"@), ..h }
    } else {
        h
    }
}

/// Reads one raw line of a map file into the header scan.
pub open spec fn header_step(dir: Seq<char>, st: HeaderScan, raw: Seq<char>) -> HeaderScan {
    let line = clean_line(raw);
    if is_blank_or_comment(line) {
        st
    } else if is_section_line(line) {
        HeaderScan { section: section_of(line), ..st }
    } else {
        match st.section {
            Section::General => HeaderScan { header: general_step(st.header, dir, line), ..st },
            Section::Difficulty => HeaderScan { od: difficulty_step(st.od, line), ..st },
            Section::Metadata => HeaderScan { header: metadata_step(st.header, line), ..st },
            _ => st,
        }
    }
}

/// The header that a map file's text describes, its audio file taken relative to
/// `dir`; `None` when an `OverallDifficulty` value is not a decimal number.
pub open spec fn spec_parse_header(text: Seq<char>, dir: Seq<char>) -> Option<HeaderModel> {
    let st = fold_lines(header_stepper(dir), header_scan_start(), text);
    match st.od {
        Some(od) => Some(HeaderModel { od, ..st.header }),
        None => None,
    }
}

/// The state of a hit-object scan: the current section and the notes read so far.
pub open spec fn map_step(st: (Section, Seq<Note>), raw: Seq<char>) -> (Section, Seq<Note>) {
    let line = clean_line(raw);
    if is_blank_or_comment(line) {
        st
    } else if is_section_line(line) {
        (section_of(line), st.1)
    } else if st.0 == Section::HitObjects {
        match spec_parse_hit_object(line) {
            Some(n) => (st.0, st.1.push(n)),
            None => st,
        }
    } else {
        st
    }
}

/// The notes of a map file's text, in the order of their lines.
pub open spec fn spec_map_notes(text: Seq<char>) -> Seq<Note> {
    fold_lines(map_stepper(), (Section::Other, Seq::empty()), text).1
}

pub open spec fn header_stepper(dir: Seq<char>) -> spec_fn(HeaderScan, Seq<char>) -> HeaderScan {
    |st: HeaderScan, raw: Seq<char>| header_step(dir, st, raw)
}

pub open spec fn map_stepper() -> spec_fn((Section, Seq<Note>), Seq<char>) -> (Section, Seq<Note>) {
    |st: (Section, Seq<Note>), raw: Seq<char>| map_step(st, raw)
}

// ---------------------------------------------------------------------------
// Parsers
// ---------------------------------------------------------------------------

/// The keywords of the format, as characters.
struct Words {
    comment: Vec<char>,
    general: Vec<char>,
    difficulty: Vec<char>,
    metadata: Vec<char>,
    hit_objects: Vec<char>,
    audio: Vec<char>,
    preview: Vec<char>,
    mode: Vec<char>,
    od: Vec<char>,
    title: Vec<char>,
    creator: Vec<char>,
    version: Vec<char>,
    artist: Vec<char>,
}

impl Words {
    spec fn wf(&self) -> bool {
        &&& self.comment@ == "//"@
        &&& self.general@ == "[General]"@
        &&& self.difficulty@ == "[Difficulty]"@
        &&& self.metadata@ == "[Metadata]"@
        &&& self.hit_objects@ == "[HitObjects]"@
        &&& self.audio@ == "AudioFilename:"@
        &&& self.preview@ == "PreviewTime:"@
        &&& self.mode@ == "Mode:"@
        &&& self.od@ == "OverallDifficulty:"@
        &&& self.title@ == "Title:"@
        &&& self.creator@ == "Creator:"@
        &&& self.version@ == "Version:"@
        &&& self.artist@ == "Artist:"@
    }

    fn new() -> (w: Words)
        ensures
            w.wf(),
    {
        Words {
            comment: chars_of("//"),
            general: chars_of("[General]"),
            difficulty: chars_of("[Difficulty]"),
            metadata: chars_of("[Metadata]"),
            hit_objects: chars_of("[HitObjects]"),
            audio: chars_of("AudioFilename:"),
            preview: chars_of("PreviewTime:"),
            mode: chars_of("Mode:"),
            od: chars_of("OverallDifficulty:"),
            title: chars_of("Title:"),
            creator: chars_of("Creator:"),
            version: chars_of("Version:"),
            artist: chars_of("Artist:"),
        }
    }
}

/// Bounds of the cleaned line (see `clean_line`).
fn clean_line_range(v: &Vec<char>, lo: usize, hi: usize) -> (r: (usize, usize))
    requires
        lo <= hi <= v@.len(),
    ensures
        lo <= r.0 <= r.1 <= hi,
        v@.subrange(r.0 as int, r.1 as int) == clean_line(v@.subrange(lo as int, hi as int)),
{
    let a0 = skip_bom(v, lo, hi);
    trim_range(v, a0, hi)
}

fn blank_or_comment(v: &Vec<char>, a: usize, b: usize, w: &Words) -> (r: bool)
    requires
        a <= b <= v@.len(),
        w.wf(),
    ensures
        r == is_blank_or_comment(v@.subrange(a as int, b as int)),
{
    a == b || range_has_prefix(v, a, b, &w.comment)
}

fn section_line(v: &Vec<char>, a: usize, b: usize) -> (r: bool)
    requires
        a <= b <= v@.len(),
    ensures
        r == is_section_line(v@.subrange(a as int, b as int)),
{
    a < b && v[a] == '[' && v[b - 1] == ']'
}

fn section_of_range(v: &Vec<char>, a: usize, b: usize, w: &Words) -> (r: Section)
    requires
        a <= b <= v@.len(),
        w.wf(),
    ensures
        r == section_of(v@.subrange(a as int, b as int)),
{
    if range_equals(v, a, b, &w.general) {
        Section::General
    } else if range_equals(v, a, b, &w.difficulty) {
        Section::Difficulty
    } else if range_equals(v, a, b, &w.metadata) {
        Section::Metadata
    } else if range_equals(v, a, b, &w.hit_objects) {
        Section::HitObjects
    } else {
        Section::Other
    }
}

/// Bounds of the `n`-th field of the range split at `sep`.
fn field_range(v: &Vec<char>, lo: usize, hi: usize, sep: char, n: usize) -> (r: Option<
    (usize, usize),
>)
    requires
        lo <= hi <= v@.len(),
    ensures
        match r {
            Some((a, b)) => lo <= a <= b <= hi && nth_field(
                v@.subrange(lo as int, hi as int),
                sep,
                n as nat,
            ) == Some(v@.subrange(a as int, b as int)),
            None => nth_field(v@.subrange(lo as int, hi as int), sep, n as nat) is None,
        },
{
    let mut p = lo;
    let mut i: usize = 0;
    while i <= n
        invariant
            lo <= p <= hi <= v@.len(),
            i <= n,
            nth_field(v@.subrange(lo as int, hi as int), sep, n as nat) == nth_field(
                v@.subrange(p as int, hi as int),
                sep,
                (n - i) as nat,
            ),
        decreases n - i,
    {
        let e = find_char(v, p, hi, sep);
        proof {
            lemma_nth_field_step(v@, p as int, hi as int, e as int, sep, (n - i) as nat);
        }
        if i == n {
            return Some((p, e));
        }
        if e == hi {
            return None;
        }
        p = e + 1;
        i = i + 1;
    }
    None
}

fn parse_trimmed_u32(v: &Vec<char>, a: usize, b: usize) -> (r: Option<u64>)
    requires
        a <= b <= v@.len(),
    ensures
        match r {
            Some(x) => parse_unsigned(trim(v@.subrange(a as int, b as int)), u32_max()) == Some(
                x as nat,
            ),
            None => parse_unsigned(trim(v@.subrange(a as int, b as int)), u32_max()) is None,
        },
{
    let (x, y) = trim_range(v, a, b);
    parse_unsigned_range(v, x, y, 0xFFFF_FFFF)
}

/// One hit-object line on a range (see `spec_parse_hit_object`).
fn parse_hit_object_range(v: &Vec<char>, lo: usize, hi: usize) -> (r: Option<Note>)
    requires
        lo <= hi <= v@.len(),
    ensures
        r == spec_parse_hit_object(v@.subrange(lo as int, hi as int)),
{
    let f2 = field_range(v, lo, hi, ',', 2);
    let f3 = field_range(v, lo, hi, ',', 3);
    let f4 = field_range(v, lo, hi, ',', 4);
    match (f2, f3, f4) {
        (Some((t0, t1)), Some((o0, o1)), Some((h0, h1))) => {
            let o = parse_trimmed_u32(v, o0, o1);
            let h = parse_trimmed_u32(v, h0, h1);
            let t = parse_trimmed_u32(v, t0, t1);
            match (o, h, t) {
                (Some(o), Some(h), Some(t)) => {
                    if o % 2 == 1 && (h == 0 || h == 4 || h == 8 || h == 12) {
                        let note_type = if h == 0 || h == 4 {
                            NoteType::Don
                        } else {
                            NoteType::Kat
                        };
                        Some(Note { time: t as u32, note_type, big: h == 4 || h == 12, hit: false })
                    } else {
                        None
                    }
                },
                _ => None,
            }
        },
        _ => None,
    }
}

/// Reads one `[HitObjects]` line, `x,y,time,type,hitsound,...`, into a note:
/// a circle (odd type) with hitsound 0 or 4 is a centre note, 8 or 12 a rim
/// note, and 4 and 12 make it big.  Other lines give `None`.
pub fn parse_hit_object(line: &str) -> (r: Option<Note>)
    ensures
        r == spec_parse_hit_object(line@),
{
    let v = chars_of(line);
    let r = parse_hit_object_range(&v, 0, v.len());
    assert(v@.subrange(0, v@.len() as int) =~= v@);
    r
}

/// The notes of a map file, with the given header and the timing windows of its
/// overall difficulty.
pub fn parse_map(text: &str, header: &MapHeader) -> (m: Beatmap)
    requires
        od_in_range(header.od),
    ensures
        m.header@ == header@,
        m.timing_windows == windows_for(header.od),
        m.notes@ == spec_map_notes(text@),
{
    let v = chars_of(text);
    let w = Words::new();
    let ghost target = fold_lines(map_stepper(), (Section::Other, Seq::<Note>::empty()), v@);
    let mut section = Section::Other;
    let mut notes: Vec<Note> = Vec::new();
    let mut pos: usize = 0;
    assert(v@.skip(0) =~= v@);
    loop
        invariant
            pos <= v@.len(),
            w.wf(),
            v@ == text@,
            od_in_range(header.od),
            target == fold_lines(map_stepper(), (Section::Other, Seq::<Note>::empty()), v@),
            fold_lines(map_stepper(), (section, notes@), v@.skip(pos as int)) == target,
        decreases v@.len() - pos,
    {
        let e = find_char(&v, pos, v.len(), '\n');
        let ghost before = (section, notes@);
        proof {
            lemma_fold_lines_step(map_stepper(), before, v@, pos as int, e as int);
        }
        let (a, b) = clean_line_range(&v, pos, e);
        if blank_or_comment(&v, a, b, &w) {
        } else if section_line(&v, a, b) {
            section = section_of_range(&v, a, b, &w);
        } else if section == Section::HitObjects {
            match parse_hit_object_range(&v, a, b) {
                Some(n) => {
                    notes.push(n);
                },
                None => {},
            }
        }
        assert((section, notes@) == map_step(before, v@.subrange(pos as int, e as int)));
        if e == v.len() {
            return Beatmap {
                header: header.clone(),
                timing_windows: TimingWindows::new(header.od),
                notes,
            };
        }
        pos = e + 1;
    }
}

/// The text of a range of `text`, whose characters are `v`.
fn string_of(text: &str, v: &Vec<char>, a: usize, b: usize) -> (r: String)
    requires
        text@ == v@,
        a <= b <= v@.len(),
    ensures
        r@ == v@.subrange(a as int, b as int),
{
    String::from_str(text.substring_char(a, b))
}

fn read_general(h: &mut MapHeader, text: &str, v: &Vec<char>, a: usize, b: usize, dir: &str, w: &Words)
    requires
        text@ == v@,
        a <= b <= v@.len(),
        w.wf(),
    ensures
        final(h)@ == general_step(old(h)@, dir@, v@.subrange(a as int, b as int)),
{
    let ghost line = v@.subrange(a as int, b as int);
    if range_has_prefix(v, a, b, &w.audio) {
        let (x, y) = trim_range(v, a + w.audio.len(), b);
        assert(line.skip(w.audio@.len() as int) =~= v@.subrange(a + w.audio@.len(), b as int));
        let file = string_of(text, v, x, y);
        h.song_path = join_path(dir, file.as_str());
    } else if range_has_prefix(v, a, b, &w.preview) {
        let (x, y) = trim_range(v, a + w.preview.len(), b);
        assert(line.skip(w.preview@.len() as int) =~= v@.subrange(a + w.preview@.len(), b as int));
        h.preview_ms = match parse_unsigned_range(v, x, y, 0xFFFF_FFFF) {
            Some(n) => n as u32,
            None => 0,
        };
    } else if range_has_prefix(v, a, b, &w.mode) {
        let (x, y) = trim_range(v, a + w.mode.len(), b);
        assert(line.skip(w.mode@.len() as int) =~= v@.subrange(a + w.mode@.len(), b as int));
        h.mode = match parse_unsigned_range(v, x, y, 255) {
            Some(n) => n as u8,
            None => 0,
        };
    }
}

fn read_difficulty(od: Option<Number>, v: &Vec<char>, a: usize, b: usize, w: &Words) -> (r: Option<
    Number,
>)
    requires
        a <= b <= v@.len(),
        w.wf(),
        od matches Some(x) ==> od_in_range(x),
    ensures
        r matches Some(x) ==> od_in_range(x),
        r == difficulty_step(od, v@.subrange(a as int, b as int)),
{
    let ghost line = v@.subrange(a as int, b as int);
    if range_has_prefix(v, a, b, &w.od) {
        match od {
            Some(_) => {
                let (x, y) = trim_range(v, a + w.od.len(), b);
                assert(line.skip(w.od@.len() as int) =~= v@.subrange(a + w.od@.len(), b as int));
                parse_number_range(v, x, y)
            },
            None => None,
        }
    } else {
        od
    }
}

fn read_metadata(h: &mut MapHeader, text: &str, v: &Vec<char>, a: usize, b: usize, w: &Words)
    requires
        text@ == v@,
        a <= b <= v@.len(),
        w.wf(),
    ensures
        final(h)@ == metadata_step(old(h)@, v@.subrange(a as int, b as int)),
{
    let ghost line = v@.subrange(a as int, b as int);
    if range_has_prefix(v, a, b, &w.title) {
        let (x, y) = trim_range(v, a + w.title.len(), b);
        assert(line.skip(w.title@.len() as int) =~= v@.subrange(a + w.title@.len(), b as int));
        h.title = string_of(text, v, x, y);
    } else if range_has_prefix(v, a, b, &w.creator) {
        let (x, y) = trim_range(v, a + w.creator.len(), b);
        assert(line.skip(w.creator@.len() as int) =~= v@.subrange(a + w.creator@.len(), b as int));
        h.creator = string_of(text, v, x, y);
    } else if range_has_prefix(v, a, b, &w.version) {
        let (x, y) = trim_range(v, a + w.version.len(), b);
        assert(line.skip(w.version@.len() as int) =~= v@.subrange(a + w.version@.len(), b as int));
        h.diff_name = string_of(text, v, x, y);
    } else if range_has_prefix(v, a, b, &w.artist) {
        let (x, y) = trim_range(v, a + w.artist.len(), b);
        assert(line.skip(w.artist@.len() as int) =~= v@.subrange(a + w.artist@.len(), b as int));
        h.artist = string_of(text, v, x, y);
    }
}

/// An `OverallDifficulty` value that `f64` does not read as a number (see
/// `parse_number`).
#[derive(Debug, PartialEq, Eq, Structural, Clone, Copy)]
pub enum HeaderError {
    BadOverallDifficulty,
}

/// Reads the header of a map file: `[General]` audio file (joined to `dir`),
/// preview time and mode, `[Difficulty]` overall difficulty and `[Metadata]`
/// title, creator, difficulty name and artist.  Later lines override earlier
/// ones; blank lines and `//` comments are skipped.
pub fn parse_header(text: &str, dir: &str) -> (r: Result<MapHeader, HeaderError>)
    ensures
        match r {
            Ok(h) => spec_parse_header(text@, dir@) == Some(h@) && od_in_range(h.od),
            Err(_) => spec_parse_header(text@, dir@) is None,
        },
{
    let v = chars_of(text);
    let w = Words::new();
    let ghost step = header_stepper(dir@);
    let ghost target = fold_lines(step, header_scan_start(), v@);
    let mut section = Section::Other;
    let mut header = MapHeader::new();
    let mut od: Option<Number> = Some(Number::Fixed(5_000_000_000_000_000_000));
    let mut pos: usize = 0;
    assert(v@.skip(0) =~= v@);
    loop
        invariant
            pos <= v@.len(),
            w.wf(),
            v@ == text@,
            step == header_stepper(dir@),
            target == fold_lines(step, header_scan_start(), v@),
            od matches Some(x) ==> od_in_range(x),
            fold_lines(
                step,
                HeaderScan {
                    section,
                    header: header@,
                    od,
                },
                v@.skip(pos as int),
            ) == target,
        decreases v@.len() - pos,
    {
        let e = find_char(&v, pos, v.len(), '\n');
        let ghost before = HeaderScan {
            section,
            header: header@,
            od,
        };
        proof {
            lemma_fold_lines_step(step, before, v@, pos as int, e as int);
        }
        let (a, b) = clean_line_range(&v, pos, e);
        if blank_or_comment(&v, a, b, &w) {
        } else if section_line(&v, a, b) {
            section = section_of_range(&v, a, b, &w);
        } else {
            match section {
                Section::General => read_general(&mut header, text, &v, a, b, dir, &w),
                Section::Difficulty => {
                    od = read_difficulty(od, &v, a, b, &w);
                },
                Section::Metadata => read_metadata(&mut header, text, &v, a, b, &w),
                _ => {},
            }
        }
        let ghost after = HeaderScan {
            section,
            header: header@,
            od,
        };
        assert(after == header_step(dir@, before, v@.subrange(pos as int, e as int)));
        if e == v.len() {
            match od {
                Some(x) => {
                    header.od = x;
                    return Ok(header);
                },
                None => {
                    return Err(HeaderError::BadOverallDifficulty);
                },
            }
        }
        pos = e + 1;
    }
}

/// A digit string with its surrounding whitespace trimmed is itself.
proof fn lemma_trim_digits(d: Seq<char>)
    requires
        d.len() > 0,
        all_digits(d),
    ensures
        trim(d) == d,
        trim(seq![' '] + d) == d,
{
    assert(is_digit(d[0]));
    assert(is_digit(d.last()));
    assert(trim_start(d) == d);
    assert((seq![' '] + d).drop_first() =~= d);
    assert(trim_start(seq![' '] + d) == trim_start(d));
    assert(trim_end(d) == d);
}

/// A `[General]` line `PreviewTime: n`, for a decimal number `n` that fits in
/// a `u32`, sets the preview time to `n`, whatever came before.
pub proof fn lemma_preview_time_line(h: HeaderModel, dir: Seq<char>, d: Seq<char>)
    requires
        d.len() > 0,
        all_digits(d),
        digits_value(d) <= 0xFFFF_FFFF,
    ensures
        general_step(h, dir, "PreviewTime: "@ + d).preview_ms == digits_value(d),
        general_step(h, dir, "PreviewTime: "@ + d) == (HeaderModel {
            preview_ms: digits_value(d) as u32,
            ..h
        }),
{
    reveal_strlit("PreviewTime: ");
    reveal_strlit("PreviewTime:");
    reveal_strlit("AudioFilename:");
    let line = "PreviewTime: "@ + d;
    assert(line[0] == 'P');
    assert(!has_prefix(line, "AudioFilename:"@)) by {
        if has_prefix(line, "AudioFilename:"@) {
            assert(line.take(14)[0] == "AudioFilename:"@[0]);
        }
    }
    assert(line.take(12) =~= "PreviewTime:"@);
    assert(line.skip(12) =~= seq![' '] + d);
    lemma_trim_digits(d);
    assert(d[0] != '+') by {
        assert(is_digit(d[0]));
    }
}

/// A `[General]` line `Mode: n`, for a decimal number `n` of at most 255,
/// sets the mode to `n`, whatever came before.
pub proof fn lemma_mode_line(h: HeaderModel, dir: Seq<char>, d: Seq<char>)
    requires
        d.len() > 0,
        all_digits(d),
        digits_value(d) <= 255,
    ensures
        general_step(h, dir, "Mode: "@ + d) == (HeaderModel { mode: digits_value(d) as u8, ..h }),
{
    reveal_strlit("Mode: ");
    reveal_strlit("Mode:");
    reveal_strlit("PreviewTime:");
    reveal_strlit("AudioFilename:");
    let line = "Mode: "@ + d;
    assert(line[0] == 'M');
    assert(!has_prefix(line, "AudioFilename:"@)) by {
        if has_prefix(line, "AudioFilename:"@) {
            assert(line.take(14)[0] == "AudioFilename:"@[0]);
        }
    }
    assert(!has_prefix(line, "PreviewTime:"@)) by {
        if has_prefix(line, "PreviewTime:"@) {
            assert(line.take(12)[0] == "PreviewTime:"@[0]);
        }
    }
    assert(line.take(5) =~= "Mode:"@);
    assert(line.skip(5) =~= seq![' '] + d);
    lemma_trim_digits(d);
    assert(d[0] != '+') by {
        assert(is_digit(d[0]));
    }
}

/// A `PreviewTime:` or `Mode:` value that does not begin with a digit or `+`
/// reads as 0.
pub proof fn lemma_unreadable_numbers_are_zero(h: HeaderModel, dir: Seq<char>, v: Seq<char>)
    requires
        v.len() > 0,
        !is_ws(v[0]),
        !is_ws(v.last()),
        !is_digit(v[0]),
        v[0] != '+',
    ensures
        general_step(h, dir, "PreviewTime:"@ + v).preview_ms == 0,
        general_step(h, dir, "Mode:"@ + v).mode == 0,
{
    reveal_strlit("Mode:");
    reveal_strlit("PreviewTime:");
    reveal_strlit("AudioFilename:");
    assert(trim_start(v) == v);
    assert(trim_end(v) == v);
    assert(!is_digit(v[0]));
    let p = "PreviewTime:"@ + v;
    assert(p[0] == 'P');
    assert(!has_prefix(p, "AudioFilename:"@)) by {
        if has_prefix(p, "AudioFilename:"@) {
            assert(p.take(14)[0] == "AudioFilename:"@[0]);
        }
    }
    assert(p.take(12) =~= "PreviewTime:"@);
    assert(p.skip(12) =~= v);
    let q = "Mode:"@ + v;
    assert(q[0] == 'M');
    assert(!has_prefix(q, "AudioFilename:"@)) by {
        if has_prefix(q, "AudioFilename:"@) {
            assert(q.take(14)[0] == "AudioFilename:"@[0]);
        }
    }
    assert(!has_prefix(q, "PreviewTime:"@)) by {
        if has_prefix(q, "PreviewTime:"@) {
            assert(q.take(12)[0] == "PreviewTime:"@[0]);
        }
    }
    assert(q.take(5) =~= "Mode:"@);
    assert(q.skip(5) =~= v);
}

/// A text with no whitespace at either end is its own trim.
proof fn lemma_trim_unpadded(v: Seq<char>)
    requires
        v.len() > 0,
        !is_ws(v[0]),
        !is_ws(v.last()),
    ensures
        trim(v) == v,
        trim(seq![' '] + v) == v,
{
    assert(trim_start(v) == v);
    assert((seq![' '] + v).drop_first() =~= v);
    assert(trim_end(v) == v);
}

/// Each `[Metadata]` line sets its own field to its value and leaves the
/// others: `Title`, `Artist`, `Creator`, and `Version` the difficulty name.
pub proof fn lemma_metadata_lines(h: HeaderModel, v: Seq<char>)
    requires
        v.len() > 0,
        !is_ws(v[0]),
        !is_ws(v.last()),
    ensures
        metadata_step(h, "Title: "@ + v) == (HeaderModel { title: v, ..h }),
        metadata_step(h, "Artist: "@ + v) == (HeaderModel { artist: v, ..h }),
        metadata_step(h, "Creator: "@ + v) == (HeaderModel { creator: v, ..h }),
        metadata_step(h, "Version: "@ + v) == (HeaderModel { diff_name: v, ..h }),
{
    reveal_strlit("Title: ");
    reveal_strlit("Artist: ");
    reveal_strlit("Creator: ");
    reveal_strlit("Version: ");
    reveal_strlit("Title:");
    reveal_strlit("Artist:");
    reveal_strlit("Creator:");
    reveal_strlit("Version:");
    lemma_trim_unpadded(v);
    let keys = seq!["Title:"@, "Creator:"@, "Version:"@, "Artist:"@];
    let lines = seq!["Title: "@ + v, "Creator: "@ + v, "Version: "@ + v, "Artist: "@ + v];
    assert forall|a: int, b: int| 0 <= a < 4 && 0 <= b < 4 implies (has_prefix(
        lines[a],
        keys[b],
    ) == (a == b)) && (a == b ==> lines[a].skip(keys[b].len() as int) =~= seq![' '] + v) by {
        assert(lines[a][0] == keys[a][0]);
        if a != b && has_prefix(lines[a], keys[b]) {
            assert(lines[a].take(keys[b].len() as int)[0] == keys[b][0]);
        }
        if a == b {
            assert(lines[a].take(keys[b].len() as int) =~= keys[b]);
        }
    }
}

/// A map file whose text is a `[General]` section holding `PreviewTime: n`,
/// for a decimal number `n` that fits in a `u32`, reads with preview time `n`.
pub proof fn lemma_preview_time(d: Seq<char>, dir: Seq<char>)
    requires
        d.len() > 0,
        all_digits(d),
        digits_value(d) <= 0xFFFF_FFFF,
    ensures
        spec_parse_header("[General]\nPreviewTime: "@ + d, dir) matches Some(h) && h.preview_ms
            == digits_value(d),
{
    reveal_strlit("[General]\nPreviewTime: ");
    reveal_strlit("[General]");
    reveal_strlit("PreviewTime: ");
    reveal_strlit("//");
    let text = "[General]\nPreviewTime: "@ + d;
    let step = header_stepper(dir);
    let st0 = header_scan_start();
    assert(text.len() == 23 + d.len());
    assert forall|j: int| 0 <= j < 9 implies text[j] != '\n' by {}
    lemma_first_index(text, '\n', 9);
    let first = text.take(9);
    assert(first =~= "[General]"@);
    assert(strip_bom(first) == first);
    assert(trim_start(first) == first);
    assert(trim_end(first) == first);
    assert(clean_line(first) == first);
    assert(!has_prefix(first, "//"@)) by {
        if has_prefix(first, "//"@) {
            assert(first.take(2)[0] == "//"@[0]);
        }
    }
    let st1 = step(st0, first);
    assert(st1 == HeaderScan { section: Section::General, ..st0 });
    let rest = text.skip(10);
    let line = "PreviewTime: "@ + d;
    assert(rest =~= line);
    assert forall|j: int| 0 <= j < rest.len() implies rest[j] != '\n' by {
        if j >= 13 {
            assert(rest[j] == d[j - 13]);
            assert(is_digit(d[j - 13]));
        }
    }
    lemma_first_index(rest, '\n', rest.len() as int);
    assert(fold_lines(step, st0, text) == fold_lines(step, st1, rest));
    assert(fold_lines(step, st1, rest) == step(st1, rest));
    assert(line[0] == 'P');
    assert(strip_bom(line) == line);
    assert(trim_start(line) == line);
    assert(line.last() == d.last());
    assert(is_digit(d.last()));
    assert(trim_end(line) == line);
    assert(clean_line(line) == line);
    assert(!has_prefix(line, "//"@)) by {
        if has_prefix(line, "//"@) {
            assert(line.take(2)[0] == "//"@[0]);
        }
    }
    lemma_preview_time_line(default_header(), dir, d);
}

/// The fields of a line whose first field holds no comma: that field, then
/// the fields of the rest.
proof fn lemma_field_after(f: Seq<char>, rest: Seq<char>, n: nat)
    requires
        forall|i: int| 0 <= i < f.len() ==> f[i] != ',',
    ensures
        nth_field(f + seq![','] + rest, ',', 0) == Some(f),
        nth_field(f + seq![','] + rest, ',', n + 1) == nth_field(rest, ',', n),
        nth_field(f, ',', 0) == Some(f),
{
    let line = f + seq![','] + rest;
    assert forall|i: int| 0 <= i < f.len() implies line[i] != ',' by {
        assert(line[i] == f[i]);
    }
    lemma_first_index(line, ',', f.len() as int);
    assert(line.take(f.len() as int) =~= f);
    assert(line.skip(f.len() as int + 1) =~= rest);
    lemma_first_index(f, ',', f.len() as int);
    assert(f.take(f.len() as int) =~= f);
}

/// A digit string holds no comma.
proof fn lemma_digits_no_comma(d: Seq<char>)
    requires
        all_digits(d),
    ensures
        forall|i: int| 0 <= i < d.len() ==> d[i] != ',',
{
    assert forall|i: int| 0 <= i < d.len() implies d[i] != ',' by {
        assert(is_digit(d[i]));
    }
}

/// A hit object `x,y,time,type,hitsound` of decimal numbers is a note exactly
/// when its type is odd (a circle) and its hitsound is 0, 4, 8 or 12: at its
/// time, a centre note for 0 and 4 and a rim note for 8 and 12, big for 4 and
/// 12, and not yet judged.
pub proof fn lemma_hit_object_fields(
    x: Seq<char>,
    y: Seq<char>,
    t: Seq<char>,
    o: Seq<char>,
    h: Seq<char>,
)
    requires
        x.len() > 0 && all_digits(x),
        y.len() > 0 && all_digits(y),
        t.len() > 0 && all_digits(t),
        o.len() > 0 && all_digits(o),
        h.len() > 0 && all_digits(h),
        digits_value(t) <= 0xFFFF_FFFF,
        digits_value(o) <= 0xFFFF_FFFF,
        digits_value(h) <= 0xFFFF_FFFF,
    ensures
        ({
            let line = x + seq![','] + y + seq![','] + t + seq![','] + o + seq![','] + h;
            let hs = digits_value(h);
            let circle = digits_value(o) % 2 == 1;
            &&& (circle && (hs == 0 || hs == 4)) ==> spec_parse_hit_object(line) == Some(
                Note {
                    time: digits_value(t) as u32,
                    note_type: NoteType::Don,
                    big: hs == 4,
                    hit: false,
                },
            )
            &&& (circle && (hs == 8 || hs == 12)) ==> spec_parse_hit_object(line) == Some(
                Note {
                    time: digits_value(t) as u32,
                    note_type: NoteType::Kat,
                    big: hs == 12,
                    hit: false,
                },
            )
            &&& !(circle && (hs == 0 || hs == 4 || hs == 8 || hs == 12)) ==> spec_parse_hit_object(
                line,
            ) is None
        }),
{
    lemma_digits_no_comma(x);
    lemma_digits_no_comma(y);
    lemma_digits_no_comma(t);
    lemma_digits_no_comma(o);
    lemma_digits_no_comma(h);
    let r3 = o + seq![','] + h;
    let r2 = t + seq![','] + r3;
    let r1 = y + seq![','] + r2;
    let line = x + seq![','] + r1;
    assert(line =~= x + seq![','] + y + seq![','] + t + seq![','] + o + seq![','] + h);
    lemma_field_after(h, Seq::<char>::empty(), 0);
    lemma_field_after(o, h, 0);
    lemma_field_after(t, r3, 0);
    lemma_field_after(t, r3, 1);
    lemma_field_after(y, r2, 1);
    lemma_field_after(y, r2, 2);
    lemma_field_after(y, r2, 0);
    lemma_field_after(x, r1, 1);
    lemma_field_after(x, r1, 2);
    lemma_field_after(x, r1, 3);
    assert(nth_field(line, ',', 2) == Some(t));
    assert(nth_field(line, ',', 3) == Some(o));
    assert(nth_field(line, ',', 4) == Some(h));
    lemma_trim_digits(t);
    lemma_trim_digits(o);
    lemma_trim_digits(h);
    assert(is_digit(t[0]) && is_digit(o[0]) && is_digit(h[0]));
}

/// Every note read from a map file starts unjudged.
pub proof fn lemma_map_notes_unjudged(text: Seq<char>)
    ensures
        forall|i: int| 0 <= i < spec_map_notes(text).len() ==> !(#[trigger] spec_map_notes(text)[i]).hit,
{
    lemma_fold_map_unjudged((Section::Other, Seq::empty()), text);
}

proof fn lemma_fold_map_unjudged(st: (Section, Seq<Note>), s: Seq<char>)
    requires
        forall|i: int| 0 <= i < st.1.len() ==> !(#[trigger] st.1[i]).hit,
    ensures
        forall|i: int| 0 <= i < fold_lines(map_stepper(), st, s).1.len() ==> !(#[trigger] fold_lines(map_stepper(), st, s).1[i]).hit,
    decreases s.len(),
{
    let k = crate::text::first_index(s, '\n');
    crate::text::lemma_first_index_bound(s, '\n');
    let line = if k < s.len() { s.take(k as int) } else { s };
    let next = map_step(st, line);
    assert(forall|i: int| 0 <= i < next.1.len() ==> !(#[trigger] next.1[i]).hit);
    if k < s.len() {
        lemma_fold_map_unjudged(next, s.skip(k as int + 1));
    }
}

// ---------------------------------------------------------------------------
// Paths
// ---------------------------------------------------------------------------

/// The path that `std::path::Path::join` makes of `dir` and `file`, as text.
pub uninterp spec fn spec_join_path(dir: Seq<char>, file: Seq<char>) -> Seq<char>;

/// Calls `std::path::Path::join`; the result, as text, is `spec_join_path` of the
/// two arguments.
#[verifier::external_body]
fn join_path(dir: &str, file: &str) -> (r: String)
    ensures
        r@ == spec_join_path(dir@, file@),
{
    std::path::Path::new(dir).join(file).to_string_lossy().into_owned()
}

} // verus!
