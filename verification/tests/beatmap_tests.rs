use taiko_core::beatmap::{
    od_supported, parse_header, parse_hit_object, parse_map, Color, HeaderError, MapHeader, Note, NoteType,
    TimingWindows,
};
use taiko_core::text::Number;

/// A finite overall difficulty given in millionths.
fn od(micro: i128) -> Number {
    Number::Fixed(micro * 1_000_000_000_000)
}

fn note(time: u32, note_type: NoteType, big: bool) -> Note {
    Note { time, note_type, big, hit: false }
}

#[test]
fn hit_object_centre_small() {
    assert_eq!(parse_hit_object("256,192,1000,1,0"), Some(note(1000, NoteType::Don, false)));
}

#[test]
fn hit_object_centre_big_with_extras() {
    assert_eq!(
        parse_hit_object("100,100,2000,5,4,0:0:0:0:"),
        Some(note(2000, NoteType::Don, true))
    );
}

#[test]
fn hit_object_rim_small_and_big() {
    assert_eq!(parse_hit_object(",,3000,1,8"), Some(note(3000, NoteType::Kat, false)));
    assert_eq!(parse_hit_object("0,0,3500,1,12"), Some(note(3500, NoteType::Kat, true)));
}

#[test]
fn hit_object_fields_are_trimmed() {
    assert_eq!(
        parse_hit_object(" 256, 192 , 1500 , 1 , 8 "),
        Some(note(1500, NoteType::Kat, false))
    );
    assert_eq!(parse_hit_object("1,1,+1500,+1,+4"), Some(note(1500, NoteType::Don, true)));
}

#[test]
fn hit_object_rejects_non_circles_and_other_sounds() {
    assert_eq!(parse_hit_object("256,192,1000,2,0"), None);
    assert_eq!(parse_hit_object("256,192,1000,12,0"), None);
    assert_eq!(parse_hit_object("256,192,1000,1,2"), None);
    assert_eq!(parse_hit_object("256,192,1000,1,6"), None);
}

#[test]
fn hit_object_rejects_short_and_bad_numbers() {
    assert_eq!(parse_hit_object("256,192,1000,1"), None);
    assert_eq!(parse_hit_object(""), None);
    assert_eq!(parse_hit_object("256,192,abc,1,0"), None);
    assert_eq!(parse_hit_object("256,192,-5,1,0"), None);
    assert_eq!(parse_hit_object("256,192,,1,0"), None);
    assert_eq!(parse_hit_object("256,192,4294967296,1,0"), None);
    assert_eq!(parse_hit_object("256,192,4294967295,1,0"), Some(note(4294967295, NoteType::Don, false)));
    assert_eq!(parse_hit_object("256,192,1000,1,4294967300"), None);
}

#[test]
fn note_colours() {
    assert_eq!(note(0, NoteType::Don, false).color(), Color::Red);
    assert_eq!(note(0, NoteType::Kat, true).color(), Color::Blue);
    assert_eq!(Color::Red.rgb(), (0xFF, 0x2D, 0x3A));
    assert_eq!(Color::Blue.rgb(), (0x3D, 0x9B, 0xFF));
    assert_eq!(Color::Green.rgb(), (0x39, 0xFF, 0x88));
    assert_eq!(Color::Yellow.rgb(), (0xFF, 0xD6, 0x2E));
}

#[test]
fn timing_windows_formulas() {
    assert_eq!(TimingWindows::new(od(5000000)), TimingWindows { great: 35_000, ok: 80_000, miss: 95_000 });
    assert_eq!(TimingWindows::new(od(0)), TimingWindows { great: 50_000, ok: 120_000, miss: 135_000 });
    assert_eq!(TimingWindows::new(od(8000000)), TimingWindows { great: 26_000, ok: 62_000, miss: 80_000 });
    assert_eq!(TimingWindows::new(od(5500000)), TimingWindows { great: 33_500, ok: 77_000, miss: 92_500 });
    assert_eq!(TimingWindows::new(od(10000000)), TimingWindows { great: 20_000, ok: 50_000, miss: 70_000 });
}

#[test]
fn timing_windows_nested_and_shrinking() {
    let mut prev = TimingWindows::new(od(0));
    for micro in (0..=20_000_000).step_by(250_000) {
        let w = TimingWindows::new(od(micro));
        assert!(w.great <= w.ok && w.ok <= w.miss);
        assert!(w.great <= prev.great && w.ok <= prev.ok && w.miss <= prev.miss);
        prev = w;
    }
}

const SAMPLE: &str = "\u{feff}osu file format v14\r\n\
\r\n\
[General]\r\n\
AudioFilename: audio.mp3\r\n\
PreviewTime: 40500\r\n\
Mode: 1\r\n\
\r\n\
[Metadata]\r\n\
// a comment\r\n\
Title:Song Title \r\n\
Artist:  The Artist\r\n\
Creator:mapper\r\n\
Version:Oni\r\n\
\r\n\
[Difficulty]\r\n\
HPDrainRate:5\r\n\
OverallDifficulty:8.5\r\n\
\r\n\
[HitObjects]\r\n\
256,192,1000,1,0,0:0:0:0:\r\n\
256,192,1500,1,8,0:0:0:0:\r\n\
256,192,2000,2,0,B|300:192,1,100\r\n\
256,192,2500,5,12,0:0:0:0:\r\n";

#[test]
fn header_sample() {
    let h = parse_header(SAMPLE, "songs/one").unwrap();
    assert_eq!(h.title, "Song Title");
    assert_eq!(h.artist, "The Artist");
    assert_eq!(h.creator, "mapper");
    assert_eq!(h.diff_name, "Oni");
    assert_eq!(h.mode, 1);
    assert_eq!(h.preview_ms, 40500);
    assert_eq!(h.od, od(8500000));
    assert_eq!(h.song_path, "songs/one/audio.mp3");
}

#[test]
fn header_defaults_and_bad_numbers() {
    let text = "[General]\nPreviewTime: soon\nMode: 300\n[Metadata]\nVersion: Easy\n";
    let h = parse_header(text, "").unwrap();
    assert_eq!(h.preview_ms, 0);
    assert_eq!(h.mode, 0);
    assert_eq!(h.od, od(5000000));
    assert_eq!(h.diff_name, "Easy");
    assert_eq!(h.title, "");
    assert_eq!(h.song_path, "");
}

#[test]
fn header_keys_only_in_their_section() {
    let text = "[General]\nTitle: wrong\n[Metadata]\nTitle: right\nMode: 1\n[Other]\nArtist: nobody\n";
    let h = parse_header(text, "d").unwrap();
    assert_eq!(h.title, "right");
    assert_eq!(h.mode, 0);
    assert_eq!(h.artist, "");
}

#[test]
fn header_later_lines_override() {
    let text = "[Metadata]\nTitle: first\nTitle: second\n[Difficulty]\nOverallDifficulty:3\nOverallDifficulty:-1.25\n";
    let h = parse_header(text, "d").unwrap();
    assert_eq!(h.title, "second");
    assert_eq!(h.od, od(-1250000));
}

#[test]
fn header_difficulty_decimals() {
    for (text, units) in [
        ("7", 7_000_000_000_000_000_000),
        ("7.", 7_000_000_000_000_000_000),
        (".5", 500_000_000_000_000_000),
        ("+2.25", 2_250_000_000_000_000_000),
        ("9.1239", 9_123_900_000_000_000_000),
        ("8.5555", 8_555_500_000_000_000_000),
        ("5.0000001", 5_000_000_100_000_000_000),
        ("1.23456789", 1_234_567_890_000_000_000),
        ("-1.23456789", -1_234_567_890_000_000_000),
        ("0.1234567890123456789", 123_456_789_012_345_678),
        ("0", 0),
        ("-0", 0),
    ] {
        let t = format!("[Difficulty]\nOverallDifficulty: {}\n", text);
        assert_eq!(parse_header(&t, "d").unwrap().od, Number::Fixed(units), "{}", text);
    }
}

#[test]
fn header_difficulty_exponents() {
    for (text, micro) in [
        ("1e1", 10_000_000),
        ("2.5E-1", 250_000),
        ("-3e0", -3_000_000),
        ("5E+0", 5_000_000),
        (".5e1", 5_000_000),
        ("7.e-3", 7_000),
        ("0e99999999999999999999999999", 0),
        ("1e-99999999999999999999999999", 0),
        ("123456789e-6", 123_456_789),
        ("1e12", 1_000_000_000_000_000_000),
        ("1e18", 1_000_000_000_000_000_000_000_000),
    ] {
        let t = format!("[Difficulty]\nOverallDifficulty: {}\n", text);
        assert_eq!(parse_header(&t, "d").unwrap().od, od(micro), "{}", text);
    }
}

#[test]
fn header_difficulty_beyond_and_special() {
    for (text, value) in [
        ("1e19", Number::Beyond(false)),
        ("-2e40", Number::Beyond(true)),
        ("1e99999999999999999999999", Number::Beyond(false)),
        ("inf", Number::Infinite(false)),
        ("-Infinity", Number::Infinite(true)),
        ("+INF", Number::Infinite(false)),
        ("NaN", Number::NotANumber),
        ("-nan", Number::NotANumber),
    ] {
        let t = format!("[Difficulty]\nOverallDifficulty: {}\n", text);
        assert_eq!(parse_header(&t, "d").unwrap().od, value, "{}", text);
    }
}

#[test]
fn header_bad_difficulty_is_an_error() {
    for bad in ["abc", "", ".", "1.2.3", "e3", "1e", "1e+", "1e1.5", "infin", "nana", "--1", "1 2"] {
        let t = format!("[Difficulty]\nOverallDifficulty: {}\n", bad);
        assert_eq!(parse_header(&t, "d").unwrap_err(), HeaderError::BadOverallDifficulty, "{}", bad);
    }
}

#[test]
fn timing_windows_round_down_to_microseconds() {
    // 50 - 3 * 8.5555 = 24.3335 ms
    let w = TimingWindows::new(od(8_555_500));
    assert_eq!(w.great, 24_333);
    // 50 - 3 * 17.0001 = -1.0003 ms
    assert_eq!(TimingWindows::new(od(17_000_100)).great, -1_001);
    // 50 - 3 * 5.0000001 = 34.9999997 ms
    assert_eq!(TimingWindows::new(Number::Fixed(5_000_000_100_000_000_000)).great, 34_999);
}

#[test]
fn timing_windows_beyond_the_fixed_range() {
    let bound: i128 = 100_000_000_000_000_000_000;
    let low = TimingWindows { great: -bound, ok: -bound, miss: -bound };
    let high = TimingWindows { great: bound, ok: bound, miss: bound };
    assert_eq!(TimingWindows::new(Number::Infinite(false)), low);
    assert_eq!(TimingWindows::new(Number::Beyond(false)), low);
    assert_eq!(TimingWindows::new(Number::Infinite(true)), high);
    assert_eq!(TimingWindows::new(Number::Beyond(true)), high);
    assert_eq!(TimingWindows::new(Number::NotANumber), TimingWindows { great: -bound, ok: -bound, miss: bound });
    // difficulty 10^18: 50 - 3 * 10^18 ms lies below the bound
    assert_eq!(TimingWindows::new(od(1_000_000_000_000_000_000_000_000)), low);
    // difficulty 10^13: 50 - 3 * 10^13 ms = -3 * 10^16 + 50 000 us
    assert_eq!(TimingWindows::new(od(10_000_000_000_000_000_000)).great, -29_999_999_999_950_000);
}

#[test]
fn difficulty_support() {
    assert!(od_supported(od(1_000_000_000_000_000_000_000_000)));
    assert!(!od_supported(Number::Fixed(i128::MAX)));
    assert!(od_supported(Number::NotANumber));
}

#[test]
fn map_sample() {
    let h = parse_header(SAMPLE, "songs/one").unwrap();
    let m = parse_map(SAMPLE, &h);
    assert_eq!(m.header.title, "Song Title");
    assert_eq!(m.timing_windows, TimingWindows::new(od(8500000)));
    assert_eq!(
        m.notes,
        vec![
            note(1000, NoteType::Don, false),
            note(1500, NoteType::Kat, false),
            note(2500, NoteType::Kat, true),
        ]
    );
    assert!(m.notes.iter().all(|n| !n.hit));
}

#[test]
fn map_ignores_hit_objects_outside_their_section() {
    let text = "[General]\n256,192,1000,1,0\n[HitObjects]\n// 256,192,2000,1,0\n256,192,3000,1,0\n[Events]\n256,192,4000,1,0\n";
    let m = parse_map(text, &MapHeader::new());
    assert_eq!(m.notes, vec![note(3000, NoteType::Don, false)]);
    assert_eq!(m.timing_windows, TimingWindows::new(od(5000000)));
}

#[test]
fn header_new_defaults() {
    let h = MapHeader::new();
    assert_eq!(h.od, od(5000000));
    assert_eq!(h.mode, 0);
    assert_eq!(h.preview_ms, 0);
    let c = h.clone();
    assert_eq!(c.od, od(5000000));
}
