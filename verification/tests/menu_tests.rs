use taiko_core::beatmap::MapHeader;
use taiko_core::menu::{collect_song, has_osu_extension, sort_songs, DiffEntry, Menu, Piece, Row, SongEntry, Tone};

fn header(title: &str, artist: &str, diff: &str, mode: u8) -> MapHeader {
    let mut h = MapHeader::new();
    h.title = title.to_string();
    h.artist = artist.to_string();
    h.diff_name = diff.to_string();
    h.mode = mode;
    h.song_path = format!("{}/audio.mp3", title);
    h.preview_ms = 1000;
    h
}

fn diff(title: &str, artist: &str, name: &str) -> DiffEntry {
    DiffEntry { path: format!("{}/{}.osu", title, name), header: header(title, artist, name, 1) }
}

fn song(title: &str, artist: &str, diffs: &[&str]) -> SongEntry {
    SongEntry {
        dir: title.to_string(),
        title: title.to_string(),
        artist: artist.to_string(),
        diffs: diffs.iter().map(|d| diff(title, artist, d)).collect(),
    }
}

fn menu() -> Menu {
    Menu::new(vec![song("A", "x", &["Easy", "Hard"]), song("B", "y", &["Oni"]), song("C", "z", &[])])
}

#[test]
fn new_menu_lists_songs() {
    let m = menu();
    assert_eq!(m.rows, vec![Row::Song(0), Row::Song(1), Row::Song(2)]);
    assert_eq!(m.expanded, None);
    assert_eq!(m.selected(), Some(Row::Song(0)));
    let empty = Menu::new(vec![]);
    assert_eq!(empty.selected(), None);
    assert_eq!(empty.state, None);
}

#[test]
fn move_wraps_around() {
    let mut m = menu();
    m.move_by(-1);
    assert_eq!(m.selected(), Some(Row::Song(2)));
    m.move_by(1);
    assert_eq!(m.selected(), Some(Row::Song(0)));
    m.move_by(7);
    assert_eq!(m.state, Some(1));
    m.move_by(-7);
    assert_eq!(m.state, Some(0));
    let mut empty = Menu::new(vec![]);
    empty.move_by(1);
    assert_eq!(empty.state, None);
}

#[test]
fn activate_song_expands_and_collapses() {
    let mut m = menu();
    assert!(m.activate().is_none());
    assert_eq!(m.expanded, Some(0));
    assert_eq!(m.rows, vec![Row::Song(0), Row::Diff(0, 0), Row::Diff(0, 1), Row::Song(1), Row::Song(2)]);
    assert_eq!(m.selected(), Some(Row::Song(0)));
    assert!(m.activate().is_none());
    assert_eq!(m.expanded, None);
    assert_eq!(m.rows, vec![Row::Song(0), Row::Song(1), Row::Song(2)]);
    assert_eq!(m.state, Some(0));
}

#[test]
fn expanding_another_song_moves_cursor_to_it() {
    let mut m = menu();
    m.activate();
    m.move_by(3);
    assert_eq!(m.selected(), Some(Row::Song(1)));
    m.activate();
    assert_eq!(m.expanded, Some(1));
    assert_eq!(m.rows, vec![Row::Song(0), Row::Song(1), Row::Diff(1, 0), Row::Song(2)]);
    assert_eq!(m.state, Some(1));
}

#[test]
fn activate_difficulty_gives_map() {
    let mut m = menu();
    m.activate();
    m.move_by(2);
    let (path, h) = m.activate().unwrap();
    assert_eq!(path, "A/Hard.osu");
    assert_eq!(h.diff_name, "Hard");
    assert_eq!(m.expanded, Some(0));
    assert_eq!(m.state, Some(2));
    assert_eq!(m.hovered_audio(), Some(("A/audio.mp3", 1000)));
}

#[test]
fn hovered_audio_only_on_difficulties() {
    let mut m = menu();
    assert_eq!(m.hovered_audio(), None);
    m.activate();
    m.move_by(1);
    assert_eq!(m.hovered_audio(), Some(("A/audio.mp3", 1000)));
}

#[test]
fn collapse_returns_to_song() {
    let mut m = menu();
    m.move_by(1);
    m.activate();
    m.move_by(1);
    assert_eq!(m.selected(), Some(Row::Diff(1, 0)));
    m.collapse();
    assert_eq!(m.expanded, None);
    assert_eq!(m.selected(), Some(Row::Song(1)));
    // on a song row, collapse does nothing
    m.collapse();
    assert_eq!(m.selected(), Some(Row::Song(1)));
}

#[test]
fn songs_sort_by_artist_then_title_ignoring_case() {
    let sorted = sort_songs(vec![
        song("b", "Zed", &[]),
        song("B", "alpha", &[]),
        song("a", "ALPHA", &[]),
        song("C", "beta", &[]),
    ]);
    let names: Vec<(String, String)> = sorted.iter().map(|s| (s.artist.clone(), s.title.clone())).collect();
    assert_eq!(
        names,
        vec![
            ("ALPHA".to_string(), "a".to_string()),
            ("alpha".to_string(), "B".to_string()),
            ("beta".to_string(), "C".to_string()),
            ("Zed".to_string(), "b".to_string()),
        ]
    );
}

#[test]
fn sort_keeps_order_of_equal_keys() {
    let sorted = sort_songs(vec![
        SongEntry { dir: "1".to_string(), title: "Same".to_string(), artist: "X".to_string(), diffs: vec![] },
        SongEntry { dir: "0".to_string(), title: "a".to_string(), artist: "a".to_string(), diffs: vec![] },
        SongEntry { dir: "2".to_string(), title: "same".to_string(), artist: "x".to_string(), diffs: vec![] },
        SongEntry { dir: "3".to_string(), title: "SAME".to_string(), artist: "x".to_string(), diffs: vec![] },
    ]);
    let dirs: Vec<&str> = sorted.iter().map(|s| s.dir.as_str()).collect();
    assert_eq!(dirs, vec!["0", "1", "2", "3"]);
    assert!(sort_songs(vec![]).is_empty());
}

#[test]
fn sort_uses_unicode_lowercase() {
    let sorted = sort_songs(vec![song("t", "Ωmega", &[]), song("t", "ωa", &[])]);
    assert_eq!(sorted[0].artist, "ωa");
}

#[test]
fn collect_song_keeps_mode_one() {
    let mut other = diff("T", "A", "Std");
    other.header.mode = 0;
    other.header.title = "Other".to_string();
    let d1 = diff("T", "A", "Kantan");
    let d2 = diff("T", "A", "Oni");
    let s = collect_song("dir".to_string(), vec![other, d1, d2]).unwrap();
    assert_eq!(s.dir, "dir");
    assert_eq!(s.title, "T");
    assert_eq!(s.artist, "A");
    let names: Vec<&str> = s.diffs.iter().map(|d| d.header.diff_name.as_str()).collect();
    assert_eq!(names, vec!["Kantan", "Oni"]);
    let mut only = diff("T", "A", "Std");
    only.header.mode = 3;
    assert!(collect_song("dir".to_string(), vec![only]).is_none());
    assert!(collect_song("dir".to_string(), vec![]).is_none());
}

#[test]
fn osu_extension() {
    assert!(has_osu_extension("map.osu"));
    assert!(has_osu_extension("a.b.osu"));
    assert!(has_osu_extension("..osu"));
    assert!(!has_osu_extension(".osu"));
    assert!(!has_osu_extension("map.osz"));
    assert!(!has_osu_extension("map.OSU"));
    assert!(!has_osu_extension("map.osu.bak"));
    assert!(!has_osu_extension("osu"));
    assert!(!has_osu_extension(""));
}

fn texts(pieces: Vec<Piece>) -> Vec<(String, Tone)> {
    pieces.into_iter().map(|p| (p.text, p.tone)).collect()
}

#[test]
fn row_and_detail_texts() {
    let mut m = menu();
    assert_eq!(
        texts(m.row_text(0)),
        vec![("\u{25b6} ".to_string(), Tone::Plain), ("A".to_string(), Tone::Bold), (" - x".to_string(), Tone::Dim)]
    );
    assert_eq!(texts(m.detail_text()), vec![("A".to_string(), Tone::Bold), ("x".to_string(), Tone::Dim)]);
    m.activate();
    assert_eq!(texts(m.row_text(0))[0], ("\u{25bc} ".to_string(), Tone::Plain));
    assert_eq!(texts(m.row_text(2)), vec![("    \u{25e6} Hard".to_string(), Tone::Plain)]);
    m.move_by(1);
    let mut mapped = m.songs[0].diffs[0].header.clone();
    mapped.creator = "someone".to_string();
    m.songs[0].diffs[0].header = mapped;
    assert_eq!(
        texts(m.detail_text()),
        vec![
            ("Easy".to_string(), Tone::Bold),
            ("Mapped by someone".to_string(), Tone::Dim),
            (String::new(), Tone::Plain),
        ]
    );
    let empty = Menu::new(vec![]);
    assert_eq!(texts(empty.detail_text()), vec![("No maps found".to_string(), Tone::Dim)]);
}
