use taiko_core::beatmap::{Beatmap, Color, MapHeader, Note, NoteType, TimingWindows};
use taiko_core::text::Number;
use taiko_core::game::{decimal_string, Game, Judgement, TickResult};

fn note(time: u32, note_type: NoteType) -> Note {
    Note { time, note_type, big: false, hit: false }
}

/// A map at difficulty 5: great 35 ms, ok 80 ms, miss 95 ms.
fn game(notes: Vec<Note>) -> Game {
    let mut header = MapHeader::new();
    header.title = "Title".to_string();
    header.artist = "Artist".to_string();
    header.diff_name = "Oni".to_string();
    Game::new(Beatmap { header, timing_windows: TimingWindows::new(Number::Fixed(5_000_000_000_000_000_000)), notes })
}

fn ms(t: i64) -> i64 {
    t * 1000
}

#[test]
fn new_game_is_fresh() {
    let g = game(vec![note(1000, NoteType::Don)]);
    assert_eq!(g.combo(), 0);
    assert_eq!(g.misses(), 0);
    assert_eq!(g.latest_judgement(), None);
    assert_eq!(g.header().title, "Title");
}

#[test]
fn on_time_hit_is_great() {
    let mut g = game(vec![note(1000, NoteType::Don)]);
    assert!(!g.judge(NoteType::Don, ms(1000)));
    assert_eq!(g.latest_judgement(), Some(Judgement::Great));
    assert_eq!(g.combo(), 1);
    assert_eq!(g.misses(), 0);
    assert!(g.notes()[0].hit);
}

#[test]
fn window_edges() {
    let mut g = game(vec![note(1000, NoteType::Don)]);
    g.judge(NoteType::Don, ms(1035));
    assert_eq!(g.latest_judgement(), Some(Judgement::Great));
    let mut g = game(vec![note(1000, NoteType::Don)]);
    g.judge(NoteType::Don, 1_035_001);
    assert_eq!(g.latest_judgement(), Some(Judgement::Good));
    let mut g = game(vec![note(1000, NoteType::Don)]);
    g.judge(NoteType::Don, ms(920));
    assert_eq!(g.latest_judgement(), Some(Judgement::Good));
    let mut g = game(vec![note(1000, NoteType::Don)]);
    g.judge(NoteType::Don, ms(910));
    assert_eq!(g.latest_judgement(), Some(Judgement::Miss));
    assert_eq!(g.misses(), 1);
}

#[test]
fn too_early_hit_is_ignored() {
    let mut g = game(vec![note(1000, NoteType::Don)]);
    assert!(!g.judge(NoteType::Don, ms(904)));
    assert_eq!(g.latest_judgement(), None);
    assert!(!g.notes()[0].hit);
    g.judge(NoteType::Don, ms(905));
    assert_eq!(g.latest_judgement(), Some(Judgement::Miss));
}

#[test]
fn wrong_drum_is_a_miss() {
    let mut g = game(vec![note(1000, NoteType::Don), note(2000, NoteType::Kat)]);
    g.judge(NoteType::Kat, ms(1000));
    assert_eq!(g.latest_judgement(), Some(Judgement::Miss));
    assert_eq!(g.combo(), 0);
    assert_eq!(g.misses(), 1);
}

#[test]
fn judged_note_is_skipped_by_update() {
    let mut g = game(vec![note(1000, NoteType::Don), note(2000, NoteType::Kat)]);
    g.judge(NoteType::Don, ms(1000));
    // the same note cannot be hit twice
    g.judge(NoteType::Don, ms(1001));
    assert_eq!(g.combo(), 1);
    assert_eq!(g.update(ms(1001)), TickResult { finished: false, combo_break: false });
    g.judge(NoteType::Kat, ms(1990));
    assert_eq!(g.latest_judgement(), Some(Judgement::Great));
    assert_eq!(g.combo(), 2);
}

#[test]
fn late_notes_are_missed_by_update() {
    let mut g = game(vec![note(1000, NoteType::Don), note(1100, NoteType::Don), note(5000, NoteType::Kat)]);
    assert_eq!(g.update(ms(1095)), TickResult { finished: false, combo_break: false });
    assert_eq!(g.misses(), 0);
    g.update(ms(1196));
    assert_eq!(g.misses(), 2);
    assert_eq!(g.latest_judgement(), Some(Judgement::Miss));
    assert!(g.notes()[0].hit && g.notes()[1].hit && !g.notes()[2].hit);
}

#[test]
fn update_twice_at_same_time() {
    let mut g = game(vec![note(1000, NoteType::Don), note(1100, NoteType::Don)]);
    g.update(ms(1150));
    let misses = g.misses();
    assert_eq!(g.update(ms(1150)), TickResult { finished: false, combo_break: false });
    assert_eq!(g.misses(), misses);
    assert_eq!(misses, 1);
}

#[test]
fn combo_break_sound_after_long_combo() {
    let notes: Vec<Note> = (0..22).map(|i| note(1000 + 100 * i, NoteType::Don)).collect();
    let mut g = game(notes);
    for i in 0..20 {
        g.update(ms(1000 + 100 * i));
        assert!(!g.judge(NoteType::Don, ms(1000 + 100 * i)));
    }
    assert_eq!(g.combo(), 20);
    g.update(ms(3000));
    assert!(g.judge(NoteType::Kat, ms(3000)));
    assert_eq!(g.combo(), 0);
    // a short combo breaks silently
    let mut g = game(vec![note(1000, NoteType::Don), note(2000, NoteType::Don)]);
    g.judge(NoteType::Don, ms(1000));
    assert_eq!(g.update(ms(3000)), TickResult { finished: false, combo_break: false });
    assert_eq!(g.misses(), 1);
}

#[test]
fn combo_break_by_update() {
    let notes: Vec<Note> = (0..21).map(|i| note(1000 + 100 * i, NoteType::Don)).collect();
    let mut g = game(notes);
    for i in 0..20 {
        g.update(ms(1000 + 100 * i));
        g.judge(NoteType::Don, ms(1000 + 100 * i));
    }
    assert_eq!(g.update(ms(4000)), TickResult { finished: false, combo_break: true });
    assert_eq!(g.misses(), 1);
}

#[test]
fn map_ends_after_outro() {
    let mut g = game(vec![note(1000, NoteType::Don)]);
    g.judge(NoteType::Don, ms(1000));
    assert!(!g.update(ms(1000)).finished);
    assert!(!g.update(ms(2000)).finished);
    assert!(!g.update(ms(6999)).finished);
    assert!(g.update(ms(7000)).finished);
    assert!(g.update(ms(8000)).finished);
}

#[test]
fn empty_map_ends_after_outro() {
    let mut g = game(vec![]);
    assert!(!g.update(ms(-1000)).finished);
    assert!(!g.update(ms(3999)).finished);
    assert!(g.update(ms(4000)).finished);
}

#[test]
fn visible_notes_skip_judged_and_far_notes() {
    let mut g = game(vec![
        note(1000, NoteType::Don),
        note(1200, NoteType::Kat),
        note(1400, NoteType::Don),
        note(3000, NoteType::Don),
    ]);
    assert_eq!(g.visible_notes(0), vec![0, 1, 2]);
    assert_eq!(g.visible_notes(-1), vec![0, 1]);
    g.judge(NoteType::Kat, ms(1000));
    assert_eq!(g.visible_notes(ms(1000)), vec![1, 2]);
    g.update(ms(1200));
    assert_eq!(g.visible_notes(ms(1600)), vec![1, 2, 3]);
}

#[test]
fn display_lines() {
    let mut g = game(vec![note(1000, NoteType::Don), note(2000, NoteType::Don)]);
    assert_eq!(g.title_line(), "Artist - Title [Oni]");
    assert_eq!(g.status_line(), "0x    0 misses    esc: exit");
    g.judge(NoteType::Don, ms(1000));
    g.update(ms(3000));
    assert_eq!(g.status_line(), "0x    1 misses    esc: exit");
    assert_eq!(decimal_string(1234567890), "1234567890");
    assert_eq!(decimal_string(4294967295), "4294967295");
    assert_eq!(decimal_string(7), "7");
    assert_eq!(decimal_string(10), "10");
}

#[test]
fn judgement_labels_and_colours() {
    assert_eq!(Judgement::Great.label(), "GREAT");
    assert_eq!(Judgement::Good.label(), "OK");
    assert_eq!(Judgement::Miss.label(), "Miss");
    assert_eq!(Judgement::Great.color(), Color::Yellow);
    assert_eq!(Judgement::Good.color(), Color::Green);
    assert_eq!(Judgement::Miss.color(), Color::Red);
}
