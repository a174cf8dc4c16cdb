//! Playing a beatmap: judging drum hits, missing notes that pass by, and
//! deciding when the map is over.
//!
//! The clock is an integer number of microseconds since the song started; the
//! caller reads it from the audio clock and performs the sounds that the
//! results ask for.
use vstd::prelude::*;
use crate::beatmap::{Beatmap, Color, MapHeader, Note, NoteType, TimingWindows};

verus! {

/// Time between the last note being judged and the map ending, in microseconds.
pub open spec fn outro_us() -> int {
    5_000_000
}

/// Notes are visible this long before they are due, in microseconds.
pub open spec fn visible_ahead_us() -> int {
    1_400_000
}

/// A broken combo of at least this length is announced with a sound.
pub open spec fn combo_break_min() -> int {
    20
}

/// How well a note was hit.
#[derive(Debug, PartialEq, Eq, Structural, Clone, Copy)]
pub enum Judgement {
    Great,
    Good,
    Miss,
}

impl Judgement {
    /// The text shown for the judgement.
    pub fn label(&self) -> (s: String)
        ensures
            s@ == (match *self {
                Judgement::Great => "GREAT"@,
                Judgement::Good => "OK"@,
                Judgement::Miss => "Miss"@,
            }),
    {
        match self {
            Judgement::Great => String::from_str("GREAT"),
            Judgement::Good => String::from_str("OK"),
            Judgement::Miss => String::from_str("Miss"),
        }
    }

    /// Great is yellow, ok green, miss red.
    pub fn color(&self) -> (c: Color)
        ensures
            c == (match *self {
                Judgement::Great => Color::Yellow,
                Judgement::Good => Color::Green,
                Judgement::Miss => Color::Red,
            }),
    {
        match self {
            Judgement::Great => Color::Yellow,
            Judgement::Good => Color::Green,
            Judgement::Miss => Color::Red,
        }
    }
}

/// What one tick of the game asks of its caller.
#[derive(Debug, PartialEq, Eq, Structural, Clone, Copy)]
pub struct TickResult {
    /// the map is over: stop the song and leave the game
    pub finished: bool,
    /// notes were missed while the combo was long: play the combo-break sound
    pub combo_break: bool,
}

/// The state of a game, as values.
pub struct GameModel {
    pub notes: Seq<Note>,
    pub windows: TimingWindows,
    /// index of the next note to be judged
    pub next_note: int,
    pub combo: int,
    pub misses: int,
    pub latest: Option<Judgement>,
    /// clock time when every note had been judged
    pub finished_at: Option<int>,
}

/// The time of a note, in microseconds.
pub open spec fn note_us(n: Note) -> int {
    n.time as int * 1000
}

/// A note is too late to hit once it lies further in the past than the miss window.
pub open spec fn is_late(n: Note, now: int, w: TimingWindows) -> bool {
    now - note_us(n) > w.miss
}

/// The first note from `i` on that is neither judged nor too late (or the number of notes).
pub open spec fn scan_end(notes: Seq<Note>, i: int, now: int, w: TimingWindows) -> int
    decreases notes.len() - i,
{
    if 0 <= i < notes.len() && (notes[i].hit || is_late(notes[i], now, w)) {
        scan_end(notes, i + 1, now, w)
    } else {
        i
    }
}

/// The number of notes in `i..j` that are not judged yet.
pub open spec fn unjudged(notes: Seq<Note>, i: int, j: int) -> int
    decreases j - i,
{
    if j <= i {
        0
    } else {
        unjudged(notes, i, j - 1) + (if !notes[j - 1].hit {
            1int
        } else {
            0
        })
    }
}

/// The notes with every note in `i..j` judged.
pub open spec fn judge_range(notes: Seq<Note>, i: int, j: int) -> Seq<Note> {
    Seq::new(notes.len(), |k: int| if i <= k < j { Note { hit: true, ..notes[k] } } else { notes[k] })
}

/// The judgement of hitting drum `t` at time `now` on note `n`: the wrong drum is
/// a miss; otherwise the distance to the note decides.
pub open spec fn spec_judgement(n: Note, t: NoteType, now: int, w: TimingWindows) -> Judgement {
    let d = note_us(n) - now;
    let delta = if d < 0 { -d } else { d };
    if n.note_type != t {
        Judgement::Miss
    } else if delta <= w.great {
        Judgement::Great
    } else if delta <= w.ok {
        Judgement::Good
    } else {
        Judgement::Miss
    }
}

/// A well-formed game: the notes before `next_note` are all judged, and the
/// combo and misses together never exceed the number of judged notes.
pub open spec fn model_wf(m: GameModel) -> bool {
    &&& 0 <= m.next_note <= m.notes.len()
    &&& m.notes.len() <= 0xFFFF_FFFF
    &&& forall|i: int| 0 <= i < m.next_note ==> (#[trigger] m.notes[i]).hit
    &&& 0 <= m.combo
    &&& 0 <= m.misses
    &&& m.combo + m.misses + unjudged(m.notes, 0, m.notes.len() as int) <= m.notes.len()
}

/// One tick at clock time `now`: the map ends once every note was judged and
/// the outro has passed; otherwise the notes that went by unhit are missed.
pub open spec fn model_update(m: GameModel, now: int) -> (GameModel, TickResult) {
    let all_judged = m.next_note >= m.notes.len();
    if all_judged && m.finished_at is Some && now - m.finished_at->0 >= outro_us() {
        (m, TickResult { finished: true, combo_break: false })
    } else {
        let finished_at = if all_judged && m.finished_at is None {
            Some(now)
        } else {
            m.finished_at
        };
        let j = scan_end(m.notes, m.next_note, now, m.windows);
        let missed = unjudged(m.notes, m.next_note, j);
        let notes = judge_range(m.notes, m.next_note, j);
        if missed > 0 {
            (
                GameModel {
                    notes,
                    next_note: j,
                    combo: 0,
                    misses: m.misses + missed,
                    latest: Some(Judgement::Miss),
                    finished_at,
                    ..m
                },
                TickResult { finished: false, combo_break: m.combo >= combo_break_min() },
            )
        } else {
            (
                GameModel { notes, next_note: j, finished_at, ..m },
                TickResult { finished: false, combo_break: false },
            )
        }
    }
}

/// Hitting drum `t` at clock time `now`: the next note is judged unless there is
/// none, it was judged already, or it is further ahead than the miss window.
/// The boolean asks for the combo-break sound.
pub open spec fn model_judge(m: GameModel, t: NoteType, now: int) -> (GameModel, bool) {
    if m.next_note >= m.notes.len() {
        (m, false)
    } else {
        let n = m.notes[m.next_note];
        if n.hit || note_us(n) - now > m.windows.miss {
            (m, false)
        } else {
            let j = spec_judgement(n, t, now, m.windows);
            let notes = m.notes.update(m.next_note, Note { hit: true, ..n });
            if j == Judgement::Miss {
                (
                    GameModel { notes, combo: 0, misses: m.misses + 1, latest: Some(j), ..m },
                    m.combo >= combo_break_min(),
                )
            } else {
                (GameModel { notes, combo: m.combo + 1, latest: Some(j), ..m }, false)
            }
        }
    }
}

/// The indices of the notes to draw, from `i` on: unjudged notes up to the
/// first note due after `limit`.
pub open spec fn visible_from(notes: Seq<Note>, i: int, limit: int) -> Seq<usize>
    decreases notes.len() - i,
{
    if i < 0 || i >= notes.len() || note_us(notes[i]) > limit {
        Seq::empty()
    } else if notes[i].hit {
        visible_from(notes, i + 1, limit)
    } else {
        seq![i as usize] + visible_from(notes, i + 1, limit)
    }
}

// ---------------------------------------------------------------------------
// Lemmas
// ---------------------------------------------------------------------------

pub proof fn lemma_unjudged_split(s: Seq<Note>, i: int, k: int, j: int)
    requires
        i <= k <= j,
    ensures
        unjudged(s, i, j) == unjudged(s, i, k) + unjudged(s, k, j),
    decreases j - k,
{
    if k < j {
        lemma_unjudged_split(s, i, k, j - 1);
    }
}

pub proof fn lemma_unjudged_bound(s: Seq<Note>, i: int, j: int)
    requires
        i <= j,
    ensures
        0 <= unjudged(s, i, j) <= j - i,
    decreases j - i,
{
    if i < j {
        lemma_unjudged_bound(s, i, j - 1);
    }
}

/// Only the judged flags of `i..j` matter.
pub proof fn lemma_unjudged_frame(s: Seq<Note>, t: Seq<Note>, i: int, j: int)
    requires
        forall|k: int| i <= k < j ==> s[k].hit == t[k].hit,
    ensures
        unjudged(s, i, j) == unjudged(t, i, j),
    decreases j - i,
{
    if i < j {
        lemma_unjudged_frame(s, t, i, j - 1);
    }
}

pub proof fn lemma_unjudged_all_hit(s: Seq<Note>, i: int, j: int)
    requires
        forall|k: int| i <= k < j ==> s[k].hit,
    ensures
        unjudged(s, i, j) == 0,
    decreases j - i,
{
    if i < j {
        lemma_unjudged_all_hit(s, i, j - 1);
    }
}

/// Judging `a..b` leaves `unjudged(a..b)` fewer unjudged notes.
pub proof fn lemma_unjudged_judge_range(s: Seq<Note>, a: int, b: int)
    requires
        0 <= a <= b <= s.len(),
    ensures
        unjudged(judge_range(s, a, b), 0, s.len() as int) == unjudged(s, 0, s.len() as int)
            - unjudged(s, a, b),
{
    let t = judge_range(s, a, b);
    let n = s.len() as int;
    lemma_unjudged_split(s, 0, a, n);
    lemma_unjudged_split(s, a, b, n);
    lemma_unjudged_split(t, 0, a, n);
    lemma_unjudged_split(t, a, b, n);
    lemma_unjudged_frame(s, t, 0, a);
    lemma_unjudged_frame(s, t, b, n);
    lemma_unjudged_all_hit(t, a, b);
}

/// Judging one unjudged note leaves one fewer unjudged note.
pub proof fn lemma_unjudged_update(s: Seq<Note>, k: int, n: Note)
    requires
        0 <= k < s.len(),
        !s[k].hit,
        n.hit,
    ensures
        unjudged(s.update(k, n), 0, s.len() as int) == unjudged(s, 0, s.len() as int) - 1,
{
    let t = s.update(k, n);
    let len = s.len() as int;
    lemma_unjudged_split(s, 0, k, len);
    lemma_unjudged_split(s, k, k + 1, len);
    lemma_unjudged_split(t, 0, k, len);
    lemma_unjudged_split(t, k, k + 1, len);
    lemma_unjudged_frame(s, t, 0, k);
    lemma_unjudged_frame(s, t, k + 1, len);
    assert(unjudged(s, k, k) == 0);
    assert(unjudged(t, k, k) == 0);
    assert(unjudged(s, k, k + 1) == 1);
    assert(unjudged(t, k, k + 1) == 0);
}

pub proof fn lemma_scan_end_bounds(notes: Seq<Note>, i: int, now: int, w: TimingWindows)
    requires
        0 <= i <= notes.len(),
    ensures
        i <= scan_end(notes, i, now, w) <= notes.len(),
        forall|k: int|
            i <= k < scan_end(notes, i, now, w) ==> notes[k].hit || is_late(notes[k], now, w),
        scan_end(notes, i, now, w) < notes.len() ==> !notes[scan_end(notes, i, now, w)].hit
            && !is_late(notes[scan_end(notes, i, now, w)], now, w),
    decreases notes.len() - i,
{
    if i < notes.len() && (notes[i].hit || is_late(notes[i], now, w)) {
        lemma_scan_end_bounds(notes, i + 1, now, w);
    }
}

/// `update` keeps a game well formed.
pub proof fn lemma_update_wf(m: GameModel, now: int)
    requires
        model_wf(m),
    ensures
        model_wf(model_update(m, now).0),
{
    let j = scan_end(m.notes, m.next_note, now, m.windows);
    lemma_scan_end_bounds(m.notes, m.next_note, now, m.windows);
    lemma_unjudged_judge_range(m.notes, m.next_note, j);
    lemma_unjudged_bound(m.notes, m.next_note, j);
    let r = model_update(m, now).0;
    if !(m.next_note >= m.notes.len() && m.finished_at is Some && now - m.finished_at->0
        >= outro_us()) {
        assert forall|i: int| 0 <= i < r.next_note implies (#[trigger] r.notes[i]).hit by {}
    }
}

/// `judge` keeps a game well formed.
pub proof fn lemma_judge_wf(m: GameModel, t: NoteType, now: int)
    requires
        model_wf(m),
    ensures
        model_wf(model_judge(m, t, now).0),
{
    if m.next_note < m.notes.len() {
        let n = m.notes[m.next_note];
        if !(n.hit || note_us(n) - now > m.windows.miss) {
            lemma_unjudged_update(m.notes, m.next_note, Note { hit: true, ..n });
            lemma_unjudged_bound(m.notes, 0, m.notes.len() as int);
            let r = model_judge(m, t, now).0;
            assert forall|i: int| 0 <= i < r.next_note implies (#[trigger] r.notes[i]).hit by {}
        }
    }
}

// ---------------------------------------------------------------------------
// Laws
// ---------------------------------------------------------------------------

/// A second tick at the same clock time judges nothing more: notes, combo,
/// misses and latest judgement stay as the first tick left them, and no
/// combo-break sound is asked for.
pub proof fn lemma_update_idempotent(m: GameModel, now: int)
    requires
        model_wf(m),
    ensures
        ({
            let m1 = model_update(m, now).0;
            let (m2, r2) = model_update(m1, now);
            &&& m2.notes == m1.notes
            &&& m2.next_note == m1.next_note
            &&& m2.combo == m1.combo
            &&& m2.misses == m1.misses
            &&& m2.latest == m1.latest
            &&& !r2.combo_break
        }),
{
    lemma_update_wf(m, now);
    let m1 = model_update(m, now).0;
    let j = m1.next_note;
    lemma_scan_end_bounds(m1.notes, j, now, m1.windows);
    if j < m1.notes.len() {
        if !(m.next_note >= m.notes.len() && m.finished_at is Some && now - m.finished_at->0
            >= outro_us()) {
            lemma_scan_end_bounds(m.notes, m.next_note, now, m.windows);
            assert(m1.notes[j] == m.notes[j]);
        }
    }
    assert(scan_end(m1.notes, j, now, m1.windows) == j);
    assert(unjudged(m1.notes, j, j) == 0);
    assert(judge_range(m1.notes, j, j) =~= m1.notes);
}

/// Judged notes stay judged, the next note only moves forward, misses never
/// decrease, and no note changes its time or drum, through a tick or a hit.
pub proof fn lemma_progress(m: GameModel, now: int, t: NoteType)
    requires
        model_wf(m),
    ensures
        ({
            let u = model_update(m, now).0;
            let h = model_judge(m, t, now).0;
            &&& u.notes.len() == m.notes.len() && h.notes.len() == m.notes.len()
            &&& u.next_note >= m.next_note && h.next_note == m.next_note
            &&& u.misses >= m.misses && h.misses >= m.misses
            &&& forall|i: int|
                0 <= i < m.notes.len() ==> (m.notes[i].hit ==> u.notes[i].hit && h.notes[i].hit)
                    && u.notes[i].time == m.notes[i].time && h.notes[i].time == m.notes[i].time
                    && u.notes[i].note_type == m.notes[i].note_type && h.notes[i].note_type
                    == m.notes[i].note_type
        }),
{
    lemma_scan_end_bounds(m.notes, m.next_note, now, m.windows);
    lemma_unjudged_bound(m.notes, m.next_note, scan_end(m.notes, m.next_note, now, m.windows));
}

/// Only the next note can be judged by a hit, and nothing else about the notes changes.
pub proof fn lemma_judge_touches_next_only(m: GameModel, t: NoteType, now: int)
    requires
        model_wf(m),
    ensures
        forall|i: int|
            0 <= i < m.notes.len() && i != m.next_note ==> model_judge(m, t, now).0.notes[i]
                == m.notes[i],
{
}

/// Hitting the right drum exactly on time is great whenever the great window is
/// not negative: the combo grows by one and the misses stay.
pub proof fn lemma_on_time_hit_is_great(m: GameModel, now: int)
    requires
        model_wf(m),
        m.next_note < m.notes.len(),
        !m.notes[m.next_note].hit,
        now == note_us(m.notes[m.next_note]),
        m.windows.great >= 0,
        m.windows.miss >= 0,
    ensures
        ({
            let (h, brk) = model_judge(m, m.notes[m.next_note].note_type, now);
            &&& h.latest == Some(Judgement::Great)
            &&& h.combo == m.combo + 1
            &&& h.misses == m.misses
            &&& h.notes[m.next_note].hit
            &&& !brk
        }),
{
}

/// Hitting the wrong drum while the next note is in reach is a miss: the combo
/// is lost and the misses grow by one.
pub proof fn lemma_wrong_drum_misses(m: GameModel, t: NoteType, now: int)
    requires
        model_wf(m),
        m.next_note < m.notes.len(),
        !m.notes[m.next_note].hit,
        note_us(m.notes[m.next_note]) - now <= m.windows.miss,
        t != m.notes[m.next_note].note_type,
    ensures
        ({
            let (h, brk) = model_judge(m, t, now);
            &&& h.latest == Some(Judgement::Miss)
            &&& h.combo == 0
            &&& h.misses == m.misses + 1
            &&& brk == (m.combo >= combo_break_min())
        }),
{
}

/// A note that lies further in the past than the miss window is missed by the
/// next tick.
pub proof fn lemma_late_note_missed(m: GameModel, now: int)
    requires
        model_wf(m),
        m.next_note < m.notes.len(),
        !m.notes[m.next_note].hit,
        is_late(m.notes[m.next_note], now, m.windows),
    ensures
        ({
            let u = model_update(m, now).0;
            &&& u.notes[m.next_note].hit
            &&& u.next_note > m.next_note
            &&& u.misses > m.misses
            &&& u.combo == 0
            &&& u.latest == Some(Judgement::Miss)
        }),
{
    let j = scan_end(m.notes, m.next_note, now, m.windows);
    lemma_scan_end_bounds(m.notes, m.next_note + 1, now, m.windows);
    assert(j == scan_end(m.notes, m.next_note + 1, now, m.windows));
    lemma_unjudged_split(m.notes, m.next_note, m.next_note + 1, j);
    lemma_unjudged_bound(m.notes, m.next_note + 1, j);
    assert(unjudged(m.notes, m.next_note, m.next_note) == 0);
}

/// Hitting the right drum outside the great window but within the ok window
/// is an ok hit: it counts towards the combo like a great one, and the misses
/// stay.
pub proof fn lemma_ok_hit_is_good(m: GameModel, now: int)
    requires
        model_wf(m),
        m.next_note < m.notes.len(),
        !m.notes[m.next_note].hit,
        note_us(m.notes[m.next_note]) - now <= m.windows.miss,
        ({
            let d = note_us(m.notes[m.next_note]) - now;
            m.windows.great < (if d < 0 { -d } else { d }) <= m.windows.ok
        }),
    ensures
        ({
            let (h, brk) = model_judge(m, m.notes[m.next_note].note_type, now);
            &&& h.latest == Some(Judgement::Good)
            &&& h.combo == m.combo + 1
            &&& h.misses == m.misses
            &&& h.notes[m.next_note].hit
            &&& h.next_note == m.next_note
            &&& !brk
        }),
{
    let n = m.notes[m.next_note];
    assert(spec_judgement(n, n.note_type, now, m.windows) == Judgement::Good);
}

/// A hit while the next note is still further ahead than the miss window,
/// or when every note is judged, changes nothing.
pub proof fn lemma_early_hit_ignored(m: GameModel, t: NoteType, now: int)
    requires
        model_wf(m),
        m.next_note >= m.notes.len() || note_us(m.notes[m.next_note]) - now > m.windows.miss,
    ensures
        model_judge(m, t, now) == (m, false),
{
}

/// Every note that `visible_from` gives is unjudged, at or after `i`, and no
/// note from `i` up to it is due after `limit`.
proof fn lemma_visible_sound(notes: Seq<Note>, i: int, limit: int)
    requires
        0 <= i <= notes.len(),
        notes.len() <= 0xFFFF_FFFF,
    ensures
        forall|p: int|
            0 <= p < visible_from(notes, i, limit).len() ==> {
                let x = #[trigger] visible_from(notes, i, limit)[p] as int;
                &&& i <= x < notes.len()
                &&& !notes[x].hit
                &&& forall|y: int| i <= y <= x ==> note_us(notes[y]) <= limit
            },
    decreases notes.len() - i,
{
    if i < notes.len() && note_us(notes[i]) <= limit {
        lemma_visible_sound(notes, i + 1, limit);
        let rest = visible_from(notes, i + 1, limit);
        let r = visible_from(notes, i, limit);
        if !notes[i].hit {
            assert(r == seq![i as usize] + rest);
            assert forall|p: int| 0 < p < r.len() implies r[p] == rest[p - 1] by {}
        }
    }
}

/// `visible_from` gives every unjudged note from `i` on that comes before the
/// first note due after `limit`.
proof fn lemma_visible_complete(notes: Seq<Note>, i: int, limit: int, j: int)
    requires
        0 <= i <= j < notes.len(),
        notes.len() <= 0xFFFF_FFFF,
        !notes[j].hit,
        forall|y: int| i <= y <= j ==> note_us(notes[y]) <= limit,
    ensures
        visible_from(notes, i, limit).contains(j as usize),
    decreases j - i,
{
    let r = visible_from(notes, i, limit);
    assert(note_us(notes[i]) <= limit);
    if i == j {
        assert(r[0] == j as usize);
    } else {
        lemma_visible_complete(notes, i + 1, limit, j);
        let rest = visible_from(notes, i + 1, limit);
        let p = choose|p: int| 0 <= p < rest.len() && rest[p] == j as usize;
        if !notes[i].hit {
            assert(r == seq![i as usize] + rest);
            assert(r[p + 1] == j as usize);
        }
    }
}

/// `visible_from` gives its notes in increasing order.
proof fn lemma_visible_sorted(notes: Seq<Note>, i: int, limit: int)
    requires
        0 <= i <= notes.len(),
        notes.len() <= 0xFFFF_FFFF,
    ensures
        forall|p: int, q: int|
            0 <= p < q < visible_from(notes, i, limit).len() ==> visible_from(notes, i, limit)[p]
                < visible_from(notes, i, limit)[q],
    decreases notes.len() - i,
{
    if i < notes.len() && note_us(notes[i]) <= limit {
        lemma_visible_sorted(notes, i + 1, limit);
        lemma_visible_sound(notes, i + 1, limit);
        let rest = visible_from(notes, i + 1, limit);
        let r = visible_from(notes, i, limit);
        if !notes[i].hit {
            assert(r == seq![i as usize] + rest);
            assert forall|p: int, q: int| 0 <= p < q < r.len() implies r[p] < r[q] by {
                assert(r[q] == rest[q - 1]);
                if p > 0 {
                    assert(r[p] == rest[p - 1]);
                }
            }
        }
    }
}

/// The notes drawn from index `i` on with every note due by `limit` in view:
/// exactly the unjudged notes that come before the first note due after
/// `limit`, whatever their drum or size, in increasing order.
pub proof fn lemma_visible_exact(notes: Seq<Note>, i: int, limit: int)
    requires
        0 <= i <= notes.len(),
        notes.len() <= 0xFFFF_FFFF,
    ensures
        forall|p: int|
            0 <= p < visible_from(notes, i, limit).len() ==> {
                let x = #[trigger] visible_from(notes, i, limit)[p] as int;
                &&& i <= x < notes.len()
                &&& !notes[x].hit
                &&& forall|y: int| i <= y <= x ==> note_us(notes[y]) <= limit
            },
        forall|j: int|
            i <= j < notes.len() && !notes[j].hit && (forall|y: int|
                i <= y <= j ==> note_us(notes[y]) <= limit) ==> visible_from(
                notes,
                i,
                limit,
            ).contains(j as usize),
        forall|p: int, q: int|
            0 <= p < q < visible_from(notes, i, limit).len() ==> visible_from(notes, i, limit)[p]
                < visible_from(notes, i, limit)[q],
{
    lemma_visible_sound(notes, i, limit);
    lemma_visible_sorted(notes, i, limit);
    assert forall|j: int|
        i <= j < notes.len() && !notes[j].hit && (forall|y: int|
            i <= y <= j ==> note_us(notes[y]) <= limit) implies visible_from(
        notes,
        i,
        limit,
    ).contains(j as usize) by {
        lemma_visible_complete(notes, i, limit, j);
    }
}

/// The decimal digits of a number, most significant first.
pub open spec fn decimal(n: nat) -> Seq<char>
    decreases n,
{
    if n < 10 {
        seq!["0123456789"@[n as int]]
    } else {
        decimal(n / 10).push("0123456789"@[(n % 10) as int])
    }
}

/// The decimal text of a number.
pub fn decimal_string(n: u32) -> (s: String)
    ensures
        s@ == decimal(n as nat),
    decreases n,
{
    proof {
        reveal_strlit("0123456789");
    }
    let digits = "0123456789";
    if n < 10 {
        let d = n as usize;
        let s = String::from_str(digits.substring_char(d, d + 1));
        assert(s@ =~= seq!["0123456789"@[n as int]]);
        s
    } else {
        let mut s = decimal_string(n / 10);
        let d = (n % 10) as usize;
        s.append(digits.substring_char(d, d + 1));
        assert(s@ =~= decimal(n as nat / 10).push("0123456789"@[(n % 10) as int]));
        s
    }
}

// ---------------------------------------------------------------------------
// The game
// ---------------------------------------------------------------------------

/// A game in progress.
pub struct Game {
    beatmap: Beatmap,
    // index of next note to be judged
    next_note: usize,
    combo: u32,
    misses: u32,
    latest_judgement: Option<Judgement>,
    // clock time in microseconds when every note had been judged
    song_finished_at: Option<i64>,
}

impl View for Game {
    type V = GameModel;

    closed spec fn view(&self) -> GameModel {
        GameModel {
            notes: self.beatmap.notes@,
            windows: self.beatmap.timing_windows,
            next_note: self.next_note as int,
            combo: self.combo as int,
            misses: self.misses as int,
            latest: self.latest_judgement,
            finished_at: match self.song_finished_at {
                Some(t) => Some(t as int),
                None => None,
            },
        }
    }
}

impl Game {
    /// The beatmap's header, as given to `new`.
    pub closed spec fn spec_header(&self) -> MapHeader {
        self.beatmap.header
    }

    /// Starts a game on a beatmap: nothing judged, no combo, no misses.
    pub fn new(beatmap: Beatmap) -> (g: Game)
        requires
            beatmap.notes@.len() <= 0xFFFF_FFFF,
        ensures
            model_wf(g@),
            g@ == (GameModel {
                notes: beatmap.notes@,
                windows: beatmap.timing_windows,
                next_note: 0,
                combo: 0,
                misses: 0,
                latest: None,
                finished_at: None,
            }),
            g.spec_header() == beatmap.header,
    {
        proof {
            lemma_unjudged_bound(beatmap.notes@, 0, beatmap.notes@.len() as int);
        }
        Game {
            beatmap,
            next_note: 0,
            combo: 0,
            misses: 0,
            latest_judgement: None,
            song_finished_at: None,
        }
    }

    /// One tick at clock time `now_us` (see `model_update`).
    pub fn update(&mut self, now_us: i64) -> (r: TickResult)
        requires
            model_wf(old(self)@),
        ensures
            model_wf(final(self)@),
            (final(self)@, r) == model_update(old(self)@, now_us as int),
            final(self).spec_header() == old(self).spec_header(),
    {
        let ghost m = self@;
        proof {
            lemma_update_wf(m, now_us as int);
        }
        let len = self.beatmap.notes.len();
        if self.next_note >= len {
            match self.song_finished_at {
                None => {
                    self.song_finished_at = Some(now_us);
                },
                Some(t) => {
                    if (now_us as i128) - (t as i128) >= 5_000_000 {
                        return TickResult { finished: true, combo_break: false };
                    }
                },
            }
        }
        let ghost w = m.windows;
        let ghost start = m.next_note;
        let ghost fin = self.song_finished_at;
        let miss_window = self.beatmap.timing_windows.miss;
        let mut missed: u32 = 0;
        proof {
            lemma_scan_end_bounds(m.notes, start, now_us as int, w);
            assert(self.beatmap.notes@ =~= judge_range(m.notes, start, start));
        }
        while self.next_note < len
            invariant
                len == self.beatmap.notes@.len(),
                len == m.notes.len(),
                model_wf(m),
                w == m.windows,
                miss_window == w.miss,
                start == m.next_note,
                start <= self.next_note <= len,
                scan_end(m.notes, start, now_us as int, w) == scan_end(
                    m.notes,
                    self.next_note as int,
                    now_us as int,
                    w,
                ),
                self.beatmap.notes@ == judge_range(m.notes, start, self.next_note as int),
                missed as int == unjudged(m.notes, start, self.next_note as int),
                m.misses + unjudged(m.notes, start, self.next_note as int) <= 0xFFFF_FFFF,
                self.beatmap.timing_windows == m.windows,
                self.combo as int == m.combo,
                self.misses as int == m.misses,
                self.latest_judgement == m.latest,
                self.song_finished_at == fin,
                self.beatmap.header == old(self).beatmap.header,
            ensures
                self.next_note as int == scan_end(m.notes, start, now_us as int, w),
                self.beatmap.notes@ == judge_range(m.notes, start, self.next_note as int),
                missed as int == unjudged(m.notes, start, self.next_note as int),
            decreases len - self.next_note,
        {
            let i = self.next_note;
            let note = self.beatmap.notes[i];
            proof {
                lemma_scan_end_bounds(m.notes, i as int, now_us as int, w);
                lemma_unjudged_split(m.notes, 0, start, len as int);
                lemma_unjudged_split(m.notes, start, i as int + 1, len as int);
                lemma_unjudged_split(m.notes, start, i as int, i as int + 1);
                lemma_unjudged_bound(m.notes, i as int + 1, len as int);
                lemma_unjudged_bound(m.notes, 0, start);
            }
            if note.hit {
                self.next_note = i + 1;
                proof {
                    assert(self.beatmap.notes@ =~= judge_range(m.notes, start, i + 1));
                }
            } else if (now_us as i128) - (note.time as i128) * 1000 > miss_window as i128 {
                self.beatmap.notes.set(i, Note { hit: true, ..note });
                missed = missed + 1;
                self.next_note = i + 1;
                proof {
                    assert(self.beatmap.notes@ =~= judge_range(m.notes, start, i + 1));
                }
            } else {
                break;
            }
        }
        if missed > 0 {
            let combo_break = self.combo >= 20;
            self.combo = 0;
            self.misses = self.misses + missed;
            self.latest_judgement = Some(Judgement::Miss);
            TickResult { finished: false, combo_break }
        } else {
            TickResult { finished: false, combo_break: false }
        }
    }

    /// Hitting drum `note_type` at clock time `now_us` (see `model_judge`); the
    /// result asks for the combo-break sound.
    pub fn judge(&mut self, note_type: NoteType, now_us: i64) -> (combo_break: bool)
        requires
            model_wf(old(self)@),
        ensures
            model_wf(final(self)@),
            (final(self)@, combo_break) == model_judge(old(self)@, note_type, now_us as int),
            final(self).spec_header() == old(self).spec_header(),
    {
        let ghost m = self@;
        proof {
            lemma_judge_wf(m, note_type, now_us as int);
        }
        let len = self.beatmap.notes.len();
        if self.next_note >= len {
            return false;
        }
        let i = self.next_note;
        let note = self.beatmap.notes[i];
        let windows = self.beatmap.timing_windows;
        let d = (note.time as i128) * 1000 - (now_us as i128);
        if note.hit || d > windows.miss as i128 {
            return false;
        }
        let delta = if d < 0 {
            -d
        } else {
            d
        };
        self.beatmap.notes.set(i, Note { hit: true, ..note });
        let judgement = if note.note_type != note_type {
            Judgement::Miss
        } else if delta <= windows.great as i128 {
            Judgement::Great
        } else if delta <= windows.ok as i128 {
            Judgement::Good
        } else {
            Judgement::Miss
        };
        proof {
            lemma_unjudged_update(m.notes, i as int, Note { hit: true, ..note });
            lemma_unjudged_bound(m.notes, 0, len as int);
            lemma_unjudged_bound(self.beatmap.notes@, 0, len as int);
        }
        let combo_break = match judgement {
            Judgement::Miss => {
                let b = self.combo >= 20;
                self.combo = 0;
                self.misses = self.misses + 1;
                b
            },
            _ => {
                self.combo = self.combo + 1;
                false
            },
        };
        self.latest_judgement = Some(judgement);
        combo_break
    }

    /// Indices of the notes to draw at clock time `now_us`: unjudged notes from
    /// the next one on, up to the first note due more than 1.4 s ahead.
    pub fn visible_notes(&self, now_us: i64) -> (r: Vec<usize>)
        requires
            model_wf(self@),
        ensures
            r@ == visible_from(self@.notes, self@.next_note, now_us as int + visible_ahead_us()),
    {
        let len = self.beatmap.notes.len();
        let limit = (now_us as i128) + 1_400_000;
        let mut r: Vec<usize> = Vec::new();
        let mut i = self.next_note;
        let ghost notes = self@.notes;
        let ghost lim = now_us as int + visible_ahead_us();
        while i < len
            invariant
                len == notes.len(),
                notes == self.beatmap.notes@,
                notes == self@.notes,
                self@.next_note == self.next_note as int,
                lim == now_us as int + visible_ahead_us(),
                limit as int == lim,
                self.next_note <= i <= len,
                r@ + visible_from(notes, i as int, lim) == visible_from(
                    notes,
                    self.next_note as int,
                    lim,
                ),
            decreases len - i,
        {
            let note = self.beatmap.notes[i];
            if (note.time as i128) * 1000 > limit {
                assert(visible_from(notes, i as int, lim) =~= Seq::<usize>::empty());
                assert(r@ =~= r@ + Seq::<usize>::empty());
                assert(r@ == visible_from(notes, self.next_note as int, lim));
                return r;
            }
            if !note.hit {
                r.push(i);
                assert(seq![i] + visible_from(notes, i + 1, lim) == visible_from(
                    notes,
                    i as int,
                    lim,
                ));
                assert(r@ + visible_from(notes, i + 1, lim) =~= r@.drop_last() + (seq![i]
                    + visible_from(notes, i + 1, lim)));
            }
            i = i + 1;
        }
        assert(r@ =~= r@ + visible_from(notes, i as int, lim));
        r
    }

    /// The header line: `artist - title [difficulty]`.
    pub fn title_line(&self) -> (s: String)
        ensures
            s@ == self.spec_header().artist@ + " - "@ + self.spec_header().title@ + " ["@
                + self.spec_header().diff_name@ + "]"@,
    {
        let h = &self.beatmap.header;
        let mut s = String::new();
        s.append(h.artist.as_str());
        s.append(" - ");
        s.append(h.title.as_str());
        s.append(" [");
        s.append(h.diff_name.as_str());
        s.append("]");
        assert(s@ =~= self.spec_header().artist@ + " - "@ + self.spec_header().title@ + " ["@
            + self.spec_header().diff_name@ + "]"@);
        s
    }

    /// The status line: `<combo>x    <misses> misses    esc: exit`.
    pub fn status_line(&self) -> (s: String)
        ensures
            s@ == decimal(self@.combo as nat) + "x    "@ + decimal(self@.misses as nat)
                + " misses    esc: exit"@,
    {
        let mut s = decimal_string(self.combo);
        s.append("x    ");
        let m = decimal_string(self.misses);
        s.append(m.as_str());
        s.append(" misses    esc: exit");
        assert(s@ =~= decimal(self@.combo as nat) + "x    "@ + decimal(self@.misses as nat)
            + " misses    esc: exit"@);
        s
    }

    /// The header of the map being played.
    pub fn header(&self) -> (h: &MapHeader)
        ensures
            *h == self.spec_header(),
    {
        &self.beatmap.header
    }

    /// The notes of the map, with their judged flags.
    pub fn notes(&self) -> (n: &Vec<Note>)
        ensures
            n@ == self@.notes,
    {
        &self.beatmap.notes
    }

    /// The current combo.
    pub fn combo(&self) -> (c: u32)
        ensures
            c as int == self@.combo,
    {
        self.combo
    }

    /// The number of missed notes.
    pub fn misses(&self) -> (c: u32)
        ensures
            c as int == self@.misses,
    {
        self.misses
    }

    /// The most recent judgement, if any.
    pub fn latest_judgement(&self) -> (j: Option<Judgement>)
        ensures
            j == self@.latest,
    {
        self.latest_judgement
    }
}

} // verus!
