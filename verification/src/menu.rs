//! The song menu: songs with their difficulties, one song expanded at a time,
//! and a cursor on the rows.
use vstd::prelude::*;
use crate::beatmap::{HeaderModel, MapHeader};

verus! {

/// One difficulty of a song: its map file and header.
#[derive(Debug)]
pub struct DiffEntry {
    pub path: String,
    pub header: MapHeader,
}

/// A song: its directory, the title and artist of its first difficulty, and
/// its difficulties.
#[derive(Debug)]
pub struct SongEntry {
    pub dir: String,
    pub title: String,
    pub artist: String,
    pub diffs: Vec<DiffEntry>,
}

/// A row of the menu: a song, or a difficulty of the expanded song.
#[derive(Debug, Clone, Copy, PartialEq, Eq, Structural)]
pub enum Row {
    Song(usize),
    Diff(usize, usize),
}

/// The song of a row.
pub open spec fn row_song(r: Row) -> int {
    match r {
        Row::Song(i) => i as int,
        Row::Diff(i, _) => i as int,
    }
}

/// The rows of song `i`: the song, then its difficulties when it is expanded.
pub open spec fn song_rows(songs: Seq<SongEntry>, expanded: Option<usize>, i: int) -> Seq<Row> {
    seq![Row::Song(i as usize)] + if expanded == Some(i as usize) {
        Seq::new(songs[i].diffs@.len(), |d: int| Row::Diff(i as usize, d as usize))
    } else {
        Seq::empty()
    }
}

/// The rows of the first `k` songs.
pub open spec fn rows_upto(songs: Seq<SongEntry>, expanded: Option<usize>, k: int) -> Seq<Row>
    decreases k,
{
    if k <= 0 {
        Seq::empty()
    } else {
        rows_upto(songs, expanded, k - 1) + song_rows(songs, expanded, k - 1)
    }
}

/// The rows of the menu: each song in order, the expanded one followed by its
/// difficulties.
pub open spec fn menu_rows(songs: Seq<SongEntry>, expanded: Option<usize>) -> Seq<Row> {
    rows_upto(songs, expanded, songs.len() as int)
}

/// The row index of song `i`.
pub open spec fn song_row_index(songs: Seq<SongEntry>, expanded: Option<usize>, i: int) -> int {
    rows_upto(songs, expanded, i).len() as int
}

/// A row that names an existing song, or an existing difficulty of the expanded song.
pub open spec fn row_ok(songs: Seq<SongEntry>, expanded: Option<usize>, r: Row) -> bool {
    match r {
        Row::Song(i) => i < songs.len(),
        Row::Diff(i, d) => i < songs.len() && expanded == Some(i) && d < songs[i as int].diffs@.len(),
    }
}

/// The row under the cursor, if the cursor is on a row.
pub open spec fn selected_row(rows: Seq<Row>, state: Option<usize>) -> Option<Row> {
    match state {
        Some(i) => if i < rows.len() {
            Some(rows[i as int])
        } else {
            None
        },
        None => None,
    }
}

/// Expanding a song collapses it when it was expanded.
pub open spec fn toggled(expanded: Option<usize>, i: usize) -> Option<usize> {
    if expanded == Some(i) {
        None
    } else {
        Some(i)
    }
}

/// The cursor moved by `delta` rows, wrapping around `len` rows.
pub open spec fn moved(state: Option<usize>, len: nat, delta: int) -> Option<usize> {
    if len == 0 {
        state
    } else {
        let cur = match state {
            Some(i) => i as int,
            None => 0,
        };
        Some(((cur + delta) % (len as int)) as usize)
    }
}

// ---------------------------------------------------------------------------
// Lemmas
// ---------------------------------------------------------------------------

pub proof fn lemma_rows_prefix(songs: Seq<SongEntry>, expanded: Option<usize>, k: int, m: int)
    requires
        0 <= k <= m <= usize::MAX,
    ensures
        rows_upto(songs, expanded, m).len() >= rows_upto(songs, expanded, k).len(),
        k < m ==> rows_upto(songs, expanded, m).len() > rows_upto(songs, expanded, k).len(),
        forall|j: int|
            0 <= j < rows_upto(songs, expanded, k).len() ==> #[trigger] rows_upto(
                songs,
                expanded,
                m,
            )[j] == rows_upto(songs, expanded, k)[j],
        k < m ==> rows_upto(songs, expanded, m)[rows_upto(songs, expanded, k).len() as int]
            == Row::Song(k as usize),
    decreases m - k,
{
    if k < m {
        lemma_rows_prefix(songs, expanded, k, m - 1);
        let a = rows_upto(songs, expanded, m - 1);
        let b = song_rows(songs, expanded, m - 1);
        assert(rows_upto(songs, expanded, m) == a + b);
        if k == m - 1 {
            assert((a + b)[a.len() as int] == b[0]);
        }
    }
}

pub proof fn lemma_rows_valid(songs: Seq<SongEntry>, expanded: Option<usize>, k: int)
    requires
        0 <= k <= songs.len(),
        songs.len() <= usize::MAX,
        forall|i: int| 0 <= i < songs.len() ==> songs[i].diffs@.len() <= usize::MAX,
    ensures
        forall|j: int|
            0 <= j < rows_upto(songs, expanded, k).len() ==> row_ok(
                songs,
                expanded,
                #[trigger] rows_upto(songs, expanded, k)[j],
            ) && row_song(rows_upto(songs, expanded, k)[j]) < k,
    decreases k,
{
    if k > 0 {
        lemma_rows_valid(songs, expanded, k - 1);
        let a = rows_upto(songs, expanded, k - 1);
        let b = song_rows(songs, expanded, k - 1);
        assert forall|j: int| 0 <= j < (a + b).len() implies row_ok(
            songs,
            expanded,
            #[trigger] (a + b)[j],
        ) && row_song((a + b)[j]) < k by {
            if j >= a.len() {
                let jj = j - a.len();
                if jj > 0 {
                    assert(b[jj] == Row::Diff((k - 1) as usize, (jj - 1) as usize));
                }
            }
        }
    }
}

/// Song `i` sits at `song_row_index`, and at no earlier row.
pub proof fn lemma_song_row_index(songs: Seq<SongEntry>, expanded: Option<usize>, i: int)
    requires
        0 <= i < songs.len(),
        songs.len() <= usize::MAX,
        forall|k: int| 0 <= k < songs.len() ==> songs[k].diffs@.len() <= usize::MAX,
    ensures
        0 <= song_row_index(songs, expanded, i) < menu_rows(songs, expanded).len(),
        menu_rows(songs, expanded)[song_row_index(songs, expanded, i)] == Row::Song(i as usize),
        forall|j: int|
            0 <= j < song_row_index(songs, expanded, i) ==> menu_rows(songs, expanded)[j]
                != Row::Song(i as usize),
{
    lemma_rows_prefix(songs, expanded, i, songs.len() as int);
    lemma_rows_valid(songs, expanded, i);
    assert forall|j: int| 0 <= j < song_row_index(songs, expanded, i) implies menu_rows(
        songs,
        expanded,
    )[j] != Row::Song(i as usize) by {
        assert(menu_rows(songs, expanded)[j] == rows_upto(songs, expanded, i)[j]);
    }
}

/// Wrapping a cursor move is undone by the opposite move.
pub proof fn lemma_moved_back(s: int, len: int, delta: int)
    requires
        0 <= s < len,
    ensures
        (((s + delta) % len) - delta) % len == s,
{
    vstd::arithmetic::div_mod::lemma_sub_mod_noop(s + delta, delta, len);
    vstd::arithmetic::div_mod::lemma_sub_mod_noop_right((s + delta) % len, delta, len);
    vstd::arithmetic::div_mod::lemma_small_mod(s as nat, len as nat);
}

// ---------------------------------------------------------------------------
// Laws
// ---------------------------------------------------------------------------

/// A cursor move on a non-empty menu lands on a row, and the opposite move
/// brings the cursor back to where it was.
pub proof fn lemma_move_undo(state: usize, len: nat, delta: int)
    requires
        state < len,
        len <= usize::MAX,
    ensures
        moved(Some(state), len, delta) matches Some(s1) && s1 < len,
        moved(moved(Some(state), len, delta), len, -delta) == Some(state),
{
    let l = len as int;
    let a = (state + delta) % l;
    vstd::arithmetic::div_mod::lemma_mod_bound(state + delta, l);
    assert(0 <= a < l);
    assert((a as usize) as int == a);
    lemma_moved_back(state as int, l, delta);
    assert((a + (-delta)) == a - delta);
}

/// Activating a song twice, when it or no song was expanded, leaves the menu as
/// it was: the same song expanded (or none), the same rows, and the cursor back
/// on the song.  After the first activation the cursor is on the song, so the
/// second one applies to it.
pub proof fn lemma_activate_twice(
    songs: Seq<SongEntry>,
    expanded: Option<usize>,
    state: Option<usize>,
    i: usize,
)
    requires
        songs.len() <= usize::MAX,
        forall|k: int| 0 <= k < songs.len() ==> (#[trigger] songs[k]).diffs@.len() <= usize::MAX,
        selected_row(menu_rows(songs, expanded), state) == Some(Row::Song(i)),
        expanded is None || expanded == Some(i),
        menu_rows(songs, toggled(expanded, i)).len() <= usize::MAX,
    ensures
        i < songs.len(),
        selected_row(
            menu_rows(songs, toggled(expanded, i)),
            Some(song_row_index(songs, toggled(expanded, i), i as int) as usize),
        ) == Some(Row::Song(i)),
        toggled(toggled(expanded, i), i) == expanded,
        menu_rows(songs, toggled(toggled(expanded, i), i)) == menu_rows(songs, expanded),
        state == Some(song_row_index(songs, toggled(toggled(expanded, i), i), i as int) as usize),
{
    lemma_rows_valid(songs, expanded, songs.len() as int);
    let p = state->0;
    assert(row_ok(songs, expanded, menu_rows(songs, expanded)[p as int]));
    lemma_song_row_index(songs, expanded, i as int);
    lemma_song_row_index(songs, toggled(expanded, i), i as int);
    lemma_rows_prefix(songs, expanded, i as int, songs.len() as int);
    lemma_rows_valid(songs, expanded, i as int);
    let idx = song_row_index(songs, expanded, i as int);
    if (p as int) < idx {
        assert(menu_rows(songs, expanded)[p as int] != Row::Song(i));
    } else if (p as int) > idx {
        // rows after the song's own row belong to it or to later songs
        lemma_rows_prefix(songs, expanded, i as int + 1, songs.len() as int);
        if (p as int) < rows_upto(songs, expanded, i as int + 1).len() {
            let b = song_rows(songs, expanded, i as int);
            assert(rows_upto(songs, expanded, i as int + 1) == rows_upto(songs, expanded, i as int)
                + b);
            assert(menu_rows(songs, expanded)[p as int] == rows_upto(songs, expanded, i as int
                + 1)[p as int]);
            assert(b[p - idx] == Row::Diff(i, (p - idx - 1) as usize));
        } else {
            lemma_rows_after(songs, expanded, i as int + 1, p as int);
        }
    }
    assert(toggled(toggled(expanded, i), i) == expanded);
}

/// Rows from the end of the first `k` songs on belong to song `k` or later.
pub proof fn lemma_rows_after(songs: Seq<SongEntry>, expanded: Option<usize>, k: int, j: int)
    requires
        0 <= k <= songs.len() <= usize::MAX,
        rows_upto(songs, expanded, k).len() <= j < menu_rows(songs, expanded).len(),
    ensures
        row_song(menu_rows(songs, expanded)[j]) >= k,
    decreases songs.len() - k,
{
    lemma_rows_prefix(songs, expanded, k, songs.len() as int);
    if k < songs.len() {
        lemma_rows_prefix(songs, expanded, k + 1, songs.len() as int);
        let a = rows_upto(songs, expanded, k);
        let b = song_rows(songs, expanded, k);
        assert(rows_upto(songs, expanded, k + 1) == a + b);
        if j < (a + b).len() {
            assert(menu_rows(songs, expanded)[j] == (a + b)[j]);
            if j > a.len() {
                assert(b[j - a.len()] == Row::Diff(k as usize, (j - a.len() - 1) as usize));
            }
        } else {
            lemma_rows_after(songs, expanded, k + 1, j);
        }
    } else {
        assert(rows_upto(songs, expanded, k).len() == menu_rows(songs, expanded).len());
    }
}

// ---------------------------------------------------------------------------
// Building the song list
// ---------------------------------------------------------------------------

/// The lower-case form that `str::to_lowercase` gives of a text.
pub uninterp spec fn spec_lowercase(s: Seq<char>) -> Seq<char>;

/// Calls `str::to_lowercase`; the result is `spec_lowercase` of the argument.
#[verifier::external_body]
fn lowercase(s: &str) -> (r: String)
    ensures
        r@ == spec_lowercase(s@),
{
    s.to_lowercase()
}

/// Strict order of texts: by code point, a proper prefix first (the order of
/// `str`, whose UTF-8 bytes compare as the code points do).
pub open spec fn text_less(a: Seq<char>, b: Seq<char>) -> bool
    decreases a.len(),
{
    if a.len() == 0 {
        b.len() > 0
    } else if b.len() == 0 {
        false
    } else if a[0] < b[0] {
        true
    } else if a[0] != b[0] {
        false
    } else {
        text_less(a.drop_first(), b.drop_first())
    }
}

/// Songs are ordered by lower-case artist, then by lower-case title.
pub open spec fn song_key(s: SongEntry) -> (Seq<char>, Seq<char>) {
    (spec_lowercase(s.artist@), spec_lowercase(s.title@))
}

pub open spec fn key_less(a: (Seq<char>, Seq<char>), b: (Seq<char>, Seq<char>)) -> bool {
    text_less(a.0, b.0) || (a.0 == b.0 && text_less(a.1, b.1))
}

/// No song is followed by one with a smaller key.
pub open spec fn sorted_by_key(s: Seq<SongEntry>) -> bool {
    forall|i: int, j: int| 0 <= i < j < s.len() ==> !key_less(song_key(s[j]), song_key(s[i]))
}

/// The songs with key `k`.
pub open spec fn has_key(k: (Seq<char>, Seq<char>)) -> spec_fn(SongEntry) -> bool {
    |x: SongEntry| song_key(x) == k
}

pub proof fn lemma_text_less_irrefl(a: Seq<char>)
    ensures
        !text_less(a, a),
    decreases a.len(),
{
    if a.len() > 0 {
        lemma_text_less_irrefl(a.drop_first());
    }
}

pub proof fn lemma_text_less_trans(a: Seq<char>, b: Seq<char>, c: Seq<char>)
    requires
        text_less(a, b),
        text_less(b, c),
    ensures
        text_less(a, c),
    decreases a.len(),
{
    if a.len() > 0 && b.len() > 0 && c.len() > 0 && a[0] == b[0] && b[0] == c[0] {
        lemma_text_less_trans(a.drop_first(), b.drop_first(), c.drop_first());
    }
}

pub proof fn lemma_text_less_total(a: Seq<char>, b: Seq<char>)
    ensures
        text_less(a, b) || text_less(b, a) || a == b,
    decreases a.len(),
{
    if a.len() > 0 && b.len() > 0 {
        if a[0] == b[0] {
            lemma_text_less_total(a.drop_first(), b.drop_first());
            if a.drop_first() == b.drop_first() {
                assert(a =~= seq![a[0]] + a.drop_first());
                assert(b =~= seq![b[0]] + b.drop_first());
            }
        }
    } else if a.len() == 0 && b.len() == 0 {
        assert(a =~= b);
    }
}

pub proof fn lemma_text_less_asym(a: Seq<char>, b: Seq<char>)
    requires
        text_less(a, b),
    ensures
        !text_less(b, a),
{
    if text_less(b, a) {
        lemma_text_less_trans(a, b, a);
        lemma_text_less_irrefl(a);
    }
}

/// If `a` is below `b` and `c` is not below `b`, then `a` is below `c`.
pub proof fn lemma_key_less_le(a: (Seq<char>, Seq<char>), b: (Seq<char>, Seq<char>), c: (
    Seq<char>,
    Seq<char>,
))
    requires
        key_less(a, b),
        !key_less(c, b),
    ensures
        key_less(a, c),
{
    lemma_text_less_total(c.0, b.0);
    lemma_text_less_total(c.1, b.1);
    if text_less(a.0, b.0) {
        if text_less(b.0, c.0) {
            lemma_text_less_trans(a.0, b.0, c.0);
        }
    } else {
        if text_less(b.0, c.0) {
        } else if text_less(b.1, c.1) {
            lemma_text_less_trans(a.1, b.1, c.1);
        }
    }
}

pub proof fn lemma_key_less_asym(a: (Seq<char>, Seq<char>), b: (Seq<char>, Seq<char>))
    requires
        key_less(a, b),
    ensures
        !key_less(b, a),
        a != b,
{
    if text_less(a.0, b.0) {
        lemma_text_less_asym(a.0, b.0);
        lemma_text_less_irrefl(a.0);
    } else {
        lemma_text_less_asym(a.1, b.1);
        lemma_text_less_irrefl(a.1);
        lemma_text_less_irrefl(a.0);
    }
}

/// `text_less` on two character vectors.
fn text_less_exec(a: &Vec<char>, b: &Vec<char>) -> (r: bool)
    ensures
        r == text_less(a@, b@),
{
    let mut i: usize = 0;
    assert(a@.skip(0) =~= a@);
    assert(b@.skip(0) =~= b@);
    while i < a.len() && i < b.len() && a[i] == b[i]
        invariant
            i <= a@.len(),
            i <= b@.len(),
            text_less(a@, b@) == text_less(a@.skip(i as int), b@.skip(i as int)),
        decreases a@.len() - i,
    {
        assert(a@.skip(i as int).drop_first() =~= a@.skip(i as int + 1));
        assert(b@.skip(i as int).drop_first() =~= b@.skip(i as int + 1));
        i = i + 1;
    }
    if i == a.len() {
        i < b.len()
    } else if i == b.len() {
        false
    } else {
        a[i] < b[i]
    }
}

/// The sort key of a song, as characters.
fn key_of(s: &SongEntry) -> (k: (Vec<char>, Vec<char>))
    ensures
        (k.0@, k.1@) == song_key(*s),
{
    let artist = lowercase(s.artist.as_str());
    let title = lowercase(s.title.as_str());
    (crate::text::chars_of(artist.as_str()), crate::text::chars_of(title.as_str()))
}

fn key_less_exec(a: &(Vec<char>, Vec<char>), b: &(Vec<char>, Vec<char>)) -> (r: bool)
    ensures
        r == key_less((a.0@, a.1@), (b.0@, b.1@)),
{
    if text_less_exec(&a.0, &b.0) {
        true
    } else if a.0.len() == b.0.len() && !text_less_exec(&b.0, &a.0) {
        proof {
            lemma_text_less_total(a.0@, b.0@);
        }
        text_less_exec(&a.1, &b.1)
    } else {
        false
    }
}

/// Sorts songs by lower-case artist, then lower-case title, keeping the order of
/// songs with equal keys: the result holds the same songs, sorted, and for each
/// key its songs in the order they were given.
pub fn sort_songs(songs: Vec<SongEntry>) -> (r: Vec<SongEntry>)
    ensures
        sorted_by_key(r@),
        r@.to_multiset() == songs@.to_multiset(),
        forall|k: (Seq<char>, Seq<char>)| #[trigger] r@.filter(has_key(k)) == songs@.filter(has_key(k)),
{
    broadcast use vstd::seq_lib::to_multiset_insert, vstd::seq_lib::to_multiset_build;

    let ghost orig = songs@;
    let mut input = songs;
    let mut out: Vec<SongEntry> = Vec::new();
    let mut keys: Vec<(Vec<char>, Vec<char>)> = Vec::new();
    let ghost mut taken: int = 0;
    assert(orig.skip(0) =~= orig);
    assert(orig.take(0) =~= Seq::<SongEntry>::empty());
    while input.len() > 0
        invariant
            0 <= taken <= orig.len(),
            input@ == orig.skip(taken),
            keys@.len() == out@.len(),
            forall|j: int| 0 <= j < out@.len() ==> (#[trigger] keys@[j]).0@ == song_key(out@[j]).0 && keys@[j].1@ == song_key(out@[j]).1,
            sorted_by_key(out@),
            out@.to_multiset() == orig.take(taken).to_multiset(),
            forall|k: (Seq<char>, Seq<char>)| #[trigger] out@.filter(has_key(k)) == orig.take(taken).filter(has_key(k)),
        decreases input@.len(),
    {
        let x = input.remove(0);
        let kx = key_of(&x);
        let ghost gk = song_key(x);
        let mut p: usize = 0;
        while p < out.len() && !key_less_exec(&kx, &keys[p])
            invariant
                p <= out@.len(),
                keys@.len() == out@.len(),
                forall|j: int| 0 <= j < out@.len() ==> (#[trigger] keys@[j]).0@ == song_key(out@[j]).0 && keys@[j].1@ == song_key(out@[j]).1,
                (kx.0@, kx.1@) == gk,
                forall|q: int| 0 <= q < p ==> !key_less(gk, song_key(#[trigger] out@[q])),
            decreases out@.len() - p,
        {
            p = p + 1;
        }
        let ghost old_out = out@;
        let ghost old_keys = keys@;
        proof {
            if p < old_out.len() {
                assert(keys@[p as int].0@ == song_key(old_out[p as int]).0);
                assert forall|q: int| p <= q < old_out.len() implies key_less(gk, song_key(#[trigger] old_out[q])) by {
                    if q > p {
                        lemma_key_less_le(gk, song_key(old_out[p as int]), song_key(old_out[q]));
                    }
                }
            }
            assert(orig.take(taken + 1) =~= orig.take(taken).push(x));
            vstd::seq_lib::to_multiset_insert(old_out, p as int, x);
            vstd::seq_lib::to_multiset_build(orig.take(taken), x);
            assert forall|k: (Seq<char>, Seq<char>)| #[trigger] old_out.insert(p as int, x).filter(has_key(k)) == orig.take(taken + 1).filter(has_key(k)) by {
                let a = old_out.take(p as int);
                let b = old_out.skip(p as int);
                assert(old_out =~= a + b);
                assert(old_out.insert(p as int, x) =~= a + (seq![x] + b));
                Seq::filter_distributes_over_add(a, b, has_key(k));
                Seq::filter_distributes_over_add(a, seq![x] + b, has_key(k));
                b.lemma_filter_prepend(x, has_key(k));
                orig.take(taken).lemma_filter_push(x, has_key(k));
                if k == gk {
                    assert forall|q: int| 0 <= q < b.len() implies !has_key(k)(b[q]) by {
                        lemma_key_less_asym(gk, song_key(old_out[p + q]));
                    }
                    b.lemma_all_neg_filter_empty(has_key(k));
                    assert(seq![x] + b.filter(has_key(k)) =~= seq![x]);
                    assert(a.filter(has_key(k)) + seq![x] =~= a.filter(has_key(k)).push(x));
                    assert(a.filter(has_key(k)) + b.filter(has_key(k)) =~= a.filter(has_key(k)));
                } else {
                    assert(Seq::<SongEntry>::empty() + b.filter(has_key(k)) =~= b.filter(has_key(k)));
                }
            }
        }
        out.insert(p, x);
        keys.insert(p, kx);
        proof {
            old_out.insert_ensures(p as int, x);
            assert forall|i: int, j: int| 0 <= i < j < out@.len() implies !key_less(song_key(out@[j]), song_key(out@[i])) by {
                if j < p {
                } else if j == p {
                    assert(!key_less(gk, song_key(old_out[i])));
                } else if i < p {
                    // old_out[i] <= x < old_out[j - 1]
                    assert(!key_less(gk, song_key(old_out[i])));
                    assert(key_less(gk, song_key(old_out[j - 1])));
                    lemma_key_less_asym(gk, song_key(old_out[j - 1]));
                    if key_less(song_key(old_out[j - 1]), song_key(old_out[i])) {
                        lemma_key_less_le(gk, song_key(old_out[j - 1]), song_key(old_out[i]));
                    }
                } else if i == p {
                    lemma_key_less_asym(gk, song_key(old_out[j - 1]));
                } else {
                    assert(!key_less(song_key(old_out[j - 1]), song_key(old_out[i - 1])));
                }
            }
            assert forall|j: int| 0 <= j < out@.len() implies (#[trigger] keys@[j]).0@ == song_key(out@[j]).0 && keys@[j].1@ == song_key(out@[j]).1 by {
                if j < p {
                } else if j == p {
                } else {
                    assert(keys@[j] == old_keys[j - 1]);
                }
            }
            assert(input@ =~= orig.skip(taken + 1));
            taken = taken + 1;
        }
    }
    assert(orig.take(taken) =~= orig);
    out
}

/// Whether a file name has the extension `osu`, as `Path::extension` reads it:
/// the text after the last dot, when something precedes that dot.
pub open spec fn has_osu_ext(name: Seq<char>) -> bool {
    exists|k: int|
        0 < k < name.len() && name[k] == '.' && (forall|j: int| k < j < name.len() ==> name[j] != '.')
            && name.skip(k + 1) == "osu"@
}

/// Whether a map file's name ends in `.osu` (see `has_osu_ext`).
pub fn has_osu_extension(name: &str) -> (r: bool)
    ensures
        r == has_osu_ext(name@),
{
    let v = crate::text::chars_of(name);
    let osu = crate::text::chars_of("osu");
    let mut k = v.len();
    while k > 0 && v[k - 1] != '.'
        invariant
            k <= v@.len(),
            forall|j: int| k <= j < v@.len() ==> v@[j] != '.',
        decreases k,
    {
        k = k - 1;
    }
    if k <= 1 {
        proof {
            if has_osu_ext(name@) {
                let kk = choose|kk: int|
                    0 < kk < name@.len() && name@[kk] == '.' && (forall|j: int|
                        kk < j < name@.len() ==> name@[j] != '.') && name@.skip(kk + 1) == "osu"@;
                assert(kk < k);
            }
        }
        return false;
    }
    let r = crate::text::range_equals(&v, k, v.len(), &osu);
    proof {
        assert(v@.subrange(k as int, v@.len() as int) =~= v@.skip(k as int));
        if has_osu_ext(name@) {
            let kk = choose|kk: int|
                0 < kk < name@.len() && name@[kk] == '.' && (forall|j: int|
                    kk < j < name@.len() ==> name@[j] != '.') && name@.skip(kk + 1) == "osu"@;
            assert(kk == k - 1);
        }
        if r {
            assert(has_osu_ext(name@)) by {
                assert(0 < k - 1 < name@.len() && name@[k - 1] == '.');
            }
        }
    }
    r
}

/// The difficulties that are played in this mode (mode 1).
pub open spec fn is_taiko(d: DiffEntry) -> bool {
    d.header.mode == 1
}

/// A song from the difficulties found in its directory: those in mode 1, in
/// the order given, titled after the first of them; `None` when there is none.
pub fn collect_song(dir: String, diffs: Vec<DiffEntry>) -> (r: Option<SongEntry>)
    ensures
        match r {
            None => diffs@.filter(|d: DiffEntry| is_taiko(d)).len() == 0,
            Some(s) => {
                &&& s.dir@ == dir@
                &&& s.diffs@ == diffs@.filter(|d: DiffEntry| is_taiko(d))
                &&& s.diffs@.len() > 0
                &&& s.title@ == s.diffs@[0].header.title@
                &&& s.artist@ == s.diffs@[0].header.artist@
            },
        },
{
    let ghost pred = |d: DiffEntry| is_taiko(d);
    let ghost orig = diffs@;
    let mut input = diffs;
    let mut kept: Vec<DiffEntry> = Vec::new();
    let ghost mut taken: int = 0;
    assert(orig.skip(0) =~= orig);
    assert(orig.take(0) =~= Seq::<DiffEntry>::empty());
    while input.len() > 0
        invariant
            0 <= taken <= orig.len(),
            input@ == orig.skip(taken),
            kept@ == orig.take(taken).filter(pred),
            pred == (|d: DiffEntry| is_taiko(d)),
        decreases input@.len(),
    {
        let d = input.remove(0);
        proof {
            assert(orig.take(taken + 1) =~= orig.take(taken).push(d));
            orig.take(taken).lemma_filter_push(d, pred);
            assert(input@ =~= orig.skip(taken + 1));
            taken = taken + 1;
        }
        if d.header.mode == 1 {
            kept.push(d);
        }
    }
    assert(orig.take(taken) =~= orig);
    if kept.len() == 0 {
        return None;
    }
    let title = kept[0].header.title.clone();
    let artist = kept[0].header.artist.clone();
    Some(SongEntry { dir, title, artist, diffs: kept })
}

// ---------------------------------------------------------------------------
// The menu
// ---------------------------------------------------------------------------

/// The song menu.  `state` is the index of the row under the cursor.
pub struct Menu {
    pub songs: Vec<SongEntry>,
    pub expanded: Option<usize>,
    pub rows: Vec<Row>,
    pub state: Option<usize>,
}

/// How a piece of menu text is shown.
#[derive(Debug, Clone, Copy, PartialEq, Eq, Structural)]
pub enum Tone {
    Plain,
    Bold,
    Dim,
}

/// A piece of menu text and how it is shown.
#[derive(Debug)]
pub struct Piece {
    pub text: String,
    pub tone: Tone,
}

/// The texts and tones of pieces.
pub open spec fn pieces_view(v: Seq<Piece>) -> Seq<(Seq<char>, Tone)> {
    v.map_values(|p: Piece| (p.text@, p.tone))
}

/// The text of a row: a song is its expansion marker, its title in bold and
/// its artist dimmed; a difficulty is its name, indented under a bullet.
pub open spec fn row_label(songs: Seq<SongEntry>, expanded: Option<usize>, r: Row) -> Seq<
    (Seq<char>, Tone),
> {
    match r {
        Row::Song(i) => seq![
            (if expanded == Some(i) {
                "\u{25bc} "@
            } else {
                "\u{25b6} "@
            }, Tone::Plain),
            (songs[i as int].title@, Tone::Bold),
            (" - "@ + songs[i as int].artist@, Tone::Dim),
        ],
        Row::Diff(i, d) => seq![
            ("    \u{25e6} "@ + songs[i as int].diffs@[d as int].header.diff_name@, Tone::Plain),
        ],
    }
}

/// A song row shows the expanded arrow exactly when that song is the expanded
/// one, and the collapsed arrow otherwise, then the song's title in bold and
/// its artist dimmed; a difficulty row shows the difficulty's name under a
/// bullet.
pub proof fn lemma_row_label_marks(songs: Seq<SongEntry>, expanded: Option<usize>, i: usize, d: usize)
    requires
        i < songs.len(),
    ensures
        row_label(songs, expanded, Row::Song(i)).len() == 3,
        expanded == Some(i) ==> row_label(songs, expanded, Row::Song(i))[0] == (
            "\u{25bc} "@,
            Tone::Plain,
        ),
        expanded != Some(i) ==> row_label(songs, expanded, Row::Song(i))[0] == (
            "\u{25b6} "@,
            Tone::Plain,
        ),
        row_label(songs, expanded, Row::Song(i))[1] == (songs[i as int].title@, Tone::Bold),
        row_label(songs, expanded, Row::Song(i))[2] == (
            " - "@ + songs[i as int].artist@,
            Tone::Dim,
        ),
        d < songs[i as int].diffs@.len() ==> row_label(songs, expanded, Row::Diff(i, d)) == seq![
            ("    \u{25e6} "@ + songs[i as int].diffs@[d as int].header.diff_name@, Tone::Plain),
        ],
{
}

/// The lines that describe the selected row: a difficulty's name in bold, its
/// mapper dimmed and a blank line (the overall difficulty follows, written by
/// the caller); a song's title in bold and its artist dimmed; a notice when
/// nothing is selected.
pub open spec fn detail_lines(songs: Seq<SongEntry>, sel: Option<Row>) -> Seq<(Seq<char>, Tone)> {
    match sel {
        Some(Row::Diff(i, d)) => seq![
            (songs[i as int].diffs@[d as int].header.diff_name@, Tone::Bold),
            ("Mapped by "@ + songs[i as int].diffs@[d as int].header.creator@, Tone::Dim),
            (Seq::<char>::empty(), Tone::Plain),
        ],
        Some(Row::Song(i)) => seq![
            (songs[i as int].title@, Tone::Bold),
            (songs[i as int].artist@, Tone::Dim),
        ],
        None => seq![("No maps found"@, Tone::Dim)],
    }
}

fn piece(text: String, tone: Tone) -> (p: Piece)
    ensures
        p.text@ == text@,
        p.tone == tone,
{
    Piece { text, tone }
}

fn joined(a: &str, b: &str) -> (s: String)
    ensures
        s@ == a@ + b@,
{
    let mut s = String::new();
    s.append(a);
    s.append(b);
    assert(s@ =~= a@ + b@);
    s
}

/// The details of a selected difficulty are its name in bold, its mapper
/// dimmed and a blank line; of a selected song, its title in bold and its
/// artist dimmed; with nothing selected, a dimmed notice.
pub proof fn lemma_detail_lines(songs: Seq<SongEntry>, sel: Option<Row>)
    requires
        sel matches Some(r) ==> row_song(r) < songs.len(),
        sel matches Some(Row::Diff(i, d)) ==> d < songs[i as int].diffs@.len(),
    ensures
        sel matches Some(Row::Diff(i, d)) ==> {
            let h = songs[i as int].diffs@[d as int].header;
            let l = detail_lines(songs, sel);
            &&& l.len() == 3
            &&& l[0] == (h.diff_name@, Tone::Bold)
            &&& l[1] == ("Mapped by "@ + h.creator@, Tone::Dim)
            &&& l[2] == (Seq::<char>::empty(), Tone::Plain)
        },
        sel matches Some(Row::Song(i)) ==> detail_lines(songs, sel) == seq![
            (songs[i as int].title@, Tone::Bold),
            (songs[i as int].artist@, Tone::Dim),
        ],
        sel is None ==> detail_lines(songs, sel) == seq![("No maps found"@, Tone::Dim)],
{
}

/// `x` modulo `n`, taken in `0..n` (`isize::rem_euclid`).
fn wrap(x: isize, n: usize) -> (r: usize)
    requires
        n > 0,
    ensures
        r as int == (x as int) % (n as int),
        r < n,
{
    if x >= 0 {
        let r = (x as usize) % n;
        r
    } else {
        let y = (-(x + 1)) as usize;
        let m = y % n;
        proof {
            let q = (y as int) / (n as int);
            vstd::arithmetic::div_mod::lemma_fundamental_div_mod(y as int, n as int);
            assert(x as int == (-q - 1) * (n as int) + (n - 1 - m)) by (nonlinear_arith)
                requires
                    y as int == (n as int) * q + m,
                    y as int == -(x + 1),
            ;
            vstd::arithmetic::div_mod::lemma_fundamental_div_mod_converse(
                x as int,
                n as int,
                -q - 1,
                n - 1 - m,
            );
        }
        n - 1 - m
    }
}

impl Menu {
    /// The rows match the songs and the expanded song.
    pub open spec fn wf(&self) -> bool {
        &&& self.rows@ == menu_rows(self.songs@, self.expanded)
        &&& self.songs@.len() <= usize::MAX
        &&& forall|i: int|
            0 <= i < self.songs@.len() ==> (#[trigger] self.songs@[i]).diffs@.len() <= usize::MAX
    }

    /// Rebuilds the rows; with a row to keep, the cursor goes to its first
    /// occurrence, or to the top when it is gone.
    fn rebuild(&mut self, keep: Option<Row>)
        requires
            forall|i: int|
                0 <= i < old(self).songs@.len() ==> (#[trigger] old(self).songs@[i]).diffs@.len()
                    <= usize::MAX,
        ensures
            final(self).wf(),
            final(self).songs == old(self).songs,
            final(self).expanded == old(self).expanded,
            match keep {
                None => final(self).state == old(self).state,
                Some(t) => final(self).state matches Some(p) && ((p < final(self).rows@.len()
                    && final(self).rows@[p as int] == t && forall|q: int|
                    0 <= q < p ==> final(self).rows@[q] != t) || (p == 0 && forall|q: int|
                    0 <= q < final(self).rows@.len() ==> final(self).rows@[q] != t)),
            },
    {
        self.rows.clear();
        let n = self.songs.len();
        let mut i: usize = 0;
        while i < n
            invariant
                n == self.songs@.len(),
                i <= n,
                self.songs == old(self).songs,
                self.expanded == old(self).expanded,
                self.state == old(self).state,
                self.rows@ == rows_upto(self.songs@, self.expanded, i as int),
            decreases n - i,
        {
            self.rows.push(Row::Song(i));
            let ghost base = rows_upto(self.songs@, self.expanded, i as int);
            if self.expanded == Some(i) {
                let nd = self.songs[i].diffs.len();
                let mut d: usize = 0;
                while d < nd
                    invariant
                        nd == self.songs@[i as int].diffs@.len(),
                        d <= nd,
                        i < n,
                        n == self.songs@.len(),
                        self.songs == old(self).songs,
                        self.expanded == old(self).expanded,
                        self.state == old(self).state,
                        self.expanded == Some(i),
                        base == rows_upto(self.songs@, self.expanded, i as int),
                        self.rows@ == base + seq![Row::Song(i)] + Seq::new(
                            d as nat,
                            |k: int| Row::Diff(i, k as usize),
                        ),
                    decreases nd - d,
                {
                    self.rows.push(Row::Diff(i, d));
                    d = d + 1;
                    assert(self.rows@ =~= base + seq![Row::Song(i)] + Seq::new(
                        d as nat,
                        |k: int| Row::Diff(i, k as usize),
                    ));
                }
                assert(self.rows@ =~= rows_upto(self.songs@, self.expanded, i as int + 1));
            } else {
                assert(self.rows@ =~= rows_upto(self.songs@, self.expanded, i as int + 1));
            }
            i = i + 1;
        }
        if let Some(target) = keep {
            let len = self.rows.len();
            let mut p: usize = 0;
            while p < len && self.rows[p] != target
                invariant
                    len == self.rows@.len(),
                    p <= len,
                    forall|q: int| 0 <= q < p ==> self.rows@[q] != target,
                decreases len - p,
            {
                p = p + 1;
            }
            if p < len {
                self.state = Some(p);
            } else {
                self.state = Some(0);
            }
        }
    }

    /// A menu on the songs: none expanded, the cursor on the first row if there is one.
    pub fn new(songs: Vec<SongEntry>) -> (m: Menu)
        requires
            forall|i: int| 0 <= i < songs@.len() ==> (#[trigger] songs@[i]).diffs@.len() <= usize::MAX,
        ensures
            m.wf(),
            m.songs@ == songs@,
            m.expanded is None,
            m.rows@ == menu_rows(songs@, None),
            m.state == (if m.rows@.len() == 0 {
                None::<usize>
            } else {
                Some(0usize)
            }),
    {
        let mut menu = Menu { songs, expanded: None, rows: Vec::new(), state: None };
        menu.rebuild(None);
        menu.state = if menu.rows.len() == 0 {
            None
        } else {
            Some(0)
        };
        menu
    }

    /// The row under the cursor.
    pub fn selected(&self) -> (r: Option<Row>)
        ensures
            r == selected_row(self.rows@, self.state),
    {
        match self.state {
            Some(i) => if i < self.rows.len() {
                Some(self.rows[i])
            } else {
                None
            },
            None => None,
        }
    }

    /// Moves the cursor by `delta` rows, wrapping around; nothing happens when
    /// there are no rows.
    pub fn move_by(&mut self, delta: isize)
        requires
            old(self).state matches Some(s) ==> s <= isize::MAX,
            isize::MIN <= (match old(self).state {
                Some(s) => s as int,
                None => 0,
            }) + delta <= isize::MAX,
        ensures
            final(self).songs == old(self).songs,
            final(self).expanded == old(self).expanded,
            final(self).rows == old(self).rows,
            final(self).state == moved(old(self).state, old(self).rows@.len(), delta as int),
    {
        if self.rows.len() == 0 {
            return;
        }
        let cur: isize = match self.state {
            Some(s) => s as isize,
            None => 0,
        };
        let next = wrap(cur + delta, self.rows.len());
        self.state = Some(next);
    }

    /// On a song row, expands the song (or collapses it if it was expanded) and
    /// keeps the cursor on it; on a difficulty row, gives that difficulty's map
    /// file and header.
    pub fn activate(&mut self) -> (r: Option<(String, MapHeader)>)
        requires
            old(self).wf(),
        ensures
            final(self).wf(),
            final(self).songs == old(self).songs,
            match selected_row(old(self).rows@, old(self).state) {
                None => r is None && *final(self) == *old(self),
                Some(Row::Song(i)) => r is None && final(self).expanded == toggled(
                    old(self).expanded,
                    i,
                ) && final(self).state == Some(
                    song_row_index(old(self).songs@, final(self).expanded, i as int) as usize,
                ),
                Some(Row::Diff(i, d)) => *final(self) == *old(self) && (r matches Some((p, h))
                    && p@ == old(self).songs@[i as int].diffs@[d as int].path@ && h@ == old(
                    self,
                ).songs@[i as int].diffs@[d as int].header@),
            },
    {
        proof {
            lemma_rows_valid(self.songs@, self.expanded, self.songs@.len() as int);
        }
        match self.selected() {
            None => None,
            Some(Row::Song(i)) => {
                self.expanded = if self.expanded == Some(i) {
                    None
                } else {
                    Some(i)
                };
                self.rebuild(Some(Row::Song(i)));
                proof {
                    lemma_song_row_index(self.songs@, self.expanded, i as int);
                }
                None
            },
            Some(Row::Diff(i, d)) => {
                let diff = &self.songs[i].diffs[d];
                Some((diff.path.clone(), diff.header.clone()))
            },
        }
    }

    /// On a difficulty row, collapses its song and puts the cursor on the song.
    pub fn collapse(&mut self)
        requires
            old(self).wf(),
        ensures
            final(self).wf(),
            final(self).songs == old(self).songs,
            match selected_row(old(self).rows@, old(self).state) {
                Some(Row::Diff(i, _)) => final(self).expanded is None && final(self).state == Some(
                    song_row_index(old(self).songs@, None, i as int) as usize,
                ),
                _ => *final(self) == *old(self),
            },
    {
        proof {
            lemma_rows_valid(self.songs@, self.expanded, self.songs@.len() as int);
        }
        if let Some(Row::Diff(i, _)) = self.selected() {
            self.expanded = None;
            self.rebuild(Some(Row::Song(i)));
            proof {
                lemma_song_row_index(self.songs@, self.expanded, i as int);
            }
        }
    }

    /// The audio file and preview time of the difficulty under the cursor.
    pub fn hovered_audio(&self) -> (r: Option<(&str, u32)>)
        requires
            self.wf(),
        ensures
            match selected_row(self.rows@, self.state) {
                Some(Row::Diff(i, d)) => r matches Some((p, t)) && p@ == self.songs@[i as int].diffs@[d as int].header.song_path@
                    && t == self.songs@[i as int].diffs@[d as int].header.preview_ms,
                _ => r is None,
            },
    {
        proof {
            lemma_rows_valid(self.songs@, self.expanded, self.songs@.len() as int);
        }
        match self.selected() {
            Some(Row::Diff(i, d)) => {
                let h = &self.songs[i].diffs[d].header;
                Some((h.song_path.as_str(), h.preview_ms))
            },
            _ => None,
        }
    }

    /// The text of row `k`.
    pub fn row_text(&self, k: usize) -> (r: Vec<Piece>)
        requires
            self.wf(),
            k < self.rows@.len(),
        ensures
            pieces_view(r@) == row_label(self.songs@, self.expanded, self.rows@[k as int]),
    {
        proof {
            lemma_rows_valid(self.songs@, self.expanded, self.songs@.len() as int);
        }
        let mut r: Vec<Piece> = Vec::new();
        match self.rows[k] {
            Row::Song(i) => {
                let song = &self.songs[i];
                let marker = if self.expanded == Some(i) {
                    "\u{25bc} "
                } else {
                    "\u{25b6} "
                };
                r.push(piece(marker.to_string(), Tone::Plain));
                r.push(piece(song.title.clone(), Tone::Bold));
                r.push(piece(joined(" - ", song.artist.as_str()), Tone::Dim));
            },
            Row::Diff(i, d) => {
                let diff = &self.songs[i].diffs[d];
                r.push(piece(joined("    \u{25e6} ", diff.header.diff_name.as_str()), Tone::Plain));
            },
        }
        assert(pieces_view(r@) =~= row_label(self.songs@, self.expanded, self.rows@[k as int]));
        r
    }

    /// The lines that describe the row under the cursor (see `detail_lines`).
    pub fn detail_text(&self) -> (r: Vec<Piece>)
        requires
            self.wf(),
        ensures
            pieces_view(r@) == detail_lines(self.songs@, selected_row(self.rows@, self.state)),
    {
        proof {
            lemma_rows_valid(self.songs@, self.expanded, self.songs@.len() as int);
        }
        let mut r: Vec<Piece> = Vec::new();
        match self.selected() {
            Some(Row::Diff(i, d)) => {
                let h = &self.songs[i].diffs[d].header;
                r.push(piece(h.diff_name.clone(), Tone::Bold));
                r.push(piece(joined("Mapped by ", h.creator.as_str()), Tone::Dim));
                r.push(piece(String::new(), Tone::Plain));
            },
            Some(Row::Song(i)) => {
                let song = &self.songs[i];
                r.push(piece(song.title.clone(), Tone::Bold));
                r.push(piece(song.artist.clone(), Tone::Dim));
            },
            None => {
                r.push(piece("No maps found".to_string(), Tone::Dim));
            },
        }
        assert(pieces_view(r@) =~= detail_lines(self.songs@, selected_row(self.rows@, self.state)));
        r
    }
}

} // verus!
