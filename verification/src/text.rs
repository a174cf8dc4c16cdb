//! Character-level text handling shared by the beatmap and options parsers.
//!
//! Text is read as a sequence of `char`s.  Ranges of a `Vec<char>` are named by
//! a pair of indices `lo..hi`; their meaning is `v@.subrange(lo, hi)`.
use vstd::prelude::*;

verus! {

// ---------------------------------------------------------------------------
// Specifications
// ---------------------------------------------------------------------------

/// Unicode `White_Space`, the set that `str::trim` removes.
pub open spec fn is_ws(c: char) -> bool {
    let n = c as u32;
    ||| (0x9 <= n && n <= 0xD)
    ||| n == 0x20
    ||| n == 0x85
    ||| n == 0xA0
    ||| n == 0x1680
    ||| (0x2000 <= n && n <= 0x200A)
    ||| n == 0x2028
    ||| n == 0x2029
    ||| n == 0x202F
    ||| n == 0x205F
    ||| n == 0x3000
}

/// The text with all leading whitespace removed.
pub open spec fn trim_start(s: Seq<char>) -> Seq<char>
    decreases s.len(),
{
    if s.len() > 0 && is_ws(s[0]) {
        trim_start(s.drop_first())
    } else {
        s
    }
}

/// The text with all trailing whitespace removed.
pub open spec fn trim_end(s: Seq<char>) -> Seq<char>
    decreases s.len(),
{
    if s.len() > 0 && is_ws(s.last()) {
        trim_end(s.drop_last())
    } else {
        s
    }
}

/// `str::trim`: whitespace removed from both ends.
pub open spec fn trim(s: Seq<char>) -> Seq<char> {
    trim_end(trim_start(s))
}

/// The byte order mark.
pub open spec fn bom() -> char {
    '\u{feff}'
}

/// `trim_start_matches('\u{feff}')`: every leading byte order mark removed.
pub open spec fn strip_bom(s: Seq<char>) -> Seq<char>
    decreases s.len(),
{
    if s.len() > 0 && s[0] == bom() {
        strip_bom(s.drop_first())
    } else {
        s
    }
}

/// Index of the first occurrence of `c` in `s`, or `s.len()` when there is none.
pub open spec fn first_index(s: Seq<char>, c: char) -> nat
    decreases s.len(),
{
    if s.len() == 0 {
        0
    } else if s[0] == c {
        0
    } else {
        1 + first_index(s.drop_first(), c)
    }
}

/// Applies `step` to each piece of `s` split at `'\n'`, from the first to the last.
/// A final empty piece (after a trailing newline) is handed to `step` too.
pub open spec fn fold_lines<S>(step: spec_fn(S, Seq<char>) -> S, st: S, s: Seq<char>) -> S
    decreases s.len(),
{
    let k = first_index(s, '\n');
    if k < s.len() {
        fold_lines(step, step(st, s.take(k as int)), s.skip(k as int + 1))
    } else {
        step(st, s)
    }
}

/// The `n`-th piece (from 0) of `s` split at `sep`, as `str::split` yields it.
pub open spec fn nth_field(s: Seq<char>, sep: char, n: nat) -> Option<Seq<char>>
    decreases n,
{
    let k = first_index(s, sep);
    if n == 0 {
        Some(s.take(k as int))
    } else if k < s.len() {
        nth_field(s.skip(k as int + 1), sep, (n - 1) as nat)
    } else {
        None
    }
}

/// `s` begins with `p`.
pub open spec fn has_prefix(s: Seq<char>, p: Seq<char>) -> bool {
    p.len() <= s.len() && s.take(p.len() as int) == p
}

pub open spec fn is_digit(c: char) -> bool {
    '0' <= c && c <= '9'
}

pub open spec fn digit_value(c: char) -> nat {
    ((c as u32) - ('0' as u32)) as nat
}

pub open spec fn all_digits(s: Seq<char>) -> bool {
    forall|i: int| 0 <= i < s.len() ==> is_digit(#[trigger] s[i])
}

/// The number that a string of decimal digits denotes.
pub open spec fn digits_value(s: Seq<char>) -> nat
    decreases s.len(),
{
    if s.len() == 0 {
        0
    } else {
        digits_value(s.drop_last()) * 10 + digit_value(s.last())
    }
}

/// `FromStr` of an unsigned integer type whose largest value is `max`:
/// an optional `+`, then one or more decimal digits, with a value of at most `max`.
pub open spec fn parse_unsigned(s: Seq<char>, max: nat) -> Option<nat> {
    let body = if s.len() > 0 && s[0] == '+' {
        s.drop_first()
    } else {
        s
    };
    if body.len() == 0 || !all_digits(body) {
        None
    } else if digits_value(body) <= max {
        Some(digits_value(body))
    } else {
        None
    }
}

/// Digits after the point that a fixed-point number keeps.
pub open spec fn fixed_places() -> nat {
    18
}

/// Largest magnitude of a fixed-point number, in units of `10^-fixed_places()`:
/// the numbers of magnitude at most `10^18`.
pub open spec fn fixed_limit() -> int {
    1_000_000_000_000_000_000_000_000_000_000_000_000
}

/// A number as `f64` reads it from text, held as exactly as the library needs.
#[derive(Debug, PartialEq, Eq, Structural, Clone, Copy)]
pub enum Number {
    /// a finite number of magnitude at most `10^18`, in units of `10^-18`,
    /// digits beyond the eighteenth after the point dropped
    Fixed(i128),
    /// a finite number beyond `10^18` in magnitude; `true` when negative
    Beyond(bool),
    /// infinity; `true` when negative
    Infinite(bool),
    NotANumber,
}

/// `10` to the power `n`.
pub open spec fn pow10(n: nat) -> nat
    decreases n,
{
    if n == 0 {
        1
    } else {
        10 * pow10((n - 1) as nat)
    }
}

/// The whole part of the number whose digits are `d` with the decimal point
/// after the first `p` of them; digits past the end of `d` count as zeros.
pub open spec fn shifted_value(d: Seq<char>, p: int) -> nat {
    if p <= 0 {
        0
    } else if p <= d.len() {
        digits_value(d.take(p))
    } else {
        digits_value(d) * pow10((p - d.len()) as nat)
    }
}

/// Index of the first exponent mark (`e` or `E`), or `s.len()` when there is none.
pub open spec fn exp_index(s: Seq<char>) -> nat {
    let a = first_index(s, 'e');
    let b = first_index(s, 'E');
    if a <= b {
        a
    } else {
        b
    }
}

/// The exponent after the mark: an optional sign, then one or more digits.
pub open spec fn exponent_value(e: Seq<char>) -> Option<int> {
    let neg = e.len() > 0 && e[0] == '-';
    let body = if e.len() > 0 && (e[0] == '+' || e[0] == '-') {
        e.drop_first()
    } else {
        e
    };
    if body.len() == 0 || !all_digits(body) {
        None
    } else if neg {
        Some(-digits_value(body))
    } else {
        Some(digits_value(body) as int)
    }
}

/// The magnitude of an unsigned decimal number: digits with an optional point
/// (at least one digit), then an optional exponent `e`/`E` `[+-]digits`,
/// times `10^fixed_places()` with the fraction dropped; `None` when the text
/// is not such a number.
pub open spec fn decimal_magnitude(body: Seq<char>) -> Option<nat> {
    let x = exp_index(body);
    let mant = body.take(x as int);
    let exp = if x < body.len() {
        exponent_value(body.skip(x as int + 1))
    } else {
        Some(0int)
    };
    let k = first_index(mant, '.');
    let ip = mant.take(k as int);
    let fp = if k < mant.len() {
        mant.skip(k as int + 1)
    } else {
        Seq::<char>::empty()
    };
    magnitude_of(ip, fp, exp)
}

/// The magnitude with whole digits `ip`, fraction digits `fp` and exponent
/// `exp`, as `decimal_magnitude` says.
pub open spec fn magnitude_of(ip: Seq<char>, fp: Seq<char>, exp: Option<int>) -> Option<nat> {
    if ip.len() + fp.len() == 0 || !all_digits(ip) || !all_digits(fp) || exp is None {
        None
    } else {
        Some(shifted_value(ip + fp, ip.len() + exp.unwrap() + fixed_places()))
    }
}

/// The text with ASCII letters in lower case.
pub open spec fn lower(s: Seq<char>) -> Seq<char> {
    s.map_values(|c: char| ascii_lower(c))
}

/// `f64::from_str`: an optional sign, then `inf`, `infinity` or `nan` in any
/// case, or a decimal number (see `decimal_magnitude`); `None` when the text
/// is none of these.
pub open spec fn parse_number(s: Seq<char>) -> Option<Number> {
    let neg = s.len() > 0 && s[0] == '-';
    let body = if s.len() > 0 && (s[0] == '+' || s[0] == '-') {
        s.drop_first()
    } else {
        s
    };
    if lower(body) == "inf"@ || lower(body) == "infinity"@ {
        Some(Number::Infinite(neg))
    } else if lower(body) == "nan"@ {
        Some(Number::NotANumber)
    } else {
        match decimal_magnitude(body) {
            None => None,
            Some(m) => if m > fixed_limit() {
                Some(Number::Beyond(neg))
            } else if neg {
                Some(Number::Fixed((-m) as i128))
            } else {
                Some(Number::Fixed(m as i128))
            },
        }
    }
}

/// ASCII letters turned to lower case; other characters unchanged (`char::to_ascii_lowercase`).
pub open spec fn ascii_lower(c: char) -> char {
    if 'A' <= c && c <= 'Z' {
        ((c as u32) + 32) as char
    } else {
        c
    }
}

// ---------------------------------------------------------------------------
// Lemmas
// ---------------------------------------------------------------------------

pub proof fn lemma_first_index(s: Seq<char>, c: char, k: int)
    requires
        0 <= k <= s.len(),
        forall|j: int| 0 <= j < k ==> s[j] != c,
        k == s.len() || s[k] == c,
    ensures
        first_index(s, c) == k,
    decreases k,
{
    if k > 0 {
        lemma_first_index(s.drop_first(), c, k - 1);
    }
}

pub proof fn lemma_first_index_bound(s: Seq<char>, c: char)
    ensures
        first_index(s, c) <= s.len(),
        first_index(s, c) < s.len() ==> s[first_index(s, c) as int] == c,
        forall|j: int| 0 <= j < first_index(s, c) ==> s[j] != c,
    decreases s.len(),
{
    if s.len() > 0 && s[0] != c {
        lemma_first_index_bound(s.drop_first(), c);
        assert forall|j: int| 0 <= j < first_index(s, c) implies s[j] != c by {
            if j > 0 {
                assert(s[j] == s.drop_first()[j - 1]);
            }
        }
    }
}

/// One step of `fold_lines`, stated over a range of a larger text.
pub proof fn lemma_fold_lines_step<S>(
    step: spec_fn(S, Seq<char>) -> S,
    st: S,
    text: Seq<char>,
    pos: int,
    e: int,
)
    requires
        0 <= pos <= e <= text.len(),
        forall|j: int| pos <= j < e ==> text[j] != '\n',
        e == text.len() || text[e] == '\n',
    ensures
        e < text.len() ==> fold_lines(step, st, text.skip(pos)) == fold_lines(
            step,
            step(st, text.subrange(pos, e)),
            text.skip(e + 1),
        ),
        e == text.len() ==> fold_lines(step, st, text.skip(pos)) == step(
            st,
            text.subrange(pos, e),
        ),
{
    let s = text.skip(pos);
    lemma_first_index(s, '\n', e - pos);
    assert(s.take(e - pos) =~= text.subrange(pos, e));
    if e < text.len() {
        assert(s.skip(e - pos + 1) =~= text.skip(e + 1));
    } else {
        assert(s =~= text.subrange(pos, e));
    }
}

/// One step of `nth_field`, stated over a range of a larger text.
pub proof fn lemma_nth_field_step(v: Seq<char>, lo: int, hi: int, e: int, sep: char, n: nat)
    requires
        0 <= lo <= e <= hi <= v.len(),
        forall|j: int| lo <= j < e ==> v[j] != sep,
        e == hi || v[e] == sep,
    ensures
        n == 0 ==> nth_field(v.subrange(lo, hi), sep, n) == Some(v.subrange(lo, e)),
        n > 0 && e < hi ==> nth_field(v.subrange(lo, hi), sep, n) == nth_field(
            v.subrange(e + 1, hi),
            sep,
            (n - 1) as nat,
        ),
        n > 0 && e == hi ==> nth_field(v.subrange(lo, hi), sep, n) is None,
{
    let s = v.subrange(lo, hi);
    lemma_first_index(s, sep, e - lo);
    assert(s.take(e - lo) =~= v.subrange(lo, e));
    if e < hi {
        assert(s.skip(e - lo + 1) =~= v.subrange(e + 1, hi));
    }
}

pub proof fn lemma_digits_value_push(s: Seq<char>, c: char)
    ensures
        digits_value(s.push(c)) == digits_value(s) * 10 + digit_value(c),
{
    assert(s.push(c).drop_last() =~= s);
}

/// A longer digit string never denotes a smaller number.
pub proof fn lemma_digits_value_prefix(s: Seq<char>, k: int)
    requires
        0 <= k <= s.len(),
    ensures
        digits_value(s.take(k)) <= digits_value(s),
    decreases s.len() - k,
{
    if k < s.len() {
        lemma_digits_value_prefix(s, k + 1);
        assert(s.take(k + 1).drop_last() =~= s.take(k));
    } else {
        assert(s.take(k) =~= s);
    }
}

/// Powers of ten are positive and grow with the exponent.
pub proof fn lemma_pow10_mono(a: nat, b: nat)
    requires
        a <= b,
    ensures
        1 <= pow10(a) <= pow10(b),
    decreases b,
{
    if b > a {
        lemma_pow10_mono(a, (b - 1) as nat);
    } else if a > 0 {
        lemma_pow10_mono((a - 1) as nat, (a - 1) as nat);
    }
}

/// Shifting the point further right never gives a smaller whole part than a
/// prefix of the digits.
pub proof fn lemma_shifted_ge_prefix(d: Seq<char>, p: int, i: int)
    requires
        0 <= i <= d.len(),
        i <= p,
    ensures
        digits_value(d.take(i)) <= shifted_value(d, p),
{
    if p <= 0 {
        assert(d.take(0) =~= Seq::<char>::empty());
    } else if p <= d.len() {
        assert(d.take(p).take(i) =~= d.take(i));
        lemma_digits_value_prefix(d.take(p), i);
    } else {
        lemma_digits_value_prefix(d, i);
        lemma_pow10_mono(0, (p - d.len()) as nat);
        let n = digits_value(d);
        let q = pow10((p - d.len()) as nat);
        assert(n <= n * q) by (nonlinear_arith)
            requires
                q >= 1,
        ;
    }
}

/// With the point far enough past the digits, the whole part is either zero or
/// beyond `fixed_limit()`, wherever exactly the point stands.
pub proof fn lemma_shifted_far(d: Seq<char>, p: int, q: int)
    requires
        d.len() + 37 <= p,
        d.len() + 37 <= q,
    ensures
        (shifted_value(d, p) == 0 && shifted_value(d, q) == 0) || (shifted_value(d, p)
            > fixed_limit() && shifted_value(d, q) > fixed_limit()),
{
    let n = digits_value(d);
    let a = pow10((p - d.len()) as nat);
    let b = pow10((q - d.len()) as nat);
    reveal_with_fuel(pow10, 38);
    assert(pow10(37) == 10_000_000_000_000_000_000_000_000_000_000_000_000nat);
    lemma_pow10_mono(37, (p - d.len()) as nat);
    lemma_pow10_mono(37, (q - d.len()) as nat);
    if n == 0 {
        assert(n * a == 0);
        assert(n * b == 0);
    } else {
        assert(n * a >= a) by (nonlinear_arith)
            requires
                n >= 1,
        ;
        assert(n * b >= b) by (nonlinear_arith)
            requires
                n >= 1,
        ;
    }
}

/// A whole number written in decimal digits, with an optional sign, reads as
/// that number, exactly, when it is at most `10^18` in magnitude, and as a
/// number beyond the fixed range otherwise.
pub proof fn lemma_parse_whole_number(d: Seq<char>)
    requires
        d.len() > 0,
        all_digits(d),
    ensures
        digits_value(d) <= 1_000_000_000_000_000_000 ==> {
            &&& parse_number(d) == Some(Number::Fixed((digits_value(d) * pow10(18)) as i128))
            &&& parse_number(seq!['-'] + d) == Some(Number::Fixed((-(digits_value(d) * pow10(18))) as i128))
            &&& parse_number(seq!['+'] + d) == parse_number(d)
        },
        digits_value(d) > 1_000_000_000_000_000_000 ==> {
            &&& parse_number(d) == Some(Number::Beyond(false))
            &&& parse_number(seq!['-'] + d) == Some(Number::Beyond(true))
        },
{
    reveal_with_fuel(pow10, 19);
    assert(pow10(18) == 1_000_000_000_000_000_000nat);
    assert(is_digit(d[0]));
    assert forall|i: int| 0 <= i < d.len() implies d[i] != 'e' && d[i] != 'E' && d[i] != '.' by {
        assert(is_digit(d[i]));
    }
    lemma_first_index(d, 'e', d.len() as int);
    lemma_first_index(d, 'E', d.len() as int);
    lemma_first_index(d, '.', d.len() as int);
    assert(d.take(d.len() as int) =~= d);
    assert(d + Seq::<char>::empty() =~= d);
    assert(decimal_magnitude(d) == Some(digits_value(d) * pow10(18)));
    reveal_strlit("inf");
    reveal_strlit("infinity");
    reveal_strlit("nan");
    assert(lower(d)[0] == d[0]);
    assert(lower(d) != "inf"@ && lower(d) != "infinity"@ && lower(d) != "nan"@) by {
        assert("inf"@[0] == 'i');
        assert("infinity"@[0] == 'i');
        assert("nan"@[0] == 'n');
    }
    assert((seq!['-'] + d).drop_first() =~= d);
    assert((seq!['+'] + d).drop_first() =~= d);
    let n = digits_value(d);
    assert(n * pow10(18) == n * 1_000_000_000_000_000_000);
    if n > 1_000_000_000_000_000_000 {
        assert(n * 1_000_000_000_000_000_000 > 1_000_000_000_000_000_000_000_000_000_000_000_000)
            by (nonlinear_arith)
            requires
                n > 1_000_000_000_000_000_000,
        ;
    } else {
        assert(n * 1_000_000_000_000_000_000 <= 1_000_000_000_000_000_000_000_000_000_000_000_000)
            by (nonlinear_arith)
            requires
                n <= 1_000_000_000_000_000_000,
        ;
    }
}

// ---------------------------------------------------------------------------
// Executable helpers
// ---------------------------------------------------------------------------

/// The characters of a string slice.
pub fn chars_of(s: &str) -> (v: Vec<char>)
    ensures
        v@ == s@,
{
    let mut v: Vec<char> = Vec::new();
    for c in it: s.chars()
        invariant
            v@ == it.seq().take(it.index() as int),
    {
        v.push(c);
    }
    v
}

/// Unicode `White_Space` test.
pub fn is_whitespace(c: char) -> (r: bool)
    ensures
        r == is_ws(c),
{
    let n = c as u32;
    (0x9 <= n && n <= 0xD) || n == 0x20 || n == 0x85 || n == 0xA0 || n == 0x1680 || (0x2000 <= n
        && n <= 0x200A) || n == 0x2028 || n == 0x2029 || n == 0x202F || n == 0x205F || n == 0x3000
}

/// `char::to_ascii_lowercase`.
pub fn to_ascii_lower(c: char) -> (r: char)
    ensures
        r == ascii_lower(c),
{
    if 'A' <= c && c <= 'Z' {
        let n = (c as u32) + 32;
        assert(0x61 <= n <= 0x7a);
        let r = char_from_ascii(n);
        r
    } else {
        c
    }
}

fn char_from_ascii(n: u32) -> (r: char)
    requires
        0x61 <= n <= 0x7a,
    ensures
        r == n as char,
{
    let b = n as u8;
    b as char
}

/// Bounds of the text once whitespace is trimmed from both ends.
pub fn trim_range(v: &Vec<char>, lo: usize, hi: usize) -> (r: (usize, usize))
    requires
        lo <= hi <= v@.len(),
    ensures
        lo <= r.0 <= r.1 <= hi,
        v@.subrange(r.0 as int, r.1 as int) == trim(v@.subrange(lo as int, hi as int)),
{
    let mut a = lo;
    while a < hi && is_whitespace(v[a])
        invariant
            lo <= a <= hi <= v@.len(),
            trim_start(v@.subrange(lo as int, hi as int)) == trim_start(
                v@.subrange(a as int, hi as int),
            ),
        decreases hi - a,
    {
        assert(v@.subrange(a as int, hi as int).drop_first() =~= v@.subrange(
            a as int + 1,
            hi as int,
        ));
        a = a + 1;
    }
    assert(trim_start(v@.subrange(a as int, hi as int)) == v@.subrange(a as int, hi as int));
    let mut b = hi;
    while b > a && is_whitespace(v[b - 1])
        invariant
            lo <= a <= b <= hi <= v@.len(),
            trim(v@.subrange(lo as int, hi as int)) == trim_end(v@.subrange(a as int, b as int)),
        decreases b - a,
    {
        assert(v@.subrange(a as int, b as int).drop_last() =~= v@.subrange(
            a as int,
            b as int - 1,
        ));
        b = b - 1;
    }
    (a, b)
}

/// Start of the text once leading byte order marks are removed.
pub fn skip_bom(v: &Vec<char>, lo: usize, hi: usize) -> (a: usize)
    requires
        lo <= hi <= v@.len(),
    ensures
        lo <= a <= hi,
        v@.subrange(a as int, hi as int) == strip_bom(v@.subrange(lo as int, hi as int)),
{
    let mut a = lo;
    while a < hi && v[a] == '\u{feff}'
        invariant
            lo <= a <= hi <= v@.len(),
            strip_bom(v@.subrange(lo as int, hi as int)) == strip_bom(
                v@.subrange(a as int, hi as int),
            ),
        decreases hi - a,
    {
        assert(v@.subrange(a as int, hi as int).drop_first() =~= v@.subrange(
            a as int + 1,
            hi as int,
        ));
        a = a + 1;
    }
    a
}

/// Whether every character of the range is a decimal digit.
pub fn range_all_digits(v: &Vec<char>, lo: usize, hi: usize) -> (r: bool)
    requires
        lo <= hi <= v@.len(),
    ensures
        r == all_digits(v@.subrange(lo as int, hi as int)),
{
    let mut i = lo;
    while i < hi
        invariant
            lo <= i <= hi <= v@.len(),
            forall|j: int| lo <= j < i ==> is_digit(v@[j]),
        decreases hi - i,
    {
        let c = v[i];
        if !('0' <= c && c <= '9') {
            assert(!is_digit(v@.subrange(lo as int, hi as int)[i - lo]));
            return false;
        }
        i = i + 1;
    }
    true
}

fn digit_at(v: &Vec<char>, i: usize) -> (d: u64)
    requires
        i < v@.len(),
        is_digit(v@[i as int]),
    ensures
        d as nat == digit_value(v@[i as int]),
        d <= 9,
{
    let c = v[i];
    (c as u32 - '0' as u32) as u64
}

/// Largest exponent magnitude that `read_exponent` tells apart.
pub open spec fn exponent_cap() -> int {
    100_000_000_000_000_000_000
}

/// The exponent of a number on a range (see `exponent_value`), its magnitude
/// capped at `exponent_cap()`.
fn read_exponent(v: &Vec<char>, lo: usize, hi: usize) -> (r: Option<i128>)
    requires
        lo <= hi <= v@.len(),
    ensures
        match r {
            None => exponent_value(v@.subrange(lo as int, hi as int)) is None,
            Some(e) => match exponent_value(v@.subrange(lo as int, hi as int)) {
                Some(x) => (-exponent_cap() < x < exponent_cap() ==> e == x) && (x
                    >= exponent_cap() ==> e == exponent_cap()) && (x <= -exponent_cap() ==> e
                    == -exponent_cap()),
                None => false,
            },
        },
{
    let ghost s = v@.subrange(lo as int, hi as int);
    let neg = lo < hi && v[lo] == '-';
    let start = if lo < hi && (v[lo] == '+' || v[lo] == '-') {
        lo + 1
    } else {
        lo
    };
    let ghost body = v@.subrange(start as int, hi as int);
    assert(body =~= (if s.len() > 0 && (s[0] == '+' || s[0] == '-') {
        s.drop_first()
    } else {
        s
    }));
    let ghost target = exponent_value(s);
    assert(target == (if body.len() == 0 || !all_digits(body) {
        None
    } else if neg {
        Some(-digits_value(body))
    } else {
        Some(digits_value(body) as int)
    }));
    if start == hi {
        return None;
    }
    let cap: u128 = 100_000_000_000_000_000_000;
    let mut acc: u128 = 0;
    let mut i = start;
    while i < hi
        invariant
            lo <= start <= i <= hi <= v@.len(),
            body == v@.subrange(start as int, hi as int),
            s == v@.subrange(lo as int, hi as int),
            target == exponent_value(s),
            target == (if body.len() == 0 || !all_digits(body) {
                None
            } else if neg {
                Some(-digits_value(body))
            } else {
                Some(digits_value(body) as int)
            }),
            cap == exponent_cap(),
            acc <= cap,
            forall|j: int| start <= j < i ==> is_digit(v@[j]),
            acc < cap ==> acc as nat == digits_value(v@.subrange(start as int, i as int)),
            acc == cap ==> digits_value(v@.subrange(start as int, i as int)) >= cap,
        decreases hi - i,
    {
        let c = v[i];
        if !('0' <= c && c <= '9') {
            assert(!is_digit(body[i - start]));
            return None;
        }
        let d = digit_at(v, i);
        proof {
            assert(v@.subrange(start as int, i as int + 1) =~= v@.subrange(
                start as int,
                i as int,
            ).push(c));
            lemma_digits_value_push(v@.subrange(start as int, i as int), c);
        }
        if acc < cap {
            let next = acc * 10 + d as u128;
            acc = if next < cap {
                next
            } else {
                cap
            };
        }
        i = i + 1;
    }
    assert(body =~= v@.subrange(start as int, i as int));
    if neg {
        Some(-(acc as i128))
    } else {
        Some(acc as i128)
    }
}

/// The whole part of `shifted_value` for the digits of two ranges taken one
/// after the other, when it is at most `limit`.
fn shifted_digits(v: &Vec<char>, a: usize, b: usize, c: usize, d: usize, p: i128, limit: u128) -> (r:
    Option<u128>)
    requires
        a <= b <= c <= d <= v@.len(),
        all_digits(v@.subrange(a as int, b as int)),
        all_digits(v@.subrange(c as int, d as int)),
        limit <= 1_000_000_000_000_000_000_000_000_000_000_000_000,
    ensures
        match r {
            Some(m) => m as int == shifted_value(
                v@.subrange(a as int, b as int) + v@.subrange(c as int, d as int),
                p as int,
            ) && m <= limit,
            None => shifted_value(
                v@.subrange(a as int, b as int) + v@.subrange(c as int, d as int),
                p as int,
            ) > limit,
        },
{
    let ghost dd = v@.subrange(a as int, b as int) + v@.subrange(c as int, d as int);
    if p <= 0 {
        return Some(0);
    }
    let ilen = b - a;
    let dlen = ilen + (d - c);
    assert(dd.len() == dlen);
    let n: usize = if p < dlen as i128 {
        p as usize
    } else {
        dlen
    };
    let mut acc: u128 = 0;
    let mut i: usize = 0;
    assert(dd.take(0) =~= Seq::<char>::empty());
    while i < n
        invariant
            a <= b <= c <= d <= v@.len(),
            ilen == b - a,
            dlen == dd.len(),
            dd == v@.subrange(a as int, b as int) + v@.subrange(c as int, d as int),
            all_digits(v@.subrange(a as int, b as int)),
            all_digits(v@.subrange(c as int, d as int)),
            n as int == (if p < dlen { p as int } else { dlen as int }),
            0 < p,
            i <= n,
            limit <= 1_000_000_000_000_000_000_000_000_000_000_000_000,
            acc <= limit,
            acc as nat == digits_value(dd.take(i as int)),
        decreases n - i,
    {
        let pos = if i < ilen {
            a + i
        } else {
            c + (i - ilen)
        };
        assert(dd[i as int] == v@[pos as int]);
        if i < ilen {
            assert(is_digit(v@.subrange(a as int, b as int)[i as int]));
        } else {
            assert(is_digit(v@.subrange(c as int, d as int)[i - ilen]));
        }
        let dig = digit_at(v, pos) as u128;
        proof {
            assert(dd.take(i as int + 1) =~= dd.take(i as int).push(dd[i as int]));
            lemma_digits_value_push(dd.take(i as int), dd[i as int]);
        }
        let next = acc * 10 + dig;
        if next > limit {
            proof {
                lemma_shifted_ge_prefix(dd, p as int, i as int + 1);
            }
            return None;
        }
        acc = next;
        i = i + 1;
    }
    if p <= dlen as i128 {
        return Some(acc);
    }
    assert(dd.take(dlen as int) =~= dd);
    if acc == 0 {
        assert(0 * pow10((p - dlen) as nat) == 0);
        return Some(0);
    }
    let extra: i128 = p - dlen as i128;
    times_pow10(acc, extra, limit)
}

/// `n * 10^extra`, when it is at most `limit`.
fn times_pow10(n: u128, extra: i128, limit: u128) -> (r: Option<u128>)
    requires
        1 <= n <= limit <= 1_000_000_000_000_000_000_000_000_000_000_000_000,
        extra >= 0,
    ensures
        match r {
            Some(m) => m as int == n * pow10(extra as nat) && m <= limit,
            None => n * pow10(extra as nat) > limit,
        },
{
    let mut acc = n;
    let mut j: i128 = 0;
    assert(pow10(0) == 1);
    assert(n * pow10(0) == n) by (nonlinear_arith)
        requires
            pow10(0) == 1,
    ;
    while j < extra
        invariant
            0 <= j <= extra,
            1 <= n <= acc <= limit,
            limit <= 1_000_000_000_000_000_000_000_000_000_000_000_000,
            acc as nat == n * pow10(j as nat),
        decreases extra - j,
    {
        let next = acc * 10;
        proof {
            assert(n * pow10((j + 1) as nat) == 10 * (n * pow10(j as nat))) by (nonlinear_arith)
                requires
                    pow10((j + 1) as nat) == 10 * pow10(j as nat),
            ;
        }
        if next > limit {
            proof {
                lemma_pow10_mono((j + 1) as nat, extra as nat);
                let x = pow10((j + 1) as nat);
                let y = pow10(extra as nat);
                assert(n * x <= n * y) by (nonlinear_arith)
                    requires
                        x <= y,
                ;
            }
            return None;
        }
        acc = next;
        j = j + 1;
    }
    Some(acc)
}

/// Position of the first exponent mark in the range (see `exp_index`).
fn find_exp_mark(v: &Vec<char>, lo: usize, hi: usize) -> (x: usize)
    requires
        lo <= hi <= v@.len(),
    ensures
        lo <= x <= hi,
        x - lo == exp_index(v@.subrange(lo as int, hi as int)),
{
    let e1 = find_char(v, lo, hi, 'e');
    let e2 = find_char(v, lo, hi, 'E');
    if e1 <= e2 {
        e1
    } else {
        e2
    }
}

/// The magnitude of an unsigned decimal number on a range (see
/// `decimal_magnitude`): `None` when the text is not such a number,
/// `Some(None)` when the magnitude exceeds `fixed_limit()`.
fn decimal_range(v: &Vec<char>, lo: usize, hi: usize) -> (r: Option<Option<u128>>)
    requires
        lo <= hi <= v@.len(),
    ensures
        match r {
            None => decimal_magnitude(v@.subrange(lo as int, hi as int)) is None,
            Some(None) => decimal_magnitude(v@.subrange(lo as int, hi as int)) matches Some(m)
                && m > fixed_limit(),
            Some(Some(m)) => decimal_magnitude(v@.subrange(lo as int, hi as int)) == Some(
                m as nat,
            ) && m <= fixed_limit(),
        },
{
    let ghost body = v@.subrange(lo as int, hi as int);
    let x = find_exp_mark(v, lo, hi);
    let ghost mant = body.take(x - lo);
    assert(mant =~= v@.subrange(lo as int, x as int));
    let exp = if x < hi {
        assert(body.skip(x - lo + 1) =~= v@.subrange(x as int + 1, hi as int));
        read_exponent(v, x + 1, hi)
    } else {
        Some(0i128)
    };
    let ghost gexp = if x < hi {
        exponent_value(body.skip(x - lo + 1))
    } else {
        Some(0int)
    };
    let k = find_char(v, lo, x, '.');
    let ghost ip = mant.take(k - lo);
    let ghost fp = if k < x {
        mant.skip(k - lo + 1)
    } else {
        Seq::<char>::empty()
    };
    assert(ip =~= v@.subrange(lo as int, k as int));
    let fstart = if k < x {
        k + 1
    } else {
        x
    };
    assert(fp =~= v@.subrange(fstart as int, x as int));
    assert(decimal_magnitude(body) == magnitude_of(ip, fp, gexp));
    magnitude_from_parts(v, lo, k, fstart, x, exp, Ghost(gexp))
}

/// `magnitude_of` the whole digits `start..k`, the fraction digits
/// `fstart..x` and an exponent as `read_exponent` gives it.
fn magnitude_from_parts(
    v: &Vec<char>,
    start: usize,
    k: usize,
    fstart: usize,
    x: usize,
    exp: Option<i128>,
    gexp: Ghost<Option<int>>,
) -> (r: Option<Option<u128>>)
    requires
        start <= k <= fstart <= x <= v@.len(),
        match exp {
            None => gexp@ is None,
            Some(e) => match gexp@ {
                Some(g) => (-exponent_cap() < g < exponent_cap() ==> e == g) && (g
                    >= exponent_cap() ==> e == exponent_cap()) && (g <= -exponent_cap() ==> e
                    == -exponent_cap()),
                None => false,
            },
        },
    ensures
        match r {
            None => magnitude_of(
                v@.subrange(start as int, k as int),
                v@.subrange(fstart as int, x as int),
                gexp@,
            ) is None,
            Some(None) => magnitude_of(
                v@.subrange(start as int, k as int),
                v@.subrange(fstart as int, x as int),
                gexp@,
            ) matches Some(m) && m > fixed_limit(),
            Some(Some(m)) => magnitude_of(
                v@.subrange(start as int, k as int),
                v@.subrange(fstart as int, x as int),
                gexp@,
            ) == Some(m as nat) && m <= fixed_limit(),
        },
{
    let ghost ip = v@.subrange(start as int, k as int);
    let ghost fp = v@.subrange(fstart as int, x as int);
    if (k - start) + (x - fstart) == 0 {
        return None;
    }
    if !range_all_digits(v, start, k) || !range_all_digits(v, fstart, x) {
        return None;
    }
    let e = match exp {
        Some(e) => e,
        None => {
            return None;
        },
    };
    let ghost ge = gexp@.unwrap();
    let p: i128 = (k - start) as i128 + e + 18;
    let ghost gp = ip.len() + ge + fixed_places();
    let limit: u128 = 1_000_000_000_000_000_000_000_000_000_000_000_000;
    let m = shifted_digits(v, start, k, fstart, x, p, limit);
    proof {
        let dd = ip + fp;
        assert(x as int <= usize::MAX);
        if ge >= exponent_cap() {
            lemma_shifted_far(dd, p as int, gp);
        }
    }
    Some(m)
}

/// The range, with ASCII letters in lower case, equals `p`.
fn range_equals_lower(v: &Vec<char>, lo: usize, hi: usize, p: &Vec<char>) -> (r: bool)
    requires
        lo <= hi <= v@.len(),
    ensures
        r == (lower(v@.subrange(lo as int, hi as int)) == p@),
{
    let ghost s = v@.subrange(lo as int, hi as int);
    if p.len() != hi - lo {
        assert(lower(s).len() != p@.len());
        return false;
    }
    let mut i: usize = 0;
    while i < p.len()
        invariant
            lo <= hi <= v@.len(),
            s == v@.subrange(lo as int, hi as int),
            p@.len() == hi - lo,
            i <= p@.len(),
            forall|j: int| 0 <= j < i ==> ascii_lower(v@[lo + j]) == p@[j],
        decreases p@.len() - i,
    {
        if to_ascii_lower(v[lo + i]) != p[i] {
            assert(lower(s)[i as int] != p@[i as int]);
            return false;
        }
        i = i + 1;
    }
    assert(lower(s) =~= p@);
    true
}

/// A number as `f64::from_str` reads it, on a range (see `parse_number`).
pub fn parse_number_range(v: &Vec<char>, lo: usize, hi: usize) -> (r: Option<Number>)
    requires
        lo <= hi <= v@.len(),
    ensures
        r == parse_number(v@.subrange(lo as int, hi as int)),
{
    let ghost s = v@.subrange(lo as int, hi as int);
    let neg = lo < hi && v[lo] == '-';
    let start = if lo < hi && (v[lo] == '+' || v[lo] == '-') {
        lo + 1
    } else {
        lo
    };
    let ghost body = v@.subrange(start as int, hi as int);
    assert(body =~= (if s.len() > 0 && (s[0] == '+' || s[0] == '-') {
        s.drop_first()
    } else {
        s
    }));
    if range_equals_lower(v, start, hi, &chars_of("inf")) || range_equals_lower(
        v,
        start,
        hi,
        &chars_of("infinity"),
    ) {
        return Some(Number::Infinite(neg));
    }
    if range_equals_lower(v, start, hi, &chars_of("nan")) {
        return Some(Number::NotANumber);
    }
    match decimal_range(v, start, hi) {
        None => None,
        Some(None) => Some(Number::Beyond(neg)),
        Some(Some(m)) => {
            if neg {
                Some(Number::Fixed(-(m as i128)))
            } else {
                Some(Number::Fixed(m as i128))
            }
        },
    }
}

/// Position of the first `c` in the range, or `hi` when there is none.
pub fn find_char(v: &Vec<char>, lo: usize, hi: usize, c: char) -> (e: usize)
    requires
        lo <= hi <= v@.len(),
    ensures
        lo <= e <= hi,
        forall|j: int| lo <= j < e ==> v@[j] != c,
        e == hi || v@[e as int] == c,
        lo + first_index(v@.subrange(lo as int, hi as int), c) == e,
{
    let mut e = lo;
    while e < hi && v[e] != c
        invariant
            lo <= e <= hi <= v@.len(),
            forall|j: int| lo <= j < e ==> v@[j] != c,
        decreases hi - e,
    {
        e = e + 1;
    }
    proof {
        lemma_first_index(v@.subrange(lo as int, hi as int), c, e - lo);
    }
    e
}

/// The range begins with `p`.
pub fn range_has_prefix(v: &Vec<char>, lo: usize, hi: usize, p: &Vec<char>) -> (r: bool)
    requires
        lo <= hi <= v@.len(),
    ensures
        r == has_prefix(v@.subrange(lo as int, hi as int), p@),
{
    let ghost s = v@.subrange(lo as int, hi as int);
    if p.len() > hi - lo {
        return false;
    }
    let mut i: usize = 0;
    while i < p.len()
        invariant
            lo <= hi <= v@.len(),
            s == v@.subrange(lo as int, hi as int),
            p@.len() <= hi - lo,
            i <= p@.len(),
            forall|j: int| 0 <= j < i ==> v@[lo + j] == p@[j],
        decreases p@.len() - i,
    {
        if v[lo + i] != p[i] {
            assert(s.take(p@.len() as int)[i as int] != p@[i as int]);
            return false;
        }
        i = i + 1;
    }
    assert(s.take(p@.len() as int) =~= p@);
    true
}

/// The range equals `p`.
pub fn range_equals(v: &Vec<char>, lo: usize, hi: usize, p: &Vec<char>) -> (r: bool)
    requires
        lo <= hi <= v@.len(),
    ensures
        r == (v@.subrange(lo as int, hi as int) == p@),
{
    if p.len() != hi - lo {
        assert(v@.subrange(lo as int, hi as int).len() != p@.len());
        return false;
    }
    let r = range_has_prefix(v, lo, hi, p);
    assert(v@.subrange(lo as int, hi as int).take(p@.len() as int) =~= v@.subrange(
        lo as int,
        hi as int,
    ));
    r
}

/// `FromStr` of an unsigned integer type whose largest value is `max`, on a range.
pub fn parse_unsigned_range(v: &Vec<char>, lo: usize, hi: usize, max: u64) -> (r: Option<u64>)
    requires
        lo <= hi <= v@.len(),
        max <= 0xFFFF_FFFF,
    ensures
        match r {
            Some(x) => parse_unsigned(v@.subrange(lo as int, hi as int), max as nat) == Some(
                x as nat,
            ),
            None => parse_unsigned(v@.subrange(lo as int, hi as int), max as nat) is None,
        },
{
    let ghost s = v@.subrange(lo as int, hi as int);
    let start = if lo < hi && v[lo] == '+' {
        lo + 1
    } else {
        lo
    };
    let ghost body = v@.subrange(start as int, hi as int);
    assert(body =~= (if s.len() > 0 && s[0] == '+' {
        s.drop_first()
    } else {
        s
    }));
    let ghost target = parse_unsigned(s, max as nat);
    assert(target == (if body.len() == 0 || !all_digits(body) {
        None
    } else if digits_value(body) <= max as nat {
        Some(digits_value(body))
    } else {
        None
    }));
    if start == hi {
        return None;
    }
    let mut acc: u64 = 0;
    let mut i = start;
    while i < hi
        invariant
            lo <= start <= i <= hi <= v@.len(),
            body == v@.subrange(start as int, hi as int),
            s == v@.subrange(lo as int, hi as int),
            target == parse_unsigned(s, max as nat),
            target == (if body.len() == 0 || !all_digits(body) {
                None
            } else if digits_value(body) <= max as nat {
                Some(digits_value(body))
            } else {
                None
            }),
            acc <= max,
            max <= 0xFFFF_FFFF,
            forall|j: int| start <= j < i ==> is_digit(v@[j]),
            acc as nat == digits_value(v@.subrange(start as int, i as int)),
        decreases hi - i,
    {
        let c = v[i];
        if !('0' <= c && c <= '9') {
            assert(!is_digit(body[i - start]));
            return None;
        }
        let d = (c as u32 - '0' as u32) as u64;
        proof {
            assert(v@.subrange(start as int, i as int + 1) =~= v@.subrange(
                start as int,
                i as int,
            ).push(c));
            lemma_digits_value_push(v@.subrange(start as int, i as int), c);
        }
        let next = acc * 10 + d;
        if next > max {
            // the value already exceeds `max`; it is an error whatever follows
            let mut k = i + 1;
            while k < hi
                invariant
                    lo <= start <= i < k <= hi <= v@.len(),
                    body == v@.subrange(start as int, hi as int),
                    s == v@.subrange(lo as int, hi as int),
                    target == parse_unsigned(s, max as nat),
                    target == (if body.len() == 0 || !all_digits(body) {
                        None
                    } else if digits_value(body) <= max as nat {
                        Some(digits_value(body))
                    } else {
                        None
                    }),
                    digits_value(v@.subrange(start as int, i as int + 1)) > max,
                    forall|j: int| start <= j < k ==> is_digit(v@[j]),
                decreases hi - k,
            {
                let c2 = v[k];
                if !('0' <= c2 && c2 <= '9') {
                    assert(!is_digit(body[k - start]));
                    return None;
                }
                k = k + 1;
            }
            proof {
                assert(body.take(i - start + 1) =~= v@.subrange(start as int, i as int + 1));
                lemma_digits_value_prefix(body, i - start + 1);
            }
            return None;
        }
        acc = next;
        i = i + 1;
    }
    assert(body =~= v@.subrange(start as int, i as int));
    Some(acc)
}

} // verus!
