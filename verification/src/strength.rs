//! How strong a text is estimated to be. The estimator reads the first hundred characters of a
//! text. Its own arithmetic overflows on some texts that are crowded with patterns, so such a text
//! is cut in pieces, each of which is estimated, and the guesses for the pieces multiply. It is cut
//! in many ways, and the one with the fewest guesses counts.

use crate::primitives::{zxcvbn_estimate, zxcvbn_score};
use vstd::prelude::*;
use vstd::string::*;

verus! {

/// The number of characters of a text that the estimator reads.
pub const ESTIMATED_CHARS: usize = 100;

/// From so many steps on over neighbouring keys a text is crowded.
pub const WALK: usize = 28;

/// In how many places the first cut through a crowded text is tried. No word of the estimator's
/// lists is longer.
pub const CUTS: usize = 23;

// ---------------------------------------------------------------------------
// Walks over a keyboard
// ---------------------------------------------------------------------------

/// The keys of the American layout, row by row.
pub const QWERTY: [char; 47] = [
    '`', '1', '2', '3', '4', '5', '6', '7', '8', '9', '0', '-', '=', 'q', 'w', 'e', 'r', 't', 'y',
    'u', 'i', 'o', 'p', '[', ']', '\\', 'a', 's', 'd', 'f', 'g', 'h', 'j', 'k', 'l', ';', '\'', 'z',
    'x', 'c', 'v', 'b', 'n', 'm', ',', '.', '/',
];

/// The same keys with shift.
pub const QWERTY_SHIFTED: [char; 47] = [
    '~', '!', '@', '#', '$', '%', '^', '&', '*', '(', ')', '_', '+', 'Q', 'W', 'E', 'R', 'T', 'Y',
    'U', 'I', 'O', 'P', '{', '}', '|', 'A', 'S', 'D', 'F', 'G', 'H', 'J', 'K', 'L', ':', '"', 'Z',
    'X', 'C', 'V', 'B', 'N', 'M', '<', '>', '?',
];

/// The keys of the Dvorak layout, row by row.
pub const DVORAK: [char; 47] = [
    '`', '1', '2', '3', '4', '5', '6', '7', '8', '9', '0', '[', ']', '\'', ',', '.', 'p', 'y', 'f',
    'g', 'c', 'r', 'l', '/', '=', '\\', 'a', 'o', 'e', 'u', 'i', 'd', 'h', 't', 'n', 's', '-', ';',
    'q', 'j', 'k', 'x', 'b', 'm', 'w', 'v', 'z',
];

/// The same keys with shift.
pub const DVORAK_SHIFTED: [char; 47] = [
    '~', '!', '@', '#', '$', '%', '^', '&', '*', '(', ')', '{', '}', '"', '<', '>', 'P', 'Y', 'F',
    'G', 'C', 'R', 'L', '?', '+', '|', 'A', 'O', 'E', 'U', 'I', 'D', 'H', 'T', 'N', 'S', '_', ':',
    'Q', 'J', 'K', 'X', 'B', 'M', 'W', 'V', 'Z',
];

/// The row of a key.
pub open spec fn key_row(i: int) -> int {
    if i < 13 {
        0
    } else if i < 26 {
        1
    } else if i < 37 {
        2
    } else {
        3
    }
}

/// The place of a key within its row. The upper row begins one place before the others.
pub open spec fn key_column(i: int) -> int {
    if i < 13 {
        i
    } else if i < 26 {
        i - 12
    } else if i < 37 {
        i - 25
    } else {
        i - 36
    }
}

/// Two keys lie side by side or in neighbouring rows.
pub open spec fn keys_touch(i: int, j: int) -> bool {
    &&& -1 <= key_row(i) - key_row(j) <= 1
    &&& -1 <= key_column(i) - key_column(j) <= 1
}

/// A key gives this character, with or without shift.
pub open spec fn key_gives(keys: Seq<char>, shifted: Seq<char>, i: int, c: char) -> bool {
    keys[i] == c || shifted[i] == c
}

/// Two characters lie on keys of a layout that touch.
pub open spec fn is_near_on(keys: Seq<char>, shifted: Seq<char>, a: char, b: char) -> bool {
    exists|i: int, j: int|
        0 <= i < 47 && 0 <= j < 47 && #[trigger] key_gives(keys, shifted, i, a)
            && #[trigger] key_gives(keys, shifted, j, b) && keys_touch(i, j)
}

/// Whether a character lies on a keypad.
pub open spec fn is_keypad(c: char) -> bool {
    ('0' <= c && c <= '9') || c == '/' || c == '*' || c == '-' || c == '+' || c == '.' || c == '='
}

/// Whether a walk over a keyboard can go from one character to the other. No key is its own
/// neighbour.
pub open spec fn is_step(a: char, b: char) -> bool {
    &&& a != b
    &&& is_keypad(a) && is_keypad(b) || is_near_on(QWERTY@, QWERTY_SHIFTED@, a, b) || is_near_on(
        DVORAK@,
        DVORAK_SHIFTED@,
        a,
        b,
    )
}

/// How many steps lead to the character at `p` without a break.
pub open spec fn steps_to(t: Seq<char>, p: int) -> nat
    decreases p,
{
    if p <= 0 {
        0
    } else if is_step(t[p - 1], t[p]) {
        steps_to(t, p - 1) + 1
    } else {
        0
    }
}

/// A walk over a keyboard that is too long.
pub open spec fn has_long_walk(t: Seq<char>) -> bool {
    exists|p: int| 0 <= p < t.len() && #[trigger] steps_to(t, p) >= WALK
}

// ---------------------------------------------------------------------------
// Patterns that follow one another
// ---------------------------------------------------------------------------

/// The first letters of the words with two letters in the estimator's lists.
pub const FIRST_LETTERS: [char; 23] = [
    'a', 'a', 'a', 'b', 'b', 'd', 'g', 'h', 'i', 'i', 'i', 'i', 'm', 'm', 'n', 'o', 'o', 'o', 'o',
    's', 't', 'u', 'w',
];

/// The second letters of these words.
pub const SECOND_LETTERS: [char; 23] = [
    'n', 's', 't', 'e', 'y', 'o', 'o', 'e', 'f', 'n', 's', 't', 'e', 'y', 'o', 'f', 'h', 'n', 'r',
    'o', 'o', 'p', 'e',
];

/// Whether a character can stand for a small letter of these words: the letter itself, its capital,
/// or a sign that resembles it.
pub open spec fn stands_for(c: char, letter: char) -> bool {
    ||| c == letter
    ||| 'A' <= c && c <= 'Z' && c as u32 + 32 == letter as u32
    ||| letter == 'a' && (c == '4' || c == '@')
    ||| letter == 'b' && c == '8'
    ||| letter == 'e' && c == '3'
    ||| letter == 'g' && (c == '6' || c == '9')
    ||| letter == 'i' && (c == '1' || c == '!' || c == '|')
    ||| letter == 'o' && c == '0'
    ||| letter == 's' && (c == '$' || c == '5')
    ||| letter == 't' && (c == '+' || c == '7')
}

/// Two characters can be word number `k`, forwards or backwards.
pub open spec fn is_short_word(k: int, a: char, b: char) -> bool {
    ||| stands_for(a, FIRST_LETTERS@[k]) && stands_for(b, SECOND_LETTERS@[k])
    ||| stands_for(b, FIRST_LETTERS@[k]) && stands_for(a, SECOND_LETTERS@[k])
}

/// Two characters can be a word of two letters.
pub open spec fn is_pair_word(a: char, b: char) -> bool {
    exists|k: int| 0 <= k < 23 && #[trigger] is_short_word(k, a, b)
}

/// How far apart two characters are in the order of characters.
pub open spec fn distance(a: char, b: char) -> int {
    if a as u32 <= b as u32 {
        b as u32 - a as u32
    } else {
        a as u32 - b as u32
    }
}

/// The characters from `a` up to `b` are all the same.
pub open spec fn is_constant(t: Seq<char>, a: int, b: int) -> bool {
    forall|x: int| a <= x < b ==> #[trigger] t[x] == t[a]
}

/// The character before `b` is not followed by itself.
pub open spec fn run_ends(t: Seq<char>, b: int) -> bool {
    b >= t.len() || t[b] != t[b - 1]
}

/// Whether a character lies on no key and is in no word, not even in lower case: the space, and
/// what is beyond ASCII but for the sign for Kelvin, which has the letter `k` for its lower case.
pub open spec fn is_foreign(c: char) -> bool {
    c == ' ' || (c as u32 > 126 && c != '\u{212a}')
}

/// Such a character stands among the characters from `a` up to `b`.
pub open spec fn has_foreign(t: Seq<char>, a: int, b: int) -> bool {
    exists|x: int| a <= x < b && is_foreign(#[trigger] t[x])
}

/// From `a` up to `b` every character is followed by itself `d` characters later.
pub open spec fn has_period(t: Seq<char>, a: int, b: int, d: int) -> bool {
    forall|x: int| a <= x < b - d ==> #[trigger] t[x] == t[x + d]
}

/// The characters from `a` up to `b` are something that is repeated.
pub open spec fn is_repeat(t: Seq<char>, a: int, b: int) -> bool {
    exists|d: int| 0 < d && a + 2 * d <= b && #[trigger] has_period(t, a, b, d)
}

/// Whether a character can be in a date with spaces.
pub open spec fn is_date_char(c: char) -> bool {
    is_foreign(c) || ('0' <= c && c <= '9')
}

/// The characters from `a` up to `b` are digits and spaces, as in a date.
pub open spec fn is_date_like(t: Seq<char>, a: int, b: int) -> bool {
    forall|x: int| a <= x < b ==> is_date_char(#[trigger] t[x])
}

/// From `a` up to `b` no character is far from the one before it, as in a sequence.
pub open spec fn is_sequence_like(t: Seq<char>, a: int, b: int) -> bool {
    forall|x: int| a < x < b ==> distance(t[x - 1], #[trigger] t[x]) <= 5
}

/// Whether the estimator can take the characters from `a` up to `b` for one pattern: a word of its
/// lists, a walk over a keyboard, a repetition, a sequence, a year or a date. The only word with
/// one letter is `i`. Equal characters are repeated to their last. No word and no walk holds a
/// foreign character, and of equal letters there are only words with `m` and longer ones.
pub open spec fn may_match(t: Seq<char>, a: int, b: int) -> bool {
    if b - a == 1 {
        stands_for(t[a], 'i')
    } else if b - a == 2 {
        ||| is_pair_word(t[a], t[a + 1])
        ||| distance(t[a], t[a + 1]) == 1
        ||| t[a] == t[a + 1] && run_ends(t, b)
    } else if is_constant(t, a, b) {
        ||| run_ends(t, b)
        ||| b - a >= 5
        ||| b - a == 4 && '0' <= t[a] && t[a] <= '9'
        ||| t[a] == 'm' || t[a] == 'M'
    } else if has_foreign(t, a, b) {
        ||| is_repeat(t, a, b)
        ||| is_date_like(t, a, b)
        ||| is_sequence_like(t, a, b)
    } else {
        true
    }
}

/// From so many patterns on that follow one another without a gap a text is crowded: factorials are
/// computed in a number as wide as an address, and fit up to 20 or up to 12.
pub open spec fn chain_limit() -> nat {
    if usize::MAX == u64::MAX {
        14
    } else {
        6
    }
}

/// How many patterns can follow one another up to `p`, the last of them beginning before `a`.
pub open spec fn chain(t: Seq<char>, p: int, a: int) -> nat
    decreases p, a,
{
    if a <= 0 || a > p {
        0
    } else {
        let others = chain(t, p, a - 1);
        let through = 1 + chain(t, a - 1, a - 1);
        if may_match(t, a - 1, p) && through > others {
            through
        } else {
            others
        }
    }
}

/// Too many patterns can follow one another.
pub open spec fn has_long_chain(t: Seq<char>) -> bool {
    exists|p: int| 0 <= p <= t.len() && #[trigger] chain(t, p, p) >= chain_limit()
}

/// A text in which the estimator can find so many patterns without a gap, or so long a walk over a
/// keyboard, that its arithmetic overflows. A capital I with a dot counts as well, because it has
/// two characters in lower case, which shifts what the estimator finds.
pub open spec fn is_crowded(t: Seq<char>) -> bool {
    &&& t.len() >= chain_limit()
    &&& has_long_walk(t) || has_long_chain(t) || t.contains('\u{130}')
}

// ---------------------------------------------------------------------------
// Parts
// ---------------------------------------------------------------------------

/// The part of a text that the estimator reads.
pub open spec fn estimated_part(text: Seq<char>) -> Seq<char> {
    if text.len() <= ESTIMATED_CHARS {
        text
    } else {
        text.take(ESTIMATED_CHARS as int)
    }
}

/// Whether a text can be handed to the estimator.
pub open spec fn can_be_estimated(text: Seq<char>) -> bool {
    !is_crowded(estimated_part(text))
}

/// Where the piece that begins at `a` ends, given that it goes to `b` at least: before the first
/// character that would crowd it.
pub open spec fn piece_end(t: Seq<char>, a: int, b: int) -> int
    decreases t.len() - b,
{
    if b >= t.len() || is_crowded(t.subrange(a, b + 1)) {
        b
    } else {
        piece_end(t, a, b + 1)
    }
}

/// A text from `a` on in pieces, each as long as it can be.
pub open spec fn pieces_from(t: Seq<char>, a: int) -> Seq<Seq<char>>
    decreases t.len() - a,
{
    let end = piece_end(t, a, a);
    if a >= t.len() || end <= a || end > t.len() {
        Seq::empty()
    } else {
        seq![t.subrange(a, end)] + pieces_from(t, end)
    }
}

/// A text with its first cut at `c`.
pub open spec fn cut_at(t: Seq<char>, c: int) -> Seq<Seq<char>> {
    seq![t.take(c)] + pieces_from(t, c)
}

/// The first cuts that are tried, from `c` down to `least`.
pub open spec fn cuts(t: Seq<char>, c: int, least: int) -> Seq<Seq<Seq<char>>>
    decreases c - least,
{
    if c <= least {
        Seq::empty()
    } else {
        seq![cut_at(t, c)] + cuts(t, c - 1, least)
    }
}

/// The length, from `d` on, of something that makes up the whole text by being repeated. The whole
/// text does in any case.
pub open spec fn repeated_from(t: Seq<char>, d: int) -> int
    decreases t.len() - d,
{
    if d >= t.len() || (t.len() as int % d == 0 && has_period(t, 0, t.len() as int, d)) {
        d
    } else {
        repeated_from(t, d + 1)
    }
}

/// The ways in which a crowded text is estimated: with the first cut in each of the last places of
/// its first piece, and, where something is repeated throughout, by that alone.
pub open spec fn ways_to_cut(t: Seq<char>) -> Seq<Seq<Seq<char>>> {
    let end = piece_end(t, 0, 0);
    let least = if end > CUTS {
        end - CUTS
    } else {
        0
    };
    let base = repeated_from(t, 1);
    cuts(t, end, least) + if base <= end {
        seq![seq![t.take(base)]]
    } else {
        Seq::empty()
    }
}

/// What is handed to the estimator for a text: the text itself, or pieces of it where it is
/// crowded.
pub open spec fn handed_parts(text: Seq<char>) -> Seq<Seq<Seq<char>>> {
    if is_crowded(estimated_part(text)) {
        ways_to_cut(estimated_part(text))
    } else {
        seq![seq![text]]
    }
}

// ---------------------------------------------------------------------------
// Tests on characters
// ---------------------------------------------------------------------------

fn row_of(i: usize) -> (r: usize)
    ensures
        r == key_row(i as int),
{
    if i < 13 {
        0
    } else if i < 26 {
        1
    } else if i < 37 {
        2
    } else {
        3
    }
}

fn column_of(i: usize) -> (r: usize)
    ensures
        r == key_column(i as int),
        r <= i,
{
    if i < 13 {
        i
    } else if i < 26 {
        i - 12
    } else if i < 37 {
        i - 25
    } else {
        i - 36
    }
}

fn touching(i: usize, j: usize) -> (r: bool)
    requires
        i < 47,
        j < 47,
    ensures
        r == keys_touch(i as int, j as int),
{
    let (a, b) = (row_of(i), row_of(j));
    let (c, d) = (column_of(i), column_of(j));
    a <= b + 1 && b <= a + 1 && c <= d + 1 && d <= c + 1
}

fn near_on(keys: &[char], shifted: &[char], a: char, b: char) -> (r: bool)
    requires
        keys@.len() == 47,
        shifted@.len() == 47,
    ensures
        r == is_near_on(keys@, shifted@, a, b),
{
    let mut i: usize = 0;
    while i < 47
        invariant
            i <= 47,
            keys@.len() == 47,
            shifted@.len() == 47,
            forall|x: int, y: int|
                0 <= x < i && 0 <= y < 47 && #[trigger] key_gives(keys@, shifted@, x, a)
                    && #[trigger] key_gives(keys@, shifted@, y, b) ==> !keys_touch(x, y),
        decreases 47 - i,
    {
        if keys[i] == a || shifted[i] == a {
            assert(key_gives(keys@, shifted@, i as int, a));
            let mut j: usize = 0;
            while j < 47
                invariant
                    i < 47,
                    j <= 47,
                    keys@.len() == 47,
                    shifted@.len() == 47,
                    key_gives(keys@, shifted@, i as int, a),
                    forall|y: int|
                        0 <= y < j && #[trigger] key_gives(keys@, shifted@, y, b) ==> !keys_touch(
                            i as int,
                            y,
                        ),
                decreases 47 - j,
            {
                if (keys[j] == b || shifted[j] == b) && touching(i, j) {
                    assert(key_gives(keys@, shifted@, j as int, b));
                    return true;
                }
                j = j + 1;
            }
        }
        i = i + 1;
    }
    false
}

fn on_keypad(c: char) -> (r: bool)
    ensures
        r == is_keypad(c),
{
    ('0' <= c && c <= '9') || c == '/' || c == '*' || c == '-' || c == '+' || c == '.' || c == '='
}

fn step(a: char, b: char) -> (r: bool)
    ensures
        r == is_step(a, b),
{
    let qwerty: [char; 47] = QWERTY;
    let qwerty_shifted: [char; 47] = QWERTY_SHIFTED;
    let dvorak: [char; 47] = DVORAK;
    let dvorak_shifted: [char; 47] = DVORAK_SHIFTED;
    if a == b {
        return false;
    }
    if on_keypad(a) && on_keypad(b) {
        return true;
    }
    near_on(qwerty.as_slice(), qwerty_shifted.as_slice(), a, b) || near_on(
        dvorak.as_slice(),
        dvorak_shifted.as_slice(),
        a,
        b,
    )
}

fn long_walk(t: &[char]) -> (r: bool)
    requires
        t@.len() <= ESTIMATED_CHARS,
    ensures
        r == has_long_walk(t@),
{
    let mut steps: usize = 0;
    let mut p: usize = 0;
    while p < t.len()
        invariant
            t@.len() <= ESTIMATED_CHARS,
            p <= t@.len(),
            p > 0 ==> steps == steps_to(t@, p - 1),
            p == 0 ==> steps == 0,
            steps <= p,
            forall|q: int| 0 <= q < p ==> #[trigger] steps_to(t@, q) < WALK,
        decreases t@.len() - p,
    {
        if p > 0 {
            if step(t[p - 1], t[p]) {
                steps = steps + 1;
            } else {
                steps = 0;
            }
        }
        assert(steps == steps_to(t@, p as int));
        if steps >= WALK {
            return true;
        }
        p = p + 1;
    }
    false
}

fn resembles(c: char, letter: char) -> (r: bool)
    ensures
        r == stands_for(c, letter),
{
    c == letter || ('A' <= c && c <= 'Z' && c as u32 + 32 == letter as u32) || (letter == 'a' && (c
        == '4' || c == '@')) || (letter == 'b' && c == '8') || (letter == 'e' && c == '3') || (
    letter == 'g' && (c == '6' || c == '9')) || (letter == 'i' && (c == '1' || c == '!' || c
        == '|')) || (letter == 'o' && c == '0') || (letter == 's' && (c == '$' || c == '5')) || (
    letter == 't' && (c == '+' || c == '7'))
}

fn pair_word(a: char, b: char) -> (r: bool)
    ensures
        r == is_pair_word(a, b),
{
    let first: [char; 23] = FIRST_LETTERS;
    let second: [char; 23] = SECOND_LETTERS;
    let mut k: usize = 0;
    while k < 23
        invariant
            k <= 23,
            first@ == FIRST_LETTERS@,
            second@ == SECOND_LETTERS@,
            forall|x: int| 0 <= x < k ==> !#[trigger] is_short_word(x, a, b),
        decreases 23 - k,
    {
        if (resembles(a, first[k]) && resembles(b, second[k])) || (resembles(b, first[k])
            && resembles(a, second[k])) {
            assert(is_short_word(k as int, a, b));
            return true;
        }
        k = k + 1;
    }
    false
}

fn apart(a: char, b: char) -> (d: u32)
    ensures
        d == distance(a, b),
{
    let x: u32 = a as u32;
    let y: u32 = b as u32;
    if x <= y {
        y - x
    } else {
        x - y
    }
}

fn constant(t: &[char], a: usize, b: usize) -> (r: bool)
    requires
        a < b <= t@.len(),
    ensures
        r == is_constant(t@, a as int, b as int),
{
    let mut x: usize = a;
    while x < b
        invariant
            a <= x <= b <= t@.len(),
            a < b,
            forall|y: int| a <= y < x ==> #[trigger] t@[y] == t@[a as int],
        decreases b - x,
    {
        if t[x] != t[a] {
            assert(t@[x as int] != t@[a as int]);
            return false;
        }
        x = x + 1;
    }
    true
}

fn run_end(t: &[char], b: usize) -> (r: bool)
    requires
        0 < b <= t@.len(),
    ensures
        r == run_ends(t@, b as int),
{
    b >= t.len() || t[b] != t[b - 1]
}

fn foreign(c: char) -> (r: bool)
    ensures
        r == is_foreign(c),
{
    c == ' ' || (c as u32 > 126 && c != '\u{212a}')
}

fn foreign_in(t: &[char], a: usize, b: usize) -> (r: bool)
    requires
        a <= b <= t@.len(),
    ensures
        r == has_foreign(t@, a as int, b as int),
{
    let mut x: usize = a;
    while x < b
        invariant
            a <= x <= b <= t@.len(),
            forall|y: int| a <= y < x ==> !is_foreign(#[trigger] t@[y]),
        decreases b - x,
    {
        if foreign(t[x]) {
            assert(is_foreign(t@[x as int]));
            return true;
        }
        x = x + 1;
    }
    false
}

fn period(t: &[char], a: usize, b: usize, d: usize) -> (r: bool)
    requires
        a + d <= b <= t@.len(),
    ensures
        r == has_period(t@, a as int, b as int, d as int),
{
    let mut x: usize = a;
    while x < b - d
        invariant
            a + d <= b <= t@.len(),
            a <= x <= b - d,
            forall|y: int| a <= y < x ==> #[trigger] t@[y] == t@[y + d],
        decreases b - d - x,
    {
        if t[x] != t[x + d] {
            assert(t@[x as int] != t@[x + d]);
            return false;
        }
        x = x + 1;
    }
    true
}

fn repeat(t: &[char], a: usize, b: usize) -> (r: bool)
    requires
        a <= b <= t@.len(),
        t@.len() <= ESTIMATED_CHARS,
    ensures
        r == is_repeat(t@, a as int, b as int),
{
    let mut d: usize = 1;
    while d <= (b - a) / 2
        invariant
            a <= b <= t@.len(),
            t@.len() <= ESTIMATED_CHARS,
            1 <= d <= (b - a) / 2 + 1,
            forall|e: int| 0 < e < d ==> !#[trigger] has_period(t@, a as int, b as int, e),
        decreases b - d,
    {
        if period(t, a, b, d) {
            assert(has_period(t@, a as int, b as int, d as int));
            return true;
        }
        d = d + 1;
    }
    false
}

fn date_like(t: &[char], a: usize, b: usize) -> (r: bool)
    requires
        a <= b <= t@.len(),
    ensures
        r == is_date_like(t@, a as int, b as int),
{
    let mut x: usize = a;
    while x < b
        invariant
            a <= x <= b <= t@.len(),
            forall|y: int| a <= y < x ==> is_date_char(#[trigger] t@[y]),
        decreases b - x,
    {
        let c: char = t[x];
        if !foreign(c) && !('0' <= c && c <= '9') {
            assert(!is_date_char(t@[x as int]));
            return false;
        }
        x = x + 1;
    }
    true
}

fn sequence_like(t: &[char], a: usize, b: usize) -> (r: bool)
    requires
        a < b <= t@.len(),
    ensures
        r == is_sequence_like(t@, a as int, b as int),
{
    let mut x: usize = a + 1;
    while x < b
        invariant
            a < x <= b <= t@.len(),
            forall|y: int| a < y < x ==> distance(t@[y - 1], #[trigger] t@[y]) <= 5,
        decreases b - x,
    {
        if apart(t[x - 1], t[x]) > 5 {
            assert(distance(t@[x - 1], t@[x as int]) > 5);
            return false;
        }
        x = x + 1;
    }
    true
}

fn pattern_possible(t: &[char], a: usize, b: usize) -> (r: bool)
    requires
        a < b <= t@.len(),
        t@.len() <= ESTIMATED_CHARS,
    ensures
        r == may_match(t@, a as int, b as int),
{
    if b - a == 1 {
        resembles(t[a], 'i')
    } else if b - a == 2 {
        pair_word(t[a], t[a + 1]) || apart(t[a], t[a + 1]) == 1 || (t[a] == t[a + 1] && run_end(
            t,
            b,
        ))
    } else if constant(t, a, b) {
        run_end(t, b) || b - a >= 5 || (b - a == 4 && '0' <= t[a] && t[a] <= '9') || t[a] == 'm'
            || t[a] == 'M'
    } else if foreign_in(t, a, b) {
        repeat(t, a, b) || date_like(t, a, b) || sequence_like(t, a, b)
    } else {
        true
    }
}

fn limit() -> (n: usize)
    ensures
        n == chain_limit(),
        6 <= n <= 14,
{
    if usize::MAX as u64 == u64::MAX {
        14
    } else {
        6
    }
}

fn long_chain(t: &[char]) -> (r: bool)
    requires
        t@.len() <= ESTIMATED_CHARS,
    ensures
        r == has_long_chain(t@),
{
    let most_allowed: usize = limit();
    let mut longest: Vec<usize> = Vec::new();
    let mut p: usize = 0;
    while p <= t.len()
        invariant
            t@.len() <= ESTIMATED_CHARS,
            p <= t@.len() + 1,
            longest@.len() == p,
            forall|q: int|
                0 <= q < p ==> #[trigger] longest@[q] == chain(t@, q, q) && longest@[q] <= q,
            most_allowed == chain_limit(),
            forall|q: int| 0 <= q < p ==> #[trigger] chain(t@, q, q) < chain_limit(),
        decreases t@.len() + 1 - p,
    {
        let mut most: usize = 0;
        let mut a: usize = 0;
        while a < p
            invariant
                t@.len() <= ESTIMATED_CHARS,
                a <= p <= t@.len(),
                longest@.len() == p,
                forall|q: int|
                    0 <= q < p ==> #[trigger] longest@[q] == chain(t@, q, q) && longest@[q] <= q,
                most == chain(t@, p as int, a as int),
                most <= p,
            decreases p - a,
        {
            let through: usize = 1 + longest[a];
            if through > most && pattern_possible(t, a, p) {
                most = through;
            }
            a = a + 1;
            assert(most == chain(t@, p as int, a as int));
        }
        if most >= most_allowed {
            assert(chain(t@, p as int, p as int) >= chain_limit());
            return true;
        }
        longest.push(most);
        p = p + 1;
    }
    false
}

fn dotted_capital(t: &[char]) -> (r: bool)
    ensures
        r == t@.contains('\u{130}'),
{
    let mut i: usize = 0;
    while i < t.len()
        invariant
            i <= t@.len(),
            forall|j: int| 0 <= j < i ==> #[trigger] t@[j] != '\u{130}',
        decreases t@.len() - i,
    {
        if t[i] == '\u{130}' {
            assert(t@[i as int] == '\u{130}');
            return true;
        }
        i = i + 1;
    }
    false
}

/// Whether a text of at most a hundred characters is crowded.
pub fn crowded(t: &[char]) -> (r: bool)
    requires
        t@.len() <= ESTIMATED_CHARS,
    ensures
        r == is_crowded(t@),
{
    t.len() >= limit() && (long_walk(t) || long_chain(t) || dotted_capital(t))
}

// ---------------------------------------------------------------------------
// Estimates
// ---------------------------------------------------------------------------

fn estimated_chars(text: &str) -> (r: Vec<char>)
    ensures
        r@ == estimated_part(text@),
        r@.len() <= ESTIMATED_CHARS,
{
    let n: usize = text.unicode_len();
    let m: usize = if n <= ESTIMATED_CHARS {
        n
    } else {
        ESTIMATED_CHARS
    };
    let mut r: Vec<char> = Vec::new();
    let mut i: usize = 0;
    while i < m
        invariant
            i <= m <= n,
            m <= ESTIMATED_CHARS,
            n == text@.len(),
            r@ == text@.take(i as int),
        decreases m - i,
    {
        r.push(text.get_char(i));
        i = i + 1;
        assert(r@ =~= text@.take(i as int));
    }
    assert(r@ =~= estimated_part(text@));
    r
}

fn text_of(t: &Vec<char>, a: usize, b: usize) -> (r: String)
    requires
        a <= b <= t@.len(),
    ensures
        r@ == t@.subrange(a as int, b as int),
{
    let mut r = String::new();
    let mut i: usize = a;
    while i < b
        invariant
            a <= i <= b <= t@.len(),
            r@ == t@.subrange(a as int, i as int),
        decreases b - i,
    {
        r.push(t[i]);
        i = i + 1;
        assert(r@ =~= t@.subrange(a as int, i as int));
    }
    r
}

/// Whatever lies between `b` and the end of the piece can be estimated.
proof fn lemma_piece_end(t: Seq<char>, a: int, b: int)
    requires
        0 <= a <= b <= t.len(),
        !is_crowded(t.subrange(a, b)),
    ensures
        b <= piece_end(t, a, b) <= t.len(),
        forall|x: int| b <= x <= piece_end(t, a, b) ==> !is_crowded(#[trigger] t.subrange(a, x)),
    decreases t.len() - b,
{
    if b < t.len() && !is_crowded(t.subrange(a, b + 1)) {
        lemma_piece_end(t, a, b + 1);
    }
}

/// A piece has at least one character, and whatever it begins with can be estimated.
proof fn lemma_piece(t: Seq<char>, a: int)
    requires
        0 <= a < t.len(),
    ensures
        a < piece_end(t, a, a) <= t.len(),
        forall|x: int| a <= x <= piece_end(t, a, a) ==> !is_crowded(#[trigger] t.subrange(a, x)),
{
    lemma_piece_end(t, a, a);
    lemma_piece_end(t, a, a + 1);
}

fn end_of_piece(t: &Vec<char>, a: usize) -> (b: usize)
    requires
        a < t@.len() <= ESTIMATED_CHARS,
    ensures
        b == piece_end(t@, a as int, a as int),
        a < b <= t@.len(),
        forall|x: int| a <= x <= b ==> !is_crowded(#[trigger] t@.subrange(a as int, x)),
{
    proof {
        lemma_piece(t@, a as int);
    }
    let mut piece: Vec<char> = Vec::new();
    let mut b: usize = a;
    assert(t@.subrange(a as int, a as int) =~= Seq::<char>::empty());
    while b < t.len()
        invariant_except_break
            piece@ == t@.subrange(a as int, b as int),
        invariant
            a <= b <= t@.len() <= ESTIMATED_CHARS,
            piece_end(t@, a as int, a as int) == piece_end(t@, a as int, b as int),
        ensures
            piece_end(t@, a as int, a as int) == b,
        decreases t@.len() - b,
    {
        piece.push(t[b]);
        assert(piece@ =~= t@.subrange(a as int, b + 1));
        if crowded(piece.as_slice()) {
            break;
        }
        b = b + 1;
    }
    b
}

/// The characters of texts.
pub open spec fn text_views(parts: Seq<String>) -> Seq<Seq<char>> {
    Seq::new(parts.len(), |i: int| parts[i]@)
}

/// The characters of texts in groups.
pub open spec fn group_views(groups: Seq<Vec<String>>) -> Seq<Seq<Seq<char>>> {
    Seq::new(groups.len(), |i: int| text_views(groups[i]@))
}

/// Each of these texts can be handed to the estimator.
pub open spec fn all_estimable(parts: Seq<String>) -> bool {
    forall|i: int| 0 <= i < parts.len() ==> can_be_estimated(#[trigger] parts[i]@)
}

/// Appends the pieces of a text from `a` on.
fn push_pieces(t: &Vec<char>, a: usize, out: &mut Vec<String>)
    requires
        a <= t@.len() <= ESTIMATED_CHARS,
        all_estimable(old(out)@),
    ensures
        text_views(final(out)@) == text_views(old(out)@) + pieces_from(t@, a as int),
        all_estimable(final(out)@),
{
    let ghost all = text_views(out@) + pieces_from(t@, a as int);
    let mut a: usize = a;
    while a < t.len()
        invariant
            a <= t@.len() <= ESTIMATED_CHARS,
            all_estimable(out@),
            all == text_views(out@) + pieces_from(t@, a as int),
        decreases t@.len() - a,
    {
        let ghost before = text_views(out@);
        let b: usize = end_of_piece(t, a);
        let part = text_of(t, a, b);
        assert(can_be_estimated(part@));
        out.push(part);
        proof {
            assert(text_views(out@) =~= before.push(part@));
            assert(before + (seq![part@] + pieces_from(t@, b as int)) =~= before.push(part@)
                + pieces_from(t@, b as int));
        }
        a = b;
    }
    assert(text_views(out@) + Seq::<Seq<char>>::empty() =~= text_views(out@));
}

/// A text with its first cut at `c`.
fn cut_text(t: &Vec<char>, c: usize) -> (r: Vec<String>)
    requires
        c <= t@.len() <= ESTIMATED_CHARS,
        !is_crowded(t@.subrange(0, c as int)),
    ensures
        text_views(r@) == cut_at(t@, c as int),
        all_estimable(r@),
        r@.len() > 0,
{
    let mut r: Vec<String> = Vec::new();
    let first = text_of(t, 0, c);
    assert(first@ =~= t@.take(c as int));
    r.push(first);
    assert(text_views(r@) =~= seq![t@.take(c as int)]);
    push_pieces(t, c, &mut r);
    assert(r@.len() == text_views(r@).len());
    r
}

fn repeated_length(t: &Vec<char>) -> (d: usize)
    requires
        0 < t@.len() <= ESTIMATED_CHARS,
    ensures
        d == repeated_from(t@, 1),
        0 < d <= t@.len(),
{
    let n: usize = t.len();
    let mut d: usize = 1;
    while d < n && !(n % d == 0 && period(t.as_slice(), 0, n, d))
        invariant
            n == t@.len(),
            0 < d <= n <= ESTIMATED_CHARS,
            repeated_from(t@, 1) == repeated_from(t@, d as int),
        ensures
            repeated_from(t@, 1) == d,
        decreases n - d,
    {
        d = d + 1;
    }
    d
}

/// What is handed to the estimator for a text. None of it is crowded.
pub fn parts_to_estimate(text: &str) -> (r: Vec<Vec<String>>)
    ensures
        group_views(r@) == handed_parts(text@),
        r@.len() > 0,
        forall|i: int| 0 <= i < r@.len() ==> all_estimable(#[trigger] r@[i]@) && r@[i]@.len() > 0,
{
    let t = estimated_chars(text);
    let mut r: Vec<Vec<String>> = Vec::new();
    if !crowded(t.as_slice()) {
        let mut whole: Vec<String> = Vec::new();
        whole.push(text.to_string());
        assert(text_views(whole@) =~= seq![text@]);
        r.push(whole);
        assert(group_views(r@) =~= seq![seq![text@]]);
        return r;
    }
    let end: usize = end_of_piece(&t, 0);
    let least: usize = if end > CUTS {
        end - CUTS
    } else {
        0
    };
    let ghost all = cuts(t@, end as int, least as int);
    let mut c: usize = end;
    assert(group_views(r@) + all =~= all);
    while c > least
        invariant
            least <= c <= end <= t@.len() <= ESTIMATED_CHARS,
            all == group_views(r@) + cuts(t@, c as int, least as int),
            r@.len() == end - c,
            forall|x: int| 0 <= x <= end ==> !is_crowded(#[trigger] t@.subrange(0, x)),
            forall|i: int|
                0 <= i < r@.len() ==> all_estimable(#[trigger] r@[i]@) && r@[i]@.len() > 0,
        decreases c - least,
    {
        let ghost before = group_views(r@);
        let parts = cut_text(&t, c);
        r.push(parts);
        proof {
            assert(group_views(r@) =~= before.push(cut_at(t@, c as int)));
            assert(before + (seq![cut_at(t@, c as int)] + cuts(t@, c - 1, least as int))
                =~= before.push(cut_at(t@, c as int)) + cuts(t@, c - 1, least as int));
        }
        c = c - 1;
    }
    assert(group_views(r@) =~= all);
    let base: usize = repeated_length(&t);
    if base <= end {
        let mut only: Vec<String> = Vec::new();
        let part = text_of(&t, 0, base);
        assert(part@ =~= t@.take(base as int));
        assert(!is_crowded(t@.subrange(0, base as int)));
        only.push(part);
        assert(text_views(only@) =~= seq![t@.take(base as int)]);
        r.push(only);
        assert(group_views(r@) =~= all + seq![seq![t@.take(base as int)]]);
    } else {
        assert(all + Seq::<Seq<Seq<char>>>::empty() =~= all);
    }
    r
}

/// A call of the estimator with this text came back with this score and this number of guesses.
/// Which these are depends on the current year and the order in which hash maps are walked, so that
/// they may be others at the next call.
pub closed spec fn zxcvbn_said(text: Seq<char>, score: u8, guesses: u64) -> bool {
    exists|t: &str| t@ == text && #[trigger] call_ensures(zxcvbn_estimate, (t,), (score, guesses))
}

/// What is said of a text was said by the estimator, in a call with that very text.
pub(crate) proof fn law_only_the_estimator_says(text: Seq<char>, score: u8, guesses: u64)
    ensures
        zxcvbn_said(text, score, guesses) <==> exists|t: &str|
            t@ == text && #[trigger] call_ensures(zxcvbn_estimate, (t,), (score, guesses)),
{
}

/// The score follows from the guesses, and an empty text takes none.
pub proof fn law_score_follows_from_guesses(text: Seq<char>, score: u8, guesses: u64)
    requires
        zxcvbn_said(text, score, guesses),
    ensures
        score == 0 <==> guesses < 1_005,
        score == 1 <==> 1_005 <= guesses < 1_000_005,
        score == 2 <==> 1_000_005 <= guesses < 100_000_005,
        score == 3 <==> 100_000_005 <= guesses < 10_000_000_005,
        score == 4 <==> 10_000_000_005 <= guesses,
        text.len() == 0 ==> guesses == 0,
{
}

/// The estimator was asked for every part of every way, and these are its guesses.
pub open spec fn ways_estimated(ways: Seq<Seq<Seq<char>>>, guesses: Seq<Seq<u64>>) -> bool {
    &&& guesses.len() == ways.len()
    &&& forall|i: int| 0 <= i < ways.len() ==> (#[trigger] guesses[i]).len() == ways[i].len()
    &&& forall|i: int, j: int|
        0 <= i < ways.len() && 0 <= j < ways[i].len() ==> zxcvbn_said(
            ways[i][j],
            zxcvbn_score(guesses[i][j]),
            #[trigger] guesses[i][j],
        )
}

/// An estimate of a text: the estimator was asked for all that is handed to it, the guesses for the
/// parts of a way multiply, and the way with the fewest counts.
pub open spec fn is_estimate(text: Seq<char>, score: u8, guesses: u64) -> bool {
    &&& score == zxcvbn_score(guesses)
    &&& exists|all: Seq<Seq<u64>>|
        {
            &&& #[trigger] ways_estimated(handed_parts(text), all)
            &&& exists|k: int| 0 <= k < all.len() && #[trigger] joint(all[k]) == guesses
            &&& forall|j: int| 0 <= j < all.len() ==> guesses <= #[trigger] joint(all[j])
        }
}

/// The estimate of a text that is not crowded is what the estimator says of the text itself.
pub proof fn law_plain_texts_are_estimated_whole(text: Seq<char>, score: u8, guesses: u64)
    requires
        !is_crowded(estimated_part(text)),
        is_estimate(text, score, guesses),
    ensures
        zxcvbn_said(text, score, guesses),
{
    let all = choose|all: Seq<Seq<u64>>|
        {
            &&& #[trigger] ways_estimated(handed_parts(text), all)
            &&& exists|k: int| 0 <= k < all.len() && #[trigger] joint(all[k]) == guesses
            &&& forall|j: int| 0 <= j < all.len() ==> guesses <= #[trigger] joint(all[j])
        };
    let ways = handed_parts(text);
    assert(ways == seq![seq![text]]);
    assert(ways[0] == seq![text]);
    let k = choose|k: int| 0 <= k < all.len() && #[trigger] joint(all[k]) == guesses;
    assert(k == 0);
    assert(all[0].len() == 1);
    assert(zxcvbn_said(ways[0][0], zxcvbn_score(all[0][0]), all[0][0]));
    assert(all[0].drop_last() =~= Seq::<u64>::empty());
    assert(product(all[0]) == 1 * (all[0][0] as nat)) by {
        assert(product(all[0].drop_last()) == 1);
    }
    assert(joint(all[0]) == all[0][0]);
}

/// All parts in a row.
pub open spec fn joined_text(parts: Seq<Seq<char>>) -> Seq<char>
    decreases parts.len(),
{
    if parts.len() == 0 {
        Seq::empty()
    } else {
        parts[0] + joined_text(parts.skip(1))
    }
}

proof fn lemma_pieces_make_up_the_rest(t: Seq<char>, a: int)
    requires
        0 <= a <= t.len(),
    ensures
        joined_text(pieces_from(t, a)) == t.skip(a),
    decreases t.len() - a,
{
    if a < t.len() {
        lemma_piece(t, a);
        let end = piece_end(t, a, a);
        lemma_pieces_make_up_the_rest(t, end);
        let pieces = pieces_from(t, a);
        assert(pieces.skip(1) =~= pieces_from(t, end));
        assert(t.subrange(a, end) + t.skip(end) =~= t.skip(a));
    } else {
        assert(t.skip(a) =~= Seq::<char>::empty());
    }
}

proof fn lemma_cuts_make_up_the_text(t: Seq<char>, c: int, least: int, i: int)
    requires
        0 <= least <= c <= t.len(),
        0 <= i < cuts(t, c, least).len(),
    ensures
        joined_text(cuts(t, c, least)[i]) == t,
    decreases c - least,
{
    if i == 0 {
        lemma_pieces_make_up_the_rest(t, c);
        let cut = cut_at(t, c);
        assert(cut.skip(1) =~= pieces_from(t, c));
        assert(t.take(c) + t.skip(c) =~= t);
    } else {
        lemma_cuts_make_up_the_text(t, c - 1, least, i - 1);
    }
}

proof fn lemma_repeated(t: Seq<char>, d: int)
    requires
        0 < d <= t.len(),
    ensures
        0 < repeated_from(t, d) <= t.len(),
        t.len() as int % repeated_from(t, d) == 0,
        forall|x: int|
            0 <= x && x + repeated_from(t, d) < t.len() ==> #[trigger] t[x] == t[x + repeated_from(
                t,
                d,
            )],
    decreases t.len() - d,
{
    if d >= t.len() {
        assert(t.len() as int % (t.len() as int) == 0);
    } else if t.len() as int % d == 0 && has_period(t, 0, t.len() as int, d) {
    } else {
        lemma_repeated(t, d + 1);
    }
}

/// Nothing of a text is kept from the estimate, as far as the estimator would read it, which is the
/// first hundred characters: the parts of each way make up the text in a row, or the only part does
/// by being repeated. A text that is not crowded is handed over as it is.
pub proof fn law_parts_make_up_the_text(text: Seq<char>, i: int)
    requires
        0 <= i < handed_parts(text).len(),
    ensures
        ({
            let read = if text.len() <= 100 {
                text
            } else {
                text.take(100)
            };
            let way = handed_parts(text)[i];
            if !is_crowded(read) {
                way == seq![text]
            } else {
                joined_text(way) == read || {
                    &&& way.len() == 1
                    &&& 0 < way[0].len()
                    &&& read.len() as int % (way[0].len() as int) == 0
                    &&& forall|x: int|
                        0 <= x < read.len() ==> #[trigger] read[x] == way[0][x % (
                        way[0].len() as int)]
                }
            }
        }),
{
    let t = estimated_part(text);
    if is_crowded(t) {
        lemma_piece(t, 0);
        let end = piece_end(t, 0, 0);
        let least = if end > CUTS {
            end - CUTS
        } else {
            0
        };
        let n = cuts(t, end, least).len();
        if i < n {
            lemma_cuts_make_up_the_text(t, end, least, i);
        } else {
            let d = repeated_from(t, 1);
            lemma_repeated(t, 1);
            let way = handed_parts(text)[i];
            assert(way == seq![t.take(d)]);
            assert forall|x: int| 0 <= x < t.len() implies #[trigger] t[x] == way[0][x % d] by {
                lemma_periodic(t, d, x);
            }
        }
    }
}

proof fn lemma_periodic(t: Seq<char>, d: int, x: int)
    requires
        0 < d <= t.len(),
        forall|y: int| 0 <= y && y + d < t.len() ==> #[trigger] t[y] == t[y + d],
        0 <= x < t.len(),
    ensures
        t[x] == t[x % d],
        0 <= x % d < d,
    decreases x,
{
    if x >= d {
        lemma_periodic(t, d, x - d);
        assert(t[x - d] == t[x - d + d]);
        assert(x % d == (x - d) % d) by {
            vstd::arithmetic::div_mod::lemma_mod_sub_multiples_vanish(x, d);
        }
    } else {
        vstd::arithmetic::div_mod::lemma_small_mod(x as nat, d as nat);
    }
}

/// An estimate rests on what the estimator said of every part of every way in which the text is
/// handed to it. It is the product of the guesses for the parts of one of these ways, up to the
/// greatest number that can be held, and no other way has a smaller one.
pub proof fn law_estimates_rest_on_every_part(text: Seq<char>, score: u8, guesses: u64)
    requires
        is_estimate(text, score, guesses),
    ensures
        score == zxcvbn_score(guesses),
        exists|all: Seq<Seq<u64>>|
            {
                &&& #[trigger] all.len() == handed_parts(text).len()
                &&& forall|i: int|
                    0 <= i < all.len() ==> (#[trigger] all[i]).len() == handed_parts(text)[i].len()
                &&& forall|i: int, j: int|
                    0 <= i < all.len() && 0 <= j < all[i].len() ==> zxcvbn_said(
                        handed_parts(text)[i][j],
                        zxcvbn_score(all[i][j]),
                        #[trigger] all[i][j],
                    )
                &&& exists|k: int|
                    {
                        &&& 0 <= k < all.len()
                        &&& #[trigger] product(all[k]) > u64::MAX ==> guesses == u64::MAX
                        &&& product(all[k]) <= u64::MAX ==> guesses == product(all[k])
                    }
                &&& forall|k: int|
                    0 <= k < all.len() ==> guesses <= #[trigger] product(all[k]) || guesses
                        == u64::MAX
            },
{
    let all = choose|all: Seq<Seq<u64>>|
        {
            &&& #[trigger] ways_estimated(handed_parts(text), all)
            &&& exists|k: int| 0 <= k < all.len() && #[trigger] joint(all[k]) == guesses
            &&& forall|j: int| 0 <= j < all.len() ==> guesses <= #[trigger] joint(all[j])
        };
    assert forall|i: int, j: int| 0 <= i < all.len() && 0 <= j < all[i].len() implies zxcvbn_said(
        handed_parts(text)[i][j],
        zxcvbn_score(all[i][j]),
        #[trigger] all[i][j],
    ) by {
        assert(all[i].len() == handed_parts(text)[i].len());
    }
    let k = choose|k: int| 0 <= k < all.len() && #[trigger] joint(all[k]) == guesses;
    assert(product(all[k]) > u64::MAX ==> guesses == u64::MAX);
    assert(product(all[k]) <= u64::MAX ==> guesses == product(all[k]));
    assert forall|j: int| 0 <= j < all.len() implies guesses <= #[trigger] product(all[j])
        || guesses == u64::MAX by {
        assert(guesses <= joint(all[j]));
    }
    assert(all.len() == handed_parts(text).len());
}

/// The first character of a piece would have crowded the one before it.
proof fn lemma_pieces_are_long(t: Seq<char>, a: int, j: int)
    requires
        0 <= a <= t.len(),
        0 <= j < pieces_from(t, a).len() - 1,
    ensures
        pieces_from(t, a)[j + 1].len() > 0,
        is_crowded(pieces_from(t, a)[j].push(pieces_from(t, a)[j + 1][0])),
    decreases j,
{
    lemma_piece(t, a);
    let end = piece_end(t, a, a);
    lemma_piece_end_is_last(t, a, a);
    let rest = pieces_from(t, end);
    if j == 0 {
        lemma_piece(t, end);
        assert(pieces_from(t, a)[0] == t.subrange(a, end));
        assert(pieces_from(t, a)[1] == rest[0]);
        assert(rest[0][0] == t[end]);
        assert(t.subrange(a, end).push(t[end]) =~= t.subrange(a, end + 1));
    } else {
        lemma_pieces_are_long(t, end, j - 1);
    }
}

proof fn lemma_piece_end_is_last(t: Seq<char>, a: int, b: int)
    requires
        0 <= a <= b <= t.len(),
    ensures
        piece_end(t, a, b) <= t.len(),
        piece_end(t, a, b) < t.len() ==> is_crowded(t.subrange(a, piece_end(t, a, b) + 1)),
    decreases t.len() - b,
{
    if b < t.len() && !is_crowded(t.subrange(a, b + 1)) {
        lemma_piece_end_is_last(t, a, b + 1);
    }
}

proof fn lemma_cuts(t: Seq<char>, c: int, least: int, i: int)
    requires
        0 <= i < c - least,
    ensures
        cuts(t, c, least).len() == c - least,
        cuts(t, c, least)[i] == cut_at(t, c - i),
    decreases c - least,
{
    if i > 0 {
        lemma_cuts(t, c - 1, least, i - 1);
    } else if c - 1 > least {
        lemma_cuts(t, c - 1, least, 0);
    } else {
        assert(cuts(t, c - 1, least).len() == 0);
    }
}

/// How a crowded text is cut: its longest beginning that is not crowded has `end` characters, the
/// first cut is tried in each of the last 23 places of that, and behind it every piece goes on
/// until the next character would crowd it.
pub proof fn law_crowded_texts_are_cut_late(text: Seq<char>, i: int, j: int)
    requires
        text.len() <= 100,
        is_crowded(text),
    ensures
        exists|end: int|
            {
                &&& 0 < end < text.len()
                &&& !is_crowded(#[trigger] text.take(end))
                &&& is_crowded(text.take(end + 1))
                &&& 0 <= i < end && i < 23 ==> {
                    let way = handed_parts(text)[i];
                    &&& i < handed_parts(text).len()
                    &&& way[0] == text.take(end - i)
                    &&& 1 <= j < way.len() - 1 ==> way[j + 1].len() > 0 && is_crowded(
                        way[j].push(way[j + 1][0]),
                    )
                }
            },
{
    lemma_piece(text, 0);
    let end = piece_end(text, 0, 0);
    lemma_piece_end_is_last(text, 0, 0);
    assert(text.subrange(0, end) =~= text.take(end));
    if end == text.len() {
        assert(text.take(end) =~= text);
    }
    assert(text.subrange(0, end + 1) =~= text.take(end + 1));
    if 0 <= i < end && i < 23 {
        let least = if end > CUTS {
            end - CUTS
        } else {
            0
        };
        lemma_cuts(text, end, least, i);
        let way = handed_parts(text)[i];
        assert(way == cut_at(text, end - i));
        if 1 <= j < way.len() - 1 {
            lemma_pieces_are_long(text, end - i, j - 1);
        }
    }
}

proof fn lemma_chain(t: Seq<char>, p: int, a: int, x: int)
    requires
        0 <= a <= p,
        0 <= x < a,
    ensures
        may_match(t, x, p) ==> chain(t, p, a) >= 1 + chain(t, x, x),
        chain(t, p, a) > 0 ==> exists|y: int|
            0 <= y < a && #[trigger] may_match(t, y, p) && chain(t, p, a) == 1 + chain(t, y, y),
    decreases a,
{
    if x < a - 1 {
        lemma_chain(t, p, a - 1, x);
    } else if a > 1 {
        lemma_chain(t, p, a - 1, 0);
    } else {
        assert(chain(t, p, 0) == 0);
    }
    if chain(t, p, a) > 0 && chain(t, p, a) != chain(t, p, a - 1) {
        assert(may_match(t, a - 1, p));
    }
}

/// The patterns that can follow one another up to `p` are as many as can be: one that ends there
/// and those that can follow one another up to where it begins, and none where nothing ends there.
pub proof fn law_chains_are_patterns_in_a_row(t: Seq<char>, p: int, a: int)
    requires
        0 <= a < p,
    ensures
        chain(t, 0, 0) == 0,
        may_match(t, a, p) ==> chain(t, p, p) >= 1 + chain(t, a, a),
        chain(t, p, p) > 0 ==> exists|y: int|
            0 <= y < p && #[trigger] may_match(t, y, p) && chain(t, p, p) == 1 + chain(t, y, y),
{
    lemma_chain(t, p, p, a);
}

/// What can be no pattern: a single character that is no `i` and resembles none, and what holds a
/// space and something else than digits, in which some character is far from the one before it,
/// unless it is a repetition.
pub proof fn law_gaps_between_patterns(t: Seq<char>, a: int, b: int, x: int, y: int)
    requires
        0 <= a < b <= t.len(),
    ensures
        b == a + 1 ==> (may_match(t, a, b) <==> t[a] == 'i' || t[a] == 'I' || t[a] == '1' || t[a]
            == '!' || t[a] == '|'),
        ({
            &&& b - a >= 3
            &&& a <= x < b && t[x] == ' '
            &&& a <= y < b && t[y] != ' ' && t[y] as u32 <= 126 && !('0' <= t[y] && t[y] <= '9')
            &&& exists|z: int|
                a < z < b && (t[z - 1] as u32 - #[trigger] t[z] as u32 > 5 || t[z] as u32 - t[z
                    - 1] as u32 > 5)
        }) ==> (may_match(t, a, b) <==> exists|d: int|
            0 < d && a + 2 * d <= b && #[trigger] has_period(t, a, b, d)),
{
    if b == a + 1 {
        assert('I' as u32 == 73 && 'i' as u32 == 105);
    }
    if b - a >= 3 && a <= x < b && t[x] == ' ' && a <= y < b && t[y] != ' ' && t[y] as u32 <= 126
        && !('0' <= t[y] && t[y] <= '9') {
        assert(t[x] != t[y]);
        assert(!is_constant(t, a, b)) by {
            if is_constant(t, a, b) {
                assert(t[x] == t[a] && t[y] == t[a]);
            }
        }
        assert(is_foreign(t[x]));
        assert(!is_date_char(t[y]));
        if exists|z: int|
            a < z < b && (t[z - 1] as u32 - #[trigger] t[z] as u32 > 5 || t[z] as u32 - t[z
                - 1] as u32 > 5) {
            let z = choose|z: int|
                a < z < b && (t[z - 1] as u32 - #[trigger] t[z] as u32 > 5 || t[z] as u32 - t[z
                    - 1] as u32 > 5);
            assert(distance(t[z - 1], t[z]) > 5);
        }
    }
}

/// Only a text of at least 14 characters can be crowded, where addresses have 64 bits, and one of
/// at least 6 where they have less; every other text is handed over as it is. A crowded one holds a
/// walk of 28 steps, or as many patterns as that without a gap, or a capital I with a dot.
pub proof fn law_short_texts_are_not_crowded(text: Seq<char>)
    ensures
        text.len() < 6 ==> !is_crowded(text),
        text.len() < 14 && usize::MAX == u64::MAX ==> !is_crowded(text),
        text.len() < 14 && usize::MAX == u64::MAX ==> handed_parts(text) == seq![seq![text]],
        is_crowded(text) ==> {
            ||| exists|p: int| 0 <= p < text.len() && #[trigger] steps_to(text, p) >= 28
            ||| exists|p: int| 0 <= p <= text.len() && #[trigger] chain(text, p, p) >= 6
            ||| text.contains('\u{130}')
        },
        is_crowded(text) && usize::MAX == u64::MAX ==> {
            ||| exists|p: int| 0 <= p < text.len() && #[trigger] steps_to(text, p) >= 28
            ||| exists|p: int| 0 <= p <= text.len() && #[trigger] chain(text, p, p) >= 14
            ||| text.contains('\u{130}')
        },
{
}

/// The guesses for one part more multiply with those for the others, up to the greatest number that
/// can be held.
pub proof fn law_guesses_multiply(others: Seq<u64>, one: u64)
    ensures
        joint(Seq::empty()) == 1,
        product(others.push(one)) == product(others) * (one as nat),
        joint(others) <= product(others),
        product(others) <= u64::MAX ==> joint(others) == product(others),
        product(others) > u64::MAX ==> joint(others) == u64::MAX,
{
    assert(others.push(one).drop_last() =~= others);
}

/// Estimates each part on its own: the number of guesses. What the estimator says depends on the
/// current year and the order in which hash maps are walked, so that no more is stated of it than
/// that it said so of that part, and that an empty text takes no guess.
pub fn estimate_parts(parts: &Vec<String>) -> (r: Vec<u64>)
    requires
        all_estimable(parts@),
    ensures
        r@.len() == parts@.len(),
        forall|i: int| 0 <= i < r@.len() && parts@[i]@.len() == 0 ==> #[trigger] r@[i] == 0,
        forall|i: int|
            0 <= i < r@.len() ==> zxcvbn_said(
                parts@[i]@,
                zxcvbn_score(r@[i]),
                #[trigger] r@[i],
            ),
{
    let mut r: Vec<u64> = Vec::new();
    let mut i: usize = 0;
    while i < parts.len()
        invariant
            i <= parts@.len(),
            r@.len() == i,
            all_estimable(parts@),
            forall|j: int| 0 <= j < i && parts@[j]@.len() == 0 ==> #[trigger] r@[j] == 0,
            forall|j: int|
                0 <= j < i ==> zxcvbn_said(parts@[j]@, zxcvbn_score(r@[j]), #[trigger] r@[j]),
        decreases parts@.len() - i,
    {
        let (score, guesses) = zxcvbn_estimate(parts[i].as_str());
        assert(zxcvbn_said(parts@[i as int]@, score, guesses));
        r.push(guesses);
        i = i + 1;
    }
    r
}

/// All numbers multiplied.
pub open spec fn product(s: Seq<u64>) -> nat
    decreases s.len(),
{
    if s.len() == 0 {
        1
    } else {
        product(s.drop_last()) * (s.last() as nat)
    }
}

/// A number, or the greatest that can be held where it is too large.
pub open spec fn capped(a: nat) -> u64 {
    if a > u64::MAX {
        u64::MAX
    } else {
        a as u64
    }
}

/// The guesses for a text all of whose parts have to be guessed, from those for the parts.
pub open spec fn joint(s: Seq<u64>) -> u64 {
    capped(product(s))
}

/// Multiplies the guesses for the parts of a text.
pub fn joint_guesses(guesses: &Vec<u64>) -> (r: u64)
    ensures
        r == joint(guesses@),
{
    let mut r: u64 = 1;
    let mut i: usize = 0;
    assert(guesses@.take(0) =~= Seq::<u64>::empty());
    while i < guesses.len()
        invariant
            i <= guesses@.len(),
            r == joint(guesses@.take(i as int)),
        decreases guesses@.len() - i,
    {
        let x: u64 = guesses[i];
        let ghost before = product(guesses@.take(i as int));
        assert(guesses@.take(i + 1).drop_last() =~= guesses@.take(i as int));
        assert(product(guesses@.take(i + 1)) == before * (x as nat));
        r = times(r, x);
        proof {
            lemma_joint_step(before, x);
        }
        i = i + 1;
    }
    assert(guesses@.take(i as int) =~= guesses@);
    r
}

fn times(a: u64, b: u64) -> (r: u64)
    ensures
        r == capped((a as nat) * (b as nat)),
{
    assert((a as nat) * (b as nat) <= 0xFFFF_FFFF_FFFF_FFFF * 0xFFFF_FFFF_FFFF_FFFF)
        by (nonlinear_arith)
        requires
            a <= 0xFFFF_FFFF_FFFF_FFFF,
            b <= 0xFFFF_FFFF_FFFF_FFFF,
    ;
    let wide: u128 = (a as u128) * (b as u128);
    if wide > u64::MAX as u128 {
        u64::MAX
    } else {
        wide as u64
    }
}

proof fn lemma_joint_step(before: nat, x: u64)
    ensures
        capped((capped(before) as nat) * (x as nat)) == capped(before * (x as nat)),
{
    if before > u64::MAX {
        if x == 0 {
            assert(before * 0 == 0) by (nonlinear_arith);
            assert((u64::MAX as nat) * 0 == 0) by (nonlinear_arith);
        } else {
            assert(before * (x as nat) >= before) by (nonlinear_arith)
                requires
                    x >= 1,
            ;
            assert((u64::MAX as nat) * (x as nat) >= u64::MAX) by (nonlinear_arith)
                requires
                    x >= 1,
            ;
        }
    }
}

/// The least of some numbers.
pub fn least(numbers: &Vec<u64>) -> (r: u64)
    requires
        numbers@.len() > 0,
    ensures
        numbers@.contains(r),
        forall|j: int| 0 <= j < numbers@.len() ==> r <= #[trigger] numbers@[j],
{
    let mut r: u64 = numbers[0];
    let mut i: usize = 1;
    while i < numbers.len()
        invariant
            1 <= i <= numbers@.len(),
            exists|k: int| 0 <= k < i && numbers@[k] == r,
            forall|j: int| 0 <= j < i ==> r <= #[trigger] numbers@[j],
        decreases numbers@.len() - i,
    {
        if numbers[i] < r {
            r = numbers[i];
        }
        i = i + 1;
    }
    r
}

/// The score that goes with a number of guesses.
pub fn score_of(guesses: u64) -> (score: u8)
    ensures
        score == zxcvbn_score(guesses),
{
    if guesses < 1_005 {
        0
    } else if guesses < 1_000_005 {
        1
    } else if guesses < 100_000_005 {
        2
    } else if guesses < 10_000_000_005 {
        3
    } else {
        4
    }
}

/// The estimate of a text from the guesses for the parts of each way to cut it: those of the parts
/// multiply, and the way with the fewest counts.
pub fn weakest(groups: &Vec<Vec<u64>>) -> (r: (u8, u64))
    requires
        groups@.len() > 0,
    ensures
        r.0 == zxcvbn_score(r.1),
        exists|k: int| 0 <= k < groups@.len() && #[trigger] joint(groups@[k]@) == r.1,
        forall|j: int| 0 <= j < groups@.len() ==> r.1 <= #[trigger] joint(groups@[j]@),
{
    let mut all: Vec<u64> = Vec::new();
    let mut i: usize = 0;
    while i < groups.len()
        invariant
            i <= groups@.len(),
            all@.len() == i,
            forall|j: int| 0 <= j < i ==> #[trigger] all@[j] == joint(groups@[j]@),
        decreases groups@.len() - i,
    {
        all.push(joint_guesses(&groups[i]));
        i = i + 1;
    }
    let guesses: u64 = least(&all);
    proof {
        let k = choose|k: int| 0 <= k < all@.len() && all@[k] == guesses;
        assert(joint(groups@[k]@) == guesses);
        assert forall|j: int| 0 <= j < groups@.len() implies guesses <= #[trigger] joint(
            groups@[j]@,
        ) by {
            assert(all@[j] == joint(groups@[j]@));
        }
    }
    (score_of(guesses), guesses)
}

/// Estimates the parts of each way to cut a text.
pub fn estimate_groups(groups: &Vec<Vec<String>>) -> (r: Vec<Vec<u64>>)
    requires
        forall|i: int| 0 <= i < groups@.len() ==> all_estimable(#[trigger] groups@[i]@),
    ensures
        r@.len() == groups@.len(),
        forall|i: int| 0 <= i < r@.len() ==> #[trigger] r@[i]@.len() == groups@[i]@.len(),
        forall|i: int, j: int|
            0 <= i < r@.len() && 0 <= j < r@[i]@.len() && groups@[i]@[j]@.len() == 0
                ==> #[trigger] r@[i]@[j] == 0,
        forall|i: int, j: int|
            0 <= i < r@.len() && 0 <= j < r@[i]@.len() ==> zxcvbn_said(
                groups@[i]@[j]@,
                zxcvbn_score(r@[i]@[j]),
                #[trigger] r@[i]@[j],
            ),
{
    let mut r: Vec<Vec<u64>> = Vec::new();
    let mut i: usize = 0;
    while i < groups.len()
        invariant
            i <= groups@.len(),
            r@.len() == i,
            forall|x: int| 0 <= x < groups@.len() ==> all_estimable(#[trigger] groups@[x]@),
            forall|x: int| 0 <= x < i ==> #[trigger] r@[x]@.len() == groups@[x]@.len(),
            forall|x: int, j: int|
                0 <= x < i && 0 <= j < r@[x]@.len() && groups@[x]@[j]@.len() == 0
                    ==> #[trigger] r@[x]@[j] == 0,
            forall|x: int, j: int|
                0 <= x < i && 0 <= j < r@[x]@.len() ==> zxcvbn_said(
                    groups@[x]@[j]@,
                    zxcvbn_score(r@[x]@[j]),
                    #[trigger] r@[x]@[j],
                ),
        decreases groups@.len() - i,
    {
        r.push(estimate_parts(&groups[i]));
        i = i + 1;
    }
    r
}

/// Estimates a text: the score and the number of guesses. An empty text is guessed at once.
pub fn estimate(text: &str) -> (r: (u8, u64))
    ensures
        r.0 == zxcvbn_score(r.1),
        is_estimate(text@, r.0, r.1),
        !is_crowded(estimated_part(text@)) ==> zxcvbn_said(text@, r.0, r.1),
        text@.len() == 0 ==> r.1 == 0,
{
    let parts = parts_to_estimate(text);
    let guesses = estimate_groups(&parts);
    let r = weakest(&guesses);
    proof {
        let ways = handed_parts(text@);
        let all = Seq::new(guesses@.len(), |i: int| guesses@[i]@);
        assert(ways.len() == parts@.len());
        assert forall|i: int| 0 <= i < ways.len() implies ways[i] == #[trigger] text_views(
            parts@[i]@,
        ) by {
            assert(group_views(parts@)[i] == ways[i]);
        }
        assert forall|i: int| 0 <= i < ways.len() implies (#[trigger] all[i]).len()
            == ways[i].len() by {
            assert(ways[i] == text_views(parts@[i]@));
            assert(guesses@[i]@.len() == parts@[i]@.len());
        }
        assert forall|i: int, j: int| 0 <= i < ways.len() && 0 <= j < ways[i].len() implies
            zxcvbn_said(ways[i][j], zxcvbn_score(all[i][j]), #[trigger] all[i][j]) by {
            assert(ways[i] == text_views(parts@[i]@));
            assert(all[i][j] == guesses@[i]@[j]);
            assert(ways[i][j] == parts@[i]@[j]@);
        }
        assert(ways_estimated(ways, all));
        let k = choose|k: int| 0 <= k < guesses@.len() && #[trigger] joint(guesses@[k]@) == r.1;
        assert(joint(all[k]) == r.1);
        assert forall|j: int| 0 <= j < all.len() implies r.1 <= #[trigger] joint(all[j]) by {
            assert(joint(guesses@[j]@) >= r.1);
        }
        assert(is_estimate(text@, r.0, r.1));
        if !is_crowded(estimated_part(text@)) {
            law_plain_texts_are_estimated_whole(text@, r.0, r.1);
        }
        if text@.len() == 0 {
            assert(handed_parts(text@) == seq![seq![text@]]);
            assert(group_views(parts@)[0] == text_views(parts@[0]@));
            assert(text_views(parts@[0]@) == seq![text@]);
            assert(text_views(parts@[0]@)[0] == text@);
            assert(parts@[0]@.len() == 1 && parts@[0]@[0]@ == text@);
            let first = guesses@[0]@;
            assert(first.len() == 1 && first[0] == 0);
            assert(product(first) == product(first.drop_last()) * 0);
            assert(joint(first) == 0);
        }
    }
    r
}

} // verus!
