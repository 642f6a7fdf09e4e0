//! Reading the lines that the player types: the menu choice and a move.

use vstd::prelude::*;

verus! {

/// The characters that `char::is_whitespace` accepts (Unicode `White_Space`).
pub open spec fn is_space(c: char) -> bool {
    let u = c as u32;
    (9 <= u <= 13) || u == 32 || u == 0x85 || u == 0xa0 || u == 0x1680 || (0x2000 <= u <= 0x200a)
        || u == 0x2028 || u == 0x2029 || u == 0x202f || u == 0x205f || u == 0x3000
}

/// Returns whether `c` is white space, as `char::is_whitespace` decides it.
pub fn is_space_char(c: char) -> (r: bool)
    ensures
        r == is_space(c),
{
    let u = c as u32;
    (9 <= u && u <= 13) || u == 32 || u == 0x85 || u == 0xa0 || u == 0x1680 || (0x2000 <= u && u
        <= 0x200a) || u == 0x2028 || u == 0x2029 || u == 0x202f || u == 0x205f || u == 0x3000
}

/// The words among the first `n` characters of `s`: for each maximal run of
/// characters that are not white space, its start and its end (exclusive).
pub open spec fn words_upto(s: Seq<char>, n: int) -> Seq<(int, int)>
    decreases n,
{
    if n <= 0 {
        seq![]
    } else {
        let w = words_upto(s, n - 1);
        if is_space(s[n - 1]) {
            w
        } else if n >= 2 && !is_space(s[n - 2]) {
            w.update(w.len() - 1, (w.last().0, n))
        } else {
            w.push((n - 1, n))
        }
    }
}

/// The words of `s`, as `str::split_whitespace` yields them.
pub open spec fn words(s: Seq<char>) -> Seq<(int, int)> {
    words_upto(s, s.len() as int)
}

/// The characters of word `w` of `s`.
pub open spec fn word(s: Seq<char>, w: (int, int)) -> Seq<char> {
    s.subrange(w.0, w.1)
}

/// Every word found in the first `n` characters lies within them, and when
/// character `n - 1` is not white space the last word ends just after it.
proof fn lemma_words_upto(s: Seq<char>, n: int)
    requires
        0 <= n <= s.len(),
    ensures
        forall|k: int|
            0 <= k < words_upto(s, n).len() ==> 0 <= (#[trigger] words_upto(s, n)[k]).0
                < words_upto(s, n)[k].1 <= n,
        n >= 1 && !is_space(s[n - 1]) ==> words_upto(s, n).len() > 0 && words_upto(s, n).last().1
            == n,
    decreases n,
{
    if n > 0 {
        lemma_words_upto(s, n - 1);
        let w = words_upto(s, n - 1);
        if !is_space(s[n - 1]) && n >= 2 && !is_space(s[n - 2]) {
            let v = words_upto(s, n);
            assert(w.last() == w[w.len() - 1]);
            assert forall|k: int| 0 <= k < v.len() implies 0 <= (#[trigger] v[k]).0 < v[k].1 <= n by {
                if k < w.len() - 1 {
                    assert(v[k] == w[k]);
                }
            }
        }
    }
}

/// The word bounds as indices of the executable vector.
pub open spec fn bounds_view(v: Seq<(usize, usize)>) -> Seq<(int, int)> {
    v.map_values(|p: (usize, usize)| (p.0 as int, p.1 as int))
}

/// Splits `line` into its words, as start and end (exclusive) indices.
pub fn split_words(line: &Vec<char>) -> (ws: Vec<(usize, usize)>)
    ensures
        bounds_view(ws@) == words(line@),
        forall|k: int|
            0 <= k < ws@.len() ==> (#[trigger] ws@[k]).0 < ws@[k].1 <= line@.len(),
{
    let mut ws: Vec<(usize, usize)> = Vec::new();
    let mut i: usize = 0;
    while i < line.len()
        invariant
            i <= line@.len(),
            bounds_view(ws@) == words_upto(line@, i as int),
        decreases line@.len() - i,
    {
        proof {
            lemma_words_upto(line@, i as int);
        }
        let ch = line[i];
        if is_space_char(ch) {
        } else if i >= 1 && !is_space_char(line[i - 1]) {
            let last = ws.len() - 1;
            let start = ws[last].0;
            ws.set(last, (start, i + 1));
            assert(bounds_view(ws@) =~= words_upto(line@, i + 1));
        } else {
            ws.push((i, i + 1));
            assert(bounds_view(ws@) =~= words_upto(line@, i + 1));
        }
        i = i + 1;
    }
    proof {
        lemma_words_upto(line@, line@.len() as int);
        assert forall|k: int| 0 <= k < ws@.len() implies (#[trigger] ws@[k]).0 < ws@[k].1
            <= line@.len() by {
            assert(bounds_view(ws@)[k] == words(line@)[k]);
        }
    }
    ws
}

/// An ASCII decimal digit.
pub open spec fn is_digit(c: char) -> bool {
    48 <= (c as u32) <= 57
}

/// The value of an ASCII decimal digit.
pub open spec fn digit_value(c: char) -> nat {
    ((c as u32) - 48) as nat
}

/// The value of a string of decimal digits, most significant first.
pub open spec fn digits_value(t: Seq<char>) -> nat
    decreases t.len(),
{
    if t.len() == 0 {
        0
    } else {
        digits_value(t.drop_last()) * 10 + digit_value(t.last())
    }
}

/// What remains of `t` once one leading '+' is taken off.
pub open spec fn unsigned_digits(t: Seq<char>) -> Seq<char> {
    if t.len() > 0 && t[0] == '+' {
        t.drop_first()
    } else {
        t
    }
}

/// The value that `str::parse` reads from `t` for an unsigned integer type whose
/// largest value is `max`: one optional '+', then at least one decimal digit,
/// and a value that fits.
pub open spec fn unsigned_value(t: Seq<char>, max: nat) -> Option<nat> {
    let d = unsigned_digits(t);
    if d.len() > 0 && (forall|i: int| 0 <= i < d.len() ==> is_digit(#[trigger] d[i]))
        && digits_value(d) <= max {
        Some(digits_value(d))
    } else {
        None
    }
}

/// A prefix of a string of digits is worth no more than the whole.
proof fn lemma_prefix_value_le(d: Seq<char>, k: int)
    requires
        0 <= k <= d.len(),
        forall|i: int| 0 <= i < d.len() ==> is_digit(#[trigger] d[i]),
    ensures
        digits_value(d.subrange(0, k)) <= digits_value(d),
    decreases d.len(),
{
    if k < d.len() {
        let e = d.drop_last();
        assert forall|i: int| 0 <= i < e.len() implies is_digit(#[trigger] e[i]) by {
            assert(e[i] == d[i]);
        }
        lemma_prefix_value_le(e, k);
        assert(e.subrange(0, k) =~= d.subrange(0, k));
    } else {
        assert(d.subrange(0, k) =~= d);
    }
}

/// Reads the unsigned number that `line[start..end]` spells, as `str::parse`
/// reads it for a type whose largest value is `max`.
pub fn parse_unsigned(line: &Vec<char>, start: usize, end: usize, max: usize) -> (r: Option<usize>)
    requires
        start <= end <= line@.len(),
    ensures
        r matches Some(v) ==> unsigned_value(word(line@, (start as int, end as int)), max as nat)
            == Some(v as nat),
        r is None ==> unsigned_value(word(line@, (start as int, end as int)), max as nat) is None,
{
    let ghost t = word(line@, (start as int, end as int));
    let mut i: usize = start;
    if i < end && line[i] == '+' {
        i = i + 1;
    }
    let ghost d = unsigned_digits(t);
    assert(d =~= line@.subrange(i as int, end as int));
    if i == end {
        return None;
    }
    let mut acc: usize = 0;
    let mut j: usize = i;
    while j < end
        invariant
            start <= i <= j <= end <= line@.len(),
            d == line@.subrange(i as int, end as int),
            d == unsigned_digits(word(line@, (start as int, end as int))),
            acc as nat == digits_value(line@.subrange(i as int, j as int)),
            acc <= max,
            forall|k: int| i <= k < j ==> is_digit(#[trigger] line@[k]),
        decreases end - j,
    {
        let u = line[j] as u32;
        if u < 48 || u > 57 {
            assert(!is_digit(d[j - i]));
            return None;
        }
        let dv = (u - 48) as usize;
        let ghost next = line@.subrange(i as int, j + 1);
        assert(next.drop_last() =~= line@.subrange(i as int, j as int));
        assert(digits_value(next) == acc * 10 + dv);
        if dv > max || acc > (max - dv) / 10 {
            assert(acc * 10 + dv > max) by (nonlinear_arith)
                requires
                    dv > max || (dv <= max && acc > (max - dv) / 10),
                    acc >= 0,
            ;
            proof {
                if forall|k: int| 0 <= k < d.len() ==> is_digit(#[trigger] d[k]) {
                    lemma_prefix_value_le(d, j + 1 - i);
                    assert(d.subrange(0, j + 1 - i) =~= next);
                }
            }
            return None;
        }
        assert(acc * 10 + dv <= max) by (nonlinear_arith)
            requires
                dv <= max,
                acc <= (max - dv) / 10,
        ;
        acc = acc * 10 + dv;
        j = j + 1;
    }
    assert(line@.subrange(i as int, j as int) =~= d);
    assert forall|k: int| 0 <= k < d.len() implies is_digit(#[trigger] d[k]) by {
        assert(d[k] == line@[i + k]);
    }
    Some(acc)
}

/// Returns whether `line[start..end]` is exactly `expected`.
pub fn word_equals(line: &Vec<char>, start: usize, end: usize, expected: &[char]) -> (r: bool)
    requires
        start <= end <= line@.len(),
    ensures
        r == (word(line@, (start as int, end as int)) == expected@),
{
    if end - start != expected.len() {
        assert(word(line@, (start as int, end as int)).len() != expected@.len());
        return false;
    }
    let mut k: usize = 0;
    while k < expected.len()
        invariant
            start <= end <= line@.len(),
            end - start == expected@.len(),
            k <= expected@.len(),
            forall|m: int| 0 <= m < k ==> line@[start + m] == #[trigger] expected@[m],
        decreases expected@.len() - k,
    {
        if line[start + k] != expected[k] {
            assert(word(line@, (start as int, end as int))[k as int] != expected@[k as int]);
            return false;
        }
        k = k + 1;
    }
    assert(word(line@, (start as int, end as int)) =~= expected@);
    true
}

/// What a line typed during play asks for.
#[derive(Debug, Clone, Copy, PartialEq, Eq, Structural)]
pub enum Command {
    /// The line is the word `done`: play ends.
    Done,
    /// Three numbers: a 1-based row, a 1-based column and a digit, not yet range-checked.
    Move { row: usize, col: usize, num: u8 },
    /// The line does not hold exactly three words.
    BadFormat,
    /// Three words, not all of them numbers of their type.
    NotNumbers,
}

/// What the player picks at the menu.
#[derive(Debug, Clone, Copy, PartialEq, Eq, Structural)]
pub enum MenuChoice {
    /// Enter moves, then let the solver check the board.
    Play,
    /// Let the solver fill the board at once.
    Bruteforce,
    /// Anything else.
    Unknown,
}

/// The line holds the single word `expected`, white space around it aside.
pub open spec fn only_word(s: Seq<char>, expected: Seq<char>) -> bool {
    words(s).len() == 1 && word(s, words(s)[0]) == expected
}

/// The command that a line stands for.
pub open spec fn command_of(s: Seq<char>) -> Command {
    let w = words(s);
    if only_word(s, seq!['d', 'o', 'n', 'e']) {
        Command::Done
    } else if w.len() != 3 {
        Command::BadFormat
    } else {
        let r = unsigned_value(word(s, w[0]), usize::MAX as nat);
        let c = unsigned_value(word(s, w[1]), usize::MAX as nat);
        let n = unsigned_value(word(s, w[2]), u8::MAX as nat);
        if r is Some && c is Some && n is Some {
            Command::Move { row: r->0 as usize, col: c->0 as usize, num: n->0 as u8 }
        } else {
            Command::NotNumbers
        }
    }
}

/// The menu choice that a line stands for.
pub open spec fn menu_choice_of(s: Seq<char>) -> MenuChoice {
    if only_word(s, seq!['p', 'l', 'a', 'y']) {
        MenuChoice::Play
    } else if only_word(s, seq!['b', 'r', 'u', 't', 'e', 'f', 'o', 'r', 'c', 'e']) {
        MenuChoice::Bruteforce
    } else {
        MenuChoice::Unknown
    }
}

/// Returns whether `line` holds the single word `expected`.
fn is_only_word(line: &Vec<char>, ws: &Vec<(usize, usize)>, expected: &[char]) -> (r: bool)
    requires
        bounds_view(ws@) == words(line@),
        forall|k: int| 0 <= k < ws@.len() ==> (#[trigger] ws@[k]).0 < ws@[k].1 <= line@.len(),
    ensures
        r == only_word(line@, expected@),
{
    if ws.len() != 1 {
        assert(words(line@).len() == ws@.len());
        return false;
    }
    assert(bounds_view(ws@)[0] == words(line@)[0]);
    word_equals(line, ws[0].0, ws[0].1, expected)
}

/// Reads a line typed during play: the word `done`, or a row, a column and a digit.
pub fn parse_command(line: &Vec<char>) -> (cmd: Command)
    ensures
        cmd == command_of(line@),
{
    let ws = split_words(line);
    let done = ['d', 'o', 'n', 'e'];
    assert(done@ == seq!['d', 'o', 'n', 'e']);
    if is_only_word(line, &ws, &done) {
        return Command::Done;
    }
    if ws.len() != 3 {
        assert(words(line@).len() == ws@.len());
        return Command::BadFormat;
    }
    assert(words(line@).len() == 3);
    assert(bounds_view(ws@)[0] == words(line@)[0]);
    assert(bounds_view(ws@)[1] == words(line@)[1]);
    assert(bounds_view(ws@)[2] == words(line@)[2]);
    let r = parse_unsigned(line, ws[0].0, ws[0].1, usize::MAX);
    let c = parse_unsigned(line, ws[1].0, ws[1].1, usize::MAX);
    let n = parse_unsigned(line, ws[2].0, ws[2].1, 255);
    match (r, c, n) {
        (Some(row), Some(col), Some(num)) => Command::Move { row, col, num: num as u8 },
        _ => Command::NotNumbers,
    }
}

/// Reads the menu line: `play`, `bruteforce`, or anything else.
pub fn parse_menu(line: &Vec<char>) -> (choice: MenuChoice)
    ensures
        choice == menu_choice_of(line@),
{
    let ws = split_words(line);
    let play = ['p', 'l', 'a', 'y'];
    assert(play@ == seq!['p', 'l', 'a', 'y']);
    if is_only_word(line, &ws, &play) {
        return MenuChoice::Play;
    }
    let brute = ['b', 'r', 'u', 't', 'e', 'f', 'o', 'r', 'c', 'e'];
    assert(brute@ == seq!['b', 'r', 'u', 't', 'e', 'f', 'o', 'r', 'c', 'e']);
    if is_only_word(line, &ws, &brute) {
        return MenuChoice::Bruteforce;
    }
    MenuChoice::Unknown
}

} // verus!
