use vstd::prelude::*;
use crate::text::{string_from, push_char, chars_of, starts_with_char, str_eq, copy_str};
use crate::pattern::{pattern_matches, pattern_found};
use crate::statics::{Token, TokenView, views, lemma_views, BASE_TOKEN, DOT, MET, NLN, LIT, KEY, REF, PAR, GRP, SEP, ASS, MAT, LOG, UDF};
use crate::statics::{NUMBER_RE_PAT, LITERAL_RE_PAT, KEYWD_RE_PAT, WORD_RE_PAT, PAREN_RE_PAT, GROUP_RE_PAT, SEPER_RE_PAT, ASIGN_RE_PAT, MATHM_RE_PAT, LOGIC_RE_PAT};
use crate::preprocess::{new_view, preprocessed};
pub use crate::preprocess::{preprocess, preprocess_checked};

verus! {

/// Whether `c` opens or closes a surrounding pair.
pub open spec fn is_surround(c: char) -> bool {
    c == '{' || c == '}' || c == '"' || c == '(' || c == ')' || c == '[' || c == ']'
}

/// The other half of a surrounding pair.
pub open spec fn complement(c: char) -> char {
    if c == '{' { '}' } else if c == '}' { '{' } else if c == '"' { '"' }
    else if c == '(' { ')' } else if c == ')' { '(' } else if c == '[' { ']' } else { '[' }
}

/// The other half of the surrounding pair that `given` belongs to.
pub fn get_complement_surround(given: char) -> (r: char)
    requires
        is_surround(given),
    ensures
        r == complement(given),
{
    match given {
        '{' => '}',
        '}' => '{',
        '"' => '"',
        '(' => ')',
        ')' => '(',
        '[' => ']',
        _ => '[',
    }
}

/// Whether position `j` of `line` holds `closing` not preceded by a backslash.
pub open spec fn closes_at(line: Seq<char>, j: int, closing: char) -> bool {
    1 <= j < line.len() && line[j] == closing && line[j - 1] != '\\'
}

/// The first position from `j` on that closes with `closing`.
pub open spec fn first_close(line: Seq<char>, j: int, closing: char) -> Option<int>
    decreases line.len() - j,
{
    if j < 1 || j >= line.len() {
        None
    } else if closes_at(line, j, closing) {
        Some(j)
    } else {
        first_close(line, j + 1, closing)
    }
}

/// Reads a surrounded word that opens at `i`: the opening character, then everything up
/// to and including the first `closing` not preceded by a backslash. Gives that
/// position and the word.
pub fn get_containing(i: usize, opening: char, closing: char, line: &Vec<char>) -> (r: (usize, String))
    requires
        i < line.len(),
        first_close(line@, i + 1, closing) is Some,
    ensures
        first_close(line@, i + 1, closing) == Some(r.0 as int),
        r.1@ == seq![opening] + line@.subrange(i + 1, r.0 + 1),
{
    let mut j = i + 1;
    loop
        invariant
            i < j <= line.len(),
            first_close(line@, i + 1, closing) == first_close(line@, j as int, closing),
            first_close(line@, i + 1, closing) is Some,
        decreases line.len() - j,
    {
        if line[j] == closing && line[j - 1] != '\\' {
            let mut word = String::new();
            push_char(&mut word, opening);
            let rest = string_from(line, i + 1, j + 1);
            let word = crate::text::joined(word.as_str(), rest.as_str());
            return (j, word);
        }
        j += 1;
    }
}

/// Whether `c` is a digit in base 2, 10 or 16 (`char::is_digit`).
pub open spec fn is_digit_in(c: char, base: u32) -> bool {
    crate::statics::radix_digit(c, base as nat) is Some
}

/// Where the number that starts at `i` ends: the scan stops at the first character
/// that is neither a digit of the current base, nor a point followed by a decimal digit
/// (before any point or base marker), nor a first `x` or `b` base marker; `None` when
/// the scan would look past the end of the line after a point.
pub open spec fn number_end(line: Seq<char>, i: int, decu: bool, typedef: bool, base: u32) -> Option<int>
    decreases line.len() - i,
{
    if i < 0 || i >= line.len() {
        Some(i)
    } else {
        let c = line[i];
        if !is_digit_in(c, base) && c == '.' && i + 1 >= line.len() {
            None
        } else if !is_digit_in(c, base)
            && (c != '.' || !is_digit_in(line[i + 1], 10) || typedef || decu)
            && (typedef || decu || !(c == 'x' || c == 'b')) {
            Some(i)
        } else {
            let decu2 = decu || c == '.';
            let typedef2 = typedef || c == 'x' || c == 'b';
            let base2: u32 = if c == 'x' { 16 } else if c == 'b' { 2 } else { base };
            number_end(line, i + 1, decu2, typedef2, base2)
        }
    }
}

/// Whether `c` is a digit of `base` (2, 10 or 16).
fn digit_in(c: char, base: u32) -> (r: bool)
    requires
        base == 2 || base == 10 || base == 16,
    ensures
        r == is_digit_in(c, base),
{
    if '0' <= c && c <= '9' {
        (c as u32 - '0' as u32) < base
    } else if 'a' <= c && c <= 'z' {
        (c as u32 - 'a' as u32 + 10) < base
    } else if 'A' <= c && c <= 'Z' {
        (c as u32 - 'A' as u32 + 10) < base
    } else {
        false
    }
}

/// Reads the number that starts at `i`. Gives where it ends and its text.
pub fn get_number(i: usize, line: &Vec<char>) -> (r: (usize, String))
    requires
        i <= line.len(),
        number_end(line@, i as int, false, false, 10) is Some,
    ensures
        number_end(line@, i as int, false, false, 10) == Some(r.0 as int),
        i <= r.0 <= line.len(),
        r.1@ == line@.subrange(i as int, r.0 as int),
{
    let mut j = i;
    let mut decu = false;
    let mut typedef = false;
    let mut base: u32 = 10;
    loop
        invariant
            i <= j <= line.len(),
            base == 2 || base == 10 || base == 16,
            number_end(line@, i as int, false, false, 10) == number_end(line@, j as int, decu, typedef, base),
            number_end(line@, j as int, decu, typedef, base) is Some,
        ensures
            i <= j <= line.len(),
            number_end(line@, i as int, false, false, 10) == Some(j as int),
        decreases line.len() - j,
    {
        if j >= line.len() {
            break;
        }
        let c = line[j];
        if !digit_in(c, base) && (c != '.' || (c == '.' && !digit_in(line[j + 1], 10)) || typedef || decu)
            && (typedef || decu || !(c == 'x' || c == 'b')) {
            break;
        }
        if c == '.' {
            decu = true;
        }
        if c == 'x' || c == 'b' {
            typedef = true;
            base = if c == 'x' { 16 } else { 2 };
        }
        j += 1;
    }
    (j, string_from(line, i, j))
}

/// The regular expression of one word character.
pub const WORD_CHAR_RE_PAT: &'static str = "[[:word:]]";

/// Whether the word-character pattern matches the one-character text `c`.
pub open spec fn word_char(c: char) -> bool {
    pattern_matches(WORD_CHAR_RE_PAT@, seq![c])
}

/// The first position from `j` on that does not hold a word character.
pub open spec fn word_stop(line: Seq<char>, j: int) -> int
    decreases line.len() - j,
{
    if j < 0 || j >= line.len() {
        j
    } else if !word_char(line[j]) {
        j
    } else {
        word_stop(line, j + 1)
    }
}

/// Reads the word that starts at `i`. Gives the position of its last character (the
/// end of the line when the word reaches it) and its text.
pub fn get_word(i: usize, line: &Vec<char>) -> (r: (usize, String))
    requires
        i <= line.len(),
        word_stop(line@, i as int) < line.len() ==> word_stop(line@, i as int) >= 1,
    ensures
        r.0 == if word_stop(line@, i as int) < line.len() { word_stop(line@, i as int) - 1 } else { line.len() as int },
        r.1@ == line@.subrange(i as int, word_stop(line@, i as int)),
{
    let mut j = i;
    let mut word = String::new();
    loop
        invariant
            i <= j <= line.len(),
            word_stop(line@, i as int) == word_stop(line@, j as int),
            word_stop(line@, i as int) < line.len() ==> word_stop(line@, i as int) >= 1,
            word@ == line@.subrange(i as int, j as int),
        decreases line.len() - j,
    {
        if j >= line.len() {
            return (j, word);
        }
        let c = line[j];
        let mut cs = String::new();
        push_char(&mut cs, c);
        assert(cs@ =~= seq![c]);
        if pattern_found(WORD_CHAR_RE_PAT, cs.as_str()) {
            push_char(&mut word, c);
            assert(word@ =~= line@.subrange(i as int, j + 1));
        } else {
            return (j - 1, word);
        }
        j += 1;
    }
}

/// Where the name of a meta line that starts at `i` ends: the first `=` from `i + 2` on,
/// or the end of the line.
pub open spec fn meta_name_end(line: Seq<char>, j: int) -> int
    decreases line.len() - j,
{
    if j < 0 || j >= line.len() || line[j] == '=' {
        j
    } else {
        meta_name_end(line, j + 1)
    }
}

/// Where the value of a meta line ends: the first `]` from `j` on, or the end of the line.
pub open spec fn meta_value_end(line: Seq<char>, j: int) -> int
    decreases line.len() - j,
{
    if j < 0 || j >= line.len() || line[j] == ']' {
        j
    } else {
        meta_value_end(line, j + 1)
    }
}

/// The characters of `s` other than `=`.
pub open spec fn without_equals(s: Seq<char>) -> Seq<char>
    decreases s.len(),
{
    if s.len() == 0 {
        s
    } else if s.last() == '=' {
        without_equals(s.drop_last())
    } else {
        without_equals(s.drop_last()).push(s.last())
    }
}

/// Reads a meta line `#[name=value]` that starts at `i`: the name runs from `i + 2` to the
/// first `=`, the value from there to the first `]` with every `=` left out. Gives the
/// position after the value's end, the name and the value.
pub fn get_meta(i: usize, line: &Vec<char>) -> (r: (usize, String, String))
    requires
        i < line.len(),
        line.len() < usize::MAX - 2,
    ensures
        i + 2 <= line.len() ==> r.0 == meta_value_end(line@, meta_name_end(line@, i + 2)) + 1,
        i + 2 <= line.len() ==> r.1@ == line@.subrange(i + 2, meta_name_end(line@, i + 2)),
        i + 2 <= line.len() ==> r.2@ == without_equals(line@.subrange(meta_name_end(line@, i + 2), meta_value_end(line@, meta_name_end(line@, i + 2)))),
        i + 2 > line.len() ==> r.0 == i + 3 && r.1@.len() == 0 && r.2@.len() == 0,
{
    if i + 2 > line.len() {
        return (i + 3, String::new(), String::new());
    }
    let mut j = i + 2;
    let mut meta = String::new();
    while j < line.len() && line[j] != '='
        invariant
            i + 2 <= j <= line.len(),
            meta_name_end(line@, i + 2) == meta_name_end(line@, j as int),
            meta@ == line@.subrange(i + 2, j as int),
        decreases line.len() - j,
    {
        push_char(&mut meta, line[j]);
        j += 1;
        assert(meta@ =~= line@.subrange(i + 2, j as int));
    }
    let k = j;
    let mut value = String::new();
    while j < line.len() && line[j] != ']'
        invariant
            k <= j <= line.len(),
            meta_value_end(line@, k as int) == meta_value_end(line@, j as int),
            value@ == without_equals(line@.subrange(k as int, j as int)),
        decreases line.len() - j,
    {
        let c = line[j];
        assert(line@.subrange(k as int, j + 1).drop_last() =~= line@.subrange(k as int, j as int));
        if c != '=' {
            push_char(&mut value, c);
        }
        j += 1;
    }
    (j + 1, meta, value)
}

/// Whether `c` has the Unicode `Alphabetic` property (`char::is_alphabetic`).
pub uninterp spec fn unicode_alphabetic(c: char) -> bool;

/// std's `char::is_alphabetic`. Claimed: the answer depends on the character alone.
#[verifier::external_body]
fn is_alphabetic(c: char) -> (r: bool)
    ensures
        r == unicode_alphabetic(c),
{
    c.is_alphabetic()
}

/// Whether the group pattern matches the one-character text `c`.
pub open spec fn group_char(c: char) -> bool {
    pattern_matches(crate::statics::GROUP_RE_PAT@, seq![c])
}

/// A word read from a line, with the position recorded for it.
pub type Word = (int, Seq<char>);

/// The words that the scan of `line` reads from position `i` on, each with the position
/// recorded for it; `None` when the scan would fail (a string left open, a point or an
/// operator at the very end of the line, a letter that is no word character).
pub open spec fn scan_from(line: Seq<char>, i: int) -> Option<Seq<Word>>
    decreases line.len() + 5 - i,
{
    if i < 0 || i > line.len() + 5 {
        None
    } else if i >= line.len() {
        Some(Seq::empty())
    } else {
        let c = line[i];
        if c == ' ' || c == '\t' {
            scan_from(line, i + 1)
        } else if line.len() > i + 1 && c == '/' && line[i + 1] == '/' {
            Some(Seq::empty())
        } else if c == '.' {
            prefix_word(i, seq!['.'], scan_from(line, i + 1))
        } else if i == 0 && c == '#' {
            if i + 2 > line.len() {
                prefix_word(0, seq!['#'], prefix_word(0, Seq::empty(), scan_from(line, i + 4)))
            } else {
                let ne = meta_name_end(line, i + 2);
                let ve = meta_value_end(line, ne);
                if i + 2 <= ne <= ve <= line.len() {
                    prefix_word(0, seq!['#'] + line.subrange(i + 2, ne),
                        prefix_word(0, without_equals(line.subrange(ne, ve)), scan_from(line, ve + 2)))
                } else {
                    None
                }
            }
        } else if c == ';' {
            prefix_word(i, seq![';'], scan_from(line, i + 1))
        } else if c == '"' {
            match first_close(line, i + 1, '"') {
                None => None,
                Some(j) => if i < j < line.len() {
                    prefix_word(j, seq!['"'] + line.subrange(i + 1, j + 1), scan_from(line, j + 1))
                } else {
                    None
                },
            }
        } else if '0' <= c && c <= '9' {
            match number_end(line, i, false, false, 10) {
                None => None,
                Some(e) => if e > i && e <= line.len() {
                    prefix_word(e - 1, line.subrange(i, e), scan_from(line, e))
                } else {
                    None
                },
            }
        } else if unicode_alphabetic(c) || c == '_' {
            let ws = word_stop(line, i);
            if ws <= i || ws > line.len() {
                None
            } else {
                let pos = if ws < line.len() { ws - 1 } else { line.len() as int };
                prefix_word(pos, line.subrange(i, ws), scan_from(line, pos + 1))
            }
        } else if c == '+' || c == '-' || c == '*' || c == '/' {
            if i + 1 >= line.len() {
                None
            } else {
                let v = if line[i + 1] == '=' { seq![c, '='] } else { seq![c] };
                prefix_word(i, v, scan_from(line, i + 2))
            }
        } else if c == '$' {
            if i + 1 >= line.len() {
                None
            } else if group_char(line[i + 1]) {
                prefix_word(i, seq!['$', line[i + 1]], scan_from(line, i + 2))
            } else {
                let ws = word_stop(line, i + 1);
                let pos = if ws < line.len() { ws - 1 } else { line.len() as int };
                if i + 1 <= ws <= line.len() {
                    prefix_word(pos, seq!['$'] + line.subrange(i + 1, ws), scan_from(line, pos + 1))
                } else {
                    None
                }
            }
        } else if c == '&' || c == '|' {
            if i + 1 >= line.len() {
                None
            } else if line[i + 1] == c {
                prefix_word(i, seq![c, c], scan_from(line, i + 2))
            } else {
                prefix_word(i, seq![c], scan_from(line, i + 1))
            }
        } else {
            prefix_word(i, seq![c], scan_from(line, i + 1))
        }
    }
}

/// `rest` with the word `w` recorded at `pos` in front; `None` when `rest` is.
pub open spec fn prefix_word(pos: int, w: Seq<char>, rest: Option<Seq<Word>>) -> Option<Seq<Word>> {
    match rest {
        Some(r) => Some(seq![(pos, w)] + r),
        None => None,
    }
}

proof fn lemma_word_stop_bounds(line: Seq<char>, j: int)
    requires
        0 <= j <= line.len(),
    ensures
        j <= word_stop(line, j) <= line.len(),
        forall|k: int| j <= k < word_stop(line, j) ==> word_char(#[trigger] line[k]),
        word_stop(line, j) < line.len() ==> !word_char(line[word_stop(line, j)]),
    decreases line.len() - j,
{
    if j < line.len() && word_char(line[j]) {
        lemma_word_stop_bounds(line, j + 1);
    }
}

proof fn lemma_number_end_bounds(line: Seq<char>, i: int, decu: bool, typedef: bool, base: u32)
    requires
        0 <= i <= line.len(),
    ensures
        number_end(line, i, decu, typedef, base) matches Some(e) ==> i <= e <= line.len(),
    decreases line.len() - i,
{
    if i < line.len() {
        let c = line[i];
        let decu2 = decu || c == '.';
        let typedef2 = typedef || c == 'x' || c == 'b';
        let base2: u32 = if c == 'x' { 16 } else if c == 'b' { 2 } else { base };
        lemma_number_end_bounds(line, i + 1, decu2, typedef2, base2);
    }
}

proof fn lemma_first_close_bounds(line: Seq<char>, j: int, closing: char)
    ensures
        first_close(line, j, closing) matches Some(k) ==> j <= k < line.len() && closes_at(line, k, closing),
    decreases line.len() - j,
{
    if 1 <= j < line.len() && !closes_at(line, j, closing) {
        lemma_first_close_bounds(line, j + 1, closing);
    }
}

/// The words of a scan, with positions as integers and texts as sequences.
pub open spec fn words_view(v: Seq<(usize, String)>) -> Seq<Word> {
    Seq::new(v.len(), |k: int| (v[k].0 as int, v[k].1@))
}

/// A string of the given characters.
fn text_of(a: char, b: Option<char>) -> (r: String)
    ensures
        r@ == (match b { Some(bc) => seq![a, bc], None => seq![a] }),
{
    let mut r = String::new();
    push_char(&mut r, a);
    match b {
        Some(bc) => push_char(&mut r, bc),
        None => {},
    }
    assert(r@ =~= (match b { Some(bc) => seq![a, bc], None => seq![a] }));
    r
}

/// `rest` with the words `ws` in front; `None` when `rest` is.
pub open spec fn prefix_words(ws: Seq<Word>, rest: Option<Seq<Word>>) -> Option<Seq<Word>> {
    match rest {
        Some(r) => Some(ws + r),
        None => None,
    }
}

/// What one step of the scan gives: the words read at `i` and where the scan goes on.
pub open spec fn step_ok(line: Seq<char>, i: int, ws: Seq<Word>, next: int) -> bool {
    &&& i < next <= line.len() + 5
    &&& scan_from(line, i) == prefix_words(ws, scan_from(line, next))
}

/// One word of a single character (or two), at position `i`.
fn one_word(i: usize, a: char, b: Option<char>) -> (r: Vec<(usize, String)>)
    ensures
        words_view(r@) == seq![(i as int, match b { Some(bc) => seq![a, bc], None => seq![a] })],
{
    let mut r = Vec::new();
    r.push((i, text_of(a, b)));
    assert(words_view(r@) =~= seq![(i as int, match b { Some(bc) => seq![a, bc], None => seq![a] })]);
    r
}

/// Scans a meta line that starts at position 0.
fn scan_meta(line: &Vec<char>) -> (r: (Vec<(usize, String)>, usize))
    requires
        line.len() > 0,
        line@[0] == '#',
        line.len() < usize::MAX - 8,
    ensures
        step_ok(line@, 0, words_view(r.0@), r.1 as int),
{
    let x = get_meta(0, line);
    let mut w0 = String::new();
    push_char(&mut w0, '#');
    assert(w0@ =~= seq!['#']);
    let w = crate::text::joined(w0.as_str(), x.1.as_str());
    let mut r = Vec::new();
    r.push((0, w));
    r.push((0, x.2));
    proof {
        if 2 <= line.len() {
            lemma_meta_bounds(line@, 2);
        }
    }
    assert(words_view(r@) =~= seq![(0int, w@), (0int, x.2@)]);
    proof {
        let rest = scan_from(line@, (x.0 + 1) as int);
        if 2 <= line.len() {
            let ne = meta_name_end(line@, 2);
            let ve = meta_value_end(line@, ne);
            assert(w@ == seq!['#'] + line@.subrange(2, ne));
            assert(x.2@ == without_equals(line@.subrange(ne, ve)));
            assert(x.0 + 1 == ve + 2);
            assert(scan_from(line@, 0) == prefix_word(0, seq!['#'] + line@.subrange(2, ne),
                prefix_word(0, without_equals(line@.subrange(ne, ve)), scan_from(line@, ve + 2))));
        } else {
            assert(w@ =~= seq!['#']);
            assert(x.2@ =~= Seq::<char>::empty());
            assert(scan_from(line@, 0) == prefix_word(0, seq!['#'], prefix_word(0, Seq::empty(), scan_from(line@, 4))));
        }
        match rest {
            Some(q) => {
                assert(seq![(0int, w@)] + (seq![(0int, x.2@)] + q) =~= seq![(0int, w@), (0int, x.2@)] + q);
            },
            None => {},
        }
    }
    (r, x.0 + 1)
}

proof fn lemma_meta_bounds(line: Seq<char>, j: int)
    requires
        0 <= j <= line.len(),
    ensures
        j <= meta_name_end(line, j) <= line.len(),
        meta_name_end(line, j) <= meta_value_end(line, meta_name_end(line, j)) <= line.len(),
{
    lemma_name_end(line, j);
    lemma_value_end(line, meta_name_end(line, j));
}

proof fn lemma_name_end(line: Seq<char>, j: int)
    requires
        0 <= j <= line.len(),
    ensures
        j <= meta_name_end(line, j) <= line.len(),
    decreases line.len() - j,
{
    if j < line.len() && line[j] != '=' {
        lemma_name_end(line, j + 1);
    }
}

proof fn lemma_value_end(line: Seq<char>, j: int)
    requires
        0 <= j <= line.len(),
    ensures
        j <= meta_value_end(line, j) <= line.len(),
    decreases line.len() - j,
{
    if j < line.len() && line[j] != ']' {
        lemma_value_end(line, j + 1);
    }
}

/// Scans a string literal that opens at `i`.
fn scan_string(line: &Vec<char>, i: usize) -> (r: (Vec<(usize, String)>, usize))
    requires
        i < line.len(),
        line@[i as int] == '"',
        line.len() < usize::MAX - 8,
        first_close(line@, i + 1, '"') is Some,
    ensures
        step_ok(line@, i as int, words_view(r.0@), r.1 as int),
{
    proof {
        lemma_first_close_bounds(line@, i + 1, '"');
    }
    let x = get_containing(i, '"', get_complement_surround('"'), line);
    let mut r = Vec::new();
    r.push((x.0, x.1));
    assert(words_view(r@) =~= seq![(x.0 as int, x.1@)]);
    (r, x.0 + 1)
}

/// Scans a number that starts at `i`.
fn scan_number(line: &Vec<char>, i: usize) -> (r: (Vec<(usize, String)>, usize))
    requires
        i < line.len(),
        '0' <= line@[i as int] <= '9',
        line.len() < usize::MAX - 8,
        number_end(line@, i as int, false, false, 10) is Some,
    ensures
        step_ok(line@, i as int, words_view(r.0@), r.1 as int),
{
    proof {
        lemma_number_end_bounds(line@, i as int, false, false, 10);
        lemma_number_end_bounds(line@, i + 1, false, false, 10);
        assert(is_digit_in(line@[i as int], 10));
    }
    let x = get_number(i, line);
    let mut r = Vec::new();
    r.push((x.0 - 1, x.1));
    assert(words_view(r@) =~= seq![((x.0 - 1) as int, x.1@)]);
    (r, x.0)
}

/// Scans a word that starts at `i`.
fn scan_word(line: &Vec<char>, i: usize) -> (r: (Vec<(usize, String)>, usize))
    requires
        i < line.len(),
        unicode_alphabetic(line@[i as int]) || line@[i as int] == '_',
        line@[i as int] != ' ' && line@[i as int] != '\t' && line@[i as int] != '.'
            && !(i == 0 && line@[i as int] == '#') && line@[i as int] != ';' && line@[i as int] != '"'
            && !('0' <= line@[i as int] <= '9'),
        !(line.len() > i + 1 && line@[i as int] == '/' && line@[i as int + 1] == '/'),
        line.len() < usize::MAX - 8,
        word_char(line@[i as int]),
    ensures
        step_ok(line@, i as int, words_view(r.0@), r.1 as int),
{
    proof {
        lemma_word_stop_bounds(line@, i as int);
        lemma_word_stop_bounds(line@, i + 1);
    }
    let x = get_word(i, line);
    let mut r = Vec::new();
    r.push((x.0, x.1));
    assert(words_view(r@) =~= seq![(x.0 as int, x.1@)]);
    (r, x.0 + 1)
}

/// Scans a `$` at `i`: a group opener or a dereferenced word.
fn scan_dollar(line: &Vec<char>, i: usize) -> (r: (Vec<(usize, String)>, usize))
    requires
        i + 1 < line.len(),
        line@[i as int] == '$',
        line.len() < usize::MAX - 8,
        !unicode_alphabetic(line@[i as int]),
    ensures
        step_ok(line@, i as int, words_view(r.0@), r.1 as int),
{
    let n = line[i + 1];
    let mut cs = String::new();
    push_char(&mut cs, n);
    assert(cs@ =~= seq![n]);
    if pattern_found(crate::statics::GROUP_RE_PAT, cs.as_str()) {
        (one_word(i, '$', Some(n)), i + 2)
    } else {
        proof {
            lemma_word_stop_bounds(line@, i + 1);
        }
        let x = get_word(i + 1, line);
        let mut w = String::new();
        push_char(&mut w, '$');
        let w = crate::text::joined(w.as_str(), x.1.as_str());
        let mut r = Vec::new();
        r.push((x.0, w));
        assert(words_view(r@) =~= seq![(x.0 as int, w@)]);
        (r, x.0 + 1)
    }
}

/// Whether the scan can read the words at position `i` (it does not fail there): a
/// string must be closed, a number must not end in a point at the end of the line, a
/// letter must be a word character, and an operator, `$`, `&` or `|` must not end the
/// line.
pub open spec fn step_defined(line: Seq<char>, i: int) -> bool {
    let c = line[i];
    if c == '.' || (i == 0 && c == '#') || c == ';' {
        true
    } else if c == '"' {
        first_close(line, i + 1, '"') is Some
    } else if '0' <= c && c <= '9' {
        number_end(line, i, false, false, 10) is Some
    } else if unicode_alphabetic(c) || c == '_' {
        word_char(c)
    } else if c == '+' || c == '-' || c == '*' || c == '/' || c == '$' || c == '&' || c == '|' {
        i + 1 < line.len()
    } else {
        true
    }
}

/// Reads the words at position `i`, which holds no blank and starts no comment.
#[verifier::rlimit(40)]
fn scan_one(line: &Vec<char>, i: usize) -> (r: (Vec<(usize, String)>, usize))
    requires
        i < line.len(),
        line.len() < usize::MAX - 8,
        step_defined(line@, i as int),
        line@[i as int] != ' ' && line@[i as int] != '\t',
        !(line.len() > i + 1 && line@[i as int] == '/' && line@[i as int + 1] == '/'),
    ensures
        step_ok(line@, i as int, words_view(r.0@), r.1 as int),
{
    let c = line[i];
    if c == '.' {
        (one_word(i, '.', None), i + 1)
    } else if i == 0 && c == '#' {
        scan_meta(line)
    } else if c == ';' {
        (one_word(i, ';', None), i + 1)
    } else if c == '"' {
        scan_string(line, i)
    } else if '0' <= c && c <= '9' {
        scan_number(line, i)
    } else if is_alphabetic(c) || c == '_' {
        scan_word(line, i)
    } else if c == '+' || c == '-' || c == '*' || c == '/' {
        let next = if line[i + 1] == '=' { Some('=') } else { None };
        (one_word(i, c, next), i + 2)
    } else if c == '$' {
        scan_dollar(line, i)
    } else if c == '&' || c == '|' {
        if line[i + 1] == c {
            (one_word(i, c, Some(c)), i + 2)
        } else {
            (one_word(i, c, None), i + 1)
        }
    } else {
        (one_word(i, c, None), i + 1)
    }
}

/// Whether a closing `closing` follows from position `j` on (see `first_close`).
fn close_exists(line: &Vec<char>, j: usize, closing: char) -> (r: bool)
    ensures
        r == first_close(line@, j as int, closing) is Some,
{
    if j < 1 {
        return false;
    }
    let mut k = j;
    while k < line.len()
        invariant
            1 <= j <= k,
            first_close(line@, j as int, closing) == first_close(line@, k as int, closing),
        decreases line.len() - k,
    {
        if line[k] == closing && line[k - 1] != '\\' {
            return true;
        }
        k += 1;
    }
    false
}

/// Whether the number that starts at `i` can be read (see `number_end`).
fn number_end_exists(line: &Vec<char>, i: usize) -> (r: bool)
    ensures
        r == number_end(line@, i as int, false, false, 10) is Some,
{
    let mut j = i;
    let mut decu = false;
    let mut typedef = false;
    let mut base: u32 = 10;
    while j < line.len()
        invariant
            i <= j,
            base == 2 || base == 10 || base == 16,
            number_end(line@, i as int, false, false, 10) == number_end(line@, j as int, decu, typedef, base),
        decreases line.len() - j,
    {
        let c = line[j];
        if !digit_in(c, base) && c == '.' && j + 1 >= line.len() {
            return false;
        }
        if !digit_in(c, base) && (c != '.' || !digit_in(line[j + 1], 10) || typedef || decu)
            && (typedef || decu || !(c == 'x' || c == 'b')) {
            return true;
        }
        if c == '.' {
            decu = true;
        }
        if c == 'x' || c == 'b' {
            typedef = true;
            base = if c == 'x' { 16 } else { 2 };
        }
        j += 1;
    }
    true
}

/// Whether `c` is a word character.
fn is_word_char(c: char) -> (r: bool)
    ensures
        r == word_char(c),
{
    let mut cs = String::new();
    push_char(&mut cs, c);
    assert(cs@ =~= seq![c]);
    pattern_found(WORD_CHAR_RE_PAT, cs.as_str())
}

/// Whether the scan can read the words at position `i` (see `step_defined`).
fn step_defined_exec(line: &Vec<char>, i: usize) -> (r: bool)
    requires
        i < line.len(),
    ensures
        r == step_defined(line@, i as int),
{
    let c = line[i];
    if c == '.' || (i == 0 && c == '#') || c == ';' {
        true
    } else if c == '"' {
        close_exists(line, i + 1, '"')
    } else if '0' <= c && c <= '9' {
        number_end_exists(line, i)
    } else if is_alphabetic(c) || c == '_' {
        is_word_char(c)
    } else if c == '+' || c == '-' || c == '*' || c == '/' || c == '$' || c == '&' || c == '|' {
        i + 1 < line.len()
    } else {
        true
    }
}

/// A scan that cannot take its step at `i` fails.
proof fn lemma_step_undefined(line: Seq<char>, i: int)
    requires
        0 <= i < line.len(),
        line[i] != ' ' && line[i] != '\t',
        !(line.len() > i + 1 && line[i] == '/' && line[i + 1] == '/'),
        !step_defined(line, i),
    ensures
        scan_from(line, i) is None,
{
    let c = line[i];
    if unicode_alphabetic(c) || c == '_' {
        if !('0' <= c && c <= '9') && c != '"' && c != '.' && c != ';' && !(i == 0 && c == '#') {
            assert(word_stop(line, i) == i);
        }
    }
}

/// Reads the words of one line, each with the position recorded for it; `None` where
/// the scan fails (see `scan_from`).
pub fn scan_line(line: &Vec<char>) -> (r: Option<Vec<(usize, String)>>)
    requires
        line.len() < usize::MAX - 8,
    ensures
        match scan_from(line@, 0) {
            None => r is None,
            Some(ws) => match r {
                Some(v) => words_view(v@) == ws,
                None => false,
            },
        },
{
    let mut out: Vec<(usize, String)> = Vec::new();
    let mut i: usize = 0;
    let len = line.len();
    assert(words_view(out@) =~= Seq::<Word>::empty());
    loop
        invariant
            len == line.len(),
            len < usize::MAX - 8,
            i <= len + 5,
            scan_from(line@, 0) == prefix_words(words_view(out@), scan_from(line@, i as int)),
        decreases len + 5 - i,
    {
        if i >= len {
            assert(words_view(out@) + Seq::<Word>::empty() =~= words_view(out@));
            return Some(out);
        }
        let c = line[i];
        if c == ' ' || c == '\t' {
            i += 1;
            continue;
        }
        if len > i + 1 && c == '/' && line[i + 1] == '/' {
            assert(words_view(out@) + Seq::<Word>::empty() =~= words_view(out@));
            return Some(out);
        }
        if !step_defined_exec(line, i) {
            proof {
                lemma_step_undefined(line@, i as int);
            }
            return None;
        }
        let ghost pre = out@;
        let (mut ws, next) = scan_one(line, i);
        let ghost wv = words_view(ws@);
        out.append(&mut ws);
        assert(words_view(out@) =~= words_view(pre) + wv);
        proof {
            match scan_from(line@, next as int) {
                Some(q) => {
                    assert(words_view(pre) + (wv + q) =~= words_view(out@) + q);
                },
                None => {},
            }
        }
        i = next;
    }
}


/// The kind of token a (non-empty) word becomes: a point, a meta word, a newline, a
/// literal (string, number, `true`, `false`, `null`), a keyword, a name, a parenthesis,
/// a group, a separator, an assignment, a mathematical or a logical operator, in that
/// order of preference; anything else is undefined.
pub open spec fn word_kind(w: Seq<char>) -> u8 {
    if w[0] == '.' {
        DOT
    } else if w[0] == '#' {
        MET
    } else if w == ";"@ {
        NLN
    } else if w[0] == '"' || pattern_matches(NUMBER_RE_PAT@, w) || pattern_matches(LITERAL_RE_PAT@, w) {
        LIT
    } else if pattern_matches(KEYWD_RE_PAT@, w) {
        KEY
    } else if pattern_matches(WORD_RE_PAT@, w) {
        REF
    } else if pattern_matches(PAREN_RE_PAT@, w) {
        PAR
    } else if pattern_matches(GROUP_RE_PAT@, w) {
        GRP
    } else if pattern_matches(SEPER_RE_PAT@, w) {
        SEP
    } else if pattern_matches(ASIGN_RE_PAT@, w) {
        ASS
    } else if pattern_matches(MATHM_RE_PAT@, w) {
        MAT
    } else if pattern_matches(LOGIC_RE_PAT@, w) {
        LOG
    } else {
        UDF
    }
}

/// The text a word's token is made from: a meta word loses its `#`.
pub open spec fn word_text(w: Seq<char>) -> Seq<char> {
    if w[0] == '#' {
        w.skip(1)
    } else {
        w
    }
}

/// The token of word `w` read on line `li` (both counted from one in the token).
pub open spec fn word_token(li: int, w: Word) -> TokenView {
    new_view(word_kind(w.1), word_text(w.1), BASE_TOKEN, (li + 1) as usize, (w.0 + 1) as usize)
}

/// The tokens of the words `ws` of line `li`.
pub open spec fn line_tokens(li: int, ws: Seq<Word>) -> Seq<TokenView> {
    Seq::new(ws.len(), |k: int| word_token(li, ws[k]))
}

/// Whether no word of `ws` is empty.
pub open spec fn words_nonempty(ws: Seq<Word>) -> bool {
    forall|k: int| 0 <= k < ws.len() ==> (#[trigger] ws[k]).1.len() > 0
}

/// The tokens of the first `n` lines, before preprocessing; `None` where the scan of a
/// line fails or reads an empty word.
pub open spec fn raw_tokens(lines: Seq<Seq<char>>, n: int) -> Option<Seq<TokenView>>
    decreases n,
{
    if n <= 0 {
        Some(Seq::empty())
    } else {
        match raw_tokens(lines, n - 1) {
            None => None,
            Some(a) => match scan_from(lines[n - 1], 0) {
                None => None,
                Some(ws) => if words_nonempty(ws) {
                    Some(a + line_tokens(n - 1, ws))
                } else {
                    None
                },
            },
        }
    }
}

/// The texts of the lines.
pub open spec fn line_texts(lines: Seq<&str>) -> Seq<Seq<char>> {
    Seq::new(lines.len(), |k: int| lines[k]@)
}

/// What tokenizing the lines gives: their tokens, preprocessed; `None` where a line
/// cannot be scanned, a word is empty, preprocessing fails, or the tokens would be more
/// than a machine word can count.
pub open spec fn tokenized(lines: Seq<Seq<char>>) -> Option<Seq<TokenView>> {
    match raw_tokens(lines, lines.len() as int) {
        None => None,
        Some(t) => if t.len() < u64::MAX - 1 {
            preprocessed(t)
        } else {
            None
        },
    }
}

/// The kind of token the non-empty word `w` becomes (see `word_kind`).
fn word_kind_exec(w: &str) -> (r: u8)
    requires
        w@.len() > 0,
    ensures
        r == word_kind(w@),
{
    if starts_with_char(w, '.') {
        DOT
    } else if starts_with_char(w, '#') {
        MET
    } else if str_eq(w, ";") {
        NLN
    } else if starts_with_char(w, '"') || pattern_found(NUMBER_RE_PAT, w) || pattern_found(LITERAL_RE_PAT, w) {
        LIT
    } else if pattern_found(KEYWD_RE_PAT, w) {
        KEY
    } else if pattern_found(WORD_RE_PAT, w) {
        REF
    } else if pattern_found(PAREN_RE_PAT, w) {
        PAR
    } else if pattern_found(GROUP_RE_PAT, w) {
        GRP
    } else if pattern_found(SEPER_RE_PAT, w) {
        SEP
    } else if pattern_found(ASIGN_RE_PAT, w) {
        ASS
    } else if pattern_found(MATHM_RE_PAT, w) {
        MAT
    } else if pattern_found(LOGIC_RE_PAT, w) {
        LOG
    } else {
        UDF
    }
}

/// The token of the word `w` read at `pos` on line `li` (see `word_token`).
fn word_token_exec(li: usize, pos: usize, w: &String) -> (r: Token)
    requires
        w@.len() > 0,
        li < usize::MAX,
        pos < usize::MAX,
    ensures
        r.view() == word_token(li as int, (pos as int, w@)),
{
    let kind = word_kind_exec(w.as_str());
    let text = if starts_with_char(w.as_str(), '#') {
        let v = chars_of(w.as_str());
        string_from(&v, 1, v.len())
    } else {
        copy_str(w.as_str())
    };
    assert(text@ == word_text(w@)) by {
        if w@[0] == '#' {
            assert(w@.subrange(1, w@.len() as int) =~= w@.skip(1));
        }
    }
    let mut t = Token::new(kind, text, BASE_TOKEN);
    t.meta(li + 1, pos + 1);
    proof {
        assert(t.view() == word_token(li as int, (pos as int, w@)));
    }
    t
}


/// Every word the scan reads is recorded at a position within the line (or at its end).
proof fn lemma_scan_positions(line: Seq<char>, i: int)
    ensures
        scan_from(line, i) matches Some(ws) ==> forall|k: int| 0 <= k < ws.len() ==> 0 <= (#[trigger] ws[k]).0 <= line.len(),
    decreases line.len() + 5 - i,
{
    if 0 <= i < line.len() {
        let c = line[i];
        if c == ' ' || c == '\t' {
            lemma_scan_positions(line, i + 1);
        } else if line.len() > i + 1 && c == '/' && line[i + 1] == '/' {
        } else if c == '.' || c == ';' {
            lemma_scan_positions(line, i + 1);
        } else if i == 0 && c == '#' {
            if i + 2 > line.len() {
                lemma_scan_positions(line, i + 4);
            } else {
                lemma_meta_bounds(line, i + 2);
                let ve = meta_value_end(line, meta_name_end(line, i + 2));
                lemma_scan_positions(line, ve + 2);
            }
        } else if c == '"' {
            lemma_first_close_bounds(line, i + 1, '"');
            match first_close(line, i + 1, '"') {
                Some(j) => {
                    lemma_scan_positions(line, j + 1);
                },
                None => {},
            }
        } else if '0' <= c && c <= '9' {
            lemma_number_end_bounds(line, i, false, false, 10);
            match number_end(line, i, false, false, 10) {
                Some(e) => {
                    if e > i {
                        lemma_scan_positions(line, e);
                    }
                },
                None => {},
            }
        } else if unicode_alphabetic(c) || c == '_' {
            lemma_word_stop_bounds(line, i);
            let ws = word_stop(line, i);
            if ws > i {
                let pos = if ws < line.len() { ws - 1 } else { line.len() as int };
                lemma_scan_positions(line, pos + 1);
            }
        } else if c == '+' || c == '-' || c == '*' || c == '/' {
            lemma_scan_positions(line, i + 2);
        } else if c == '$' {
            if i + 1 < line.len() {
                if group_char(line[i + 1]) {
                    lemma_scan_positions(line, i + 2);
                } else {
                    lemma_word_stop_bounds(line, i + 1);
                    let ws = word_stop(line, i + 1);
                    let pos = if ws < line.len() { ws - 1 } else { line.len() as int };
                    lemma_scan_positions(line, pos + 1);
                }
            }
        } else if c == '&' || c == '|' {
            lemma_scan_positions(line, i + 1);
            lemma_scan_positions(line, i + 2);
        } else {
            lemma_scan_positions(line, i + 1);
        }
    }
}


/// Once the tokens of some lines cannot be made, those of more lines cannot either.
proof fn lemma_raw_tokens_none(lines: Seq<Seq<char>>, m: int, n: int)
    requires
        0 <= m <= n,
        raw_tokens(lines, m) is None,
    ensures
        raw_tokens(lines, n) is None,
    decreases n - m,
{
    if m < n {
        lemma_raw_tokens_none(lines, m, n - 1);
    }
}

/// Tokenizes source lines (see `tokenized`): `None` exactly where that fails.
pub fn tokenize_checked(lines: Vec<&str>) -> (r: Option<Vec<Token>>)
    requires
        forall|k: int| 0 <= k < lines.len() ==> (#[trigger] lines@[k])@.len() < usize::MAX - 8,
        lines.len() < usize::MAX,
    ensures
        match tokenized(line_texts(lines@)) {
            None => r is None,
            Some(p) => match r {
                Some(v) => views(v@) == p,
                None => false,
            },
        },
{
    let ghost texts = line_texts(lines@);
    let mut toks: Vec<Token> = Vec::new();
    let mut li: usize = 0;
    proof {
        lemma_views(toks@);
        assert(views(toks@) =~= Seq::<TokenView>::empty());
    }
    while li < lines.len()
        invariant
            li <= lines.len(),
            lines.len() < usize::MAX,
            texts == line_texts(lines@),
            forall|k: int| 0 <= k < lines.len() ==> (#[trigger] lines@[k])@.len() < usize::MAX - 8,
            raw_tokens(texts, li as int) == Some(views(toks@)),
        decreases lines.len() - li,
    {
        let chars = chars_of(lines[li]);
        assert(chars@ == texts[li as int]);
        let words = match scan_line(&chars) {
            None => {
                assert(raw_tokens(texts, li + 1) is None);
                proof {
                    lemma_raw_tokens_none(texts, li + 1, texts.len() as int);
                }
                return None;
            },
            Some(w) => w,
        };
        let ghost wv = words_view(words@);
        let ghost before = views(toks@);
        proof {
            lemma_scan_positions(chars@, 0);
            assert forall|m: int| 0 <= m < words.len() implies (#[trigger] words@[m]).0 < usize::MAX by {
                assert(wv[m].0 == words@[m].0);
            }
        }
        let mut k: usize = 0;
        while k < words.len()
            invariant
                k <= words.len(),
                li < usize::MAX,
                wv == words_view(words@),
                forall|m: int| 0 <= m < words.len() ==> (#[trigger] words@[m]).0 < usize::MAX,
                words_nonempty(wv.take(k as int)),
                views(toks@) == before + line_tokens(li as int, wv.take(k as int)),
                raw_tokens(texts, li as int) == Some(before),
                li < texts.len(),
                texts == line_texts(lines@),
                scan_from(texts[li as int], 0) == Some(wv),
            decreases words.len() - k,
        {
            assert(wv[k as int] == (words@[k as int].0 as int, words@[k as int].1@));
            if str_eq(words[k].1.as_str(), "") {
                proof {
                    reveal_strlit("");
                    assert(wv[k as int].1.len() == 0);
                    assert(!words_nonempty(wv));
                }
                assert(raw_tokens(texts, li + 1) is None);
                proof {
                    lemma_raw_tokens_none(texts, li + 1, texts.len() as int);
                }
                return None;
            }
            assert(words@[k as int].1@.len() > 0) by {
                reveal_strlit("");
                if words@[k as int].1@.len() == 0 {
                    assert(words@[k as int].1@ =~= ""@);
                }
            }
            let t = word_token_exec(li, words[k].0, &words[k].1);
            let ghost tv_old = toks@;
            toks.push(t);
            proof {
                lemma_views(toks@);
                lemma_views(tv_old);
                assert(views(toks@) =~= views(tv_old).push(t.view()));
                assert(line_tokens(li as int, wv.take(k + 1)) =~= line_tokens(li as int, wv.take(k as int)).push(word_token(li as int, wv[k as int])));
                assert(wv.take(k + 1) =~= wv.take(k as int).push(wv[k as int]));
            }
            k += 1;
        }
        assert(wv.take(words.len() as int) =~= wv);
        li += 1;
    }
    assert(texts.len() == lines.len());
    proof {
        lemma_views(toks@);
    }
    if toks.len() as u64 >= u64::MAX - 1 {
        return None;
    }
    preprocess_checked(toks)
}

/// Tokenizes source lines: scans each line into words, makes a token of each word,
/// and preprocesses the tokens (see `tokenized`). The lines must tokenize.
pub fn tokenize(lines: Vec<&str>) -> (r: Vec<Token>)
    requires
        forall|k: int| 0 <= k < lines.len() ==> (#[trigger] lines@[k])@.len() < usize::MAX - 8,
        lines.len() < usize::MAX,
        tokenized(line_texts(lines@)) is Some,
    ensures
        views(r@) == tokenized(line_texts(lines@)).unwrap(),
{
    match tokenize_checked(lines) {
        Some(v) => v,
        None => Vec::new(),
    }
}

} // verus!
