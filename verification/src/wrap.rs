use vstd::prelude::*;

use crate::text::{chars_of, push_char, push_str};
use unicode_width::{UnicodeWidthChar, UnicodeWidthStr};

verus! {

/// Display width of a character in terminal columns, `None` for control characters
/// (`UnicodeWidthChar::width`).
pub uninterp spec fn char_columns(c: char) -> Option<usize>;

/// Display width of a string in terminal columns (`UnicodeWidthStr::width`).
pub uninterp spec fn str_columns(s: Seq<char>) -> usize;

/// Every character is printable ASCII (space through tilde).
pub open spec fn printable_ascii(s: Seq<char>) -> bool {
    forall|i: int| 0 <= i < s.len() ==> ' ' <= #[trigger] s[i] && s[i] <= '~'
}

/// `UnicodeWidthChar::width`, named `char_columns`: printable ASCII is one column wide,
/// the control characters below U+0020 and from U+007F to U+009F have no width, and every
/// character from U+00A0 on has a width of at most three columns.
#[verifier::external_body]
fn char_width(c: char) -> (r: Option<usize>)
    ensures
        r == char_columns(c),
        ' ' <= c && c <= '~' ==> r == Some(1usize),
        c < ' ' || ('\u{7f}' <= c && c < '\u{a0}') ==> r is None,
        '\u{a0}' <= c ==> r is Some,
        r matches Some(w) ==> w <= 3,
{
    UnicodeWidthChar::width(c)
}

/// `UnicodeWidthStr::width`, named `str_columns`: a string of printable ASCII is as wide
/// as it is long.
#[verifier::external_body]
fn str_width(s: &str) -> (r: usize)
    ensures
        r == str_columns(s@),
        printable_ascii(s@) ==> r == s@.len(),
{
    UnicodeWidthStr::width(s)
}

/// Width of `s` as the wrapping below counts it.
pub fn columns(s: &str) -> (r: usize)
    ensures
        r == str_columns(s@),
        printable_ascii(s@) ==> r == s@.len(),
{
    str_width(s)
}

/// The pieces of `s` between single spaces (`str::split(' ')`): empty pieces included,
/// at least one piece.
pub open spec fn split_words(s: Seq<char>) -> Seq<Seq<char>>
    decreases s.len(),
{
    if s.len() == 0 {
        seq![seq![]]
    } else {
        let rest = split_words(s.drop_last());
        if s.last() == ' ' {
            rest.push(seq![])
        } else {
            rest.update(rest.len() - 1, rest.last().push(s.last()))
        }
    }
}

proof fn lemma_split_words_nonempty(s: Seq<char>)
    ensures
        split_words(s).len() >= 1,
    decreases s.len(),
{
    if s.len() > 0 {
        lemma_split_words_nonempty(s.drop_last());
    }
}

/// Splits `s` at every space, keeping empty pieces.
pub fn split_on_space(s: &str) -> (r: Vec<String>)
    ensures
        r@.len() == split_words(s@).len(),
        forall|i: int| 0 <= i < r@.len() ==> #[trigger] r@[i]@ == split_words(s@)[i],
{
    let cs = chars_of(s);
    let mut out: Vec<String> = Vec::new();
    out.push(String::new());
    let mut i: usize = 0;
    assert(cs@.take(0) == Seq::<char>::empty());
    while i < cs.len()
        invariant
            i <= cs.len(),
            cs@ == s@,
            out@.len() == split_words(cs@.take(i as int)).len(),
            forall|k: int|
                0 <= k < out@.len() ==> #[trigger] out@[k]@ == split_words(cs@.take(i as int))[k],
        decreases cs.len() - i,
    {
        let c = cs[i];
        let ghost prev = cs@.take(i as int);
        assert(cs@.take(i + 1).drop_last() == prev);
        assert(cs@.take(i + 1).last() == c);
        proof {
            lemma_split_words_nonempty(prev);
        }
        if c == ' ' {
            out.push(String::new());
        } else {
            let last = out.len() - 1;
            let mut piece = out.remove(last);
            push_char(&mut piece, c);
            out.push(piece);
        }
        i = i + 1;
    }
    assert(cs@.take(cs@.len() as int) == cs@);
    out
}

/// Progress of the greedy wrapping: finished lines, the line being filled and its width.
#[verifier::ext_equal]
pub struct WrapState {
    pub lines: Seq<Seq<char>>,
    pub cur: Seq<char>,
    pub cur_w: int,
}

/// A word (`.0`), its display width (`.1`) and its characters with their widths (`.2`).
pub type WordView = (Seq<char>, int, Seq<(char, int)>);

/// Adds the characters `cs` one by one, breaking the line before a character that would
/// overflow `width`.
pub open spec fn place_chars(width: int, st: WrapState, cs: Seq<(char, int)>) -> WrapState
    decreases cs.len(),
{
    if cs.len() == 0 {
        st
    } else {
        let s0 = place_chars(width, st, cs.drop_last());
        let c = cs.last().0;
        let cw = cs.last().1;
        let s1 = if s0.cur_w + cw > width {
            WrapState { lines: s0.lines.push(s0.cur), cur: seq![], cur_w: 0 }
        } else {
            s0
        };
        WrapState { lines: s1.lines, cur: s1.cur.push(c), cur_w: s1.cur_w + cw }
    }
}

/// Adds one word: after a space on the current line when it fits, otherwise on a new line;
/// a word wider than a whole line is broken between characters.
pub open spec fn place_word(width: int, st: WrapState, word: WordView) -> WrapState {
    let w = word.1;
    if st.cur.len() > 0 && st.cur_w + 1 + w <= width {
        WrapState { lines: st.lines, cur: st.cur + seq![' '] + word.0, cur_w: st.cur_w + 1 + w }
    } else {
        let s1 = if st.cur.len() > 0 {
            WrapState { lines: st.lines.push(st.cur), cur: seq![], cur_w: 0 }
        } else {
            st
        };
        if w <= width {
            WrapState { lines: s1.lines, cur: s1.cur + word.0, cur_w: w }
        } else {
            place_chars(width, s1, word.2)
        }
    }
}

pub open spec fn place_words(width: int, st: WrapState, words: Seq<WordView>) -> WrapState
    decreases words.len(),
{
    if words.len() == 0 {
        st
    } else {
        place_word(width, place_words(width, st, words.drop_last()), words.last())
    }
}

/// Lines of the measured `words` wrapped to `width` columns (at least 1): by words, and by
/// characters for a word wider than a line; no words, or only empty ones, give one empty
/// line.
pub open spec fn wrap_words_spec(words: Seq<WordView>, width: int) -> Seq<Seq<char>> {
    let w = if width < 1 {
        1
    } else {
        width
    };
    let st = place_words(w, WrapState { lines: seq![], cur: seq![], cur_w: 0 }, words);
    if st.cur.len() > 0 || st.lines.len() == 0 {
        st.lines.push(st.cur)
    } else {
        st.lines
    }
}

pub open spec fn cols_or_zero(c: char) -> int {
    match char_columns(c) {
        Some(w) => w as int,
        None => 0,
    }
}

/// A word measured the way the terminal shows it.
pub open spec fn measure(word: Seq<char>) -> WordView {
    (word, str_columns(word) as int, word.map_values(|c: char| (c, cols_or_zero(c))))
}

/// Lines of `text` wrapped to `width` columns (at least 1): by words, and by characters
/// for a word wider than a line; an empty text gives one empty line.
pub open spec fn wrap_spec(text: Seq<char>, width: int) -> Seq<Seq<char>> {
    wrap_words_spec(split_words(text).map_values(|w: Seq<char>| measure(w)), width)
}

pub open spec fn views(v: Seq<String>) -> Seq<Seq<char>> {
    v.map_values(|s: String| s@)
}

/// Columns taken by `s` when each character `c` takes `cw(c)` columns.
pub open spec fn width_by(cw: spec_fn(char) -> int, s: Seq<char>) -> int
    decreases s.len(),
{
    if s.len() == 0 {
        0
    } else {
        width_by(cw, s.drop_last()) + cw(s.last())
    }
}

/// The words are measured by the per-character width `cw`: each character carries its
/// width and each word is as wide as its characters together.
pub open spec fn measured_by(cw: spec_fn(char) -> int, words: Seq<WordView>) -> bool {
    forall|k: int|
        0 <= k < words.len() ==> (#[trigger] words[k]).2 == words[k].0.map_values(
            |c: char| (c, cw(c)),
        ) && words[k].1 == width_by(cw, words[k].0)
}

proof fn lemma_width_by_concat(cw: spec_fn(char) -> int, a: Seq<char>, b: Seq<char>)
    ensures
        width_by(cw, a + b) == width_by(cw, a) + width_by(cw, b),
    decreases b.len(),
{
    if b.len() > 0 {
        lemma_width_by_concat(cw, a, b.drop_last());
        assert((a + b).drop_last() =~= a + b.drop_last());
    }
}

/// The lines so far fit in `width`, and the line being filled is as wide as counted.
pub open spec fn fits_so_far(cw: spec_fn(char) -> int, width: int, st: WrapState) -> bool {
    &&& forall|i: int| 0 <= i < st.lines.len() ==> width_by(cw, #[trigger] st.lines[i]) <= width
    &&& width_by(cw, st.cur) == st.cur_w
    &&& 0 <= st.cur_w <= width
}

proof fn lemma_break_fits(cw: spec_fn(char) -> int, width: int, st: WrapState)
    requires
        fits_so_far(cw, width, st),
    ensures
        fits_so_far(cw, width, WrapState { lines: st.lines.push(st.cur), cur: seq![], cur_w: 0 }),
{
    let l = st.lines.push(st.cur);
    assert forall|i: int| 0 <= i < l.len() implies width_by(cw, #[trigger] l[i]) <= width by {
        if i < st.lines.len() {
            assert(l[i] == st.lines[i]);
        }
    }
}

proof fn lemma_place_chars_fits(
    cw: spec_fn(char) -> int,
    width: int,
    st: WrapState,
    cs: Seq<(char, int)>,
)
    requires
        fits_so_far(cw, width, st),
        forall|j: int| 0 <= j < cs.len() ==> (#[trigger] cs[j]).1 == cw(cs[j].0) && 0 <= cs[j].1 <= width,
    ensures
        fits_so_far(cw, width, place_chars(width, st, cs)),
    decreases cs.len(),
{
    if cs.len() > 0 {
        let rest = cs.drop_last();
        assert forall|j: int| 0 <= j < rest.len() implies (#[trigger] rest[j]).1 == cw(rest[j].0)
            && 0 <= rest[j].1 <= width by {
            assert(rest[j] == cs[j]);
        }
        lemma_place_chars_fits(cw, width, st, rest);
        let s0 = place_chars(width, st, rest);
        let c = cs.last().0;
        let w = cs.last().1;
        assert(cs.last() == cs[cs.len() - 1]);
        let s1 = if s0.cur_w + w > width {
            lemma_break_fits(cw, width, s0);
            WrapState { lines: s0.lines.push(s0.cur), cur: seq![], cur_w: 0 }
        } else {
            s0
        };
        assert(s1.cur.push(c).drop_last() =~= s1.cur);
    }
}

proof fn lemma_place_word_fits(cw: spec_fn(char) -> int, width: int, st: WrapState, word: WordView)
    requires
        fits_so_far(cw, width, st),
        word.2 == word.0.map_values(|c: char| (c, cw(c))),
        word.1 == width_by(cw, word.0),
        cw(' ') == 1,
        forall|j: int| 0 <= j < word.0.len() ==> 0 <= #[trigger] cw(word.0[j]) <= width,
    ensures
        fits_so_far(cw, width, place_word(width, st, word)),
{
    let w = word.1;
    lemma_width_by_nonneg(cw, word.0, width);
    if st.cur.len() > 0 && st.cur_w + 1 + w <= width {
        lemma_width_by_concat(cw, st.cur, seq![' ']);
        lemma_width_by_concat(cw, st.cur + seq![' '], word.0);
        assert(width_by(cw, seq![' ']) == 1) by {
            let sp = seq![' '];
            assert(sp.drop_last() =~= Seq::<char>::empty());
            assert(sp.last() == ' ');
            assert(width_by(cw, Seq::<char>::empty()) == 0);
            assert(width_by(cw, sp) == width_by(cw, sp.drop_last()) + cw(sp.last()));
        }
    } else {
        let s1 = if st.cur.len() > 0 {
            lemma_break_fits(cw, width, st);
            WrapState { lines: st.lines.push(st.cur), cur: seq![], cur_w: 0 }
        } else {
            st
        };
        assert(s1.cur.len() == 0 ==> s1.cur =~= Seq::<char>::empty());
        if w <= width {
            assert(s1.cur + word.0 =~= word.0);
        } else {
            lemma_place_chars_fits(cw, width, s1, word.2);
        }
    }
}

proof fn lemma_width_by_nonneg(cw: spec_fn(char) -> int, s: Seq<char>, width: int)
    requires
        forall|j: int| 0 <= j < s.len() ==> 0 <= #[trigger] cw(s[j]) <= width,
    ensures
        width_by(cw, s) >= 0,
    decreases s.len(),
{
    if s.len() > 0 {
        let rest = s.drop_last();
        assert forall|j: int| 0 <= j < rest.len() implies 0 <= #[trigger] cw(rest[j]) <= width by {
            assert(rest[j] == s[j]);
        }
        lemma_width_by_nonneg(cw, rest, width);
        assert(cw(s[s.len() - 1]) >= 0);
    }
}

proof fn lemma_place_words_fits(cw: spec_fn(char) -> int, width: int, st: WrapState, words: Seq<WordView>)
    requires
        fits_so_far(cw, width, st),
        measured_by(cw, words),
        cw(' ') == 1,
        forall|k: int, j: int|
            0 <= k < words.len() && 0 <= j < words[k].0.len() ==> 0 <= #[trigger] cw(words[k].0[j]) <= width,
    ensures
        fits_so_far(cw, width, place_words(width, st, words)),
    decreases words.len(),
{
    if words.len() > 0 {
        let rest = words.drop_last();
        assert forall|k: int| 0 <= k < rest.len() implies (#[trigger] rest[k]).2 == rest[k].0.map_values(
            |c: char| (c, cw(c)),
        ) && rest[k].1 == width_by(cw, rest[k].0) by {
            assert(rest[k] == words[k]);
        }
        assert forall|k: int, j: int|
            0 <= k < rest.len() && 0 <= j < rest[k].0.len() implies 0 <= #[trigger] cw(rest[k].0[j]) <= width by {
            assert(rest[k] == words[k]);
        }
        lemma_place_words_fits(cw, width, st, rest);
        let last = words.last();
        assert(last == words[words.len() - 1]);
        assert forall|j: int| 0 <= j < last.0.len() implies 0 <= #[trigger] cw(last.0[j]) <= width by {
            assert(cw(words[words.len() - 1].0[j]) <= width);
        }
        let cs = last.2;
        assert forall|j: int| 0 <= j < cs.len() implies (#[trigger] cs[j]).1 == cw(cs[j].0) && 0 <= cs[j].1 <= width by {
            assert(cs[j] == (last.0[j], cw(last.0[j])));
        }
        lemma_place_word_fits(cw, width, place_words(width, st, rest), last);
    }
}

/// When every character is measured the same way wherever it occurs, a space takes one
/// column and no character is wider than the line, no wrapped line is wider than `width`.
pub proof fn lemma_wrapped_lines_fit(cw: spec_fn(char) -> int, words: Seq<WordView>, width: int)
    requires
        width >= 1,
        measured_by(cw, words),
        cw(' ') == 1,
        forall|k: int, j: int|
            0 <= k < words.len() && 0 <= j < words[k].0.len() ==> 0 <= #[trigger] cw(words[k].0[j]) <= width,
    ensures
        forall|i: int|
            0 <= i < wrap_words_spec(words, width).len() ==> width_by(
                cw,
                #[trigger] wrap_words_spec(words, width)[i],
            ) <= width,
{
    let st0 = WrapState { lines: seq![], cur: seq![], cur_w: 0 };
    assert(width_by(cw, st0.cur) == 0);
    lemma_place_words_fits(cw, width, st0, words);
    let st = place_words(width, st0, words);
    let out = wrap_words_spec(words, width);
    assert forall|i: int| 0 <= i < out.len() implies width_by(cw, #[trigger] out[i]) <= width by {
        if i < st.lines.len() {
            assert(out[i] == st.lines[i]);
        }
    }
}

/// A word with its display width and each of its characters with its display width.
pub struct Measured {
    pub text: String,
    pub cols: usize,
    pub chars: Vec<(char, usize)>,
}

pub open spec fn measured_view(m: Measured) -> WordView {
    (m.text@, m.cols as int, m.chars@.map_values(|p: (char, usize)| (p.0, p.1 as int)))
}

pub open spec fn measured_views(v: Seq<Measured>) -> Seq<WordView> {
    v.map_values(|m: Measured| measured_view(m))
}

/// Measures `word`: its display width and the width of each character (0 for a control
/// character).
pub fn measure_word(word: &str) -> (r: Measured)
    ensures
        measured_view(r) == measure(word@),
{
    let cols = str_width(word);
    let cs = chars_of(word);
    let mut chars: Vec<(char, usize)> = Vec::new();
    let mut i: usize = 0;
    while i < cs.len()
        invariant
            i <= cs.len(),
            cs@ == word@,
            chars@.map_values(|p: (char, usize)| (p.0, p.1 as int)) == word@.take(
                i as int,
            ).map_values(|c: char| (c, cols_or_zero(c))),
        decreases cs.len() - i,
    {
        let c = cs[i];
        let w: usize = match char_width(c) {
            Some(x) => x,
            None => 0,
        };
        let ghost before = chars@;
        chars.push((c, w));
        assert(w as int == cols_or_zero(c));
        assert(c == word@[i as int]);
        assert(word@.take(i + 1) =~= word@.take(i as int).push(c));
        assert(chars@.map_values(|p: (char, usize)| (p.0, p.1 as int)) =~= before.map_values(
            |p: (char, usize)| (p.0, p.1 as int),
        ).push((c, w as int)));
        assert(word@.take(i + 1).map_values(|c: char| (c, cols_or_zero(c))) =~= word@.take(
            i as int,
        ).map_values(|c: char| (c, cols_or_zero(c))).push((c, cols_or_zero(c))));
        i = i + 1;
    }
    assert(word@.take(i as int) == word@);
    let r = Measured { text: String::from_str(word), cols, chars };
    assert(measured_view(r).2 =~= measure(word@).2);
    r
}

/// Wraps measured words into lines of at most `width` columns (a width of 0 counts as 1):
/// a word joins the current line after one space when it fits, starts a new line when it
/// does not, and is cut between characters when it is wider than a whole line.
pub fn wrap_measured(words: &Vec<Measured>, width: usize) -> (r: Vec<String>)
    ensures
        views(r@) == wrap_words_spec(measured_views(words@), width as int),
{
    let width: usize = if width < 1 {
        1
    } else {
        width
    };
    let ghost wi = width as int;
    let ghost ws = measured_views(words@);
    let mut lines: Vec<String> = Vec::new();
    let mut cur = String::new();
    let mut cur_w: usize = 0;
    let mut k: usize = 0;
    assert(ws.take(0) == Seq::<WordView>::empty());
    assert(views(lines@) =~= Seq::<Seq<char>>::empty());
    assert(cur@ =~= Seq::<char>::empty());
    assert(place_words(wi, WrapState { lines: seq![], cur: seq![], cur_w: 0 }, ws.take(0)) =~= (
    WrapState { lines: views(lines@), cur: cur@, cur_w: cur_w as int }));
    while k < words.len()
        invariant
            k <= words.len(),
            wi == width as int,
            width >= 1,
            ws == measured_views(words@),
            place_words(wi, WrapState { lines: seq![], cur: seq![], cur_w: 0 }, ws.take(k as int))
                == (WrapState { lines: views(lines@), cur: cur@, cur_w: cur_w as int }),
        decreases words.len() - k,
    {
        assert(ws.take(k + 1).drop_last() == ws.take(k as int));
        assert(ws.take(k + 1).last() == ws[k as int]);
        let ghost stk = WrapState { lines: views(lines@), cur: cur@, cur_w: cur_w as int };
        let word = &words[k];
        assert(measured_view(*word) == ws[k as int]);
        let w = word.cols;
        if !cur.as_str().is_empty() && (cur_w as u128) + 1 + (w as u128) <= width as u128 {
            push_char(&mut cur, ' ');
            push_str(&mut cur, word.text.as_str());
            cur_w = cur_w + 1 + w;
        } else {
            if !cur.as_str().is_empty() {
                let ghost before = lines@;
                let mut done = String::new();
                core::mem::swap(&mut cur, &mut done);
                lines.push(done);
                assert(views(lines@) == views(before).push(done@));
                cur_w = 0;
            }
            if w <= width {
                push_str(&mut cur, word.text.as_str());
                cur_w = w;
            } else {
                let cs = &word.chars;
                let ghost cv = cs@.map_values(|p: (char, usize)| (p.0, p.1 as int));
                assert(cv == ws[k as int].2);
                let ghost st0 = WrapState { lines: views(lines@), cur: cur@, cur_w: cur_w as int };
                let mut j: usize = 0;
                assert(cv.take(0) == Seq::<(char, int)>::empty());
                while j < cs.len()
                    invariant
                        j <= cs.len(),
                        cv == cs@.map_values(|p: (char, usize)| (p.0, p.1 as int)),
                        wi == width as int,
                        place_chars(wi, st0, cv.take(j as int)) == (WrapState {
                            lines: views(lines@),
                            cur: cur@,
                            cur_w: cur_w as int,
                        }),
                    decreases cs.len() - j,
                {
                    assert(cv.take(j + 1).drop_last() == cv.take(j as int));
                    assert(cv.take(j + 1).last() == cv[j as int]);
                    let (ch, cw) = cs[j];
                    if (cur_w as u128) + (cw as u128) > width as u128 {
                        let ghost before = lines@;
                        let mut done = String::new();
                        core::mem::swap(&mut cur, &mut done);
                        lines.push(done);
                        assert(views(lines@) == views(before).push(done@));
                        cur_w = 0;
                    }
                    push_char(&mut cur, ch);
                    cur_w = cur_w + cw;
                    j = j + 1;
                }
                assert(cv.take(j as int) == cv);
            }
        }
        assert(place_word(wi, stk, ws[k as int]) =~= (WrapState {
            lines: views(lines@),
            cur: cur@,
            cur_w: cur_w as int,
        }));
        k = k + 1;
    }
    assert(ws.take(k as int) == ws);
    if !cur.as_str().is_empty() || lines.len() == 0 {
        let ghost before = lines@;
        lines.push(cur);
        assert(views(lines@) == views(before).push(cur@));
    }
    lines
}

/// Wraps `text` to lines of at most `width` display columns (a width of 0 counts as 1):
/// words stay whole when they fit on a line, longer words are cut between characters.
pub fn wrap_width(text: &str, width: usize) -> (r: Vec<String>)
    ensures
        views(r@) == wrap_spec(text@, width as int),
{
    let pieces = split_on_space(text);
    let ghost ps = split_words(text@);
    let mut words: Vec<Measured> = Vec::new();
    let mut k: usize = 0;
    while k < pieces.len()
        invariant
            k <= pieces.len(),
            pieces@.len() == ps.len(),
            forall|i: int| 0 <= i < pieces@.len() ==> #[trigger] pieces@[i]@ == ps[i],
            measured_views(words@) == ps.take(k as int).map_values(|w: Seq<char>| measure(w)),
        decreases pieces.len() - k,
    {
        let m = measure_word(pieces[k].as_str());
        let ghost before = words@;
        words.push(m);
        assert(measured_view(m) == measure(ps[k as int]));
        assert(ps.take(k + 1) =~= ps.take(k as int).push(ps[k as int]));
        assert(measured_views(words@) =~= measured_views(before).push(measured_view(m)));
        assert(ps.take(k + 1).map_values(|w: Seq<char>| measure(w)) =~= ps.take(k as int).map_values(
            |w: Seq<char>| measure(w),
        ).push(measure(ps[k as int])));
        k = k + 1;
    }
    assert(ps.take(k as int) == ps);
    wrap_measured(&words, width)
}

/// Adds one command of a help group: on the current line after a three-space gap when it
/// fits, otherwise on a new line. A command is never split.
pub open spec fn place_cmd(width: int, st: WrapState, cmd: (Seq<char>, int)) -> WrapState {
    let w = cmd.1;
    if st.cur.len() == 0 {
        WrapState { lines: st.lines, cur: st.cur + cmd.0, cur_w: w }
    } else if st.cur_w + 3 + w <= width {
        WrapState { lines: st.lines, cur: st.cur + seq![' ', ' ', ' '] + cmd.0, cur_w: st.cur_w + 3 + w }
    } else {
        WrapState { lines: st.lines.push(st.cur), cur: cmd.0, cur_w: w }
    }
}

pub open spec fn place_cmds(width: int, st: WrapState, cmds: Seq<(Seq<char>, int)>) -> WrapState
    decreases cmds.len(),
{
    if cmds.len() == 0 {
        st
    } else {
        place_cmd(width, place_cmds(width, st, cmds.drop_last()), cmds.last())
    }
}

/// Lines of the help groups: each group starts on a new line.
pub open spec fn wrap_groups(groups: Seq<Seq<(Seq<char>, int)>>, width: int) -> Seq<Seq<char>>
    decreases groups.len(),
{
    if groups.len() == 0 {
        seq![]
    } else {
        let st = place_cmds(
            width,
            WrapState { lines: wrap_groups(groups.drop_last(), width), cur: seq![], cur_w: 0 },
            groups.last(),
        );
        if st.cur.len() > 0 {
            st.lines.push(st.cur)
        } else {
            st.lines
        }
    }
}

/// Help text laid out in `width` columns; at least one (possibly empty) line.
pub open spec fn commands_spec(groups: Seq<Seq<(Seq<char>, int)>>, width: int) -> Seq<Seq<char>> {
    let l = wrap_groups(groups, width);
    if l.len() == 0 {
        seq![seq![]]
    } else {
        l
    }
}

/// `c` occurs in `line` as a run of consecutive characters.
pub open spec fn contains_run(line: Seq<char>, c: Seq<char>) -> bool {
    exists|p: int| 0 <= p && p + c.len() <= line.len() && #[trigger] line.subrange(p, p + c.len()) == c
}

/// `c` occurs whole in one of the finished lines or in the line being filled.
pub open spec fn appears(st: WrapState, c: Seq<char>) -> bool {
    (exists|i: int| 0 <= i < st.lines.len() && contains_run(#[trigger] st.lines[i], c))
        || contains_run(st.cur, c)
}

proof fn lemma_run_extend(x: Seq<char>, y: Seq<char>, c: Seq<char>)
    ensures
        contains_run(x, c) ==> contains_run(x + y, c),
        contains_run(y, c) ==> contains_run(x + y, c),
{
    if contains_run(x, c) {
        let p = choose|p: int| 0 <= p && p + c.len() <= x.len() && #[trigger] x.subrange(p, p + c.len()) == c;
        assert((x + y).subrange(p, p + c.len()) =~= x.subrange(p, p + c.len()));
    }
    if contains_run(y, c) {
        let p = choose|p: int| 0 <= p && p + c.len() <= y.len() && #[trigger] y.subrange(p, p + c.len()) == c;
        assert((x + y).subrange(x.len() + p, x.len() + p + c.len()) =~= y.subrange(p, p + c.len()));
    }
}

proof fn lemma_run_self(c: Seq<char>)
    ensures
        contains_run(c, c),
{
    let p: int = 0;
    assert(c.subrange(p, p + c.len()) =~= c);
}

proof fn lemma_place_cmd_keeps(width: int, st: WrapState, cmd: (Seq<char>, int), c: Seq<char>)
    requires
        c.len() > 0,
        appears(st, c) || c == cmd.0,
    ensures
        appears(place_cmd(width, st, cmd), c),
        place_cmd(width, st, cmd).lines.len() >= st.lines.len(),
        forall|i: int| 0 <= i < st.lines.len() ==> #[trigger] place_cmd(width, st, cmd).lines[i] == st.lines[i],
{
    let next = place_cmd(width, st, cmd);
    let sep = seq![' ', ' ', ' '];
    lemma_run_self(cmd.0);
    lemma_run_extend(st.cur, cmd.0, c);
    lemma_run_extend(st.cur, sep, c);
    lemma_run_extend(st.cur + sep, cmd.0, c);
    let in_lines = exists|i: int| 0 <= i < st.lines.len() && contains_run(#[trigger] st.lines[i], c);
    if in_lines {
        let i = choose|i: int| 0 <= i < st.lines.len() && contains_run(#[trigger] st.lines[i], c);
        if st.cur.len() == 0 || st.cur_w + 3 + cmd.1 <= width {
            assert(next.lines == st.lines);
        } else {
            assert(next.lines[i] == st.lines[i]);
        }
        assert(contains_run(next.lines[i], c));
    } else if contains_run(st.cur, c) {
        if st.cur.len() == 0 {
            let p = choose|p: int| 0 <= p && p + c.len() <= st.cur.len() && #[trigger] st.cur.subrange(p, p + c.len()) == c;
            assert(false);
        } else if st.cur_w + 3 + cmd.1 <= width {
            assert(next.cur == st.cur + sep + cmd.0);
            assert(contains_run(next.cur, c));
        } else {
            assert(next.lines[st.lines.len() as int] == st.cur);
            assert(contains_run(next.lines[st.lines.len() as int], c));
        }
    } else {
        assert(c == cmd.0);
        if st.cur.len() == 0 {
            assert(next.cur == st.cur + cmd.0);
        } else if st.cur_w + 3 + cmd.1 <= width {
            assert(next.cur == st.cur + sep + cmd.0);
        } else {
            assert(next.cur == cmd.0);
        }
        assert(contains_run(next.cur, c));
    }
}

proof fn lemma_place_cmds_keeps(width: int, st: WrapState, cmds: Seq<(Seq<char>, int)>)
    requires
        forall|m: int| 0 <= m < cmds.len() ==> (#[trigger] cmds[m]).0.len() > 0,
    ensures
        forall|m: int| 0 <= m < cmds.len() ==> appears(place_cmds(width, st, cmds), (#[trigger] cmds[m]).0),
        forall|c: Seq<char>| c.len() > 0 && #[trigger] appears(st, c) ==> appears(place_cmds(width, st, cmds), c),
        place_cmds(width, st, cmds).lines.len() >= st.lines.len(),
        forall|i: int| 0 <= i < st.lines.len() ==> #[trigger] place_cmds(width, st, cmds).lines[i] == st.lines[i],
    decreases cmds.len(),
{
    if cmds.len() > 0 {
        let rest = cmds.drop_last();
        assert forall|m: int| 0 <= m < rest.len() implies (#[trigger] rest[m]).0.len() > 0 by {
            assert(rest[m] == cmds[m]);
        }
        lemma_place_cmds_keeps(width, st, rest);
        let mid = place_cmds(width, st, rest);
        let last = cmds.last();
        assert(last == cmds[cmds.len() - 1]);
        assert forall|m: int| 0 <= m < cmds.len() implies appears(place_cmds(width, st, cmds), (#[trigger] cmds[m]).0) by {
            if m < rest.len() {
                assert(rest[m] == cmds[m]);
                lemma_place_cmd_keeps(width, mid, last, cmds[m].0);
            } else {
                lemma_place_cmd_keeps(width, mid, last, cmds[m].0);
            }
        }
        assert forall|c: Seq<char>| c.len() > 0 && #[trigger] appears(st, c) implies appears(place_cmds(width, st, cmds), c) by {
            lemma_place_cmd_keeps(width, mid, last, c);
        }
        lemma_place_cmd_keeps(width, mid, last, last.0);
        assert forall|i: int| 0 <= i < st.lines.len() implies #[trigger] place_cmds(width, st, cmds).lines[i] == st.lines[i] by {
            assert(mid.lines[i] == st.lines[i]);
        }
    }
}

proof fn lemma_wrap_groups_keeps(groups: Seq<Seq<(Seq<char>, int)>>, width: int)
    requires
        forall|g: int, m: int|
            0 <= g < groups.len() && 0 <= m < groups[g].len() ==> (#[trigger] groups[g][m]).0.len() > 0,
    ensures
        forall|g: int, m: int|
            0 <= g < groups.len() && 0 <= m < groups[g].len() ==> exists|i: int|
                0 <= i < wrap_groups(groups, width).len() && contains_run(
                    #[trigger] wrap_groups(groups, width)[i],
                    (#[trigger] groups[g][m]).0,
                ),
    decreases groups.len(),
{
    if groups.len() > 0 {
        let rest = groups.drop_last();
        assert forall|g: int, m: int|
            0 <= g < rest.len() && 0 <= m < rest[g].len() implies (#[trigger] rest[g][m]).0.len() > 0 by {
            assert(rest[g] == groups[g]);
        }
        lemma_wrap_groups_keeps(rest, width);
        let prev = wrap_groups(rest, width);
        let st0 = WrapState { lines: prev, cur: seq![], cur_w: 0 };
        let cmds = groups.last();
        assert(cmds == groups[groups.len() - 1]);
        assert forall|m: int| 0 <= m < cmds.len() implies (#[trigger] cmds[m]).0.len() > 0 by {}
        lemma_place_cmds_keeps(width, st0, cmds);
        let st = place_cmds(width, st0, cmds);
        let out = wrap_groups(groups, width);
        assert forall|i: int| 0 <= i < st.lines.len() implies #[trigger] out[i] == st.lines[i] by {}
        assert forall|g: int, m: int|
            0 <= g < groups.len() && 0 <= m < groups[g].len() implies exists|i: int|
                0 <= i < out.len() && contains_run(#[trigger] out[i], (#[trigger] groups[g][m]).0) by {
            let c = groups[g][m].0;
            if g < rest.len() {
                assert(rest[g] == groups[g]);
                assert(rest[g][m] == groups[g][m]);
                let i = choose|i: int| 0 <= i < prev.len() && contains_run(#[trigger] prev[i], rest[g][m].0);
                assert(st.lines[i] == prev[i]);
                assert(out[i] == st.lines[i]);
            } else {
                assert(groups[g] == cmds);
                assert(appears(st, c));
                if contains_run(st.cur, c) {
                    assert(st.cur.len() > 0);
                    assert(out[st.lines.len() as int] == st.cur);
                } else {
                    let i = choose|i: int| 0 <= i < st.lines.len() && contains_run(#[trigger] st.lines[i], c);
                    assert(out[i] == st.lines[i]);
                }
            }
        }
    }
}

/// No help command is cut: every (non-empty) command occurs whole on some line.
pub proof fn lemma_commands_stay_whole(groups: Seq<Seq<(Seq<char>, int)>>, width: int)
    requires
        forall|g: int, m: int|
            0 <= g < groups.len() && 0 <= m < groups[g].len() ==> (#[trigger] groups[g][m]).0.len() > 0,
    ensures
        forall|g: int, m: int|
            0 <= g < groups.len() && 0 <= m < groups[g].len() ==> exists|i: int|
                0 <= i < commands_spec(groups, width).len() && contains_run(
                    #[trigger] commands_spec(groups, width)[i],
                    (#[trigger] groups[g][m]).0,
                ),
{
    lemma_wrap_groups_keeps(groups, width);
    let l = wrap_groups(groups, width);
    assert forall|g: int, m: int|
        0 <= g < groups.len() && 0 <= m < groups[g].len() implies exists|i: int|
            0 <= i < commands_spec(groups, width).len() && contains_run(
                #[trigger] commands_spec(groups, width)[i],
                (#[trigger] groups[g][m]).0,
            ) by {
        let i = choose|i: int| 0 <= i < l.len() && contains_run(#[trigger] l[i], groups[g][m].0);
        assert(commands_spec(groups, width)[i] == l[i]);
    }
}

pub open spec fn group_views(groups: Seq<Vec<&str>>) -> Seq<Seq<Seq<char>>> {
    groups.map_values(|g: Vec<&str>| g@.map_values(|c: &str| c@))
}

/// The help groups, each command with its display width.
pub open spec fn measured_groups(groups: Seq<Vec<&str>>) -> Seq<Seq<(Seq<char>, int)>> {
    groups.map_values(|g: Vec<&str>| g@.map_values(|c: &str| (c@, str_columns(c@) as int)))
}

pub open spec fn sized_groups(groups: Seq<Vec<(&str, usize)>>) -> Seq<Seq<(Seq<char>, int)>> {
    groups.map_values(|g: Vec<(&str, usize)>| g@.map_values(|c: (&str, usize)| (c.0@, c.1 as int)))
}

/// Lays help groups of measured commands out in `width` columns: commands of a group share
/// a line (three spaces apart) while they fit, and a command is never cut.
pub fn wrap_sized_commands(groups: &Vec<Vec<(&str, usize)>>, width: u16) -> (r: Vec<String>)
    ensures
        views(r@) == commands_spec(sized_groups(groups@), width as int),
{
    let ghost gv = sized_groups(groups@);
    let wi = width as usize;
    let mut lines: Vec<String> = Vec::new();
    let mut g: usize = 0;
    assert(gv.take(0) == Seq::<Seq<(Seq<char>, int)>>::empty());
    assert(views(lines@) =~= Seq::<Seq<char>>::empty());
    while g < groups.len()
        invariant
            g <= groups.len(),
            gv == sized_groups(groups@),
            wi == width as usize,
            views(lines@) == wrap_groups(gv.take(g as int), width as int),
        decreases groups.len() - g,
    {
        assert(gv.take(g + 1).drop_last() == gv.take(g as int));
        assert(gv.take(g + 1).last() == gv[g as int]);
        let group = &groups[g];
        let ghost cmds = gv[g as int];
        assert(cmds == group@.map_values(|c: (&str, usize)| (c.0@, c.1 as int)));
        let ghost st0 = WrapState { lines: views(lines@), cur: seq![], cur_w: 0 };
        let mut cur = String::new();
        let mut cur_w: usize = 0;
        let mut c: usize = 0;
        assert(cmds.take(0) == Seq::<(Seq<char>, int)>::empty());
        assert(place_cmds(width as int, st0, cmds.take(0)) =~= (WrapState {
            lines: views(lines@),
            cur: cur@,
            cur_w: cur_w as int,
        }));
        while c < group.len()
            invariant
                c <= group.len(),
                cmds == group@.map_values(|x: (&str, usize)| (x.0@, x.1 as int)),
                wi == width as usize,
                place_cmds(width as int, st0, cmds.take(c as int)) == (WrapState {
                    lines: views(lines@),
                    cur: cur@,
                    cur_w: cur_w as int,
                }),
            decreases group.len() - c,
        {
            assert(cmds.take(c + 1).drop_last() == cmds.take(c as int));
            assert(cmds.take(c + 1).last() == cmds[c as int]);
            let ghost stc = WrapState { lines: views(lines@), cur: cur@, cur_w: cur_w as int };
            let (cmd, w) = group[c];
            assert(cmd@ == cmds[c as int].0);
            if cur.as_str().is_empty() {
                push_str(&mut cur, cmd);
                cur_w = w;
            } else if (cur_w as u128) + 3 + (w as u128) <= wi as u128 {
                push_str(&mut cur, "   ");
                proof {
                    reveal_strlit("   ");
                }
                push_str(&mut cur, cmd);
                cur_w = cur_w + 3 + w;
            } else {
                let ghost before = lines@;
                let mut done = String::new();
                core::mem::swap(&mut cur, &mut done);
                lines.push(done);
                assert(views(lines@) == views(before).push(done@));
                push_str(&mut cur, cmd);
                cur_w = w;
            }
            assert(place_cmd(width as int, stc, cmds[c as int]) =~= (WrapState {
                lines: views(lines@),
                cur: cur@,
                cur_w: cur_w as int,
            }));
            c = c + 1;
        }
        assert(cmds.take(c as int) == cmds);
        if !cur.as_str().is_empty() {
            let ghost before = lines@;
            lines.push(cur);
            assert(views(lines@) == views(before).push(cur@));
        }
        g = g + 1;
    }
    assert(gv.take(g as int) == gv);
    if lines.len() == 0 {
        lines.push(String::new());
        assert(views(lines@) =~= seq![Seq::<char>::empty()]);
    }
    lines
}

/// Lays the help groups out in `width` columns: commands of a group share a line
/// (three spaces apart) while they fit, and a command is never cut.
pub fn wrap_commands(groups: &Vec<Vec<&str>>, width: u16) -> (r: Vec<String>)
    ensures
        views(r@) == commands_spec(measured_groups(groups@), width as int),
{
    let ghost target = measured_groups(groups@);
    let mut sized: Vec<Vec<(&str, usize)>> = Vec::new();
    let mut g: usize = 0;
    while g < groups.len()
        invariant
            g <= groups.len(),
            target == measured_groups(groups@),
            sized_groups(sized@) == target.take(g as int),
        decreases groups.len() - g,
    {
        let group = &groups[g];
        let mut row: Vec<(&str, usize)> = Vec::new();
        let mut c: usize = 0;
        while c < group.len()
            invariant
                c <= group.len(),
                row@.map_values(|x: (&str, usize)| (x.0@, x.1 as int)) == group@.take(
                    c as int,
                ).map_values(|x: &str| (x@, str_columns(x@) as int)),
            decreases group.len() - c,
        {
            let w = str_width(group[c]);
            let ghost before = row@;
            row.push((group[c], w));
            assert(group@.take(c + 1) =~= group@.take(c as int).push(group@[c as int]));
            assert(row@.map_values(|x: (&str, usize)| (x.0@, x.1 as int)) =~= before.map_values(
                |x: (&str, usize)| (x.0@, x.1 as int),
            ).push((group@[c as int]@, w as int)));
            assert(group@.take(c + 1).map_values(|x: &str| (x@, str_columns(x@) as int)) =~= group@.take(
                c as int,
            ).map_values(|x: &str| (x@, str_columns(x@) as int)).push(
                (group@[c as int]@, str_columns(group@[c as int]@) as int),
            ));
            c = c + 1;
        }
        assert(group@.take(c as int) == group@);
        sized.push(row);
        assert(target.take(g + 1) == target.take(g as int).push(target[g as int]));
        assert(sized_groups(sized@) =~= target.take(g + 1));
        g = g + 1;
    }
    assert(target.take(g as int) == target);
    wrap_sized_commands(&sized, width)
}

/// How a laid-out line starts: with the item's own prefix (first line) or with blanks
/// as wide as that prefix (continuation lines).
#[derive(Clone, Copy, PartialEq, Eq, Structural, Debug)]
pub enum Lead {
    Prefix,
    Pad(usize),
}

/// One screen line of an item: its lead, a piece of the item text (absent on a line that
/// only carries the suffix) and whether the suffix (progress, due date) ends it.
pub struct LayoutLine {
    pub lead: Lead,
    pub text: Option<String>,
    pub suffix: bool,
}

pub open spec fn total_columns(parts: Seq<String>) -> int
    decreases parts.len(),
{
    if parts.len() == 0 {
        0
    } else {
        total_columns(parts.drop_last()) + str_columns(parts.last()@)
    }
}

/// Width left for the text of an item after a prefix `prefix_w` columns wide, never less
/// than 8 columns.
pub open spec fn text_room(width: int, prefix_w: int) -> int {
    let left = if width > prefix_w {
        width - prefix_w
    } else {
        0
    };
    if left > 8 {
        left
    } else {
        8
    }
}

/// The text pieces `chunks` laid out after a prefix `prefix_w` columns wide, the last piece
/// `last_w` columns wide, and with a suffix `suffix_w` columns wide when there is one: the
/// suffix ends the last text line when it fits within `width`, and has a line of its own
/// otherwise.
pub open spec fn layout_spec(
    r: Seq<LayoutLine>,
    chunks: Seq<Seq<char>>,
    prefix_w: int,
    last_w: int,
    suffix_w: Option<int>,
    width: int,
) -> bool {
    let fits = match suffix_w {
        Some(sw) => prefix_w + last_w + sw <= width,
        None => true,
    };
    let n = if suffix_w is Some && !fits {
        chunks.len() + 1int
    } else {
        chunks.len() as int
    };
    &&& r.len() == n
    &&& forall|i: int|
        0 <= i < chunks.len() ==> {
            &&& (#[trigger] r[i]).lead == (if i == 0 {
                Lead::Prefix
            } else {
                Lead::Pad(prefix_w as usize)
            })
            &&& r[i].text matches Some(t) && t@ == chunks[i]
            &&& r[i].suffix == (suffix_w is Some && fits && i == chunks.len() - 1)
        }
    &&& suffix_w is Some && !fits ==> r[n - 1].lead == Lead::Pad(prefix_w as usize)
        && r[n - 1].text is None && r[n - 1].suffix
}

/// Lays out the wrapped text pieces of one item (see `layout_spec`).
pub fn layout_chunks(
    chunks: Vec<String>,
    prefix_w: usize,
    last_w: usize,
    suffix_w: Option<u128>,
    width: usize,
) -> (r: Vec<LayoutLine>)
    requires
        chunks@.len() >= 1,
    ensures
        layout_spec(
            r@,
            views(chunks@),
            prefix_w as int,
            last_w as int,
            match suffix_w {
                Some(sw) => Some(sw as int),
                None => None,
            },
            width as int,
        ),
{
    let ghost cv = views(chunks@);
    let n = chunks.len();
    let mut out: Vec<LayoutLine> = Vec::new();
    let mut i: usize = 0;
    while i < n
        invariant
            i <= n,
            n == chunks@.len(),
            cv == views(chunks@),
            out@.len() == i,
            forall|k: int|
                0 <= k < i ==> {
                    &&& (#[trigger] out@[k]).lead == (if k == 0 {
                        Lead::Prefix
                    } else {
                        Lead::Pad(prefix_w)
                    })
                    &&& out@[k].text matches Some(t) && t@ == cv[k]
                    &&& !out@[k].suffix
                },
        decreases n - i,
    {
        let lead = if i == 0 {
            Lead::Prefix
        } else {
            Lead::Pad(prefix_w)
        };
        out.push(LayoutLine { lead, text: Some(chunks[i].clone()), suffix: false });
        i = i + 1;
    }
    if let Some(sw) = suffix_w {
        if sw <= width as u128 && (prefix_w as u128) + (last_w as u128) <= width as u128 - sw {
            let last = n - 1;
            let mut line = out.remove(last);
            line.suffix = true;
            out.push(line);
        } else {
            out.push(LayoutLine { lead: Lead::Pad(prefix_w), text: None, suffix: true });
        }
    }
    out
}

fn total_width(parts: &Vec<String>) -> (r: u128)
    requires
        parts@.len() < usize::MAX,
    ensures
        r as int == total_columns(parts@),
        r <= parts@.len() * usize::MAX,
{
    let mut sum: u128 = 0;
    let mut i: usize = 0;
    assert(parts@.take(0) == Seq::<String>::empty());
    while i < parts.len()
        invariant
            i <= parts.len(),
            parts@.len() < usize::MAX,
            sum as int == total_columns(parts@.take(i as int)),
            sum <= i * usize::MAX,
        decreases parts.len() - i,
    {
        assert(parts@.take(i + 1).drop_last() == parts@.take(i as int));
        let w = str_width(parts[i].as_str());
        assert(sum + w <= (i + 1) * usize::MAX) by (nonlinear_arith)
            requires
                sum <= i * usize::MAX,
                w <= usize::MAX,
        ;
        assert((i + 1) * usize::MAX <= usize::MAX * usize::MAX) by (nonlinear_arith)
            requires
                i + 1 <= usize::MAX,
        ;
        sum = sum + w as u128;
        i = i + 1;
    }
    assert(parts@.take(i as int) == parts@);
    sum
}

/// Lays out one list item: `prefix` (marker, checkbox, time), the wrapped `text` and the
/// `suffix` (progress, due date) in `width` columns. Continuation lines are indented to
/// where the text starts; the suffix goes after the last piece of text when it fits there
/// and on a line of its own otherwise.
pub fn wrapped_lines(prefix: &Vec<String>, text: &str, suffix: &Vec<String>, width: usize) -> (r: Vec<
    LayoutLine,
>)
    requires
        prefix@.len() < usize::MAX,
        suffix@.len() < usize::MAX,
        total_columns(prefix@) <= usize::MAX,
    ensures
        ({
            let chunks = wrap_spec(text@, text_room(width as int, total_columns(prefix@)));
            layout_spec(
                r@,
                chunks,
                total_columns(prefix@),
                str_columns(chunks.last()) as int,
                if suffix@.len() > 0 {
                    Some(total_columns(suffix@))
                } else {
                    None
                },
                width as int,
            )
        }),
{
    let prefix_w = total_width(prefix) as usize;
    let left: usize = if width > prefix_w {
        width - prefix_w
    } else {
        0
    };
    let avail: usize = if left > 8 {
        left
    } else {
        8
    };
    let chunks = wrap_width(text, avail);
    proof {
        lemma_wrap_nonempty(text@, avail as int);
    }
    let last_w = str_width(chunks[chunks.len() - 1].as_str());
    let suffix_w = if suffix.len() > 0 {
        Some(total_width(suffix))
    } else {
        None
    };
    layout_chunks(chunks, prefix_w, last_w, suffix_w, width)
}

proof fn lemma_wrap_nonempty(text: Seq<char>, width: int)
    ensures
        wrap_spec(text, width).len() >= 1,
{
}

/// The command help shown in command mode, in two groups (editing, then moving around).
pub fn help_groups() -> (r: Vec<Vec<&'static str>>)
    ensures
        group_views(r@) == seq![
            seq!["i 입력"@, "s 하위추가"@, "e 편집"@, "t 마감"@, "space 완료"@, "d 삭제"@],
            seq![
                "↑↓ 이동"@,
                "← 접기"@,
                "→ 펼치기"@,
                "Shift+← 넣기"@,
                "Shift+→ 빼기"@,
                "Shift+↑↓ 순서"@,
                "q 종료"@,
            ],
        ],
{
    let mut edit: Vec<&'static str> = Vec::new();
    edit.push("i 입력");
    edit.push("s 하위추가");
    edit.push("e 편집");
    edit.push("t 마감");
    edit.push("space 완료");
    edit.push("d 삭제");
    let mut moving: Vec<&'static str> = Vec::new();
    moving.push("↑↓ 이동");
    moving.push("← 접기");
    moving.push("→ 펼치기");
    moving.push("Shift+← 넣기");
    moving.push("Shift+→ 빼기");
    moving.push("Shift+↑↓ 순서");
    moving.push("q 종료");
    let mut groups: Vec<Vec<&'static str>> = Vec::new();
    groups.push(edit);
    groups.push(moving);
    assert(group_views(groups@)[0] =~= seq![
        "i 입력"@, "s 하위추가"@, "e 편집"@, "t 마감"@, "space 완료"@, "d 삭제"@,
    ]);
    assert(group_views(groups@)[1] =~= seq![
        "↑↓ 이동"@, "← 접기"@, "→ 펼치기"@, "Shift+← 넣기"@, "Shift+→ 빼기"@, "Shift+↑↓ 순서"@,
        "q 종료"@,
    ]);
    groups
}

} // verus!
