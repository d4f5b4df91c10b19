use vstd::prelude::*;

use crate::error::Error;

verus! {

/// Unicode `White_Space` characters, the ones `char::is_whitespace` accepts.
pub open spec fn is_white_space(c: char) -> bool {
    ('\u{9}' <= c && c <= '\u{d}') || c == ' ' || c == '\u{85}' || c == '\u{a0}' || c
        == '\u{1680}' || ('\u{2000}' <= c && c <= '\u{200a}') || c == '\u{2028}' || c == '\u{2029}'
        || c == '\u{202f}' || c == '\u{205f}' || c == '\u{3000}'
}

/// `s` without its leading white space.
pub open spec fn trim_start_spec(s: Seq<char>) -> Seq<char>
    decreases s.len(),
{
    if s.len() > 0 && is_white_space(s[0]) {
        trim_start_spec(s.drop_first())
    } else {
        s
    }
}

/// `s` without its trailing white space.
pub open spec fn trim_end_spec(s: Seq<char>) -> Seq<char>
    decreases s.len(),
{
    if s.len() > 0 && is_white_space(s.last()) {
        trim_end_spec(s.drop_last())
    } else {
        s
    }
}

/// `s` without leading and trailing white space.
pub open spec fn trim_spec(s: Seq<char>) -> Seq<char> {
    trim_end_spec(trim_start_spec(s))
}

/// `c` is Unicode white space (`char::is_whitespace`).
pub(crate) fn white_space(c: char) -> (r: bool)
    ensures
        r == is_white_space(c),
{
    ('\u{9}' <= c && c <= '\u{d}') || c == ' ' || c == '\u{85}' || c == '\u{a0}' || c
        == '\u{1680}' || ('\u{2000}' <= c && c <= '\u{200a}') || c == '\u{2028}' || c == '\u{2029}'
        || c == '\u{202f}' || c == '\u{205f}' || c == '\u{3000}'
}

/// The slice without leading and trailing Unicode white space (`str::trim`).
pub(crate) fn trim(s: &str) -> (r: &str)
    ensures
        r@ == trim_spec(s@),
{
    let cs = chars_of(s);
    let n = cs.len();
    let mut i: usize = 0;
    assert(s@.subrange(0, n as int) =~= s@);
    while i < n && white_space(cs[i])
        invariant
            i <= n,
            n == s@.len(),
            cs@ == s@,
            trim_start_spec(s@) == trim_start_spec(s@.subrange(i as int, n as int)),
        decreases n - i,
    {
        assert(s@.subrange(i as int, n as int).drop_first() =~= s@.subrange(i + 1, n as int));
        i = i + 1;
    }
    assert(trim_start_spec(s@) == s@.subrange(i as int, n as int));
    let mut j: usize = n;
    while j > i && white_space(cs[j - 1])
        invariant
            i <= j <= n,
            n == s@.len(),
            cs@ == s@,
            trim_end_spec(s@.subrange(i as int, n as int)) == trim_end_spec(
                s@.subrange(i as int, j as int),
            ),
        decreases j - i,
    {
        assert(s@.subrange(i as int, j as int).drop_last() =~= s@.subrange(i as int, j - 1));
        j = j - 1;
    }
    assert(trim_end_spec(s@.subrange(i as int, j as int)) == s@.subrange(i as int, j as int));
    s.substring_char(i, j)
}

/// `String::push`: appends one character.
#[verifier::external_body]
pub(crate) fn push_char(s: &mut String, c: char)
    ensures
        final(s)@ == old(s)@.push(c),
{
    s.push(c)
}

/// The characters of `s`, in order.
pub(crate) fn chars_of(s: &str) -> (r: Vec<char>)
    ensures
        r@ == s@,
{
    let n = s.unicode_len();
    let mut out: Vec<char> = Vec::new();
    let mut i: usize = 0;
    while i < n
        invariant
            i <= n,
            n == s@.len(),
            out@ == s@.take(i as int),
        decreases n - i,
    {
        let c = s.get_char(i);
        out.push(c);
        assert(s@.take(i + 1) == s@.take(i as int).push(c));
        i = i + 1;
    }
    assert(s@.take(n as int) == s@);
    out
}

/// Appends the characters of `s` to `cur`.
pub(crate) fn push_str(cur: &mut String, s: &str)
    ensures
        final(cur)@ == old(cur)@ + s@,
{
    cur.append(s);
}

/// The text with surrounding white space removed; `Invalid(message)` when nothing is left.
pub open spec fn required(input: Seq<char>, message: Seq<char>) -> core::result::Result<
    Seq<char>,
    Seq<char>,
> {
    if trim_spec(input).len() == 0 {
        Err(message)
    } else {
        Ok(trim_spec(input))
    }
}

pub open spec fn result_view(r: core::result::Result<String, Error>) -> core::result::Result<
    Seq<char>,
    Seq<char>,
> {
    match r {
        Ok(s) => Ok(s@),
        Err(Error::Invalid(m)) => Err(m@),
    }
}

/// Item text as entered in an editing popup: trimmed, and refused when empty.
pub fn required_text(input: &str) -> (r: core::result::Result<String, Error>)
    ensures
        result_view(r) == required(input@, "내용을 입력하세요"@),
{
    let t = trim(input);
    if t.is_empty() {
        Err(Error::Invalid(String::from_str("내용을 입력하세요")))
    } else {
        Ok(String::from_str(t))
    }
}

/// Project name as entered: trimmed, and refused when empty.
pub fn required_name(input: &str) -> (r: core::result::Result<String, Error>)
    ensures
        result_view(r) == required(input@, "이름을 입력하세요"@),
{
    let t = trim(input);
    if t.is_empty() {
        Err(Error::Invalid(String::from_str("이름을 입력하세요")))
    } else {
        Ok(String::from_str(t))
    }
}

/// Text typed into the quick-add line: trimmed; `None` when nothing is left to add.
pub fn quick_add_text(input: &str) -> (r: Option<String>)
    ensures
        r is None <==> trim_spec(input@).len() == 0,
        r matches Some(t) ==> t@ == trim_spec(input@),
{
    let t = trim(input);
    if t.is_empty() {
        None
    } else {
        Some(String::from_str(t))
    }
}

} // verus!
