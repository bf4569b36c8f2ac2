//! The trusted boundary around the row-level collaborators: the `whitespacesv`
//! tokenizer and row writer, and the few `std` string operations that `vstd`
//! does not specify. Everything else in the crate is verified against the
//! contracts stated here.

use vstd::prelude::*;

verus! {

#[verifier::external_type_specification]
#[verifier::external_body]
pub struct ExWSVError(whitespacesv::WSVError);

/// The rows that the row tokenizer yields for a text, or `None` where it
/// rejects the text. The rows are a function of the text alone.
pub uninterp spec fn wsv_doc(text: Seq<char>) -> Option<Seq<Seq<Option<Seq<char>>>>>;

/// Relies on whitespacesv::parse: it tokenizes WSV text into one row per
/// source line (blank and comment-only lines give empty rows, a trailing
/// blank line gives none), each row an ordered list of fields where the `-`
/// token is the null field; the outcome depends on the text alone.
#[verifier::external_body]
pub(crate) fn wsv_parse(source_text: &str) -> (r: Result<
    Vec<Vec<Option<String>>>,
    whitespacesv::WSVError,
>)
    ensures
        match r {
            Ok(rows) => wsv_doc(source_text@) == Some(rows.deep_view()),
            Err(_) => wsv_doc(source_text@) is None,
        },
{
    match whitespacesv::parse(source_text) {
        Ok(rows) => Ok(
            rows.into_iter().map(
                |row: Vec<Option<std::borrow::Cow<'_, str>>>|
                    row.into_iter().map(|f| f.map(|v| v.into_owned())).collect(),
            ).collect(),
        ),
        Err(e) => Err(e),
    }
}

/// The Unicode lowercase of a text, a function of its characters alone.
pub uninterp spec fn lower_of(s: Seq<char>) -> Seq<char>;

/// The ASCII lowercase of one character: `'A'..='Z'` map to `'a'..='z'`,
/// every other character stays itself.
pub open spec fn ascii_lower_char(c: char) -> char {
    match c {
        'A' => 'a',
        'B' => 'b',
        'C' => 'c',
        'D' => 'd',
        'E' => 'e',
        'F' => 'f',
        'G' => 'g',
        'H' => 'h',
        'I' => 'i',
        'J' => 'j',
        'K' => 'k',
        'L' => 'l',
        'M' => 'm',
        'N' => 'n',
        'O' => 'o',
        'P' => 'p',
        'Q' => 'q',
        'R' => 'r',
        'S' => 's',
        'T' => 't',
        'U' => 'u',
        'V' => 'v',
        'W' => 'w',
        'X' => 'x',
        'Y' => 'y',
        'Z' => 'z',
        _ => c,
    }
}

/// The characterwise ASCII lowercase of a text.
pub open spec fn ascii_lower(s: Seq<char>) -> Seq<char> {
    s.map_values(|c: char| ascii_lower_char(c))
}

/// Whether every character of the text is ASCII.
pub open spec fn is_ascii_seq(s: Seq<char>) -> bool {
    forall|i: int| 0 <= i < s.len() ==> (s[i] as int) < 128
}

/// Relies on str::to_lowercase: the Unicode lowercase of the text, a function
/// of its characters alone; on an all-ASCII text it lowercases each letter in
/// place and changes nothing else.
#[verifier::external_body]
pub(crate) fn lowercase(s: &str) -> (r: String)
    ensures
        r@ == lower_of(s@),
        s@.len() == 0 ==> r@.len() == 0,
        is_ascii_seq(s@) ==> r@ == ascii_lower(s@),
{
    s.to_lowercase()
}

/// The text that the row writer produces for these rows in its packed mode
/// (each field followed by one space, rows separated by a newline, no
/// trailing newline), a function of the rows alone.
pub uninterp spec fn wsv_packed(rows: Seq<Seq<Option<Seq<char>>>>) -> Seq<char>;

/// Relies on whitespacesv::WSVWriter used as a character iterator (its packed
/// mode): the rendered text depends on the rows alone.
#[verifier::external_body]
pub(crate) fn wsv_render_packed(rows: &Vec<Vec<Option<String>>>) -> (r: Vec<char>)
    ensures
        r@ == wsv_packed(rows.deep_view()),
{
    whitespacesv::WSVWriter::new(
        rows.iter().map(|row| row.iter().map(|f| f.as_ref().map(|s| s.as_str()))),
    ).collect()
}

/// The text that the row writer produces for these rows with columns padded
/// to a common width, to the right edge when `right` holds and to the left
/// edge otherwise; a function of the rows and the side alone.
pub uninterp spec fn wsv_aligned(rows: Seq<Seq<Option<Seq<char>>>>, right: bool) -> Seq<char>;

/// Relies on whitespacesv::WSVWriter::to_string after align_columns: the
/// rendered text depends on the rows and the chosen side alone.
#[verifier::external_body]
pub(crate) fn wsv_render_aligned(rows: &Vec<Vec<Option<String>>>, right: bool) -> (r: Vec<char>)
    ensures
        r@ == wsv_aligned(rows.deep_view(), right),
{
    let alignment = if right {
        whitespacesv::ColumnAlignment::Right
    } else {
        whitespacesv::ColumnAlignment::Left
    };
    whitespacesv::WSVWriter::new(
        rows.iter().map(|row| row.iter().map(|f| f.as_ref().map(|s| s.as_str()))),
    ).align_columns(alignment).to_string().chars().collect()
}

/// Relies on Iterator::collect over str::chars: the characters of the text,
/// in order (the view of a `str` is exactly its character sequence).
#[verifier::external_body]
pub(crate) fn str_chars(s: &str) -> (r: Vec<char>)
    ensures
        r@ == s@,
{
    s.chars().collect()
}

/// Relies on FromIterator for String: builds the string holding exactly the
/// given characters in order.
#[verifier::external_body]
pub(crate) fn string_from_chars(v: Vec<char>) -> (r: String)
    ensures
        r@ == v@,
{
    v.into_iter().collect()
}

/// Relies on String::push_str: appends the characters of `s` to `buf`.
#[verifier::external_body]
pub(crate) fn push_str_to(buf: &mut String, s: &str)
    ensures
        final(buf)@ == old(buf)@ + s@,
{
    buf.push_str(s);
}

/// Relies on String::push: appends one character to `buf`.
#[verifier::external_body]
pub(crate) fn push_char_to(buf: &mut String, c: char)
    ensures
        final(buf)@ == old(buf)@.push(c),
{
    buf.push(c);
}

} // verus!
