use unicode_segmentation::UnicodeSegmentation;
use vstd::prelude::*;
use vstd::string::StrSliceExecFns;

verus! {

/// The grapheme clusters of a string, in order. This names the result of
/// extended grapheme segmentation, which is a function of the characters
/// alone; it is applied by the segmentation wrapper below.
pub uninterp spec fn graphemes_of(s: Seq<char>) -> Seq<Seq<char>>;

/// Whether a character is alphanumeric in the Unicode sense. This names the
/// result of `char::is_alphanumeric`, a function of the character alone.
pub uninterp spec fn is_alnum_char(c: char) -> bool;

/// Relies on `unicode_segmentation::UnicodeSegmentation::graphemes` (with
/// extended grapheme clusters): it splits a string into grapheme clusters
/// whose concatenation is exactly the original string, and every cluster is
/// a non-empty substring.
#[verifier::external_body]
pub fn split_graphemes(s: &str) -> (r: Vec<String>)
    ensures
        r.deep_view() == graphemes_of(s@),
        r.deep_view().flatten() == s@,
        forall|i: int| 0 <= i < r.deep_view().len() ==> (#[trigger] r.deep_view()[i]).len() > 0,
{
    s.graphemes(true).map(|g| g.to_string()).collect()
}

/// Relies on `char::to_string`: the returned string holds exactly the one
/// character.
#[verifier::external_body]
pub fn char_to_grapheme(c: char) -> (r: String)
    ensures
        r@ == seq![c],
{
    c.to_string()
}

/// Relies on `char::is_alphanumeric`, a pure property of the character.
#[verifier::external_body]
pub fn char_is_alphanumeric(c: char) -> (r: bool)
    ensures
        r == is_alnum_char(c),
{
    c.is_alphanumeric()
}

/// Whether a character is ASCII punctuation, as std defines it:
/// `!`..`/`, `:`..`@`, `[`..`` ` ``, `{`..`~`.
pub open spec fn is_ascii_punct_char(c: char) -> bool {
    let u = c as u32;
    (0x21 <= u && u <= 0x2f) || (0x3a <= u && u <= 0x40) || (0x5b <= u && u <= 0x60) || (0x7b <= u
        && u <= 0x7e)
}

/// Whether a character is ASCII whitespace: space, tab, newline, form feed
/// or carriage return.
pub open spec fn is_ascii_space_char(c: char) -> bool {
    let u = c as u32;
    u == 0x20 || u == 0x09 || u == 0x0a || u == 0x0c || u == 0x0d
}

/// A word separator: any ASCII punctuation character except underscore, or
/// ASCII whitespace.
pub open spec fn sep_char(c: char) -> bool {
    (is_ascii_punct_char(c) && c != '_') || is_ascii_space_char(c)
}

/// An ASCII decimal digit.
pub open spec fn digit_char(c: char) -> bool {
    0x30 <= c as u32 && c as u32 <= 0x39
}

/// Decides `sep_char` executably.
pub fn is_word_separator(c: char) -> (r: bool)
    ensures
        r == sep_char(c),
{
    let u = c as u32;
    let punct = (0x21 <= u && u <= 0x2f) || (0x3a <= u && u <= 0x40) || (0x5b <= u && u <= 0x60)
        || (0x7b <= u && u <= 0x7e);
    let space = u == 0x20 || u == 0x09 || u == 0x0a || u == 0x0c || u == 0x0d;
    (punct && c != '_') || space
}

/// Decides `digit_char` executably.
pub fn is_ascii_digit(c: char) -> (r: bool)
    ensures
        r == digit_char(c),
{
    let u = c as u32;
    0x30 <= u && u <= 0x39
}

/// The smaller of two integers.
pub open spec fn imin(a: int, b: int) -> int {
    if a <= b {
        a
    } else {
        b
    }
}

/// The text of a line, as the concatenation of its grapheme clusters.
pub open spec fn text_of(gs: Seq<Seq<char>>) -> Seq<char> {
    gs.flatten()
}

/// Whether every grapheme of a line is non-empty.
pub open spec fn all_nonempty(gs: Seq<Seq<char>>) -> bool {
    forall|i: int| 0 <= i < gs.len() ==> (#[trigger] gs[i]).len() > 0
}

/// The first character of the grapheme at `i`, used to classify it.
pub open spec fn first_char(gs: Seq<Seq<char>>, i: int) -> char
    recommends
        0 <= i < gs.len(),
        gs[i].len() > 0,
{
    gs[i][0]
}

/// Reads the first character of a grapheme cluster.
pub fn gr_first(g: &String) -> (c: char)
    requires
        g@.len() > 0,
    ensures
        c == g@[0],
{
    g.as_str().get_char(0)
}

/// Decides whether a grapheme cluster is exactly the single character `c`.
pub fn gr_eq_char(g: &String, c: char) -> (r: bool)
    ensures
        r == (g@ == seq![c]),
{
    if g.as_str().unicode_len() == 1 {
        let c0 = g.as_str().get_char(0);
        proof {
            if c0 == c {
                assert(g@ =~= seq![c]);
            } else {
                assert(g@ != seq![c]);
            }
        }
        c0 == c
    } else {
        proof {
            assert(g@.len() != 1 && seq![c].len() == 1);
        }
        false
    }
}

} // verus!
