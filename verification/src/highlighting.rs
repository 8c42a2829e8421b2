use vstd::prelude::*;

verus! {

/// The syntax classification attached to a single grapheme for rendering.
#[derive(PartialEq, Eq, Structural, Clone, Copy, Debug)]
pub enum Type {
    Plain,
    Start,
    Number,
    Match,
    Selection,
    String,
    Character,
    Comment,
    MultilineComment,
    PrimaryKeywords,
    SecondaryKeywords,
}

} // verus!
