use vstd::prelude::*;

use crate::document::doc_find_backward;
use crate::document::spec_doc_find;
use crate::position::SearchDirection;
use crate::row::gmatch;
use crate::row::last_match_before;

verus! {

/// For any line content and any valid split index, splitting there and
/// appending the returned suffix back onto the prefix reconstructs the
/// line exactly: `split` leaves `line.take(at)` and returns
/// `line.skip(at)`, and `append` concatenates them again.
pub proof fn lemma_split_append_identity(line: Seq<Seq<char>>, at: int)
    requires
        0 <= at <= line.len(),
    ensures
        line.take(at) + line.skip(at) == line,
{
    assert(line.take(at) + line.skip(at) =~= line);
}

/// A backward match ends at or before its bound: the match starts early
/// enough that the whole query fits before `end`.
pub proof fn lemma_last_match_bound(gs: Seq<Seq<char>>, qg: Seq<Seq<char>>, end: int)
    ensures
        match last_match_before(gs, qg, end) {
            Some(i) => 0 <= i && i + qg.len() <= end,
            None => true,
        },
    decreases end,
{
    if end < qg.len() || end - qg.len() > gs.len() {
    } else if gmatch(gs, qg, end - qg.len()) {
    } else {
        lemma_last_match_bound(gs, qg, end - 1);
    }
}

/// A backward document search lands at or above its starting row, and on
/// the starting row the found match ends at or before the starting
/// column.
pub proof fn lemma_doc_backward_bound(ls: Seq<Seq<Seq<char>>>, qg: Seq<Seq<char>>, y: int, x: int)
    ensures
        match doc_find_backward(ls, qg, y, x) {
            Some(p) => p.0 <= y && (p.0 == y ==> p.1 + qg.len() <= x),
            None => true,
        },
    decreases y + 1,
{
    if y < 0 || y >= ls.len() {
    } else {
        match crate::row::spec_row_find(ls[y], qg, x, SearchDirection::Backward) {
            Some(i) => {
                lemma_last_match_bound(ls[y], qg, x);
            },
            None => {
                if y > 0 {
                    lemma_doc_backward_bound(ls, qg, y - 1, ls[y - 1].len() as int);
                }
            },
        }
    }
}

/// A forward search followed by a backward search from its result returns
/// a position at or before that result, in the lexicographic line-column
/// order.
pub proof fn lemma_find_round_trip(
    ls: Seq<Seq<Seq<char>>>,
    qg: Seq<Seq<char>>,
    ay: int,
    ax: int,
    ry: int,
    rx: int,
    py: int,
    px: int,
)
    requires
        spec_doc_find(ls, qg, ay, ax, SearchDirection::Forward) == Some((ry, rx)),
        spec_doc_find(ls, qg, ry, rx, SearchDirection::Backward) == Some((py, px)),
    ensures
        py < ry || (py == ry && px <= rx),
{
    lemma_doc_backward_bound(ls, qg, ry, rx);
}

} // verus!
