use vstd::prelude::*;
use vstd::string::StrSliceExecFns;
use vstd::string::StringExecFns;

use crate::graphemes::all_nonempty;
use crate::graphemes::char_to_grapheme;
use crate::graphemes::first_char;
use crate::graphemes::gr_eq_char;
use crate::graphemes::gr_first;
use crate::graphemes::graphemes_of;
use crate::graphemes::is_alnum_char;
use crate::graphemes::is_ascii_digit;
use crate::graphemes::is_word_separator;
use crate::graphemes::sep_char;
use crate::graphemes::split_graphemes;
use crate::graphemes::text_of;
use crate::filetype::HighlightingOptions;
use crate::filetype::OptsV;
use crate::graphemes::digit_char;
use crate::highlighting::Type;
use crate::position::SearchDirection;

verus! {

/// One row of the document's text, owned as a sequence of grapheme clusters.
///
/// The view of a `Row` is the sequence of its grapheme clusters, each a
/// sequence of characters.
pub struct Row {
    /// Whether the cached highlighting is valid.
    pub(crate) is_highlighted: bool,
    /// The grapheme clusters of the row, in order.
    graphemes: Vec<String>,
    /// The highlight tag of each grapheme; aligned with `graphemes` whenever
    /// `is_highlighted` holds.
    highlighting: Vec<Type>,
    /// Pending selection spans `[start, end)`, sorted by ascending start.
    selections: Vec<(usize, usize)>,
}

impl View for Row {
    type V = Seq<Seq<char>>;

    closed spec fn view(&self) -> Seq<Seq<char>> {
        self.graphemes.deep_view()
    }
}

/// Whether the query graphemes `qg` occur contiguously in `gs` starting at
/// grapheme index `i`.
pub open spec fn gmatch(gs: Seq<Seq<char>>, qg: Seq<Seq<char>>, i: int) -> bool {
    &&& 0 <= i
    &&& i + qg.len() <= gs.len()
    &&& forall|j: int| 0 <= j < qg.len() ==> gs[i + j] == #[trigger] qg[j]
}

/// The least match index at or after `from`, if any.
pub open spec fn first_match_from(gs: Seq<Seq<char>>, qg: Seq<Seq<char>>, from: int) -> Option<
    int,
>
    recommends
        0 <= from,
    decreases gs.len() - from,
{
    if from + qg.len() > gs.len() {
        None
    } else if gmatch(gs, qg, from) {
        Some(from)
    } else {
        first_match_from(gs, qg, from + 1)
    }
}

/// The greatest match index whose match ends at or before `end`, if any.
pub open spec fn last_match_before(gs: Seq<Seq<char>>, qg: Seq<Seq<char>>, end: int) -> Option<
    int,
>
    recommends
        0 <= end,
    decreases end,
{
    if end < qg.len() || end - qg.len() > gs.len() {
        None
    } else if gmatch(gs, qg, end - qg.len()) {
        Some(end - qg.len())
    } else {
        last_match_before(gs, qg, end - 1)
    }
}

/// What `Row::find` returns: no match for an empty query or an out-of-range
/// start; otherwise the first match at or after `at` (forward), or the last
/// match ending at or before `at` (backward).
pub open spec fn spec_row_find(
    gs: Seq<Seq<char>>,
    qg: Seq<Seq<char>>,
    at: int,
    direction: SearchDirection,
) -> Option<int> {
    if qg.len() == 0 || at > gs.len() {
        None
    } else if direction == SearchDirection::Forward {
        first_match_from(gs, qg, at)
    } else {
        last_match_before(gs, qg, at)
    }
}

/// Whether the grapheme at `i` is classified as a word separator.
pub open spec fn sep_g(gs: Seq<Seq<char>>, i: int) -> bool {
    sep_char(first_char(gs, i))
}

/// Whether the grapheme at `i` is classified as alphanumeric.
pub open spec fn alnum_g(gs: Seq<Seq<char>>, i: int) -> bool {
    is_alnum_char(first_char(gs, i))
}

/// The least separator index at or after `from`, if any.
pub open spec fn first_sep_from(gs: Seq<Seq<char>>, from: int) -> Option<int>
    decreases gs.len() - from,
{
    if from < 0 || from >= gs.len() {
        None
    } else if sep_g(gs, from) {
        Some(from)
    } else {
        first_sep_from(gs, from + 1)
    }
}

/// The least alphanumeric index at or after `from`, if any.
pub open spec fn first_alnum_from(gs: Seq<Seq<char>>, from: int) -> Option<int>
    decreases gs.len() - from,
{
    if from < 0 || from >= gs.len() {
        None
    } else if alnum_g(gs, from) {
        Some(from)
    } else {
        first_alnum_from(gs, from + 1)
    }
}

/// The greatest separator index strictly before `end`, if any.
pub open spec fn last_sep_before(gs: Seq<Seq<char>>, end: int) -> Option<int>
    decreases end,
{
    if end <= 0 || end > gs.len() {
        None
    } else if sep_g(gs, end - 1) {
        Some(end - 1)
    } else {
        last_sep_before(gs, end - 1)
    }
}

/// The greatest alphanumeric index strictly before `end`, if any.
pub open spec fn last_alnum_before(gs: Seq<Seq<char>>, end: int) -> Option<int>
    decreases end,
{
    if end <= 0 || end > gs.len() {
        None
    } else if alnum_g(gs, end - 1) {
        Some(end - 1)
    } else {
        last_alnum_before(gs, end - 1)
    }
}

/// What forward word navigation from `start` returns: the start of the next
/// alphanumeric run after the next separator (when starting on a word), or
/// the next alphanumeric run itself (when starting on a non-word grapheme).
pub open spec fn spec_word_forward(gs: Seq<Seq<char>>, start: int) -> Option<int> {
    if start >= gs.len() {
        None
    } else if alnum_g(gs, start) {
        match first_sep_from(gs, start) {
            None => None,
            Some(k) => first_alnum_from(gs, k),
        }
    } else {
        first_alnum_from(gs, start)
    }
}

/// What backward word navigation from `end` returns: the index just after
/// the end of the previous alphanumeric run, or the line start.
pub open spec fn spec_word_backward(gs: Seq<Seq<char>>, end0: int) -> Option<int> {
    let end = if end0 <= gs.len() {
        end0
    } else {
        gs.len() as int
    };
    if end <= 0 {
        None
    } else if alnum_g(gs, end - 1) {
        match last_sep_before(gs, end) {
            None => Some(0),
            Some(k) => match last_alnum_before(gs, k) {
                Some(x) => Some(x + 1),
                None => Some(0),
            },
        }
    } else {
        match last_alnum_before(gs, end) {
            Some(x) => Some(x + 1),
            None => Some(0),
        }
    }
}

/// What `Row::find_next_word` returns in each direction.
pub open spec fn spec_row_word(gs: Seq<Seq<char>>, at: int, direction: SearchDirection) -> Option<
    int,
> {
    if direction == SearchDirection::Forward {
        spec_word_forward(gs, at)
    } else {
        spec_word_backward(gs, at)
    }
}

/// `b` is `a` with its highlight cache marked invalid: text, selections
/// and tags agree, and `b`'s cache flag is clear.
pub open spec fn unhl_of(a: Row, b: Row) -> bool {
    &&& b@ == a@
    &&& b.spec_selections() == a.spec_selections()
    &&& b.spec_highlighting() == a.spec_highlighting()
    &&& !b.spec_is_highlighted()
}

/// Sortedness by ascending span start.
pub open spec fn spans_sorted(s: Seq<(usize, usize)>) -> bool {
    forall|i: int, j: int| 0 <= i < j < s.len() ==> (#[trigger] s[i]).0 <= (#[trigger] s[j]).0
}

/// Every span has its start at or before its end.
pub open spec fn spans_ordered(s: Seq<(usize, usize)>) -> bool {
    forall|i: int| 0 <= i < s.len() ==> (#[trigger] s[i]).0 <= s[i].1
}

impl Row {
    /// Well-formedness: graphemes are non-empty, a valid highlight cache is
    /// aligned with the graphemes, and the selection spans are ordered and
    /// sorted by start.
    pub closed spec fn wf(&self) -> bool {
        &&& all_nonempty(self@)
        &&& self.is_highlighted ==> self.highlighting@.len() == self@.len()
        &&& spans_ordered(self.selections@)
        &&& spans_sorted(self.selections@)
    }

    /// The pending selection spans.
    pub closed spec fn spec_selections(&self) -> Seq<(usize, usize)> {
        self.selections@
    }

    /// The cached highlight tags.
    pub closed spec fn spec_highlighting(&self) -> Seq<Type> {
        self.highlighting@
    }

    /// Whether the highlight cache is valid.
    pub closed spec fn spec_is_highlighted(&self) -> bool {
        self.is_highlighted
    }

    /// Marks the cached highlighting invalid, leaving everything else.
    pub fn unhighlight(&mut self)
        requires
            old(self).wf(),
        ensures
            final(self).wf(),
            unhl_of(*old(self), *final(self)),
    {
        self.is_highlighted = false;
    }

    /// The highlight tag of each grapheme, as last computed.
    pub fn highlighting(&self) -> (r: &Vec<Type>)
        ensures
            r@ == self.spec_highlighting(),
    {
        &self.highlighting
    }

    /// Whether the cached highlighting is currently valid.
    pub fn is_highlighted(&self) -> (r: bool)
        ensures
            r == self.spec_is_highlighted(),
    {
        self.is_highlighted
    }

    /// Builds a row from a string slice by grapheme segmentation.
    pub fn from(slice: &str) -> (r: Row)
        ensures
            r@ == graphemes_of(slice@),
            text_of(r@) == slice@,
            r.wf(),
            !r.spec_is_highlighted(),
            r.spec_selections() == Seq::<(usize, usize)>::empty(),
    {
        Row {
            is_highlighted: false,
            graphemes: split_graphemes(slice),
            highlighting: Vec::new(),
            selections: Vec::new(),
        }
    }

    /// The number of graphemes in the row.
    pub fn len(&self) -> (r: usize)
        ensures
            r == self@.len(),
    {
        self.graphemes.len()
    }

    /// Whether the row holds no graphemes.
    pub fn is_empty(&self) -> (r: bool)
        ensures
            r == (self@.len() == 0),
    {
        self.graphemes.len() == 0
    }

    /// The row's text, as the concatenation of its graphemes.
    pub fn to_string(&self) -> (r: String)
        ensures
            r@ == text_of(self@),
    {
        broadcast use Seq::lemma_flatten_push;

        let mut r = String::new();
        let n = self.graphemes.len();
        for i in 0..n
            invariant
                n == self@.len(),
                r@ == self@.take(i as int).flatten(),
            decreases n - i,
        {
            r.append(self.graphemes[i].as_str());
            proof {
                assert(self@.take(i + 1) =~= self@.take(i as int).push(self@[i as int]));
                self@.take(i as int).lemma_flatten_push(self@[i as int]);
            }
        }
        proof {
            assert(self@.take(n as int) =~= self@);
        }
        r
    }

    /// Inserts the character `c` as a new grapheme at index `at`, clamped to
    /// append when `at` is at or past the end. Invalidates the highlight
    /// cache.
    pub fn insert(&mut self, at: usize, c: char)
        requires
            old(self).wf(),
        ensures
            final(self).wf(),
            final(self)@ == old(self)@.insert(
                if at <= old(self)@.len() {
                    at as int
                } else {
                    old(self)@.len() as int
                },
                seq![c],
            ),
            !final(self).spec_is_highlighted(),
            final(self).spec_selections() == old(self).spec_selections(),
    {
        let g = char_to_grapheme(c);
        if at >= self.graphemes.len() {
            self.graphemes.push(g);
            proof {
                assert(self@ =~= old(self)@.insert(old(self)@.len() as int, seq![c]));
            }
        } else {
            self.graphemes.insert(at, g);
            proof {
                assert(self@ =~= old(self)@.insert(at as int, seq![c]));
            }
        }
        self.is_highlighted = false;
        proof {
            let k = if at <= old(self)@.len() {
                at as int
            } else {
                old(self)@.len() as int
            };
            assert forall|i: int| 0 <= i < self@.len() implies (#[trigger] self@[i]).len() > 0 by {
                if i < k {
                    assert(self@[i] == old(self)@[i]);
                } else if i == k {
                    assert(self@[i] == seq![c]);
                } else {
                    assert(self@[i] == old(self)@[i - 1]);
                }
            }
        }
    }

    /// Deletes the grapheme at `at` if in range; out of range is a no-op.
    /// A deletion invalidates the highlight cache.
    pub fn delete(&mut self, at: usize)
        requires
            old(self).wf(),
        ensures
            final(self).wf(),
            at < old(self)@.len() ==> final(self)@ == old(self)@.remove(at as int)
                && !final(self).spec_is_highlighted(),
            at >= old(self)@.len() ==> *final(self) == *old(self),
            final(self).spec_selections() == old(self).spec_selections(),
    {
        if at < self.graphemes.len() {
            self.graphemes.remove(at);
            self.is_highlighted = false;
            proof {
                assert(self@ =~= old(self)@.remove(at as int));
                assert forall|i: int| 0 <= i < self@.len() implies (#[trigger] self@[i]).len()
                    > 0 by {
                    if i < at {
                        assert(self@[i] == old(self)@[i]);
                    } else {
                        assert(self@[i] == old(self)@[i + 1]);
                    }
                }
            }
        }
    }

    /// Splits the row at `at`: the row keeps the prefix `[0, at)` and the
    /// returned row holds the suffix `[at, end)`. Both rows are marked
    /// highlight-invalid.
    pub fn split(&mut self, at: usize) -> (r: Row)
        requires
            old(self).wf(),
        ensures
            final(self).wf(),
            r.wf(),
            final(self)@ == old(self)@.take(
                if at <= old(self)@.len() {
                    at as int
                } else {
                    old(self)@.len() as int
                },
            ),
            r@ == old(self)@.skip(
                if at <= old(self)@.len() {
                    at as int
                } else {
                    old(self)@.len() as int
                },
            ),
            !final(self).spec_is_highlighted(),
            !r.spec_is_highlighted(),
            final(self).spec_selections() == old(self).spec_selections(),
            r.spec_selections() == Seq::<(usize, usize)>::empty(),
    {
        let n = self.graphemes.len();
        let cut = if at <= n {
            at
        } else {
            n
        };
        let suffix = self.graphemes.split_off(cut);
        self.is_highlighted = false;
        let r = Row {
            is_highlighted: false,
            graphemes: suffix,
            highlighting: Vec::new(),
            selections: Vec::new(),
        };
        proof {
            assert(self@ =~= old(self)@.take(cut as int));
            assert(r@ =~= old(self)@.skip(cut as int));
            assert forall|i: int| 0 <= i < self@.len() implies (#[trigger] self@[i]).len() > 0 by {
                assert(self@[i] == old(self)@[i]);
            }
            assert forall|i: int| 0 <= i < r@.len() implies (#[trigger] r@[i]).len() > 0 by {
                assert(r@[i] == old(self)@[cut + i]);
            }
        }
        r
    }

    /// Appends another row's text onto this one. The highlight cache is
    /// invalidated; the caller must re-tag.
    pub fn append(&mut self, other: &Row)
        requires
            old(self).wf(),
            other.wf(),
        ensures
            final(self).wf(),
            final(self)@ == old(self)@ + other@,
            !final(self).spec_is_highlighted(),
            final(self).spec_selections() == old(self).spec_selections(),
    {
        self.is_highlighted = false;
        let n = other.graphemes.len();
        proof {
            assert(self@ =~= old(self)@ + other@.take(0));
        }
        for i in 0..n
            invariant
                n == other@.len(),
                self@ == old(self)@ + other@.take(i as int),
                self.selections@ == old(self).selections@,
                !self.is_highlighted,
                old(self).wf(),
                self.wf(),
                other.wf(),
            decreases n - i,
        {
            let ghost pre = self@;
            let g = other.graphemes[i].clone();
            proof {
                assert(g@ == other.graphemes@[i as int]@);
                assert(other@[i as int] == other.graphemes@[i as int]@);
                assert(other@[i as int].len() > 0);
            }
            push_gr(&mut self.graphemes, g);
            proof {
                assert(self@ == pre.push(other@[i as int]));
                assert((old(self)@ + other@.take(i as int)).push(other@[i as int]) =~= old(self)@
                    + other@.take(i + 1));
                assert forall|j: int| 0 <= j < self@.len() implies (#[trigger] self@[j]).len()
                    > 0 by {
                    if j < pre.len() {
                        assert(self@[j] == pre[j]);
                    } else {
                        assert(self@[j] == other@[i as int]);
                    }
                }
            }
        }
        proof {
            assert(other@.take(n as int) =~= other@);
        }
    }
}

/// Pushes a grapheme onto a grapheme vector, at the level of deep views.
fn push_gr(v: &mut Vec<String>, g: String)
    ensures
        final(v).deep_view() == old(v).deep_view().push(g@),
{
    let ghost pre = v.deep_view();
    v.push(g);
    proof {
        assert forall|j: int| 0 <= j < v.deep_view().len() implies v.deep_view()[j] == pre.push(
            g@,
        )[j] by {
            if j < pre.len() {
                assert(v.deep_view()[j] == v@[j]@);
                assert(pre[j] == old(v)@[j]@);
            } else {
                assert(v.deep_view()[j] == g@);
            }
        }
        assert(v.deep_view() =~= pre.push(g@));
    }
}

/// How one grapheme expands under tab replacement: a tab becomes `n`
/// spaces, anything else stays.
pub open spec fn expand_one(g: Seq<char>, n: nat) -> Seq<Seq<char>> {
    if g == seq!['\t'] {
        Seq::new(n, |i: int| seq![' '])
    } else {
        seq![g]
    }
}

/// The row after replacing every tab grapheme with `n` spaces.
pub open spec fn expand_tabs(gs: Seq<Seq<char>>, n: nat) -> Seq<Seq<char>>
    decreases gs.len(),
{
    if gs.len() == 0 {
        Seq::empty()
    } else {
        expand_tabs(gs.drop_last(), n) + expand_one(gs.last(), n)
    }
}

/// Insertion into a start-sorted span list, after all spans with an equal
/// or smaller start.
pub open spec fn insert_span_sorted(s: Seq<(usize, usize)>, x: (usize, usize)) -> Seq<
    (usize, usize),
>
    decreases s.len(),
{
    if s.len() == 0 {
        seq![x]
    } else if x.0 < s[0].0 {
        seq![x] + s
    } else {
        seq![s[0]] + insert_span_sorted(s.drop_first(), x)
    }
}

/// `insert_span_sorted` places `x` exactly at the boundary index `k`.
proof fn lemma_insert_span(s: Seq<(usize, usize)>, x: (usize, usize), k: int)
    requires
        0 <= k <= s.len(),
        forall|j: int| 0 <= j < k ==> (#[trigger] s[j]).0 <= x.0,
        k == s.len() || x.0 < s[k].0,
    ensures
        insert_span_sorted(s, x) == s.take(k) + seq![x] + s.skip(k),
    decreases k,
{
    if k == 0 {
        if s.len() == 0 {
            assert(insert_span_sorted(s, x) =~= s.take(0) + seq![x] + s.skip(0));
        } else {
            assert(x.0 < s[0].0);
            assert(insert_span_sorted(s, x) =~= s.take(0) + seq![x] + s.skip(0));
        }
    } else {
        assert(s[0].0 <= x.0);
        lemma_insert_span(s.drop_first(), x, k - 1);
        assert(insert_span_sorted(s, x) =~= s.take(k) + seq![x] + s.skip(k));
    }
}

/// Merging a start-sorted span list: a span whose start falls within the
/// previous merged span (closed at its end) is folded into it, keeping the
/// larger end.
pub open spec fn merge_spans(s: Seq<(usize, usize)>) -> Seq<(usize, usize)>
    decreases s.len(),
{
    if s.len() <= 1 {
        s
    } else {
        let m = merge_spans(s.drop_last());
        let x = s.last();
        if m.len() > 0 && x.0 <= m.last().1 {
            m.update(
                m.len() - 1,
                (
                    m.last().0,
                    if x.1 >= m.last().1 {
                        x.1
                    } else {
                        m.last().1
                    },
                ),
            )
        } else {
            m.push(x)
        }
    }
}

/// The text of a clamped span of a line.
pub open spec fn span_text(gs: Seq<Seq<char>>, sp: (usize, usize)) -> Seq<char> {
    let lo = if sp.0 <= gs.len() {
        sp.0 as int
    } else {
        gs.len() as int
    };
    let hi = if sp.1 <= gs.len() {
        sp.1 as int
    } else {
        gs.len() as int
    };
    if lo <= hi {
        text_of(gs.subrange(lo, hi))
    } else {
        Seq::empty()
    }
}

/// The replacement text as single-character graphemes; nothing when no
/// replacement is supplied.
pub open spec fn rep_graphemes(rep: Option<Seq<char>>) -> Seq<Seq<char>> {
    match rep {
        Some(t) => t.map_values(|c: char| seq![c]),
        None => Seq::empty(),
    }
}

/// The view of an optional replacement string.
pub open spec fn opt_str_view(o: &Option<String>) -> Option<Seq<char>> {
    match o {
        Some(t) => Some(t@),
        None => None,
    }
}

/// One span replaced: the clamped span is cut out and the replacement
/// graphemes stand at its start.
pub open spec fn splice_span(gs: Seq<Seq<char>>, sp: (usize, usize), rg: Seq<Seq<char>>) -> Seq<
    Seq<char>,
> {
    let lo = if sp.0 <= gs.len() {
        sp.0 as int
    } else {
        gs.len() as int
    };
    let hi = if sp.1 <= gs.len() {
        sp.1 as int
    } else {
        gs.len() as int
    };
    if lo <= hi {
        gs.subrange(0, lo) + rg + gs.subrange(hi, gs.len() as int)
    } else {
        gs
    }
}

/// All spans replaced, in descending start order, so that earlier edits
/// never invalidate later offsets.
pub open spec fn apply_spans(
    gs: Seq<Seq<char>>,
    spans: Seq<(usize, usize)>,
    rg: Seq<Seq<char>>,
) -> Seq<Seq<char>>
    decreases spans.len(),
{
    if spans.len() == 0 {
        gs
    } else {
        apply_spans(splice_span(gs, spans.last(), rg), spans.drop_last(), rg)
    }
}

/// The number of leading space graphemes of a line.
pub open spec fn leading_spaces(gs: Seq<Seq<char>>) -> int
    decreases gs.len(),
{
    if gs.len() == 0 || gs[0] != seq![' '] {
        0
    } else {
        1 + leading_spaces(gs.drop_first())
    }
}

/// `leading_spaces` is exactly the bound of the leading all-space prefix.
proof fn lemma_leading_spaces(gs: Seq<Seq<char>>, k: int)
    requires
        0 <= k <= gs.len(),
        forall|j: int| 0 <= j < k ==> gs[j] == seq![' '],
        k == gs.len() || gs[k] != seq![' '],
    ensures
        leading_spaces(gs) == k,
    decreases k,
{
    if k == 0 {
    } else {
        assert(gs[0] == seq![' ']);
        lemma_leading_spaces(gs.drop_first(), k - 1);
    }
}

impl Row {
    /// Counts the leading run of spaces; `None` both when there are no
    /// leading spaces and when the whole line is spaces.
    pub fn get_leading_spaces(&self) -> (r: Option<usize>)
        requires
            self.wf(),
        ensures
            0 <= leading_spaces(self@) <= self@.len(),
            r is Some ==> r->0 as int == leading_spaces(self@),
            ({
                let k = leading_spaces(self@);
                if k == 0 || k == self@.len() {
                    r is None
                } else {
                    r == Some(k as usize)
                }
            }),
    {
        let n = self.graphemes.len();
        let mut i: usize = 0;
        while i < n && gr_eq_char(&self.graphemes[i], ' ')
            invariant
                0 <= i <= n,
                n == self@.len(),
                forall|j: int| 0 <= j < i ==> self@[j] == seq![' '],
            decreases n - i,
        {
            i += 1;
        }
        proof {
            lemma_leading_spaces(self@, i as int);
        }
        if i == n || i == 0 {
            None
        } else {
            Some(i)
        }
    }

    /// Decides whether the query graphemes occur at index `i`.
    fn match_at(&self, qv: &Vec<String>, i: usize) -> (r: bool)
        requires
            i + qv.deep_view().len() <= self@.len(),
        ensures
            r == gmatch(self@, qv.deep_view(), i as int),
    {
        let qn = qv.len();
        let n = self.graphemes.len();
        for j in 0..qn
            invariant
                qn == qv.deep_view().len(),
                n == self@.len(),
                i + qn <= n,
                forall|j2: int| 0 <= j2 < j ==> self@[i + j2] == #[trigger] qv.deep_view()[j2],
            decreases qn - j,
        {
            let same = self.graphemes[i + j] == qv[j];
            proof {
                assert(self@[i + j] == self.graphemes@[i + j]@);
                assert(qv.deep_view()[j as int] == qv@[j as int]@);
            }
            if !same {
                return false;
            }
        }
        true
    }

    /// Grapheme-safe search for `query` in the row. Forward looks for the
    /// first match at or after `at`; backward for the last match ending at
    /// or before `at`. Returns `None` for an empty query or `at` out of
    /// range.
    pub fn find(&self, query: &str, at: usize, direction: SearchDirection) -> (r: Option<usize>)
        requires
            self.wf(),
        ensures
            ({
                let s = spec_row_find(self@, graphemes_of(query@), at as int, direction);
                match r {
                    Some(i) => s == Some(i as int),
                    None => s is None,
                }
            }),
    {
        let qv = split_graphemes(query);
        let ghost qg = qv.deep_view();
        let qn = qv.len();
        let n = self.graphemes.len();
        if qn == 0 || at > n || qn > n {
            return None;
        }
        if direction == SearchDirection::Forward {
            let mut i = at;
            while i <= n - qn
                invariant
                    at <= i,
                    at <= n,
                    direction == SearchDirection::Forward,
                    qg == qv.deep_view(),
                    qg == graphemes_of(query@),
                    qn == qg.len(),
                    0 < qn <= n,
                    n == self@.len(),
                    first_match_from(self@, qg, at as int) == first_match_from(
                        self@,
                        qg,
                        i as int,
                    ),
                decreases n - i,
            {
                if self.match_at(&qv, i) {
                    proof {
                        assert(first_match_from(self@, qg, i as int) == Some(i as int));
                    }
                    return Some(i);
                }
                i += 1;
            }
            proof {
                assert(first_match_from(self@, qg, i as int) is None);
            }
            None
        } else {
            let mut e = at;
            while e >= qn
                invariant
                    e <= at,
                    direction == SearchDirection::Backward,
                    qg == qv.deep_view(),
                    qg == graphemes_of(query@),
                    qn == qg.len(),
                    0 < qn <= n,
                    n == self@.len(),
                    at <= n,
                    last_match_before(self@, qg, at as int) == last_match_before(
                        self@,
                        qg,
                        e as int,
                    ),
                decreases e,
            {
                if self.match_at(&qv, e - qn) {
                    proof {
                        assert(last_match_before(self@, qg, e as int) == Some(e - qn as int));
                    }
                    return Some(e - qn);
                }
                e -= 1;
            }
            proof {
                assert(last_match_before(self@, qg, e as int) is None);
            }
            None
        }
    }

    /// The least separator index at or after `from`.
    fn scan_sep_forward(&self, from: usize) -> (r: Option<usize>)
        requires
            self.wf(),
        ensures
            ({
                let s = first_sep_from(self@, from as int);
                match r {
                    Some(i) => s == Some(i as int) && from <= i < self@.len(),
                    None => s is None,
                }
            }),
    {
        let n = self.graphemes.len();
        let mut i = from;
        while i < n
            invariant
                from <= i,
                n == self@.len(),
                first_sep_from(self@, from as int) == first_sep_from(self@, i as int),
                self.wf(),
            decreases n - i,
        {
            proof {
                assert(self@[i as int] == self.graphemes@[i as int]@);
                assert(self@[i as int].len() > 0);
            }
            if is_word_separator(gr_first(&self.graphemes[i])) {
                return Some(i);
            }
            i += 1;
        }
        None
    }

    /// The least alphanumeric index at or after `from`.
    fn scan_alnum_forward(&self, from: usize) -> (r: Option<usize>)
        requires
            self.wf(),
        ensures
            ({
                let s = first_alnum_from(self@, from as int);
                match r {
                    Some(i) => s == Some(i as int) && from <= i < self@.len(),
                    None => s is None,
                }
            }),
    {
        let n = self.graphemes.len();
        let mut i = from;
        while i < n
            invariant
                from <= i,
                n == self@.len(),
                first_alnum_from(self@, from as int) == first_alnum_from(self@, i as int),
                self.wf(),
            decreases n - i,
        {
            proof {
                assert(self@[i as int] == self.graphemes@[i as int]@);
                assert(self@[i as int].len() > 0);
            }
            if crate::graphemes::char_is_alphanumeric(gr_first(&self.graphemes[i])) {
                return Some(i);
            }
            i += 1;
        }
        None
    }

    /// The greatest separator index strictly before `end`.
    fn scan_sep_backward(&self, end: usize) -> (r: Option<usize>)
        requires
            self.wf(),
            end <= self@.len(),
        ensures
            ({
                let s = last_sep_before(self@, end as int);
                match r {
                    Some(i) => s == Some(i as int) && i < end,
                    None => s is None,
                }
            }),
    {
        let mut e = end;
        while e > 0
            invariant
                e <= end <= self@.len(),
                last_sep_before(self@, end as int) == last_sep_before(self@, e as int),
                self.wf(),
            decreases e,
        {
            proof {
                assert(self@[e - 1] == self.graphemes@[e - 1]@);
                assert(self@[e - 1].len() > 0);
            }
            if is_word_separator(gr_first(&self.graphemes[e - 1])) {
                return Some(e - 1);
            }
            e -= 1;
        }
        None
    }

    /// The greatest alphanumeric index strictly before `end`.
    fn scan_alnum_backward(&self, end: usize) -> (r: Option<usize>)
        requires
            self.wf(),
            end <= self@.len(),
        ensures
            ({
                let s = last_alnum_before(self@, end as int);
                match r {
                    Some(i) => s == Some(i as int) && i < end,
                    None => s is None,
                }
            }),
    {
        let mut e = end;
        while e > 0
            invariant
                e <= end <= self@.len(),
                last_alnum_before(self@, end as int) == last_alnum_before(self@, e as int),
                self.wf(),
            decreases e,
        {
            proof {
                assert(self@[e - 1] == self.graphemes@[e - 1]@);
                assert(self@[e - 1].len() > 0);
            }
            if crate::graphemes::char_is_alphanumeric(gr_first(&self.graphemes[e - 1])) {
                return Some(e - 1);
            }
            e -= 1;
        }
        None
    }

    /// Forward word navigation; see `spec_word_forward`.
    fn find_word_forward(&self, start: usize) -> (r: Option<usize>)
        requires
            self.wf(),
        ensures
            ({
                let s = spec_word_forward(self@, start as int);
                match r {
                    Some(i) => s == Some(i as int),
                    None => s is None,
                }
            }),
    {
        let n = self.graphemes.len();
        if start >= n {
            return None;
        }
        proof {
            assert(self@[start as int] == self.graphemes@[start as int]@);
            assert(self@[start as int].len() > 0);
        }
        if crate::graphemes::char_is_alphanumeric(gr_first(&self.graphemes[start])) {
            match self.scan_sep_forward(start) {
                Some(k) => self.scan_alnum_forward(k),
                None => None,
            }
        } else {
            self.scan_alnum_forward(start)
        }
    }

    /// Backward word navigation; see `spec_word_backward`.
    fn find_word_backward(&self, end: usize) -> (r: Option<usize>)
        requires
            self.wf(),
        ensures
            ({
                let s = spec_word_backward(self@, end as int);
                match r {
                    Some(i) => s == Some(i as int),
                    None => s is None,
                }
            }),
    {
        let n = self.graphemes.len();
        let e = if end <= n {
            end
        } else {
            n
        };
        if e == 0 {
            return None;
        }
        proof {
            assert(self@[e - 1] == self.graphemes@[e - 1]@);
            assert(self@[e - 1].len() > 0);
        }
        if crate::graphemes::char_is_alphanumeric(gr_first(&self.graphemes[e - 1])) {
            match self.scan_sep_backward(e) {
                None => Some(0),
                Some(k) => match self.scan_alnum_backward(k) {
                    Some(x) => Some(x + 1),
                    None => Some(0),
                },
            }
        } else {
            match self.scan_alnum_backward(e) {
                Some(x) => Some(x + 1),
                None => Some(0),
            }
        }
    }

    /// Word navigation in either direction; see `spec_row_word`.
    pub fn find_next_word(&self, at: usize, direction: SearchDirection) -> (r: Option<usize>)
        requires
            self.wf(),
        ensures
            ({
                let s = spec_row_word(self@, at as int, direction);
                match r {
                    Some(i) => s == Some(i as int),
                    None => s is None,
                }
            }),
    {
        if direction == SearchDirection::Forward {
            self.find_word_forward(at)
        } else {
            self.find_word_backward(at)
        }
    }
}

impl Row {
    /// Replaces every tab grapheme with `spaces_per_tab` spaces.
    pub fn replace_tabs_with_spaces(&mut self, spaces_per_tab: usize)
        requires
            old(self).wf(),
        ensures
            final(self).wf(),
            final(self)@ == expand_tabs(old(self)@, spaces_per_tab as nat),
            !final(self).spec_is_highlighted(),
            final(self).spec_selections() == old(self).spec_selections(),
    {
        let n = self.graphemes.len();
        let mut acc: Vec<String> = Vec::new();
        proof {
            assert(acc.deep_view() =~= expand_tabs(self@.take(0), spaces_per_tab as nat));
        }
        for i in 0..n
            invariant
                n == self@.len(),
                acc.deep_view() == expand_tabs(self@.take(i as int), spaces_per_tab as nat),
                all_nonempty(acc.deep_view()),
                self.wf(),
            decreases n - i,
        {
            proof {
                assert(self@[i as int] == self.graphemes@[i as int]@);
            }
            let ghost base = acc.deep_view();
            if gr_eq_char(&self.graphemes[i], '\t') {
                for j in 0..spaces_per_tab
                    invariant
                        acc.deep_view() == base + Seq::new(j as nat, |t: int| seq![' ']),
                    decreases spaces_per_tab - j,
                {
                    push_gr(&mut acc, char_to_grapheme(' '));
                    proof {
                        assert(acc.deep_view() =~= base + Seq::new(
                            (j + 1) as nat,
                            |t: int| seq![' '],
                        ));
                    }
                }
                proof {
                    assert(expand_one(self@[i as int], spaces_per_tab as nat) == Seq::new(
                        spaces_per_tab as nat,
                        |t: int| seq![' '],
                    ));
                }
            } else {
                push_gr(&mut acc, self.graphemes[i].clone());
                proof {
                    assert(acc.deep_view() =~= base + expand_one(
                        self@[i as int],
                        spaces_per_tab as nat,
                    ));
                }
            }
            proof {
                assert(self@.take(i + 1).drop_last() =~= self@.take(i as int));
                assert(self@.take(i + 1).last() == self@[i as int]);
                assert(acc.deep_view() =~= expand_tabs(self@.take(i + 1), spaces_per_tab as nat));
                assert forall|t: int| 0 <= t < acc.deep_view().len() implies (#[trigger] acc.deep_view()[t]).len() > 0 by {
                    if t < base.len() {
                        assert(acc.deep_view()[t] == base[t]);
                    }
                }
            }
        }
        proof {
            assert(self@.take(n as int) =~= self@);
        }
        self.graphemes = acc;
        self.is_highlighted = false;
    }

    /// Appends the clamped span `[at, at + len)` to the pending selections,
    /// keeping the list sorted by start.
    pub fn add_selection(&mut self, at: usize, len: usize)
        requires
            old(self).wf(),
        ensures
            final(self).wf(),
            final(self)@ == old(self)@,
            final(self).spec_is_highlighted() == old(self).spec_is_highlighted(),
            final(self).spec_highlighting() == old(self).spec_highlighting(),
            ({
                let l = old(self)@.len() as int;
                let s0 = if at as int <= l {
                    at as int
                } else {
                    l
                };
                let e0 = if at + len <= l {
                    at + len
                } else {
                    l
                };
                final(self).spec_selections() == insert_span_sorted(
                    old(self).spec_selections(),
                    (s0 as usize, e0 as usize),
                )
            }),
    {
        let n = self.graphemes.len();
        let (s, e): (usize, usize) = if at > n {
            (n, n)
        } else if len > n - at {
            (at, n)
        } else {
            (at, at + len)
        };
        let m = self.selections.len();
        let mut idx: usize = 0;
        while idx < m && self.selections[idx].0 <= s
            invariant
                idx <= m,
                m == self.selections@.len(),
                forall|j: int| 0 <= j < idx ==> (#[trigger] self.selections@[j]).0 <= s,
            decreases m - idx,
        {
            idx += 1;
        }
        proof {
            lemma_insert_span(self.selections@, (s, e), idx as int);
        }
        let ghost pre = self.selections@;
        self.selections.insert(idx, (s, e));
        proof {
            assert(self.selections@ == pre.insert(idx as int, (s, e)));
            assert(self.selections@ =~= pre.take(idx as int) + seq![(s, e)] + pre.skip(idx as int));
            assert(self.selections@ == insert_span_sorted(pre, (s, e)));
            assert forall|i: int, j: int| 0 <= i < j < self.selections@.len() implies (
            #[trigger] self.selections@[i]).0 <= (#[trigger] self.selections@[j]).0 by {
                let v = self.selections@;
                if j < idx {
                    assert(v[i] == pre[i] && v[j] == pre[j]);
                } else if i < idx && j == idx {
                    assert(v[i] == pre[i] && v[j] == (s, e));
                } else if i < idx && j > idx {
                    assert(v[i] == pre[i] && v[j] == pre[j - 1]);
                } else if i == idx {
                    assert(v[i] == (s, e) && v[j] == pre[j - 1]);
                } else {
                    assert(v[i] == pre[i - 1] && v[j] == pre[j - 1]);
                }
            }
        }
    }

    /// Clears every pending selection span.
    pub fn reset_selections(&mut self)
        requires
            old(self).wf(),
        ensures
            final(self).wf(),
            final(self)@ == old(self)@,
            final(self).spec_selections() == Seq::<(usize, usize)>::empty(),
            final(self).spec_is_highlighted() == old(self).spec_is_highlighted(),
            final(self).spec_highlighting() == old(self).spec_highlighting(),
    {
        self.selections.clear();
    }

    /// Merges the sorted spans in place; see `merge_spans`.
    fn merge_selections(&mut self)
        requires
            old(self).wf(),
        ensures
            final(self).wf(),
            final(self)@ == old(self)@,
            final(self).spec_is_highlighted() == old(self).spec_is_highlighted(),
            final(self).spec_highlighting() == old(self).spec_highlighting(),
            final(self).spec_selections() == merge_spans(old(self).spec_selections()),
    {
        let m = self.selections.len();
        if m <= 1 {
            return;
        }
        let mut merged: Vec<(usize, usize)> = Vec::new();
        merged.push(self.selections[0]);
        proof {
            assert(merged@ =~= self.selections@.take(1));
        }
        for i in 1..m
            invariant
                m == self.selections@.len(),
                1 <= i <= m,
                merged@.len() >= 1,
                merged@ == merge_spans(self.selections@.take(i as int)),
                spans_sorted(merged@),
                spans_ordered(merged@),
                forall|j: int|
                    i <= j < m ==> merged@.last().0 <= (#[trigger] self.selections@[j]).0,
                self.wf(),
            decreases m - i,
        {
            let ghost pre = merged@;
            let x = self.selections[i];
            let lastpos = merged.len() - 1;
            let last = merged[lastpos];
            if x.0 <= last.1 {
                let newend = if x.1 >= last.1 {
                    x.1
                } else {
                    last.1
                };
                let _ = merged.pop();
                merged.push((last.0, newend));
                proof {
                    assert(merged@ =~= pre.update(pre.len() - 1, (last.0, newend)));
                }
            } else {
                merged.push(x);
            }
            proof {
                assert(self.selections@.take(i + 1).drop_last() =~= self.selections@.take(i as int));
                assert(self.selections@.take(i + 1).last() == self.selections@[i as int]);
                assert(merged@ =~= merge_spans(self.selections@.take(i + 1)));
                assert forall|a: int, b: int| 0 <= a < b < merged@.len() implies (
                #[trigger] merged@[a]).0 <= (#[trigger] merged@[b]).0 by {
                    if b < pre.len() {
                        assert(merged@[a] == pre[a] || merged@[a].0 == pre[a].0);
                        assert(merged@[b] == pre[b] || merged@[b].0 == pre[b].0);
                    } else {
                        assert(merged@[a].0 == pre[a].0);
                        assert(pre[a].0 <= pre[pre.len() - 1].0);
                    }
                }
            }
        }
        proof {
            assert(self.selections@.take(m as int) =~= self.selections@);
        }
        self.selections = merged;
    }

    /// Merges overlapping selections, then returns `(start, text)` for each
    /// merged span, in ascending start order.
    pub fn update_and_get_selections(&mut self) -> (r: Vec<(usize, String)>)
        requires
            old(self).wf(),
        ensures
            final(self).wf(),
            final(self)@ == old(self)@,
            final(self).spec_is_highlighted() == old(self).spec_is_highlighted(),
            final(self).spec_highlighting() == old(self).spec_highlighting(),
            final(self).spec_selections() == merge_spans(old(self).spec_selections()),
            r@.len() == merge_spans(old(self).spec_selections()).len(),
            forall|i: int|
                0 <= i < r@.len() ==> (#[trigger] r@[i]).0 == merge_spans(
                    old(self).spec_selections(),
                )[i].0 && r@[i].1@ == span_text(
                    old(self)@,
                    merge_spans(old(self).spec_selections())[i],
                ),
    {
        broadcast use Seq::lemma_flatten_push;

        self.merge_selections();
        let n = self.graphemes.len();
        let m = self.selections.len();
        let mut r: Vec<(usize, String)> = Vec::new();
        for k in 0..m
            invariant
                r@.len() == k,
                m == self.selections@.len(),
                n == self@.len(),
                self.wf(),
                forall|i: int|
                    0 <= i < k ==> (#[trigger] r@[i]).0 == self.selections@[i].0 && r@[i].1@
                        == span_text(self@, self.selections@[i]),
            decreases m - k,
        {
            let (s, e) = self.selections[k];
            proof {
                assert(self.selections@[k as int].0 <= self.selections@[k as int].1);
            }
            let lo = if s <= n {
                s
            } else {
                n
            };
            let hi = if e <= n {
                e
            } else {
                n
            };
            let mut text = String::new();
            let mut j = lo;
            proof {
                assert(self@.subrange(lo as int, lo as int) =~= Seq::<Seq<char>>::empty());
            }
            while j < hi
                invariant
                    lo <= j <= hi <= n,
                    n == self@.len(),
                    text@ == self@.subrange(lo as int, j as int).flatten(),
                decreases hi - j,
            {
                text.append(self.graphemes[j].as_str());
                proof {
                    assert(self@[j as int] == self.graphemes@[j as int]@);
                    assert(self@.subrange(lo as int, j + 1) =~= self@.subrange(
                        lo as int,
                        j as int,
                    ).push(self@[j as int]));
                    self@.subrange(lo as int, j as int).lemma_flatten_push(self@[j as int]);
                }
                j += 1;
            }
            let ghost prev = r@;
            r.push((s, text));
            proof {
                assert(text@ == span_text(self@, self.selections@[k as int]));
                assert forall|i: int|
                    0 <= i < r@.len() implies (#[trigger] r@[i]).0 == self.selections@[i].0
                    && r@[i].1@ == span_text(self@, self.selections@[i]) by {
                    if i < prev.len() {
                        assert(r@[i] == prev[i]);
                    } else {
                        assert(r@[i] == (s, text));
                    }
                }
            }
        }
        r
    }

    /// Cuts the clamped span `[s, e)` out of the row and puts the
    /// replacement characters, if any, at its start.
    fn splice(&mut self, s: usize, e: usize, rep: &Option<String>)
        requires
            old(self).wf(),
            s <= e,
        ensures
            final(self).wf(),
            final(self)@ == splice_span(old(self)@, (s, e), rep_graphemes(opt_str_view(rep))),
            final(self).spec_selections() == old(self).spec_selections(),
            !final(self).spec_is_highlighted(),
    {
        broadcast use Seq::lemma_map_take_succ;

        let n = self.graphemes.len();
        let lo = if s <= n {
            s
        } else {
            n
        };
        let hi = if e <= n {
            e
        } else {
            n
        };
        self.is_highlighted = false;
        let dl = hi - lo;
        let mut j: usize = 0;
        proof {
            assert(self@ =~= old(self)@.subrange(0, lo as int) + old(self)@.subrange(
                lo as int,
                n as int,
            ));
        }
        while j < dl
            invariant
                j <= dl,
                dl == hi - lo,
                lo <= hi <= n,
                n == old(self)@.len(),
                self@ == old(self)@.subrange(0, lo as int) + old(self)@.subrange(
                    lo + j,
                    n as int,
                ),
                self.selections@ == old(self).selections@,
                !self.is_highlighted,
                old(self).wf(),
                self.wf(),
            decreases dl - j,
        {
            let ghost pre = self@;
            self.graphemes.remove(lo);
            proof {
                assert(self@ =~= pre.remove(lo as int));
                assert(self@ =~= old(self)@.subrange(0, lo as int) + old(self)@.subrange(
                    lo + j + 1,
                    n as int,
                ));
                assert forall|t: int| 0 <= t < self@.len() implies (#[trigger] self@[t]).len()
                    > 0 by {
                    if t < lo {
                        assert(self@[t] == old(self)@[t]);
                    } else {
                        assert(self@[t] == old(self)@[t + lo + j + 1 - lo]);
                    }
                }
            }
            j += 1;
        }
        if let Some(t) = rep {
            let tn = t.as_str().unicode_len();
            let ghost tv = t@;
            let mut j2: usize = 0;
            proof {
                assert(tv.take(0).map_values(|c: char| seq![c]) =~= Seq::<Seq<char>>::empty());
                assert(self@ =~= old(self)@.subrange(0, lo as int) + tv.take(0).map_values(
                    |c: char| seq![c],
                ) + old(self)@.subrange(hi as int, n as int));
            }
            while j2 < tn
                invariant
                    j2 <= tn,
                    tn == tv.len(),
                    tv == t@,
                    lo <= hi <= n,
                    n == old(self)@.len(),
                    self@ == old(self)@.subrange(0, lo as int) + tv.take(j2 as int).map_values(
                        |c: char| seq![c],
                    ) + old(self)@.subrange(hi as int, n as int),
                    self.selections@ == old(self).selections@,
                    !self.is_highlighted,
                    old(self).wf(),
                    self.wf(),
                decreases tn - j2,
            {
                let c = t.as_str().get_char(j2);
                let g = char_to_grapheme(c);
                let ghost pre = self@;
                let cur = self.graphemes.len();
                proof {
                    assert(lo + j2 <= pre.len());
                    assert(pre.len() == cur);
                }
                self.graphemes.insert(lo + j2, g);
                proof {
                    assert(self@ =~= pre.insert(lo + j2, seq![c]));
                    assert(tv.take(j2 + 1).map_values(|c2: char| seq![c2]) =~= tv.take(
                        j2 as int,
                    ).map_values(|c2: char| seq![c2]).push(seq![tv[j2 as int]]));
                    assert(self@ =~= old(self)@.subrange(0, lo as int) + tv.take(
                        j2 + 1,
                    ).map_values(|c2: char| seq![c2]) + old(self)@.subrange(hi as int, n as int));
                    assert forall|u: int| 0 <= u < self@.len() implies (#[trigger] self@[u]).len()
                        > 0 by {
                        if u < lo + j2 {
                            assert(self@[u] == pre[u]);
                        } else if u == lo + j2 {
                            assert(self@[u] == seq![c]);
                        } else {
                            assert(self@[u] == pre[u - 1]);
                        }
                    }
                }
                j2 += 1;
            }
            proof {
                assert(tv.take(tn as int) =~= tv);
            }
        }
        proof {
            assert(self@ =~= old(self)@.subrange(0, lo as int) + rep_graphemes(opt_str_view(rep))
                + old(self)@.subrange(hi as int, n as int));
        }
    }

    /// Merges the pending spans, then — processing them in descending start
    /// order — deletes every grapheme in each span and, when a replacement
    /// is supplied, inserts its characters at that span's start. The spans
    /// are consumed.
    pub fn replace_selections(&mut self, replacement: &Option<String>)
        requires
            old(self).wf(),
        ensures
            final(self).wf(),
            final(self)@ == apply_spans(
                old(self)@,
                merge_spans(old(self).spec_selections()),
                rep_graphemes(opt_str_view(replacement)),
            ),
            final(self).spec_selections() == Seq::<(usize, usize)>::empty(),
            !final(self).spec_is_highlighted(),
    {
        self.merge_selections();
        let m = self.selections.len();
        let ghost merged = self.selections@;
        let ghost rg = rep_graphemes(opt_str_view(replacement));
        let ghost start_view = self@;
        proof {
            assert(merged.take(m as int) =~= merged);
        }
        let mut k = m;
        while k > 0
            invariant
                k <= m,
                m == merged.len(),
                merged == self.selections@,
                rg == rep_graphemes(opt_str_view(replacement)),
                apply_spans(start_view, merged, rg) == apply_spans(
                    self@,
                    merged.take(k as int),
                    rg,
                ),
                spans_ordered(merged),
                self.wf(),
            decreases k,
        {
            let (s, e) = self.selections[k - 1];
            proof {
                assert(merged[k - 1].0 <= merged[k - 1].1);
            }
            self.splice(s, e, replacement);
            proof {
                assert(merged.take(k as int).drop_last() =~= merged.take(k - 1));
                assert(merged.take(k as int).last() == merged[k - 1]);
            }
            k -= 1;
        }
        proof {
            assert(merged.take(0) =~= Seq::<(usize, usize)>::empty());
        }
        self.selections.clear();
        self.is_highlighted = false;
    }
}

// ---------------------------------------------------------------------------
// The tokenizer: a single left-to-right pass over the line's graphemes, each
// grapheme classified by its first character; rules tried in a fixed
// priority order, first success consuming the tagged region.
// ---------------------------------------------------------------------------

/// `n` copies of one highlight tag.
pub open spec fn rep_tags(n: int, t: Type) -> Seq<Type> {
    Seq::new(
        if n >= 0 {
            n as nat
        } else {
            0
        },
        |x: int| t,
    )
}

/// Whether the characters of `pat` appear as the first characters of the
/// graphemes starting at `i`.
pub open spec fn matches_fc(gs: Seq<Seq<char>>, i: int, pat: Seq<char>) -> bool {
    &&& 0 <= i
    &&& i + pat.len() <= gs.len()
    &&& forall|j: int| 0 <= j < pat.len() ==> first_char(gs, i + j) == #[trigger] pat[j]
}

/// The least index at or after `from` where `pat` matches.
pub open spec fn find_fc(gs: Seq<Seq<char>>, pat: Seq<char>, from: int) -> Option<int>
    decreases gs.len() - from,
{
    if from < 0 || from + pat.len() > gs.len() {
        None
    } else if matches_fc(gs, from, pat) {
        Some(from)
    } else {
        find_fc(gs, pat, from + 1)
    }
}

proof fn lemma_find_fc_bounds(gs: Seq<Seq<char>>, pat: Seq<char>, from: int)
    ensures
        match find_fc(gs, pat, from) {
            Some(k) => from <= k && 0 <= k && k + pat.len() <= gs.len(),
            None => true,
        },
    decreases gs.len() - from,
{
    if from < 0 || from + pat.len() > gs.len() {
    } else if matches_fc(gs, from, pat) {
    } else {
        lemma_find_fc_bounds(gs, pat, from + 1);
    }
}

/// The multi-line comment rule for one list of delimiter pairs: the first
/// pair whose opening matches at `i` wins; the region runs to the end of
/// its closing delimiter, or to the line end with the closing delimiter as
/// continuation.
pub open spec fn ml_pairs_rule(
    pairs: Seq<(Seq<char>, Seq<char>)>,
    gs: Seq<Seq<char>>,
    i: int,
) -> Option<(Seq<Type>, int, Option<Seq<char>>)>
    decreases pairs.len(),
{
    if pairs.len() == 0 {
        None
    } else {
        let op = pairs[0].0;
        let cl = pairs[0].1;
        if op.len() > 0 && matches_fc(gs, i, op) {
            match find_fc(gs, cl, i + op.len()) {
                Some(k) => Some(
                    (rep_tags(k + cl.len() - i, Type::MultilineComment), k + cl.len(), None),
                ),
                None => Some(
                    (rep_tags(gs.len() - i, Type::MultilineComment), gs.len() as int, Some(cl)),
                ),
            }
        } else {
            ml_pairs_rule(pairs.drop_first(), gs, i)
        }
    }
}

/// The multi-line comment rule.
pub open spec fn ml_rule(o: OptsV, gs: Seq<Seq<char>>, i: int) -> Option<
    (Seq<Type>, int, Option<Seq<char>>),
> {
    match o.multiline {
        Some(ps) => ml_pairs_rule(ps, gs, i),
        None => None,
    }
}

proof fn lemma_ml_pairs_bounds(pairs: Seq<(Seq<char>, Seq<char>)>, gs: Seq<Seq<char>>, i: int)
    requires
        0 <= i < gs.len(),
    ensures
        match ml_pairs_rule(pairs, gs, i) {
            Some((t, ni, c)) => i < ni <= gs.len() && t.len() == ni - i && (c is Some ==> ni
                == gs.len() && c->0.len() > 0),
            None => true,
        },
    decreases pairs.len(),
{
    if pairs.len() == 0 {
    } else {
        let op = pairs[0].0;
        let cl = pairs[0].1;
        if op.len() > 0 && matches_fc(gs, i, op) {
            lemma_find_fc_bounds(gs, cl, i + op.len());
            if find_fc(gs, cl, i + op.len()) is None {
                if cl.len() == 0 {
                    assert(matches_fc(gs, i + op.len(), cl));
                    assert(find_fc(gs, cl, i + op.len()) == Some(i + op.len()));
                }
            }
        } else {
            lemma_ml_pairs_bounds(pairs.drop_first(), gs, i);
        }
    }
}

/// The character-literal rule: a single quote, one or two body characters
/// (two with a backslash escape), and a closing single quote.
pub open spec fn char_rule(o: OptsV, gs: Seq<Seq<char>>, i: int) -> Option<(Seq<Type>, int)> {
    if !o.characters || !(0 <= i < gs.len()) || first_char(gs, i) != '\'' {
        None
    } else if i + 1 >= gs.len() {
        None
    } else {
        let closing = if first_char(gs, i + 1) == '\\' {
            i + 3
        } else {
            i + 2
        };
        if closing < gs.len() && first_char(gs, closing) == '\'' {
            Some((rep_tags(closing - i + 1, Type::Character), closing + 1))
        } else {
            None
        }
    }
}

/// The single-line comment rule: the configured prefix at `i` comments the
/// rest of the line.
pub open spec fn comment_rule(o: OptsV, gs: Seq<Seq<char>>, i: int) -> Option<(Seq<Type>, int)> {
    match o.comments {
        Some(pre) => if matches_fc(gs, i, pre) {
            Some((rep_tags(gs.len() - i, Type::Comment), gs.len() as int))
        } else {
            None
        },
        None => None,
    }
}

/// Whether a keyword may start at `i`: at the line start, or after a
/// separator grapheme.
pub open spec fn kw_pre_ok(gs: Seq<Seq<char>>, i: int) -> bool {
    i == 0 || sep_g(gs, i - 1)
}

/// The length of the first keyword of the list matching at `i` with a
/// separator (or the line end) after it.
pub open spec fn kw_match_len(kws: Seq<Seq<char>>, gs: Seq<Seq<char>>, i: int) -> Option<int>
    decreases kws.len(),
{
    if kws.len() == 0 {
        None
    } else {
        let w = kws[0];
        if i + w.len() < gs.len() && !sep_g(gs, i + w.len()) {
            kw_match_len(kws.drop_first(), gs, i)
        } else if w.len() > 0 && matches_fc(gs, i, w) {
            Some(w.len() as int)
        } else {
            kw_match_len(kws.drop_first(), gs, i)
        }
    }
}

/// The keyword rule for one list.
pub open spec fn kw_rule(kws: Seq<Seq<char>>, gs: Seq<Seq<char>>, i: int) -> Option<int> {
    if !kw_pre_ok(gs, i) {
        None
    } else {
        kw_match_len(kws, gs, i)
    }
}

proof fn lemma_kw_match_bounds(kws: Seq<Seq<char>>, gs: Seq<Seq<char>>, i: int)
    requires
        0 <= i,
    ensures
        match kw_match_len(kws, gs, i) {
            Some(l) => 0 < l && i + l <= gs.len(),
            None => true,
        },
    decreases kws.len(),
{
    if kws.len() == 0 {
    } else {
        let w = kws[0];
        if i + w.len() < gs.len() && !sep_g(gs, i + w.len()) {
            lemma_kw_match_bounds(kws.drop_first(), gs, i);
        } else if w.len() > 0 && matches_fc(gs, i, w) {
        } else {
            lemma_kw_match_bounds(kws.drop_first(), gs, i);
        }
    }
}

/// Whether a quote at `j` closes a string opened at `i0` with delimiter
/// `d`: the preceding character (the opening quote itself for the first
/// body position) must not be a backslash.
pub open spec fn str_prev_ok(gs: Seq<Seq<char>>, j: int, i0: int, d: char) -> bool {
    if j - 1 == i0 {
        d != '\\'
    } else {
        first_char(gs, j - 1) != '\\'
    }
}

/// The least closing-quote position at or after `j`.
pub open spec fn str_close_from(gs: Seq<Seq<char>>, d: char, i0: int, j: int) -> Option<int>
    decreases gs.len() - j,
{
    if j < 0 || j >= gs.len() {
        None
    } else if first_char(gs, j) == d && str_prev_ok(gs, j, i0, d) {
        Some(j)
    } else {
        str_close_from(gs, d, i0, j + 1)
    }
}

proof fn lemma_str_close_bounds(gs: Seq<Seq<char>>, d: char, i0: int, j: int)
    ensures
        match str_close_from(gs, d, i0, j) {
            Some(k) => j <= k < gs.len(),
            None => true,
        },
    decreases gs.len() - j,
{
    if j < 0 || j >= gs.len() {
    } else if first_char(gs, j) == d && str_prev_ok(gs, j, i0, d) {
    } else {
        lemma_str_close_bounds(gs, d, i0, j + 1);
    }
}

/// The string rule for one list of quote characters: the first quote
/// matching the grapheme at `i` opens a string running to its unescaped
/// closing quote, or to the line end if unterminated.
pub open spec fn str_delims_rule(ds: Seq<char>, gs: Seq<Seq<char>>, i: int) -> Option<
    (Seq<Type>, int),
>
    decreases ds.len(),
{
    if ds.len() == 0 || !(0 <= i < gs.len()) {
        None
    } else {
        let d = ds[0];
        if first_char(gs, i) == d {
            match str_close_from(gs, d, i, i + 1) {
                Some(j) => Some((rep_tags(j - i + 1, Type::String), j + 1)),
                None => Some((rep_tags(gs.len() - i, Type::String), gs.len() as int)),
            }
        } else {
            str_delims_rule(ds.drop_first(), gs, i)
        }
    }
}

/// The string rule.
pub open spec fn string_rule(o: OptsV, gs: Seq<Seq<char>>, i: int) -> Option<(Seq<Type>, int)> {
    match o.strings {
        Some(ds) => str_delims_rule(ds, gs, i),
        None => None,
    }
}

proof fn lemma_str_delims_bounds(ds: Seq<char>, gs: Seq<Seq<char>>, i: int)
    requires
        0 <= i < gs.len(),
    ensures
        match str_delims_rule(ds, gs, i) {
            Some((t, ni)) => i < ni <= gs.len() && t.len() == ni - i,
            None => true,
        },
    decreases ds.len(),
{
    if ds.len() == 0 {
    } else {
        let d = ds[0];
        if first_char(gs, i) == d {
            lemma_str_close_bounds(gs, d, i, i + 1);
        } else {
            lemma_str_delims_bounds(ds.drop_first(), gs, i);
        }
    }
}

/// Whether the numeric run continues at `j`: a digit, or a decimal point.
pub open spec fn num_cont(gs: Seq<Seq<char>>, j: int) -> bool {
    first_char(gs, j) == '.' || digit_char(first_char(gs, j))
}

/// The end of the numeric run that is under way at `j`.
pub open spec fn num_end(gs: Seq<Seq<char>>, j: int) -> int
    decreases gs.len() - j,
{
    if j < 0 {
        0
    } else if j >= gs.len() || !num_cont(gs, j) {
        j
    } else {
        num_end(gs, j + 1)
    }
}

proof fn lemma_num_end_bounds(gs: Seq<Seq<char>>, j: int)
    requires
        0 <= j <= gs.len(),
    ensures
        j <= num_end(gs, j) <= gs.len(),
    decreases gs.len() - j,
{
    if j >= gs.len() || !num_cont(gs, j) {
    } else {
        lemma_num_end_bounds(gs, j + 1);
    }
}

/// The numeric-literal rule: a digit run (decimal points allowed inside),
/// preceded by a separator or the line start.
pub open spec fn number_rule(o: OptsV, gs: Seq<Seq<char>>, i: int) -> Option<(Seq<Type>, int)> {
    if !o.numbers || !(0 <= i < gs.len()) || !digit_char(first_char(gs, i)) {
        None
    } else if i > 0 && !sep_g(gs, i - 1) {
        None
    } else {
        let e = num_end(gs, i + 1);
        Some((rep_tags(e - i, Type::Number), e))
    }
}

/// One tokenizer step at position `i`: the rules in priority order, first
/// success wins; the fallback tags one grapheme as plain.
pub open spec fn scan_step(o: OptsV, gs: Seq<Seq<char>>, i: int) -> (Seq<Type>, int, Option<
    Seq<char>,
>) {
    match ml_rule(o, gs, i) {
        Some(r) => r,
        None => match char_rule(o, gs, i) {
            Some((t, ni)) => (t, ni, None),
            None => match comment_rule(o, gs, i) {
                Some((t, ni)) => (t, ni, None),
                None => match kw_rule(o.primary, gs, i) {
                    Some(l) => (rep_tags(l, Type::PrimaryKeywords), i + l, None),
                    None => match kw_rule(o.secondary, gs, i) {
                        Some(l) => (rep_tags(l, Type::SecondaryKeywords), i + l, None),
                        None => match string_rule(o, gs, i) {
                            Some((t, ni)) => (t, ni, None),
                            None => match number_rule(o, gs, i) {
                                Some((t, ni)) => (t, ni, None),
                                None => (seq![Type::Plain], i + 1, None),
                            },
                        },
                    },
                },
            },
        },
    }
}

/// Each step makes progress, stays within the line, and produces one tag
/// per consumed grapheme; a continuation is returned only at the line end.
proof fn lemma_scan_step_bounds(o: OptsV, gs: Seq<Seq<char>>, i: int)
    requires
        0 <= i < gs.len(),
    ensures
        ({
            let (t, ni, c) = scan_step(o, gs, i);
            i < ni <= gs.len() && t.len() == ni - i && (c is Some ==> ni == gs.len() && c->0.len()
                > 0)
        }),
{
    match ml_rule(o, gs, i) {
        Some(r) => {
            match o.multiline {
                Some(ps) => {
                    lemma_ml_pairs_bounds(ps, gs, i);
                },
                None => {},
            }
        },
        None => {
            if char_rule(o, gs, i) is Some {
            } else if comment_rule(o, gs, i) is Some {
            } else if kw_rule(o.primary, gs, i) is Some {
                lemma_kw_match_bounds(o.primary, gs, i);
            } else if kw_rule(o.secondary, gs, i) is Some {
                lemma_kw_match_bounds(o.secondary, gs, i);
            } else if string_rule(o, gs, i) is Some {
                match o.strings {
                    Some(ds) => {
                        lemma_str_delims_bounds(ds, gs, i);
                    },
                    None => {},
                }
            } else if number_rule(o, gs, i) is Some {
                lemma_num_end_bounds(gs, i + 1);
            } else {
            }
        },
    }
}

/// The tokenizer scan from position `i` to the line end: the tags of each
/// step in order, and the continuation if an unclosed multi-line comment
/// reaches the line end.
pub open spec fn scan(o: OptsV, gs: Seq<Seq<char>>, i: int) -> (Seq<Type>, Option<Seq<char>>)
    decreases gs.len() - i,
{
    if i < 0 || i >= gs.len() {
        (Seq::empty(), None)
    } else {
        let (t, ni, c) = scan_step(o, gs, i);
        if c is Some {
            (t, c)
        } else {
            let ni2 = if ni <= i {
                i + 1
            } else if ni > gs.len() {
                gs.len() as int
            } else {
                ni
            };
            let rest = scan(o, gs, ni2);
            (t + rest.0, rest.1)
        }
    }
}

/// The scan of a whole line with the incoming continuation threaded in:
/// when a continuation is pending, the line first runs as a multi-line
/// comment until the closing delimiter, or to the end.
pub open spec fn scan_with_cont(o: OptsV, gs: Seq<Seq<char>>, cont_in: Option<Seq<char>>) -> (
    Seq<Type>,
    Option<Seq<char>>,
) {
    match cont_in {
        None => scan(o, gs, 0),
        Some(d) => match find_fc(gs, d, 0) {
            Some(k) => {
                let rest = scan(o, gs, k + d.len());
                (rep_tags(k + d.len(), Type::MultilineComment) + rest.0, rest.1)
            },
            None => (rep_tags(gs.len() as int, Type::MultilineComment), Some(d)),
        },
    }
}

/// Tags `[a, b)` overwritten with one tag.
pub open spec fn write_range(tags: Seq<Type>, a: int, b: int, t: Type) -> Seq<Type> {
    Seq::new(
        tags.len(),
        |p: int|
            if a <= p < b {
                t
            } else {
                tags[p]
            },
    )
}

/// The search-match overlay: every greedy left-to-right occurrence of the
/// query graphemes is re-tagged as a match.
pub open spec fn overlay_match(
    gs: Seq<Seq<char>>,
    tags: Seq<Type>,
    qg: Seq<Seq<char>>,
    from: int,
) -> Seq<Type>
    decreases gs.len() - from,
{
    if qg.len() == 0 {
        tags
    } else {
        match first_match_from(gs, qg, from) {
            Some(k) => if from <= k && k + qg.len() <= gs.len() {
                overlay_match(gs, write_range(tags, k, k + qg.len(), Type::Match), qg, k + qg.len())
            } else {
                tags
            },
            None => tags,
        }
    }
}

proof fn lemma_first_match_bounds(gs: Seq<Seq<char>>, qg: Seq<Seq<char>>, from: int)
    ensures
        match first_match_from(gs, qg, from) {
            Some(k) => from <= k && 0 <= k && k + qg.len() <= gs.len(),
            None => true,
        },
    decreases gs.len() - from,
{
    if from + qg.len() > gs.len() {
    } else if gmatch(gs, qg, from) {
    } else {
        lemma_first_match_bounds(gs, qg, from + 1);
    }
}

/// The view of an optional continuation delimiter.
pub open spec fn cont_of(c: Option<String>) -> Option<Seq<char>> {
    match c {
        Some(s) => Some(s@),
        None => None,
    }
}

/// A scan from `i` produces one tag per remaining grapheme.
proof fn lemma_scan_len(o: OptsV, gs: Seq<Seq<char>>, i: int)
    requires
        0 <= i <= gs.len(),
    ensures
        scan(o, gs, i).0.len() == gs.len() - i,
    decreases gs.len() - i,
{
    if i >= gs.len() {
    } else {
        lemma_scan_step_bounds(o, gs, i);
        let (t, ni, c) = scan_step(o, gs, i);
        if c is Some {
        } else {
            lemma_scan_len(o, gs, ni);
        }
    }
}

/// The whole-line scan produces one tag per grapheme.
proof fn lemma_swc_len(o: OptsV, gs: Seq<Seq<char>>, cont_in: Option<Seq<char>>)
    ensures
        scan_with_cont(o, gs, cont_in).0.len() == gs.len(),
{
    match cont_in {
        None => {
            lemma_scan_len(o, gs, 0);
        },
        Some(d) => {
            lemma_find_fc_bounds(gs, d, 0);
            match find_fc(gs, d, 0) {
                Some(k) => {
                    lemma_scan_len(o, gs, k + d.len());
                },
                None => {},
            }
        },
    }
}

/// The match overlay keeps the tag array's length.
proof fn lemma_overlay_len(gs: Seq<Seq<char>>, tags: Seq<Type>, qg: Seq<Seq<char>>, from: int)
    ensures
        overlay_match(gs, tags, qg, from).len() == tags.len(),
    decreases gs.len() - from,
{
    if qg.len() == 0 {
    } else {
        match first_match_from(gs, qg, from) {
            Some(k) => {
                if from <= k && k + qg.len() <= gs.len() {
                    lemma_overlay_len(
                        gs,
                        write_range(tags, k, k + qg.len(), Type::Match),
                        qg,
                        k + qg.len(),
                    );
                }
            },
            None => {},
        }
    }
}

/// Whether position `p` lies in one of the selection spans.
pub open spec fn covered(spans: Seq<(usize, usize)>, p: int) -> bool {
    exists|si: int| 0 <= si < spans.len() && (#[trigger] spans[si]).0 <= p < spans[si].1
}

/// The selection overlay: every selected position is re-tagged, last, so
/// that selections take visual precedence.
pub open spec fn sel_overlay(tags: Seq<Type>, spans: Seq<(usize, usize)>) -> Seq<Type> {
    Seq::new(
        tags.len(),
        |p: int|
            if covered(spans, p) {
                Type::Selection
            } else {
                tags[p]
            },
    )
}

/// What a full highlight pass produces: the tokenizer scan with the
/// continuation threaded in, then the search-match overlay, then the
/// selection overlay.
pub open spec fn spec_highlight(
    o: OptsV,
    gs: Seq<Seq<char>>,
    wq: Seq<Seq<char>>,
    cont_in: Option<Seq<char>>,
    spans: Seq<(usize, usize)>,
) -> (Seq<Type>, Option<Seq<char>>) {
    let (t0, cont) = scan_with_cont(o, gs, cont_in);
    (sel_overlay(overlay_match(gs, t0, wq, 0), spans), cont)
}

impl Default for Row {
    /// An empty row.
    fn default() -> (r: Row)
        ensures
            r@ == Seq::<Seq<char>>::empty(),
            r.wf(),
            !r.spec_is_highlighted(),
            r.spec_selections() == Seq::<(usize, usize)>::empty(),
    {
        let r = Row {
            is_highlighted: false,
            graphemes: Vec::new(),
            highlighting: Vec::new(),
            selections: Vec::new(),
        };
        proof {
            assert(r@ =~= Seq::<Seq<char>>::empty());
        }
        r
    }
}

impl Row {
    /// The grapheme cluster at index `i`, as an owned string.
    pub fn grapheme_at(&self, i: usize) -> (r: String)
        requires
            i < self@.len(),
        ensures
            r@ == self@[i as int],
    {
        proof {
            assert(self@[i as int] == self.graphemes@[i as int]@);
        }
        self.graphemes[i].clone()
    }

    /// The text of the clamped grapheme range `[a, b)`.
    pub fn text_range(&self, a: usize, b: usize) -> (r: String)
        requires
            a <= b,
        ensures
            r@ == span_text(self@, (a, b)),
    {
        broadcast use Seq::lemma_flatten_push;

        let n = self.graphemes.len();
        let lo = if a <= n {
            a
        } else {
            n
        };
        let hi = if b <= n {
            b
        } else {
            n
        };
        let mut r = String::new();
        let mut j = lo;
        proof {
            assert(self@.subrange(lo as int, lo as int) =~= Seq::<Seq<char>>::empty());
        }
        while j < hi
            invariant
                lo <= j <= hi <= n,
                n == self@.len(),
                r@ == self@.subrange(lo as int, j as int).flatten(),
            decreases hi - j,
        {
            r.append(self.graphemes[j].as_str());
            proof {
                assert(self@[j as int] == self.graphemes@[j as int]@);
                assert(self@.subrange(lo as int, j + 1) =~= self@.subrange(
                    lo as int,
                    j as int,
                ).push(self@[j as int]));
                self@.subrange(lo as int, j as int).lemma_flatten_push(self@[j as int]);
            }
            j += 1;
        }
        r
    }

    /// The first character of the grapheme at `i`.
    fn fc_at(&self, i: usize) -> (c: char)
        requires
            self.wf(),
            i < self@.len(),
        ensures
            c == first_char(self@, i as int),
    {
        proof {
            assert(self@[i as int] == self.graphemes@[i as int]@);
            assert(self@[i as int].len() > 0);
        }
        gr_first(&self.graphemes[i])
    }

    /// Decides whether the characters of `pat` appear as the first
    /// characters of the graphemes starting at `i`.
    fn match_fc_at(&self, pat: &str, i: usize) -> (r: bool)
        requires
            self.wf(),
        ensures
            r == matches_fc(self@, i as int, pat@),
    {
        let pn = pat.unicode_len();
        let n = self.graphemes.len();
        if i > n || pn > n - i {
            return false;
        }
        for j in 0..pn
            invariant
                pn == pat@.len(),
                n == self@.len(),
                i + pn <= n,
                self.wf(),
                forall|j2: int| 0 <= j2 < j ==> first_char(self@, i + j2) == #[trigger] pat@[j2],
            decreases pn - j,
        {
            let c = self.fc_at(i + j);
            if c != pat.get_char(j) {
                return false;
            }
        }
        true
    }

    /// Appends `n` copies of one tag to the highlight array.
    fn push_tags(&mut self, n: usize, t: Type)
        ensures
            final(self)@ == old(self)@,
            final(self).spec_selections() == old(self).spec_selections(),
            final(self).spec_is_highlighted() == old(self).spec_is_highlighted(),
            final(self).spec_highlighting() == old(self).spec_highlighting() + rep_tags(
                n as int,
                t,
            ),
    {
        proof {
            assert(self.highlighting@ =~= old(self).highlighting@ + rep_tags(0, t));
        }
        for j in 0..n
            invariant
                self.highlighting@ == old(self).highlighting@ + rep_tags(j as int, t),
                self@ == old(self)@,
                self.selections@ == old(self).selections@,
                self.is_highlighted == old(self).is_highlighted,
            decreases n - j,
        {
            self.highlighting.push(t);
            proof {
                assert(self.highlighting@ =~= old(self).highlighting@ + rep_tags(j + 1, t));
            }
        }
    }

    /// Tags `substring.len()` graphemes with `hl_type` if the substring's
    /// characters match at the current index, advancing the index past the
    /// match.
    pub fn highlight_str(&mut self, index: &mut usize, substring: &str, hl_type: Type) -> (r: bool)
        requires
            old(self).wf(),
        ensures
            final(self).wf(),
            final(self)@ == old(self)@,
            final(self).spec_selections() == old(self).spec_selections(),
            !final(self).spec_is_highlighted(),
            r == (substring@.len() > 0 && matches_fc(old(self)@, *old(index) as int, substring@)),
            r ==> final(self).spec_highlighting() == old(self).spec_highlighting() + rep_tags(
                substring@.len() as int,
                hl_type,
            ) && *final(index) == *old(index) + substring@.len(),
            !r ==> final(self).spec_highlighting() == old(self).spec_highlighting() && *final(index) == *old(index),
    {
        self.is_highlighted = false;
        let sn = substring.unicode_len();
        if sn == 0 {
            return false;
        }
        if !self.match_fc_at(substring, *index) {
            return false;
        }
        let n = self.graphemes.len();
        self.push_tags(sn, hl_type);
        *index = *index + sn;
        true
    }

    /// Tags the first keyword of the list that matches at the current
    /// index on whole-word boundaries.
    pub fn highlight_keywords(
        &mut self,
        index: &mut usize,
        keywords: &Vec<String>,
        hl_type: Type,
    ) -> (r: bool)
        requires
            old(self).wf(),
            *old(index) <= old(self)@.len(),
        ensures
            final(self).wf(),
            final(self)@ == old(self)@,
            final(self).spec_selections() == old(self).spec_selections(),
            !final(self).spec_is_highlighted(),
            ({
                let res = kw_rule(keywords.deep_view(), old(self)@, *old(index) as int);
                match res {
                    Some(l) => r && final(self).spec_highlighting() == old(self).spec_highlighting() + rep_tags(l, hl_type) && *final(index) as int == *old(index) + l,
                    None => !r && final(self).spec_highlighting() == old(self).spec_highlighting()
                        && *final(index) == *old(index),
                }
            }),
    {
        self.is_highlighted = false;
        let i = *index;
        if i > 0 && !is_word_separator(self.fc_at(i - 1)) {
            return false;
        }
        let m = keywords.len();
        let n = self.graphemes.len();
        let ghost kws = keywords.deep_view();
        proof {
            assert(kws.skip(0) =~= kws);
        }
        for w_idx in 0..m
            invariant
                kws == keywords.deep_view(),
                m == kws.len(),
                n == self@.len(),
                i == *index,
                i == *old(index),
                i <= n,
                self.wf(),
                !self.is_highlighted,
                self@ == old(self)@,
                self.selections@ == old(self).selections@,
                self.highlighting@ == old(self).highlighting@,
                kw_match_len(kws, self@, i as int) == kw_match_len(
                    kws.skip(w_idx as int),
                    self@,
                    i as int,
                ),
                kw_pre_ok(self@, i as int),
            decreases m - w_idx,
        {
            proof {
                assert(kws.skip(w_idx as int).drop_first() =~= kws.skip(w_idx + 1));
                assert(kws.skip(w_idx as int)[0] == kws[w_idx as int]);
                assert(kws[w_idx as int] == keywords@[w_idx as int]@);
            }
            let w = &keywords[w_idx];
            let wn = w.as_str().unicode_len();
            let mut boundary_bad = false;
            if wn < n - i {
                if !is_word_separator(self.fc_at(i + wn)) {
                    boundary_bad = true;
                }
            }
            if !boundary_bad {
                if self.highlight_str(index, w.as_str(), hl_type) {
                    proof {
                        assert(wn == kws[w_idx as int].len());
                        assert(matches_fc(self@, i as int, kws[w_idx as int]));
                        assert(kw_match_len(kws.skip(w_idx as int), self@, i as int) == Some(
                            wn as int,
                        ));
                        assert(kw_rule(kws, old(self)@, i as int) == Some(wn as int));
                        assert(self.highlighting@ == old(self).highlighting@ + rep_tags(
                            wn as int,
                            hl_type,
                        ));
                        assert(*index == i + wn);
                    }
                    return true;
                }
            }
        }
        proof {
            assert(kws.skip(m as int) =~= Seq::<Seq<char>>::empty());
        }
        false
    }

    /// The primary-keyword rule.
    fn highlight_primary_keywords(&mut self, index: &mut usize, opts: &HighlightingOptions) -> (r:
        bool)
        requires
            old(self).wf(),
            *old(index) <= old(self)@.len(),
        ensures
            final(self).wf(),
            final(self)@ == old(self)@,
            final(self).spec_selections() == old(self).spec_selections(),
            !final(self).spec_is_highlighted(),
            ({
                let res = kw_rule(opts@.primary, old(self)@, *old(index) as int);
                match res {
                    Some(l) => r && final(self).spec_highlighting() == old(self).spec_highlighting() + rep_tags(l, Type::PrimaryKeywords) && *final(index) as int == *old(index) + l,
                    None => !r && final(self).spec_highlighting() == old(self).spec_highlighting()
                        && *final(index) == *old(index),
                }
            }),
    {
        self.highlight_keywords(index, opts.primary_keywords(), Type::PrimaryKeywords)
    }

    /// The secondary-keyword rule.
    fn highlight_secondary_keywords(&mut self, index: &mut usize, opts: &HighlightingOptions) -> (r:
        bool)
        requires
            old(self).wf(),
            *old(index) <= old(self)@.len(),
        ensures
            final(self).wf(),
            final(self)@ == old(self)@,
            final(self).spec_selections() == old(self).spec_selections(),
            !final(self).spec_is_highlighted(),
            ({
                let res = kw_rule(opts@.secondary, old(self)@, *old(index) as int);
                match res {
                    Some(l) => r && final(self).spec_highlighting() == old(self).spec_highlighting() + rep_tags(l, Type::SecondaryKeywords) && *final(index) as int == *old(index) + l,
                    None => !r && final(self).spec_highlighting() == old(self).spec_highlighting()
                        && *final(index) == *old(index),
                }
            }),
    {
        self.highlight_keywords(index, opts.secondary_keywords(), Type::SecondaryKeywords)
    }

    /// The character-literal rule at the current index.
    pub fn highlight_char(&mut self, index: &mut usize, opts: &HighlightingOptions) -> (r: bool)
        requires
            old(self).wf(),
        ensures
            final(self).wf(),
            final(self)@ == old(self)@,
            final(self).spec_selections() == old(self).spec_selections(),
            !final(self).spec_is_highlighted(),
            ({
                let res = char_rule(opts@, old(self)@, *old(index) as int);
                match res {
                    Some((t, ni)) => r && final(self).spec_highlighting() == old(self).spec_highlighting() + t && *final(index) as int == ni,
                    None => !r && final(self).spec_highlighting() == old(self).spec_highlighting()
                        && *final(index) == *old(index),
                }
            }),
    {
        self.is_highlighted = false;
        let i = *index;
        let n = self.graphemes.len();
        if !opts.characters() {
            return false;
        }
        if i >= n {
            return false;
        }
        if self.fc_at(i) != '\'' {
            return false;
        }
        if i + 1 >= n {
            return false;
        }
        let off: usize = if self.fc_at(i + 1) == '\\' {
            3
        } else {
            2
        };
        if off >= n - i {
            return false;
        }
        let closing = i + off;
        if self.fc_at(closing) != '\'' {
            return false;
        }
        self.push_tags(off + 1, Type::Character);
        *index = closing + 1;
        true
    }

    /// The single-line comment rule at the current index.
    pub fn highlight_comment(&mut self, index: &mut usize, opts: &HighlightingOptions) -> (r: bool)
        requires
            old(self).wf(),
        ensures
            final(self).wf(),
            final(self)@ == old(self)@,
            final(self).spec_selections() == old(self).spec_selections(),
            !final(self).spec_is_highlighted(),
            ({
                let res = comment_rule(opts@, old(self)@, *old(index) as int);
                match res {
                    Some((t, ni)) => r && final(self).spec_highlighting() == old(self).spec_highlighting() + t && *final(index) as int == ni,
                    None => !r && final(self).spec_highlighting() == old(self).spec_highlighting()
                        && *final(index) == *old(index),
                }
            }),
    {
        self.is_highlighted = false;
        match opts.comments() {
            None => false,
            Some(pre) => {
                let i = *index;
                if self.match_fc_at(pre.as_str(), i) {
                    let n = self.graphemes.len();
                    self.push_tags(n - i, Type::Comment);
                    *index = n;
                    true
                } else {
                    false
                }
            },
        }
    }

    /// The multi-line comment rule at the current index. Returns `None`
    /// when no opening delimiter matches; an empty string when the comment
    /// closes on this line; the closing delimiter when it does not.
    pub fn highlight_multiline_comment(&mut self, index: &mut usize, opts: &HighlightingOptions) -> (r:
        Option<String>)
        requires
            old(self).wf(),
        ensures
            final(self).wf(),
            final(self)@ == old(self)@,
            final(self).spec_selections() == old(self).spec_selections(),
            !final(self).spec_is_highlighted(),
            ({
                let res = ml_rule(opts@, old(self)@, *old(index) as int);
                match res {
                    Some((t, ni, c)) => (match r {
                        Some(s) => final(self).spec_highlighting() == old(self).spec_highlighting()
                            + t && *final(index) as int == ni && (match c {
                            Some(cl) => s@ == cl,
                            None => s@.len() == 0,
                        }),
                        None => false,
                    }),
                    None => r is None && final(self).spec_highlighting() == old(self).spec_highlighting() && *final(index) == *old(index),
                }
            }),
    {
        self.is_highlighted = false;
        let i = *index;
        match opts.multiline_comments() {
            None => None,
            Some(pairs) => {
                let pn = pairs.len();
                let ghost pv = pairs.deep_view();
                proof {
                    assert(pv.skip(0) =~= pv);
                }
                for p in 0..pn
                    invariant
                        pv == pairs.deep_view(),
                        opts@.multiline == Some(pv),
                        pn == pv.len(),
                        i == *index,
                        i == *old(index),
                        self.wf(),
                        !self.is_highlighted,
                        self@ == old(self)@,
                        self.selections@ == old(self).selections@,
                        self.highlighting@ == old(self).highlighting@,
                        ml_pairs_rule(pv, self@, i as int) == ml_pairs_rule(
                            pv.skip(p as int),
                            self@,
                            i as int,
                        ),
                    decreases pn - p,
                {
                    proof {
                        assert(pv.skip(p as int).drop_first() =~= pv.skip(p + 1));
                        assert(pv.skip(p as int)[0] == pv[p as int]);
                        assert(pv[p as int] == (pairs@[p as int].0@, pairs@[p as int].1@));
                    }
                    let op = &pairs[p].0;
                    let cl = &pairs[p].1;
                    let opn = op.as_str().unicode_len();
                    if opn > 0 && self.match_fc_at(op.as_str(), i) {
                        let n = self.graphemes.len();
                        let cln = cl.as_str().unicode_len();
                        let mut j = i + opn;
                        while j <= n && cln <= n - j && !self.match_fc_at(cl.as_str(), j)
                            invariant
                                i + opn <= j <= n,
                                n == self@.len(),
                                cln == cl@.len(),
                                self.wf(),
                                find_fc(self@, cl@, (i + opn) as int) == find_fc(
                                    self@,
                                    cl@,
                                    j as int,
                                ),
                            decreases n - j,
                        {
                            j += 1;
                        }
                        if j <= n && cln <= n - j {
                            let closing = j + cln;
                            self.push_tags(closing - i, Type::MultilineComment);
                            *index = closing;
                            proof {
                                assert(find_fc(self@, cl@, (i + opn) as int) == Some(j as int));
                            }
                            return Some(String::new());
                        } else {
                            proof {
                                assert(find_fc(self@, cl@, j as int) is None);
                            }
                            self.push_tags(n - i, Type::MultilineComment);
                            *index = n;
                            return Some(cl.clone());
                        }
                    }
                }
                proof {
                    assert(pv.skip(pn as int) =~= Seq::<(Seq<char>, Seq<char>)>::empty());
                }
                None
            },
        }
    }

    /// The first unescaped closing quote after the opening quote at `i`.
    fn scan_str_close(&self, d: char, i: usize) -> (r: Option<usize>)
        requires
            self.wf(),
            i < self@.len(),
        ensures
            ({
                let s = str_close_from(self@, d, i as int, (i + 1) as int);
                match r {
                    Some(j) => s == Some(j as int) && i < j < self@.len(),
                    None => s is None,
                }
            }),
    {
        let n = self.graphemes.len();
        let mut j = i + 1;
        while j < n
            invariant
                i + 1 <= j,
                i < n,
                n == self@.len(),
                self.wf(),
                str_close_from(self@, d, i as int, (i + 1) as int) == str_close_from(
                    self@,
                    d,
                    i as int,
                    j as int,
                ),
            decreases n - j,
        {
            let prev_ok = if j - 1 == i {
                d != '\\'
            } else {
                self.fc_at(j - 1) != '\\'
            };
            if self.fc_at(j) == d && prev_ok {
                return Some(j);
            }
            j += 1;
        }
        None
    }

    /// The string-literal rule at the current index.
    pub fn highlight_string(&mut self, index: &mut usize, opts: &HighlightingOptions) -> (r: bool)
        requires
            old(self).wf(),
        ensures
            final(self).wf(),
            final(self)@ == old(self)@,
            final(self).spec_selections() == old(self).spec_selections(),
            !final(self).spec_is_highlighted(),
            ({
                let res = string_rule(opts@, old(self)@, *old(index) as int);
                match res {
                    Some((t, ni)) => r && final(self).spec_highlighting() == old(self).spec_highlighting() + t && *final(index) as int == ni,
                    None => !r && final(self).spec_highlighting() == old(self).spec_highlighting()
                        && *final(index) == *old(index),
                }
            }),
    {
        self.is_highlighted = false;
        let i = *index;
        let n = self.graphemes.len();
        match opts.strings() {
            None => false,
            Some(ds) => {
                if i >= n {
                    return false;
                }
                let dn = ds.len();
                proof {
                    assert(ds@.skip(0) =~= ds@);
                }
                for di in 0..dn
                    invariant
                        dn == ds@.len(),
                        opts@.strings == Some(ds@),
                        i == *index,
                        i == *old(index),
                        i < n,
                        n == self@.len(),
                        self.wf(),
                        !self.is_highlighted,
                        self@ == old(self)@,
                        self.selections@ == old(self).selections@,
                        self.highlighting@ == old(self).highlighting@,
                        str_delims_rule(ds@, self@, i as int) == str_delims_rule(
                            ds@.skip(di as int),
                            self@,
                            i as int,
                        ),
                    decreases dn - di,
                {
                    proof {
                        assert(ds@.skip(di as int).drop_first() =~= ds@.skip(di + 1));
                        assert(ds@.skip(di as int)[0] == ds@[di as int]);
                    }
                    let d = ds[di];
                    if self.fc_at(i) == d {
                        match self.scan_str_close(d, i) {
                            Some(j) => {
                                self.push_tags(j - i + 1, Type::String);
                                *index = j + 1;
                                return true;
                            },
                            None => {
                                self.push_tags(n - i, Type::String);
                                *index = n;
                                return true;
                            },
                        }
                    }
                }
                proof {
                    assert(ds@.skip(dn as int) =~= Seq::<char>::empty());
                }
                false
            },
        }
    }

    /// The numeric-literal rule at the current index.
    pub fn highlight_number(&mut self, index: &mut usize, opts: &HighlightingOptions) -> (r: bool)
        requires
            old(self).wf(),
            *old(index) <= old(self)@.len(),
        ensures
            final(self).wf(),
            final(self)@ == old(self)@,
            final(self).spec_selections() == old(self).spec_selections(),
            !final(self).spec_is_highlighted(),
            ({
                let res = number_rule(opts@, old(self)@, *old(index) as int);
                match res {
                    Some((t, ni)) => r && final(self).spec_highlighting() == old(self).spec_highlighting() + t && *final(index) as int == ni,
                    None => !r && final(self).spec_highlighting() == old(self).spec_highlighting()
                        && *final(index) == *old(index),
                }
            }),
    {
        self.is_highlighted = false;
        let i = *index;
        let n = self.graphemes.len();
        if !opts.numbers() {
            return false;
        }
        if i >= n {
            return false;
        }
        if !is_ascii_digit(self.fc_at(i)) {
            return false;
        }
        if i > 0 && !is_word_separator(self.fc_at(i - 1)) {
            return false;
        }
        let mut j = i + 1;
        while j < n && (self.fc_at(j) == '.' || is_ascii_digit(self.fc_at(j)))
            invariant
                i + 1 <= j <= n,
                n == self@.len(),
                self.wf(),
                num_end(self@, (i + 1) as int) == num_end(self@, j as int),
            decreases n - j,
        {
            j += 1;
        }
        proof {
            assert(num_end(self@, j as int) == j as int);
        }
        self.push_tags(j - i, Type::Number);
        *index = j;
        true
    }
}

impl Row {
    /// Re-tags every greedy occurrence of the search word as a match.
    fn highlight_match(&mut self, word: &Option<String>)
        requires
            old(self).wf(),
        ensures
            final(self).wf(),
            final(self)@ == old(self)@,
            final(self).spec_selections() == old(self).spec_selections(),
            final(self).spec_is_highlighted() == old(self).spec_is_highlighted(),
            final(self).spec_highlighting() == overlay_match(
                old(self)@,
                old(self).spec_highlighting(),
                (match word {
                    Some(w) => graphemes_of(w@),
                    None => Seq::<Seq<char>>::empty(),
                }),
                0,
            ),
    {
        match word {
            None => {},
            Some(w) => {
                let qv = split_graphemes(w.as_str());
                let qlen = qv.len();
                let ghost qg = qv.deep_view();
                if qlen == 0 {
                    return ;
                }
                let n = self.graphemes.len();
                let mut idx: usize = 0;
                let mut go = true;
                let ghost target = overlay_match(self@, self.highlighting@, qg, 0);
                while go && idx <= n
                    invariant
                        qg == qv.deep_view(),
                        qg == graphemes_of(w@),
                        qlen == qg.len(),
                        qlen > 0,
                        idx <= n + 1,
                        n == self@.len(),
                        self.wf(),
                        self@ == old(self)@,
                        self.selections@ == old(self).selections@,
                        self.is_highlighted == old(self).is_highlighted,
                        go ==> target == overlay_match(self@, self.highlighting@, qg, idx as int),
                        !go ==> target == self.highlighting@,
                        target == overlay_match(old(self)@, old(self).highlighting@, qg, 0),
                    decreases n + 1 - idx + (if go {
                        1int
                    } else {
                        0int
                    }),
                {
                    match self.find(w.as_str(), idx, SearchDirection::Forward) {
                        Some(k) => {
                            proof {
                                lemma_first_match_bounds(self@, qg, idx as int);
                            }
                            let e = k + qlen;
                            let ghost pre_tags = self.highlighting@;
                            let mut t = k;
                            proof {
                                assert(self.highlighting@ =~= write_range(
                                    pre_tags,
                                    k as int,
                                    k as int,
                                    Type::Match,
                                ));
                            }
                            while t < e
                                invariant
                                    k <= t <= e,
                                    e == k + qlen,
                                    self.highlighting@ == write_range(
                                        pre_tags,
                                        k as int,
                                        t as int,
                                        Type::Match,
                                    ),
                                    self@ == old(self)@,
                                    self.selections@ == old(self).selections@,
                                    self.is_highlighted == old(self).is_highlighted,
                                    self.wf(),
                                decreases e - t,
                            {
                                if t < self.highlighting.len() {
                                    self.highlighting.set(t, Type::Match);
                                }
                                proof {
                                    assert(self.highlighting@ =~= write_range(
                                        pre_tags,
                                        k as int,
                                        t + 1,
                                        Type::Match,
                                    ));
                                }
                                t += 1;
                            }
                            proof {
                                assert(overlay_match(self@, pre_tags, qg, idx as int)
                                    == overlay_match(
                                    self@,
                                    write_range(pre_tags, k as int, k + qlen, Type::Match),
                                    qg,
                                    k + qlen,
                                ));
                            }
                            idx = e;
                        },
                        None => {
                            proof {
                                assert(overlay_match(self@, self.highlighting@, qg, idx as int)
                                    == self.highlighting@);
                            }
                            go = false;
                        },
                    }
                }
                proof {
                    if go {
                        assert(overlay_match(self@, self.highlighting@, qg, idx as int)
                            == self.highlighting@);
                    }
                }
            },
        }
    }

    /// Re-tags every selected position, taking visual precedence.
    fn highlight_selection(&mut self)
        requires
            old(self).wf(),
        ensures
            final(self).wf(),
            final(self)@ == old(self)@,
            final(self).spec_selections() == old(self).spec_selections(),
            final(self).spec_is_highlighted() == old(self).spec_is_highlighted(),
            final(self).spec_highlighting() == sel_overlay(
                old(self).spec_highlighting(),
                old(self).spec_selections(),
            ),
    {
        let m = self.selections.len();
        let ghost spans = self.selections@;
        let ghost pre = self.highlighting@;
        proof {
            assert(self.highlighting@ =~= Seq::new(
                pre.len(),
                |q: int|
                    if covered(spans.take(0), q) {
                        Type::Selection
                    } else {
                        pre[q]
                    },
            ));
        }
        for si in 0..m
            invariant
                spans == self.selections@,
                spans == old(self).selections@,
                pre == old(self).highlighting@,
                m == spans.len(),
                self@ == old(self)@,
                self.is_highlighted == old(self).is_highlighted,
                self.wf(),
                self.highlighting@ == Seq::new(
                    pre.len(),
                    |q: int|
                        if covered(spans.take(si as int), q) {
                            Type::Selection
                        } else {
                            pre[q]
                        },
                ),
            decreases m - si,
        {
            let (s, e) = self.selections[si];
            let mut p = s;
            proof {
                assert(self.highlighting@ =~= Seq::new(
                    pre.len(),
                    |q: int|
                        if covered(spans.take(si as int), q) || (s <= q < p) {
                            Type::Selection
                        } else {
                            pre[q]
                        },
                ));
            }
            while p < e
                invariant
                    s <= p <= e,
                    si < m,
                    m == spans.len(),
                    spans == self.selections@,
                    spans[si as int] == (s, e),
                    self@ == old(self)@,
                    self.is_highlighted == old(self).is_highlighted,
                    self.wf(),
                    pre.len() == self.highlighting@.len(),
                    self.highlighting@ == Seq::new(
                        pre.len(),
                        |q: int|
                            if covered(spans.take(si as int), q) || (s <= q < p) {
                                Type::Selection
                            } else {
                                pre[q]
                            },
                    ),
                decreases e - p,
            {
                if p < self.highlighting.len() {
                    self.highlighting.set(p, Type::Selection);
                }
                proof {
                    assert(self.highlighting@ =~= Seq::new(
                        pre.len(),
                        |q: int|
                            if covered(spans.take(si as int), q) || (s <= q < p + 1) {
                                Type::Selection
                            } else {
                                pre[q]
                            },
                    ));
                }
                p += 1;
            }
            proof {
                assert forall|q: int| 0 <= q < pre.len() implies (covered(spans.take(si + 1), q)
                    == (covered(spans.take(si as int), q) || (s <= q < p))) by {
                    if covered(spans.take(si as int), q) {
                        let wi = choose|wi: int|
                            0 <= wi < spans.take(si as int).len() && (#[trigger] spans.take(
                                si as int,
                            )[wi]).0 <= q < spans.take(si as int)[wi].1;
                        assert(spans.take(si + 1)[wi] == spans.take(si as int)[wi]);
                        assert(covered(spans.take(si + 1), q));
                    }
                    if s <= q < p {
                        assert(spans.take(si + 1)[si as int] == (s, e));
                        assert(covered(spans.take(si + 1), q));
                    }
                    if covered(spans.take(si + 1), q) {
                        let wi = choose|wi: int|
                            0 <= wi < spans.take(si + 1).len() && (#[trigger] spans.take(si + 1)[wi]).0
                                <= q < spans.take(si + 1)[wi].1;
                        if wi < si {
                            assert(spans.take(si as int)[wi] == spans.take(si + 1)[wi]);
                            assert(covered(spans.take(si as int), q));
                        } else {
                            assert(spans.take(si + 1)[wi] == (s, e));
                        }
                    }
                }
                assert forall|q: int| 0 <= q < pre.len() implies #[trigger] self.highlighting@[q]
                    == (if covered(spans.take(si + 1), q) {
                    Type::Selection
                } else {
                    pre[q]
                }) by {
                    assert(self.highlighting@[q] == (if covered(spans.take(si as int), q) || (s
                        <= q < p) {
                        Type::Selection
                    } else {
                        pre[q]
                    }));
                    assert(covered(spans.take(si + 1), q) == (covered(spans.take(si as int), q)
                        || (s <= q < p)));
                }
                assert(self.highlighting@ =~= Seq::new(
                    pre.len(),
                    |q: int|
                        if covered(spans.take(si + 1), q) {
                            Type::Selection
                        } else {
                            pre[q]
                        },
                ));
            }
        }
        proof {
            assert(spans.take(m as int) =~= spans);
            assert(self.highlighting@ =~= sel_overlay(pre, spans));
        }
    }

    /// Computes the highlighting of every grapheme in this row. When the
    /// cached highlighting is valid and no search word is active, this is a
    /// no-op that leaves the continuation unchanged. Otherwise the
    /// tokenizer runs with the incoming continuation threaded in, then the
    /// search-match and selection overlays; the row is marked valid unless
    /// an unclosed multi-line comment leaves a continuation.
    pub fn highlight(
        &mut self,
        opts: &HighlightingOptions,
        word: &Option<String>,
        look_for_multiline_close: &mut Option<String>,
    )
        requires
            old(self).wf(),
        ensures
            final(self).wf(),
            final(self)@ == old(self)@,
            final(self).spec_selections() == old(self).spec_selections(),
            old(self).spec_is_highlighted() && word is None ==> *final(self) == *old(self)
                && *final(look_for_multiline_close) == *old(look_for_multiline_close),
            !(old(self).spec_is_highlighted() && word is None) ==> ({
                let res = spec_highlight(
                    opts@,
                    old(self)@,
                    (match word {
                        Some(w) => graphemes_of(w@),
                        None => Seq::<Seq<char>>::empty(),
                    }),
                    cont_of(*old(look_for_multiline_close)),
                    old(self).spec_selections(),
                );
                &&& final(self).spec_highlighting() == res.0
                &&& cont_of(*final(look_for_multiline_close)) == res.1
                &&& final(self).spec_is_highlighted() == (res.1 is None)
            }),
    {
        if self.is_highlighted && word.is_none() {
            return ;
        }
        self.highlighting = Vec::new();
        self.is_highlighted = false;
        let n = self.graphemes.len();
        let mut index: usize = 0;
        let ghost o = opts@;
        let ghost gs = self@;
        let ghost cont_in = cont_of(*look_for_multiline_close);
        let ghost swc = scan_with_cont(o, gs, cont_in);
        if look_for_multiline_close.is_some() {
            let cl = look_for_multiline_close.as_ref().unwrap();
            let ghost dv = cl@;
            let cln = cl.as_str().unicode_len();
            let mut j: usize = 0;
            while j <= n && cln <= n - j && !self.match_fc_at(cl.as_str(), j)
                invariant
                    j <= n + 1,
                    n == self@.len(),
                    cln == dv.len(),
                    dv == cl@,
                    self.wf(),
                    find_fc(self@, dv, 0) == find_fc(self@, dv, j as int),
                decreases n + 1 - j,
            {
                j += 1;
            }
            let found = j <= n && cln <= n - j;
            let closing = if found {
                j + cln
            } else {
                n
            };
            proof {
                if found {
                    assert(find_fc(gs, dv, 0) == Some(j as int));
                } else {
                    assert(find_fc(gs, dv, j as int) is None);
                }
            }
            self.push_tags(closing, Type::MultilineComment);
            index = closing;
            if found {
                *look_for_multiline_close = None;
            }
        }
        proof {
            assert(self.highlighting@ =~= Seq::<Type>::empty() + self.highlighting@);
            if cont_in is None {
                assert(self.highlighting@ =~= Seq::<Type>::empty());
            }
        }
        while index < n
            invariant
                n == self@.len(),
                self@ == gs,
                gs == old(self)@,
                self.selections@ == old(self).selections@,
                !self.is_highlighted,
                self.wf(),
                o == opts@,
                index <= n,
                swc == scan_with_cont(o, gs, cont_in),
                (match cont_of(*look_for_multiline_close) {
                    Some(c) => swc.1 == Some(c) && index == n && swc.0 == self.highlighting@,
                    None => swc.0 == self.highlighting@ + scan(o, gs, index as int).0 && swc.1
                        == scan(o, gs, index as int).1,
                }),
            decreases n - index,
        {
            let ghost prev_i = index;
            let ghost prev_tags = self.highlighting@;
            proof {
                lemma_scan_step_bounds(o, gs, index as int);
            }
            match self.highlight_multiline_comment(&mut index, opts) {
                Some(s) => {
                    if s.as_str().is_empty() {
                        *look_for_multiline_close = None;
                    } else {
                        *look_for_multiline_close = Some(s);
                    }
                    proof {
                        let (t, ni, c) = scan_step(o, gs, prev_i as int);
                        if c is None {
                            assert(scan(o, gs, prev_i as int) == (
                                t + scan(o, gs, ni).0,
                                scan(o, gs, ni).1,
                            ));
                        }
                    }
                },
                None => {
                    if self.highlight_char(&mut index, opts) {
                    } else if self.highlight_comment(&mut index, opts) {
                    } else if self.highlight_primary_keywords(&mut index, opts) {
                    } else if self.highlight_secondary_keywords(&mut index, opts) {
                    } else if self.highlight_string(&mut index, opts) {
                    } else if self.highlight_number(&mut index, opts) {
                    } else {
                        self.push_tags(1, Type::Plain);
                        index = index + 1;
                        proof {
                            assert(self.highlighting@ =~= prev_tags + seq![Type::Plain]);
                        }
                    }
                    proof {
                        let (t, ni, c) = scan_step(o, gs, prev_i as int);
                        assert(c is None);
                        assert(scan(o, gs, prev_i as int) == (
                            t + scan(o, gs, ni).0,
                            scan(o, gs, ni).1,
                        ));
                    }
                },
            }
        }
        proof {
            if cont_of(*look_for_multiline_close) is None {
                assert(scan(o, gs, n as int).0 =~= Seq::<Type>::empty());
                assert(self.highlighting@ =~= self.highlighting@ + scan(o, gs, n as int).0);
            }
        }
        self.highlight_match(word);
        self.highlight_selection();
        proof {
            let wq = (match word {
                Some(w) => graphemes_of(w@),
                None => Seq::<Seq<char>>::empty(),
            });
            lemma_swc_len(o, gs, cont_in);
            lemma_overlay_len(gs, swc.0, wq, 0);
        }
        if look_for_multiline_close.is_some() {
        } else {
            self.is_highlighted = true;
        }
    }
}

} // verus!
