use vstd::prelude::*;
use vstd::string::StrSliceExecFns;
use vstd::string::StringExecFns;

use crate::filetype::plain_opts;
use crate::filetype::spec_filetype_name;
use crate::filetype::spec_filetype_opts;
use crate::filetype::FileType;
use crate::filetype::OptsV;
use crate::graphemes::char_to_grapheme;
use crate::graphemes::graphemes_of;
use crate::graphemes::imin;
use crate::position::Position;
use crate::position::SearchDirection;
use crate::row::apply_spans;
use crate::row::insert_span_sorted;
use crate::row::leading_spaces;
use crate::row::merge_spans;
use crate::row::opt_str_view;
use crate::row::rep_graphemes;
use crate::row::span_text;
use crate::row::spec_highlight;
use crate::row::spec_row_find;
use crate::row::spec_row_word;
use crate::row::unhl_of;
use crate::row::Row;

verus! {

/// The default number of spaces a tab stands for when a file gives no
/// usable indentation evidence.
pub const DEFAULT_SPACES_PER_TAB: usize = 4;

/// The document being edited: an ordered list of rows, the backing
/// filename, a dirty flag, the file type that selects highlighting
/// options, the configured tab width, and the set of row indices that
/// currently carry pending selections.
pub struct Document {
    /// The filename of this document.
    pub filename: Option<String>,
    rows: Vec<Row>,
    dirty: bool,
    file_type: FileType,
    spaces_per_tab: usize,
    selections: Vec<usize>,
}

/// Strictly ascending row indices.
pub open spec fn idxs_sorted(s: Seq<usize>) -> bool {
    forall|i: int, j: int| 0 <= i < j < s.len() ==> (#[trigger] s[i]) < (#[trigger] s[j])
}

impl Document {
    /// The rows of the document.
    pub closed spec fn spec_rows(&self) -> Seq<Row> {
        self.rows@
    }

    /// The grapheme content of every row.
    pub open spec fn spec_lines(&self) -> Seq<Seq<Seq<char>>> {
        Seq::new(self.spec_rows().len(), |i: int| self.spec_rows()[i]@)
    }

    /// The view of the backing filename.
    pub closed spec fn spec_filename(&self) -> Option<Seq<char>> {
        match self.filename {
            Some(s) => Some(s@),
            None => None,
        }
    }

    /// Whether the document has unsaved changes.
    pub closed spec fn spec_dirty(&self) -> bool {
        self.dirty
    }

    /// The configured tab width.
    pub closed spec fn spec_spaces_per_tab(&self) -> usize {
        self.spaces_per_tab
    }

    /// The highlighting options in force.
    pub closed spec fn spec_options(&self) -> OptsV {
        self.file_type.spec_options()
    }

    /// The name of the document's file type.
    pub closed spec fn spec_file_type_name(&self) -> Seq<char> {
        self.file_type.spec_name()
    }

    /// The tracked indices of rows with pending selections.
    pub closed spec fn spec_selected_rows(&self) -> Seq<usize> {
        self.selections@
    }

    /// Well-formedness: every row is well formed, the tab width is
    /// positive, and the tracked selection indices are strictly ascending.
    pub closed spec fn wf(&self) -> bool {
        &&& forall|i: int| 0 <= i < self.rows@.len() ==> (#[trigger] self.rows@[i]).wf()
        &&& self.spaces_per_tab >= 1
        &&& idxs_sorted(self.selections@)
    }

    /// A blank document with no file behind it.
    pub fn default() -> (r: Document)
        ensures
            r.wf(),
            r.spec_rows().len() == 0,
            r.spec_filename() is None,
            !r.spec_dirty(),
            r.spec_spaces_per_tab() == DEFAULT_SPACES_PER_TAB,
            r.spec_options() == plain_opts(),
            r.spec_selected_rows().len() == 0,
    {
        Document {
            rows: Vec::new(),
            filename: None,
            dirty: false,
            file_type: FileType::default(),
            spaces_per_tab: DEFAULT_SPACES_PER_TAB,
            selections: Vec::new(),
        }
    }

    /// The number of rows in the document.
    pub fn len(&self) -> (r: usize)
        ensures
            r == self.spec_rows().len(),
    {
        self.rows.len()
    }

    /// Whether the document holds no rows at all.
    pub fn is_empty(&self) -> (r: bool)
        ensures
            r == (self.spec_rows().len() == 0),
    {
        self.rows.is_empty()
    }

    /// Whether the document has unsaved changes.
    pub fn is_dirty(&self) -> (r: bool)
        ensures
            r == self.spec_dirty(),
    {
        self.dirty
    }

    /// The name of the document's file type.
    pub fn file_type(&self) -> (r: String)
        ensures
            r@ == self.spec_file_type_name(),
    {
        self.file_type.name()
    }

    /// The row at `index`, if any.
    pub fn row(&self, index: usize) -> (r: Option<&Row>)
        ensures
            index < self.spec_rows().len() ==> r == Some(&self.spec_rows()[index as int]),
            index >= self.spec_rows().len() ==> r is None,
    {
        if index < self.rows.len() {
            Some(&self.rows[index])
        } else {
            None
        }
    }
}

/// A row of `n` spaces.
pub open spec fn space_row(n: int) -> Seq<Seq<char>> {
    Seq::new(
        if n >= 0 {
            n as nat
        } else {
            0
        },
        |i: int| seq![' '],
    )
}

/// The indent a line contributes when copied on a split or append: its
/// leading-space count, or zero when that is uninformative.
pub open spec fn indent_of(line: Seq<Seq<char>>) -> int {
    let k = leading_spaces(line);
    if k == 0 || k == line.len() {
        0
    } else {
        k
    }
}

/// `b` is `a` with every row from `start - 1` (clamped at zero) on marked
/// highlight-invalid, and earlier rows untouched.
pub open spec fn rows_unhl_from(a: Seq<Row>, b: Seq<Row>, start: int) -> bool {
    &&& b.len() == a.len()
    &&& forall|i: int| 0 <= i < start - 1 && i < a.len() ==> b[i] == a[i]
    &&& forall|i: int|
        0 <= i < a.len() && i >= start - 1 ==> unhl_of(#[trigger] a[i], #[trigger] b[i])
}

/// What `Document::insert` does to the rows, and what it returns: a
/// newline splits with the indent copied, a tab becomes a run of spaces,
/// any other character lands in its row (a new last row appearing when the
/// line index is exactly the row count), and every affected row and the
/// one above it lose their highlight cache.
pub open spec fn insert_effect(
    o: Seq<Row>,
    n2: Seq<Row>,
    y: int,
    x: int,
    c: char,
    spt: int,
    ret: int,
) -> bool {
    let gl = o.len() as int;
    if y > gl {
        n2 == o && ret == 0
    } else if c == '\n' {
        if y == gl && gl == 0 {
            &&& n2.len() == 1
            &&& n2[0]@ == Seq::<Seq<char>>::empty()
            &&& n2[0].spec_selections() == Seq::<(usize, usize)>::empty()
            &&& !n2[0].spec_is_highlighted()
            &&& ret == 0
        } else if y == gl {
            let ind = indent_of(o[gl - 1]@);
            &&& n2.len() == gl + 1
            &&& (forall|i: int| 0 <= i < gl - 1 ==> n2[i] == o[i])
            &&& unhl_of(o[gl - 1], n2[gl - 1])
            &&& n2[gl as int]@ == space_row(ind)
            &&& n2[gl as int].spec_selections() == Seq::<(usize, usize)>::empty()
            &&& !n2[gl as int].spec_is_highlighted()
            &&& ret == ind
        } else {
            let ind = indent_of(o[y]@);
            let cut = imin(x, o[y]@.len() as int);
            &&& n2.len() == gl + 1
            &&& (forall|i: int| 0 <= i < y - 1 ==> n2[i] == o[i])
            &&& (y > 0 ==> unhl_of(o[y - 1], n2[y - 1]))
            &&& n2[y]@ == o[y]@.take(cut)
            &&& n2[y].spec_selections() == o[y].spec_selections()
            &&& !n2[y].spec_is_highlighted()
            &&& n2[y + 1]@ == space_row(ind) + o[y]@.skip(cut)
            &&& n2[y + 1].spec_selections() == Seq::<(usize, usize)>::empty()
            &&& !n2[y + 1].spec_is_highlighted()
            &&& (forall|i: int| y + 2 <= i < gl + 1 ==> unhl_of(o[i - 1], #[trigger] n2[i]))
            &&& ret == ind
        }
    } else if c == '\t' {
        if y == gl {
            &&& n2.len() == gl + 1
            &&& (forall|i: int| 0 <= i < gl - 1 ==> n2[i] == o[i])
            &&& (gl > 0 ==> unhl_of(o[gl - 1], n2[gl - 1]))
            &&& n2[gl as int]@ == space_row(spt)
            &&& n2[gl as int].spec_selections() == Seq::<(usize, usize)>::empty()
            &&& !n2[gl as int].spec_is_highlighted()
            &&& ret == spt - 1
        } else {
            let cut = imin(x, o[y]@.len() as int);
            &&& n2.len() == gl
            &&& (forall|i: int| 0 <= i < y - 1 ==> n2[i] == o[i])
            &&& (y > 0 ==> unhl_of(o[y - 1], n2[y - 1]))
            &&& n2[y]@ == o[y]@.subrange(0, cut) + space_row(spt) + o[y]@.skip(cut)
            &&& n2[y].spec_selections() == o[y].spec_selections()
            &&& !n2[y].spec_is_highlighted()
            &&& (forall|i: int| y < i < gl ==> unhl_of(o[i], #[trigger] n2[i]))
            &&& ret == spt - 1
        }
    } else {
        if y == gl {
            &&& n2.len() == gl + 1
            &&& (forall|i: int| 0 <= i < gl - 1 ==> n2[i] == o[i])
            &&& (gl > 0 ==> unhl_of(o[gl - 1], n2[gl - 1]))
            &&& n2[gl as int]@ == seq![seq![c]]
            &&& n2[gl as int].spec_selections() == Seq::<(usize, usize)>::empty()
            &&& !n2[gl as int].spec_is_highlighted()
            &&& ret == 0
        } else {
            &&& n2.len() == gl
            &&& (forall|i: int| 0 <= i < y - 1 ==> n2[i] == o[i])
            &&& (y > 0 ==> unhl_of(o[y - 1], n2[y - 1]))
            &&& n2[y]@ == o[y]@.insert(imin(x, o[y]@.len() as int), seq![c])
            &&& n2[y].spec_selections() == o[y].spec_selections()
            &&& !n2[y].spec_is_highlighted()
            &&& (forall|i: int| y < i < gl ==> unhl_of(o[i], #[trigger] n2[i]))
            &&& ret == 0
        }
    }
}

/// What `Document::delete` does to the rows: deleting at a line's end
/// joins the next line on, otherwise the grapheme at the position goes;
/// out-of-range coordinates are a no-op.
pub open spec fn delete_effect(o: Seq<Row>, n2: Seq<Row>, y: int, x: int) -> bool {
    let gl = o.len() as int;
    if y >= gl {
        n2 == o
    } else if x == o[y]@.len() && y + 1 < gl {
        &&& n2.len() == gl - 1
        &&& (forall|i: int| 0 <= i < y - 1 ==> n2[i] == o[i])
        &&& (y > 0 ==> unhl_of(o[y - 1], n2[y - 1]))
        &&& n2[y]@ == o[y]@ + o[y + 1]@
        &&& n2[y].spec_selections() == o[y].spec_selections()
        &&& !n2[y].spec_is_highlighted()
        &&& (forall|i: int| y < i < gl - 1 ==> unhl_of(o[i + 1], #[trigger] n2[i]))
    } else {
        &&& n2.len() == gl
        &&& (forall|i: int| 0 <= i < y - 1 ==> n2[i] == o[i])
        &&& (y > 0 ==> unhl_of(o[y - 1], n2[y - 1]))
        &&& n2[y]@ == (if x < o[y]@.len() {
            o[y]@.remove(x)
        } else {
            o[y]@
        })
        &&& n2[y].spec_selections() == o[y].spec_selections()
        &&& !n2[y].spec_is_highlighted()
        &&& (forall|i: int| y < i < gl ==> unhl_of(o[i], #[trigger] n2[i]))
    }
}

impl Document {
    /// Everything but the rows and the dirty flag agrees between the two
    /// documents.
    pub open spec fn same_meta(a: Document, b: Document) -> bool {
        &&& a.spec_filename() == b.spec_filename()
        &&& a.spec_file_type_name() == b.spec_file_type_name()
        &&& a.spec_options() == b.spec_options()
        &&& a.spec_spaces_per_tab() == b.spec_spaces_per_tab()
        &&& a.spec_selected_rows() == b.spec_selected_rows()
    }

    /// Marks every row from `start - 1` on highlight-invalid.
    fn unhighlight_rows(&mut self, start: usize)
        requires
            old(self).wf(),
        ensures
            final(self).wf(),
            rows_unhl_from(old(self).spec_rows(), final(self).spec_rows(), start as int),
            Document::same_meta(*old(self), *final(self)),
            final(self).spec_dirty() == old(self).spec_dirty(),
    {
        let s0 = if start > 0 {
            start - 1
        } else {
            0
        };
        let n = self.rows.len();
        let s = if s0 <= n {
            s0
        } else {
            n
        };
        for i in s..n
            invariant
                s <= i <= n,
                n == self.rows@.len(),
                s0 == (if start > 0 {
                    start - 1
                } else {
                    0
                }),
                s == (if s0 <= n {
                    s0
                } else {
                    n as usize
                }),
                forall|j: int| 0 <= j < n && !(s <= j < i) ==> self.rows@[j] == old(self).rows@[j],
                forall|j: int|
                    s <= j < i ==> unhl_of(old(self).rows@[j], #[trigger] self.rows@[j]),
                Document::same_meta(*old(self), *self),
                self.dirty == old(self).dirty,
                self.wf(),
            decreases n - i,
        {
            self.rows[i].unhighlight();
        }
    }

    /// Splits for a newline at `at`: past the last line a fresh row
    /// appears, indented like the line before it; within the document the
    /// addressed line is cut at the column and the suffix moves to a new
    /// line carrying the original line's indent. Returns the copied
    /// indent width.
    fn insert_newline(&mut self, at: &Position) -> (r: usize)
        requires
            old(self).wf(),
        ensures
            final(self).wf(),
            Document::same_meta(*old(self), *final(self)),
            final(self).spec_dirty() == old(self).spec_dirty(),
            ({
                let o = old(self).spec_rows();
                let n2 = final(self).spec_rows();
                let y = at.y as int;
                let gl = o.len() as int;
                if y > gl {
                    n2 == o && r == 0
                } else if y == gl && gl == 0 {
                    &&& n2.len() == 1
                    &&& n2[0]@ == Seq::<Seq<char>>::empty()
                    &&& n2[0].spec_selections() == Seq::<(usize, usize)>::empty()
                    &&& !n2[0].spec_is_highlighted()
                    &&& r == 0
                } else if y == gl {
                    let ind = indent_of(o[gl - 1]@);
                    &&& n2.len() == gl + 1
                    &&& (forall|i: int| 0 <= i < gl ==> n2[i] == o[i])
                    &&& n2[gl as int]@ == space_row(ind)
                    &&& n2[gl as int].spec_selections() == Seq::<(usize, usize)>::empty()
                    &&& !n2[gl as int].spec_is_highlighted()
                    &&& r == ind
                } else {
                    let ind = indent_of(o[y]@);
                    let cut = imin(at.x as int, o[y]@.len() as int);
                    &&& n2.len() == gl + 1
                    &&& (forall|i: int| 0 <= i < y ==> n2[i] == o[i])
                    &&& n2[y]@ == o[y]@.take(cut)
                    &&& n2[y].spec_selections() == o[y].spec_selections()
                    &&& !n2[y].spec_is_highlighted()
                    &&& n2[y + 1]@ == space_row(ind) + o[y]@.skip(cut)
                    &&& n2[y + 1].spec_selections() == Seq::<(usize, usize)>::empty()
                    &&& !n2[y + 1].spec_is_highlighted()
                    &&& (forall|i: int| y + 2 <= i < gl + 1 ==> #[trigger] n2[i] == o[i - 1])
                    &&& r == ind
                }
            }),
    {
        let y = at.y;
        let n = self.rows.len();
        if y > n {
            return 0;
        }
        if y == n {
            if n == 0 {
                self.rows.push(Row::default());
                return 0;
            }
            let indent = match self.rows[n - 1].get_leading_spaces() {
                Some(k) => k,
                None => 0,
            };
            let mut new_row = Row::default();
            let mut j: usize = 0;
            proof {
                assert(new_row@ =~= space_row(0));
            }
            while j < indent
                invariant
                    j <= indent,
                    new_row.wf(),
                    !new_row.spec_is_highlighted(),
                    new_row.spec_selections() == Seq::<(usize, usize)>::empty(),
                    new_row@ == space_row(j as int),
                decreases indent - j,
            {
                new_row.insert(0, ' ');
                proof {
                    assert(new_row@ =~= space_row(j + 1));
                }
                j += 1;
            }
            self.rows.push(new_row);
            return indent;
        }
        let indent = match self.rows[y].get_leading_spaces() {
            Some(k) => k,
            None => 0,
        };
        proof {
            assert(indent as int == indent_of(old(self).rows@[y as int]@));
        }
        let mut new_row = self.rows[y].split(at.x);
        let ghost suffix = new_row@;
        let mut j: usize = 0;
        proof {
            assert(new_row@ =~= space_row(0) + suffix);
        }
        while j < indent
            invariant
                j <= indent,
                new_row.wf(),
                !new_row.spec_is_highlighted(),
                new_row.spec_selections() == Seq::<(usize, usize)>::empty(),
                new_row@ == space_row(j as int) + suffix,
            decreases indent - j,
        {
            new_row.insert(0, ' ');
            proof {
                assert(new_row@ =~= space_row(j + 1) + suffix);
            }
            j += 1;
        }
        proof {
            let o = old(self).rows@;
            let cut = imin(at.x as int, o[y as int]@.len() as int);
            assert(indent as int == indent_of(o[y as int]@));
            assert(suffix == o[y as int]@.skip(cut));
            assert(new_row@ == space_row(indent as int) + o[y as int]@.skip(cut));
            assert(self.rows@[y as int]@ == o[y as int]@.take(cut));
        }
        self.rows.insert(y + 1, new_row);
        proof {
            assert(self.rows@[y + 1]@ == space_row(indent as int) + old(self).rows@[y as int]@.skip(
                imin(at.x as int, old(self).rows@[y as int]@.len() as int),
            ));
        }
        indent
    }

    /// Inserts one character at `at`; see `insert_effect` for the cases.
    /// Marks the document dirty and invalidates the highlight cache from
    /// the line above the edit on. Returns the extra cursor advance the
    /// edit calls for: the copied indent for a newline, the tab width
    /// less one for a tab, zero otherwise.
    pub fn insert(&mut self, at: &mut Position, c: char) -> (r: usize)
        requires
            old(self).wf(),
        ensures
            final(self).wf(),
            *final(at) == *old(at),
            Document::same_meta(*old(self), *final(self)),
            insert_effect(
                old(self).spec_rows(),
                final(self).spec_rows(),
                old(at).y as int,
                old(at).x as int,
                c,
                old(self).spec_spaces_per_tab() as int,
                r as int,
            ),
            final(self).spec_dirty() == (if old(at).y as int > old(self).spec_rows().len() {
                old(self).spec_dirty()
            } else {
                true
            }),
    {
        let y = at.y;
        let x = at.x;
        let n = self.rows.len();
        if y > n {
            return 0;
        }
        self.dirty = true;
        let r: usize;
        if c == '\n' {
            r = self.insert_newline(at);
        } else if c == '\t' {
            if y == n {
                self.rows.push(Row::default());
            }
            let spt = self.spaces_per_tab;
            let ghost base = self.rows@[y as int]@;
            let ghost cut = imin(x as int, base.len() as int);
            let mut k: usize = 0;
            proof {
                assert(self.rows@[y as int]@ =~= base.subrange(0, cut) + space_row(0) + base.skip(
                    cut,
                ));
            }
            while k < spt
                invariant
                    k <= spt,
                    y < self.rows@.len(),
                    self.rows@.len() == (if at.y as int == old(self).spec_rows().len() {
                        old(self).spec_rows().len() + 1
                    } else {
                        old(self).spec_rows().len()
                    }),
                    base == (if at.y as int == old(self).spec_rows().len() {
                        Seq::<Seq<char>>::empty()
                    } else {
                        old(self).spec_rows()[y as int]@
                    }),
                    cut == imin(x as int, base.len() as int),
                    y == at.y,
                    x == at.x,
                    forall|i: int|
                        0 <= i < self.rows@.len() && i != y ==> #[trigger] self.rows@[i] == old(
                            self,
                        ).spec_rows()[i],
                    self.rows@[y as int]@ == base.subrange(0, cut) + space_row(k as int)
                        + base.skip(cut),
                    self.rows@[y as int].spec_selections() == (if at.y as int == old(
                        self,
                    ).spec_rows().len() {
                        Seq::<(usize, usize)>::empty()
                    } else {
                        old(self).spec_rows()[y as int].spec_selections()
                    }),
                    !self.rows@[y as int].spec_is_highlighted() || k == 0,
                    k == 0 ==> self.rows@[y as int].spec_is_highlighted() == (if at.y as int == old(
                        self,
                    ).spec_rows().len() {
                        false
                    } else {
                        old(self).spec_rows()[y as int].spec_is_highlighted()
                    }),
                    self.wf(),
                    Document::same_meta(*old(self), *self),
                    self.dirty,
                    self.spaces_per_tab == spt,
                decreases spt - k,
            {
                let ghost pre = self.rows@[y as int]@;
                self.rows[y].insert(x, ' ');
                proof {
                    let ck = imin(x as int, pre.len() as int);
                    assert(self.rows@[y as int]@ == pre.insert(ck, seq![' ']));
                    assert forall|idx: int|
                        0 <= idx < self.rows@[y as int]@.len() implies self.rows@[y as int]@[idx]
                        == (base.subrange(0, cut) + space_row(k + 1) + base.skip(cut))[idx] by {
                        if idx < ck {
                        } else if idx == ck {
                        } else {
                        }
                    }
                    assert(self.rows@[y as int]@ =~= base.subrange(0, cut) + space_row(k + 1)
                        + base.skip(cut));
                }
                k += 1;
            }
            r = spt - 1;
        } else {
            if y == n {
                let mut row = Row::default();
                row.insert(0, c);
                proof {
                    assert(row@ =~= seq![seq![c]]);
                }
                self.rows.push(row);
            } else {
                self.rows[y].insert(x, c);
            }
            r = 0;
        }
        let ghost mid = self.rows@;
        self.unhighlight_rows(y);
        proof {
            let n2 = self.rows@;
            let yk = y as int;
            assert forall|i: int| 0 <= i < n2.len() && i >= yk - 1 implies unhl_of(
                mid[i],
                #[trigger] n2[i],
            ) by {
                assert(unhl_of(mid[i], n2[i]));
            }
            assert forall|i: int| 0 <= i < yk - 1 && i < n2.len() implies #[trigger] n2[i]
                == mid[i] by {
                assert(n2[i] == mid[i]);
            }
        }
        r
    }

    /// Deletes the grapheme at `at`; at a line's end the next line joins
    /// on instead. Out-of-range coordinates are a no-op. Marks the
    /// document dirty and invalidates the cache from the line above on.
    pub fn delete(&mut self, at: &Position)
        requires
            old(self).wf(),
        ensures
            final(self).wf(),
            Document::same_meta(*old(self), *final(self)),
            delete_effect(
                old(self).spec_rows(),
                final(self).spec_rows(),
                at.y as int,
                at.x as int,
            ),
            final(self).spec_dirty() == (if at.y as int >= old(self).spec_rows().len() {
                old(self).spec_dirty()
            } else {
                true
            }),
    {
        let y = at.y;
        let x = at.x;
        let n = self.rows.len();
        if y >= n {
            return ;
        }
        self.dirty = true;
        if x == self.rows[y].len() && y + 1 < n {
            let next = self.rows.remove(y + 1);
            self.rows[y].append(&next);
        } else {
            self.rows[y].delete(x);
        }
        let ghost mid = self.rows@;
        self.unhighlight_rows(y);
        proof {
            let n2 = self.rows@;
            let yk = y as int;
            assert forall|i: int| 0 <= i < n2.len() && i >= yk - 1 implies unhl_of(
                mid[i],
                #[trigger] n2[i],
            ) by {
                assert(unhl_of(mid[i], n2[i]));
            }
            assert forall|i: int| 0 <= i < yk - 1 && i < n2.len() implies #[trigger] n2[i]
                == mid[i] by {
                assert(n2[i] == mid[i]);
            }
        }
    }
}

/// Forward document search: scan rows from `y` on, starting at column `x`
/// in the first row and at column zero afterwards; the first row match
/// wins.
pub open spec fn doc_find_forward(
    ls: Seq<Seq<Seq<char>>>,
    qg: Seq<Seq<char>>,
    y: int,
    x: int,
) -> Option<(int, int)>
    decreases ls.len() - y,
{
    if y < 0 || y >= ls.len() {
        None
    } else {
        match spec_row_find(ls[y], qg, x, SearchDirection::Forward) {
            Some(i) => Some((y, i)),
            None => doc_find_forward(ls, qg, y + 1, 0),
        }
    }
}

/// Backward document search: scan rows from `y` down to zero, bounded by
/// column `x` in the first row and by the row length afterwards; within a
/// row the last match wins.
pub open spec fn doc_find_backward(
    ls: Seq<Seq<Seq<char>>>,
    qg: Seq<Seq<char>>,
    y: int,
    x: int,
) -> Option<(int, int)>
    decreases y + 1,
{
    if y < 0 || y >= ls.len() {
        None
    } else {
        match spec_row_find(ls[y], qg, x, SearchDirection::Backward) {
            Some(i) => Some((y, i)),
            None => if y == 0 {
                None
            } else {
                doc_find_backward(ls, qg, y - 1, ls[y - 1].len() as int)
            },
        }
    }
}

/// What `Document::find` returns.
pub open spec fn spec_doc_find(
    ls: Seq<Seq<Seq<char>>>,
    qg: Seq<Seq<char>>,
    y: int,
    x: int,
    direction: SearchDirection,
) -> Option<(int, int)> {
    if y >= ls.len() {
        None
    } else if direction == SearchDirection::Forward {
        doc_find_forward(ls, qg, y, x)
    } else {
        doc_find_backward(ls, qg, y, x)
    }
}

impl Document {
    /// Finds the next occurrence of `query` from `at` in the given
    /// direction, as the first (forward) or last (backward) match position
    /// in the first row that has one; `None` when the query is empty or
    /// nothing matches.
    pub fn find(&self, query: &str, at: &Position, direction: SearchDirection) -> (r: Option<
        Position,
    >)
        requires
            self.wf(),
        ensures
            ({
                let s = spec_doc_find(
                    self.spec_lines(),
                    graphemes_of(query@),
                    at.y as int,
                    at.x as int,
                    direction,
                );
                match r {
                    Some(p) => s == Some((p.y as int, p.x as int)),
                    None => s is None,
                }
            }),
    {
        let n = self.rows.len();
        if at.y >= n {
            return None;
        }
        let ghost ls = self.spec_lines();
        let ghost qg = graphemes_of(query@);
        if direction == SearchDirection::Forward {
            let mut y = at.y;
            let mut x = at.x;
            while y < n
                invariant
                    at.y <= y <= n,
                    n == ls.len(),
                    ls == self.spec_lines(),
                    qg == graphemes_of(query@),
                    self.wf(),
                    direction == SearchDirection::Forward,
                    y == at.y ==> x == at.x,
                    y > at.y ==> x == 0,
                    doc_find_forward(ls, qg, at.y as int, at.x as int) == doc_find_forward(
                        ls,
                        qg,
                        y as int,
                        x as int,
                    ),
                decreases n - y,
            {
                proof {
                    assert(ls[y as int] == self.spec_rows()[y as int]@);
                    assert(self.spec_rows()[y as int].wf());
                }
                match self.rows[y].find(query, x, direction) {
                    Some(i) => {
                        return Some(Position { x: i, y });
                    },
                    None => {
                        y += 1;
                        x = 0;
                    },
                }
            }
            None
        } else {
            let mut y = at.y;
            let mut x = at.x;
            loop
                invariant
                    y <= at.y < n,
                    n == ls.len(),
                    ls == self.spec_lines(),
                    qg == graphemes_of(query@),
                    self.wf(),
                    y == at.y ==> x == at.x,
                    y < at.y ==> x as int == ls[y as int].len(),
                    direction == SearchDirection::Backward,
                    doc_find_backward(ls, qg, at.y as int, at.x as int) == doc_find_backward(
                        ls,
                        qg,
                        y as int,
                        x as int,
                    ),
                ensures
                    doc_find_backward(ls, qg, at.y as int, at.x as int) is None,
                decreases y,
            {
                proof {
                    assert(ls[y as int] == self.spec_rows()[y as int]@);
                    assert(self.spec_rows()[y as int].wf());
                }
                match self.rows[y].find(query, x, direction) {
                    Some(i) => {
                        return Some(Position { x: i, y });
                    },
                    None => {
                        if y == 0 {
                            break ;
                        }
                        proof {
                            assert(ls[y - 1] == self.spec_rows()[y - 1]@);
                        }
                        x = self.rows[y - 1].len();
                        y -= 1;
                    },
                }
            }
            None
        }
    }

    /// Finds the next word boundary from `at`: first within the addressed
    /// row; on a miss, the adjacent row's edge, forward from any row but
    /// backward only when not already on the first row.
    pub fn find_next_word(&self, at: &Position, direction: SearchDirection) -> (r: Option<
        Position,
    >)
        requires
            self.wf(),
        ensures
            at.y as int >= self.spec_lines().len() ==> r is None,
            (at.y as int) < self.spec_lines().len() ==> ({
                let ls = self.spec_lines();
                let y = at.y as int;
                let y_next = if direction == SearchDirection::Forward {
                    y + 1
                } else {
                    if y > 0 {
                        y - 1
                    } else {
                        0
                    }
                };
                let x_next = if direction == SearchDirection::Forward {
                    0
                } else {
                    ls[y_next].len() as int
                };
                match spec_row_word(ls[y], at.x as int, direction) {
                    Some(i) => r == Some(Position { x: i as usize, y: at.y }),
                    None => if y_next < ls.len() && (direction == SearchDirection::Forward || y
                        > 0) {
                        r == Some(Position { x: x_next as usize, y: y_next as usize })
                    } else {
                        r is None
                    },
                }
            }),
    {
        let n = self.rows.len();
        let y = at.y;
        if y >= n {
            return None;
        }
        let y_next = if direction == SearchDirection::Forward {
            y + 1
        } else {
            if y > 0 {
                y - 1
            } else {
                0
            }
        };
        let x_next = if direction == SearchDirection::Forward {
            0
        } else {
            proof {
                assert(self.spec_lines()[y_next as int] == self.spec_rows()[y_next as int]@);
            }
            self.rows[y_next].len()
        };
        proof {
            assert(self.spec_lines()[y as int] == self.spec_rows()[y as int]@);
            assert(self.spec_rows()[y as int].wf());
        }
        match self.rows[y].find_next_word(at.x, direction) {
            Some(x) => Some(Position { x, y }),
            None => {
                if y_next < n && (direction == SearchDirection::Forward || y > 0) {
                    Some(Position { x: x_next, y: y_next })
                } else {
                    None
                }
            },
        }
    }
}

/// The query graphemes of an optional search word; empty when none.
pub open spec fn wq_of(word: &Option<String>) -> Seq<Seq<char>> {
    match word {
        Some(w) => graphemes_of(w@),
        None => Seq::empty(),
    }
}

/// The continuation one row's highlight pass hands to the next, per
/// `Row::highlight`'s contract: a valid cached row with no active search
/// word passes the continuation through.
pub open spec fn row_hl_cont(
    r: Row,
    o: OptsV,
    wq: Seq<Seq<char>>,
    wn: bool,
    cont: Option<Seq<char>>,
) -> Option<Seq<char>> {
    if r.spec_is_highlighted() && wn {
        cont
    } else {
        spec_highlight(o, r@, wq, cont, r.spec_selections()).1
    }
}

/// The continuation pending after the first `i` rows have been driven.
pub open spec fn conts_through(rows: Seq<Row>, o: OptsV, wq: Seq<Seq<char>>, wn: bool, i: int) -> Option<
    Seq<char>,
>
    decreases i,
{
    if i <= 0 {
        None
    } else {
        row_hl_cont(rows[i - 1], o, wq, wn, conts_through(rows, o, wq, wn, i - 1))
    }
}

/// How one row comes out of a highlight pass with incoming continuation
/// `cin`: untouched on a cache hit, otherwise re-tagged per
/// `spec_highlight` and marked valid unless a continuation leaves it.
pub open spec fn hl_row_rel(
    a: Row,
    b: Row,
    o: OptsV,
    wq: Seq<Seq<char>>,
    wn: bool,
    cin: Option<Seq<char>>,
) -> bool {
    if a.spec_is_highlighted() && wn {
        b == a
    } else {
        &&& b@ == a@
        &&& b.spec_selections() == a.spec_selections()
        &&& b.spec_highlighting() == spec_highlight(o, a@, wq, cin, a.spec_selections()).0
        &&& b.spec_is_highlighted() == (spec_highlight(o, a@, wq, cin, a.spec_selections()).1
            is None)
    }
}

/// The continuation threading when every row is re-scanned from scratch.
pub open spec fn fresh_conts(rows: Seq<Row>, o: OptsV, i: int) -> Option<Seq<char>>
    decreases i,
{
    if i <= 0 {
        None
    } else {
        spec_highlight(
            o,
            rows[i - 1]@,
            Seq::empty(),
            fresh_conts(rows, o, i - 1),
            rows[i - 1].spec_selections(),
        ).1
    }
}

/// On cache-invalid rows, driving equals scanning from scratch.
proof fn lemma_conts_fresh(a: Seq<Row>, b: Seq<Row>, o: OptsV, i: int)
    requires
        a.len() == b.len(),
        forall|j: int| 0 <= j < a.len() ==> unhl_of(#[trigger] a[j], #[trigger] b[j]),
        0 <= i <= a.len(),
    ensures
        conts_through(b, o, Seq::empty(), true, i) == fresh_conts(a, o, i),
    decreases i,
{
    if i > 0 {
        lemma_conts_fresh(a, b, o, i - 1);
        assert(unhl_of(a[i - 1], b[i - 1]));
    }
}

impl Document {
    /// Drives the highlight pass over rows `[0, lim)`, where `lim` is
    /// `until + 1` clamped to the row count (all rows when `until` is
    /// `None`), threading each row's multi-line-comment continuation into
    /// the next row.
    pub fn highlight(&mut self, word: &Option<String>, until: Option<usize>)
        requires
            old(self).wf(),
        ensures
            final(self).wf(),
            Document::same_meta(*old(self), *final(self)),
            final(self).spec_dirty() == old(self).spec_dirty(),
            final(self).spec_rows().len() == old(self).spec_rows().len(),
            ({
                let o = old(self).spec_options();
                let rows = old(self).spec_rows();
                let wq = wq_of(word);
                let wn = word is None;
                let gl = rows.len() as int;
                let lim = match until {
                    Some(u) => if u + 1 < gl {
                        u + 1
                    } else {
                        gl
                    },
                    None => gl,
                };
                &&& (forall|j: int|
                    0 <= j < lim ==> hl_row_rel(
                        rows[j],
                        #[trigger] final(self).spec_rows()[j],
                        o,
                        wq,
                        wn,
                        conts_through(rows, o, wq, wn, j),
                    ))
                &&& (forall|j: int|
                    lim <= j < gl ==> #[trigger] final(self).spec_rows()[j] == rows[j])
            }),
    {
        let n = self.rows.len();
        let lim = match until {
            Some(u) => {
                if u >= n {
                    n
                } else if u + 1 < n {
                    u + 1
                } else {
                    n
                }
            },
            None => n,
        };
        let mut cont: Option<String> = None;
        let ghost o = self.spec_options();
        let ghost wq = wq_of(word);
        let ghost wn = word is None;
        for i in 0..lim
            invariant
                lim <= n,
                n == self.rows@.len(),
                n == old(self).spec_rows().len(),
                o == old(self).spec_options(),
                o == self.spec_options(),
                wq == wq_of(word),
                wn == (word is None),
                Document::same_meta(*old(self), *self),
                self.dirty == old(self).dirty,
                self.wf(),
                crate::row::cont_of(cont) == conts_through(old(self).spec_rows(), o, wq, wn, i as int),
                forall|j: int|
                    i <= j < n ==> #[trigger] self.rows@[j] == old(self).spec_rows()[j],
                forall|j: int|
                    0 <= j < i ==> hl_row_rel(
                        old(self).spec_rows()[j],
                        #[trigger] self.rows@[j],
                        o,
                        wq,
                        wn,
                        conts_through(old(self).spec_rows(), o, wq, wn, j),
                    ),
            decreases lim - i,
        {
            let opts = self.file_type.highlighting_options();
            self.rows[i].highlight(opts, word, &mut cont);
        }
    }

    /// Invalidates every row's highlight cache and re-computes all
    /// highlighting from scratch, with no active search word.
    pub fn refresh_highlighting(&mut self)
        requires
            old(self).wf(),
        ensures
            final(self).wf(),
            Document::same_meta(*old(self), *final(self)),
            final(self).spec_dirty() == old(self).spec_dirty(),
            final(self).spec_rows().len() == old(self).spec_rows().len(),
            ({
                let o = old(self).spec_options();
                let rows = old(self).spec_rows();
                forall|j: int|
                    0 <= j < rows.len() ==> {
                        let res = spec_highlight(
                            o,
                            rows[j]@,
                            Seq::empty(),
                            fresh_conts(rows, o, j),
                            rows[j].spec_selections(),
                        );
                        &&& (#[trigger] final(self).spec_rows()[j])@ == rows[j]@
                        &&& final(self).spec_rows()[j].spec_selections()
                            == rows[j].spec_selections()
                        &&& final(self).spec_rows()[j].spec_highlighting() == res.0
                        &&& final(self).spec_rows()[j].spec_is_highlighted() == (res.1 is None)
                    }
            }),
    {
        self.unhighlight_rows(0);
        let ghost mid = self.rows@;
        self.highlight(&None, None);
        proof {
            let o = old(self).spec_options();
            let rows = old(self).spec_rows();
            assert forall|j: int| 0 <= j < rows.len() implies {
                let res = spec_highlight(
                    o,
                    rows[j]@,
                    Seq::empty(),
                    fresh_conts(rows, o, j),
                    rows[j].spec_selections(),
                );
                &&& (#[trigger] self.rows@[j])@ == rows[j]@
                &&& self.rows@[j].spec_selections() == rows[j].spec_selections()
                &&& self.rows@[j].spec_highlighting() == res.0
                &&& self.rows@[j].spec_is_highlighted() == (res.1 is None)
            } by {
                assert(unhl_of(rows[j], mid[j]));
                lemma_conts_fresh(rows, mid, o, j);
                assert(hl_row_rel(
                    mid[j],
                    self.rows@[j],
                    o,
                    Seq::empty(),
                    true,
                    conts_through(mid, o, Seq::empty(), true, j),
                ));
            }
        }
    }
}

/// Insertion of a row index into a strictly ascending list, if absent.
pub open spec fn insert_idx_sorted(s: Seq<usize>, v: usize) -> Seq<usize>
    decreases s.len(),
{
    if s.len() == 0 {
        seq![v]
    } else if v < s[0] {
        seq![v] + s
    } else if v == s[0] {
        s
    } else {
        seq![s[0]] + insert_idx_sorted(s.drop_first(), v)
    }
}

proof fn lemma_insert_idx(s: Seq<usize>, v: usize, k: int)
    requires
        0 <= k <= s.len(),
        forall|j: int| 0 <= j < k ==> (#[trigger] s[j]) < v,
        k == s.len() || s[k] >= v,
    ensures
        (k < s.len() && s[k] == v) ==> insert_idx_sorted(s, v) == s,
        !(k < s.len() && s[k] == v) ==> insert_idx_sorted(s, v) == s.take(k) + seq![v] + s.skip(k),
    decreases k,
{
    if k == 0 {
        if s.len() == 0 || v < s[0] {
            assert(insert_idx_sorted(s, v) =~= s.take(0) + seq![v] + s.skip(0));
        }
    } else {
        lemma_insert_idx(s.drop_first(), v, k - 1);
        if k < s.len() && s[k] == v {
        } else {
            assert(insert_idx_sorted(s, v) =~= s.take(k) + seq![v] + s.skip(k));
        }
    }
}

/// The `(position, text)` pairs the tracked rows contribute, in tracked
/// order, each row's merged spans in ascending start order.
pub open spec fn doc_sel_results(rows: Seq<Row>, ys: Seq<usize>) -> Seq<(Position, Seq<char>)>
    decreases ys.len(),
{
    if ys.len() == 0 {
        Seq::empty()
    } else {
        let y = ys[0];
        (if y < rows.len() {
            let m = merge_spans(rows[y as int].spec_selections());
            Seq::new(
                m.len(),
                |i: int| (Position { y, x: m[i].0 }, span_text(rows[y as int]@, m[i])),
            )
        } else {
            Seq::<(Position, Seq<char>)>::empty()
        }) + doc_sel_results(rows, ys.drop_first())
    }
}

impl Document {
    /// Adds a selection of `len` graphemes at `at` to the addressed row
    /// and tracks that row; out of range is a no-op.
    pub fn add_selection(&mut self, at: Position, len: usize)
        requires
            old(self).wf(),
        ensures
            final(self).wf(),
            final(self).spec_dirty() == old(self).spec_dirty(),
            final(self).spec_filename() == old(self).spec_filename(),
            final(self).spec_options() == old(self).spec_options(),
            final(self).spec_file_type_name() == old(self).spec_file_type_name(),
            final(self).spec_spaces_per_tab() == old(self).spec_spaces_per_tab(),
            (at.y as int) >= old(self).spec_rows().len() ==> *final(self) == *old(self),
            (at.y as int) < old(self).spec_rows().len() ==> ({
                let o = old(self).spec_rows();
                let n2 = final(self).spec_rows();
                let y = at.y as int;
                let l = o[y]@.len() as int;
                let s0 = if at.x as int <= l {
                    at.x as int
                } else {
                    l
                };
                let e0 = if at.x + len <= l {
                    at.x + len
                } else {
                    l
                };
                &&& n2.len() == o.len()
                &&& (forall|i: int| 0 <= i < o.len() && i != y ==> #[trigger] n2[i] == o[i])
                &&& n2[y]@ == o[y]@
                &&& n2[y].spec_selections() == insert_span_sorted(
                    o[y].spec_selections(),
                    (s0 as usize, e0 as usize),
                )
                &&& n2[y].spec_highlighting() == o[y].spec_highlighting()
                &&& n2[y].spec_is_highlighted() == o[y].spec_is_highlighted()
                &&& final(self).spec_selected_rows() == insert_idx_sorted(
                    old(self).spec_selected_rows(),
                    at.y,
                )
            }),
    {
        let y = at.y;
        if y >= self.rows.len() {
            return ;
        }
        self.rows[y].add_selection(at.x, len);
        let m = self.selections.len();
        let mut idx: usize = 0;
        while idx < m && self.selections[idx] < y
            invariant
                idx <= m,
                m == self.selections@.len(),
                forall|j: int| 0 <= j < idx ==> (#[trigger] self.selections@[j]) < y,
            decreases m - idx,
        {
            idx += 1;
        }
        proof {
            lemma_insert_idx(self.selections@, y, idx as int);
        }
        if idx < m && self.selections[idx] == y {
            return ;
        }
        let ghost pre = self.selections@;
        self.selections.insert(idx, y);
        proof {
            assert(self.selections@ =~= pre.take(idx as int) + seq![y] + pre.skip(idx as int));
            assert forall|i: int, j: int|
                0 <= i < j < self.selections@.len() implies (#[trigger] self.selections@[i]) < (
            #[trigger] self.selections@[j]) by {
                let v = self.selections@;
                if j < idx {
                    assert(v[i] == pre[i] && v[j] == pre[j]);
                } else if i < idx && j == idx {
                    assert(v[i] == pre[i]);
                } else if i < idx && j > idx {
                    assert(v[i] == pre[i] && v[j] == pre[j - 1]);
                } else if i == idx {
                    assert(v[j] == pre[j - 1]);
                } else {
                    assert(v[i] == pre[i - 1] && v[j] == pre[j - 1]);
                }
            }
        }
    }

    /// Clears every pending selection in every row, and the tracked set.
    pub fn reset_selections(&mut self)
        requires
            old(self).wf(),
        ensures
            final(self).wf(),
            final(self).spec_dirty() == old(self).spec_dirty(),
            final(self).spec_filename() == old(self).spec_filename(),
            final(self).spec_options() == old(self).spec_options(),
            final(self).spec_file_type_name() == old(self).spec_file_type_name(),
            final(self).spec_spaces_per_tab() == old(self).spec_spaces_per_tab(),
            final(self).spec_selected_rows() == Seq::<usize>::empty(),
            final(self).spec_rows().len() == old(self).spec_rows().len(),
            forall|i: int|
                0 <= i < old(self).spec_rows().len() ==> {
                    let a = old(self).spec_rows()[i];
                    let b = #[trigger] final(self).spec_rows()[i];
                    b@ == a@ && b.spec_selections() == Seq::<(usize, usize)>::empty()
                        && b.spec_highlighting() == a.spec_highlighting()
                        && b.spec_is_highlighted() == a.spec_is_highlighted()
                },
    {
        let n = self.rows.len();
        for i in 0..n
            invariant
                n == self.rows@.len(),
                Document::same_meta(*old(self), *self),
                self.dirty == old(self).dirty,
                self.wf(),
                forall|j: int| i <= j < n ==> #[trigger] self.rows@[j] == old(self).rows@[j],
                forall|j: int|
                    0 <= j < i ==> {
                        let a = old(self).rows@[j];
                        let b = #[trigger] self.rows@[j];
                        b@ == a@ && b.spec_selections() == Seq::<(usize, usize)>::empty()
                            && b.spec_highlighting() == a.spec_highlighting()
                            && b.spec_is_highlighted() == a.spec_is_highlighted()
                    },
            decreases n - i,
        {
            self.rows[i].reset_selections();
        }
        self.selections.clear();
    }

    /// Merges each tracked row's spans and returns every `(position,
    /// text)` pair, rows in ascending order; stale tracked indices beyond
    /// the row count contribute nothing.
    #[verifier::rlimit(60)]
    pub fn update_and_get_selections(&mut self) -> (r: Vec<(Position, String)>)
        requires
            old(self).wf(),
        ensures
            final(self).wf(),
            final(self).spec_dirty() == old(self).spec_dirty(),
            final(self).spec_filename() == old(self).spec_filename(),
            final(self).spec_options() == old(self).spec_options(),
            final(self).spec_file_type_name() == old(self).spec_file_type_name(),
            final(self).spec_spaces_per_tab() == old(self).spec_spaces_per_tab(),
            final(self).spec_selected_rows() == old(self).spec_selected_rows(),
            final(self).spec_rows().len() == old(self).spec_rows().len(),
            forall|i: int|
                0 <= i < old(self).spec_rows().len() && !old(self).spec_selected_rows().contains(
                    i as usize,
                ) ==> #[trigger] final(self).spec_rows()[i] == old(self).spec_rows()[i],
            forall|i: int|
                0 <= i < old(self).spec_rows().len() && old(self).spec_selected_rows().contains(
                    i as usize,
                ) ==> {
                    let a = old(self).spec_rows()[i];
                    let b = #[trigger] final(self).spec_rows()[i];
                    b@ == a@ && b.spec_selections() == merge_spans(a.spec_selections())
                        && b.spec_highlighting() == a.spec_highlighting()
                        && b.spec_is_highlighted() == a.spec_is_highlighted()
                },
            ({
                let spec = doc_sel_results(old(self).spec_rows(), old(self).spec_selected_rows());
                r@.len() == spec.len() && (forall|i: int|
                    0 <= i < spec.len() ==> (#[trigger] r@[i]).0 == spec[i].0 && r@[i].1@
                        == spec[i].1)
            }),
    {
        let m = self.selections.len();
        let n = self.rows.len();
        let mut r: Vec<(Position, String)> = Vec::new();
        let ghost spec_full = doc_sel_results(old(self).spec_rows(), old(self).spec_selected_rows());
        proof {
            assert(old(self).spec_selected_rows().skip(0) =~= old(self).spec_selected_rows());
        }
        for k in 0..m
            invariant
                m == self.selections@.len(),
                n == self.rows@.len(),
                n == old(self).spec_rows().len(),
                self.selections@ == old(self).spec_selected_rows(),
                spec_full == doc_sel_results(old(self).spec_rows(), old(self).spec_selected_rows()),
                Document::same_meta(*old(self), *self),
                self.dirty == old(self).dirty,
                self.wf(),
                old(self).wf(),
                forall|i: int|
                    0 <= i < n && !old(self).spec_selected_rows().take(k as int).contains(i as usize)
                        ==> #[trigger] self.rows@[i] == old(self).spec_rows()[i],
                forall|i: int|
                    0 <= i < n && old(self).spec_selected_rows().take(k as int).contains(i as usize)
                        ==> {
                        let a = old(self).spec_rows()[i];
                        let b = #[trigger] self.rows@[i];
                        b@ == a@ && b.spec_selections() == merge_spans(a.spec_selections())
                            && b.spec_highlighting() == a.spec_highlighting()
                            && b.spec_is_highlighted() == a.spec_is_highlighted()
                    },
                spec_full == r@.map_values(|p: (Position, String)| (p.0, p.1@)) + doc_sel_results(
                    old(self).spec_rows(),
                    old(self).spec_selected_rows().skip(k as int),
                ),
            decreases m - k,
        {
            let ghost ys = old(self).spec_selected_rows();
            proof {
                assert(ys.skip(k as int).drop_first() =~= ys.skip(k + 1));
                assert(ys.skip(k as int)[0] == ys[k as int]);
            }
            let y = self.selections[k];
            if y < n {
                proof {
                    assert(!ys.take(k as int).contains(y)) by {
                        if ys.take(k as int).contains(y) {
                            let wi = choose|wi: int|
                                0 <= wi < k && (#[trigger] ys.take(k as int)[wi]) == y;
                            assert(ys[wi] == y && ys[k as int] == y);
                        }
                    }
                    assert(self.rows@[y as int] == old(self).spec_rows()[y as int]);
                }
                let pairs = self.rows[y].update_and_get_selections();
                let pn = pairs.len();
                let ghost base = r@;
                for t in 0..pn
                    invariant
                        pn == pairs@.len(),
                        y < n,
                        n == self.rows@.len(),
                        r@.len() == base.len() + t,
                        forall|j: int| 0 <= j < base.len() ==> #[trigger] r@[j] == base[j],
                        forall|j: int|
                            0 <= j < t ==> (#[trigger] r@[base.len() + j]).0 == (Position {
                                y,
                                x: pairs@[j].0,
                            }) && r@[base.len() + j].1 == pairs@[j].1,
                    decreases pn - t,
                {
                    let (x, text) = (pairs[t].0, pairs[t].1.clone());
                    r.push((Position { x, y }, text));
                }
                proof {
                    let a = old(self).spec_rows()[y as int];
                    let ms = merge_spans(a.spec_selections());
                    assert(pairs@.len() == ms.len());
                    assert(r@.len() == base.len() + ms.len());
                    assert forall|j: int| base.len() <= j < r@.len() implies (#[trigger] r@[j]).0
                        == (Position { y, x: ms[j - base.len()].0 }) && r@[j].1@ == span_text(
                        a@,
                        ms[j - base.len()],
                    ) by {
                        let j2 = j - base.len();
                        assert(r@[base.len() + j2].0 == (Position { y, x: pairs@[j2].0 })
                            && r@[base.len() + j2].1 == pairs@[j2].1);
                        assert(pairs@[j2].0 == ms[j2].0);
                        assert(pairs@[j2].1@ == span_text(a@, ms[j2]));
                    }
                    assert(r@.map_values(|p: (Position, String)| (p.0, p.1@)) =~= base.map_values(
                        |p: (Position, String)| (p.0, p.1@),
                    ) + Seq::new(
                        ms.len(),
                        |i: int| (Position { y, x: ms[i].0 }, span_text(a@, ms[i])),
                    ));
                }
            }
            proof {
                assert(ys.take(k + 1)[k as int] == y);
                assert(ys.take(k + 1).contains(y));
                assert forall|i: int|
                    0 <= i < n && #[trigger] ys.take(k + 1).contains(i as usize) && !ys.take(
                        k as int,
                    ).contains(i as usize) implies i == y as int by {
                    let wi = choose|wi: int|
                        0 <= wi < k + 1 && (#[trigger] ys.take(k + 1)[wi]) == i as usize;
                    if wi < k {
                        assert(ys.take(k as int)[wi] == i as usize);
                    }
                }
                assert forall|i: int|
                    0 <= i < n && !(#[trigger] ys.take(k + 1).contains(i as usize)) implies !ys.take(
                    k as int,
                ).contains(i as usize) by {
                    if ys.take(k as int).contains(i as usize) {
                        let wi = choose|wi: int|
                            0 <= wi < k && (#[trigger] ys.take(k as int)[wi]) == i as usize;
                        assert(ys.take(k + 1)[wi] == i as usize);
                    }
                }
            }
        }
        proof {
            assert(old(self).spec_selected_rows().skip(m as int)
                =~= Seq::<usize>::empty());
            assert(r@.map_values(|p: (Position, String)| (p.0, p.1@)) + doc_sel_results(
                old(self).spec_rows(),
                Seq::<usize>::empty(),
            ) =~= r@.map_values(|p: (Position, String)| (p.0, p.1@)));
            let ys2 = old(self).spec_selected_rows();
            assert forall|i: int|
                0 <= i < n && #[trigger] ys2.contains(i as usize) implies ys2.take(
                m as int,
            ).contains(i as usize) by {
                let wi = choose|wi: int| 0 <= wi < m && (#[trigger] ys2[wi]) == i as usize;
                assert(ys2.take(m as int)[wi] == i as usize);
            }
            assert forall|i: int|
                0 <= i < n && !(#[trigger] ys2.contains(i as usize)) implies !ys2.take(
                m as int,
            ).contains(i as usize) by {
                if ys2.take(m as int).contains(i as usize) {
                    let wi = choose|wi: int|
                        0 <= wi < m && (#[trigger] ys2.take(m as int)[wi]) == i as usize;
                    assert(ys2[wi] == i as usize);
                }
            }
            assert forall|i: int| 0 <= i < spec_full.len() implies (#[trigger] r@[i]).0
                == spec_full[i].0 && r@[i].1@ == spec_full[i].1 by {
                assert(spec_full[i] == r@.map_values(|p: (Position, String)| (p.0, p.1@))[i]);
            }
        }
        r
    }

    /// Replaces (or, with no replacement, deletes) every pending selection
    /// in the tracked rows, processing each row's merged spans back to
    /// front, and marks the document dirty. All selections are consumed.
    #[verifier::rlimit(60)]
    pub fn replace_selections(&mut self, replace: &Option<String>)
        requires
            old(self).wf(),
        ensures
            final(self).wf(),
            final(self).spec_dirty(),
            final(self).spec_filename() == old(self).spec_filename(),
            final(self).spec_options() == old(self).spec_options(),
            final(self).spec_file_type_name() == old(self).spec_file_type_name(),
            final(self).spec_spaces_per_tab() == old(self).spec_spaces_per_tab(),
            final(self).spec_selected_rows() == Seq::<usize>::empty(),
            final(self).spec_rows().len() == old(self).spec_rows().len(),
            forall|i: int|
                0 <= i < old(self).spec_rows().len() && !old(self).spec_selected_rows().contains(
                    i as usize,
                ) ==> #[trigger] final(self).spec_rows()[i] == old(self).spec_rows()[i],
            forall|i: int|
                0 <= i < old(self).spec_rows().len() && old(self).spec_selected_rows().contains(
                    i as usize,
                ) ==> {
                    let a = old(self).spec_rows()[i];
                    let b = #[trigger] final(self).spec_rows()[i];
                    b@ == apply_spans(
                        a@,
                        merge_spans(a.spec_selections()),
                        rep_graphemes(opt_str_view(replace)),
                    ) && b.spec_selections() == Seq::<(usize, usize)>::empty()
                        && !b.spec_is_highlighted()
                },
    {
        let m = self.selections.len();
        let n = self.rows.len();
        for k in 0..m
            invariant
                m == self.selections@.len(),
                n == self.rows@.len(),
                n == old(self).spec_rows().len(),
                self.selections@ == old(self).spec_selected_rows(),
                Document::same_meta(*old(self), *self),
                self.dirty == old(self).dirty,
                self.wf(),
                old(self).wf(),
                forall|i: int|
                    0 <= i < n && !old(self).spec_selected_rows().take(k as int).contains(i as usize)
                        ==> #[trigger] self.rows@[i] == old(self).spec_rows()[i],
                forall|i: int|
                    0 <= i < n && old(self).spec_selected_rows().take(k as int).contains(i as usize)
                        ==> {
                        let a = old(self).spec_rows()[i];
                        let b = #[trigger] self.rows@[i];
                        b@ == apply_spans(
                            a@,
                            merge_spans(a.spec_selections()),
                            rep_graphemes(opt_str_view(replace)),
                        ) && b.spec_selections() == Seq::<(usize, usize)>::empty()
                            && !b.spec_is_highlighted()
                    },
            decreases m - k,
        {
            let ghost ys = old(self).spec_selected_rows();
            let y = self.selections[k];
            if y < n {
                proof {
                    assert(!ys.take(k as int).contains(y)) by {
                        if ys.take(k as int).contains(y) {
                            let wi = choose|wi: int|
                                0 <= wi < k && (#[trigger] ys.take(k as int)[wi]) == y;
                            assert(ys[wi] == y && ys[k as int] == y);
                        }
                    }
                    assert(self.rows@[y as int] == old(self).spec_rows()[y as int]);
                }
                self.rows[y].replace_selections(replace);
            }
            proof {
                assert(ys.take(k + 1)[k as int] == y);
                assert(ys.take(k + 1).contains(y));
                assert forall|i: int|
                    0 <= i < n && #[trigger] ys.take(k + 1).contains(i as usize) && !ys.take(
                        k as int,
                    ).contains(i as usize) implies i == y as int by {
                    let wi = choose|wi: int|
                        0 <= wi < k + 1 && (#[trigger] ys.take(k + 1)[wi]) == i as usize;
                    if wi < k {
                        assert(ys.take(k as int)[wi] == i as usize);
                    }
                }
                assert forall|i: int|
                    0 <= i < n && !(#[trigger] ys.take(k + 1).contains(i as usize)) implies !ys.take(
                    k as int,
                ).contains(i as usize) by {
                    if ys.take(k as int).contains(i as usize) {
                        let wi = choose|wi: int|
                            0 <= wi < k && (#[trigger] ys.take(k as int)[wi]) == i as usize;
                        assert(ys.take(k + 1)[wi] == i as usize);
                    }
                }
            }
        }
        proof {
            let ys = old(self).spec_selected_rows();
            assert forall|i: int|
                0 <= i < n && #[trigger] ys.contains(i as usize) implies ys.take(m as int).contains(
                i as usize,
            ) by {
                let wi = choose|wi: int| 0 <= wi < m && (#[trigger] ys[wi]) == i as usize;
                assert(ys.take(m as int)[wi] == i as usize);
            }
            assert forall|i: int|
                0 <= i < n && !(#[trigger] ys.contains(i as usize)) implies !ys.take(m as int).contains(
                i as usize,
            ) by {
                if ys.take(m as int).contains(i as usize) {
                    let wi = choose|wi: int|
                        0 <= wi < m && (#[trigger] ys.take(m as int)[wi]) == i as usize;
                    assert(ys[wi] == i as usize);
                }
            }
        }
        self.dirty = true;
        self.selections.clear();
    }

    /// Deletes every pending selection in the tracked rows; the same as a
    /// replacement with nothing.
    pub fn delete_selections(&mut self)
        requires
            old(self).wf(),
        ensures
            final(self).wf(),
            final(self).spec_dirty(),
            final(self).spec_filename() == old(self).spec_filename(),
            final(self).spec_options() == old(self).spec_options(),
            final(self).spec_file_type_name() == old(self).spec_file_type_name(),
            final(self).spec_spaces_per_tab() == old(self).spec_spaces_per_tab(),
            final(self).spec_selected_rows() == Seq::<usize>::empty(),
            final(self).spec_rows().len() == old(self).spec_rows().len(),
            forall|i: int|
                0 <= i < old(self).spec_rows().len() && !old(self).spec_selected_rows().contains(
                    i as usize,
                ) ==> #[trigger] final(self).spec_rows()[i] == old(self).spec_rows()[i],
            forall|i: int|
                0 <= i < old(self).spec_rows().len() && old(self).spec_selected_rows().contains(
                    i as usize,
                ) ==> {
                    let a = old(self).spec_rows()[i];
                    let b = #[trigger] final(self).spec_rows()[i];
                    b@ == apply_spans(
                        a@,
                        merge_spans(a.spec_selections()),
                        Seq::<Seq<char>>::empty(),
                    ) && b.spec_selections() == Seq::<(usize, usize)>::empty()
                        && !b.spec_is_highlighted()
                },
    {
        self.replace_selections(&None);
    }
}

/// The text of a single-line range `[sx, ex)` on line `y`, clamped to the
/// line; empty when the line does not exist.
pub open spec fn single_line_text(ls: Seq<Seq<Seq<char>>>, y: int, sx: int, ex: int) -> Seq<char> {
    if 0 <= y < ls.len() {
        span_text(ls[y], (sx as usize, ex as usize))
    } else {
        Seq::empty()
    }
}

/// The text of rows `(sy, ey]` of a multi-line range: full middle lines
/// each followed by a line break, then the end line's prefix `[0, ex)`; a
/// missing line contributes a bare line break.
pub open spec fn range_tail_text(ls: Seq<Seq<Seq<char>>>, y: int, ey: int, ex: int) -> Seq<char>
    decreases ey - y,
{
    if y >= ey {
        if 0 <= y < ls.len() {
            span_text(ls[y], (0, ex as usize))
        } else {
            seq!['\n']
        }
    } else {
        (if 0 <= y < ls.len() {
            ls[y].flatten() + seq!['\n']
        } else {
            seq!['\n']
        }) + range_tail_text(ls, y + 1, ey, ex)
    }
}

/// What `Document::get_doc_content_as_string` returns: a direct substring
/// on one line; across lines, the start line's suffix, the middle lines,
/// and the end line's prefix, joined with line breaks.
pub open spec fn spec_doc_range_text(
    ls: Seq<Seq<Seq<char>>>,
    sy: int,
    sx: int,
    ey: int,
    ex: int,
) -> Seq<char> {
    if sy == ey {
        single_line_text(ls, sy, sx, ex)
    } else {
        (if 0 <= sy < ls.len() {
            ls[sy].skip(imin(sx, ls[sy].len() as int)).flatten() + seq!['\n']
        } else {
            seq!['\n']
        }) + range_tail_text(ls, sy + 1, ey, ex)
    }
}

impl Document {
    /// The grapheme at `pos`, or a line-break sentinel at or past the
    /// line's end; `None` for a line out of range.
    pub fn get_char_in_doc(&self, pos: Position) -> (r: Option<String>)
        requires
            self.wf(),
        ensures
            pos.y as int >= self.spec_lines().len() ==> r is None,
            (pos.y as int) < self.spec_lines().len() ==> ({
                let line = self.spec_lines()[pos.y as int];
                if pos.x as int >= line.len() {
                    r is Some && r->0@ == seq!['\n']
                } else {
                    r is Some && r->0@ == line[pos.x as int]
                }
            }),
    {
        let y = pos.y;
        let x = pos.x;
        if y >= self.rows.len() {
            return None;
        }
        proof {
            assert(self.spec_lines()[y as int] == self.spec_rows()[y as int]@);
            assert(self.spec_rows()[y as int].wf());
        }
        if x >= self.rows[y].len() {
            let nl = crate::graphemes::char_to_grapheme('\n');
            Some(nl)
        } else {
            Some(self.rows[y].grapheme_at(x))
        }
    }

    /// The text between `start` and `end`, lines joined by line breaks;
    /// see `spec_doc_range_text`.
    pub fn get_doc_content_as_string(&self, start: Position, end: Position) -> (r: String)
        requires
            self.wf(),
            start.y < end.y || (start.y == end.y && start.x <= end.x),
        ensures
            r@ == spec_doc_range_text(
                self.spec_lines(),
                start.y as int,
                start.x as int,
                end.y as int,
                end.x as int,
            ),
    {
        let n = self.rows.len();
        let ghost ls = self.spec_lines();
        if start.y == end.y {
            if start.y < n {
                proof {
                    assert(ls[start.y as int] == self.spec_rows()[start.y as int]@);
                }
                let t = self.rows[start.y].text_range(start.x, end.x);
                return t;
            }
            return String::new();
        }
        let mut out = String::new();
        if start.y < n {
            proof {
                assert(ls[start.y as int] == self.spec_rows()[start.y as int]@);
            }
            let rl = self.rows[start.y].len();
            let hi = if rl >= start.x {
                rl
            } else {
                start.x
            };
            let t = self.rows[start.y].text_range(start.x, hi);
            out.append(t.as_str());
            proof {
                let line = ls[start.y as int];
                assert(line.subrange(
                    imin(start.x as int, line.len() as int),
                    line.len() as int,
                ) =~= line.skip(imin(start.x as int, line.len() as int)));
            }
        }
        let nl = crate::graphemes::char_to_grapheme('\n');
        out.append(nl.as_str());
        let mut y = start.y + 1;
        let ghost full = spec_doc_range_text(
            ls,
            start.y as int,
            start.x as int,
            end.y as int,
            end.x as int,
        );
        proof {
            assert(full == out@ + range_tail_text(ls, y as int, end.y as int, end.x as int));
        }
        while y < end.y
            invariant
                start.y < y <= end.y,
                n == ls.len(),
                ls == self.spec_lines(),
                self.wf(),
                full == out@ + range_tail_text(ls, y as int, end.y as int, end.x as int),
            decreases end.y - y,
        {
            if y < n {
                proof {
                    assert(ls[y as int] == self.spec_rows()[y as int]@);
                }
                let rl = self.rows[y].len();
                let t = self.rows[y].text_range(0, rl);
                out.append(t.as_str());
                proof {
                    let line = ls[y as int];
                    assert(line.subrange(0, line.len() as int) =~= line);
                }
            }
            let nl2 = crate::graphemes::char_to_grapheme('\n');
            out.append(nl2.as_str());
            y += 1;
        }
        if y < n {
            proof {
                assert(ls[y as int] == self.spec_rows()[y as int]@);
            }
            let t = self.rows[y].text_range(0, end.x);
            out.append(t.as_str());
        } else {
            let nl3 = crate::graphemes::char_to_grapheme('\n');
            out.append(nl3.as_str());
        }
        out
    }
}

/// The least `\n` index at or after `from`.
pub open spec fn find_nl(s: Seq<char>, from: int) -> Option<int>
    decreases s.len() - from,
{
    if from < 0 || from >= s.len() {
        None
    } else if s[from] == '\n' {
        Some(from)
    } else {
        find_nl(s, from + 1)
    }
}

/// A line with one trailing carriage return stripped, as part of a
/// `\r\n` line ending.
pub open spec fn strip_cr(l: Seq<char>) -> Seq<char> {
    if l.len() > 0 && l.last() == '\r' {
        l.drop_last()
    } else {
        l
    }
}

/// The lines of `s` from position `pos` on: split at `\n` (a preceding
/// `\r` belongs to the terminator), the final line break optional.
pub open spec fn split_from(s: Seq<char>, pos: int) -> Seq<Seq<char>>
    decreases s.len() - pos,
{
    if pos < 0 || pos >= s.len() {
        Seq::empty()
    } else {
        match find_nl(s, pos) {
            None => seq![s.subrange(pos, s.len() as int)],
            Some(j) => if pos <= j < s.len() {
                seq![strip_cr(s.subrange(pos, j))] + split_from(s, j + 1)
            } else {
                Seq::empty()
            },
        }
    }
}

/// The lines a file's contents split into.
pub open spec fn split_lines(s: Seq<char>) -> Seq<Seq<char>> {
    split_from(s, 0)
}

proof fn lemma_find_nl_bounds(s: Seq<char>, from: int)
    ensures
        match find_nl(s, from) {
            Some(j) => from <= j < s.len() && s[j] == '\n',
            None => true,
        },
    decreases s.len() - from,
{
    if from < 0 || from >= s.len() {
    } else if s[from] == '\n' {
    } else {
        lemma_find_nl_bounds(s, from + 1);
    }
}

/// The grapheme content of a sequence of rows.
pub open spec fn rows_lines(rows: Seq<Row>) -> Seq<Seq<Seq<char>>> {
    Seq::new(rows.len(), |i: int| rows[i]@)
}

/// Each line segmented into graphemes.
pub open spec fn lines_graphemes(lines: Seq<Seq<char>>) -> Seq<Seq<Seq<char>>> {
    Seq::new(lines.len(), |i: int| graphemes_of(lines[i]))
}

/// The qualifying leading-space differences of the lines from `i` on,
/// with `prev` the last informative leading count seen: differences of
/// one or less are noise and are dropped.
pub open spec fn indent_diffs(ls: Seq<Seq<Seq<char>>>, i: int, prev: int) -> Seq<int>
    decreases ls.len() - i,
{
    if i < 0 || i >= ls.len() {
        Seq::empty()
    } else {
        let k = leading_spaces(ls[i]);
        if k == 0 || k == ls[i].len() {
            indent_diffs(ls, i + 1, prev)
        } else {
            let d = if k >= prev {
                k - prev
            } else {
                prev - k
            };
            (if d > 1 {
                seq![d]
            } else {
                Seq::<int>::empty()
            }) + indent_diffs(ls, i + 1, k)
        }
    }
}

/// One difference tallied into a histogram kept in first-seen key order.
pub open spec fn bump(t: Seq<(int, int)>, d: int) -> Seq<(int, int)>
    decreases t.len(),
{
    if t.len() == 0 {
        seq![(d, 1int)]
    } else if t[0].0 == d {
        seq![(t[0].0, t[0].1 + 1)] + t.drop_first()
    } else {
        seq![t[0]] + bump(t.drop_first(), d)
    }
}

/// The histogram of a difference list, keys in first-seen order.
pub open spec fn tally(ds: Seq<int>) -> Seq<(int, int)>
    decreases ds.len(),
{
    if ds.len() == 0 {
        Seq::empty()
    } else {
        bump(tally(ds.drop_last()), ds.last())
    }
}

/// The histogram entry with the greatest count, the earliest key winning
/// ties.
pub open spec fn best_entry(t: Seq<(int, int)>) -> (int, int)
    decreases t.len(),
{
    if t.len() == 0 {
        (0, 0)
    } else {
        let p = best_entry(t.drop_last());
        if t.last().1 > p.1 {
            t.last()
        } else {
            p
        }
    }
}

/// The inferred tab width: the most frequent qualifying leading-space
/// difference, first seen winning ties, defaulting to four.
pub open spec fn spec_calc_indent(ls: Seq<Seq<Seq<char>>>) -> int {
    let t = tally(indent_diffs(ls, 0, 0));
    if t.len() == 0 {
        DEFAULT_SPACES_PER_TAB as int
    } else {
        best_entry(t).0
    }
}

proof fn lemma_bump(t: Seq<(int, int)>, d: int, k: int)
    requires
        0 <= k <= t.len(),
        forall|j: int| 0 <= j < k ==> (#[trigger] t[j]).0 != d,
        k == t.len() || t[k].0 == d,
    ensures
        k < t.len() ==> bump(t, d) == t.update(k, (d, t[k].1 + 1)),
        k == t.len() ==> bump(t, d) == t.push((d, 1int)),
    decreases k,
{
    if k == 0 {
        if t.len() == 0 {
            assert(bump(t, d) =~= t.push((d, 1int)));
        } else if t[0].0 == d {
            assert(bump(t, d) =~= t.update(0, (d, t[0].1 + 1)));
        }
    } else {
        lemma_bump(t.drop_first(), d, k - 1);
        if k < t.len() {
            assert(bump(t, d) =~= t.update(k, (d, t[k].1 + 1)));
        } else {
            assert(bump(t, d) =~= t.push((d, 1int)));
        }
    }
}

/// What a saved file holds: every line's text followed by exactly one
/// line terminator, in line order.
pub open spec fn spec_save_content(ls: Seq<Seq<Seq<char>>>) -> Seq<char>
    decreases ls.len(),
{
    if ls.len() == 0 {
        Seq::empty()
    } else {
        spec_save_content(ls.drop_last()) + ls.last().flatten() + seq!['\n']
    }
}

impl Document {
    /// Infers the tab width from the rows by majority vote over the
    /// qualifying leading-space differences; see `spec_calc_indent`.
    fn calculate_indent(rows: &Vec<Row>) -> (r: usize)
        requires
            forall|i: int| 0 <= i < rows@.len() ==> (#[trigger] rows@[i]).wf(),
        ensures
            r as int == spec_calc_indent(rows_lines(rows@)),
            r >= 2,
    {
        let ghost ls = rows_lines(rows@);
        let n = rows.len();
        let mut t: Vec<(usize, usize)> = Vec::new();
        let mut prev: usize = 0;
        let ghost mut ds: Seq<int> = Seq::empty();
        let ghost mut gt: Seq<(int, int)> = Seq::empty();
        proof {
            assert(gt =~= tally(ds));
        }
        for i in 0..n
            invariant
                n == ls.len(),
                ls == rows_lines(rows@),
                forall|j: int| 0 <= j < rows@.len() ==> (#[trigger] rows@[j]).wf(),
                indent_diffs(ls, 0, 0) == ds + indent_diffs(ls, i as int, prev as int),
                gt == tally(ds),
                ds.len() <= i,
                t@.len() == gt.len(),
                forall|j: int|
                    0 <= j < gt.len() ==> (#[trigger] t@[j]).0 as int == gt[j].0 && t@[j].1 as int
                        == gt[j].1,
                forall|j: int| 0 <= j < gt.len() ==> (#[trigger] gt[j]).0 > 1 && gt[j].1 >= 1,
                forall|j: int| 0 <= j < gt.len() ==> (#[trigger] gt[j]).1 <= ds.len(),
            decreases n - i,
        {
            proof {
                assert(ls[i as int] == rows@[i as int]@);
            }
            match rows[i].get_leading_spaces() {
                None => {
                    proof {
                        assert(indent_diffs(ls, i as int, prev as int) == indent_diffs(
                            ls,
                            i + 1,
                            prev as int,
                        ));
                    }
                },
                Some(k) => {
                    let d = if k >= prev {
                        k - prev
                    } else {
                        prev - k
                    };
                    if d > 1 {
                        let ghost pre_t = gt;
                        let m = t.len();
                        let mut idx: usize = 0;
                        while idx < m && t[idx].0 != d
                            invariant
                                idx <= m,
                                m == t@.len(),
                                t@.len() == gt.len(),
                                forall|j: int|
                                    0 <= j < gt.len() ==> (#[trigger] t@[j]).0 as int == gt[j].0
                                        && t@[j].1 as int == gt[j].1,
                                forall|j: int| 0 <= j < idx ==> (#[trigger] gt[j]).0 != d as int,
                            decreases m - idx,
                        {
                            idx += 1;
                        }
                        proof {
                            lemma_bump(gt, d as int, idx as int);
                        }
                        if idx < m {
                            let c = t[idx].1;
                            proof {
                                assert(gt[idx as int].1 <= ds.len());
                            }
                            t.set(idx, (d, c + 1));
                        } else {
                            t.push((d, 1));
                        }
                        proof {
                            let pre_ds = ds;
                            ds = ds.push(d as int);
                            assert(ds.drop_last() =~= pre_ds);
                            gt = bump(gt, d as int);
                            assert(gt == tally(ds));
                        }
                    }
                    prev = k;
                },
            }
        }
        proof {
            assert(indent_diffs(ls, n as int, prev as int) =~= Seq::<int>::empty());
            assert(ds + Seq::<int>::empty() =~= ds);
        }
        let m = t.len();
        if m == 0 {
            return DEFAULT_SPACES_PER_TAB;
        }
        let mut bd: usize = 0;
        let mut bc: usize = 0;
        proof {
            assert(gt.take(0) =~= Seq::<(int, int)>::empty());
        }
        for j in 0..m
            invariant
                m == t@.len(),
                t@.len() == gt.len(),
                forall|jj: int|
                    0 <= jj < gt.len() ==> (#[trigger] t@[jj]).0 as int == gt[jj].0 && t@[jj].1
                        as int == gt[jj].1,
                forall|jj: int| 0 <= jj < gt.len() ==> (#[trigger] gt[jj]).0 > 1 && gt[jj].1 >= 1,
                (bd as int, bc as int) == best_entry(gt.take(j as int)),
                j > 0 ==> bc >= 1,
                bc >= 1 ==> bd >= 2,
            decreases m - j,
        {
            let (d, c) = t[j];
            if c > bc {
                bd = d;
                bc = c;
            }
            proof {
                assert(gt.take(j + 1).drop_last() =~= gt.take(j as int));
                assert(gt.take(j + 1).last() == gt[j as int]);
            }
        }
        proof {
            assert(gt.take(m as int) =~= gt);
        }
        bd
    }

    /// Builds a document from a filename and the file's contents: the
    /// contents split into lines, the tab width inferred from the lines'
    /// indentation, every literal tab expanded to that many spaces, and
    /// the file type selected by the filename's extension.
    pub fn open(filename: &str, contents: &str) -> (r: Document)
        ensures
            r.wf(),
            r.spec_filename() == Some(filename@),
            !r.spec_dirty(),
            r.spec_file_type_name() == spec_filetype_name(filename@),
            r.spec_options() == spec_filetype_opts(filename@),
            r.spec_selected_rows() == Seq::<usize>::empty(),
            ({
                let lines = split_lines(contents@);
                let ls0 = lines_graphemes(lines);
                let spt = spec_calc_indent(ls0);
                &&& r.spec_spaces_per_tab() as int == spt
                &&& r.spec_rows().len() == lines.len()
                &&& (forall|i: int|
                    0 <= i < lines.len() ==> (#[trigger] r.spec_rows()[i])@ == crate::row::expand_tabs(
                        graphemes_of(lines[i]),
                        spt as nat,
                    ))
                &&& (forall|i: int|
                    0 <= i < lines.len() ==> (#[trigger] r.spec_rows()[i]).spec_selections()
                        == Seq::<(usize, usize)>::empty() && !r.spec_rows()[i].spec_is_highlighted())
            }),
    {
        let file_type = FileType::from(filename);
        let n = contents.unicode_len();
        let mut rows: Vec<Row> = Vec::new();
        let mut pos: usize = 0;
        let ghost mut built_m: Seq<Seq<char>> = Seq::empty();
        proof {
            assert(split_from(contents@, 0) =~= built_m + split_from(contents@, 0));
        }
        while pos < n
            invariant
                pos <= n,
                n == contents@.len(),
                split_from(contents@, 0) == built_m + split_from(contents@, pos as int),
                rows@.len() == built_m.len(),
                forall|i: int|
                    0 <= i < built_m.len() ==> (#[trigger] rows@[i])@ == graphemes_of(built_m[i])
                        && rows@[i].wf() && rows@[i].spec_selections() == Seq::<(usize, usize)>::empty()
                        && !rows@[i].spec_is_highlighted(),
            decreases n - pos,
        {
            let mut j = pos;
            while j < n && contents.get_char(j) != '\n'
                invariant
                    pos <= j <= n,
                    n == contents@.len(),
                    find_nl(contents@, pos as int) == find_nl(contents@, j as int),
                decreases n - j,
            {
                j += 1;
            }
            let ghost pre_built = built_m;
            if j < n {
                let end = if j > pos && contents.get_char(j - 1) == '\r' {
                    j - 1
                } else {
                    j
                };
                let line_str = contents.substring_char(pos, end);
                rows.push(Row::from(line_str));
                proof {
                    lemma_find_nl_bounds(contents@, pos as int);
                    assert(find_nl(contents@, pos as int) == Some(j as int));
                    assert(strip_cr(contents@.subrange(pos as int, j as int)) =~= contents@.subrange(
                        pos as int,
                        end as int,
                    ));
                    built_m = built_m.push(contents@.subrange(pos as int, end as int));
                    assert(built_m =~= pre_built + seq![contents@.subrange(pos as int, end as int)]);
                    assert(split_from(contents@, 0) =~= built_m + split_from(contents@, j + 1));
                }
                pos = j + 1;
            } else {
                let line_str = contents.substring_char(pos, n);
                rows.push(Row::from(line_str));
                proof {
                    assert(find_nl(contents@, pos as int) is None);
                    built_m = built_m.push(contents@.subrange(pos as int, n as int));
                    assert(built_m =~= pre_built + seq![contents@.subrange(pos as int, n as int)]);
                    assert(split_from(contents@, n as int) =~= Seq::<Seq<char>>::empty());
                    assert(split_from(contents@, 0) =~= built_m + split_from(contents@, n as int));
                }
                pos = n;
            }
        }
        proof {
            assert(split_from(contents@, pos as int) =~= Seq::<Seq<char>>::empty());
            assert(built_m =~= split_lines(contents@));
            assert(rows_lines(rows@) =~= lines_graphemes(split_lines(contents@)));
        }
        let spaces_per_tab = Self::calculate_indent(&rows);
        let ghost pre_rows = rows@;
        let rn = rows.len();
        for i in 0..rn
            invariant
                rn == rows@.len(),
                rows@.len() == pre_rows.len(),
                spaces_per_tab >= 2,
                forall|j: int| i <= j < rn ==> #[trigger] rows@[j] == pre_rows[j],
                forall|j: int|
                    0 <= j < i ==> (#[trigger] rows@[j])@ == crate::row::expand_tabs(
                        pre_rows[j]@,
                        spaces_per_tab as nat,
                    ) && rows@[j].wf() && rows@[j].spec_selections() == Seq::<(usize, usize)>::empty()
                        && !rows@[j].spec_is_highlighted(),
                forall|j: int| 0 <= j < rn ==> (#[trigger] rows@[j]).wf(),
                forall|j: int|
                    0 <= j < rn ==> (#[trigger] pre_rows[j]).spec_selections() == Seq::<
                        (usize, usize),
                    >::empty(),
            decreases rn - i,
        {
            rows[i].replace_tabs_with_spaces(spaces_per_tab);
        }
        Document {
            rows,
            filename: Some(String::from_str(filename)),
            dirty: false,
            file_type,
            spaces_per_tab,
            selections: Vec::new(),
        }
    }

    /// The exact bytes a save writes: every line's text followed by one
    /// line terminator.
    pub fn save_content(&self) -> (r: String)
        requires
            self.wf(),
        ensures
            r@ == spec_save_content(self.spec_lines()),
    {
        let n = self.rows.len();
        let mut out = String::new();
        let ghost ls = self.spec_lines();
        proof {
            assert(out@ =~= spec_save_content(ls.take(0)));
        }
        for i in 0..n
            invariant
                n == ls.len(),
                ls == self.spec_lines(),
                self.wf(),
                out@ == spec_save_content(ls.take(i as int)),
            decreases n - i,
        {
            proof {
                assert(ls[i as int] == self.spec_rows()[i as int]@);
            }
            let t = self.rows[i].to_string();
            out.append(t.as_str());
            let nl = char_to_grapheme('\n');
            out.append(nl.as_str());
            proof {
                assert(ls.take(i + 1).drop_last() =~= ls.take(i as int));
                assert(ls.take(i + 1).last() == ls[i as int]);
            }
        }
        proof {
            assert(ls.take(n as int) =~= ls);
        }
        out
    }

    /// Records a successful save: the dirty flag clears and the file type
    /// is refreshed from the filename. With no filename this is a no-op,
    /// matching a save that wrote nothing.
    pub fn mark_saved(&mut self)
        requires
            old(self).wf(),
        ensures
            final(self).wf(),
            final(self).spec_rows() == old(self).spec_rows(),
            final(self).spec_filename() == old(self).spec_filename(),
            final(self).spec_spaces_per_tab() == old(self).spec_spaces_per_tab(),
            final(self).spec_selected_rows() == old(self).spec_selected_rows(),
            old(self).spec_filename() is None ==> *final(self) == *old(self),
            old(self).spec_filename() matches Some(f) ==> !final(self).spec_dirty()
                && final(self).spec_file_type_name() == spec_filetype_name(f)
                && final(self).spec_options() == spec_filetype_opts(f),
    {
        if self.filename.is_some() {
            let f = self.filename.as_ref().unwrap().clone();
            self.file_type = FileType::from(f.as_str());
            self.dirty = false;
        }
    }
}

} // verus!
