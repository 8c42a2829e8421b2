use vstd::prelude::*;
use vstd::string::StrSliceExecFns;

use crate::document::delete_effect;
use crate::document::insert_effect;
use crate::document::Document;
use crate::position::Position;

verus! {

/// The coalescing category of a command group: consecutive commands of
/// the same category merge into one undo step.
#[derive(PartialEq, Eq, Structural, Clone, Copy, Debug)]
pub enum CommandType {
    PASTE,
    INSERT,
    DELETE,
    BACKSPACE,
    REPLACE,
}

/// One step of the cursor to the right over the given rows: along the
/// line while graphemes remain, else to the start of the next line while
/// lines remain.
pub open spec fn move_right(rows: Seq<crate::row::Row>, c: Position) -> Position {
    if c.y < rows.len() && (c.x as int) < rows[c.y as int]@.len() {
        Position { y: c.y, x: (c.x + 1) as usize }
    } else if (c.y as int) < rows.len() {
        Position { y: (c.y + 1) as usize, x: 0 }
    } else {
        c
    }
}

/// `k` steps of the cursor to the right.
pub open spec fn advance(rows: Seq<crate::row::Row>, c: Position, k: int) -> Position
    decreases k,
{
    if k <= 0 {
        c
    } else {
        advance(rows, move_right(rows, c), k - 1)
    }
}

/// One character inserted at the cursor, the cursor then advanced one
/// step plus the extra advance the insertion reported.
pub open spec fn ins_step_rel(
    r0: Seq<crate::row::Row>,
    c0: Position,
    ch: char,
    spt: int,
    r1: Seq<crate::row::Row>,
    c1: Position,
) -> bool {
    exists|ret: int|
        #![trigger insert_effect(r0, r1, c0.y as int, c0.x as int, ch, spt, ret)]
        insert_effect(r0, r1, c0.y as int, c0.x as int, ch, spt, ret) && ret >= 0 && c1 == advance(
            r1,
            c0,
            ret + 1,
        )
}

/// A string inserted character by character, the cursor walking as
/// indentation-aware insertion dictates.
pub open spec fn ins_chain(
    s: Seq<char>,
    r0: Seq<crate::row::Row>,
    c0: Position,
    spt: int,
    r1: Seq<crate::row::Row>,
    c1: Position,
) -> bool
    decreases s.len(),
{
    if s.len() == 0 {
        r1 == r0 && c1 == c0
    } else {
        exists|rm: Seq<crate::row::Row>, cm: Position|
            #![trigger ins_step_rel(r0, c0, s[0], spt, rm, cm)]
            ins_step_rel(r0, c0, s[0], spt, rm, cm) && ins_chain(
                s.drop_first(),
                rm,
                cm,
                spt,
                r1,
                c1,
            )
    }
}

/// `k` deletions at one fixed position.
pub open spec fn del_chain(
    k: int,
    r0: Seq<crate::row::Row>,
    p: Position,
    r1: Seq<crate::row::Row>,
) -> bool
    decreases k,
{
    if k <= 0 {
        r1 == r0
    } else {
        exists|rm: Seq<crate::row::Row>|
            #![trigger delete_effect(r0, rm, p.y as int, p.x as int)]
            delete_effect(r0, rm, p.y as int, p.x as int) && del_chain(k - 1, rm, p, r1)
    }
}

/// One cursor step to the right, executably.
fn move_right_exec(doc: &Document, c: Position) -> (r: Position)
    requires
        doc.wf(),
    ensures
        r == move_right(doc.spec_rows(), c),
{
    let n = doc.len();
    if c.y < n {
        match doc.row(c.y) {
            Some(row) => {
                if c.x < row.len() {
                    Position { y: c.y, x: c.x + 1 }
                } else {
                    Position { y: c.y + 1, x: 0 }
                }
            },
            None => c,
        }
    } else {
        c
    }
}

/// Inserts a string character by character at `at`, the cursor advancing
/// after each character by one step plus the reported extra advance;
/// returns the final cursor.
pub fn insert_string_at(doc: &mut Document, at: &Position, to_insert: &str) -> (cur: Position)
    requires
        old(doc).wf(),
    ensures
        final(doc).wf(),
        Document::same_meta(*old(doc), *final(doc)),
        old(doc).spec_dirty() ==> final(doc).spec_dirty(),
        ins_chain(
            to_insert@,
            old(doc).spec_rows(),
            *at,
            old(doc).spec_spaces_per_tab() as int,
            final(doc).spec_rows(),
            cur,
        ),
{
    let mut cur = *at;
    let n = to_insert.unicode_len();
    let ghost rows0 = doc.spec_rows();
    let ghost at0 = *at;
    let ghost spt = doc.spec_spaces_per_tab() as int;
    let ghost s = to_insert@;
    proof {
        assert(s.skip(0) =~= s);
    }
    for i in 0..n
        invariant
            n == s.len(),
            s == to_insert@,
            doc.wf(),
            Document::same_meta(*old(doc), *doc),
            old(doc).spec_dirty() ==> doc.spec_dirty(),
            spt == doc.spec_spaces_per_tab() as int,
            forall|rf: Seq<crate::row::Row>, cf: Position|
                ins_chain(s.skip(i as int), doc.spec_rows(), cur, spt, rf, cf) ==> #[trigger] ins_chain(
                    s,
                    rows0,
                    at0,
                    spt,
                    rf,
                    cf,
                ),
            rows0 == old(doc).spec_rows(),
            at0 == *at,
        decreases n - i,
    {
        let c = to_insert.get_char(i);
        let ghost pre_rows = doc.spec_rows();
        let ghost pre_cur = cur;
        let mut pos = cur;
        let indent = doc.insert(&mut pos, c);
        let ghost rows1 = doc.spec_rows();
        proof {
            lemma_advance_snoc(rows1, pre_cur, 0);
            assert(advance(rows1, pre_cur, 0) == pre_cur);
        }
        cur = move_right_exec(doc, cur);
        for k in 0..indent
            invariant
                doc.wf(),
                rows1 == doc.spec_rows(),
                cur == advance(rows1, pre_cur, k + 1),
                Document::same_meta(*old(doc), *doc),
                old(doc).spec_dirty() ==> doc.spec_dirty(),
                spt == doc.spec_spaces_per_tab() as int,
            decreases indent - k,
        {
            proof {
                lemma_advance_snoc(rows1, pre_cur, k + 1);
            }
            cur = move_right_exec(doc, cur);
        }
        proof {
            assert(cur == advance(rows1, pre_cur, indent + 1));
            assert(ins_step_rel(pre_rows, pre_cur, c, spt, rows1, cur)) by {
                assert(insert_effect(
                    pre_rows,
                    rows1,
                    pre_cur.y as int,
                    pre_cur.x as int,
                    c,
                    spt,
                    indent as int,
                ));
            }
            assert(s.skip(i as int).drop_first() =~= s.skip(i + 1));
            assert(s.skip(i as int)[0] == s[i as int]);
            assert(ins_step_rel(pre_rows, pre_cur, s.skip(i as int)[0], spt, rows1, cur));
            assert(rows1 == doc.spec_rows());
            assert forall|rf: Seq<crate::row::Row>, cf: Position|
                ins_chain(s.skip(i + 1), doc.spec_rows(), cur, spt, rf, cf) implies #[trigger] ins_chain(
                s,
                rows0,
                at0,
                spt,
                rf,
                cf,
            ) by {
                assert(ins_chain(s.skip(i + 1), doc.spec_rows(), cur, spt, rf, cf));
                assert(ins_chain(s.skip(i as int).drop_first(), rows1, cur, spt, rf, cf));
                lemma_ins_chain_cons(
                    s.skip(i as int),
                    pre_rows,
                    pre_cur,
                    spt,
                    rows1,
                    cur,
                    rf,
                    cf,
                );
            }
        }
    }
    proof {
        assert(s.skip(n as int) =~= Seq::<char>::empty());
        assert(ins_chain(s.skip(n as int), doc.spec_rows(), cur, spt, doc.spec_rows(), cur));
    }
    cur
}

/// One more step after `k` steps is `k + 1` steps.
proof fn lemma_advance_snoc(rows: Seq<crate::row::Row>, c: Position, k: int)
    requires
        k >= 0,
    ensures
        move_right(rows, advance(rows, c, k)) == advance(rows, c, k + 1),
    decreases k,
{
    if k == 0 {
        assert(advance(rows, c, 0) == c);
        assert(advance(rows, c, 1) == advance(rows, move_right(rows, c), 0));
        assert(advance(rows, move_right(rows, c), 0) == move_right(rows, c));
    } else {
        lemma_advance_snoc(rows, move_right(rows, c), k - 1);
    }
}

/// Deletes `n_chars_to_delete` graphemes, each at the same position `at`.
pub fn delete_chars_at(doc: &mut Document, at: &Position, n_chars_to_delete: usize)
    requires
        old(doc).wf(),
    ensures
        final(doc).wf(),
        Document::same_meta(*old(doc), *final(doc)),
        old(doc).spec_dirty() ==> final(doc).spec_dirty(),
        del_chain(
            n_chars_to_delete as int,
            old(doc).spec_rows(),
            *at,
            final(doc).spec_rows(),
        ),
{
    let ghost rows0 = doc.spec_rows();
    for i in 0..n_chars_to_delete
        invariant
            doc.wf(),
            Document::same_meta(*old(doc), *doc),
            old(doc).spec_dirty() ==> doc.spec_dirty(),
            rows0 == old(doc).spec_rows(),
            forall|rf: Seq<crate::row::Row>|
                del_chain((n_chars_to_delete - i) as int, doc.spec_rows(), *at, rf)
                    ==> #[trigger] del_chain(n_chars_to_delete as int, rows0, *at, rf),
        decreases n_chars_to_delete - i,
    {
        let ghost pre_rows = doc.spec_rows();
        doc.delete(at);
        proof {
            assert forall|rf: Seq<crate::row::Row>|
                del_chain((n_chars_to_delete - i - 1) as int, doc.spec_rows(), *at, rf) implies #[trigger] del_chain(
                n_chars_to_delete as int,
                rows0,
                *at,
                rf,
            ) by {
                assert(del_chain((n_chars_to_delete - i - 1) as int, doc.spec_rows(), *at, rf));
                assert(delete_effect(pre_rows, doc.spec_rows(), at.y as int, at.x as int));
                assert(del_chain((n_chars_to_delete - i) as int, pre_rows, *at, rf));
            }
        }
    }
    proof {
        assert(del_chain(0, doc.spec_rows(), *at, doc.spec_rows()));
    }
}

/// Chain introduction for one inserted character followed by the rest.
proof fn lemma_ins_chain_cons(
    s: Seq<char>,
    r0: Seq<crate::row::Row>,
    c0: Position,
    spt: int,
    rm: Seq<crate::row::Row>,
    cm: Position,
    r1: Seq<crate::row::Row>,
    c1: Position,
)
    requires
        s.len() > 0,
        ins_step_rel(r0, c0, s[0], spt, rm, cm),
        ins_chain(s.drop_first(), rm, cm, spt, r1, c1),
    ensures
        ins_chain(s, r0, c0, spt, r1, c1),
{
    reveal_with_fuel(ins_chain, 2);
    assert(exists|rm2: Seq<crate::row::Row>, cm2: Position|
        ins_step_rel(r0, c0, s[0], spt, rm2, cm2) && ins_chain(
            s.drop_first(),
            rm2,
            cm2,
            spt,
            r1,
            c1,
        )) by {
        assert(ins_step_rel(r0, c0, s[0], spt, rm, cm) && ins_chain(
            s.drop_first(),
            rm,
            cm,
            spt,
            r1,
            c1,
        ));
    }
}

/// Chain introduction for one executed command followed by the rest.
proof fn lemma_grp_exec_cons(
    cmds: Seq<Command>,
    r0: Seq<crate::row::Row>,
    spt: int,
    rm: Seq<crate::row::Row>,
    r1: Seq<crate::row::Row>,
)
    requires
        cmds.len() > 0,
        cmd_exec_rel(cmds[0], r0, spt, rm),
        grp_exec_chain(cmds.drop_first(), rm, spt, r1),
    ensures
        grp_exec_chain(cmds, r0, spt, r1),
{
    reveal_with_fuel(grp_exec_chain, 2);
    assert(exists|rm2: Seq<crate::row::Row>|
        cmd_exec_rel(cmds[0], r0, spt, rm2) && grp_exec_chain(
            cmds.drop_first(),
            rm2,
            spt,
            r1,
        )) by {
        assert(cmd_exec_rel(cmds[0], r0, spt, rm) && grp_exec_chain(
            cmds.drop_first(),
            rm,
            spt,
            r1,
        ));
    }
}

/// Chain introduction for one undone command followed by the rest.
proof fn lemma_grp_undo_cons(
    cmds: Seq<Command>,
    r0: Seq<crate::row::Row>,
    spt: int,
    rm: Seq<crate::row::Row>,
    r1: Seq<crate::row::Row>,
)
    requires
        cmds.len() > 0,
        cmd_undo_rel(cmds.last(), r0, spt, rm),
        grp_undo_chain(cmds.drop_last(), rm, spt, r1),
    ensures
        grp_undo_chain(cmds, r0, spt, r1),
{
    reveal_with_fuel(grp_undo_chain, 2);
    assert(exists|rm2: Seq<crate::row::Row>|
        cmd_undo_rel(cmds.last(), r0, spt, rm2) && grp_undo_chain(
            cmds.drop_last(),
            rm2,
            spt,
            r1,
        )) by {
        assert(cmd_undo_rel(cmds.last(), r0, spt, rm) && grp_undo_chain(
            cmds.drop_last(),
            rm,
            spt,
            r1,
        ));
    }
}

/// A copy command: it has no effect on the document and undoing it is a
/// no-op; the controller reads the active selection into the clipboard.
pub struct CopyCommand;

impl CopyCommand {
    /// A new copy command.
    pub fn new() -> (r: CopyCommand) {
        CopyCommand
    }
}

/// An insertion of captured text at a captured anchor position.
pub struct InsertCommand {
    position: Position,
    content: String,
}

impl InsertCommand {
    /// The captured anchor.
    pub closed spec fn spec_position(&self) -> Position {
        self.position
    }

    /// The captured text.
    pub closed spec fn spec_content(&self) -> Seq<char> {
        self.content@
    }

    /// A new insert command for `content` at `position`.
    pub fn new(position: Position, content: String) -> (r: InsertCommand)
        ensures
            r.spec_position() == position,
            r.spec_content() == content@,
    {
        InsertCommand { position, content }
    }
}

/// A deletion of captured text from a captured position.
pub struct DeleteCommand {
    position: Position,
    content: String,
}

impl DeleteCommand {
    /// The captured position.
    pub closed spec fn spec_position(&self) -> Position {
        self.position
    }

    /// The captured deleted text.
    pub closed spec fn spec_content(&self) -> Seq<char> {
        self.content@
    }

    /// A new delete command for `content` at `position`.
    pub fn new(position: Position, content: String) -> (r: DeleteCommand)
        ensures
            r.spec_position() == position,
            r.spec_content() == content@,
    {
        DeleteCommand { position, content }
    }
}

/// A paste of the captured clipboard at a captured position.
pub struct PasteCommand {
    position: Position,
    clipboard: Option<String>,
}

impl PasteCommand {
    /// The captured position.
    pub closed spec fn spec_position(&self) -> Position {
        self.position
    }

    /// The captured clipboard text, if any.
    pub closed spec fn spec_clipboard(&self) -> Option<Seq<char>> {
        match self.clipboard {
            Some(t) => Some(t@),
            None => None,
        }
    }

    /// A new paste command for `clipboard` at `position`.
    pub fn new(position: Position, clipboard: Option<String>) -> (r: PasteCommand)
        ensures
            r.spec_position() == position,
            r.spec_clipboard() == (match clipboard {
                Some(t) => Some(t@),
                None => None::<Seq<char>>,
            }),
    {
        PasteCommand { position, clipboard }
    }
}

/// The closed set of undoable commands.
pub enum Command {
    Insert(InsertCommand),
    Delete(DeleteCommand),
    Paste(PasteCommand),
    Copy(CopyCommand),
}

/// What executing one command does to the rows: an insert or paste plays
/// its text in at its anchor; a delete removes as many graphemes as its
/// captured text holds; a copy changes nothing.
pub open spec fn cmd_exec_rel(
    cmd: Command,
    r0: Seq<crate::row::Row>,
    spt: int,
    r1: Seq<crate::row::Row>,
) -> bool {
    match cmd {
        Command::Insert(ic) => exists|cf: Position|
            ins_chain(ic.spec_content(), r0, ic.spec_position(), spt, r1, cf),
        Command::Delete(dc) => del_chain(dc.spec_content().len() as int, r0, dc.spec_position(), r1),
        Command::Paste(pc) => match pc.spec_clipboard() {
            Some(t) => exists|cf: Position| ins_chain(t, r0, pc.spec_position(), spt, r1, cf),
            None => r1 == r0,
        },
        Command::Copy(_) => r1 == r0,
    }
}

/// What undoing one command does to the rows: the exact inverse kind —
/// an insert or paste deletes as many graphemes as it put in, a delete
/// re-inserts the captured text, a copy changes nothing.
pub open spec fn cmd_undo_rel(
    cmd: Command,
    r0: Seq<crate::row::Row>,
    spt: int,
    r1: Seq<crate::row::Row>,
) -> bool {
    match cmd {
        Command::Insert(ic) => del_chain(ic.spec_content().len() as int, r0, ic.spec_position(), r1),
        Command::Delete(dc) => exists|cf: Position|
            ins_chain(dc.spec_content(), r0, dc.spec_position(), spt, r1, cf),
        Command::Paste(pc) => match pc.spec_clipboard() {
            Some(t) => del_chain(t.len() as int, r0, pc.spec_position(), r1),
            None => r1 == r0,
        },
        Command::Copy(_) => r1 == r0,
    }
}

impl Command {
    /// Applies the command's forward effect to the document.
    pub fn execute(&self, doc: &mut Document)
        requires
            old(doc).wf(),
        ensures
            final(doc).wf(),
            Document::same_meta(*old(doc), *final(doc)),
            old(doc).spec_dirty() ==> final(doc).spec_dirty(),
            cmd_exec_rel(
                *self,
                old(doc).spec_rows(),
                old(doc).spec_spaces_per_tab() as int,
                final(doc).spec_rows(),
            ),
    {
        match self {
            Command::Insert(ic) => {
                let cur = insert_string_at(doc, &ic.position, ic.content.as_str());
                proof {
                    assert(exists|cf: Position|
                        ins_chain(
                            ic.spec_content(),
                            old(doc).spec_rows(),
                            ic.spec_position(),
                            old(doc).spec_spaces_per_tab() as int,
                            doc.spec_rows(),
                            cf,
                        )) by {
                        assert(ins_chain(
                            ic.spec_content(),
                            old(doc).spec_rows(),
                            ic.spec_position(),
                            old(doc).spec_spaces_per_tab() as int,
                            doc.spec_rows(),
                            cur,
                        ));
                    }
                    assert(cmd_exec_rel(
                        *self,
                        old(doc).spec_rows(),
                        old(doc).spec_spaces_per_tab() as int,
                        doc.spec_rows(),
                    ));
                }
            },
            Command::Delete(dc) => {
                let count = dc.content.as_str().unicode_len();
                delete_chars_at(doc, &dc.position, count);
                proof {
                    assert(del_chain(
                        dc.spec_content().len() as int,
                        old(doc).spec_rows(),
                        dc.spec_position(),
                        doc.spec_rows(),
                    ));
                    assert(cmd_exec_rel(
                        *self,
                        old(doc).spec_rows(),
                        old(doc).spec_spaces_per_tab() as int,
                        doc.spec_rows(),
                    ));
                }
            },
            Command::Paste(pc) => {
                match &pc.clipboard {
                    Some(t) => {
                        let cur = insert_string_at(doc, &pc.position, t.as_str());
                        proof {
                            assert(pc.spec_clipboard() == Some(t@));
                            assert(exists|cf: Position|
                                ins_chain(
                                    pc.spec_clipboard()->0,
                                    old(doc).spec_rows(),
                                    pc.spec_position(),
                                    old(doc).spec_spaces_per_tab() as int,
                                    doc.spec_rows(),
                                    cf,
                                )) by {
                                assert(ins_chain(
                                    pc.spec_clipboard()->0,
                                    old(doc).spec_rows(),
                                    pc.spec_position(),
                                    old(doc).spec_spaces_per_tab() as int,
                                    doc.spec_rows(),
                                    cur,
                                ));
                            }
                            assert(cmd_exec_rel(
                                *self,
                                old(doc).spec_rows(),
                                old(doc).spec_spaces_per_tab() as int,
                                doc.spec_rows(),
                            ));
                        }
                    },
                    None => {
                        proof {
                            assert(cmd_exec_rel(
                                *self,
                                old(doc).spec_rows(),
                                old(doc).spec_spaces_per_tab() as int,
                                doc.spec_rows(),
                            ));
                        }
                    },
                }
            },
            Command::Copy(_) => {
                proof {
                    assert(cmd_exec_rel(
                        *self,
                        old(doc).spec_rows(),
                        old(doc).spec_spaces_per_tab() as int,
                        doc.spec_rows(),
                    ));
                }
            },
        }
    }

    /// Applies the command's exact inverse to the document.
    pub fn undo(&self, doc: &mut Document)
        requires
            old(doc).wf(),
        ensures
            final(doc).wf(),
            Document::same_meta(*old(doc), *final(doc)),
            old(doc).spec_dirty() ==> final(doc).spec_dirty(),
            cmd_undo_rel(
                *self,
                old(doc).spec_rows(),
                old(doc).spec_spaces_per_tab() as int,
                final(doc).spec_rows(),
            ),
    {
        match self {
            Command::Insert(ic) => {
                let count = ic.content.as_str().unicode_len();
                delete_chars_at(doc, &ic.position, count);
                proof {
                    assert(del_chain(
                        ic.spec_content().len() as int,
                        old(doc).spec_rows(),
                        ic.spec_position(),
                        doc.spec_rows(),
                    ));
                    assert(cmd_undo_rel(
                        *self,
                        old(doc).spec_rows(),
                        old(doc).spec_spaces_per_tab() as int,
                        doc.spec_rows(),
                    ));
                }
            },
            Command::Delete(dc) => {
                let cur = insert_string_at(doc, &dc.position, dc.content.as_str());
                proof {
                    assert(exists|cf: Position|
                        ins_chain(
                            dc.spec_content(),
                            old(doc).spec_rows(),
                            dc.spec_position(),
                            old(doc).spec_spaces_per_tab() as int,
                            doc.spec_rows(),
                            cf,
                        )) by {
                        assert(ins_chain(
                            dc.spec_content(),
                            old(doc).spec_rows(),
                            dc.spec_position(),
                            old(doc).spec_spaces_per_tab() as int,
                            doc.spec_rows(),
                            cur,
                        ));
                    }
                    assert(cmd_undo_rel(
                        *self,
                        old(doc).spec_rows(),
                        old(doc).spec_spaces_per_tab() as int,
                        doc.spec_rows(),
                    ));
                }
            },
            Command::Paste(pc) => {
                match &pc.clipboard {
                    Some(t) => {
                        let count = t.as_str().unicode_len();
                        delete_chars_at(doc, &pc.position, count);
                        proof {
                            assert(pc.spec_clipboard() == Some(t@));
                            assert(del_chain(
                                pc.spec_clipboard()->0.len() as int,
                                old(doc).spec_rows(),
                                pc.spec_position(),
                                doc.spec_rows(),
                            ));
                            assert(cmd_undo_rel(
                                *self,
                                old(doc).spec_rows(),
                                old(doc).spec_spaces_per_tab() as int,
                                doc.spec_rows(),
                            ));
                        }
                    },
                    None => {
                        proof {
                            assert(cmd_undo_rel(
                                *self,
                                old(doc).spec_rows(),
                                old(doc).spec_spaces_per_tab() as int,
                                doc.spec_rows(),
                            ));
                        }
                    },
                }
            },
            Command::Copy(_) => {
                proof {
                    assert(cmd_undo_rel(
                        *self,
                        old(doc).spec_rows(),
                        old(doc).spec_spaces_per_tab() as int,
                        doc.spec_rows(),
                    ));
                }
            },
        }
    }
}

/// The member commands executed in order, front to back.
pub open spec fn grp_exec_chain(
    cmds: Seq<Command>,
    r0: Seq<crate::row::Row>,
    spt: int,
    r1: Seq<crate::row::Row>,
) -> bool
    decreases cmds.len(),
{
    if cmds.len() == 0 {
        r1 == r0
    } else {
        exists|rm: Seq<crate::row::Row>|
            #![trigger cmd_exec_rel(cmds[0], r0, spt, rm)]
            cmd_exec_rel(cmds[0], r0, spt, rm) && grp_exec_chain(cmds.drop_first(), rm, spt, r1)
    }
}

/// The member commands undone in reverse order: later edits are undone
/// before the earlier ones they depended on.
pub open spec fn grp_undo_chain(
    cmds: Seq<Command>,
    r0: Seq<crate::row::Row>,
    spt: int,
    r1: Seq<crate::row::Row>,
) -> bool
    decreases cmds.len(),
{
    if cmds.len() == 0 {
        r1 == r0
    } else {
        exists|rm: Seq<crate::row::Row>|
            #![trigger cmd_undo_rel(cmds.last(), r0, spt, rm)]
            cmd_undo_rel(cmds.last(), r0, spt, rm) && grp_undo_chain(cmds.drop_last(), rm, spt, r1)
    }
}

/// An ordered batch of commands treated as one atomic undo step, tagged
/// with its coalescing category.
pub struct CommandGroup {
    commands: Vec<Command>,
    /// The coalescing category of this group.
    pub command_type: CommandType,
}

impl CommandGroup {
    /// The member commands, in execution order.
    pub closed spec fn spec_commands(&self) -> Seq<Command> {
        self.commands@
    }

    /// The coalescing category of this group.
    pub closed spec fn spec_type(&self) -> CommandType {
        self.command_type
    }

    /// An empty group of the given category.
    pub fn new(command_type: CommandType) -> (r: CommandGroup)
        ensures
            r.spec_commands() == Seq::<Command>::empty(),
            r.spec_type() == command_type,
    {
        CommandGroup { commands: Vec::new(), command_type }
    }

    /// A group holding one command.
    pub fn from_command(command: Command, command_type: CommandType) -> (r: CommandGroup)
        ensures
            r.spec_commands() =~= seq![command],
            r.spec_type() == command_type,
    {
        let mut commands: Vec<Command> = Vec::new();
        commands.push(command);
        CommandGroup { commands, command_type }
    }

    /// Appends a command to this group.
    pub fn add(&mut self, command: Command)
        ensures
            final(self).spec_commands() == old(self).spec_commands().push(command),
            final(self).spec_type() == old(self).spec_type(),
    {
        self.commands.push(command);
    }

    /// Executes the member commands in order.
    pub fn execute(&self, doc: &mut Document)
        requires
            old(doc).wf(),
        ensures
            final(doc).wf(),
            Document::same_meta(*old(doc), *final(doc)),
            old(doc).spec_dirty() ==> final(doc).spec_dirty(),
            grp_exec_chain(
                self.spec_commands(),
                old(doc).spec_rows(),
                old(doc).spec_spaces_per_tab() as int,
                final(doc).spec_rows(),
            ),
    {
        let n = self.commands.len();
        let ghost rows0 = doc.spec_rows();
        let ghost spt = doc.spec_spaces_per_tab() as int;
        let ghost cs = self.spec_commands();
        proof {
            assert(cs.skip(0) =~= cs);
        }
        for i in 0..n
            invariant
                n == cs.len(),
                cs == self.spec_commands(),
                doc.wf(),
                Document::same_meta(*old(doc), *doc),
                old(doc).spec_dirty() ==> doc.spec_dirty(),
                spt == doc.spec_spaces_per_tab() as int,
                rows0 == old(doc).spec_rows(),
                forall|rf: Seq<crate::row::Row>|
                    grp_exec_chain(cs.skip(i as int), doc.spec_rows(), spt, rf)
                        ==> #[trigger] grp_exec_chain(cs, rows0, spt, rf),
            decreases n - i,
        {
            let ghost pre_rows = doc.spec_rows();
            self.commands[i].execute(doc);
            proof {
                assert(cs.skip(i as int).drop_first() =~= cs.skip(i + 1));
                assert(cs.skip(i as int)[0] == cs[i as int]);
                assert forall|rf: Seq<crate::row::Row>|
                    grp_exec_chain(cs.skip(i + 1), doc.spec_rows(), spt, rf) implies #[trigger] grp_exec_chain(
                    cs,
                    rows0,
                    spt,
                    rf,
                ) by {
                    assert(grp_exec_chain(cs.skip(i + 1), doc.spec_rows(), spt, rf));
                    assert(grp_exec_chain(cs.skip(i as int).drop_first(), doc.spec_rows(), spt, rf));
                    assert(cmd_exec_rel(cs.skip(i as int)[0], pre_rows, spt, doc.spec_rows()));
                    lemma_grp_exec_cons(cs.skip(i as int), pre_rows, spt, doc.spec_rows(), rf);
                }
            }
        }
        proof {
            assert(cs.skip(n as int) =~= Seq::<Command>::empty());
            assert(grp_exec_chain(cs.skip(n as int), doc.spec_rows(), spt, doc.spec_rows()));
        }
    }

    /// Undoes the member commands in reverse order.
    pub fn undo(&self, doc: &mut Document)
        requires
            old(doc).wf(),
        ensures
            final(doc).wf(),
            Document::same_meta(*old(doc), *final(doc)),
            old(doc).spec_dirty() ==> final(doc).spec_dirty(),
            grp_undo_chain(
                self.spec_commands(),
                old(doc).spec_rows(),
                old(doc).spec_spaces_per_tab() as int,
                final(doc).spec_rows(),
            ),
    {
        let n = self.commands.len();
        let ghost rows0 = doc.spec_rows();
        let ghost spt = doc.spec_spaces_per_tab() as int;
        let ghost cs = self.spec_commands();
        proof {
            assert(cs.take(n as int) =~= cs);
        }
        let mut k = n;
        while k > 0
            invariant
                k <= n,
                n == cs.len(),
                cs == self.spec_commands(),
                doc.wf(),
                Document::same_meta(*old(doc), *doc),
                old(doc).spec_dirty() ==> doc.spec_dirty(),
                spt == doc.spec_spaces_per_tab() as int,
                rows0 == old(doc).spec_rows(),
                forall|rf: Seq<crate::row::Row>|
                    grp_undo_chain(cs.take(k as int), doc.spec_rows(), spt, rf)
                        ==> #[trigger] grp_undo_chain(cs, rows0, spt, rf),
            decreases k,
        {
            let ghost pre_rows = doc.spec_rows();
            self.commands[k - 1].undo(doc);
            proof {
                assert(cs.take(k as int).drop_last() =~= cs.take(k - 1));
                assert(cs.take(k as int).last() == cs[k - 1]);
                assert forall|rf: Seq<crate::row::Row>|
                    grp_undo_chain(cs.take(k - 1), doc.spec_rows(), spt, rf) implies #[trigger] grp_undo_chain(
                    cs,
                    rows0,
                    spt,
                    rf,
                ) by {
                    assert(grp_undo_chain(cs.take(k - 1), doc.spec_rows(), spt, rf));
                    assert(grp_undo_chain(cs.take(k as int).drop_last(), doc.spec_rows(), spt, rf));
                    assert(cmd_undo_rel(cs.take(k as int).last(), pre_rows, spt, doc.spec_rows()));
                    lemma_grp_undo_cons(cs.take(k as int), pre_rows, spt, doc.spec_rows(), rf);
                }
            }
            k -= 1;
        }
        proof {
            assert(cs.take(0) =~= Seq::<Command>::empty());
            assert(grp_undo_chain(cs.take(0), doc.spec_rows(), spt, doc.spec_rows()));
        }
    }
}

/// A bounded first-in first-out history of command groups: pushing past
/// capacity silently evicts the oldest group.
pub struct History {
    groups: Vec<CommandGroup>,
    capacity: usize,
}

impl History {
    /// The stored groups, oldest first.
    pub closed spec fn spec_groups(&self) -> Seq<CommandGroup> {
        self.groups@
    }

    /// The fixed capacity.
    pub closed spec fn spec_capacity(&self) -> usize {
        self.capacity
    }

    /// The history never outgrows its capacity.
    pub closed spec fn wf(&self) -> bool {
        self.groups@.len() <= self.capacity
    }

    /// An empty history of the given capacity.
    pub fn new(capacity: usize) -> (r: History)
        ensures
            r.wf(),
            r.spec_groups() == Seq::<CommandGroup>::empty(),
            r.spec_capacity() == capacity,
    {
        History { groups: Vec::new(), capacity }
    }

    /// The number of stored groups.
    pub fn len(&self) -> (r: usize)
        ensures
            r == self.spec_groups().len(),
    {
        self.groups.len()
    }

    /// Pushes a group, silently evicting the oldest when full; with a
    /// zero capacity nothing is ever stored.
    pub fn push_back(&mut self, group: CommandGroup)
        requires
            old(self).wf(),
        ensures
            final(self).wf(),
            final(self).spec_capacity() == old(self).spec_capacity(),
            old(self).spec_groups().len() < old(self).spec_capacity() ==> final(self).spec_groups()
                == old(self).spec_groups().push(group),
            old(self).spec_groups().len() >= old(self).spec_capacity() && old(
                self,
            ).spec_capacity() > 0 ==> final(self).spec_groups() == old(
                self,
            ).spec_groups().drop_first().push(group),
            old(self).spec_capacity() == 0 ==> final(self).spec_groups() == old(
                self,
            ).spec_groups(),
    {
        if self.groups.len() >= self.capacity {
            if self.capacity == 0 {
                return ;
            }
            self.groups.remove(0);
            proof {
                assert(self.groups@ =~= old(self).groups@.drop_first());
            }
        }
        self.groups.push(group);
    }

    /// Pops the most recent group, if any.
    pub fn pop_back(&mut self) -> (r: Option<CommandGroup>)
        requires
            old(self).wf(),
        ensures
            final(self).wf(),
            final(self).spec_capacity() == old(self).spec_capacity(),
            old(self).spec_groups().len() == 0 ==> r is None && final(self).spec_groups() == old(
                self,
            ).spec_groups(),
            old(self).spec_groups().len() > 0 ==> r == Some(old(self).spec_groups().last())
                && final(self).spec_groups() == old(self).spec_groups().drop_last(),
    {
        let r = self.groups.pop();
        proof {
            if old(self).groups@.len() > 0 {
                assert(self.groups@ =~= old(self).groups@.drop_last());
            }
        }
        r
    }

    /// The coalescing category of the most recent group, if any.
    pub fn back_type(&self) -> (r: Option<CommandType>)
        ensures
            self.spec_groups().len() == 0 ==> r is None,
            self.spec_groups().len() > 0 ==> r == Some(self.spec_groups().last().spec_type()),
    {
        let n = self.groups.len();
        if n == 0 {
            None
        } else {
            Some(self.groups[n - 1].command_type)
        }
    }

    /// Appends a command to the most recent group when the categories
    /// agree; otherwise starts a new group holding it. This is the
    /// coalescing that turns consecutive same-kind edits into one undo
    /// step.
    pub fn merge_or_add(&mut self, command: Command, command_type: CommandType)
        requires
            old(self).wf(),
        ensures
            final(self).wf(),
            final(self).spec_capacity() == old(self).spec_capacity(),
            ({
                let g = old(self).spec_groups();
                let fg = final(self).spec_groups();
                if g.len() > 0 && g.last().spec_type() == command_type {
                    fg.len() == g.len() && fg.drop_last() == g.drop_last()
                        && fg.last().spec_type() == command_type && fg.last().spec_commands()
                        == g.last().spec_commands().push(command)
                } else {
                    &&& (g.len() < old(self).spec_capacity() ==> fg.len() == g.len() + 1)
                    &&& (fg.len() > 0 ==> fg.last().spec_type() == command_type
                        && fg.last().spec_commands() =~= seq![command])
                    &&& (fg.len() > 0 ==> fg.drop_last() == (if g.len() < old(
                        self,
                    ).spec_capacity() {
                        g
                    } else {
                        g.drop_first()
                    }))
                }
            }),
    {
        let n = self.groups.len();
        let mut can_merge = false;
        if n > 0 {
            if self.groups[n - 1].command_type == command_type {
                can_merge = true;
            }
        }
        if can_merge {
            self.groups[n - 1].add(command);
            proof {
                assert(self.groups@.drop_last() =~= old(self).groups@.drop_last());
            }
        } else {
            self.push_back(CommandGroup::from_command(command, command_type));
            proof {
                if self.groups@.len() > 0 {
                    if old(self).groups@.len() < old(self).capacity {
                        assert(self.groups@.drop_last() =~= old(self).groups@);
                    } else if old(self).capacity > 0 {
                        assert(self.groups@.drop_last() =~= old(self).groups@.drop_first());
                    }
                }
            }
        }
    }

    /// Drops every stored group.
    pub fn clear(&mut self)
        ensures
            final(self).wf(),
            final(self).spec_groups() == Seq::<CommandGroup>::empty(),
            final(self).spec_capacity() == old(self).spec_capacity(),
    {
        self.groups.clear();
    }
}

} // verus!
