use ferro::Command;
use ferro::CommandGroup;
use ferro::CommandType;
use ferro::Document;
use ferro::History;
use ferro::InsertCommand;
use ferro::PasteCommand;
use ferro::Position;
use ferro::{delete_chars_at, insert_string_at};

#[test]
fn coalesced_inserts_undo_as_one_step() {
    // Three consecutive single-character insertions with the same
    // coalescing tag merge into one history group; one undo removes all
    // three characters and restores the prior line content.
    let mut doc = Document::open("t.txt", "xy");
    let mut history = History::new(10);

    let chars = ['a', 'b', 'c'];
    for (i, c) in chars.iter().enumerate() {
        let cmd = Command::Insert(InsertCommand::new(
            Position { x: i, y: 0 },
            c.to_string(),
        ));
        cmd.execute(&mut doc);
        history.merge_or_add(cmd, CommandType::INSERT);
    }
    assert_eq!(doc.row(0).unwrap().to_string(), "abcxy");
    assert_eq!(history.len(), 1);

    let group = history.pop_back().unwrap();
    group.undo(&mut doc);
    assert_eq!(doc.row(0).unwrap().to_string(), "xy");
    assert_eq!(history.len(), 0);

    // Popping an empty history is a no-op.
    assert!(history.pop_back().is_none());
}

#[test]
fn different_tags_start_new_groups() {
    let mut history = History::new(10);
    let c1 = Command::Insert(InsertCommand::new(Position { x: 0, y: 0 }, "a".into()));
    let c2 = Command::Insert(InsertCommand::new(Position { x: 1, y: 0 }, "b".into()));
    let c3 = Command::Paste(PasteCommand::new(
        Position { x: 2, y: 0 },
        Some("zz".into()),
    ));
    history.merge_or_add(c1, CommandType::INSERT);
    history.merge_or_add(c2, CommandType::INSERT);
    assert_eq!(history.len(), 1);
    history.push_back(CommandGroup::from_command(c3, CommandType::PASTE));
    assert_eq!(history.len(), 2);
    let g = history.pop_back().unwrap();
    assert!(matches!(g.command_type, CommandType::PASTE));
}

#[test]
fn history_evicts_oldest_past_capacity() {
    let mut history = History::new(2);
    for i in 0..3usize {
        let cmd = Command::Insert(InsertCommand::new(
            Position { x: i, y: 0 },
            "x".into(),
        ));
        history.push_back(CommandGroup::from_command(cmd, CommandType::PASTE));
    }
    // The soft limit silently dropped the oldest group.
    assert_eq!(history.len(), 2);
}

#[test]
fn paste_and_undo_round_trip() {
    let mut doc = Document::open("t.txt", "hello");
    let cmd = Command::Paste(PasteCommand::new(
        Position { x: 5, y: 0 },
        Some(" world".into()),
    ));
    cmd.execute(&mut doc);
    assert_eq!(doc.row(0).unwrap().to_string(), "hello world");
    cmd.undo(&mut doc);
    assert_eq!(doc.row(0).unwrap().to_string(), "hello");
}

#[test]
fn insert_string_walks_newlines() {
    let mut doc = Document::default();
    let end = insert_string_at(&mut doc, &Position { x: 0, y: 0 }, "ab\ncd");
    assert_eq!(doc.len(), 2);
    assert_eq!(doc.row(0).unwrap().to_string(), "ab");
    assert_eq!(doc.row(1).unwrap().to_string(), "cd");
    assert_eq!(end, Position { x: 2, y: 1 });

    delete_chars_at(&mut doc, &Position { x: 2, y: 0 }, 3);
    assert_eq!(doc.len(), 1);
    assert_eq!(doc.row(0).unwrap().to_string(), "ab");
}
