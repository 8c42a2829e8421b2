use ferro::Document;
use ferro::Position;
use ferro::SearchDirection;

#[test]
fn document_edit() {
    let mut doc = Document::default();
    assert!(!doc.is_dirty());

    let mut pos = Position { x: 0, y: 0 };
    assert_eq!(doc.insert(&mut pos, 'a'), 0);
    assert!(!doc.is_empty());
    assert!(doc.is_dirty());

    doc.delete(&pos);
    pos = Position { x: 0, y: 0 };
    assert!(doc.row(0).unwrap().to_string().is_empty());

    let input = "Hello, World!";
    let split_idx = 7;
    for c in input.chars() {
        assert_eq!(doc.insert(&mut pos, c), 0);
        pos.x += 1;
    }

    assert_eq!(doc.len(), 1);
    assert_eq!(doc.row(0).unwrap().to_string(), input);
    assert_eq!(pos.x, input.len());
    assert_eq!(pos.y, 0);

    let (a, b) = input.split_at(split_idx);
    assert_eq!(doc.insert(&mut Position { x: split_idx, y: 0 }, '\n'), 0);
    assert_eq!(doc.len(), 2);
    assert_eq!(doc.row(0).unwrap().to_string(), a);
    assert_eq!(doc.row(1).unwrap().to_string(), b);

    assert_eq!(doc.insert(&mut Position { x: b.len(), y: 1 }, '\n'), 0);
    assert_eq!(doc.len(), 3);
    assert_eq!(doc.row(1).unwrap().to_string(), b);
    assert_eq!(doc.row(2).unwrap().to_string(), "");
}

#[test]
fn document_find_next_word() {
    let document = Document::open("t.txt", "Foo Bar\nHello, World!");

    let mut position = Position { x: 0, y: 0 };
    let mut next_position_opt = document.find_next_word(&position, SearchDirection::Backward);
    assert_eq!(next_position_opt, None);

    next_position_opt = document.find_next_word(&position, SearchDirection::Forward);
    assert_eq!(next_position_opt, Some(Position { x: 4, y: 0 }));
    position = next_position_opt.unwrap();

    next_position_opt = document.find_next_word(&position, SearchDirection::Forward);
    assert_eq!(next_position_opt, Some(Position { x: 0, y: 1 }));
    position = next_position_opt.unwrap();

    next_position_opt = document.find_next_word(&position, SearchDirection::Backward);
    assert_eq!(next_position_opt, Some(Position { x: 7, y: 0 }));

    next_position_opt = document.find_next_word(&position, SearchDirection::Forward);
    assert_eq!(next_position_opt, Some(Position { x: 7, y: 1 }));
}

#[test]
fn indent() {
    let mut document = Document::open(
        "t.txt",
        "fn main() {\n    println!(\"Hello, World!\")\n}",
    );

    let mut position = Position { x: 0, y: 0 };
    assert_eq!(document.row(0).unwrap().get_leading_spaces(), None);
    assert_eq!(document.insert(&mut position, '\n'), 0);
    assert_eq!(document.row(1).unwrap().get_leading_spaces(), None);

    position = Position { x: 0, y: 1 };
    assert_eq!(document.insert(&mut position, '\t'), 4 - 1);
    assert_eq!(document.row(1).unwrap().get_leading_spaces(), Some(4));

    position = Position { x: 7, y: 2 };
    assert_eq!(document.insert(&mut position, '\n'), 4);
    assert_eq!(document.row(3).unwrap().get_leading_spaces(), Some(4));

    position = Position { x: 1, y: 4 };
    assert_eq!(document.insert(&mut position, '\n'), 0);
    assert_eq!(document.row(5).unwrap().get_leading_spaces(), None);
}

#[test]
fn insert_hello_world_and_split() {
    // Character-by-character insertion into an empty document gives one
    // line of grapheme length thirteen; a newline at column seven splits
    // it into "Hello, " and "World!".
    let mut doc = Document::default();
    let mut pos = Position { x: 0, y: 0 };
    for c in "Hello, World!".chars() {
        doc.insert(&mut pos, c);
        pos.x += 1;
    }
    assert_eq!(doc.len(), 1);
    assert_eq!(doc.row(0).unwrap().len(), 13);

    doc.insert(&mut Position { x: 7, y: 0 }, '\n');
    assert_eq!(doc.len(), 2);
    assert_eq!(doc.row(0).unwrap().to_string(), "Hello, ");
    assert_eq!(doc.row(0).unwrap().len(), 7);
    assert_eq!(doc.row(1).unwrap().to_string(), "World!");
    assert_eq!(doc.row(1).unwrap().len(), 6);
}

#[test]
fn infer_indent_on_open() {
    // A body consistently indented by four spaces infers a tab width of
    // four: a literal tab in an unindented line then inserts four spaces.
    let mut doc = Document::open("a.txt", "fn a() {\n    b();\n    c();\n}");
    let mut pos = Position { x: 0, y: 0 };
    assert_eq!(doc.insert(&mut pos, '\t'), 3);
    assert_eq!(doc.row(0).unwrap().to_string(), "    fn a() {");

    // Two-space indentation infers a width of two.
    let mut doc2 = Document::open("b.txt", "a {\n  b;\n    c;\n}");
    let mut pos2 = Position { x: 0, y: 0 };
    assert_eq!(doc2.insert(&mut pos2, '\t'), 1);
    assert_eq!(doc2.row(0).unwrap().to_string(), "  a {");

    // Tabs in the opened file expand to the inferred width.
    let doc3 = Document::open("c.txt", "x {\n  y;\n\tz;\n}");
    assert_eq!(doc3.row(2).unwrap().to_string(), "  z;");
}

#[test]
fn find_forward_then_backward() {
    // A forward find, then a backward find from its result, lands at or
    // before the original match.
    let doc = Document::open("t.txt", "one two\ntwo three\nfour two");
    let hit = doc
        .find("two", &Position { x: 0, y: 0 }, SearchDirection::Forward)
        .unwrap();
    assert_eq!(hit, Position { x: 4, y: 0 });

    // No earlier occurrence exists, so the backward search finds nothing.
    assert_eq!(doc.find("two", &hit, SearchDirection::Backward), None);

    let hit2 = doc
        .find("two", &Position { x: 0, y: 1 }, SearchDirection::Forward)
        .unwrap();
    assert_eq!(hit2, Position { x: 0, y: 1 });
    let back = doc.find("two", &hit2, SearchDirection::Backward).unwrap();
    assert!(back.y < hit2.y || (back.y == hit2.y && back.x <= hit2.x));
    assert_eq!(back, Position { x: 4, y: 0 });
}

#[test]
fn document_selections_and_ranges() {
    let mut doc = Document::open("t.txt", "alpha beta\ngamma beta");
    doc.add_selection(Position { x: 6, y: 0 }, 4);
    doc.add_selection(Position { x: 6, y: 1 }, 4);
    let sels = doc.update_and_get_selections();
    assert_eq!(sels.len(), 2);
    assert_eq!(sels[0].0, Position { x: 6, y: 0 });
    assert_eq!(sels[0].1, "beta");
    assert_eq!(sels[1].0, Position { x: 6, y: 1 });
    assert_eq!(sels[1].1, "beta");

    assert_eq!(
        doc.get_doc_content_as_string(Position { x: 6, y: 0 }, Position { x: 5, y: 1 }),
        "beta\ngamma"
    );
    assert_eq!(doc.get_char_in_doc(Position { x: 0, y: 1 }), Some("g".to_string()));
    assert_eq!(doc.get_char_in_doc(Position { x: 10, y: 0 }), Some("\n".to_string()));
    assert_eq!(doc.get_char_in_doc(Position { x: 0, y: 2 }), None);

    doc.delete_selections();
    assert_eq!(doc.row(0).unwrap().to_string(), "alpha ");
    assert_eq!(doc.row(1).unwrap().to_string(), "gamma ");
    assert!(doc.is_dirty());
}

#[test]
fn delete_joins_lines() {
    let mut doc = Document::open("t.txt", "ab\ncd");
    doc.delete(&Position { x: 2, y: 0 });
    assert_eq!(doc.len(), 1);
    assert_eq!(doc.row(0).unwrap().to_string(), "abcd");

    // Out-of-range coordinates are a silent no-op.
    let mut doc2 = Document::open("t.txt", "ab");
    doc2.delete(&Position { x: 0, y: 5 });
    assert_eq!(doc2.row(0).unwrap().to_string(), "ab");
    assert!(!doc2.is_dirty());
}

#[test]
fn save_content_terminates_every_line() {
    let doc = Document::open("t.txt", "ab\ncd");
    assert_eq!(doc.save_content(), "ab\ncd\n");

    let empty = Document::default();
    assert_eq!(empty.save_content(), "");
}
