use ferro::Row;
use ferro::SearchDirection;

#[test]
fn basics() {
    let mut row = Row::from("Hello, World!");
    assert_eq!(row.len(), "Hello, World!".len());
    assert_eq!(row.find("ello", 0, SearchDirection::Forward), Some(1));
    assert_eq!(row.find("ello", 2, SearchDirection::Forward), None);
    assert_eq!(row.find("ello", 8, SearchDirection::Backward), Some(1));

    row = Row::from("    x = 3;");
    assert_eq!(row.get_leading_spaces(), Some(4));

    row = Row::from("\tx = 3;");
    assert_eq!(row.get_leading_spaces(), None);
}

#[test]
fn row_edit() {
    let mut row1 = Row::from("Hello ");

    row1.append(&Row::from("World!"));
    assert_eq!(row1.to_string(), "Hello World!");

    row1.insert(0, '!');
    row1.insert(6, ',');
    row1.delete(0);
    assert_eq!(row1.to_string(), "Hello, World!");

    let row2 = row1.split(7);
    assert_eq!(row1.to_string(), "Hello, ");
    assert_eq!(row2.to_string(), "World!");

    let row3 = row1.split(7);
    assert_eq!(row1.len(), 7);
    assert_eq!(row3.len(), 0);

    let row4 = row1.split(0);
    assert_eq!(row1.len(), 0);
    assert_eq!(row4.len(), 7);
}

#[test]
fn select_and_edit() {
    let mut row = Row::from("Hello, World!");

    row.add_selection(2, 1);
    row.add_selection(3, 1);
    row.add_selection(10, 1);
    assert_eq!(
        row.update_and_get_selections(),
        vec![(2usize, "ll".into()), (10usize, "l".into())]
    );

    row = Row::from("var += pq * xy;");
    row.add_selection(0, 3);
    row.add_selection(7, 2);
    row.add_selection(12, 2);
    assert_eq!(
        row.update_and_get_selections(),
        vec![
            (0usize, "var".into()),
            (7usize, "pq".into()),
            (12usize, "xy".into())
        ]
    );

    row = Row::from("humuhumuhuma nukunukunukunuku apua");
    row.add_selection(0, 4);
    assert_eq!(
        row.update_and_get_selections(),
        vec![(0usize, "humu".into())]
    );
    row.add_selection(2, 4);
    assert_eq!(
        row.update_and_get_selections(),
        vec![(0usize, "humuhu".into())]
    );
    row.add_selection(3, 9);
    assert_eq!(
        row.update_and_get_selections(),
        vec![(0usize, "humuhumuhuma".into())]
    );

    row.reset_selections();
    assert_eq!(row.update_and_get_selections(), Vec::new());
}

#[test]
fn row_find_next_word() {
    let mut row = Row::from("Foo Bar");
    assert_eq!(row.find_next_word(1, SearchDirection::Forward), Some(4));
    assert_eq!(row.find_next_word(4, SearchDirection::Forward), None);
    assert_eq!(row.find_next_word(5, SearchDirection::Backward), Some(3));
    assert_eq!(row.find_next_word(1, SearchDirection::Backward), Some(0));
    assert_eq!(row.find_next_word(0, SearchDirection::Backward), None);

    row = Row::from("my__constant  is great");
    assert_eq!(row.find_next_word(0, SearchDirection::Forward), Some(14));
    assert_eq!(row.find_next_word(14, SearchDirection::Backward), Some(12));

    row = Row::from("");
    assert_eq!(row.find_next_word(0, SearchDirection::Forward), None);
    assert_eq!(row.find_next_word(0, SearchDirection::Backward), None);
}

#[test]
fn merge_adjacent_spans() {
    // Spans [2, 3) and [3, 4) touch, so they merge into the single span
    // [2, 4); disjoint spans stay distinct, sorted by start.
    let mut row = Row::from("abcdefghij");
    row.add_selection(2, 1);
    row.add_selection(3, 1);
    assert_eq!(row.update_and_get_selections(), vec![(2usize, "cd".into())]);

    let mut row2 = Row::from("abcdefghij");
    row2.add_selection(7, 2);
    row2.add_selection(0, 3);
    assert_eq!(
        row2.update_and_get_selections(),
        vec![(0usize, "abc".into()), (7usize, "hi".into())]
    );
}

#[test]
fn replace_merged_selections() {
    // Merged spans replaced back to front, so earlier edits never
    // invalidate later offsets.
    let mut row = Row::from("foo := barbaz");
    row.add_selection(0, 3);
    row.add_selection(7, 3);
    row.replace_selections(&Some(String::from("X")));
    assert_eq!(row.to_string(), "X := Xbaz");

    let mut row2 = Row::from("foo := barbaz");
    row2.add_selection(0, 3);
    row2.add_selection(7, 2);
    row2.replace_selections(&Some(String::from("X")));
    assert_eq!(row2.to_string(), "X := Xrbaz");

    let mut row3 = Row::from("foo := barbaz");
    row3.add_selection(0, 4);
    row3.replace_selections(&None);
    assert_eq!(row3.to_string(), ":= barbaz");
}

#[test]
fn grapheme_clusters_are_single_cells() {
    // A combining accent belongs to the previous grapheme cluster: the
    // two characters form one cell.
    let row = Row::from("e\u{0301}xy");
    assert_eq!(row.len(), 3);
    assert_eq!(row.grapheme_at(0), "e\u{0301}");
    assert_eq!(row.text_range(1, 3), "xy");
}
