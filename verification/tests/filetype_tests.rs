use ferro::FileType;
use ferro::Position;
use ferro::Row;
use ferro::Type;

#[test]
fn test_filetypes() {
    assert_eq!(FileType::from("a.rs").name(), "Rust");
    assert_eq!(FileType::from("a.java").name(), "Java");
    assert_eq!(FileType::from("a.txt").name(), "No filetype");
    assert_eq!(FileType::from("foo").name(), "No filetype");
}

#[test]
fn position_cmp() {
    let mut pos1 = Position { x: 0, y: 0 };
    let mut pos2 = Position { x: 0, y: 0 };
    assert_eq!(pos1, pos2);

    pos2 = Position { x: 5, y: 2 };
    assert!(pos2 > pos1);
    assert_eq!(pos2.min(pos1), pos1);

    pos1 = Position { x: 7, y: 2 };
    assert!(pos1 > pos2);
    assert_eq!(pos1.max(pos2), pos1);
}

#[test]
fn highlight_rust() {
    let filetype = FileType::from("foo.rs");

    let mut row = Row::from("let foo=3;");
    let base = vec![
        Type::PrimaryKeywords,
        Type::PrimaryKeywords,
        Type::PrimaryKeywords, // let
        Type::Plain,
        Type::Plain,
        Type::Plain,
        Type::Plain,  // foo
        Type::Plain,  // =
        Type::Number, // 3
        Type::Plain,  // ;
    ];
    let mut look_for_multiline_close = None;
    row.highlight(
        filetype.highlighting_options(),
        &None,
        &mut look_for_multiline_close,
    );
    assert!(row.highlighting().eq(&base));

    row = Row::from("\"a3\"/*3");
    let base2 = vec![
        Type::String,
        Type::String,
        Type::String,
        Type::String, // "a3"
        Type::MultilineComment,
        Type::MultilineComment,
        Type::MultilineComment, // /*3
    ];
    row.highlight(
        filetype.highlighting_options(),
        &None,
        &mut look_for_multiline_close,
    );
    assert!(row.highlighting().eq(&base2));
    assert!(look_for_multiline_close == Some("*/".to_string()));
}

#[test]
fn highlight_cache_is_stable() {
    // Highlighting twice with no edit and no active search word produces
    // identical tag arrays: the second call is a cache hit.
    let filetype = FileType::from("foo.rs");
    let mut row = Row::from("let foo=3;");
    let mut cont = None;
    row.highlight(filetype.highlighting_options(), &None, &mut cont);
    let first = row.highlighting().clone();
    assert!(row.is_highlighted());

    let mut cont2 = Some("*/".to_string());
    row.highlight(filetype.highlighting_options(), &None, &mut cont2);
    assert_eq!(row.highlighting(), &first);
    // The cache hit leaves the continuation unchanged.
    assert_eq!(cont2, Some("*/".to_string()));
}

#[test]
fn highlight_char_and_comment() {
    let filetype = FileType::from("foo.rs");
    let mut row = Row::from("'a'//x");
    let mut cont = None;
    row.highlight(filetype.highlighting_options(), &None, &mut cont);
    let expected = vec![
        Type::Character,
        Type::Character,
        Type::Character, // 'a'
        Type::Comment,
        Type::Comment,
        Type::Comment, // //x
    ];
    assert_eq!(row.highlighting(), &expected);
}

#[test]
fn highlight_search_word_overlay() {
    let filetype = FileType::from("foo.rs");
    let mut row = Row::from("abc abc");
    let mut cont = None;
    row.highlight(
        filetype.highlighting_options(),
        &Some("abc".to_string()),
        &mut cont,
    );
    let expected = vec![
        Type::Match,
        Type::Match,
        Type::Match,
        Type::Plain,
        Type::Match,
        Type::Match,
        Type::Match,
    ];
    assert_eq!(row.highlighting(), &expected);
}

#[test]
fn multiline_comment_continues_across_rows() {
    let filetype = FileType::from("foo.rs");
    let mut cont = None;

    let mut first = Row::from("a/*b");
    first.highlight(filetype.highlighting_options(), &None, &mut cont);
    assert_eq!(cont, Some("*/".to_string()));
    assert!(!first.is_highlighted());

    let mut second = Row::from("c*/d");
    second.highlight(filetype.highlighting_options(), &None, &mut cont);
    assert_eq!(cont, None);
    assert!(second.is_highlighted());
    let expected = vec![
        Type::MultilineComment,
        Type::MultilineComment,
        Type::MultilineComment, // c*/
        Type::Plain,            // d
    ];
    assert_eq!(second.highlighting(), &expected);
}
