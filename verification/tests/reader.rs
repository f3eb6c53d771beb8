use flexer::bookmark::BookmarkError;
use flexer::bookmark::BookmarkManager;
use flexer::reader::Reader;
use flexer::reader::Source;
use flexer::reader::Text;

fn unknown(name: &str) -> BookmarkError {
    BookmarkError::UnknownBookmark { name: name.to_string() }
}

/// What `n` calls of `consume` hand out.
fn read(reader: &mut Reader<Text>, n: usize) -> Vec<Option<char>> {
    let mut out = vec![];
    for _ in 0..n {
        out.push(reader.consume());
    }
    out
}

#[test]
fn text_hands_out_its_characters_in_order() {
    let mut text = Text::of("héllo");
    let mut seen = vec![];
    while let Some(c) = text.pull() {
        seen.push(c);
    }
    assert_eq!(seen, vec!['h', 'é', 'l', 'l', 'o']);
    assert_eq!(text.pull(), None);
    let mut chars = Text::new(vec!['x', 'y']);
    assert_eq!(chars.pull(), Some('x'));
    assert_eq!(chars.pull(), Some('y'));
    assert_eq!(chars.pull(), None);
    assert_eq!(Text::of("").pull(), None);
}

#[test]
fn peek_does_not_move_the_reader() {
    let mut reader = Reader::new(Text::of("ab"));
    assert_eq!(reader.peek(), Some('a'));
    assert_eq!(reader.peek(), Some('a'));
    assert!(!reader.is_at_end());
    assert_eq!(reader.consume(), Some('a'));
    assert_eq!(reader.peek(), Some('b'));
    assert_eq!(reader.consume(), Some('b'));
    assert_eq!(reader.peek(), None);
    assert!(reader.is_at_end());
    assert_eq!(reader.consume(), None);
    assert_eq!(reader.consume(), None);
    assert!(reader.is_at_end());
}

#[test]
fn empty_input_is_at_its_end() {
    let mut reader = Reader::new(Text::of(""));
    assert!(reader.is_at_end());
    assert_eq!(reader.peek(), None);
    assert_eq!(reader.consume(), None);
}

#[test]
fn rewind_brings_the_same_characters_again() {
    let mut reader = Reader::new(Text::of("abcdefgh"));
    assert_eq!(reader.consume(), Some('a'));
    assert_eq!(reader.consume(), Some('b'));
    reader.create_bookmark("m");
    let first = read(&mut reader, 4);
    assert_eq!(first, vec![Some('c'), Some('d'), Some('e'), Some('f')]);
    assert_eq!(reader.rewind("m"), Ok(()));
    let second = read(&mut reader, 4);
    assert_eq!(second, first);
    assert_eq!(reader.consume(), Some('g'));
}

#[test]
fn rewind_past_the_end_of_input_brings_the_end_again() {
    let mut reader = Reader::new(Text::of("xy"));
    reader.create_bookmark("m");
    let first = read(&mut reader, 4);
    assert_eq!(first, vec![Some('x'), Some('y'), None, None]);
    assert_eq!(reader.rewind("m"), Ok(()));
    assert_eq!(read(&mut reader, 4), first);
}

#[test]
fn bookmarks_are_independent() {
    let mut reader = Reader::new(Text::of("0123456789"));
    reader.create_bookmark("start");
    assert_eq!(read(&mut reader, 3), vec![Some('0'), Some('1'), Some('2')]);
    reader.create_bookmark("three");
    assert_eq!(read(&mut reader, 3), vec![Some('3'), Some('4'), Some('5')]);
    reader.create_bookmark("six");
    assert_eq!(reader.rewind("three"), Ok(()));
    assert_eq!(reader.consume(), Some('3'));
    assert_eq!(reader.rewind("six"), Ok(()));
    assert_eq!(reader.consume(), Some('6'));
    assert_eq!(reader.rewind("start"), Ok(()));
    assert_eq!(reader.consume(), Some('0'));
    assert_eq!(reader.release("start"), Ok(()));
    assert_eq!(reader.rewind("six"), Ok(()));
    assert_eq!(reader.release("three"), Ok(()));
    assert_eq!(reader.rewind("six"), Ok(()));
    assert_eq!(read(&mut reader, 5), vec![Some('6'), Some('7'), Some('8'), Some('9'), None]);
}

#[test]
fn a_bookmark_set_again_moves() {
    let mut reader = Reader::new(Text::of("abcd"));
    reader.create_bookmark("m");
    assert_eq!(reader.consume(), Some('a'));
    assert_eq!(reader.consume(), Some('b'));
    reader.create_bookmark("m");
    assert_eq!(reader.consume(), Some('c'));
    assert_eq!(reader.rewind("m"), Ok(()));
    assert_eq!(reader.consume(), Some('c'));
}

#[test]
fn unknown_bookmarks_are_refused() {
    let mut reader = Reader::new(Text::of("abc"));
    assert_eq!(reader.rewind("m"), Err(unknown("m")));
    assert_eq!(reader.release("m"), Err(unknown("m")));
    assert_eq!(reader.consume(), Some('a'));
    reader.create_bookmark("m");
    assert_eq!(reader.rewind("n"), Err(unknown("n")));
    assert_eq!(reader.consume(), Some('b'));
    assert_eq!(reader.peek(), Some('c'));
}

#[test]
fn a_released_bookmark_cannot_be_gone_back_to() {
    let mut reader = Reader::new(Text::of("abc"));
    reader.create_bookmark("m");
    assert_eq!(reader.consume(), Some('a'));
    assert_eq!(reader.release("m"), Ok(()));
    assert_eq!(reader.rewind("m"), Err(unknown("m")));
    assert_eq!(reader.release("m"), Err(unknown("m")));
    assert_eq!(reader.consume(), Some('b'));
}

#[test]
fn manager_binds_names_to_positions() {
    let mut manager = BookmarkManager::new();
    assert_eq!(manager.position("a"), None);
    assert_eq!(manager.earliest(), None);
    manager.set("a", 7);
    manager.set("b", 3);
    manager.set("c", 5);
    assert_eq!(manager.position("a"), Some(7));
    assert_eq!(manager.position("b"), Some(3));
    assert_eq!(manager.earliest(), Some(3));
    manager.set("b", 9);
    assert_eq!(manager.position("b"), Some(9));
    assert_eq!(manager.earliest(), Some(5));
    manager.shift(5);
    assert_eq!(manager.position("a"), Some(2));
    assert_eq!(manager.position("b"), Some(4));
    assert_eq!(manager.position("c"), Some(0));
    assert_eq!(manager.remove("c"), Some(0));
    assert_eq!(manager.remove("c"), None);
    assert_eq!(manager.position("c"), None);
    assert_eq!(manager.earliest(), Some(2));
    assert_eq!(manager.remove("a"), Some(2));
    assert_eq!(manager.remove("b"), Some(4));
    assert_eq!(manager.earliest(), None);
}

#[test]
fn the_reader_holds_no_more_than_is_needed() {
    let text: String = "0123456789".repeat(50);
    let mut reader = Reader::new(Text::of(&text));
    assert_eq!(reader.held(), 0);
    assert_eq!(reader.peek(), Some('0'));
    assert_eq!(reader.held(), 1);
    for _ in 0..100 {
        reader.consume();
        assert_eq!(reader.held(), 0);
    }
    reader.create_bookmark("near");
    for n in 1..=30 {
        reader.consume();
        assert_eq!(reader.held(), n);
    }
    reader.create_bookmark("far");
    for n in 31..=40 {
        reader.consume();
        assert_eq!(reader.held(), n);
    }
    // What lies before the earliest bookmark that is left is let go.
    assert_eq!(reader.release("near"), Ok(()));
    assert_eq!(reader.held(), 10);
    assert_eq!(reader.rewind("far"), Ok(()));
    assert_eq!(reader.held(), 10);
    assert_eq!(reader.release("far"), Ok(()));
    assert_eq!(reader.held(), 10);
    assert_eq!(reader.consume(), Some('0'));
    assert_eq!(reader.held(), 9);
    for _ in 0..9 {
        reader.consume();
    }
    assert_eq!(reader.held(), 0);
    assert_eq!(reader.consume(), Some('0'));
}

#[test]
fn bookmark_errors_say_what_went_wrong() {
    let mut reader = Reader::new(Text::of("abc"));
    let error = reader.rewind("lost").unwrap_err();
    assert_eq!(error.message(), "no bookmark has the name lost");
}
