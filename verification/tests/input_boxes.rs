//! Tests for the input-box cycle.

use sr::InputBox;

#[test]
fn test_input_box_next_cycles() {
    assert!(InputBox::Search.next() == InputBox::Replace);
    assert!(InputBox::Replace.next() == InputBox::Filepath);
    assert!(InputBox::Filepath.next() == InputBox::Search);
}

#[test]
fn test_input_box_prev_cycles() {
    assert!(InputBox::Search.prev() == InputBox::Filepath);
    assert!(InputBox::Replace.prev() == InputBox::Search);
    assert!(InputBox::Filepath.prev() == InputBox::Replace);
}

#[test]
fn test_input_box_pos() {
    assert_eq!(InputBox::Search.pos(), 0);
    assert_eq!(InputBox::Replace.pos(), 1);
    assert_eq!(InputBox::Filepath.pos(), 2);
}

#[test]
fn test_input_box_title() {
    assert_eq!(InputBox::Search.title(), "Search");
    assert_eq!(InputBox::Replace.title(), "Replace");
    assert_eq!(InputBox::Filepath.title(), "FilePath");
}
