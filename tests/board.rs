use parallel_collatz::board::{Board, Color};

#[test]
fn colours() {
    assert_eq!(Color::all(), vec![Color::Red, Color::Green, Color::Blue]);
    assert_eq!(Color::len(), 3);
    assert_eq!(Color::bits(), 2);
    assert_eq!(Color::Red.to_bit(), 1);
    assert_eq!(Color::Blue.to_bit(), 3);
}

#[test]
fn empty_board() {
    let b = Board::with_size(2, 6);
    assert_eq!(b.width(), 2);
    assert_eq!(b.height(), 6);
    assert_eq!(b.top(0), 0);
    assert_eq!(b.top(1), 0);
    assert_eq!(b.serialize(), 0);
    assert!(!b.is_connected(4));
}

#[test]
fn drop_stacks_balls() {
    let mut b = Board::with_size(2, 3);
    b.drop(1, Color::Green);
    b.drop(1, Color::Blue);
    assert_eq!(b.top(0), 0);
    assert_eq!(b.top(1), 2);
    b.drop(1, Color::Red);
    assert_eq!(b.top(1), 3);
}

#[test]
fn key_ignores_column_order() {
    let mut a = Board::with_size(2, 6);
    a.drop(0, Color::Red);
    let mut b = Board::with_size(2, 6);
    b.drop(1, Color::Red);
    assert_eq!(a.serialize(), 1024);
    assert_eq!(b.serialize(), 1024);
}

#[test]
fn key_of_two_columns() {
    let mut b = Board::with_size(2, 2);
    b.drop(0, Color::Blue);
    b.drop(1, Color::Red);
    b.drop(1, Color::Green);
    // columns: [Blue, -] = 12, [Red, Green] = 6; sorted 6, 12 -> 6 * 16 + 12
    assert_eq!(b.serialize(), 108);
}

#[test]
fn four_in_a_row() {
    let mut b = Board::with_size(2, 6);
    for _ in 0..3 {
        b.drop(0, Color::Green);
    }
    b.drop(1, Color::Green);
    assert!(!b.is_connected(4));
    b.drop(0, Color::Green);
    assert!(b.is_connected(4));
    assert!(b.is_connected(2));
    assert!(!b.is_connected(5));
}

#[test]
fn run_broken_by_other_colour() {
    let mut b = Board::with_size(1, 6);
    b.drop(0, Color::Red);
    b.drop(0, Color::Red);
    b.drop(0, Color::Blue);
    b.drop(0, Color::Red);
    b.drop(0, Color::Red);
    assert!(!b.is_connected(3));
    assert!(b.is_connected(2));
}

#[test]
fn single_ball_is_a_run_of_one() {
    let mut b = Board::with_size(1, 1);
    assert!(!b.is_connected(1));
    assert!(!b.is_connected(0));
    b.drop(0, Color::Green);
    assert!(b.is_connected(1));
    assert!(b.is_connected(0));
    assert!(!b.is_connected(2));
}

#[test]
fn run_starting_with_blue() {
    let mut b = Board::with_size(2, 4);
    b.drop(1, Color::Blue);
    b.drop(1, Color::Blue);
    b.drop(1, Color::Blue);
    assert!(b.is_connected(3));
    assert!(!b.is_connected(4));
}
