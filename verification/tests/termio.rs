use std::collections::VecDeque;

use luabster::termio::{
    calc_cursor_screen_pos, choice_step, get_max_options_per_line, insert_byte_aligned,
    lines_to_shift, longest_option, possibility_rows, sat_add, sat_add_usize, EditAction, Key,
    LineEditor,
};

fn strings(v: &[&str]) -> Vec<String> {
    v.iter().map(|s| s.to_string()).collect()
}

fn history(v: &[&str]) -> VecDeque<String> {
    v.iter().map(|s| s.to_string()).collect()
}

#[test]
fn saturating_adds() {
    let mut x: u16 = 5;
    sat_add(&mut x, 1, 6);
    assert_eq!(x, 6);
    sat_add(&mut x, 1, 6);
    assert_eq!(x, 6);
    let mut y: usize = 0;
    sat_add_usize(&mut y, 1, 0);
    assert_eq!(y, 0);
    sat_add_usize(&mut y, 2, 3);
    assert_eq!(y, 2);
}

#[test]
fn insertion_moves_to_a_character_boundary() {
    let mut b = vec!['a', 'é', 'b'];
    assert_eq!(insert_byte_aligned(&mut b, 'x', 2), 1);
    assert_eq!(b, vec!['a', 'x', 'é', 'b']);
    let mut b = vec!['a', 'b'];
    assert_eq!(insert_byte_aligned(&mut b, 'x', 9), 2);
    assert_eq!(b, vec!['a', 'b', 'x']);
}

#[test]
fn editing_a_line() {
    let mut e = LineEditor::start(Some("ab"), history(&["old"]));
    assert_eq!(e.text(), "ab");
    assert_eq!((e.internal(), e.visual()), (2, 2));
    assert_eq!(e.step(Key::Char('c')), EditAction::Continue);
    assert_eq!(e.text(), "abc");
    assert!(e.clear_all());
    assert_eq!((e.internal(), e.visual()), (3, 3));
    e.step(Key::Left);
    assert_eq!((e.internal(), e.visual()), (2, 2));
    e.step(Key::Char('X'));
    assert_eq!(e.text(), "abXc");
    e.step(Key::Home);
    assert_eq!((e.internal(), e.visual()), (0, 0));
    e.step(Key::Delete);
    assert_eq!(e.text(), "bXc");
    e.step(Key::Right);
    assert_eq!(e.internal(), 1);
    e.step(Key::End);
    assert_eq!((e.internal(), e.visual()), (3, 3));
    e.step(Key::Backspace);
    assert_eq!(e.text(), "bX");
    assert_eq!(e.step(Key::Tab), EditAction::Complete);
    assert!(!e.clear_all());
    assert_eq!(e.step(Key::Enter), EditAction::Done);
    let (line, h) = e.finish();
    assert_eq!(line, "bX");
    assert_eq!(h, history(&["bX", "old"]));
}

#[test]
fn multibyte_characters() {
    let mut e = LineEditor::start(Some("aé"), VecDeque::new());
    assert_eq!(e.internal(), 3);
    e.step(Key::Left);
    assert_eq!(e.internal(), 1);
    e.step(Key::Right);
    assert_eq!(e.internal(), 3);
    e.step(Key::Backspace);
    assert_eq!(e.text(), "a");
    assert_eq!(e.internal(), 1);
}

#[test]
fn browsing_the_history() {
    let mut e = LineEditor::start(None, history(&["second", "first"]));
    e.step(Key::Char('x'));
    e.step(Key::Up);
    assert_eq!(e.text(), "second");
    assert_eq!(e.internal(), 6);
    e.step(Key::Up);
    assert_eq!(e.text(), "first");
    e.step(Key::Up);
    assert_eq!(e.text(), "first");
    e.step(Key::Down);
    e.step(Key::Down);
    assert_eq!(e.text(), "x");
    e.step(Key::Down);
    assert_eq!(e.text(), "x");
    let (line, h) = e.finish();
    assert_eq!(line, "x");
    assert_eq!(h, history(&["x", "second", "first"]));
}

#[test]
fn the_newest_history_entry_follows_the_line() {
    let mut e = LineEditor::start(Some("a"), history(&["old"]));
    e.step(Key::Char('b'));
    e.step(Key::Up);
    e.step(Key::Down);
    assert_eq!(e.text(), "ab");
}

#[test]
fn taking_a_completion() {
    let mut e = LineEditor::start(Some("cat fo"), VecDeque::new());
    e.step(Key::Home);
    e.apply_completion("fo", "", "foo");
    assert_eq!(e.text(), "cat foo");
    assert_eq!((e.internal(), e.visual()), (7, 7));
    e.apply_completion("foo", "./", "foo.txt");
    assert_eq!(e.text(), "cat ./foo.txt");
    let (_, h) = e.finish();
    assert_eq!(h, history(&["cat ./foo.txt"]));
}

#[test]
fn choice_menu_keys() {
    assert_eq!(choice_step(0, 3, Key::Up), (0, None));
    assert_eq!(choice_step(0, 3, Key::Down), (1, None));
    assert_eq!(choice_step(2, 3, Key::Down), (2, None));
    assert_eq!(choice_step(1, 3, Key::Enter), (1, Some(1)));
    assert_eq!(choice_step(0, 3, Key::Char('2')), (0, Some(2)));
    assert_eq!(choice_step(0, 3, Key::Char('5')), (0, None));
    assert_eq!(choice_step(0, 3, Key::Char('x')), (0, None));
    assert_eq!(choice_step(1, 3, Key::Tab), (1, None));
}

#[test]
fn choice_stays_within_the_options() {
    for n in 1..5usize {
        for c in 0..n {
            for k in [Key::Up, Key::Down, Key::Enter, Key::Char('3'), Key::Char('0')] {
                let (next, taken) = choice_step(c, n, k);
                assert!(next < n);
                if let Some(t) = taken {
                    assert!(t < n);
                }
            }
        }
    }
}

#[test]
fn options_per_row() {
    assert_eq!(get_max_options_per_line(0, 80), 0);
    assert_eq!(get_max_options_per_line(10, 80), 8);
    assert_eq!(get_max_options_per_line(30, 80), 2);
    assert_eq!(get_max_options_per_line(1, 10), 9);
}

#[test]
fn cursor_cell() {
    assert_eq!(calc_cursor_screen_pos((5, 2), 10, 8), (7, 3));
    assert_eq!(calc_cursor_screen_pos((0, 0), 3, 80), (3, 0));
}

#[test]
fn candidate_rows() {
    let v = strings(&["a", "abc", "é"]);
    assert_eq!(longest_option(&v), 3);
    assert_eq!(longest_option(&Vec::new()), 0);
    assert_eq!(possibility_rows(&strings(&["a", "b", "c"]), 2), strings(&["a  b", "c"]));
    assert_eq!(possibility_rows(&strings(&["a", "b"]), 5), strings(&["a  b"]));
    assert_eq!(possibility_rows(&Vec::new(), 3), Vec::<String>::new());
    assert_eq!(lines_to_shift(2, 23, 24), 3);
    assert_eq!(lines_to_shift(2, 10, 24), 0);
}
