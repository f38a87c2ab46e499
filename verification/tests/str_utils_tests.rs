use ropey::str_utils::{
    byte_idx_to_char_idx, byte_idx_to_line_idx, char_idx_to_byte_idx, char_idx_to_line_idx,
    count_chars, count_line_breaks, has_byte, has_bytes_less_than, line_idx_to_byte_idx,
    line_idx_to_char_idx, next_aligned_ptr, LineBreakIter,
};

#[test]
fn count_chars_01() {
    let text = "Hello せかい! Hello せかい! Hello せかい! Hello せかい! Hello せかい!";

    assert_eq!(54, count_chars(text));
}

#[test]
fn line_breaks_iter_01() {
    let text = "\u{000A}Hello\u{000D}\u{000A}\u{000D}せ\u{000B}か\u{000C}い\u{0085}. \
                There\u{2028}is something.\u{2029}";
    let mut itr = LineBreakIter::new(text);
    assert_eq!(48, text.len());
    assert_eq!(Some(1), itr.next());
    assert_eq!(Some(8), itr.next());
    assert_eq!(Some(9), itr.next());
    assert_eq!(Some(13), itr.next());
    assert_eq!(Some(17), itr.next());
    assert_eq!(Some(22), itr.next());
    assert_eq!(Some(32), itr.next());
    assert_eq!(Some(48), itr.next());
    assert_eq!(None, itr.next());
}

#[test]
fn count_line_breaks_01() {
    let text = "\u{000A}Hello\u{000D}\u{000A}\u{000D}せ\u{000B}か\u{000C}い\u{0085}. \
                There\u{2028}is something.\u{2029}";
    assert_eq!(48, text.len());
    assert_eq!(8, count_line_breaks(text));
}

#[test]
fn count_line_breaks_02() {
    let text = "\u{000A}Hello world!  This is a longer text.\u{000D}\u{000A}\u{000D}To better test that skipping by usize doesn't mess things up.\u{000B}Hello せかい!\u{000C}\u{0085}Yet more text.  How boring.\u{2028}Hi.\u{2029}\u{000A}Hello world!  This is a longer text.\u{000D}\u{000A}\u{000D}To better test that skipping by usize doesn't mess things up.\u{000B}Hello せかい!\u{000C}\u{0085}Yet more text.  How boring.\u{2028}Hi.\u{2029}\u{000A}Hello world!  This is a longer text.\u{000D}\u{000A}\u{000D}To better test that skipping by usize doesn't mess things up.\u{000B}Hello せかい!\u{000C}\u{0085}Yet more text.  How boring.\u{2028}Hi.\u{2029}\u{000A}Hello world!  This is a longer text.\u{000D}\u{000A}\u{000D}To better test that skipping by usize doesn't mess things up.\u{000B}Hello せかい!\u{000C}\u{0085}Yet more text.  How boring.\u{2028}Hi.\u{2029}";
    assert_eq!(count_line_breaks(text), LineBreakIter::new(text).count());
}

#[test]
fn byte_idx_to_char_idx_01() {
    let text = "Hello せかい!";
    assert_eq!(0, byte_idx_to_char_idx(text, 0));
    assert_eq!(1, byte_idx_to_char_idx(text, 1));
    assert_eq!(8, byte_idx_to_char_idx(text, 12));
    assert_eq!(10, byte_idx_to_char_idx(text, 16));
}

#[test]
fn byte_idx_to_char_idx_02() {
    let text = "せかい";
    assert_eq!(0, byte_idx_to_char_idx(text, 0));
    assert_eq!(0, byte_idx_to_char_idx(text, 1));
    assert_eq!(0, byte_idx_to_char_idx(text, 2));
    assert_eq!(1, byte_idx_to_char_idx(text, 3));
    assert_eq!(1, byte_idx_to_char_idx(text, 4));
    assert_eq!(1, byte_idx_to_char_idx(text, 5));
    assert_eq!(2, byte_idx_to_char_idx(text, 6));
    assert_eq!(2, byte_idx_to_char_idx(text, 7));
    assert_eq!(2, byte_idx_to_char_idx(text, 8));
    assert_eq!(3, byte_idx_to_char_idx(text, 9));
}

#[test]
fn byte_idx_to_line_idx_01() {
    let text = "Here\nare\nsome\nwords";
    assert_eq!(0, byte_idx_to_line_idx(text, 0));
    assert_eq!(0, byte_idx_to_line_idx(text, 4));
    assert_eq!(1, byte_idx_to_line_idx(text, 5));
    assert_eq!(1, byte_idx_to_line_idx(text, 8));
    assert_eq!(2, byte_idx_to_line_idx(text, 9));
    assert_eq!(2, byte_idx_to_line_idx(text, 13));
    assert_eq!(3, byte_idx_to_line_idx(text, 14));
    assert_eq!(3, byte_idx_to_line_idx(text, 19));
}

#[test]
fn byte_idx_to_line_idx_02() {
    let text = "\nHere\nare\nsome\nwords\n";
    assert_eq!(0, byte_idx_to_line_idx(text, 0));
    assert_eq!(1, byte_idx_to_line_idx(text, 1));
    assert_eq!(1, byte_idx_to_line_idx(text, 5));
    assert_eq!(2, byte_idx_to_line_idx(text, 6));
    assert_eq!(2, byte_idx_to_line_idx(text, 9));
    assert_eq!(3, byte_idx_to_line_idx(text, 10));
    assert_eq!(3, byte_idx_to_line_idx(text, 14));
    assert_eq!(4, byte_idx_to_line_idx(text, 15));
    assert_eq!(4, byte_idx_to_line_idx(text, 20));
    assert_eq!(5, byte_idx_to_line_idx(text, 21));
}

#[test]
fn byte_idx_to_line_idx_03() {
    let text = "Here\r\nare\r\nsome\r\nwords";
    assert_eq!(0, byte_idx_to_line_idx(text, 0));
    assert_eq!(0, byte_idx_to_line_idx(text, 4));
    assert_eq!(0, byte_idx_to_line_idx(text, 5));
    assert_eq!(1, byte_idx_to_line_idx(text, 6));
    assert_eq!(1, byte_idx_to_line_idx(text, 9));
    assert_eq!(1, byte_idx_to_line_idx(text, 10));
    assert_eq!(2, byte_idx_to_line_idx(text, 11));
    assert_eq!(2, byte_idx_to_line_idx(text, 15));
    assert_eq!(2, byte_idx_to_line_idx(text, 16));
    assert_eq!(3, byte_idx_to_line_idx(text, 17));
}

#[test]
fn char_idx_to_byte_idx_01() {
    let text = "Hello せかい!";
    assert_eq!(0, char_idx_to_byte_idx(text, 0));
    assert_eq!(1, char_idx_to_byte_idx(text, 1));
    assert_eq!(2, char_idx_to_byte_idx(text, 2));
    assert_eq!(5, char_idx_to_byte_idx(text, 5));
    assert_eq!(6, char_idx_to_byte_idx(text, 6));
    assert_eq!(12, char_idx_to_byte_idx(text, 8));
    assert_eq!(15, char_idx_to_byte_idx(text, 9));
    assert_eq!(16, char_idx_to_byte_idx(text, 10));
}

#[test]
fn char_idx_to_byte_idx_02() {
    let text = "せかい";
    assert_eq!(0, char_idx_to_byte_idx(text, 0));
    assert_eq!(3, char_idx_to_byte_idx(text, 1));
    assert_eq!(6, char_idx_to_byte_idx(text, 2));
    assert_eq!(9, char_idx_to_byte_idx(text, 3));
}

#[test]
fn char_idx_to_byte_idx_03() {
    let text = "Hello world!";
    assert_eq!(0, char_idx_to_byte_idx(text, 0));
    assert_eq!(1, char_idx_to_byte_idx(text, 1));
    assert_eq!(8, char_idx_to_byte_idx(text, 8));
    assert_eq!(11, char_idx_to_byte_idx(text, 11));
    assert_eq!(12, char_idx_to_byte_idx(text, 12));
}

#[test]
fn char_idx_to_byte_idx_04() {
    let text = "Hello world! Hello せかい! Hello world! Hello せかい! \
                Hello world! Hello せかい! Hello world! Hello せかい! \
                Hello world! Hello せかい! Hello world! Hello せかい! \
                Hello world! Hello せかい! Hello world! Hello せかい!";
    assert_eq!(0, char_idx_to_byte_idx(text, 0));
    assert_eq!(30, char_idx_to_byte_idx(text, 24));
    assert_eq!(60, char_idx_to_byte_idx(text, 48));
    assert_eq!(90, char_idx_to_byte_idx(text, 72));
    assert_eq!(115, char_idx_to_byte_idx(text, 93));
    assert_eq!(120, char_idx_to_byte_idx(text, 96));
    assert_eq!(150, char_idx_to_byte_idx(text, 120));
    assert_eq!(180, char_idx_to_byte_idx(text, 144));
    assert_eq!(210, char_idx_to_byte_idx(text, 168));
    assert_eq!(239, char_idx_to_byte_idx(text, 191));
}

#[test]
fn char_idx_to_line_idx_01() {
    let text = "Hello せ\nか\nい!";
    assert_eq!(0, char_idx_to_line_idx(text, 0));
    assert_eq!(0, char_idx_to_line_idx(text, 7));
    assert_eq!(1, char_idx_to_line_idx(text, 8));
    assert_eq!(1, char_idx_to_line_idx(text, 9));
    assert_eq!(2, char_idx_to_line_idx(text, 10));
}

#[test]
fn line_idx_to_byte_idx_01() {
    let text = "Here\r\nare\r\nsome\r\nwords";
    assert_eq!(0, line_idx_to_byte_idx(text, 0));
    assert_eq!(6, line_idx_to_byte_idx(text, 1));
    assert_eq!(11, line_idx_to_byte_idx(text, 2));
    assert_eq!(17, line_idx_to_byte_idx(text, 3));
}

#[test]
fn line_idx_to_byte_idx_02() {
    let text = "\nHere\nare\nsome\nwords\n";
    assert_eq!(0, line_idx_to_byte_idx(text, 0));
    assert_eq!(1, line_idx_to_byte_idx(text, 1));
    assert_eq!(6, line_idx_to_byte_idx(text, 2));
    assert_eq!(10, line_idx_to_byte_idx(text, 3));
    assert_eq!(15, line_idx_to_byte_idx(text, 4));
    assert_eq!(21, line_idx_to_byte_idx(text, 5));
}

#[test]
fn line_idx_to_char_idx_01() {
    let text = "Hello せ\nか\nい!";
    assert_eq!(0, line_idx_to_char_idx(text, 0));
    assert_eq!(8, line_idx_to_char_idx(text, 1));
    assert_eq!(10, line_idx_to_char_idx(text, 2));
}

#[test]
fn line_byte_round_trip() {
    let text = "\nHere\nare\nsome\nwords\n";
    assert_eq!(6, line_idx_to_byte_idx(text, byte_idx_to_line_idx(text, 6)));
    assert_eq!(2, byte_idx_to_line_idx(text, line_idx_to_byte_idx(text, 2)));

    assert_eq!(0, line_idx_to_byte_idx(text, byte_idx_to_line_idx(text, 0)));
    assert_eq!(0, byte_idx_to_line_idx(text, line_idx_to_byte_idx(text, 0)));

    assert_eq!(
        21,
        line_idx_to_byte_idx(text, byte_idx_to_line_idx(text, 21))
    );
    assert_eq!(5, byte_idx_to_line_idx(text, line_idx_to_byte_idx(text, 5)));
}

#[test]
fn line_char_round_trip() {
    let text = "\nHere\nare\nsome\nwords\n";
    assert_eq!(6, line_idx_to_char_idx(text, char_idx_to_line_idx(text, 6)));
    assert_eq!(2, char_idx_to_line_idx(text, line_idx_to_char_idx(text, 2)));

    assert_eq!(0, line_idx_to_char_idx(text, char_idx_to_line_idx(text, 0)));
    assert_eq!(0, char_idx_to_line_idx(text, line_idx_to_char_idx(text, 0)));

    assert_eq!(
        21,
        line_idx_to_char_idx(text, char_idx_to_line_idx(text, 21))
    );
    assert_eq!(5, char_idx_to_line_idx(text, line_idx_to_char_idx(text, 5)));
}

#[test]
fn has_bytes_less_than_01() {
    let v: u64 = 0x0709080905090609;
    assert!(has_bytes_less_than(v, 0x0A));
    assert!(has_bytes_less_than(v, 0x06));
    assert!(!has_bytes_less_than(v, 0x05));
}

#[test]
fn has_byte_01() {
    let v: u64 = 0x070908A60509E209;
    assert!(has_byte(v, 0x07));
    assert!(has_byte(v, 0x09));
    assert!(has_byte(v, 0x08));
    assert!(has_byte(v, 0xA6));
    assert!(has_byte(v, 0x05));
    assert!(has_byte(v, 0xE2));

    assert!(!has_byte(v, 0xA0));
    assert!(!has_byte(v, 0xA7));
    assert!(!has_byte(v, 0x06));
    assert!(!has_byte(v, 0xE3));
}

#[test]
fn next_aligned_ptr_01() {
    assert_eq!(8, next_aligned_ptr(0, 8));
    assert_eq!(8, next_aligned_ptr(7, 8));
    assert_eq!(16, next_aligned_ptr(8, 8));
    assert_eq!(24, next_aligned_ptr(17, 8));
}
