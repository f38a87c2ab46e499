use ropey::Rope;

// 127 bytes, 103 chars, 1 line
const TEXT: &str = "Hello there!  How're you doing?  It's \
                    a fine day, isn't it?  Aren't you glad \
                    we're alive?  こんにちは、みんなさん！";
// 124 bytes, 100 chars, 4 lines
const TEXT_LINES: &str = "Hello there!  How're you doing?\nIt's \
                          a fine day, isn't it?\nAren't you glad \
                          we're alive?\nこんにちは、みんなさん！";

#[test]
fn len_bytes_01() {
    let r = Rope::from_str(TEXT);
    let s = r.slice(7..98);
    assert_eq!(s.len_bytes(), 105);
}

#[test]
fn len_bytes_02() {
    let r = Rope::from_str(TEXT);
    let s = r.slice(43..43);
    assert_eq!(s.len_bytes(), 0);
}

#[test]
fn len_chars_01() {
    let r = Rope::from_str(TEXT);
    let s = r.slice(7..98);
    assert_eq!(s.len_chars(), 91);
}

#[test]
fn len_chars_02() {
    let r = Rope::from_str(TEXT);
    let s = r.slice(43..43);
    assert_eq!(s.len_chars(), 0);
}

#[test]
fn len_lines_01() {
    let r = Rope::from_str(TEXT_LINES);
    let s = r.slice(34..98);
    assert_eq!(s.len_lines(), 3);
}

#[test]
fn len_lines_02() {
    let r = Rope::from_str(TEXT_LINES);
    let s = r.slice(43..43);
    assert_eq!(s.len_lines(), 1);
}

#[test]
fn byte_to_char_01() {
    let r = Rope::from_str(TEXT);
    let s = r.slice(88..102);

    // ?  こんにちは、みんなさん

    assert_eq!(0, s.byte_to_char(0));
    assert_eq!(1, s.byte_to_char(1));
    assert_eq!(2, s.byte_to_char(2));

    assert_eq!(3, s.byte_to_char(3));
    assert_eq!(3, s.byte_to_char(4));
    assert_eq!(3, s.byte_to_char(5));

    assert_eq!(4, s.byte_to_char(6));
    assert_eq!(4, s.byte_to_char(7));
    assert_eq!(4, s.byte_to_char(8));

    assert_eq!(13, s.byte_to_char(33));
    assert_eq!(13, s.byte_to_char(34));
    assert_eq!(13, s.byte_to_char(35));
    assert_eq!(14, s.byte_to_char(36));
}

#[test]
fn char_to_byte_01() {
    let r = Rope::from_str(TEXT);
    let s = r.slice(88..102);

    // ?  こんにちは、みんなさん

    assert_eq!(0, s.char_to_byte(0));
    assert_eq!(1, s.char_to_byte(1));
    assert_eq!(2, s.char_to_byte(2));

    assert_eq!(3, s.char_to_byte(3));
    assert_eq!(6, s.char_to_byte(4));
    assert_eq!(33, s.char_to_byte(13));
    assert_eq!(36, s.char_to_byte(14));
}

#[test]
fn char_to_line_01() {
    let r = Rope::from_str(TEXT_LINES);
    let s = r.slice(34..96);

    // 's a fine day, isn't it?\nAren't you glad \
    // we're alive?\nこんにちは、みん

    assert_eq!(0, s.char_to_line(0));
    assert_eq!(0, s.char_to_line(1));

    assert_eq!(0, s.char_to_line(24));
    assert_eq!(1, s.char_to_line(25));
    assert_eq!(1, s.char_to_line(26));

    assert_eq!(1, s.char_to_line(53));
    assert_eq!(2, s.char_to_line(54));
    assert_eq!(2, s.char_to_line(55));

    assert_eq!(3, s.char_to_line(62));
}

#[test]
fn char_to_line_02() {
    let r = Rope::from_str(TEXT_LINES);
    let s = r.slice(43..43);

    assert_eq!(1, s.char_to_line(0));
}

#[test]
fn line_to_char_01() {
    let r = Rope::from_str(TEXT_LINES);
    let s = r.slice(34..96);

    assert_eq!(0, s.line_to_char(0));
    assert_eq!(25, s.line_to_char(1));
    assert_eq!(54, s.line_to_char(2));
    assert_eq!(62, s.line_to_char(3));
}

#[test]
fn line_to_char_02() {
    let r = Rope::from_str(TEXT_LINES);
    let s = r.slice(43..43);

    assert_eq!(0, s.line_to_char(0));
    assert_eq!(0, s.line_to_char(1));
}

#[test]
fn char_01() {
    let r = Rope::from_str(TEXT);
    let s = r.slice(34..100);

    // t's \
    // a fine day, isn't it?  Aren't you glad \
    // we're alive?  こんにちは、みんな

    assert_eq!(s.char(0), 't');
    assert_eq!(s.char(10), ' ');
    assert_eq!(s.char(18), 'n');
    assert_eq!(s.char(65), 'な');
}

#[test]
fn line_01() {
    let r = Rope::from_str(TEXT_LINES);
    let s = r.slice(34..96);
    // "'s a fine day, isn't it?\nAren't you glad \
    //  we're alive?\nこんにちは、みん"

    assert!(s.line(0).eq_str("'s a fine day, isn't it?\n"));
    assert!(s.line(1).eq_str("Aren't you glad we're alive?\n"));
    assert!(s.line(2).eq_str("こんにちは、みん"));
}

#[test]
fn line_02() {
    let r = Rope::from_str(TEXT_LINES);
    let s = r.slice(34..59);
    // "'s a fine day, isn't it?\n"

    assert!(s.line(0).eq_str("'s a fine day, isn't it?\n"));
    assert!(s.line(1).eq_str(""));
}

#[test]
fn line_03() {
    let r = Rope::from_str(TEXT_LINES);
    let s = r.slice(43..43);

    assert!(s.line(0).eq_str(""));
}

#[test]
fn slice_01() {
    let r = Rope::from_str(TEXT);
    let s1 = r.slice(..);

    let s2 = s1.slice(..);

    assert!(s2.eq_str(TEXT));
}

#[test]
fn slice_02() {
    let r = Rope::from_str(TEXT);
    let s1 = r.slice(5..43);

    let s2 = s1.slice(3..25);

    assert!(s2.eq_str(&TEXT[8..30]));
}

#[test]
fn slice_03() {
    let r = Rope::from_str(TEXT);
    let s1 = r.slice(31..97);

    let s2 = s1.slice(7..64);

    assert!(s2.eq_str(&TEXT[38..103]));
}

#[test]
fn slice_04() {
    let r = Rope::from_str(TEXT);
    let s1 = r.slice(5..43);

    let s2 = s1.slice(21..21);

    assert!(s2.eq_str(""));
}

#[test]
fn eq_str_01() {
    let r = Rope::from_str(TEXT);
    let slice = r.slice(..);

    assert!(slice.eq_str(TEXT));
}

#[test]
fn eq_str_02() {
    let r = Rope::from_str(TEXT);
    let slice = r.slice(0..20);

    assert!(!slice.eq_str(TEXT));
}

#[test]
fn eq_str_03() {
    let mut r = Rope::from_str(TEXT);
    r.remove(20..21);
    r.insert(20, "z");
    let slice = r.slice(..);

    assert!(!slice.eq_str(TEXT));
}

#[test]
fn eq_str_04() {
    let r = Rope::from_str(TEXT);
    let slice = r.slice(..);
    let s: String = TEXT.into();

    assert!(slice.eq_str(&s));
}

#[test]
fn eq_rope_slice_01() {
    let r = Rope::from_str(TEXT);
    let s = r.slice(43..43);

    assert!(s.eq_slice(&s));
}

#[test]
fn eq_rope_slice_02() {
    let r = Rope::from_str(TEXT);
    let s1 = r.slice(43..97);
    let s2 = r.slice(43..97);

    assert!(s1.eq_slice(&s2));
}

#[test]
fn eq_rope_slice_03() {
    let r = Rope::from_str(TEXT);
    let s1 = r.slice(43..43);
    let s2 = r.slice(43..45);

    assert!(!s1.eq_slice(&s2));
}

#[test]
fn eq_rope_slice_04() {
    let r = Rope::from_str(TEXT);
    let s1 = r.slice(43..45);
    let s2 = r.slice(43..43);

    assert!(!s1.eq_slice(&s2));
}

#[test]
fn eq_rope_slice_05() {
    let r = Rope::from_str("");
    let s = r.slice(0..0);

    assert!(s.eq_slice(&s));
}

#[test]
fn to_rope_01() {
    let r1 = Rope::from_str(TEXT);
    let s = r1.slice(..);
    let r2 = s.to_rope();

    assert!(r1.eq_rope(&r2));
    assert!(s.eq_rope(&r2));
}

#[test]
fn to_rope_02() {
    let r1 = Rope::from_str(TEXT);
    let s = r1.slice(0..24);
    let r2 = s.to_rope();

    assert!(s.eq_rope(&r2));
}

#[test]
fn to_rope_03() {
    let r1 = Rope::from_str(TEXT);
    let s = r1.slice(13..89);
    let r2 = s.to_rope();

    assert!(s.eq_rope(&r2));
}

#[test]
fn to_rope_04() {
    let r1 = Rope::from_str(TEXT);
    let s = r1.slice(13..41);
    let r2 = s.to_rope();

    assert!(s.eq_rope(&r2));
}

#[test]
fn to_string_01() {
    let r = Rope::from_str(TEXT);
    let s = r.slice(5..43);

    assert_eq!(s.to_string(), TEXT[5..43].to_string());
}
