use ropey::Rope;

// 127 bytes, 103 chars, 1 line
const TEXT: &str = "Hello there!  How're you doing?  It's \
                    a fine day, isn't it?  Aren't you glad \
                    we're alive?  こんにちは、みんなさん！";

fn char_to_byte_idx_ref(idx: usize, text: &str) -> usize {
    text.char_indices().nth(idx).unwrap_or((text.len(), '\0')).0
}

fn string_insert(text: &mut String, char_idx: usize, text_ins: &str) {
    let byte_idx = char_to_byte_idx_ref(char_idx, text);
    text.insert_str(byte_idx, text_ins);
}

fn string_remove(text: &mut String, char_start: usize, char_end: usize) {
    let byte_start = char_to_byte_idx_ref(char_start, text);
    let byte_end = char_to_byte_idx_ref(char_end, text);
    let text_r = text.split_off(byte_end);
    text.truncate(byte_start);
    text.push_str(&text_r);
}

#[test]
fn from_str_01() {
    let r = Rope::from_str(TEXT);
    assert_eq!(r.len_bytes(), 127);
    assert_eq!(r.len_chars(), 103);
    assert_eq!(r.len_lines(), 1);
    assert_eq!(r.to_string(), TEXT);
}

#[test]
fn new_01() {
    let r = Rope::new();
    assert_eq!(r.len_bytes(), 0);
    assert_eq!(r.len_chars(), 0);
    assert_eq!(r.len_lines(), 1);
    assert_eq!(r.to_string(), "");
}

#[test]
fn insert_01() {
    let mut r = Rope::from_str("Hello い!");
    r.insert(6, "せか");
    assert_eq!(r.to_string(), "Hello せかい!");
    assert_eq!(r.len_chars(), 10);
}

#[test]
fn insert_02() {
    let mut r = Rope::new();
    r.insert(0, "Hello");
    r.insert(5, " world");
    r.insert(11, "!");
    assert_eq!(r.to_string(), "Hello world!");
}

#[test]
fn remove_01() {
    let mut r = Rope::from_str("Hello せかい world!");
    r.remove(6..9);
    assert_eq!(r.to_string(), "Hello  world!");
}

#[test]
fn remove_02() {
    let mut r = Rope::from_str(TEXT);
    r.remove(0..103);
    assert_eq!(r.to_string(), "");
    assert_eq!(r.len_lines(), 1);
}

#[test]
fn split_off_and_append_01() {
    for idx in [0usize, 1, 17, 51, 52, 100, 102, 103] {
        let mut r = Rope::from_str(TEXT);
        let tail = r.split_off(idx);
        let head_s = r.to_string();
        let tail_s = tail.to_string();
        assert_eq!(head_s.chars().count(), idx);
        r.append(tail);
        assert_eq!(r.to_string(), TEXT);
    }
}

#[test]
fn byte_char_round_trip_01() {
    let r = Rope::from_str(TEXT);
    for c in 0..=r.len_chars() {
        let b = r.char_to_byte(c);
        assert_eq!(r.byte_to_char(b), c);
    }
}

#[test]
fn char_line_01() {
    let text = "Here\r\nare\r\nsome\r\nwords";
    let r = Rope::from_str(text);
    assert_eq!(r.len_lines(), 4);
    assert_eq!(r.char_to_line(0), 0);
    assert_eq!(r.char_to_line(5), 0);
    assert_eq!(r.char_to_line(6), 1);
    assert_eq!(r.line_to_char(1), 6);
    assert_eq!(r.line_to_char(4), r.len_chars());
}

#[test]
fn line_breaks_rope_01() {
    let text = "\u{000A}Hello\u{000D}\u{000A}\u{000D}せ\u{000B}か\u{000C}い\u{0085}. \
                There\u{2028}is something.\u{2029}";
    let r = Rope::from_str(text);
    assert_eq!(r.len_lines(), 9);
}

#[test]
fn crlf_split_by_edit_01() {
    // removing the chars between a CR and an LF joins them into one break
    let mut r = Rope::from_str("a\rxx\nb");
    assert_eq!(r.len_lines(), 3);
    r.remove(2..4);
    assert_eq!(r.to_string(), "a\r\nb");
    assert_eq!(r.len_lines(), 2);
}

#[test]
fn crlf_split_by_insert_01() {
    // inserting between a CR and an LF separates them into two breaks
    let mut r = Rope::from_str("a\r\nb");
    assert_eq!(r.len_lines(), 2);
    r.insert(2, "x");
    assert_eq!(r.to_string(), "a\rx\nb");
    assert_eq!(r.len_lines(), 3);
}

#[test]
fn iter_counts_01() {
    let r = Rope::from_str(TEXT);
    assert_eq!(r.bytes().count(), r.len_bytes());
    assert_eq!(r.chars().count(), r.len_chars());
    assert_eq!(r.lines().count(), r.len_lines());
    assert_eq!(r.chunks().count_bytes(), r.len_bytes());
}

#[test]
fn iter_bytes_01() {
    let r = Rope::from_str("abcd");
    let mut it = r.bytes();
    assert_eq!(it.next(), Some(b'a'));
    assert_eq!(it.next(), Some(b'b'));
    assert_eq!(it.next(), Some(b'c'));
    assert_eq!(it.next(), Some(b'd'));
    assert_eq!(it.next(), None);
}

#[test]
fn iter_chars_01() {
    let r = Rope::from_str("aせb");
    let mut it = r.chars();
    assert_eq!(it.next(), Some('a'));
    assert_eq!(it.next(), Some('せ'));
    assert_eq!(it.next(), Some('b'));
    assert_eq!(it.next(), None);
}

#[test]
fn iter_chunks_01() {
    let r = Rope::from_str(TEXT);
    let mut collected: Vec<u8> = Vec::new();
    let mut it = r.chunks();
    while let Some(chunk) = it.next() {
        assert!(!chunk.is_empty());
        collected.extend_from_slice(&chunk);
    }
    assert_eq!(collected, TEXT.as_bytes());
}

#[test]
fn iter_lines_01() {
    let text = "Here\nare\nsome\nwords";
    let r = Rope::from_str(text);
    let mut it = r.lines();
    assert!(it.next().unwrap().eq_str("Here\n"));
    assert!(it.next().unwrap().eq_str("are\n"));
    assert!(it.next().unwrap().eq_str("some\n"));
    assert!(it.next().unwrap().eq_str("words"));
    assert!(it.next().is_none());
}

#[test]
fn capacity_01() {
    let r = Rope::from_str(TEXT);
    assert!(r.capacity() >= r.len_bytes());
}

#[test]
fn shrink_to_fit_01() {
    let mut r = Rope::new();
    let mut idx: usize = 1;
    for _ in 0..200 {
        idx = (idx.wrapping_mul(1103515245).wrapping_add(12345)) % 1000000;
        let len = r.len_chars();
        r.insert(idx % (len + 1), "Hello world!");
    }
    let before = r.clone();
    r.shrink_to_fit();
    assert!(r.eq_rope(&before));
    // the text is ASCII, so repacking fills every leaf but the last
    assert!(r.capacity() - r.len_bytes() < 16);
    assert!(r.capacity() <= before.capacity());
}

#[test]
fn stress_random_edits_01() {
    let mut r = Rope::new();
    let mut text = String::new();
    let mut seed: usize = 7;
    for step in 0..300 {
        seed = (seed.wrapping_mul(1103515245).wrapping_add(12345)) % 1000000;
        let len = r.len_chars();
        if step % 5 == 4 && len > 0 {
            let mut a = seed % (len + 1);
            let mut b = (seed / 7) % (len + 1);
            if a > b {
                std::mem::swap(&mut a, &mut b);
            }
            r.remove(a..b);
            string_remove(&mut text, a, b);
        } else {
            let idx = seed % (len + 1);
            r.insert(idx, "Hèllo せ wörld!\r\n");
            string_insert(&mut text, idx, "Hèllo せ wörld!\r\n");
        }
        assert_eq!(r.to_string(), text);
        assert_eq!(r.len_bytes(), text.len());
        assert_eq!(r.len_chars(), text.chars().count());
    }
}

#[test]
fn split_reconstruct_01() {
    let mut r = Rope::from_str(TEXT);
    let tail = r.split_off(51);
    r.append(tail);
    let r2 = Rope::from_str(TEXT);
    assert!(r.eq_rope(&r2));
}

#[test]
fn byte_01() {
    let r = Rope::from_str("abc");
    assert_eq!(r.byte(0), b'a');
    assert_eq!(r.byte(2), b'c');
}

#[test]
fn clone_01() {
    let r = Rope::from_str(TEXT);
    let c = r.clone();
    assert!(r.eq_rope(&c));
}

#[test]
fn empty_rope_conversions_01() {
    let r = Rope::new();
    assert_eq!(r.byte_to_char(0), 0);
    assert_eq!(r.char_to_byte(0), 0);
    assert_eq!(r.char_to_line(0), 0);
    assert_eq!(r.line_to_char(0), 0);
    assert_eq!(r.line_to_char(1), 0);
}

#[test]
fn byte_to_char_mid_scalar_01() {
    let r = Rope::from_str("せかい");
    assert_eq!(r.byte_to_char(0), 0);
    assert_eq!(r.byte_to_char(1), 0);
    assert_eq!(r.byte_to_char(2), 0);
    assert_eq!(r.byte_to_char(3), 1);
    assert_eq!(r.byte_to_char(8), 2);
    assert_eq!(r.byte_to_char(9), 3);
}

#[test]
fn slice_crlf_boundary_01() {
    // a slice boundary between CR and LF separates them for the view
    let r = Rope::from_str("a\r\nb");
    let left = r.slice(0..2);
    let right = r.slice(2..4);
    assert!(left.eq_str("a\r"));
    assert!(right.eq_str("\nb"));
    assert_eq!(r.len_lines(), 2);
}

#[test]
fn line_to_char_end_anchor_01() {
    let text = "one\ntwo\n";
    let r = Rope::from_str(text);
    assert_eq!(r.len_lines(), 3);
    assert_eq!(r.line_to_char(0), 0);
    assert_eq!(r.line_to_char(1), 4);
    assert_eq!(r.line_to_char(2), 8);
    assert_eq!(r.line_to_char(3), r.len_chars());
}

#[test]
fn unicode_line_breaks_in_tree_01() {
    // terminators of every width, spread over many small leaves
    let mut text = String::new();
    for _ in 0..20 {
        text.push_str("aa\u{000B}b\u{0085}cc\u{2028}d\u{2029}e\r\nf\rg\n");
    }
    let r = Rope::from_str(&text);
    assert_eq!(
        r.len_lines(),
        ropey::str_utils::count_line_breaks(&text) + 1
    );
    for l in 0..r.len_lines() {
        let c = r.line_to_char(l);
        assert_eq!(r.char_to_line(c), l);
    }
}

#[test]
fn shrink_to_fit_multibyte_01() {
    let mut r = Rope::new();
    for _ in 0..100 {
        let len = r.len_chars();
        r.insert(len / 2, "たた t");
    }
    let before = r.clone();
    r.shrink_to_fit();
    assert!(r.eq_rope(&before));
    // every leaf but the last holds more than MAX_BYTES - 4 bytes
    let leaves = r.capacity() / 16;
    assert!(leaves <= 1 || (leaves - 1) * 13 < r.len_bytes() + 1);
}
