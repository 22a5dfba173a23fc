use rbac::text::{chars_of, lines, pieces, same_text, text_of, words, Separator};

fn strings(items: &[&str]) -> Vec<String> {
    items.iter().map(|item| item.to_string()).collect()
}

#[test]
fn chars_and_back() {
    let chars = chars_of("a/b\u{e9}");
    assert_eq!(chars, vec!['a', '/', 'b', '\u{e9}']);
    assert_eq!(text_of(&chars, 0, 4), "a/b\u{e9}");
    assert_eq!(text_of(&chars, 1, 3), "/b");
    assert_eq!(text_of(&chars, 2, 2), "");
    assert_eq!(chars_of(""), Vec::<char>::new());
}

#[test]
fn same_text_compares_characters() {
    assert!(same_text("allow", "allow"));
    assert!(!same_text("allow", "Allow"));
    assert!(!same_text("allow", "allo"));
    assert!(!same_text("", "a"));
    assert!(same_text("", ""));
}

#[test]
fn separators() {
    assert!(Separator::Slash.separates('/'));
    assert!(!Separator::Slash.separates('\\'));
    assert!(Separator::Newline.separates('\n'));
    assert!(!Separator::Newline.separates('\r'));
    assert!(Separator::Whitespace.separates(' '));
    assert!(Separator::Whitespace.separates('\t'));
    assert!(Separator::Whitespace.separates('\u{a0}'));
    assert!(!Separator::Whitespace.separates('a'));
}

#[test]
fn pieces_between_slashes() {
    let chars = chars_of("/a//bc/");
    assert_eq!(pieces(&chars, 0, Separator::Slash), vec![(0, 0), (1, 2), (3, 3), (4, 6), (7, 7)]);
    assert_eq!(pieces(&chars, 1, Separator::Slash), vec![(1, 2), (3, 3), (4, 6), (7, 7)]);
    assert_eq!(pieces(&chars, 7, Separator::Slash), vec![(7, 7)]);
    assert_eq!(pieces(&Vec::new(), 0, Separator::Slash), vec![(0, 0)]);
}

#[test]
fn lines_end_at_line_feeds() {
    assert_eq!(lines(""), Vec::<String>::new());
    assert_eq!(lines("a"), strings(&["a"]));
    assert_eq!(lines("a\n"), strings(&["a"]));
    assert_eq!(lines("a\nb"), strings(&["a", "b"]));
    assert_eq!(lines("a\n\nb\n"), strings(&["a", "", "b"]));
    assert_eq!(lines("\n"), strings(&[""]));
    assert_eq!(lines("\n\n"), strings(&["", ""]));
}

#[test]
fn lines_drop_a_carriage_return_before_the_line_feed() {
    assert_eq!(lines("a\r\nb\r\n"), strings(&["a", "b"]));
    assert_eq!(lines("a\r\nb\r"), strings(&["a", "b\r"]));
    assert_eq!(lines("a\rb\n"), strings(&["a\rb"]));
    assert_eq!(lines("\r\n"), strings(&[""]));
    assert_eq!(lines("a\r\r\n"), strings(&["a\r"]));
}

#[test]
fn lines_agree_with_the_standard_library() {
    for text in ["", "a", "a\n", "a\r\nb", "x\n\n\ny\r", "\r\n\r\n", "one two\nthree\r\n four "] {
        let expected: Vec<String> = text.lines().map(|line| line.to_string()).collect();
        assert_eq!(lines(text), expected);
    }
}

#[test]
fn words_are_runs_without_white_space() {
    assert_eq!(words(""), Vec::<String>::new());
    assert_eq!(words("   "), Vec::<String>::new());
    assert_eq!(words("Admin > User"), strings(&["Admin", ">", "User"]));
    assert_eq!(words("  deny\tJeff \t /resource  "), strings(&["deny", "Jeff", "/resource"]));
    assert_eq!(words("a\u{a0}b\u{3000}c"), strings(&["a", "b", "c"]));
    assert_eq!(words("one"), strings(&["one"]));
}

#[test]
fn words_agree_with_the_standard_library() {
    for text in ["", " ", "a b", "\ta\r\nb  c ", "x\u{2003}y", "#  comment line"] {
        let expected: Vec<String> = text.split_whitespace().map(|word| word.to_string()).collect();
        assert_eq!(words(text), expected);
    }
}

#[test]
fn cutting_agrees_with_the_standard_library_on_many_texts() {
    let alphabet = ['a', 'b', ' ', '\n', '\r', '\t', '/', '#', '\u{85}', '\u{e9}'];
    let mut state: u64 = 0x2545_f491_4f6c_dd1d;
    for _ in 0..2000 {
        let mut text = String::new();
        state = state.wrapping_mul(6364136223846793005).wrapping_add(1442695040888963407);
        let length = (state >> 33) % 9;
        for _ in 0..length {
            state = state.wrapping_mul(6364136223846793005).wrapping_add(1442695040888963407);
            text.push(alphabet[((state >> 33) % alphabet.len() as u64) as usize]);
        }
        let expected_lines: Vec<String> = text.lines().map(|line| line.to_string()).collect();
        assert_eq!(lines(&text), expected_lines, "lines of {:?}", text);
        let expected_words: Vec<String> =
            text.split_whitespace().map(|word| word.to_string()).collect();
        assert_eq!(words(&text), expected_words, "words of {:?}", text);
        let chars = chars_of(&text);
        let cut: Vec<String> = pieces(&chars, 0, Separator::Slash)
            .iter()
            .map(|range| text_of(&chars, range.0, range.1))
            .collect();
        let expected_cut: Vec<String> = text.split('/').map(|piece| piece.to_string()).collect();
        assert_eq!(cut, expected_cut, "pieces of {:?}", text);
    }
}
