use ugit::text::chars_of;
use ugit::text::lines_of;
use ugit::text::string_from;
use ugit::text::trim_chars;
use ugit::text::words_of;

fn strs(v: Vec<Vec<char>>) -> Vec<String> {
    v.iter().map(|l| l.iter().collect()).collect()
}

#[test]
fn lines_drop_line_endings() {
    let c = chars_of("a\r\nb\n\nc");
    assert_eq!(strs(lines_of(&c)), vec!["a", "b", "", "c"]);
    let c = chars_of("a\n");
    assert_eq!(strs(lines_of(&c)), vec!["a"]);
    let c = chars_of("a\r");
    assert_eq!(strs(lines_of(&c)), vec!["a\r"]);
    assert!(lines_of(&chars_of("")).is_empty());
    let c = chars_of("\n\n");
    assert_eq!(strs(lines_of(&c)), vec!["", ""]);
}

#[test]
fn words_split_on_unicode_whitespace() {
    let c = chars_of("  tree\u{3000}abc\t x \u{a0}");
    assert_eq!(strs(words_of(&c)), vec!["tree", "abc", "x"]);
    assert!(words_of(&chars_of(" \n ")).is_empty());
}

#[test]
fn whitespace_property() {
    for c in [' ', '\t', '\n', '\r', '\u{85}', '\u{2028}', '\u{3000}'] {
        let text = format!("a{}b", c);
        assert_eq!(strs(words_of(&chars_of(&text))), vec!["a", "b"]);
    }
    for c in ['x', '\u{200b}', '_', '0'] {
        let text = format!("a{}b", c);
        assert_eq!(strs(words_of(&chars_of(&text))), vec![text.clone()]);
    }
}

#[test]
fn trimming() {
    let t = trim_chars(&chars_of(" \t ref: x \n"));
    assert_eq!(string_from(&t), "ref: x");
    assert_eq!(string_from(&trim_chars(&chars_of("   "))), "");
}
