use tfg_ml::text::{is_blank, split_on, split_once, trim_matching, trim_white_space, white_space_char};

fn chars(s: &str) -> Vec<char> {
    s.chars().collect()
}

fn texts(parts: &[Vec<char>]) -> Vec<String> {
    parts.iter().map(|p| p.iter().collect()).collect()
}

#[test]
fn split_on_keeps_empty_pieces() {
    let parts = split_on(&chars("a;b;;c"), ';');
    assert_eq!(texts(&parts), vec!["a", "b", "", "c"]);
}

#[test]
fn split_on_empty_line_gives_one_empty_piece() {
    let parts = split_on(&chars(""), ';');
    assert_eq!(texts(&parts), vec![""]);
}

#[test]
fn split_on_matches_str_split() {
    let line = "58;\"management\";\"married\";\"tertiary\";\"no\";2143;\"yes\";;";
    let parts = split_on(&chars(line), ';');
    let expected: Vec<String> = line.split(';').map(|s| s.to_string()).collect();
    assert_eq!(texts(&parts), expected);
}

#[test]
fn split_then_join_gives_the_line_back() {
    let line = ";x;;y z;";
    let parts = texts(&split_on(&chars(line), ';'));
    assert_eq!(parts.join(";"), line);
    assert!(parts.iter().all(|p| !p.contains(';')));
}

#[test]
fn trim_matching_removes_surrounding_quotes() {
    let t: String = trim_matching(&chars("\"\"admin.\""), '"').iter().collect();
    assert_eq!(t, "admin.");
    let inner: String = trim_matching(&chars("\"a\"b\""), '"').iter().collect();
    assert_eq!(inner, "a\"b");
}

#[test]
fn trim_matching_of_only_quotes_is_empty() {
    assert!(trim_matching(&chars("\"\"\""), '"').is_empty());
}

#[test]
fn trim_white_space_matches_str_trim() {
    for s in ["  x y \t", "\u{a0}z\u{3000}", "", "   ", "abc", "\r\n a \n"] {
        let t: String = trim_white_space(&chars(s)).iter().collect();
        assert_eq!(t, s.trim());
    }
}

#[test]
fn white_space_char_matches_char_is_whitespace() {
    for code in 0u32..0x3100 {
        if let Some(c) = char::from_u32(code) {
            assert_eq!(white_space_char(c), c.is_whitespace(), "code point {:x}", code);
        }
    }
}

#[test]
fn is_blank_detects_white_space_only_fields() {
    assert!(is_blank(&chars("")));
    assert!(is_blank(&chars(" \t ")));
    assert!(!is_blank(&chars(" a ")));
}

#[test]
fn split_once_cuts_at_the_first_separator() {
    let (a, b) = split_once(&chars("Hamburg;12.0"), ';').unwrap();
    assert_eq!(a.iter().collect::<String>(), "Hamburg");
    assert_eq!(b.iter().collect::<String>(), "12.0");
    let (a, b) = split_once(&chars("a;b;c"), ';').unwrap();
    assert_eq!(a.iter().collect::<String>(), "a");
    assert_eq!(b.iter().collect::<String>(), "b;c");
}

#[test]
fn split_once_without_separator_is_none() {
    assert!(split_once(&chars("no separator"), ';').is_none());
}
