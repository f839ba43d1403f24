use kindle_to_markdown::text::{join_from, lines_of, split_chars, trim_char_chars, trim_chars};

fn chars(s: &str) -> Vec<char> {
    s.chars().collect()
}

fn text(v: &[char]) -> String {
    v.iter().collect()
}

const SAMPLES: [&str; 12] = [
    "",
    "a",
    "\n",
    "a\nb",
    "a\r\nb\r\n",
    "a\n\nb\n",
    "  padded\t\n",
    "\u{3000}wide\u{a0}",
    "x==========y",
    "===========",
    "a\rb\n",
    "==========\n==========",
];

#[test]
fn lines_follow_the_standard_library() {
    for s in SAMPLES {
        let ours: Vec<String> = lines_of(&chars(s)).iter().map(|l| text(l)).collect();
        let std_lines: Vec<String> = s.lines().map(String::from).collect();
        assert_eq!(ours, std_lines, "{:?}", s);
    }
}

#[test]
fn split_follows_the_standard_library() {
    let sep = chars("==========");
    for s in SAMPLES {
        let ours: Vec<String> = split_chars(&chars(s), &sep).iter().map(|p| text(p)).collect();
        let std_pieces: Vec<String> = s.split("==========").map(String::from).collect();
        assert_eq!(ours, std_pieces, "{:?}", s);
    }
}

#[test]
fn trim_follows_the_standard_library() {
    for s in SAMPLES {
        assert_eq!(text(&trim_chars(&chars(s))), s.trim(), "{:?}", s);
        assert_eq!(text(&trim_char_chars(&chars(s), '=')), s.trim_matches('='), "{:?}", s);
    }
}

#[test]
fn join_follows_the_standard_library() {
    let parts = vec![chars("a"), chars("bc"), chars(""), chars("d")];
    assert_eq!(text(&join_from(&parts, 0, &['\n'])), "a\nbc\n\nd");
    assert_eq!(text(&join_from(&parts, 1, &['\n'])), "bc\n\nd");
    assert_eq!(text(&join_from(&parts, 4, &['\n'])), "");
}
