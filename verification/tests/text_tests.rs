use connection_manager::text::{
    char_vec, is_whitespace_char, line_ranges, parse_u8_range, str_eq, terse_field_strings,
    trim_range, word_ranges,
};

fn pieces(cs: &[char], ranges: &[(usize, usize)]) -> Vec<String> {
    ranges.iter().map(|&(a, b)| cs[a..b].iter().collect()).collect()
}

const SAMPLES: &[&str] = &[
    "",
    "\n",
    "\n\n",
    "a",
    "a\n",
    "a\nb",
    "a\r\nb\r\n",
    "a\r",
    "a\rb\n",
    "\r\n",
    " yes:Home:802-11-wireless\nno:Work:802-11-wireless\n",
    "ünïcödé:ß\n:\n::",
    "  padded  \t\n\u{3000}x\u{3000}",
];

#[test]
fn char_vec_keeps_every_character() {
    for s in SAMPLES {
        assert_eq!(char_vec(s), s.chars().collect::<Vec<char>>());
    }
}

#[test]
fn line_ranges_match_str_lines() {
    for s in SAMPLES {
        let cs = char_vec(s);
        let got = pieces(&cs, &line_ranges(&cs));
        let want: Vec<String> = s.lines().map(|l| l.to_string()).collect();
        assert_eq!(got, want, "lines of {:?}", s);
    }
}

fn fields(s: &str) -> Vec<String> {
    let cs = char_vec(s);
    terse_field_strings(s, &cs, 0, cs.len())
}

#[test]
fn terse_fields_split_at_unescaped_colons() {
    assert_eq!(fields("yes:Home:802-11-wireless"), vec!["yes", "Home", "802-11-wireless"]);
    assert_eq!(fields(r"yes:My\:Net:802-11-wireless"), vec!["yes", "My:Net", "802-11-wireless"]);
    assert_eq!(fields(r"a\\b:c"), vec![r"a\b", "c"]);
    assert_eq!(fields(r"a\\:b"), vec![r"a\", "b"]);
    assert_eq!(fields(r"ab\"), vec![r"ab\"]);
    assert_eq!(fields(""), vec![""]);
    assert_eq!(fields("::"), vec!["", "", ""]);
    assert_eq!(fields(r"\::\:"), vec![":", ":"]);
    assert_eq!(fields("ünï:cödé"), vec!["ünï", "cödé"]);
}

#[test]
fn word_ranges_match_split_whitespace() {
    for s in SAMPLES {
        let cs = char_vec(s);
        let got = pieces(&cs, &word_ranges(&cs, 0, cs.len()));
        let want: Vec<String> = s.split_whitespace().map(|l| l.to_string()).collect();
        assert_eq!(got, want, "words of {:?}", s);
    }
}

#[test]
fn trim_range_matches_str_trim() {
    for s in SAMPLES {
        let cs = char_vec(s);
        let (a, b) = trim_range(&cs, 0, cs.len());
        let got: String = cs[a..b].iter().collect();
        assert_eq!(got, s.trim(), "trim of {:?}", s);
    }
}

#[test]
fn whitespace_matches_char_is_whitespace() {
    for u in 0u32..0x110000 {
        if let Some(c) = char::from_u32(u) {
            assert_eq!(is_whitespace_char(c), c.is_whitespace(), "U+{:04X}", u);
        }
    }
}

#[test]
fn parse_u8_matches_str_parse() {
    let mut inputs: Vec<String> = (0..300).map(|n| n.to_string()).collect();
    for extra in [
        "", "+", "-", "+0", "+42", "-1", "007", "0000000000255", "256", "1000", " 5", "5 ", "4a",
        "٣", "+-1", "++1", "99999999999999999999",
    ] {
        inputs.push(extra.to_string());
    }
    for s in &inputs {
        let cs = char_vec(s);
        assert_eq!(parse_u8_range(&cs, 0, cs.len()), s.parse::<u8>().ok(), "parse of {:?}", s);
    }
}

#[test]
fn str_eq_compares_characters() {
    assert!(str_eq("abc", "abc"));
    assert!(!str_eq("abc", "abd"));
    assert!(!str_eq("abc", "ab"));
    assert!(str_eq("", ""));
}
