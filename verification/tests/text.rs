use task_store::lines::{lines_of, split_on};
use task_store::text::{
    chars_of, find, remove_first_in, replace_first_in, same_text, string_of, trim_end_of, trim_of,
    whitespace,
};

fn chars(s: &str) -> Vec<char> {
    s.chars().collect()
}

fn text(cs: &[char]) -> String {
    cs.iter().collect()
}

fn texts(pieces: &[Vec<char>]) -> Vec<String> {
    pieces.iter().map(|p| text(p)).collect()
}

const SAMPLES: [&str; 16] = [
    "",
    " ",
    "\n",
    "a",
    "  a  ",
    "\t\r\n x y \u{a0}\u{3000}",
    "\u{2003}wide\u{2028}",
    "one\ntwo\nthree",
    "one\ntwo\n",
    "one\r\ntwo\r\n\r\nthree\r",
    "\n\nblank lines\n\n",
    "NAME: NAME: twice",
    "ab--ab--ab",
    "---TASK---a---TASK---b",
    "---TASK---TASK---x",
    "\u{feff}\u{200b}not white\u{200b}",
];

#[test]
fn conversions_keep_every_character() {
    for s in SAMPLES {
        assert_eq!(chars_of(s), chars(s));
        assert_eq!(string_of(&chars(s)), s);
    }
    assert_eq!(chars_of("héllo ✓"), vec!['h', 'é', 'l', 'l', 'o', ' ', '✓']);
    assert_eq!(string_of(&['a', 'ß', '\n']), "aß\n");
}

#[test]
fn whitespace_agrees_with_the_standard_library_on_every_character() {
    let mut code: u32 = 0;
    while code <= 0x10ffff {
        if let Some(c) = char::from_u32(code) {
            assert_eq!(whitespace(c), c.is_whitespace(), "U+{:04X}", code);
        }
        code += 1;
    }
}

#[test]
fn trimming_agrees_with_the_standard_library() {
    for s in SAMPLES {
        assert_eq!(text(&trim_of(&chars(s))), s.trim());
        assert_eq!(text(&trim_end_of(&chars(s))), s.trim_end());
    }
}

#[test]
fn trimming_cuts_both_ends_only() {
    assert_eq!(text(&trim_of(&chars("  a b  "))), "a b");
    assert_eq!(text(&trim_end_of(&chars("  a b  "))), "  a b");
    assert_eq!(text(&trim_of(&chars(" \n\t "))), "");
}

#[test]
fn lines_agree_with_the_standard_library() {
    for s in SAMPLES {
        let expected: Vec<String> = s.lines().map(String::from).collect();
        assert_eq!(texts(&lines_of(&chars(s))), expected);
    }
}

#[test]
fn lines_drop_the_line_ending_and_keep_a_bare_carriage_return() {
    assert_eq!(texts(&lines_of(&chars("a\r\nb\n\nc\r"))), vec!["a", "b", "", "c\r"]);
    assert_eq!(texts(&lines_of(&chars("a\n"))), vec!["a"]);
    assert!(lines_of(&chars("")).is_empty());
}

#[test]
fn split_agrees_with_the_standard_library() {
    for s in SAMPLES {
        for sep in ["---TASK---", "--", "\n", "a"] {
            let expected: Vec<String> = s.split(sep).map(String::from).collect();
            assert_eq!(texts(&split_on(&chars(s), &chars(sep))), expected);
        }
    }
}

#[test]
fn split_with_an_empty_separator_cuts_nothing() {
    assert_eq!(texts(&split_on(&chars("abc"), &[])), vec!["abc"]);
}

#[test]
fn split_finds_separators_from_the_left_without_overlap() {
    let pieces = split_on(&chars("---TASK---TASK---x"), &chars("---TASK---"));
    assert_eq!(texts(&pieces), vec!["", "TASK---x"]);
}

#[test]
fn find_gives_the_first_offset_in_characters() {
    assert_eq!(find(&chars("ab--ab--"), &chars("--")), Some(2));
    assert_eq!(find(&chars("é--"), &chars("--")), Some(1));
    assert_eq!(find(&chars("abc"), &chars("")), Some(0));
    assert_eq!(find(&chars(""), &chars("")), Some(0));
    assert_eq!(find(&chars("abc"), &chars("abcd")), None);
    assert_eq!(find(&chars("abc"), &chars("x")), None);
    assert_eq!(find(&chars("aab"), &chars("ab")), Some(1));
}

#[test]
fn replacing_touches_the_first_occurrence_only() {
    for s in SAMPLES {
        for pat in ["NAME: ", "--", "a", "\n"] {
            assert_eq!(
                text(&replace_first_in(&chars(s), &chars(pat), &chars("<>"))),
                s.replacen(pat, "<>", 1)
            );
            assert_eq!(text(&remove_first_in(&chars(s), &chars(pat))), s.replacen(pat, "", 1));
        }
    }
    assert_eq!(text(&remove_first_in(&chars("NAME: NAME: x"), &chars("NAME: "))), "NAME: x");
    assert_eq!(text(&replace_first_in(&chars("abc"), &chars("x"), &chars("y"))), "abc");
}

#[test]
fn same_text_compares_character_by_character() {
    assert!(same_text(&chars("true"), &chars("true")));
    assert!(!same_text(&chars("true"), &chars("True")));
    assert!(!same_text(&chars("true"), &chars("true ")));
    assert!(same_text(&[], &[]));
}
