use score_tally::text::{split_at_each, to_chars, to_string, trimmed_end, white_space};

fn split(text: &str, sep: char) -> Vec<String> {
    let chars: Vec<char> = text.chars().collect();
    split_at_each(&chars, sep).into_iter().map(|field| field.iter().collect()).collect()
}

fn trim(text: &str) -> String {
    let chars: Vec<char> = text.chars().collect();
    trimmed_end(&chars).iter().collect()
}

#[test]
fn characters_are_taken_one_by_one() {
    assert_eq!(to_chars(""), Vec::<char>::new());
    assert_eq!(to_chars("a:1"), vec!['a', ':', '1']);
    assert_eq!(to_chars("Zo\u{eb}\n"), vec!['Z', 'o', '\u{eb}', '\n']);
}

#[test]
fn characters_make_a_string() {
    assert_eq!(to_string(&[]), "");
    assert_eq!(to_string(&['a', ':', '1']), "a:1");
    assert_eq!(to_string(&['\u{1f600}', ' ', '\u{eb}']), "\u{1f600} \u{eb}");
}

#[test]
fn string_and_characters_go_back_and_forth() {
    for text in ["", "Alice:10", "\u{3000}x\u{3000}", "a\nb\n"] {
        assert_eq!(to_string(&to_chars(text)), text);
    }
}

#[test]
fn text_without_separator_is_one_field() {
    assert_eq!(split("", ':'), vec![""]);
    assert_eq!(split("Bob", ':'), vec!["Bob"]);
}

#[test]
fn every_separator_ends_a_field() {
    assert_eq!(split("a:1", ':'), vec!["a", "1"]);
    assert_eq!(split("a:1:2", ':'), vec!["a", "1", "2"]);
    assert_eq!(split(":", ':'), vec!["", ""]);
    assert_eq!(split("::", ':'), vec!["", "", ""]);
    assert_eq!(split(":a", ':'), vec!["", "a"]);
    assert_eq!(split("a:", ':'), vec!["a", ""]);
    assert_eq!(split("a\n\nb", '\n'), vec!["a", "", "b"]);
}

#[test]
fn fields_are_those_of_the_standard_library() {
    for text in ["", ":", "a", "a:b", ":a:", "a::b", "::::", "ab:cd:ef", "\u{eb}:\u{eb}"] {
        let expected: Vec<String> = text.split(':').map(|field| field.to_string()).collect();
        assert_eq!(split(text, ':'), expected);
    }
}

#[test]
fn joined_fields_are_the_text() {
    for text in ["", ":", "a", "a:b", ":a:", "a::b", "::::"] {
        assert_eq!(split(text, ':').join(":"), text);
    }
}

#[test]
fn white_space_is_what_the_standard_library_says() {
    for code in 0..=0x10ffffu32 {
        if let Some(c) = char::from_u32(code) {
            assert_eq!(white_space(c), c.is_whitespace(), "U+{:04X}", code);
        }
    }
}

#[test]
fn white_space_at_the_end_is_trimmed() {
    assert_eq!(trim(""), "");
    assert_eq!(trim("   "), "");
    assert_eq!(trim("a"), "a");
    assert_eq!(trim("a \n\t\r\n"), "a");
    assert_eq!(trim("  a b  "), "  a b");
    assert_eq!(trim("\n\na\u{a0}\u{2009}\u{3000}"), "\n\na");
}

#[test]
fn other_characters_at_the_end_are_kept() {
    assert_eq!(trim("a\u{0}"), "a\u{0}");
    assert_eq!(trim("a\u{200b}"), "a\u{200b}");
    assert_eq!(trim("a \u{feff}"), "a \u{feff}");
}

#[test]
fn trimming_agrees_with_the_standard_library() {
    for text in ["", " ", "a", " a ", "a\n", "a\r\n\r\n", "\u{85}a\u{85}", "a\u{1680}\u{205f}b\u{2028}\u{2029}\u{202f}"] {
        assert_eq!(trim(text), text.trim_end());
    }
}
