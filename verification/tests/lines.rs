use score_tally::{MalformedScore, NumberError, Score};

fn name(s: &str) -> Score {
    Score::Name(s.to_string())
}

fn with_score(s: &str, n: i64) -> Score {
    Score::WithScore(s.to_string(), n)
}

fn malformed(text: &str, reason: NumberError) -> MalformedScore {
    MalformedScore { text: text.to_string(), reason }
}

#[test]
fn line_without_colon_is_a_name() {
    assert_eq!(Score::try_from("Bob"), Ok(name("Bob")));
    assert_eq!(Score::try_from("Mary Ann"), Ok(name("Mary Ann")));
    assert_eq!(Score::try_from("42"), Ok(name("42")));
}

#[test]
fn name_is_kept_verbatim() {
    assert_eq!(Score::try_from("  Bob\t"), Ok(name("  Bob\t")));
    assert_eq!(Score::try_from("Zo\u{eb} \u{3000}"), Ok(name("Zo\u{eb} \u{3000}")));
    assert_eq!(Score::try_from(" Alice :10"), Ok(with_score(" Alice ", 10)));
}

#[test]
fn empty_line_is_an_empty_name() {
    assert_eq!(Score::try_from(""), Ok(name("")));
}

#[test]
fn name_and_integer_is_a_score() {
    assert_eq!(Score::try_from("Alice:10"), Ok(with_score("Alice", 10)));
    assert_eq!(Score::try_from("Alice:0"), Ok(with_score("Alice", 0)));
    assert_eq!(Score::try_from("Alice:+15"), Ok(with_score("Alice", 15)));
    assert_eq!(Score::try_from("Alice:007"), Ok(with_score("Alice", 7)));
    assert_eq!(Score::try_from(":5"), Ok(with_score("", 5)));
}

#[test]
fn negative_score_is_accepted() {
    assert_eq!(Score::try_from("Dan:-3"), Ok(with_score("Dan", -3)));
}

#[test]
fn extreme_scores_are_accepted() {
    assert_eq!(Score::try_from("Eve:9223372036854775807"), Ok(with_score("Eve", i64::MAX)));
    assert_eq!(Score::try_from("Eve:-9223372036854775808"), Ok(with_score("Eve", i64::MIN)));
}

#[test]
fn fields_after_the_second_are_ignored() {
    assert_eq!(Score::try_from("Alice:10:20"), Ok(with_score("Alice", 10)));
    assert_eq!(Score::try_from("Alice:10:"), Ok(with_score("Alice", 10)));
    assert_eq!(Score::try_from("Alice:10:not a number:"), Ok(with_score("Alice", 10)));
}

#[test]
fn only_the_second_field_is_the_score() {
    assert_eq!(
        Score::try_from("Alice::10"),
        Err(malformed("", NumberError::Empty))
    );
    assert_eq!(
        Score::try_from("a:b:5"),
        Err(malformed("b", NumberError::InvalidDigit))
    );
}

#[test]
fn text_that_is_no_integer_is_malformed() {
    assert_eq!(
        Score::try_from("Carol:abc"),
        Err(malformed("abc", NumberError::InvalidDigit))
    );
}

#[test]
fn missing_score_is_malformed() {
    assert_eq!(Score::try_from("Carol:"), Err(malformed("", NumberError::Empty)));
}

#[test]
fn score_is_not_trimmed() {
    assert_eq!(
        Score::try_from("Carol: 10"),
        Err(malformed(" 10", NumberError::InvalidDigit))
    );
    assert_eq!(
        Score::try_from("Carol:10 "),
        Err(malformed("10 ", NumberError::InvalidDigit))
    );
    assert_eq!(
        Score::try_from("Carol:10\r"),
        Err(malformed("10\r", NumberError::InvalidDigit))
    );
}

#[test]
fn score_out_of_range_is_malformed() {
    assert_eq!(
        Score::try_from("Carol:9223372036854775808"),
        Err(malformed("9223372036854775808", NumberError::PosOverflow))
    );
    assert_eq!(
        Score::try_from("Carol:-9223372036854775809"),
        Err(malformed("-9223372036854775809", NumberError::NegOverflow))
    );
}

#[test]
fn message_names_the_reason() {
    let error = Score::try_from("Carol:abc").unwrap_err();
    assert_eq!(error.text, "abc");
    assert_eq!(error.message(), "Error parsing number: invalid digit found in string");
}

#[test]
fn messages_are_those_of_the_standard_library() {
    for text in ["", "abc", "9223372036854775808", "-9223372036854775809"] {
        let line = format!("Carol:{}", text);
        let error = Score::try_from(&line).unwrap_err();
        let expected = text.parse::<i64>().unwrap_err();
        assert_eq!(error.text, text);
        assert_eq!(error.message(), format!("Error parsing number: {}", expected));
    }
}

#[test]
fn from_chars_reads_what_try_from_reads() {
    for line in ["", "Bob", "Alice:10", "Carol:abc", "a:1:2", "x:-"] {
        let chars: Vec<char> = line.chars().collect();
        assert_eq!(Score::from_chars(&chars), Score::try_from(line));
    }
}
