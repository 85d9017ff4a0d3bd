use noshell::lexer::split;
use noshell::lexer::split_all;

#[test]
fn it_should_parse_single_word() {
    for input in ["word", "-f", "--flag"] {
        let mut words = split(input);
        let first = words.next();
        assert!(matches!(first, Some(Ok(word)) if word == input));
        assert!(words.next().is_none());
    }

    let mut words = split("");
    assert!(words.next().is_none());
}

#[test]
fn it_should_parse_single_quoted_word() {
    let cases: &[(&str, &str)] = &[("''", ""), ("'word'", "word"), ("\"\"", ""), ("\"word\"", "word")];
    for (input, expected) in cases {
        let mut words = split(input);
        let first = words.next();
        assert!(matches!(first, Some(Ok(word)) if word == *expected));
    }
}

#[test]
fn it_should_parse_multiple_words() {
    let words = split_all("-f value1 --flag2 value2");
    assert_eq!(words, vec!["-f", "value1", "--flag2", "value2"]);

    let words = split_all("-f value1 --flag2 \"value2.1 value2.2\"");
    assert_eq!(words, vec!["-f", "value1", "--flag2", "value2.1 value2.2"]);
}

#[test]
fn splitter_keeps_embedded_space_and_restarts() {
    let input = "-f value1 --flag2 \"value2.1 value2.2\"";

    let first_run = split_all(input);
    assert_eq!(first_run.len(), 4);
    assert_eq!(first_run[3], "value2.1 value2.2");

    // Restarting the splitter over the same text reproduces the sequence.
    let second_run = split_all(input);
    assert_eq!(first_run, second_run);
}

#[test]
fn splitter_skips_mixed_whitespace() {
    let words = split_all(" \t a \n\n b\t");
    assert_eq!(words, vec!["a", "b"]);
}

#[test]
fn unterminated_quote_is_taken_verbatim() {
    let words = split_all("'abc def");
    assert_eq!(words, vec!["'abc", "def"]);

    let words = split_all("\"abc");
    assert_eq!(words, vec!["\"abc"]);
}
