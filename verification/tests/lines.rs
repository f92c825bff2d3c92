use beheader::cli::{args_from_words, parse_args_from_line, LineError};

fn strings(words: &[&str]) -> Vec<String> {
    words.iter().map(|w| w.to_string()).collect()
}

#[test]
fn line_is_split_as_a_shell_does() {
    assert_eq!(
        parse_args_from_line("beheader".to_string(), "out.bin 'a b.png' x\\ y --html \"p q\""),
        Ok(strings(&["beheader", "out.bin", "a b.png", "x y", "--html", "p q"]))
    );
    assert_eq!(parse_args_from_line(String::new(), ""), Ok(strings(&[""])));
}

#[test]
fn open_quotation_is_refused() {
    assert_eq!(
        parse_args_from_line("beheader".to_string(), "out.bin 'a"),
        Err(LineError::Split)
    );
    assert_eq!(LineError::Split.message(), "Failed to parse input line");
}

#[test]
fn words_follow_the_program() {
    assert_eq!(
        args_from_words("p".to_string(), Some(strings(&["a", "b"]))),
        Ok(strings(&["p", "a", "b"]))
    );
    assert_eq!(args_from_words("p".to_string(), None), Err(LineError::Split));
}
