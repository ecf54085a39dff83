use task_tracker::tokenizer::true_input_parse;

fn tokens_of(line: &str) -> Vec<String> {
    true_input_parse(&String::from(line))
}

#[test]
fn quoted_argument_stays_one_token() {
    let toks = tokens_of("add \"buy milk\"");
    assert_eq!(toks, vec![String::from("add"), String::from("buy milk")]);
}

#[test]
fn unquoted_multi_word_splits() {
    let toks = tokens_of("update 3 new description");
    assert_eq!(
        toks,
        vec![
            String::from("update"),
            String::from("3"),
            String::from("new"),
            String::from("description")
        ]
    );
}

#[test]
fn unterminated_quote_flushes_partial_token() {
    let toks = tokens_of("add \"oops");
    assert_eq!(toks, vec![String::from("add"), String::from("oops")]);
}

#[test]
fn empty_line_gives_no_tokens() {
    let toks = tokens_of("");
    assert!(toks.is_empty());
}

#[test]
fn consecutive_spaces_collapse() {
    let toks = tokens_of("list   done");
    assert_eq!(toks, vec![String::from("list"), String::from("done")]);
}

#[test]
fn quote_in_middle_of_word_toggles() {
    let toks = tokens_of("ab\"cd ef\"gh");
    assert_eq!(toks, vec![String::from("abcd efgh")]);
}

#[test]
fn backslash_is_an_ordinary_character() {
    let toks = tokens_of("add a\\b");
    assert_eq!(toks, vec![String::from("add"), String::from("a\\b")]);
}

#[test]
fn only_spaces_gives_no_tokens() {
    let toks = tokens_of("   ");
    assert!(toks.is_empty());
}

#[test]
fn quoted_empty_string_is_dropped() {
    let toks = tokens_of("add \"\"");
    assert_eq!(toks, vec![String::from("add")]);
}
