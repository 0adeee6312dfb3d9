use bplus_tree::query::lexer::classify;
use bplus_tree::query::lexer::operator_word;
use bplus_tree::query::lexer::split_words;
use bplus_tree::query::lexer::Lexer;
use bplus_tree::query::node::SELECT_FROM_Declare;
use bplus_tree::query::token::Token;

fn words(text: &str) -> Vec<String> {
    split_words(text)
}

#[test]
fn blanks_end_words() {
    assert_eq!(words("select a from t"), vec!["select", "a", "from", "t"]);
    assert_eq!(words("  a   b "), vec!["a", "b"]);
    assert_eq!(words(""), Vec::<String>::new());
    assert_eq!(words("   "), Vec::<String>::new());
}

#[test]
fn separators_are_words_of_their_own() {
    assert_eq!(words("a,b"), vec!["a", ",", "b"]);
    assert_eq!(words("(a)"), vec!["(", "a", ")"]);
    assert_eq!(words("f(x, y);"), vec!["f", "(", "x", ",", "y", ")", ";"]);
    assert_eq!(words(";;"), vec![";", ";"]);
}

#[test]
fn operators_take_one_or_two_characters() {
    assert_eq!(words("a>=b"), vec!["a", ">=", "b"]);
    assert_eq!(words("a<b"), vec!["a", "<", "b"]);
    assert_eq!(words("a<>b"), vec!["a", "<>", "b"]);
    assert_eq!(words("x="), vec!["x", "="]);
    assert_eq!(words("="), vec!["="]);
    assert_eq!(words("==="), vec!["==", "="]);
}

#[test]
fn the_character_after_a_single_operator_begins_the_next_word() {
    assert_eq!(words("a = b"), vec!["a", "=", " b"]);
    assert_eq!(words("a =,b"), vec!["a", "=", ",b"]);
    assert_eq!(words("a < (b)"), vec!["a", "<", " ", "(", "b", ")"]);
}

#[test]
fn words_may_hold_any_other_character() {
    assert_eq!(words("naïve café"), vec!["naïve", "café"]);
    assert_eq!(words("a\tb"), vec!["a\tb"]);
}

#[test]
fn the_first_word_is_read_as_a_token() {
    assert_eq!(Lexer::new("select a from t").tokenize(), vec![Token::SELECT]);
    assert_eq!(Lexer::new("from t").tokenize(), vec![Token::FROM]);
    assert_eq!(Lexer::new("insert").tokenize(), vec![Token::INSERT]);
    assert_eq!(Lexer::new("into").tokenize(), vec![Token::INTO]);
    assert_eq!(Lexer::new("create table").tokenize(), vec![Token::CREATE]);
    assert_eq!(Lexer::new("table").tokenize(), vec![Token::TABLE]);
    assert_eq!(Lexer::new("where").tokenize(), vec![Token::WHERE]);
    assert_eq!(Lexer::new("and").tokenize(), vec![Token::AND]);
    assert_eq!(Lexer::new("integer").tokenize(), vec![Token::INTEGER]);
    assert_eq!(Lexer::new("text").tokenize(), vec![Token::TEXT]);
    assert_eq!(Lexer::new(";").tokenize(), vec![Token::EOF]);
}

#[test]
fn keywords_are_read_in_any_case() {
    assert_eq!(Lexer::new("SELECT").tokenize(), vec![Token::SELECT]);
    assert_eq!(Lexer::new("SeLeCt x").tokenize(), vec![Token::SELECT]);
    assert_eq!(Lexer::new("WHERE").tokenize(), vec![Token::WHERE]);
}

#[test]
fn other_words_are_phrases_as_written() {
    assert_eq!(Lexer::new("users").tokenize(), vec![Token::Phrase("users".to_string())]);
    assert_eq!(Lexer::new("Users u").tokenize(), vec![Token::Phrase("Users".to_string())]);
    assert_eq!(Lexer::new("(a)").tokenize(), vec![Token::Phrase("(".to_string())]);
}

#[test]
fn a_query_without_a_word_has_no_token() {
    assert_eq!(Lexer::new("").tokenize(), Vec::<Token>::new());
    assert_eq!(Lexer::new("    ").tokenize(), Vec::<Token>::new());
}

#[test]
fn exec_tokenizes() {
    let mut lexer = Lexer::new("Create table t");
    assert_eq!(lexer.exec(), vec![Token::CREATE]);
    assert_eq!(lexer.target_data, "Create table t");
}

#[test]
fn a_query_that_begins_with_an_operator_is_not_tokenized() {
    for text in ["or x", "OR", "not a", "Not", "< 3", "> 3", "= 3", ">= 3", "<= 3"] {
        assert_eq!(Lexer::new(text).try_tokenize(), None);
    }
    assert_eq!(Lexer::new("select").try_tokenize(), Some(vec![Token::SELECT]));
    assert_eq!(Lexer::new("order").try_tokenize(), Some(vec![Token::Phrase("order".to_string())]));
    assert_eq!(Lexer::new("").try_tokenize(), Some(vec![]));
    assert_eq!(Lexer::new("<>").try_tokenize(), Some(vec![Token::Phrase("<>".to_string())]));
}

#[test]
fn operator_words_are_told_apart() {
    for word in ["or", "not", "<", ">", "=", ">=", "<="] {
        assert!(operator_word(word));
    }
    for word in ["and", "select", "", "==", "<>", "nor", "OR"] {
        assert!(!operator_word(word));
    }
}

#[test]
fn classify_goes_by_the_lowercase_and_keeps_the_word() {
    assert_eq!(classify("FROM".to_string(), "from"), Token::FROM);
    assert_eq!(classify("Books".to_string(), "books"), Token::Phrase("Books".to_string()));
    assert_eq!(classify(";".to_string(), ";"), Token::EOF);
}

#[test]
fn a_new_statement_is_blank() {
    let s = SELECT_FROM_Declare::new();
    assert_eq!(s.text, "");
    assert_eq!(s.select_term.text, "");
    assert!(s.select_term.contents.is_empty());
    assert_eq!(s.from_term.text, "");
    assert!(s.from_term.contents.is_empty());
    assert!(s.join_term.is_none());
    assert!(s.where_term.is_none());
    assert!(s.order_by.is_none());
    assert!(s.group_by.is_none());
    let d = SELECT_FROM_Declare::default();
    assert_eq!(d.text, "");
    assert!(d.where_term.is_none());
}
