use khoj::ignore_rules::split_lines;
use khoj::tokenizer::{stem_word, tokenize};

fn chars(s: &str) -> Vec<char> {
    s.chars().collect()
}

fn toks(s: &str) -> Vec<String> {
    tokenize(&chars(s))
}

fn stem(s: &str) -> String {
    stem_word(&chars(s)).into_iter().collect()
}

#[test]
fn splits_on_non_alphanumeric_and_lowercases() {
    assert_eq!(toks("Hello, World!"), vec!["hello", "world"]);
    assert_eq!(toks("  --  "), Vec::<String>::new());
    assert_eq!(toks(""), Vec::<String>::new());
}

#[test]
fn keeps_digits_inside_runs() {
    assert_eq!(toks("abc123 456"), vec!["abc123", "456"]);
}

#[test]
fn unicode_letters_and_punctuation() {
    assert_eq!(toks("Ünïcödé—TEST…ok"), vec!["ünïcödé", "test", "ok"]);
    assert_eq!(toks("日本語 テキスト"), vec!["日本語", "テキスト"]);
}

#[test]
fn stems_inflected_forms() {
    assert_eq!(stem("classes"), "class");
    assert_eq!(stem("ponies"), "poni");
    assert_eq!(stem("glass"), "glass");
    assert_eq!(stem("cats"), "cat");
    assert_eq!(stem("bus"), "bus");
    assert_eq!(stem("jumped"), "jump");
    assert_eq!(stem("running"), "run");
    assert_eq!(stem("runs"), "run");
    assert_eq!(stem("hopping"), "hop");
    assert_eq!(stem("falling"), "fall");
    assert_eq!(stem("pony"), "poni");
    assert_eq!(stem("lazy"), "lazi");
    assert_eq!(stem("fly"), "fly");
    assert_eq!(stem("red"), "red");
    assert_eq!(stem("sing"), "sing");
    assert_eq!(stem("act"), "act");
}

#[test]
fn tokens_are_stemmed_after_lowercasing() {
    assert_eq!(toks("The CATS were Jumping"), vec!["the", "cat", "were", "jump"]);
}

#[test]
fn tokenizing_twice_gives_the_same_tokens() {
    let text = "Quick fox; quick FOXES.";
    assert_eq!(toks(text), toks(text));
}

#[test]
fn splits_lines_like_str_lines() {
    for text in ["a\nb", "a\r\nb\n", "", "\n", "x\r", "one\n\ntwo", "*.log\r\n!keep.log\r\n"] {
        let expected: Vec<String> = text.lines().map(|l| l.to_string()).collect();
        assert_eq!(split_lines(&chars(text)), expected, "text {:?}", text);
    }
}
