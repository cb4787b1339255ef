use unicode_tokenizer::Token;
use unicode_tokenizer::UnicodeTokenizer;
use unicode_tokenizer::tokenize;

fn collect_tokens(text: &str) -> Vec<Token> {
    let analyzer = UnicodeTokenizer::default();
    let mut stream = analyzer.token_stream(text);
    let mut tokens = Vec::new();
    while stream.advance() {
        tokens.push(stream.token().clone());
    }
    tokens
}

fn assert_token(token: &Token, position: usize, text: &str, offset_from: usize, offset_to: usize) {
    assert_eq!(
        token.position, position,
        "unexpected position for token {:?}",
        token
    );
    assert_eq!(token.text, text, "unexpected text for token {:?}", token);
    assert_eq!(
        token.offset_from, offset_from,
        "unexpected offset_from for token {:?}",
        token
    );
    assert_eq!(
        token.offset_to, offset_to,
        "unexpected offset_to for token {:?}",
        token
    );
}

#[test]
fn unicode_tokenizer_basic_latin() {
    let tokens = collect_tokens("Hello, happy tax payer!");
    assert_eq!(tokens.len(), 4);
    assert_token(&tokens[0], 0, "Hello", 0, 5);
    assert_token(&tokens[1], 1, "happy", 7, 12);
    assert_token(&tokens[2], 2, "tax", 13, 16);
    assert_token(&tokens[3], 3, "payer", 17, 22);
}

#[test]
fn unicode_tokenizer_multibyte_words() {
    let tokens = collect_tokens("naïve café δέλτα 123");
    assert_eq!(tokens.len(), 4);
    assert_token(&tokens[0], 0, "naïve", 0, 6);
    assert_token(&tokens[1], 1, "café", 7, 12);
    assert_token(&tokens[2], 2, "δέλτα", 13, 23);
    assert_token(&tokens[3], 3, "123", 24, 27);
}

#[test]
fn unicode_tokenizer_chinese_japanese() {
    let tokens = collect_tokens("汉字 カタカナ 한글");
    assert_eq!(tokens.len(), 4);
    assert_token(&tokens[0], 0, "汉", 0, 3);
    assert_token(&tokens[1], 1, "字", 3, 6);
    assert_token(&tokens[2], 2, "カタカナ", 7, 19);
    assert_token(&tokens[3], 3, "한글", 20, 26);
}

#[test]
fn apostrophe_elision_variants() {
    for text in ["Sam's", "Sam\u{2019}s", "Sam\u{02BC}s", "Sam`s", "Sam\u{00B4}s"] {
        let tokens = collect_tokens(text);
        assert_eq!(tokens.len(), 1, "expected one token for {:?}", text);
        assert_token(&tokens[0], 0, "Sams", 0, text.len());
    }
}

#[test]
fn apostrophe_merge_chains() {
    let tokens = collect_tokens("a``b``c");
    assert_eq!(tokens.len(), 1);
    assert_token(&tokens[0], 0, "abc", 0, 7);
}

#[test]
fn intra_word_split_on_punctuation() {
    let tokens = collect_tokens("1_2");
    assert_eq!(tokens.len(), 2);
    assert_token(&tokens[0], 0, "1", 0, 1);
    assert_token(&tokens[1], 1, "2", 2, 3);
}

#[test]
fn dash_compound_maximal_run() {
    let tokens = collect_tokens("state-of-the-art");
    assert_eq!(tokens.len(), 5);
    assert_token(&tokens[0], 0, "state", 0, 5);
    assert_token(&tokens[1], 1, "of", 6, 8);
    assert_token(&tokens[2], 2, "the", 9, 12);
    assert_token(&tokens[3], 3, "art", 13, 16);
    assert_token(&tokens[4], 4, "stateoftheart", 0, 16);
}

#[test]
fn punctuation_dash_apostrophe_combined() {
    let tokens = collect_tokens("co-op foo/bar baz—qux sam's-club");
    let texts: Vec<&str> = tokens.iter().map(|t| t.text.as_str()).collect();
    assert_eq!(
        texts,
        vec![
            "co", "op", "coop", "foo", "bar", "baz", "qux", "bazqux", "sams", "club", "samsclub"
        ]
    );
    assert_eq!(tokens.len(), 11);
}

#[test]
fn positions_and_offsets_well_formed() {
    let text = "co-op foo/bar baz—qux sam's-club 汉字 state-of-the-art";
    let tokens = collect_tokens(text);
    assert!(!tokens.is_empty());
    for (i, token) in tokens.iter().enumerate() {
        assert_eq!(token.position, i);
        assert!(token.offset_from <= token.offset_to);
        assert!(token.offset_to <= text.len());
    }
}

#[test]
fn deterministic_across_runs() {
    let text = "Sam's co-op — naïve café 汉字 state-of-the-art!";
    let first = collect_tokens(text);
    let second = collect_tokens(text);
    let third = tokenize(text);
    assert_eq!(first.len(), second.len());
    assert_eq!(first.len(), third.len());
    for i in 0..first.len() {
        for other in [&second[i], &third[i]] {
            assert_eq!(first[i].text, other.text);
            assert_eq!(first[i].offset_from, other.offset_from);
            assert_eq!(first[i].offset_to, other.offset_to);
            assert_eq!(first[i].position, other.position);
        }
    }
}

#[test]
fn pathological_inputs_yield_no_tokens() {
    assert_eq!(collect_tokens("").len(), 0);
    assert_eq!(collect_tokens("   \t  ").len(), 0);
    assert_eq!(collect_tokens("!!! ??? ...").len(), 0);
    assert_eq!(collect_tokens("---").len(), 0);
    assert_eq!(collect_tokens("''`'").len(), 0);
}

#[test]
fn stream_is_single_pass_and_terminal() {
    let analyzer = UnicodeTokenizer::new();
    let mut stream = analyzer.token_stream("tax payer");
    assert!(stream.advance());
    assert_eq!(stream.token().text, "tax");
    assert!(stream.advance());
    assert_eq!(stream.token().text, "payer");
    assert!(!stream.advance());
    assert!(!stream.advance());
    assert_eq!(stream.token().text, "payer");
}

#[test]
fn token_mut_edits_current_token() {
    let analyzer = UnicodeTokenizer::new();
    let mut stream = analyzer.token_stream("tax");
    assert!(stream.advance());
    stream.token_mut().text.push_str("es");
    assert_eq!(stream.token().text, "taxes");
}
