use wordora::tokenizer::{chunk_string, seed_token, separate_tokens, tokenize};

fn strings(v: &[&str]) -> Vec<String> {
    v.iter().map(|s| s.to_string()).collect()
}

#[test]
fn tokenize_empty_text() {
    assert_eq!(tokenize("", 5), Vec::<String>::new());
}

#[test]
fn tokenize_only_excluded_characters() {
    assert_eq!(tokenize("  😊 🌟 !? 123 ", 5), Vec::<String>::new());
}

#[test]
fn tokenize_syllabary_run_of_width() {
    assert_eq!(tokenize("こんにちは", 5), strings(&["こんにちは"]));
}

#[test]
fn tokenize_long_run_is_chunked_in_order() {
    let tokens = tokenize("こんにちはせかい", 5);
    assert_eq!(tokens, strings(&["こんにちは", "せかい"]));
    assert!(tokens.iter().all(|t| t.chars().count() <= 5));
    assert_eq!(tokens.concat(), "こんにちはせかい");
}

#[test]
fn tokenize_latin_words_split_on_whitespace() {
    assert_eq!(tokenize("abc def", 5), strings(&["abc", "def"]));
}

#[test]
fn tokenize_mixed_script_in_order() {
    assert_eq!(tokenize("今日はtest", 5), strings(&["今日", "は", "test"]));
}

#[test]
fn tokenize_long_latin_word_is_chunked() {
    assert_eq!(tokenize("Netflix", 5), strings(&["Netfl", "ix"]));
}

#[test]
fn separate_tokens_by_script_class() {
    assert_eq!(
        separate_tokens("Hello, world! 😊 今日は"),
        strings(&["Hello", "world", "今日", "は"])
    );
}

#[test]
fn separate_tokens_keeps_full_width_punctuation_with_latin() {
    assert_eq!(
        separate_tokens("天気。良い、ok"),
        strings(&["天気", "。", "良", "い", "、ok"])
    );
}

#[test]
fn separate_tokens_katakana_with_long_sound_mark() {
    assert_eq!(separate_tokens("コーヒーを"), strings(&["コーヒー", "を"]));
}

#[test]
fn chunk_string_pieces() {
    assert_eq!(chunk_string("abcdefg", 3), strings(&["abc", "def", "g"]));
}

#[test]
fn chunk_string_exact_width_is_one_piece() {
    assert_eq!(chunk_string("abcde", 5), strings(&["abcde"]));
}

#[test]
fn chunk_string_counts_characters_not_bytes() {
    assert_eq!(chunk_string("あいうえおか", 5), strings(&["あいうえお", "か"]));
}

#[test]
fn chunk_string_empty() {
    assert_eq!(chunk_string("", 3), Vec::<String>::new());
}

#[test]
fn seed_token_is_first_token_at_width_three() {
    assert_eq!(seed_token("今日はtest"), "今日");
    assert_eq!(seed_token("abcdef"), "abc");
}

#[test]
fn seed_token_of_empty_input_is_empty() {
    assert_eq!(seed_token(""), "");
    assert_eq!(seed_token("😊"), "");
}
