use forum_threads::processing::{clean_text, count_words, process};
use forum_threads::text::{clean_content, init_regex, TextConfig};

#[test]
fn test_regex() {
    let cleaner = init_regex().unwrap();
    let cleaned_text = clean_content(&cleaner, "hello--world");
    assert_eq!(cleaned_text, "hello world");
}

#[test]
fn test_clean_text() {
    // Integration test for the clean_text function

    // Add more test cases here
    let test_cases = vec![
        // Test dashes
        ("hello--world", "hello world"),
        ("multiple---dashes", "multiple dashes"),
        ("normal-dash", "normal-dash"), // single dash should remain
        // Test equals signs
        ("title==heading", "title heading"),
        ("multiple===equals", "multiple equals"),
        ("single=equals", "single=equals"), // single equals should remain
        // Test multiple spaces
        ("too    many    spaces", "too many spaces"),
        ("normal spaces", "normal spaces"),
        ("tabs\t\tand    spaces", "tabs and spaces"),
        // Test URLs
        ("check http://example.com here", "check here"),
        ("https://website.com/path", ""),
        ("mixed http://url.com and text", "mixed and text"),
        // Test @ mentions
        ("hello @username world", "hello world"),
        ("@user1 @user2 text", "text"),
        ("email@domain.com text", "text"),
        // Test hashtags
        ("#Hashtag5, #Hashtag2, #Hashtag  ", ""),
        // Test combinations
        ("@user http://example.com  ---separator", "separator"),
        ("complex   http://example.com   @user   case", "complex case"),
        (
            "shouldn't #SPAM https://spam.com remove someone@spam.com this",
            "shouldn't remove this",
        ),
        // Edge cases
        ("", ""),    // empty string
        ("   ", ""), // only spaces
        ("---", ""), // only dashes
        ("===", ""), // only equals
    ];

    let cleaner = init_regex().unwrap();

    for (input, expected) in test_cases {
        let result = clean_text(&cleaner, input);
        println!("{} -> {}", input, result);
        assert_eq!(
            result, expected,
            "Failed on input: '{}'\nExpected: '{}'\nGot: '{}'",
            input, expected, result
        );
    }
}

#[test]
fn test_process() {
    // Test the process function
    let cleaner = init_regex().unwrap();
    let cfg = TextConfig { cleaner, tokenizer: None };

    let thread_id = "test123".to_string();
    let content = vec![
        "hello--world".to_string(),
        "@user http://example.com".to_string(),
    ];
    let forum_name = "testforum".to_string();

    // Without a tokenizer the length is the whitespace word count
    let result = process(&thread_id, &content, &forum_name, &cfg).unwrap();

    assert_eq!(result.thread_id, thread_id);
    assert_eq!(result.source, forum_name);
    assert_eq!(result.raw_content, "hello world\n");
    assert_eq!(result.length, 2); // "hello world" has 2 words
}

#[test]
fn count_words_counts_maximal_runs() {
    assert_eq!(count_words(""), 0);
    assert_eq!(count_words("   "), 0);
    assert_eq!(count_words("one"), 1);
    assert_eq!(count_words("  one  "), 1);
    assert_eq!(count_words("one two\tthree\nfour"), 4);
    assert_eq!(count_words("a\n\nb"), 2);
}

#[test]
fn tokenizer_length_metric_counts_tokens() {
    // a minimal in-memory word-level tokenizer with whitespace
    // pre-tokenization: "hello," splits into two tokens, though it is one
    // whitespace word — so this fails if the token count were echoing the
    // word count or the input length
    let spec = "{\"version\":\"1.0\",\"pre_tokenizer\":{\"type\":\"Whitespace\"},\"model\":{\"type\":\"WordLevel\",\"vocab\":{\"hello\":0,\",\":1,\"[UNK]\":2},\"unk_token\":\"[UNK]\"}}";
    let tok = tokenizers::Tokenizer::from_bytes(spec.as_bytes()).unwrap();
    let cleaner = init_regex().unwrap();
    let cfg = TextConfig { cleaner, tokenizer: Some(tok) };
    let content = vec!["hello,".to_string()];
    let rec = process("t", &content, "f", &cfg).unwrap();
    assert_eq!(rec.raw_content, "hello,");
    assert_eq!(rec.length, 2);
    assert_eq!(count_words("hello,"), 1);
}

#[test]
fn tokenizer_failure_reports_none() {
    // a word-level tokenizer whose declared unknown-token is absent from the
    // vocabulary cannot encode out-of-vocabulary text: the record is
    // reported as a collaborator failure, not fabricated
    let spec = "{\"version\":\"1.0\",\"pre_tokenizer\":{\"type\":\"Whitespace\"},\"model\":{\"type\":\"WordLevel\",\"vocab\":{\"hello\":0},\"unk_token\":\"[UNK]\"}}";
    let tok = tokenizers::Tokenizer::from_bytes(spec.as_bytes()).unwrap();
    let cleaner = init_regex().unwrap();
    let cfg = TextConfig { cleaner, tokenizer: Some(tok) };
    let content = vec!["something unknown".to_string()];
    assert!(process("t", &content, "f", &cfg).is_none());
}

#[test]
fn init_regex_patterns_change_their_input() {
    // the trusted regex calls must really replace, not echo
    let cleaner = init_regex().unwrap();
    assert_eq!(clean_content(&cleaner, "a--b"), "a b");
    assert_eq!(clean_content(&cleaner, "a  b"), "a b");
    assert_ne!(clean_content(&cleaner, "a--b"), "a--b");
}
