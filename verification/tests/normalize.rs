use dipho::corpus::normalize::{
    cardinal_tokens, expand_number, normalize_query, normalize_word, ordinal_tokens,
};

fn norm(raw: &str) -> Vec<String> {
    normalize_word(raw)
}

#[test]
fn matches_sidecar_normalization() {
    let cases: &[(&str, &[&str])] = &[
        ("25", &["twenty", "five"]),
        ("25th", &["twenty", "fifth"]),
        ("1st", &["first"]),
        ("2nd", &["second"]),
        ("3rd", &["third"]),
        ("0", &["zero"]),
        ("5", &["five"]),
        ("13", &["thirteen"]),
        ("20", &["twenty"]),
        ("21", &["twenty", "one"]),
        ("40", &["forty"]),
        ("100", &["one", "hundred"]),
        ("105", &["one", "hundred", "and", "five"]),
        ("111", &["one", "hundred", "and", "eleven"]),
        ("907", &["nine", "hundred", "and", "seven"]),
        ("1000", &["one", "thousand"]),
        ("1234", &["one", "thousand", "two", "hundred", "and", "thirty", "four"]),
        ("1,000", &["one", "zero"]),
        ("20100", &["twenty", "thousand", "one", "hundred"]),
        ("100026", &["one", "hundred", "thousand", "and", "twenty", "six"]),
        (
            "123456",
            &[
                "one", "hundred", "and", "twenty", "three", "thousand", "four", "hundred", "and",
                "fifty", "six",
            ],
        ),
        ("300000", &["three", "hundred", "thousand"]),
        ("1000000", &["one", "million"]),
        ("1000005", &["one", "million", "and", "five"]),
        ("1000026", &["one", "million", "and", "twenty", "six"]),
        ("1000126", &["one", "million", "one", "hundred", "and", "twenty", "six"]),
        ("2026", &["two", "thousand", "and", "twenty", "six"]),
        ("9000000000000000000", &["nine", "quintillion"]),
        ("1000000000000000000000000000000000000", &["one", "undecillion"]),
        ("20th", &["twentieth"]),
        ("23rd", &["twenty", "third"]),
        ("70th", &["seventieth"]),
        ("100th", &["one", "hundredth"]),
        ("110th", &["one", "hundred", "and", "tenth"]),
        ("101st", &["one", "hundred", "and", "first"]),
        ("12th", &["twelfth"]),
        ("1000000th", &["one", "millionth"]),
        ("abc25def", &["abc", "twenty", "five", "def"]),
        ("Hello,", &["hello"]),
        ("don't", &["don't"]),
        ("'em", &["'em"]),
        ("...", &[]),
        ("''", &[]),
        ("WORLD!", &["world"]),
        ("3.14", &["three", "fourteen"]),
        ("twenty-five", &["twenty", "five"]),
        ("fifth", &["fifth"]),
    ];
    for (raw, expected) in cases {
        assert_eq!(&norm(raw), expected, "normalize_word({raw:?})");
    }
}

#[test]
fn huge_numbers_fall_back_to_digit_by_digit() {
    // 99 nines: beyond u128.
    let raw = "9".repeat(99);
    let tokens = norm(&raw);
    assert_eq!(tokens.len(), 99);
    assert!(tokens.iter().all(|t| t == "nine"));
}

#[test]
fn query_normalization_splits_on_whitespace() {
    assert_eq!(
        normalize_query("  I have 25 CATS! "),
        vec!["i", "have", "twenty", "five", "cats"]
    );
    assert!(normalize_query("  ...  ").is_empty());
    assert!(normalize_query("").is_empty());
}

#[test]
fn tokens_normalize_to_themselves() {
    for query in ["I have 25 CATS!", "don't stop 'til 1001", "3.14 twenty-five"] {
        for token in normalize_query(query) {
            assert_eq!(normalize_query(&token), vec![token.clone()], "{query}");
            assert!(token.chars().all(|c| c.is_alphabetic() || c == '\''));
        }
    }
}

#[test]
fn upper_case_beyond_ascii_is_lowered_and_stripped_like_any_letter() {
    assert_eq!(normalize_query("ÉCLAIR"), normalize_query("éclair"));
}

#[test]
fn number_words_by_value() {
    assert_eq!(cardinal_tokens(0), vec!["zero"]);
    assert_eq!(cardinal_tokens(42), vec!["forty", "two"]);
    assert_eq!(ordinal_tokens(42), vec!["forty", "second"]);
    let digits: Vec<char> = "7".chars().collect();
    assert_eq!(expand_number(&digits, false), vec!["seven"]);
    assert_eq!(expand_number(&digits, true), vec!["seventh"]);
}

#[test]
fn no_two_numbers_share_a_spelling() {
    let mut seen = std::collections::HashSet::new();
    let edges = [1_000_000, 1_000_005, 1_005_000, 5_000_001, u128::MAX - 1, u128::MAX];
    for n in (0..12_000).chain(edges) {
        let tokens = cardinal_tokens(n);
        assert!(!tokens.is_empty());
        assert!(seen.insert(tokens), "{n}");
    }
}
