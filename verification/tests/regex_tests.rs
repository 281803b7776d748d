use lume::regex::levenshtein_regex;
use lume::regex::match_transition;
use lume::regex::Nfa;
use lume::regex::Parser;
use lume::regex::RegexAST;
use lume::regex::Transition;

#[test]
fn test_literal_match() {
    let nfa = Nfa::compile("hello").unwrap();
    let matches = nfa.matches("hello world");
    assert_eq!(matches, vec![(0, 5)]);
}

#[test]
fn test_wildcard_match() {
    let nfa = Nfa::compile("h.llo").unwrap();
    let matches = nfa.matches("hello hillo");
    assert_eq!(matches, vec![(0, 5), (6, 11)]);
}

#[test]
fn test_digit_and_alphanumeric() {
    let nfa = Nfa::compile("SKU-\\d\\d\\d").unwrap();
    let matches = nfa.matches("item SKU-123 is here");
    assert_eq!(matches, vec![(5, 12)]);
}

#[test]
fn test_quantifiers() {
    let nfa = Nfa::compile("ab*c").unwrap();
    assert_eq!(nfa.matches("ac abc abbc"), vec![(0, 2), (3, 6), (7, 11)]);

    let nfa = Nfa::compile("ab+c").unwrap();
    assert_eq!(nfa.matches("ac abc abbc"), vec![(3, 6), (7, 11)]);

    let nfa = Nfa::compile("ab?c").unwrap();
    assert_eq!(nfa.matches("ac abc abbc"), vec![(0, 2), (3, 6)]);
}

#[test]
fn test_repetition_bounds() {
    let nfa = Nfa::compile("a{3}").unwrap();
    assert_eq!(nfa.matches("aa aaa aaaa"), vec![(3, 6), (7, 10), (8, 11)]);

    let nfa = Nfa::compile("a{2,}").unwrap();
    assert_eq!(nfa.matches("a aa aaa"), vec![(2, 4), (5, 8), (6, 8)]);

    let nfa = Nfa::compile("a{2,3}").unwrap();
    assert_eq!(
        nfa.matches("a aa aaa aaaa"),
        vec![(2, 4), (5, 8), (6, 8), (9, 12), (10, 13), (11, 13)]
    );
}

#[test]
fn test_alternation_and_grouping() {
    let nfa = Nfa::compile("(abc|def)g").unwrap();
    assert_eq!(nfa.matches("abcg defg abcd"), vec![(0, 4), (5, 9)]);
}

#[test]
fn test_character_class() {
    let nfa = Nfa::compile("[A-Za-z0-9]+").unwrap();
    assert_eq!(
        nfa.matches("Hello123!"),
        vec![(0, 8), (1, 8), (2, 8), (3, 8), (4, 8), (5, 8), (6, 8), (7, 8)]
    );

    let nfa_neg = Nfa::compile("[^a-z]").unwrap();
    assert_eq!(nfa_neg.matches("a B c"), vec![(1, 2), (2, 3), (3, 4)]);
}

#[test]
fn test_levenshtein_regex_expansion() {
    let pattern = levenshtein_regex("htis");

    assert!(pattern.contains("htis"));
    assert!(pattern.contains("this"));
    assert!(pattern.contains("tis"));
    assert!(pattern.contains("his"));
    assert!(pattern.contains("h.is"));
    assert!(pattern.contains("ht.s"));

    let nfa = Nfa::compile(&pattern).unwrap();

    assert!(!nfa.matches("this").is_empty());
    assert!(!nfa.matches("tis").is_empty());
    assert!(!nfa.matches("his").is_empty());
    assert!(!nfa.matches("htis").is_empty());
}

#[test]
fn levenshtein_of_empty_term_is_empty() {
    assert_eq!(levenshtein_regex(""), "");
}

#[test]
fn levenshtein_lists_variants_sorted_once() {
    // "ab": itself, deletions "a" and "b", substitutions ".b" and "a.",
    // insertions ".ab", "a.b", "ab.", and the swap "ba".
    assert_eq!(levenshtein_regex("ab"), ".ab|.b|a|a.|a.b|ab|ab.|b|ba");
    // a single char: its deletion is empty and left out
    assert_eq!(levenshtein_regex("x"), ".|.x|x|x.");
    // repeated variants appear once
    assert_eq!(levenshtein_regex("aa"), ".a|.aa|a|a.|a.a|aa|aa.");
}

#[test]
fn empty_pattern_matches_empty_span_everywhere() {
    let nfa = Nfa::compile("").unwrap();
    assert_eq!(nfa.matches("ab"), vec![(0, 0), (1, 1)]);
    assert_eq!(nfa.matches(""), Vec::<(usize, usize)>::new());
}

#[test]
fn matches_count_chars_not_bytes() {
    let nfa = Nfa::compile("é+").unwrap();
    assert_eq!(nfa.matches("xéé"), vec![(1, 3), (2, 3)]);
}

#[test]
fn escapes_and_classes() {
    let nfa = Nfa::compile("\\w+\\s\\W").unwrap();
    assert_eq!(nfa.matches("ab !"), vec![(0, 4), (1, 4)]);
    let nfa = Nfa::compile("\\D\\S").unwrap();
    assert_eq!(nfa.matches("a1bc"), vec![(0, 2), (2, 4)]);
    let nfa = Nfa::compile("a\\.b").unwrap();
    assert_eq!(nfa.matches("a.b axb"), vec![(0, 3)]);
    let nfa = Nfa::compile("[a\\]]").unwrap();
    assert_eq!(nfa.matches("]a"), vec![(0, 1), (1, 2)]);
}

#[test]
fn wildcard_does_not_take_line_feed() {
    let nfa = Nfa::compile("a.b").unwrap();
    assert_eq!(nfa.matches("a\nb a-b"), vec![(4, 7)]);
}

#[test]
fn parse_errors_are_reported() {
    assert_eq!(Nfa::compile("a{2").err().unwrap(), "Unclosed quantifier bound '{n}'");
    assert_eq!(Nfa::compile("a{2,").err().unwrap(), "Unclosed quantifier bounds '{min,max}'");
    assert_eq!(Nfa::compile("a{x}").err().unwrap(), "Unclosed quantifier bound '{n}'");
    assert_eq!(Nfa::compile("a{}").err().unwrap(), "Invalid bound integer");
    assert_eq!(Nfa::compile("a{,3}").err().unwrap(), "Invalid min bound");
    assert_eq!(Nfa::compile("a{2,x}").err().unwrap(), "Unclosed quantifier bounds '{min,max}'");
    assert_eq!(
        Nfa::compile("a{1,99999999999999999999999}").err().unwrap(),
        "Invalid max bound"
    );
    assert_eq!(Nfa::compile("a{3,2}").err().unwrap(), "Max bound cannot be less than min");
    assert_eq!(Nfa::compile("ab\\").err().unwrap(), "Dangling backslash");
    assert_eq!(Nfa::compile("(ab").err().unwrap(), "Unclosed parenthesis group");
    assert_eq!(Nfa::compile("[ab").err().unwrap(), "Unclosed character class bracket");
    assert_eq!(Nfa::compile("[a\\").err().unwrap(), "Dangling backslash inside class");
    assert_eq!(Nfa::compile("[a-").err().unwrap(), "Dangling range '-'");
    assert_eq!(Nfa::compile("[a-\\").err().unwrap(), "Dangling backslash inside class range");
    assert_eq!(Nfa::compile("a(").err().unwrap(), "Unclosed parenthesis group");
    assert_eq!(Nfa::compile("a)").err().unwrap(), "Unexpected character at index 1: ')'");
    assert_eq!(Nfa::compile("*a").err().unwrap(), "Dangling operator/grouping symbol: '*'");
}

#[test]
fn parser_builds_the_tree() {
    let mut p = Parser::new("a|b");
    assert_eq!(
        p.parse().unwrap(),
        RegexAST::Alternate(Box::new(RegexAST::Char('a')), Box::new(RegexAST::Char('b')))
    );
    let mut p = Parser::new("");
    assert_eq!(p.parse().unwrap(), RegexAST::Concat(Vec::new()));
}

#[test]
fn transitions_take_their_chars() {
    assert!(match_transition(&Transition::Char('a'), 'a'));
    assert!(!match_transition(&Transition::Char('a'), 'b'));
    assert!(match_transition(&Transition::Wildcard, 'x'));
    assert!(!match_transition(&Transition::Wildcard, '\n'));
    assert!(match_transition(&Transition::Digit, '7'));
    assert!(!match_transition(&Transition::Digit, 'x'));
    assert!(match_transition(&Transition::Alphanumeric, '_'));
    assert!(match_transition(&Transition::Alphanumeric, 'é'));
    assert!(!match_transition(&Transition::Alphanumeric, '-'));
    assert!(match_transition(&Transition::Whitespace, '\t'));
    assert!(match_transition(&Transition::Whitespace, '\u{3000}'));
    assert!(match_transition(&Transition::NonDigit, 'x'));
    assert!(match_transition(&Transition::NonAlphanumeric, '-'));
    assert!(match_transition(&Transition::NonWhitespace, 'x'));
    let class = Transition::Class { chars: vec!['q'], ranges: vec![('a', 'c')], negated: false };
    assert!(match_transition(&class, 'b'));
    assert!(match_transition(&class, 'q'));
    assert!(!match_transition(&class, 'z'));
    let neg = Transition::Class { chars: vec!['q'], ranges: vec![('a', 'c')], negated: true };
    assert!(match_transition(&neg, 'z'));
    assert!(!match_transition(&neg, 'a'));
    assert!(!match_transition(&Transition::Epsilon, 'a'));
}

#[test]
fn compiled_states_carry_their_index() {
    for pattern in ["", "a", "(ab|c)*d+e?", "[^a-z]{2,3}", "\\d\\w\\s."] {
        let nfa = Nfa::compile(pattern).unwrap();
        for (k, st) in nfa.states.iter().enumerate() {
            assert_eq!(st.id, k);
        }
        assert!(nfa.start < nfa.states.len());
        assert!(nfa.accept < nfa.states.len());
        assert_ne!(nfa.start, nfa.accept);
        assert!(nfa.states[nfa.accept].transitions.is_empty());
    }
}

#[test]
fn whitespace_and_word_classes_agree_with_std() {
    for u in 0u32..=0x10FFFF {
        if let Some(c) = char::from_u32(u) {
            assert_eq!(match_transition(&Transition::Whitespace, c), c.is_whitespace(), "{:?}", c);
            assert_eq!(match_transition(&Transition::NonWhitespace, c), !c.is_whitespace());
            if u < 0x80 {
                assert_eq!(match_transition(&Transition::Alphanumeric, c), c.is_ascii_alphanumeric() || c == '_');
            }
        }
    }
}

#[test]
fn fuzzy_pattern_matches_one_edit_words() {
    let nfa = Nfa::compile(&levenshtein_regex("htis")).unwrap();
    let whole = |w: &str| nfa.matches(w).contains(&(0, w.chars().count()));
    for w in ["htis", "this", "tis", "his", "hts", "htxs", "hxtis", "htisx", "hits", "h\u{e9}is"] {
        assert!(whole(w), "{}", w);
    }
    for w in ["ht", "thsi", "xxis", "htisxy", "h\nis", "abcd"] {
        assert!(!whole(w), "{}", w);
    }
}

#[test]
fn a_second_parse_reads_from_where_the_first_stopped() {
    let mut p = Parser::new("ab|c");
    assert!(p.parse().is_ok());
    match p.parse() {
        Ok(RegexAST::Concat(v)) => assert!(v.is_empty()),
        other => panic!("unexpected {:?}", other),
    }
}
