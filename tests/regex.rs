use regex_nfa::ast::chars_of;
use regex_nfa::{get_regex, AstNode, Character, CharacterClass, CharacterPattern, Condition, Error, Nfa, RegEx};

fn lit(c: char) -> AstNode {
    AstNode::literal(c)
}

// Syntax trees.

#[test]
fn literals() {
    assert_eq!(
        AstNode::from_regex("aab").unwrap(),
        lit('a').concat(lit('a').concat(lit('b')))
    );
}

#[test]
fn bracket_expression_inclusive() {
    assert_eq!(
        AstNode::from_regex("a[bc]").unwrap(),
        lit('a').concat(AstNode::character_pattern_inclusive(vec!['b', 'c']))
    );
}

#[test]
fn bracket_expression_exclusive() {
    assert_eq!(
        AstNode::from_regex("a[^bc]").unwrap(),
        lit('a').concat(AstNode::character_pattern_exclusive(vec!['b', 'c']))
    );
}

#[test]
fn bracket_sets_compare_by_members() {
    assert_eq!(
        AstNode::from_regex("[cb]").unwrap(),
        AstNode::character_pattern_inclusive(vec!['b', 'c'])
    );
    assert_eq!(
        AstNode::from_regex("[^cbc]").unwrap(),
        AstNode::character_pattern_exclusive(vec!['b', 'c'])
    );
    assert_ne!(
        AstNode::from_regex("[cb]").unwrap(),
        AstNode::character_pattern_exclusive(vec!['b', 'c'])
    );
    assert_ne!(
        AstNode::from_regex("[cd]").unwrap(),
        AstNode::character_pattern_inclusive(vec!['b', 'c'])
    );
}

#[test]
fn alternation_binds_looser_than_concatenation() {
    assert_eq!(
        AstNode::from_regex("a|bc").unwrap(),
        lit('a').alternate(lit('b').concat(lit('c')))
    );
    assert_eq!(
        AstNode::from_regex("ab|c").unwrap(),
        lit('a').concat(lit('b')).alternate(lit('c'))
    );
}

#[test]
fn escapes_and_dot_parse() {
    assert_eq!(
        AstNode::from_regex(r"\d.").unwrap(),
        AstNode::Character(Character::Pattern(CharacterPattern::IncludeClass(CharacterClass::Digit)))
            .concat(lit('.'))
    );
    assert_eq!(AstNode::from_regex(".").unwrap(), lit('.'));
    assert_eq!(
        AstNode::from_regex(r"[a\]a]").unwrap(),
        AstNode::character_pattern_inclusive(vec!['a', ']'])
    );
}

#[test]
fn parse_is_repeatable() {
    for p in ["a[^bc]|\\d", "abc", "x|y|z", "[\\]]"] {
        assert_eq!(AstNode::from_regex(p), AstNode::from_regex(p));
    }
}

// Errors.

#[test]
fn unmatched_bracket_reports_its_offset() {
    assert!(matches!(AstNode::from_regex("a[bc"), Err(Error::UnmatchedBracket(1))));
    assert!(matches!(AstNode::from_regex("[^"), Err(Error::UnmatchedBracket(0))));
}

#[test]
fn unexpected_eof() {
    assert!(matches!(AstNode::from_regex("a["), Err(Error::UnexpectedEof(1))));
    assert!(matches!(AstNode::from_regex("ab\\"), Err(Error::UnexpectedEof(2))));
    assert!(matches!(AstNode::from_regex("[a\\"), Err(Error::UnexpectedEof(0))));
    assert!(matches!(AstNode::from_regex(""), Err(Error::UnexpectedEof(0))));
    assert!(matches!(AstNode::from_regex("a|"), Err(Error::UnexpectedEof(2))));
    assert!(matches!(AstNode::from_regex("|a"), Err(Error::UnexpectedEof(0))));
}

#[test]
fn invalid_escape() {
    assert!(matches!(AstNode::from_regex("a\\q"), Err(Error::InvalidEscape(1))));
    assert!(matches!(get_regex("\\x"), Err(Error::InvalidEscape(0))));
}

// Automaton construction.

#[test]
fn compile_counts_nodes_and_edges() {
    let concat = Nfa::from_ast(&AstNode::from_regex("abc").unwrap());
    assert_eq!(concat.node_count(), 4);
    assert_eq!(concat.get_root(), 0);
    assert_eq!(concat.get_final_state(), 1);
    let alt = Nfa::from_ast(&AstNode::from_regex("a|b").unwrap());
    assert_eq!(alt.node_count(), 6);
}

#[test]
fn closure_follows_epsilon_chains() {
    let mut nfa = Nfa::new();
    let x = nfa.add_node();
    let y = nfa.add_node();
    nfa.add_edge(0, x, Condition::Epsilon);
    nfa.add_edge(x, y, Condition::Epsilon);
    nfa.add_edge(y, 1, Condition::Epsilon);
    let closure = nfa.get_null_closure(0);
    assert_eq!(closure, vec![true, true, true, true]);
    let from_y = nfa.get_null_closure(y);
    assert_eq!(from_y, vec![false, true, false, true]);
}

#[test]
fn transition_consumes_then_closes() {
    let mut nfa = Nfa::new();
    let x = nfa.add_node();
    nfa.add_edge(0, x, Condition::Char(Character::Literal('q')));
    nfa.add_edge(x, 1, Condition::Epsilon);
    assert_eq!(nfa.get_transition(0, 'q'), vec![false, true, true]);
    assert_eq!(nfa.get_transition(0, 'r'), vec![false, false, false]);
}

#[test]
fn nested_alternation_accepts_through_epsilon_chains() {
    let re = RegEx::from_pattern("a|b|c|d").unwrap();
    assert_eq!(re.search("xxd"), Some(2));
    assert_eq!(re.search("c"), Some(0));
    assert_eq!(re.search("xyz"), None);
}

#[test]
fn concatenation_shape_does_not_change_matches() {
    let right = RegEx::from_nfa(Nfa::from_ast(&lit('a').concat(lit('b').concat(lit('c')))));
    let left = RegEx::from_nfa(Nfa::from_ast(&lit('a').concat(lit('b')).concat(lit('c'))));
    for h in ["abc", "xabcx", "ab", "", "aabc", "abab"] {
        assert_eq!(right.search(h), left.search(h));
    }
    assert_eq!(left.search("xabcx"), Some(1));
}

#[test]
fn bracket_negation_accepts_all_but_members() {
    let re = RegEx::from_pattern("[^bc]").unwrap();
    assert_eq!(re.search("a"), Some(0));
    assert_eq!(re.search("z"), Some(0));
    assert_eq!(re.search("b"), None);
    assert_eq!(re.search("c"), None);
    assert_eq!(re.search("bcx"), Some(2));
}

#[test]
fn compiled_patterns_reject_the_empty_word() {
    for p in ["a", "a|b|c|d", "[^bc]", r"\D", "ab|c"] {
        let re = RegEx::from_pattern(p).unwrap();
        assert!(!re.recognise(""));
        assert_eq!(re.search(""), None);
    }
}

#[test]
fn recognise_is_a_prefix_match() {
    let re = RegEx::from_pattern("ab").unwrap();
    assert!(re.recognise("abzzz"));
    assert!(!re.recognise("zab"));
    assert!(!re.recognise(""));
}

#[test]
fn search_counts_characters_not_bytes() {
    let re = RegEx::from_pattern("b").unwrap();
    assert_eq!(re.search("ééb"), Some(2));
    assert_eq!(chars_of("ééb"), vec!['é', 'é', 'b']);
}

#[test]
fn whitespace_class() {
    let re = RegEx::from_pattern(r"a\sb").unwrap();
    assert_eq!(re.search("xa\tb"), Some(1));
    assert_eq!(re.search("a_b"), None);
}

// Searching.

#[test]
fn lib_basic_regex() {
    let re = RegEx::from_pattern("aabbaa|b").unwrap();

    // Alternation binds looser than concatenation: the `b` branch matches first, at offset 2.
    assert_eq!(re.search("aabbab"), Some(2));
    assert_eq!(re.search("ac"), None);
}

#[test]
fn lib_exact_match_only() {
    let re = RegEx::from_pattern("abc").unwrap();

    assert_eq!(re.search("abc"), Some(0));
    assert_eq!(re.search("xabcx"), Some(1));
    assert_eq!(re.search("ab"), None);
    assert_eq!(re.search("xyz"), None);
}

#[test]
fn multiple() {
    let re = RegEx::from_pattern("a[ab]").unwrap();

    assert_eq!(re.search("aa"), Some(0));
    assert_eq!(re.search("ab"), Some(0));
}

#[test]
fn lib_native_basic_regex() {
    let re = get_regex("aabbaa|b").unwrap();

    // Alternation binds looser than concatenation: the `b` branch matches first, at offset 2.
    assert_eq!(re.search("aabbab"), Some(2));
    assert_eq!(re.search("ac"), None);
}

#[test]
fn lib_native_exact_match_only() {
    let re = get_regex("abc").unwrap();

    assert_eq!(re.search("abc"), Some(0));
    assert_eq!(re.search("xabcx"), Some(1));
    assert_eq!(re.search("ab"), None);
    assert_eq!(re.search("xyz"), None);
}

#[test]
fn class() {
    let re = RegEx::from_pattern("a[ab]").unwrap();

    assert_eq!(re.search("aa"), Some(0));
    assert_eq!(re.search("ab"), Some(0));
}

#[test]
fn class_2() {
    let re = RegEx::from_pattern("a[bc]a").unwrap();
    println!("{:#?}", re);
    assert_eq!(re.search("aba"), Some(0));
    assert_eq!(re.search("ab"), None);
    assert_eq!(re.search("ba"), None);
}

#[test]
fn empty() {
    let re = RegEx::from_pattern("a[bc]").unwrap();

    assert_eq!(re.search(""), None);
}

#[test]
fn any_char() {
    let re = RegEx::from_pattern("a.b").unwrap();

    // `.` is a literal character: only the haystack holding `a.b` matches.
    assert_eq!(re.search("axb"), None);
    assert_eq!(re.search("ayb"), None);
    assert_eq!(re.search("a.b"), Some(0));
    assert_eq!(re.search("aaxb"), None);
    assert_eq!(re.search("ab"), None);
}

#[test]
fn any_char_2() {
    let re = RegEx::from_pattern(".").unwrap();

    // `.` is a literal character.
    assert_eq!(re.search("a"), None);
    assert_eq!(re.search(" "), None);
    assert_eq!(re.search("aa"), None);
    assert_eq!(re.search(""), None);
    assert_eq!(re.search("x."), Some(1));
}

#[test]
fn digit() {
    let re = RegEx::from_pattern(r"\d").unwrap();

    assert_eq!(re.search(""), None);
    assert_eq!(re.search("11"), Some(0));
    assert_eq!(re.search("a"), None);
    assert_eq!(re.search("123abc7123abc"), Some(0));
    assert_eq!(re.search("++123abc7123abc++"), Some(2));
}

#[test]
fn digit_2() {
    let re = RegEx::from_pattern(r"123abc\d123abc").unwrap();

    assert_eq!(re.search(""), None);
    assert_eq!(re.search("123abc7123abc"), Some(0));
    assert_eq!(re.search("++123abc7123abc++"), Some(2));
    assert_eq!(re.search("++123abc+123abc++"), None);
}

#[test]
fn digit_exclusive() {
    let re = RegEx::from_pattern(r"\D").unwrap();

    assert_eq!(re.search(""), None);
    assert_eq!(re.search("11"), None);
    assert_eq!(re.search("a"), Some(0));
    assert_eq!(re.search("123abc7123abc"), Some(3));
    assert_eq!(re.search("++123abc7123abc++"), Some(0));
}

#[test]
fn digit_exclusive_2() {
    let re = RegEx::from_pattern(r"123abc\D123abc").unwrap();

    assert_eq!(re.search(""), None);
    assert_eq!(re.search("123abc7123abc"), None);
    assert_eq!(re.search("123abcX123abc"), Some(0));
    assert_eq!(re.search("++123abcX123abc++"), Some(2));
    assert_eq!(re.search("++123abc7123abc++"), None);
}

#[test]
fn digit_alternate() {
    let re = RegEx::from_pattern(r"a|\d").unwrap();

    assert_eq!(re.search(""), None);
    assert_eq!(re.search("a"), Some(0));
    assert_eq!(re.search("1"), Some(0));
    assert_eq!(re.search("x73ax"), Some(1));

    let re = RegEx::from_pattern(r"\d|a").unwrap();

    assert_eq!(re.search(""), None);
    assert_eq!(re.search("a"), Some(0));
    assert_eq!(re.search("1"), Some(0));
    assert_eq!(re.search("x73ax"), Some(1));
}

#[test]
fn misc_classes() {
    let re = RegEx::from_pattern(r"+\s+\l+\u+\S+\L+\U+").unwrap();

    assert_eq!(re.search(""), None);
    assert_eq!(re.search("+ + + + + + +"), None);
    assert_eq!(re.search("+ +v+V+x+V+v+"), Some(0));
}
