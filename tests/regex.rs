use postfix_regex::{MalformedPattern, Regex};

fn compiled(pattern: &str) -> Regex {
    match Regex::compile(pattern) {
        Ok(r) => r,
        Err(e) => panic!("{:?} for {}", e, pattern),
    }
}

#[test]
fn compiles() {
    compiled("abc|*.");
}

#[test]
fn matches() {
    let regex = compiled("abc|*.");

    assert!(regex.is_match("ab"), "ab");
    assert!(regex.is_match("abc"), "abc");
    assert!(regex.is_match("abcb"), "abcb");
    assert!(!regex.is_match("abcd"), "abcd");
}

#[test]
fn scenario_a_then_repeated_b_or_c() {
    let regex = compiled("abc|*.");
    assert!(regex.is_match("a"));
    assert!(regex.is_match("ab"));
    assert!(regex.is_match("abc"));
    assert!(regex.is_match("abcb"));
    assert!(!regex.is_match("abcd"));
    assert!(!regex.is_match(""));
    assert!(regex.is_match("acccbbc"));
    assert!(!regex.is_match("ba"));
}

#[test]
fn lone_alternation_is_missing_operands() {
    assert_eq!(Regex::compile("|").err(), Some(MalformedPattern::MissingOperand));
}

#[test]
fn two_literals_without_operator_are_unbalanced() {
    assert_eq!(Regex::compile("ab").err(), Some(MalformedPattern::UnbalancedExpression));
}

#[test]
fn empty_pattern_is_unbalanced() {
    assert_eq!(Regex::compile("").err(), Some(MalformedPattern::UnbalancedExpression));
}

#[test]
fn missing_operands_for_each_operator() {
    assert_eq!(Regex::compile("*").err(), Some(MalformedPattern::MissingOperand));
    assert_eq!(Regex::compile("a.").err(), Some(MalformedPattern::MissingOperand));
    assert_eq!(Regex::compile("a|").err(), Some(MalformedPattern::MissingOperand));
    // The failure is reported even when later characters would rebalance the stack.
    assert_eq!(Regex::compile("a.b").err(), Some(MalformedPattern::MissingOperand));
}

#[test]
fn single_literal() {
    let r = compiled("x");
    assert!(r.is_match("x"));
    assert!(!r.is_match(""));
    assert!(!r.is_match("xx"));
    assert!(!r.is_match("y"));
}

#[test]
fn star_matches_empty_and_repetitions() {
    let r = compiled("ab.*");
    assert!(r.is_match(""));
    assert!(r.is_match("ab"));
    assert!(r.is_match("ababab"));
    assert!(!r.is_match("aba"));
    assert!(!r.is_match("ba"));
}

#[test]
fn star_of_star_terminates() {
    let r = compiled("a**");
    assert!(r.is_match(""));
    assert!(r.is_match("aaaa"));
    assert!(!r.is_match("ab"));
}

// The entry of the program is epsilon-closed before the first character is
// read, so patterns may begin with an alternation or a repetition.
#[test]
fn pattern_starting_with_alternation_is_closed_before_first_char() {
    let r = compiled("ab|");
    assert!(r.is_match("a"));
    assert!(r.is_match("b"));
    assert!(!r.is_match(""));
    assert!(!r.is_match("ab"));
}

#[test]
fn alternation_is_a_union_in_either_order() {
    let texts = ["", "a", "b", "c", "ab", "bc", "ba", "bcbc"];
    let ls = compiled("ab.");
    let ss = compiled("bc.*");
    let left = compiled("ab.bc.*|");
    let right = compiled("bc.*ab.|");
    for t in texts.iter() {
        let union = ls.is_match(t) || ss.is_match(t);
        assert_eq!(left.is_match(t), union, "{}", t);
        assert_eq!(right.is_match(t), union, "{}", t);
    }
}

#[test]
fn concatenation_groups_either_way() {
    let texts = ["", "a", "ab", "abc", "abbc", "ac", "abcc", "bc"];
    let left = compiled("ab*.c.");
    let right = compiled("ab*c..");
    for t in texts.iter() {
        assert_eq!(left.is_match(t), right.is_match(t), "{}", t);
    }
    assert!(left.is_match("ac"));
    assert!(left.is_match("abbbc"));
    assert!(!left.is_match("ab"));
}

#[test]
fn compiling_twice_gives_the_same_answers() {
    let texts = ["", "a", "abcbcb", "abd", "cab"];
    let first = compiled("abc|*.");
    let second = compiled("abc|*.");
    for t in texts.iter() {
        assert_eq!(first.is_match(t), second.is_match(t), "{}", t);
    }
}

#[test]
fn non_ascii_literals() {
    let r = compiled("éü|*");
    assert!(r.is_match("éüé"));
    assert!(!r.is_match("e"));
}
