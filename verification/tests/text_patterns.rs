use commit_index::ids::{hex_string, CommitId};
use commit_index::str_pattern::StringPattern;
use commit_index::text::{decimal_string, text_order, TextOrder};

fn glob(p: &str) -> StringPattern {
    StringPattern::Glob(p.to_string())
}

#[test]
fn test_glob_star_matches_any_run() {
    assert!(glob("*").matches(""));
    assert!(glob("*").matches("anything"));
    assert!(glob("push-*").matches("push-"));
    assert!(glob("push-*").matches("push-abc"));
    assert!(!glob("push-*").matches("pull-abc"));
    assert!(glob("*-fix").matches("bug-fix"));
    assert!(!glob("*-fix").matches("bug-fixes"));
    assert!(glob("a*b*c").matches("abc"));
    assert!(glob("a*b*c").matches("aXXbYYc"));
    assert!(glob("a*b*c").matches("abbbc"));
    assert!(!glob("a*b*c").matches("acb"));
    assert!(glob("**").matches("x"));
    assert!(glob("").matches(""));
    assert!(!glob("").matches("x"));
    // Other wildcard characters stand for themselves.
    assert!(glob("a?c").matches("a?c"));
    assert!(!glob("a?c").matches("abc"));
    // Characters outside ASCII count as one character each.
    assert!(glob("é*").matches("été"));
}

#[test]
fn test_exact_and_substring_patterns() {
    let exact = StringPattern::exact("main".to_string());
    assert!(exact.is_exact());
    assert!(exact.matches("main"));
    assert!(!exact.matches("main2"));
    assert!(!exact.matches("mai"));
    let part = StringPattern::Substring("ai".to_string());
    assert!(!part.is_exact());
    assert!(part.matches("main"));
    assert!(part.matches("ai"));
    assert!(!part.matches("a-i"));
    assert!(!part.matches("a"));
    let all = StringPattern::everything();
    assert!(all.matches(""));
    assert!(all.matches("whatever"));
    assert_eq!(glob("x*").as_str(), "x*");
}

#[test]
fn test_text_order_is_the_order_of_strings() {
    let samples = ["", "a", "ab", "abc", "b", "B", "main", "maio", "é", "zz", "a-b", "a/b"];
    for x in samples {
        for y in samples {
            let expected = match x.cmp(y) {
                std::cmp::Ordering::Less => TextOrder::Before,
                std::cmp::Ordering::Equal => TextOrder::Same,
                std::cmp::Ordering::Greater => TextOrder::After,
            };
            assert_eq!(text_order(x, y), expected, "{x:?} against {y:?}");
        }
    }
}

#[test]
fn test_decimal_numerals() {
    assert_eq!(decimal_string(0), "0");
    assert_eq!(decimal_string(7), "7");
    assert_eq!(decimal_string(10), "10");
    assert_eq!(decimal_string(1905), "1905");
    assert_eq!(decimal_string(u64::MAX), "18446744073709551615");
}

#[test]
fn test_hexadecimal_rendering() {
    assert_eq!(hex_string(&vec![]), "");
    assert_eq!(hex_string(&vec![0x00, 0x0f, 0xa5, 0xff]), "000fa5ff");
    assert_eq!(CommitId::new(vec![0x12, 0xab]).hex(), "12ab");
}
