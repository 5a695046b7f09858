use htldev::credentials::{
    accounts_path, choose_credential, delete, drop_account, list, save, with_account,
    CredentialError, Removal,
};
use htldev::number::{count_text, hex_number, hex_text, int_text, parse_i64};
use htldev::order::{less, sort_by_text};
use htldev::pattern::{contains, ends_with, replace, replace_first, starts_with, strip};
use htldev::pieces::parts_on;
use htldev::text::{is_blank, join, lines, split_on, trim, words, CharClass};
use htldev::text_set::{TextMap, TextSet};

#[test]
fn white_space_and_punctuation_are_those_of_std() {
    let mut n: u32 = 0;
    while n <= 0x10ffff {
        if let Some(c) = char::from_u32(n) {
            assert_eq!(CharClass::Space.holds(c), c.is_whitespace(), "{n:x}");
            assert_eq!(CharClass::Punctuation.holds(c), c.is_ascii_punctuation(), "{n:x}");
        }
        n += 1;
    }
}

#[test]
fn trimming_and_splitting_are_those_of_std() {
    for s in ["", " ", " a ", "\u{85}b\u{3000}", "a b\tc\n", "\n\n", "a\r\nb\rc\r", "x\r\r\ny", "ä\u{a0}ö"] {
        assert_eq!(trim(s), s.trim());
        assert_eq!(is_blank(s), s.trim().is_empty());
        assert_eq!(lines(s), s.lines().collect::<Vec<_>>());
        assert_eq!(words(s), s.split_whitespace().collect::<Vec<_>>());
        assert_eq!(split_on(s, '\n'), s.split('\n').collect::<Vec<_>>());
        assert_eq!(
            parts_on(s, 'a'),
            s.split('a').filter(|p| !p.is_empty()).collect::<Vec<_>>()
        );
    }
    assert_eq!(join(&vec!["a".to_string(), "b".to_string()], ", "), "a, b");
}

#[test]
fn searching_is_that_of_std() {
    for (s, p) in [("abcabc", "bc"), ("aaaa", "aa"), ("", "x"), ("äbä", "ä"), ("abc", "abcd"), ("abc", "")] {
        assert_eq!(contains(s, p), s.contains(p));
        assert_eq!(starts_with(s, p), s.starts_with(p));
        assert_eq!(ends_with(s, p), s.ends_with(p));
        if !p.is_empty() {
            assert_eq!(replace(s, p, "-"), s.replace(p, "-"));
            assert_eq!(replace_first(s, p, "-"), s.replacen(p, "-", 1));
            assert_eq!(strip(s, p), s.trim_start_matches(p));
        }
    }
}

#[test]
fn numbers_are_written_and_read_back() {
    for n in [0i64, 1, -1, 42, i64::MAX, i64::MIN] {
        assert_eq!(int_text(n), n.to_string());
        assert_eq!(parse_i64(&n.to_string()), Some(n));
    }
    for s in ["", "-", "+", "+7", "007", "12a", " 1", "9223372036854775808", "-9223372036854775809", "99999999999999999999999999"] {
        assert_eq!(parse_i64(s), s.parse::<i64>().ok(), "{s}");
    }
    assert_eq!(count_text(usize::MAX), usize::MAX.to_string());
    assert_eq!(hex_number(0xabc), "abc");
    assert_eq!(hex_number(0), "0");
    assert_eq!(hex_text(&vec![0, 255, 16]), "00ff10");
}

#[test]
fn texts_are_ordered_as_strings_are() {
    let all = ["", "a", "aa", "b", "B", "ä", "z\u{10000}", "z\u{ffff}"];
    for a in all {
        for b in all {
            assert_eq!(less(a, b), a < b, "{a} {b}");
        }
    }
    let list: Vec<String> = ["b", "a", "c", "a", ""].iter().map(|s| s.to_string()).collect();
    let mut expected = list.clone();
    expected.sort();
    assert_eq!(sort_by_text(list), expected);
}

#[test]
fn sets_hold_each_text_once() {
    let mut set = TextSet::new();
    assert!(set.is_empty());
    set.insert("b");
    set.insert("a");
    set.insert("b");
    assert_eq!(set.len(), 2);
    assert!(set.contains("a"));
    assert!(!set.contains("c"));
    assert_eq!(set.to_vec(), vec!["b", "a"]);
    let mut other = TextSet::new();
    other.insert("b");
    assert_eq!(set.difference(&other), vec!["a"]);
    assert!(other.difference(&set).is_empty());
}

#[test]
fn maps_keep_the_last_text_for_a_key() {
    let mut map = TextMap::new();
    assert_eq!(map.get("k"), None);
    map.insert("k", "1");
    map.insert("l", "2");
    map.insert("k", "3");
    assert_eq!(map.get("k"), Some(&"3".to_string()));
    assert_eq!(map.get("l"), Some(&"2".to_string()));
    assert_eq!(map.get("m"), None);
    assert_eq!(
        map.to_vec(),
        vec![("k".to_string(), "3".to_string()), ("l".to_string(), "2".to_string())]
    );
}

#[test]
fn accounts_are_listed_once_and_deleted() {
    assert_eq!(list(None), Ok(vec![]));
    assert_eq!(list(Some("[\"ann\", \"b\\u00f6b\"]")), Ok(vec!["ann".to_string(), "böb".to_string()]));
    assert!(list(Some("{}")).expect_err("no list").contains("expected a sequence"));

    let first = save(true, None, "ann").expect("stored").expect("a new account");
    assert_eq!(first, "[\"ann\"]");
    let text = save(true, Some(&first), "b\"ö\nb").expect("stored").expect("a new account");
    assert_eq!(list(Some(&text)), Ok(vec!["ann".to_string(), "b\"ö\nb".to_string()]));
    assert_eq!(save(true, Some(&text), "ann"), Ok(None));
    assert_eq!(save(true, Some("broken"), "x"), Ok(Some("[\"x\"]".to_string())));
    assert_eq!(save(false, Some(&text), "new"), Err(CredentialError::NotStored));

    let rest = delete(Removal::Removed, Some(&text), "ann").expect("removed");
    assert_eq!(list(Some(&rest)), Ok(vec!["b\"ö\nb".to_string()]));
    assert_eq!(delete(Removal::Missing, Some(&rest), "ann"), Ok(rest.clone()));
    assert_eq!(delete(Removal::Failed, Some(&rest), "ann"), Err(CredentialError::NotRemoved));
    assert_eq!(delete(Removal::Removed, None, "ann"), Ok("[]".to_string()));

    assert_eq!(CredentialError::NotStored.message(), "save password to keychain");
    assert_eq!(CredentialError::NotRemoved.message(), "remove password from keychain");
    assert_eq!(drop_account(vec!["bob".to_string()], "ann"), vec!["bob"]);
    assert!(with_account(vec!["bob".to_string()], "bob").is_none());
    let path = accounts_path("data");
    assert!(path == "data/accounts.json" || path == "data\\accounts.json");
}

#[test]
fn credentials_come_from_the_first_place_that_has_one() {
    let some = |s: &str| Some(s.to_string());
    assert_eq!(choose_credential(some("a"), some("b"), some("c")), some("a"));
    assert_eq!(choose_credential(None, some("b"), some("c")), some("b"));
    assert_eq!(choose_credential(None, None, some("c")), some("c"));
    assert_eq!(choose_credential(None, None, None), None);
}
