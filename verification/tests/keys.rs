use canonical_json::keys::{bytes_precede, key_precedes, sort_keys};

#[test]
fn bytes_are_compared_from_the_front() {
    assert!(bytes_precede(b"a", b"b"));
    assert!(!bytes_precede(b"b", b"a"));
    assert!(bytes_precede(b"ab", b"ac"));
    assert!(bytes_precede(b"abz", b"ac"));
    assert!(!bytes_precede(b"ac", b"abz"));
    assert!(bytes_precede(&[0x00], &[0xff]));
    assert!(bytes_precede(&[0x7f], &[0x80]));
}

#[test]
fn a_prefix_stands_before_the_longer_text() {
    assert!(bytes_precede(b"", b"a"));
    assert!(bytes_precede(b"a", b"aa"));
    assert!(!bytes_precede(b"aa", b"a"));
    assert!(!bytes_precede(b"a", b""));
}

#[test]
fn nothing_stands_before_itself() {
    assert!(!bytes_precede(b"", b""));
    assert!(!bytes_precede(b"a", b"a"));
    assert!(!key_precedes("id", "id"));
    assert!(!key_precedes("", ""));
}

#[test]
fn keys_are_compared_by_their_bytes() {
    assert!(key_precedes("a", "b"));
    assert!(key_precedes("a", "id"));
    assert!(key_precedes("b", "id"));
    assert!(key_precedes("Z", "a"));
    assert!(key_precedes("10", "9"));
    assert!(key_precedes("z", "\u{e9}"));
    assert!(key_precedes("\u{e9}", "\u{119}"));
    assert!(key_precedes("\u{ffff}", "\u{10000}"));
    assert!(key_precedes("\u{e000}", "\u{10000}"));
    assert!(!key_precedes("\u{e9}", "z"));
}

#[test]
fn of_two_different_keys_one_stands_first() {
    let keys = ["", "a", "A", "aa", "ab", "b", "id", "\u{e9}", "\u{1f600}", "1", "10", "2"];
    for a in keys {
        for b in keys {
            if a == b {
                assert!(!key_precedes(a, b));
            } else {
                assert!(key_precedes(a, b) != key_precedes(b, a));
                assert_eq!(key_precedes(a, b), a.as_bytes() < b.as_bytes());
            }
        }
    }
}

#[test]
fn sorted_positions_of_no_keys() {
    assert_eq!(sort_keys(&vec![]), Vec::<usize>::new());
}

#[test]
fn sorted_positions_name_the_keys_in_ascending_order() {
    assert_eq!(sort_keys(&vec!["a"]), vec![0]);
    assert_eq!(sort_keys(&vec!["a", "id", "b"]), vec![0, 2, 1]);
    assert_eq!(sort_keys(&vec!["c", "b", "a"]), vec![2, 1, 0]);
    assert_eq!(sort_keys(&vec!["a", "b", "c"]), vec![0, 1, 2]);
    assert_eq!(sort_keys(&vec!["b", "a", "B", "", "ab"]), vec![3, 2, 1, 4, 0]);
    assert_eq!(sort_keys(&vec!["2", "3", "1"]), vec![2, 0, 1]);
}

#[test]
fn equal_keys_keep_their_order() {
    assert_eq!(sort_keys(&vec!["a", "a"]), vec![0, 1]);
    assert_eq!(sort_keys(&vec!["b", "a", "b", "a"]), vec![1, 3, 0, 2]);
}

#[test]
fn sorted_positions_agree_with_a_sort_of_the_bytes() {
    let keys = vec!["zoo", "def", "abc", "rust", "ghi", "\u{e9}", "Z", "", "abcd", "ab"];
    let order = sort_keys(&keys);
    let mut expected: Vec<usize> = (0..keys.len()).collect();
    expected.sort_by(|a, b| keys[*a].as_bytes().cmp(keys[*b].as_bytes()));
    assert_eq!(order, expected);
}
