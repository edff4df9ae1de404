use another_radix_trie::util;
use another_radix_trie::util::value_element;

#[test]
fn longest_shared_prefix_non_alphabetic_test() {
    let s1 = "Toronto多倫多";
    let s2 = "Toronto多伦多";
    let prefix = util::longest_shared_prefix(s1, s2);
    assert_eq!(prefix, "Toronto多");
}

#[test]
fn longest_shared_prefix_basic_cases() {
    assert_eq!(util::longest_shared_prefix("abc", "abd"), "ab");
    assert_eq!(util::longest_shared_prefix("a", "abc"), "a");
    assert_eq!(util::longest_shared_prefix("abc", "a"), "a");
    assert_eq!(util::longest_shared_prefix("xyz", "abc"), "");
    assert_eq!(util::longest_shared_prefix("same", "same"), "same");
}

#[test]
fn first_char_reads_the_leading_scalar() {
    assert_eq!(util::first_char("hello"), 'h');
    assert_eq!(util::first_char("多倫多"), '多');
}

#[test]
fn binary_search_finds_sort_positions() {
    let arr = vec![
        value_element("b", 1usize, vec![]),
        value_element("d", 2usize, vec![]),
        value_element("f", 3usize, vec![]),
    ];
    assert_eq!(util::binary_search('a', &arr), 0);
    assert_eq!(util::binary_search('b', &arr), 0);
    assert_eq!(util::binary_search('c', &arr), 1);
    assert_eq!(util::binary_search('d', &arr), 1);
    assert_eq!(util::binary_search('e', &arr), 2);
    assert_eq!(util::binary_search('g', &arr), 3);
}
