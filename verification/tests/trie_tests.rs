use another_radix_trie::RadixTrie;

#[test]
fn test_insert_find_remove() {
    let mut trie = RadixTrie::<usize>::new();
    trie.insert("ON", 647);
    trie.insert("ON2", 416);
    assert_eq!(trie.find("ON"), Some(&647));
    assert_eq!(trie.find("ON2"), Some(&416));
    assert_eq!(trie.find("NS"), None);
    assert_eq!(trie.remove("ON"), Some(647));
    assert_eq!(trie.remove("ON2"), Some(416));
    assert_eq!(trie.remove("NS"), None);
}

#[test]
fn test_insert_find_remove_longer() {
    let mut trie = RadixTrie::<usize>::new();
    let words = ["Won", "Wonder", "Wonderful", "World", "Axes"];
    for word in &words {
        trie.insert(word, word.len())
    }
    for word in &words {
        assert_eq!(trie.find(word), Some(&word.len()));
        assert_eq!(trie.remove(word), Some(word.len()));
    }
}

#[test]
fn test_start_with() {
    let mut trie = RadixTrie::<usize>::new();
    let words = ["Won", "Wonder", "Wonderful", "World", "Axes"];
    for word in &words {
        trie.insert(word, word.len())
    }
    let res = trie.start_with("W");
    let expected: Vec<(String, &usize)> = vec![
        ("Won".into(), &3),
        ("World".into(), &5),
        ("Wonder".into(), &6),
        ("Wonderful".into(), &9),
    ];
    assert_eq!(res, expected)
}

#[test]
fn test_start_with_won() {
    let mut trie = RadixTrie::<usize>::new();
    let words = ["Won", "Wonder", "Wonderful", "World", "Axes"];
    for word in &words {
        trie.insert(word, word.len())
    }
    let res = trie.start_with("Won");
    let expected: Vec<(String, &usize)> = vec![
        ("Won".into(), &3),
        ("Wonder".into(), &6),
        ("Wonderful".into(), &9),
    ];
    assert_eq!(res, expected)
}

#[test]
fn test_remove_with_merge_down() {
    let mut trie = RadixTrie::<usize>::new();
    trie.insert("exe", 3);
    trie.insert("execute", 7);
    trie.insert("exec", 4);
    trie.insert("example", 7);
    trie.remove("exec").expect("Removed exec");
    let cute = &trie.entry.children()[0].children()[1].children()[0];
    assert_eq!(cute.label(), "cute");
}

#[test]
fn test_remove_with_merge_up() {
    let mut trie = RadixTrie::<usize>::new();
    trie.insert("exe", 3);
    trie.insert("execute", 7);
    trie.insert("exec", 4);
    trie.insert("example", 7);
    trie.remove("example").expect("Removed example");
    assert_eq!(trie.entry.children()[0].label(), "exe");
}

#[test]
fn test_insert_find_mut() {
    let mut trie = RadixTrie::<usize>::new();
    trie.insert("ON", 647);
    let found = trie.find_mut("ON");
    assert_eq!(found, Some(&mut 647));
    *found.unwrap() = 416;
    let found = trie.find("ON");
    assert_eq!(found, Some(&416));
}

#[test]
fn test_round_trip_after_unrelated_inserts() {
    let mut trie = RadixTrie::<usize>::new();
    trie.insert("alpha", 1);
    trie.insert("beta", 2);
    trie.insert("alp", 3);
    trie.insert("gamma", 4);
    trie.insert("key", 42);
    assert_eq!(trie.find("key"), Some(&42));
    assert_eq!(trie.find("alpha"), Some(&1));
    assert_eq!(trie.find("alp"), Some(&3));
}

#[test]
fn test_overwrite_keeps_descendants() {
    let mut trie = RadixTrie::<usize>::new();
    trie.insert("exe", 1);
    trie.insert("execute", 2);
    trie.insert("exe", 9);
    assert_eq!(trie.find("exe"), Some(&9));
    assert_eq!(trie.find("execute"), Some(&2));
}

#[test]
fn test_remove_absent_and_branch_keys() {
    let mut trie = RadixTrie::<usize>::new();
    trie.insert("exe", 3);
    trie.insert("example", 7);
    // "ex" exists only as a synthesized junction, never as a stored key.
    assert_eq!(trie.find("ex"), None);
    assert_eq!(trie.remove("ex"), None);
    assert_eq!(trie.remove("missing"), None);
    assert_eq!(trie.remove("exe"), Some(3));
    assert_eq!(trie.remove("exe"), None);
    assert_eq!(trie.find("example"), Some(&7));
}

#[test]
fn test_empty_key_is_not_stored() {
    let mut trie = RadixTrie::<usize>::new();
    trie.insert("", 1);
    assert_eq!(trie.find(""), None);
    assert_eq!(trie.remove(""), None);
    trie.insert("a", 2);
    assert_eq!(trie.find(""), None);
    assert_eq!(trie.find("a"), Some(&2));
}

#[test]
fn test_start_with_edge_cases() {
    let mut trie = RadixTrie::<usize>::new();
    trie.insert("lab", 3);
    trie.insert("label", 5);
    assert_eq!(
        trie.start_with("la"),
        vec![(String::from("lab"), &3), (String::from("label"), &5)]
    );
    assert_eq!(trie.start_with(""), vec![]);
    assert_eq!(trie.start_with("z"), vec![]);
    assert_eq!(trie.start_with("labels"), vec![]);
}

#[test]
fn test_unicode_keys() {
    let mut trie = RadixTrie::<usize>::new();
    trie.insert("Toronto多倫多", 1);
    trie.insert("Toronto多伦多", 2);
    assert_eq!(trie.find("Toronto多倫多"), Some(&1));
    assert_eq!(trie.find("Toronto多伦多"), Some(&2));
    // the shared junction "Toronto多" is not itself a stored key
    assert_eq!(trie.find("Toronto多"), None);
    assert_eq!(trie.remove("Toronto多倫多"), Some(1));
    assert_eq!(trie.find("Toronto多伦多"), Some(&2));
}
