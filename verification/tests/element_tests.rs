use another_radix_trie::Element;
use another_radix_trie::util::value_element;

fn get_test_example() -> Element<()> {
    // vec![ "in", "industry", "industrial", "industrialization", "india", "indian", ];
    Element::Base {
        label: "in".into(),
        children: vec![Element::Node {
            label: "d".into(),
            children: vec![
                Element::Value { label: "ustry".into(), value: (), children: vec![] },
                Element::Node {
                    label: "ustri".into(),
                    children: vec![Element::Value {
                        label: "al".into(),
                        value: (),
                        children: vec![Element::Value {
                            label: "ization".into(),
                            value: (),
                            children: vec![],
                        }],
                    }],
                },
                Element::Value {
                    label: "ia".into(),
                    value: (),
                    children: vec![Element::Value {
                        label: "n".into(),
                        value: (),
                        children: vec![],
                    }],
                },
            ],
        }],
    }
}

#[test]
fn test_collect_all_child_values() {
    let test_example = get_test_example();
    let res = test_example
        .collect_all_child_values()
        .into_iter()
        .map(|(label, _)| label)
        .collect::<Vec<_>>();
    let expected = vec![
        "industry",
        "india",
        "industrial",
        "indian",
        "industrialization",
    ]
    .into_iter()
    .map(String::from)
    .collect::<Vec<_>>();
    assert_eq!(res, expected)
}

#[test]
fn test_accessors_on_value_node() {
    let e = value_element("ab", 7usize, vec![]);
    assert!(!e.is_node());
    assert_eq!(e.label(), "ab");
    assert_eq!(e.value(), Some(&7));
    assert_eq!(e.children().len(), 0);
    let e2 = e.set_label(String::from("cd"));
    assert_eq!(e2.label(), "cd");
    let (label, value, children) = e2.unpack();
    assert_eq!(label, "cd");
    assert_eq!(value, Some(7));
    assert!(children.is_empty());
}

#[test]
fn test_value_mut_overwrites_in_place() {
    let mut e = value_element("a", 1usize, vec![]);
    if let Some(v) = e.value_mut() {
        *v = 5;
    }
    assert_eq!(e.value(), Some(&5));
}

#[test]
fn test_node_has_no_value() {
    let n: Element<usize> = Element::Node { label: "x".into(), children: vec![] };
    assert!(n.is_node());
    assert_eq!(n.value(), None);
    let children = n.children_own();
    assert!(children.is_empty());
}
