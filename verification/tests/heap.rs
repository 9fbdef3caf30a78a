use magnets::heap::AsciiHeap;

fn build(items: &[(&str, usize)]) -> AsciiHeap<usize> {
    let items: Vec<(String, usize)> = items.iter().map(|(k, v)| (k.to_string(), *v)).collect();
    AsciiHeap::try_new(items).unwrap()
}

fn below(heap: &AsciiHeap<usize>, idx: usize) -> Vec<usize> {
    let mut it = heap.iter(idx);
    let mut out = vec![];
    while let Some(v) = it.next() {
        out.push(*v);
    }
    out
}

#[test]
fn find_returns_root_for_unknown_key() {
    let heap = build(&[("abc", 1), ("abd", 2)]);
    assert_eq!(heap.find("xyz"), 0);
    assert_eq!(heap.find(""), 0);
    assert_eq!(heap.find("!!!"), 0);
}

#[test]
fn layout_follows_the_letters() {
    // keys: a, ab, abc, b, bd
    let heap = build(&[("abc", 10), ("bd", 20)]);
    assert_eq!(heap.find("a"), 1);
    assert_eq!(heap.find("b"), 2);
    assert_eq!(heap.find("ab"), 3);
    assert_eq!(heap.find("abc"), 4);
    assert_eq!(heap.find("bd"), 5);
    assert_eq!(heap.find("abx"), 3);
    assert_eq!(below(&heap, 0), vec![10, 20]);
    assert_eq!(below(&heap, 1), vec![10]);
    assert_eq!(below(&heap, 2), vec![20]);
}

#[test]
fn inserted_payload_is_below_its_key() {
    let heap = build(&[("Mob Psycho 100", 7), ("mob psycho", 8), ("Mob-Psycho-100", 9)]);
    let idx = heap.find("mobpsycho100");
    assert_eq!(below(&heap, idx), vec![7, 9]);
    let idx = heap.find("mobpsycho");
    assert_eq!(below(&heap, idx), vec![8, 7, 9]);
}

#[test]
fn empty_keys_are_dropped() {
    let heap = build(&[("---", 1), ("", 2), ("a", 3)]);
    assert_eq!(below(&heap, 0), vec![3]);
}

#[test]
fn order_of_items_does_not_move_nodes() {
    let a = build(&[("zeta", 1), ("alpha", 2), ("alp", 3), ("9lives", 4)]);
    let b = build(&[("9lives", 4), ("alp", 3), ("zeta", 1), ("alpha", 2)]);
    for q in ["zeta", "alpha", "alp", "al", "9", "9lives", "zz", "alphabet"] {
        assert_eq!(a.find(q), b.find(q));
    }
}

#[test]
fn digits_sort_before_letters() {
    let heap = build(&[("b", 1), ("1", 2), ("a", 3)]);
    assert_eq!(heap.find("1"), 1);
    assert_eq!(heap.find("a"), 2);
    assert_eq!(heap.find("b"), 3);
}

#[test]
fn empty_tree_has_only_the_root() {
    let heap = build(&[]);
    assert_eq!(heap.node_count(), 1);
    assert_eq!(heap.payload_count(), 0);
    assert_eq!(heap.find("abc"), 0);
    assert!(below(&heap, 0).is_empty());
    let root = heap.node(0);
    assert_eq!((root.letter, root.num_children, root.pos_children), (0, 0, 1));
    assert_eq!(root.payloads(), 0..0);
}

#[test]
fn children_stand_after_their_node_with_letters_in_order() {
    let heap = build(&[
        ("shigatsu wa kimi no uso", 0),
        ("shinseiki evangelion", 1),
        ("shinsekai yori", 2),
        ("steins gate", 3),
        ("steins gate 0", 4),
        ("91 days", 5),
        ("a", 6),
    ]);
    let n = heap.node_count();
    let mut seen_as_child = vec![false; n];
    for i in 0..n {
        let node = heap.node(i);
        let children = node.children();
        assert!(children.start > i);
        assert!(children.end <= n);
        assert!(node.num_children <= 36);
        let mut last = 0u8;
        for c in children {
            let letter = heap.node(c).letter;
            assert!(letter.is_ascii_lowercase() || letter.is_ascii_digit());
            assert!(letter > last);
            last = letter;
            assert!(!seen_as_child[c]);
            seen_as_child[c] = true;
        }
        let own = node.payloads();
        assert!(own.start <= own.end && own.end <= heap.payload_count());
    }
    assert!(!seen_as_child[0]);
    assert!(seen_as_child[1..].iter().all(|s| *s));
}

#[test]
fn nodes_count_the_distinct_prefixes() {
    // a, ab, abc, abd, b
    let heap = build(&[("abc", 1), ("abd", 2), ("ab", 3), ("b", 4), ("ABC", 5)]);
    assert_eq!(heap.node_count(), 6);
    assert_eq!(heap.payload_count(), 5);
    assert_eq!(below(&heap, heap.find("abc")), vec![1, 5]);
    assert_eq!(below(&heap, heap.find("ab")), vec![3, 1, 5, 2]);
}

#[test]
fn find_follows_the_longest_known_prefix() {
    let heap = build(&[("mobpsycho", 1), ("mononoke", 2)]);
    let mo = heap.find("mo");
    assert_eq!(heap.find("mox"), mo);
    assert_eq!(heap.find("MO-"), mo);
    let mob = heap.find("mob");
    assert_ne!(mob, mo);
    assert_eq!(heap.find("mobile suit"), mob);
    assert_eq!(heap.find("m o b"), mob);
    assert_eq!(below(&heap, mob), vec![1]);
    assert_eq!(below(&heap, mo), vec![1, 2]);
}

#[test]
fn new_builds_what_try_new_builds() {
    let items = vec![("one".to_string(), 1u8), ("two".to_string(), 2u8)];
    let a = AsciiHeap::new(items.clone());
    let b = AsciiHeap::try_new(items).unwrap();
    assert_eq!(a.node_count(), b.node_count());
    assert_eq!(a.find("two"), b.find("two"));
    assert_eq!(a.iter(a.find("t")).next(), Some(&2u8));
}

#[test]
fn payloads_need_not_be_copied() {
    let items = vec![
        ("beta".to_string(), "second".to_string()),
        ("alpha".to_string(), "first".to_string()),
        ("beta".to_string(), "third".to_string()),
        ("".to_string(), "lost".to_string()),
    ];
    let heap = AsciiHeap::try_new(items).unwrap();
    let mut it = heap.iter(0);
    let mut all = vec![];
    while let Some(v) = it.next() {
        all.push(v.as_str());
    }
    assert_eq!(all, vec!["first", "second", "third"]);
    let mut it = heap.iter(heap.find("beta"));
    assert_eq!(it.next().map(|s| s.as_str()), Some("second"));
    assert_eq!(it.next().map(|s| s.as_str()), Some("third"));
    assert_eq!(it.next(), None);
    assert_eq!(it.next(), None);
}

#[test]
fn children_of_the_root_are_the_first_letters() {
    let heap = build(&[("delta", 0), ("alpha", 1), ("able", 2), ("7th", 3), ("Dog", 4)]);
    // first letters: 7, a, d
    assert_eq!(heap.node(0).children(), 1..4);
    assert_eq!(heap.node(1).letter, b'7');
    assert_eq!(heap.node(2).letter, b'a');
    assert_eq!(heap.node(3).letter, b'd');
    // the children of the first child follow the children of the root
    assert_eq!(heap.node(1).children().start, 4);
}

#[test]
fn keys_that_differ_in_case_share_a_node() {
    let heap = build(&[("ab", 1), ("a", 2), ("AB", 3)]);
    assert_eq!(heap.node_count(), 3);
    assert_eq!(heap.find("a"), 1);
    assert_eq!(heap.find("ab"), 2);
    assert_eq!(below(&heap, 2), vec![1, 3]);
    let mut all = below(&heap, 1);
    all.sort();
    assert_eq!(all, vec![1, 2, 3]);
    let mut all = below(&heap, 0);
    all.sort();
    assert_eq!(all, vec![1, 2, 3]);
}

#[test]
fn one_key_is_a_chain_of_nodes() {
    let heap = build(&[("abc", 1)]);
    assert_eq!(heap.node_count(), 4);
    assert_eq!(heap.find("abc"), 3);
    assert_eq!(heap.find("abd"), 2);
    assert_eq!(heap.find("abcd"), 3);
    assert_eq!(heap.find("a-b c"), 3);
    assert_eq!(heap.find("axbc"), 1);
    assert_eq!(heap.find("x"), 0);
    assert_eq!(heap.find("- !"), 0);
    assert_eq!(heap.find(""), 0);
    assert_eq!(heap.find("ABC"), 3);
    assert_eq!(heap.find("aBc"), 3);
}
