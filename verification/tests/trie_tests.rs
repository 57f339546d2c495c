use cn_input_encode::trie::Trie;

fn chars(s: &str) -> Vec<char> {
    s.chars().collect()
}

#[test]
fn trie_insert_and_walk() {
    let mut t = Trie::new();
    assert_eq!(t.len(), 1);
    let ab = t.insert(&chars("ab"));
    assert_eq!(t.len(), 3);
    let a = t.child(0, 'a').unwrap();
    assert_eq!(t.child(a, 'b'), Some(ab));
    assert_eq!(t.child(a, 'c'), None);
    let again = t.insert(&chars("ab"));
    assert_eq!(again, ab);
    assert_eq!(t.len(), 3);
    assert_eq!(t.insert(&chars("a")), a);
    assert_eq!(t.insert(&[]), 0);
    let walk = t.walk(&chars("xabc"), 1);
    assert_eq!(walk, vec![a, ab]);
    assert!(t.has_children(a));
    assert!(!t.has_children(ab));
    let ac = t.insert(&chars("ac"));
    assert_eq!(t.len(), 4);
    assert_eq!(t.walk(&chars("ac"), 0), vec![a, ac]);
    assert_eq!(t.walk(&chars("b"), 0), Vec::<usize>::new());
}
