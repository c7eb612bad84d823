//! End-to-end scenarios and concrete instances of the trie's laws.

use path_trie::trie::Trie;

/// Splits a slash-separated string into its ordered components.
fn path(s: &str) -> Vec<String> {
    s.split('/').filter(|c| !c.is_empty()).map(|c| c.to_string()).collect()
}

/// The child reached by one component, or a panic if it is missing.
fn child<'a>(t: &'a Trie, name: &str) -> &'a Trie {
    &t.children.iter().find(|p| p.0 == name).expect("missing child").1
}

/// The sum of `count` over every node of the trie.
fn total(t: &Trie) -> usize {
    t.count + t.children.iter().map(|p| total(&p.1)).sum::<usize>()
}

/// Walks every node, checking that each non-root leaf has `count >= 1`.
fn check_leaves(t: &Trie) {
    for (_, sub) in &t.children {
        if sub.children.is_empty() {
            assert!(sub.count >= 1);
        }
        check_leaves(sub);
    }
}

#[test]
fn s1_empty_trie() {
    let t = Trie::new();
    assert!(t.children.is_empty());
    assert_eq!(t.count, 0);
    assert!(t.is_leaf());
    let d = Trie::default();
    assert!(d.is_leaf());
    assert_eq!(d.count, 0);
}

#[test]
fn s2_single_path() {
    let mut t = Trie::new();
    t.insert(&path("a/b/c"));
    assert_eq!(t.count, 0);
    assert_eq!(t.children.len(), 1);
    let a = child(&t, "a");
    assert_eq!(a.count, 0);
    assert_eq!(a.children.len(), 1);
    let b = child(a, "b");
    assert_eq!(b.count, 0);
    assert_eq!(b.children.len(), 1);
    let c = child(b, "c");
    assert_eq!(c.count, 1);
    assert!(c.is_leaf());
}

#[test]
fn s3_shared_prefix() {
    let mut t = Trie::new();
    t.insert(&path("a/b/c"));
    t.insert(&path("a/b/d"));
    let a = child(&t, "a");
    assert_eq!(a.count, 0);
    assert_eq!(a.children.len(), 1);
    let b = child(a, "b");
    assert_eq!(b.count, 0);
    assert_eq!(b.children.len(), 2);
    let c = child(b, "c");
    assert!(c.is_leaf());
    assert_eq!(c.count, 1);
    let d = child(b, "d");
    assert!(d.is_leaf());
    assert_eq!(d.count, 1);
}

#[test]
fn s4_duplicate() {
    let mut t = Trie::new();
    t.insert(&path("a/b"));
    t.insert(&path("a/b"));
    let a = child(&t, "a");
    assert_eq!(a.children.len(), 1);
    let b = child(a, "b");
    assert!(b.is_leaf());
    assert_eq!(b.count, 2);
}

#[test]
fn s5_prefix_of_itself() {
    let mut t = Trie::new();
    t.insert(&path("a/b"));
    t.insert(&path("a/b/c"));
    let b = child(child(&t, "a"), "b");
    assert_eq!(b.count, 1);
    assert_eq!(b.children.len(), 1);
    assert!(!b.is_leaf());
    let c = child(b, "c");
    assert_eq!(c.count, 1);
    assert!(c.is_leaf());
}

#[test]
fn s6_zero_component_path() {
    let mut t = Trie::new();
    t.insert(&path(""));
    assert_eq!(t.count, 1);
    assert!(t.children.is_empty());
}

#[test]
fn count_conservation() {
    let paths = vec![path("a/b/c"), path("a/b"), path("a/b"), path(""), path("x/y")];
    let t = Trie::from_iter(&paths);
    assert_eq!(total(&t), paths.len());
    let mut u = Trie::new();
    for p in &paths {
        u.insert(p);
    }
    assert_eq!(total(&u), paths.len());
}

#[test]
fn structural_determinism() {
    let forward = vec![path("a/b/c"), path("a/b/d"), path("a"), path("x"), path("a/b/c")];
    let backward = vec![path("a/b/c"), path("x"), path("a"), path("a/b/d"), path("a/b/c")];
    let t1 = Trie::from_iter(&forward);
    let t2 = Trie::from_iter(&backward);
    assert!(t1.structural_eq(&t2));
    assert!(t2.structural_eq(&t1));
}

#[test]
fn structural_eq_detects_differences() {
    let t1 = Trie::from_iter(&vec![path("a/b"), path("a/c")]);
    let t2 = Trie::from_iter(&vec![path("a/b")]);
    assert!(!t1.structural_eq(&t2));
    assert!(!t2.structural_eq(&t1));
    let t3 = Trie::from_iter(&vec![path("a/b"), path("a/b")]);
    assert!(!t1.structural_eq(&t3));
    let t4 = Trie::from_iter(&vec![path("a/b"), path("a/c")]);
    assert!(t1.structural_eq(&t4));
}

#[test]
fn prefix_containment() {
    let paths = vec![path("a/b/c"), path("a/b"), path("d"), path("a/b/c/e")];
    let t = Trie::from_iter(&paths);
    for p in &paths {
        let mut node = &t;
        for c in p {
            node = child(node, c);
        }
        assert!(node.count >= 1);
    }
}

#[test]
fn leaf_terminality() {
    let paths = vec![path("a/b/c"), path("a/b/d"), path("a"), path(""), path("x/y/z")];
    let t = Trie::from_iter(&paths);
    check_leaves(&t);
    let empty = Trie::new();
    check_leaves(&empty);
}

#[test]
fn bulk_equals_repeated_single() {
    let paths = vec![path("a/b"), path("a/b/c"), path(""), path("a/b")];
    let bulk = Trie::from_iter(&paths);
    let mut single = Trie::new();
    for p in &paths {
        single.insert(p);
    }
    assert!(bulk.structural_eq(&single));
}

#[test]
fn extend_accumulates() {
    let mut t = Trie::new();
    t.insert(&path("a/b"));
    t.extend(&vec![path("a/c"), path("a/b")]);
    assert_eq!(total(&t), 3);
    let b = child(child(&t, "a"), "b");
    assert_eq!(b.count, 2);
    let c = child(child(&t, "a"), "c");
    assert_eq!(c.count, 1);
}

#[test]
fn child_traversal() {
    let mut t = Trie::new();
    t.insert(&path("a/b"));
    let a = t.child(&"a".to_string()).expect("edge a");
    let b = a.child(&"b".to_string()).expect("edge b");
    assert_eq!(b.count, 1);
    assert!(b.is_leaf());
    assert!(t.child(&"z".to_string()).is_none());
    assert!(a.child(&"a".to_string()).is_none());
}

#[test]
fn from_iter_of_nothing_is_empty() {
    let t = Trie::from_iter(&Vec::new());
    assert!(t.is_leaf());
    assert_eq!(t.count, 0);
    assert!(t.structural_eq(&Trie::new()));
}
