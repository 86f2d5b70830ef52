use util_lib::btree::Btree;

#[test]
fn btree_tests() {
    let mut _newtree: Btree<String> = Btree::new("/");

    _newtree.insert("/12/456/10", "12".to_string());
    _newtree.insert("/12/456/10", "9".to_string());
    _newtree.insert("12/456/10", "13".to_string());
    _newtree.insert("/12/456/13", "17".to_string());
    _newtree.insert("/13/457/15", "19".to_string());
    _newtree.insert("/15/458/17", "20".to_string());

    println!("Tree = {_newtree:?}");

    let _find = _newtree.fetch("13/457/15");

    println!("Found = {_find:?}");

    let _node = _newtree.node_for("13");

    println!("node = {_node:?}");

    if let Some(_n) = _node {
        println!("keys = {:?}", _n.enumerate());
        println!("children = {:?}", _n.nodes());
    }

    println!("Items = {:?}", _newtree.items());
}

#[test]
fn reference_scenario() {
    let mut tree: Btree<String> = Btree::new("/");

    assert!(tree.insert("/12/456/10", "12".to_string()));
    assert!(tree.insert("/12/456/10", "9".to_string()));
    assert!(tree.insert("12/456/10", "13".to_string()));
    assert_eq!(tree.fetch("12/456/10"), vec!["12", "9", "13"]);

    assert!(tree.insert("/13/457/15", "19".to_string()));
    assert_eq!(tree.fetch("13/457/15"), vec!["19"]);

    let node = tree.node_for("13").expect("node 13 should exist");
    assert_eq!(node.enumerate(), vec!["457"]);
    let children = node.nodes();
    assert_eq!(children.len(), 1);
    assert_eq!(children[0].enumerate(), vec!["15"]);
}

#[test]
fn accumulation_keeps_order() {
    let mut tree: Btree<u64> = Btree::new("/");
    assert!(tree.insert("a/b", 1));
    assert!(tree.insert("a/b", 2));
    assert_eq!(tree.fetch("a/b"), vec![1, 2]);
}

#[test]
fn leading_delimiter_addresses_same_node() {
    let mut tree: Btree<u64> = Btree::new("/");
    assert!(tree.insert("a/b", 1));
    assert!(tree.insert("/a/b", 2));
    assert_eq!(tree.fetch("a/b"), vec![1, 2]);
    assert_eq!(tree.fetch("/a/b"), vec![1, 2]);
}

#[test]
fn replace_overwrites() {
    let mut tree: Btree<u64> = Btree::new("/");
    assert!(tree.insert("x/y", 1));
    assert!(tree.insert("x/y", 2));
    assert!(tree.replace("x/y", vec![7, 8]));
    assert_eq!(tree.fetch("x/y"), vec![7, 8]);
}

#[test]
fn remove_deletes_whole_subtree() {
    let mut tree: Btree<u64> = Btree::new("/");
    assert!(tree.insert("a/b/c", 1));
    assert!(tree.insert("a/b/c/d", 2));
    assert!(tree.remove("a/b/c"));
    assert!(tree.node_for("a/b/c").is_none());
    assert!(tree.node_for("a/b/c/d").is_none());
    assert!(tree.fetch("a/b/c").is_empty());
    assert!(tree.fetch("a/b/c/d").is_empty());
    assert!(tree.node_for("a/b").is_some());
    assert_eq!(tree.items().len(), 0);
}

#[test]
fn remove_missing_or_empty_fails() {
    let mut tree: Btree<u64> = Btree::new("/");
    assert!(tree.insert("a", 1));
    assert!(!tree.remove(""));
    assert!(!tree.remove("b"));
    assert!(!tree.remove("a/b"));
    assert!(tree.remove("a"));
    assert!(!tree.remove("a"));
}

#[test]
fn absence_differs_from_emptiness() {
    let mut tree: Btree<u64> = Btree::new("/");
    assert!(tree.insert("exists/leaf", 5));
    assert!(tree.node_for("missing").is_none());
    let intermediate = tree.node_for("exists").expect("intermediate node exists");
    assert!(intermediate.var.is_empty());
    assert!(tree.fetch_ref("missing").is_none());
    let vals = tree.fetch_ref("exists").expect("present but valueless");
    assert!(vals.is_empty());
}

#[test]
fn items_cardinality() {
    let mut tree: Btree<u64> = Btree::new("/");
    assert!(tree.insert("a", 1));
    assert!(tree.insert("a/b", 2));
    assert!(tree.insert("c", 3));
    assert!(tree.insert("c", 4));
    assert_eq!(tree.items().len(), 4);
    assert!(tree.remove("a"));
    assert_eq!(tree.items().len(), 2);
}

#[test]
fn fetch_matches_fetch_ref() {
    let mut tree: Btree<String> = Btree::new("/");
    assert!(tree.insert("p/q", "one".to_string()));
    assert!(tree.insert("p/q", "two".to_string()));
    let owned = tree.fetch("p/q");
    let borrowed = tree.fetch_ref("p/q").expect("node exists");
    assert_eq!(&owned, borrowed);
    assert!(tree.fetch("nowhere").is_empty());
    assert!(tree.fetch_ref("nowhere").is_none());
}

#[test]
fn empty_path_inserts_at_root() {
    let mut tree: Btree<u64> = Btree::new("/");
    assert!(tree.insert("", 1));
    assert!(tree.insert("/", 2));
    assert_eq!(tree.fetch(""), vec![1, 2]);
    assert_eq!(tree.var, vec![1, 2]);
}

#[test]
fn empty_segment_fails_but_routes_stay() {
    let mut tree: Btree<u64> = Btree::new("/");
    assert!(tree.insert("a//b", 1));
    assert_eq!(tree.fetch("a/b"), vec![1]);
    assert!(!tree.insert("a///b", 2));
    assert!(tree.node_for("a").is_some());
}

#[test]
fn multi_char_delimiter() {
    let mut tree: Btree<u64> = Btree::new("::");
    assert!(tree.insert("x::y", 9));
    assert_eq!(tree.fetch("::x::y"), vec![9]);
    assert_eq!(tree.fetch("x::y"), vec![9]);
    let node = tree.node_for("x").expect("x exists");
    assert_eq!(node.enumerate(), vec!["y"]);
}

#[test]
fn empty_delimiter_is_degenerate() {
    let mut tree: Btree<u64> = Btree::new("");
    assert!(tree.insert("abc", 1));
    assert_eq!(tree.fetch("abc"), vec![1]);
    assert!(tree.node_for("abc").is_some());
}

#[test]
fn trailing_delimiter_addresses_final_segment() {
    let mut tree: Btree<u64> = Btree::new("/");
    assert!(tree.insert("a/b/", 1));
    assert_eq!(tree.fetch("a/b"), vec![1]);
    assert!(tree.remove("a/b/"));
    assert!(tree.node_for("a/b").is_none());
}

#[test]
fn replace_creates_route() {
    let mut tree: Btree<u64> = Btree::new("/");
    assert!(tree.replace("fresh/route", vec![5, 6]));
    assert_eq!(tree.fetch("fresh/route"), vec![5, 6]);
    assert!(tree.replace("fresh/route", Vec::new()));
    let vals = tree.fetch_ref("fresh/route").expect("node still present");
    assert!(vals.is_empty());
}

#[test]
fn enumerate_keeps_insertion_order() {
    let mut tree: Btree<u64> = Btree::new("/");
    assert!(tree.insert("b/x", 1));
    assert!(tree.insert("a/y", 2));
    assert!(tree.insert("c/z", 3));
    assert_eq!(tree.enumerate(), vec!["b", "a", "c"]);
    let children = tree.nodes();
    assert_eq!(children.len(), 3);
    assert_eq!(children[0].head, "b");
    assert_eq!(children[1].head, "a");
    assert_eq!(children[2].head, "c");
}
