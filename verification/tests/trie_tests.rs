use stackmerge::rankset::RankSet;
use stackmerge::trie::StackTrie;

fn keys(parts: &[&str]) -> Vec<Vec<u8>> {
    parts.iter().map(|p| p.as_bytes().to_vec()).collect()
}

#[test]
fn insertion_order_is_irrelevant() {
    // the same (stack, rank) pairs in two different orders build equal tries
    let batch: Vec<(Vec<Vec<u8>>, u32)> = vec![
        (keys(&["main", "foo"]), 0),
        (keys(&["main", "bar"]), 1),
        (keys(&["main"]), 2),
        (keys(&["other"]), 1),
    ];
    let mut forward = StackTrie::new(vec![0, 1, 2]);
    for (stack, rank) in batch.iter() {
        forward.insert(stack, *rank);
    }
    let mut backward = StackTrie::new(vec![0, 1, 2]);
    for (stack, rank) in batch.iter().rev() {
        backward.insert(stack, *rank);
    }
    assert_eq!(forward, backward);
    assert_eq!(forward.traverse_with_all_stack(), backward.traverse_with_all_stack());
}

#[test]
fn repeated_insertion_changes_nothing() {
    let mut once = StackTrie::new(vec![0, 1]);
    once.insert(&keys(&["main", "foo"]), 0);
    let mut twice = StackTrie::new(vec![0, 1]);
    twice.insert(&keys(&["main", "foo"]), 0);
    twice.insert(&keys(&["main", "foo"]), 0);
    assert_eq!(once, twice);
}

#[test]
fn rank_sets_shrink_while_descending() {
    // below the root, a child's ranks are within its parent's, and all are
    // within the universe
    let mut trie = StackTrie::new(vec![0, 1, 2]);
    trie.insert(&keys(&["main", "foo"]), 0);
    trie.insert(&keys(&["main", "foo"]), 1);
    trie.insert(&keys(&["main"]), 2);
    let universe: Vec<u32> = trie.all_ranks().as_vec().clone();
    let main = trie.root().child(&b"main".to_vec()).expect("main must exist");
    let main_ranks: Vec<u32> = main.ranks().as_vec().clone();
    let foo = main.child(&b"foo".to_vec()).expect("foo must exist");
    let foo_ranks: Vec<u32> = foo.ranks().as_vec().clone();
    assert_eq!(main_ranks, vec![0, 1, 2]);
    assert_eq!(foo_ranks, vec![0, 1]);
    assert!(foo_ranks.iter().all(|r| main_ranks.contains(r)));
    assert!(main_ranks.iter().all(|r| universe.contains(r)));
    assert!(main.is_end());
    assert!(foo.is_end());
    assert!(!trie.root().is_end());
}

#[test]
fn present_and_leaked_split_the_universe() {
    let mut universe = RankSet::new();
    for r in [0u32, 1, 2, 3] {
        universe.insert(r);
    }
    let mut present = RankSet::new();
    present.insert(0);
    present.insert(2);
    let leaked = universe.difference(&present);
    assert_eq!(leaked.as_vec().clone(), vec![1, 3]);
    // disjoint
    for r in present.as_vec() {
        assert!(!leaked.contains(*r));
    }
    // together they give the universe back
    for r in universe.as_vec() {
        assert!(present.contains(*r) || leaked.contains(*r));
    }
}

#[test]
fn annotation_renders_both_sets() {
    let mut trie = StackTrie::new(vec![0, 1, 2, 3]);
    trie.insert(&keys(&["main"]), 0);
    trie.insert(&keys(&["main"]), 1);
    trie.insert(&keys(&["main"]), 3);
    let main = trie.root().child(&b"main".to_vec()).expect("main must exist");
    let ann = trie.format_rank_str(main.ranks());
    assert_eq!(String::from_utf8(ann).unwrap(), "@0-1/3|2");
}

#[test]
fn universe_deduplicates_and_sorts() {
    let trie = StackTrie::new(vec![2, 0, 2, 1, 0]);
    assert_eq!(trie.all_ranks().as_vec().clone(), vec![0, 1, 2]);
}

#[test]
fn traverse_emits_one_record_per_terminal_path() {
    let mut trie = StackTrie::new(vec![0, 1]);
    trie.insert(&keys(&["a", "b"]), 0);
    trie.insert(&keys(&["a"]), 1);
    let records = trie.traverse_with_all_stack();
    assert_eq!(records.len(), 2);
    let (labels0, ann0) = &records[0];
    assert_eq!(labels0.len(), 1);
    assert_eq!(String::from_utf8(labels0[0].clone()).unwrap(), "a@0-1|");
    assert_eq!(String::from_utf8(ann0.clone()).unwrap(), "@0-1|");
    let (labels1, ann1) = &records[1];
    assert_eq!(labels1.len(), 2);
    assert_eq!(String::from_utf8(labels1[1].clone()).unwrap(), "b@0|1");
    assert_eq!(String::from_utf8(ann1.clone()).unwrap(), "@0|1");
}
