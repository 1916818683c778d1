//! Tests of the inclusion-proof engine: generation, validation, the
//! pending-word check, the rebuild flows, and display formatting.

use merkle_tree::hasher::keccak_256;
use merkle_tree::tree::{build_tree, InclusionProof, MerkleTree, Node, WordToProve};

fn root_hash(t: &MerkleTree) -> String {
    t.root.as_ref().expect("tree has a root").hash.clone()
}

#[test]
fn proof_for_every_leaf_of_a_four_word_tree_is_valid() {
    for i in 0..4 {
        let mut t = build_tree(vec!["a", "b", "c", "d"]);
        t.inclusion_proof(i);
        let p = t.proof.as_ref().expect("proof was generated");
        assert!(p.is_valid);
        assert!(t.validate_inclusion_proof(i));
    }
}

#[test]
fn proof_for_every_leaf_of_a_padded_tree_is_valid() {
    for i in 0..8 {
        let mut t = build_tree(vec!["a", "b", "c", "d", "e"]);
        t.inclusion_proof(i);
        assert!(t.proof.as_ref().expect("proof was generated").is_valid);
    }
}

#[test]
fn proof_for_leaf_zero_lists_the_expected_siblings() {
    let mut t = build_tree(vec!["a", "b", "c", "d"]);
    let level2_right = t.nodes[1][1].hash.clone();
    t.inclusion_proof(0);
    let p = t.proof.as_ref().expect("proof was generated");
    assert_eq!(p.proof.len(), 2);
    assert_eq!(p.proof[0].level, 1);
    assert_eq!(p.proof[0].index, 1);
    assert_eq!(p.proof[0].hash, keccak_256("b"));
    assert_eq!(p.proof[1].level, 2);
    assert_eq!(p.proof[1].index, 1);
    assert_eq!(p.proof[1].hash, level2_right);
    assert!(p.is_valid);
}

#[test]
fn proof_for_an_odd_leaf_lists_its_left_sibling() {
    let mut t = build_tree(vec!["a", "b", "c", "d"]);
    t.inclusion_proof(3);
    let p = t.proof.as_ref().expect("proof was generated");
    assert_eq!(p.proof[0].level, 1);
    assert_eq!(p.proof[0].index, 2);
    assert_eq!(p.proof[0].hash, keccak_256("c"));
    assert_eq!(p.proof[1].level, 2);
    assert_eq!(p.proof[1].index, 0);
    assert!(p.is_valid);
}

#[test]
fn validate_without_a_proof_returns_false() {
    let t = build_tree(vec!["a", "b", "c", "d"]);
    assert!(!t.validate_inclusion_proof(0));
}

#[test]
fn a_wrong_claimed_hash_fails_validation() {
    let mut t = build_tree(vec!["a", "b", "c", "d"]);
    let wrong = keccak_256("not the word at leaf one");
    t.word_to_prove = Some(WordToProve {
        word: "not the word at leaf one".to_string(),
        index: 1,
        hash: wrong.clone(),
        display_hash: MerkleTree::format_hash(&wrong, 6, 6, "..."),
    });
    t.inclusion_proof(1);
    assert!(!t.proof.as_ref().expect("proof was generated").is_valid);
    assert!(!t.validate_inclusion_proof(1));
}

#[test]
fn a_pending_word_equal_to_the_leaf_word_passes_validation() {
    let t = build_tree(vec!["a", "b", "c", "d"]);
    let mut t = t.check_without_rebuilding(2, "c");
    t.inclusion_proof(2);
    assert!(t.proof.as_ref().expect("proof was generated").is_valid);
}

#[test]
fn a_pending_word_absent_from_the_tree_fails_validation() {
    let t = build_tree(vec!["a", "b", "c", "d"]);
    let mut t = t.check_without_rebuilding(2, "z");
    t.inclusion_proof(2);
    assert!(!t.proof.as_ref().expect("proof was generated").is_valid);
}

#[test]
fn a_pending_word_for_another_leaf_does_not_interfere() {
    let t = build_tree(vec!["a", "b", "c", "d"]);
    let mut t = t.check_without_rebuilding(2, "z");
    t.inclusion_proof(1);
    assert!(t.proof.as_ref().expect("proof was generated").is_valid);
}

#[test]
fn check_without_rebuilding_keeps_the_committed_words() {
    let t = build_tree(vec!["a", "b", "c", "d"]);
    let original_root = root_hash(&t);
    let checked = t.check_without_rebuilding(0, "z");
    assert_eq!(checked.words, t.words);
    assert_eq!(root_hash(&checked), original_root);
    let rec = checked.word_to_prove.as_ref().expect("pending word recorded");
    assert_eq!(rec.index, 0);
    assert_eq!(rec.word, "z");
    assert_eq!(rec.hash, keccak_256("z"));
    assert_eq!(rec.display_hash, MerkleTree::format_hash(&keccak_256("z"), 6, 6, "..."));
}

#[test]
fn replace_and_rebuild_swaps_one_word() {
    let t = build_tree(vec!["a", "b", "c", "d"]);
    let r = t.replace_and_rebuild(1, "x");
    assert_eq!(r.words, vec!["a", "x", "c", "d"]);
    assert_eq!(root_hash(&r), root_hash(&build_tree(vec!["a", "x", "c", "d"])));
    assert!(r.proof.is_none());
    assert!(r.word_to_prove.is_none());
}

#[test]
fn replacing_a_word_with_itself_keeps_the_root() {
    let t = build_tree(vec!["a", "b", "c", "d", "e"]);
    let r = t.replace_and_rebuild(2, "c");
    assert_eq!(root_hash(&r), root_hash(&t));
}

#[test]
fn replacing_a_word_with_another_changes_the_root() {
    let t = build_tree(vec!["a", "b", "c", "d"]);
    let r = t.replace_and_rebuild(2, "zebra");
    assert_ne!(root_hash(&r), root_hash(&t));
}

#[test]
fn format_hash_abbreviates_long_strings() {
    assert_eq!(
        MerkleTree::format_hash("0123456789abcdef", 6, 6, "..."),
        "012345...abcdef"
    );
}

#[test]
fn format_hash_keeps_short_strings_whole() {
    assert_eq!(MerkleTree::format_hash("0123456789ab", 6, 6, "..."), "0123456789ab");
    assert_eq!(MerkleTree::format_hash("", 6, 6, "..."), "");
}

#[test]
fn default_values_are_empty() {
    let p = InclusionProof::default();
    assert!(p.proof.is_empty());
    assert!(!p.is_valid);

    let w = WordToProve::default();
    assert_eq!(w.word, "");
    assert_eq!(w.index, 0);
    assert_eq!(w.hash, "");
    assert_eq!(w.display_hash, "");

    let n = Node::default();
    assert_eq!(n.hash, "");
    assert_eq!(n.level, 0);
    assert_eq!(n.parent_index, (0, 0));
    assert_eq!(n.index, 0);

    let t = MerkleTree::default();
    assert!(t.root.is_none());
    assert!(t.nodes.is_empty());
    assert!(t.words.is_empty());
    assert_eq!(t.levels, 3);
    assert!(t.proof.is_none());
    assert!(t.word_to_prove.is_none());
}
