use rust_blockchain::block::Block;
use rust_blockchain::consensus::select_agreed_block;

fn received(hashes: &[&str]) -> Vec<Block> {
    hashes
        .iter()
        .enumerate()
        .map(|(i, h)| Block {
            index: i as u64,
            timestamp: 0,
            proof_of_work: 0,
            previous_hash: String::new(),
            hash: h.to_string(),
        })
        .collect()
}

#[test]
fn no_agreement_without_a_majority_of_peers() {
    assert_eq!(select_agreed_block(&received(&["a", "a"]), 4), None);
    assert_eq!(select_agreed_block(&received(&[]), 0), None);
    assert_eq!(select_agreed_block(&received(&["a"]), 3), None);
}

#[test]
fn agreement_once_more_than_half_have_sent() {
    assert_eq!(select_agreed_block(&received(&["a", "a", "a"]), 4), Some(0));
    assert_eq!(select_agreed_block(&received(&["a", "a"]), 3), Some(0));
    assert_eq!(select_agreed_block(&received(&["z"]), 0), Some(0));
}

#[test]
fn the_most_frequent_hash_wins() {
    assert_eq!(select_agreed_block(&received(&["b", "a", "b"]), 3), Some(0));
    assert_eq!(select_agreed_block(&received(&["a", "c", "c", "b"]), 4), Some(1));
    assert_eq!(select_agreed_block(&received(&["x", "y", "y", "y", "x"]), 5), Some(1));
}

#[test]
fn ties_go_to_the_hash_that_sorts_first() {
    assert_eq!(select_agreed_block(&received(&["b", "a", "c"]), 3), Some(1));
    assert_eq!(select_agreed_block(&received(&["c", "b", "a", "b", "c"]), 5), Some(1));
    assert_eq!(select_agreed_block(&received(&["ab", "a"]), 1), Some(0));
    assert_eq!(select_agreed_block(&received(&["ab", "a", "c"]), 3), Some(1));
    assert_eq!(select_agreed_block(&received(&["\u{e9}", "z", "q"]), 3), Some(1));
}

#[test]
fn a_new_hash_received_last_does_not_take_part_in_a_tie() {
    assert_eq!(select_agreed_block(&received(&["b", "a"]), 2), Some(0));
    assert_eq!(select_agreed_block(&received(&["c", "b", "a"]), 3), Some(1));
    assert_eq!(select_agreed_block(&received(&["b", "a", "a", "b"]), 4), Some(1));
}
