use rust_blockchain::block::Block;
use rust_blockchain::blockchain::BlockChain;
use sha3::{Digest, Sha3_512};

fn block(index: u64, timestamp: u64, proof_of_work: u64, previous_hash: &str, hash: &str) -> Block {
    Block {
        index,
        timestamp,
        proof_of_work,
        previous_hash: previous_hash.to_string(),
        hash: hash.to_string(),
    }
}

fn chain_with_difficulty(difficulty: usize) -> BlockChain {
    BlockChain::new(difficulty)
}

fn sha3_hex(text: &str) -> String {
    let mut hasher = Sha3_512::new();
    hasher.update(text.as_bytes());
    format!("{:x}", hasher.finalize())
}

#[test]
fn calculate_hash_of_known_block() {
    let b = block(1, 1700000000000, 42, "", "");
    assert_eq!(
        b.calculate_hash(),
        "0c16c2c99438f09a65a4ec5d4c26224d18fb2ea0183e893144a0f67d3b81e59117593dca451b42e8a1c134ba5cea9e24d1e3d1545be7385fde30521ef9ebd1a7"
    );
}

#[test]
fn calculate_hash_of_zero_block() {
    let b = block(0, 0, 0, "", "");
    assert_eq!(
        b.calculate_hash(),
        "a07958299567dc08307a6e1a5a85a5193c9c901c59b3bee7d0cbf19eaa959b6d7497d93b68d9de11e07819ceb98fe2f2168a2a780f6b57fd1296902463b61e6b"
    );
}

#[test]
fn calculate_hash_escapes_strings_as_json() {
    let b = block(1, 5, 0, "a\"b", "\\\n");
    let json = "{\"index\":1,\"timestamp\":5,\"proof_of_work\":0,\"previous_hash\":\"a\\\"b\",\"hash\":\"\\\\\\n\"}";
    assert_eq!(b.calculate_hash(), sha3_hex(json));
}

#[test]
fn calculate_hash_covers_every_field() {
    let base = block(3, 4, 5, "p", "h");
    let h = base.calculate_hash();
    assert_eq!(h.len(), 128);
    assert!(h.chars().all(|c| c.is_ascii_hexdigit() && !c.is_ascii_uppercase()));
    assert_ne!(block(4, 4, 5, "p", "h").calculate_hash(), h);
    assert_ne!(block(3, 5, 5, "p", "h").calculate_hash(), h);
    assert_ne!(block(3, 4, 6, "p", "h").calculate_hash(), h);
    assert_ne!(block(3, 4, 5, "q", "h").calculate_hash(), h);
    assert_ne!(block(3, 4, 5, "p", "i").calculate_hash(), h);
    assert_eq!(block(3, 4, 5, "p", "h").calculate_hash(), h);
}

#[test]
fn new_block_is_unmined() {
    let b = Block::new(7, "prev".to_string());
    assert_eq!(b.index, 7);
    assert_eq!(b.proof_of_work, 0);
    assert_eq!(b.previous_hash, "prev");
    assert_eq!(b.hash, "");
    assert!(b.timestamp > 1_600_000_000_000);
}

#[test]
fn mine_difficulty_one() {
    let mut b = block(0, 0, 0, "", "");
    let mined = b.mine(chain_with_difficulty(1));
    assert_eq!(mined.proof_of_work, 14);
    assert_eq!(
        mined.hash,
        "096bea3987ad6aaa8a1340aa2f786dbb57be0fd3e47f57ac59326b15266b0529373076bcb50cbd8220a201ca2fa43dd7c67b6cf191a831fd3c39b86308610676"
    );
    assert_eq!(b.proof_of_work, 14);
    assert_eq!(b.hash, mined.hash);
    assert_eq!(mined.index, 0);
    assert_eq!(mined.timestamp, 0);
    assert_eq!(mined.previous_hash, "");
}

#[test]
fn mine_difficulty_two_and_three() {
    let mut b = block(0, 0, 0, "", "");
    let mined = b.mine(chain_with_difficulty(2));
    assert_eq!(mined.proof_of_work, 433);
    assert!(mined.hash.starts_with("00"));
    let mut c = block(0, 0, 0, "", "");
    let mined = c.mine(chain_with_difficulty(3));
    assert_eq!(mined.proof_of_work, 5191);
    assert_eq!(
        mined.hash,
        "000f2e2611143a01d2fdf4ee4184b9949bcd5c3aa8dfff13f354be102b959095415cb9302ad51f96ae7df3fac7d8eade18776033e6843be86bf5ff4e3e8ae71a"
    );
}

#[test]
fn mine_starts_from_current_proof_of_work() {
    let mut b = block(0, 0, 15, "", "");
    let mined = b.mine(chain_with_difficulty(1));
    assert!(mined.proof_of_work >= 15);
    assert!(mined.hash.starts_with('0'));
    assert_eq!(mined.proof_of_work, 19);
    let recomputed = block(0, 0, mined.proof_of_work, "", "");
    assert_eq!(recomputed.calculate_hash(), mined.hash);
}

#[test]
fn mine_difficulty_zero_keeps_proof_of_work() {
    let mut b = block(9, 9, 123, "x", "");
    let expected = b.calculate_hash();
    let mined = b.mine(chain_with_difficulty(0));
    assert_eq!(mined.proof_of_work, 123);
    assert_eq!(mined.hash, expected);
}

#[test]
fn mine_hashes_with_the_escaped_previous_hash() {
    let mut b = block(1, 5, 0, "a\"b", "");
    let mined = b.mine(chain_with_difficulty(2));
    assert_eq!(mined.proof_of_work, 164);
    assert_eq!(
        mined.hash,
        "000415294fe4085654fa913695d47bb5d05a13d914ad25f4a1bbd00be72ec22fc04e1c9d3caf4231da3db1797c83a357a8e0ca9a9d8ce668d8a725593badcd48"
    );
}

#[test]
fn try_mine_succeeds_like_mine() {
    let mut b = block(0, 0, 0, "", "");
    let mined = b.try_mine(chain_with_difficulty(1)).expect("a nonce exists");
    assert_eq!(mined.proof_of_work, 14);
    assert_eq!(b.proof_of_work, 14);
    assert_eq!(b.hash, mined.hash);
}

#[test]
fn try_mine_gives_up_at_the_end_of_the_range() {
    let mut b = block(0, 0, u64::MAX - 3, "", "");
    assert!(b.try_mine(chain_with_difficulty(129)).is_none());
    assert_eq!(b.proof_of_work, u64::MAX - 3);
    assert_eq!(b.hash, "");
}

#[test]
fn clone_keeps_every_field() {
    let b = block(1, 2, 3, "four", "five");
    let c = b.clone();
    assert_eq!(c.index, 1);
    assert_eq!(c.timestamp, 2);
    assert_eq!(c.proof_of_work, 3);
    assert_eq!(c.previous_hash, "four");
    assert_eq!(c.hash, "five");
}

#[test]
fn new_at_uses_the_given_clock_reading() {
    let b = Block::new_at(3, "p".to_string(), 1_700_000_000_123);
    assert_eq!(b.index, 3);
    assert_eq!(b.timestamp, 1_700_000_000_123);
    assert_eq!(b.proof_of_work, 0);
    assert_eq!(b.previous_hash, "p");
    assert_eq!(b.hash, "");
    let before_epoch = Block::new_at(0, String::new(), -1);
    assert_eq!(before_epoch.timestamp, u64::MAX);
}

#[test]
fn try_mine_refuses_difficulties_above_the_hash_length() {
    let mut b = block(0, 0, 0, "", "");
    assert!(b.try_mine(chain_with_difficulty(129)).is_none());
    assert_eq!(b.proof_of_work, 0);
    let mut c = block(0, 0, 0, "", "");
    assert!(c.try_mine(chain_with_difficulty(usize::MAX)).is_none());
}
