use rust_blockchain::block::Block;
use rust_blockchain::blockchain::BlockChain;

#[test]
fn create_blockchain() {
    let blockchain = BlockChain::new(1);
    assert_eq!(blockchain.difficulty, 1);
    assert_eq!(blockchain.genesis_block.hash, "");
    assert_eq!(blockchain.genesis_block.index, 0);
    assert_eq!(blockchain.genesis_block.previous_hash, "");
    assert_eq!(blockchain.genesis_block.proof_of_work, 0);
    assert_eq!(blockchain.chain.len(), 1);
    assert_eq!(blockchain.chain[0].hash, "");
    assert_eq!(blockchain.chain[0].index, 0);
    assert_eq!(blockchain.chain[0].previous_hash, "");
    assert_eq!(blockchain.chain[0].proof_of_work, 0);
    assert_eq!(blockchain.chain[0].timestamp, blockchain.genesis_block.timestamp);
}

#[test]
fn create_block() {
    let mut blockchain = BlockChain::new(1);
    blockchain.add_block();
    assert_eq!(blockchain.chain[0].hash, "");
    assert_eq!(blockchain.chain[0].index, 0);
    assert_eq!(blockchain.chain[0].previous_hash, "");
    assert_eq!(blockchain.chain[0].proof_of_work, 0);
    assert_eq!(blockchain.chain[1].previous_hash, "");
    assert_eq!(blockchain.chain[1].index, 1);
    assert_eq!(blockchain.chain.len(), 2);
}

#[test]
fn added_blocks_are_mined_and_appended() {
    let mut blockchain = BlockChain::new(2);
    blockchain.add_block();
    blockchain.add_block();
    assert_eq!(blockchain.chain.len(), 3);
    for (position, block) in blockchain.chain.iter().enumerate().skip(1) {
        assert_eq!(block.index, position as u64);
        assert!(block.hash.starts_with("00"));
        let mut unsealed = block.clone();
        unsealed.hash = String::new();
        assert_eq!(unsealed.calculate_hash(), block.hash);
    }
    assert_eq!(blockchain.difficulty, 2);
    assert_eq!(blockchain.genesis_block.index, 0);
}

#[test]
fn add_block_takes_previous_hash_of_last_block() {
    let mut blockchain = BlockChain::new(0);
    blockchain.chain[0].previous_hash = "marker".to_string();
    blockchain.add_block();
    assert_eq!(blockchain.chain[1].previous_hash, "marker");
    assert_eq!(blockchain.chain[1].proof_of_work, 0);
}

#[test]
fn clone_keeps_the_chain() {
    let mut blockchain = BlockChain::new(1);
    blockchain.add_block();
    let copy = blockchain.clone();
    assert_eq!(copy.difficulty, 1);
    assert_eq!(copy.chain.len(), 2);
    assert_eq!(copy.chain[1].hash, blockchain.chain[1].hash);
    assert_eq!(copy.genesis_block.timestamp, blockchain.genesis_block.timestamp);
}

#[test]
fn new_at_stamps_the_genesis_block() {
    let blockchain = BlockChain::new_at(2, 1_234);
    assert_eq!(blockchain.genesis_block.timestamp, 1_234);
    assert_eq!(blockchain.chain[0].timestamp, 1_234);
    assert_eq!(blockchain.difficulty, 2);
    assert_eq!(blockchain.chain.len(), 1);
}

#[test]
fn add_block_at_stamps_and_mines_the_new_block() {
    let mut blockchain = BlockChain::new_at(1, 0);
    blockchain.add_block_at(0);
    assert_eq!(blockchain.chain.len(), 2);
    let added = &blockchain.chain[1];
    assert_eq!(added.index, 1);
    assert_eq!(added.timestamp, 0);
    assert_eq!(added.previous_hash, "");
    let mut expected = Block {
        index: 1,
        timestamp: 0,
        proof_of_work: 0,
        previous_hash: String::new(),
        hash: String::new(),
    };
    let mined = expected.mine(BlockChain::new_at(1, 0));
    assert_eq!(added.proof_of_work, mined.proof_of_work);
    assert_eq!(added.hash, mined.hash);
}

#[test]
fn add_block_at_leaves_the_chain_when_nothing_can_be_mined() {
    let mut blockchain = BlockChain::new_at(200, 7);
    blockchain.add_block_at(8);
    assert_eq!(blockchain.chain.len(), 1);
}

#[test]
fn chains_stay_consecutive() {
    let mut blockchain = BlockChain::new_at(1, 5);
    for k in 1..5u64 {
        blockchain.add_block_at(5 + k as i64);
        assert_eq!(blockchain.chain.len() as u64, k + 1);
    }
    for (i, block) in blockchain.chain.iter().enumerate() {
        assert_eq!(block.index, i as u64);
        assert_eq!(block.previous_hash, "");
    }
}

#[test]
fn received_blocks_without_a_hash_are_mined_and_announced() {
    let mut blockchain = BlockChain::new_at(1, 0);
    let block = Block {
        index: 0,
        timestamp: 0,
        proof_of_work: 0,
        previous_hash: String::new(),
        hash: String::new(),
    };
    let announced = blockchain.receive_block(block).expect("mineable");
    assert_eq!(announced.proof_of_work, 14);
    assert!(announced.hash.starts_with('0'));
    assert_eq!(blockchain.chain.len(), 2);
    assert_eq!(blockchain.chain[1].hash, announced.hash);
}

#[test]
fn received_blocks_with_a_hash_are_appended() {
    let mut blockchain = BlockChain::new_at(3, 0);
    let block = Block {
        index: 9,
        timestamp: 1,
        proof_of_work: 2,
        previous_hash: "x".to_string(),
        hash: "abc".to_string(),
    };
    assert!(blockchain.receive_block(block).is_none());
    assert_eq!(blockchain.chain.len(), 2);
    assert_eq!(blockchain.chain[1].hash, "abc");
    assert_eq!(blockchain.chain[1].index, 9);
}

#[test]
fn unmineable_received_blocks_are_dropped() {
    let mut blockchain = BlockChain::new_at(129, 0);
    let block = Block {
        index: 1,
        timestamp: 0,
        proof_of_work: 0,
        previous_hash: String::new(),
        hash: String::new(),
    };
    assert!(blockchain.receive_block(block).is_none());
    assert_eq!(blockchain.chain.len(), 1);
}
