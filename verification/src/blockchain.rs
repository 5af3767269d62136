//! The chain of blocks.

use vstd::prelude::*;

use crate::block::{first_solution, meets_difficulty, mineable, sealed, Block};
use crate::primitives::utc_now_millis;

verus! {

/// A chain of blocks that starts with its genesis block.
#[derive(Debug)]
pub struct BlockChain {
    pub genesis_block: Block,
    pub chain: Vec<Block>,
    pub difficulty: usize,
}

/// `b` is a block as `Block::new` makes it for position `index` of a chain:
/// no proof of work and no hash yet (its timestamp is the time it was made).
pub open spec fn unmined_successor(b: Block, index: u64, previous_hash: String) -> bool {
    &&& b.index == index
    &&& b.proof_of_work == 0
    &&& b.previous_hash == previous_hash
    &&& b.hash@ == Seq::<char>::empty()
}

/// `mined` is `b` mined at the given difficulty: sealed with the first proof
/// of work that makes its hash start with `difficulty` zeros.
pub open spec fn mined_from(b: Block, mined: Block, difficulty: int) -> bool {
    &&& first_solution(b, mined.proof_of_work, difficulty)
    &&& sealed(b, mined.proof_of_work, mined)
}

/// What adding a block stamped `timestamp` does to a chain: the next block
/// (index = the chain's length, previous hash = the last block's previous
/// hash) is mined and appended; where no proof of work up to `u64::MAX`
/// solves it, the chain is left as it was.
pub open spec fn extends_by_one(before: Seq<Block>, after: Seq<Block>, difficulty: int, timestamp: u64) -> bool {
    let index = before.len() as u64;
    let previous_hash = before.last().previous_hash;
    exists|b: Block|
        #[trigger] unmined_successor(b, index, previous_hash) && b.timestamp == timestamp && {
            ||| exists|mined: Block| #[trigger] mined_from(b, mined, difficulty) && after == before.push(mined)
            ||| !mineable(b, difficulty) && after == before
        }
}

/// The blocks are numbered 0, 1, 2, ... in order and all carry the first
/// block's previous hash.
pub open spec fn consecutive(chain: Seq<Block>) -> bool {
    &&& chain.len() >= 1
    &&& forall|i: int|
        0 <= i < chain.len() ==> (#[trigger] chain[i]).index == i && chain[i].previous_hash
            == chain[0].previous_hash
}

/// Adding a block keeps a chain consecutive and its first block, and makes it
/// at most one block longer.
pub proof fn lemma_extends_keeps_consecutive(
    before: Seq<Block>,
    after: Seq<Block>,
    difficulty: int,
    timestamp: u64,
)
    requires
        consecutive(before),
        before.len() <= u64::MAX,
        extends_by_one(before, after, difficulty, timestamp),
    ensures
        consecutive(after),
        after[0] == before[0],
        before.len() <= after.len() <= before.len() + 1,
        after.take(before.len() as int) == before,
{
    let index = before.len() as u64;
    let previous_hash = before.last().previous_hash;
    let b = choose|b: Block|
        #[trigger] unmined_successor(b, index, previous_hash) && b.timestamp == timestamp && {
            ||| exists|mined: Block| #[trigger] mined_from(b, mined, difficulty) && after == before.push(mined)
            ||| !mineable(b, difficulty) && after == before
        };
    if after != before {
        let mined = choose|mined: Block| #[trigger] mined_from(b, mined, difficulty) && after == before.push(mined);
        assert(after[before.len() as int] == mined);
        assert forall|i: int| 0 <= i < after.len() implies (#[trigger] after[i]).index == i
            && after[i].previous_hash == after[0].previous_hash by {
            if i < before.len() {
                assert(after[i] == before[i]);
            } else {
                assert(before[before.len() - 1].previous_hash == before[0].previous_hash);
            }
        }
    }
    assert(after.take(before.len() as int) =~= before);
}

/// Starting from a chain of one genesis block numbered 0 with an empty
/// previous hash, after `k` additions (`chains[0]`, ..., `chains[k]`, each
/// adding a block stamped `stamps[i]`) the chain has at most `k + 1` blocks,
/// numbered 0 to its length minus one, all with an empty previous hash, and
/// still starts with the genesis block; when every addition appended a
/// block, it has exactly `k + 1`.
pub proof fn lemma_chain_after_additions(chains: Seq<Seq<Block>>, difficulty: int, stamps: Seq<u64>)
    requires
        chains.len() >= 1,
        chains.len() <= u64::MAX,
        stamps.len() == chains.len() - 1,
        chains[0].len() == 1,
        chains[0][0].index == 0,
        chains[0][0].previous_hash@ == Seq::<char>::empty(),
        forall|i: int|
            0 <= i < chains.len() - 1 ==> extends_by_one(
                #[trigger] chains[i],
                chains[i + 1],
                difficulty,
                stamps[i],
            ),
    ensures
        consecutive(chains.last()),
        chains.last()[0] == chains[0][0],
        chains.last().len() <= chains.len(),
        forall|i: int|
            0 <= i < chains.last().len() ==> (#[trigger] chains.last()[i]).previous_hash@
                == Seq::<char>::empty(),
        (forall|i: int| 0 <= i < chains.len() - 1 ==> #[trigger] chains[i + 1].len() == chains[i].len() + 1)
            ==> chains.last().len() == chains.len(),
    decreases chains.len(),
{
    if chains.len() == 1 {
        assert(consecutive(chains[0]));
    } else {
        let front = chains.drop_last();
        let k = chains.len() - 1;
        assert forall|i: int| 0 <= i < front.len() - 1 implies extends_by_one(
            #[trigger] front[i],
            front[i + 1],
            difficulty,
            stamps.drop_last()[i],
        ) by {
            assert(front[i] == chains[i]);
            assert(front[i + 1] == chains[i + 1]);
        }
        lemma_chain_after_additions(front, difficulty, stamps.drop_last());
        assert(front.last() == chains[k - 1]);
        assert(extends_by_one(chains[k - 1], chains[k], difficulty, stamps[k - 1]));
        lemma_extends_keeps_consecutive(chains[k - 1], chains[k], difficulty, stamps[k - 1]);
        if forall|i: int| 0 <= i < chains.len() - 1 ==> #[trigger] chains[i + 1].len() == chains[i].len() + 1 {
            assert forall|i: int| 0 <= i < front.len() - 1 implies #[trigger] front[i + 1].len()
                == front[i].len() + 1 by {
                assert(chains[i + 1].len() == chains[i].len() + 1);
            }
            assert(chains[k].len() == chains[k - 1].len() + 1);
        }
    }
}

impl Clone for BlockChain {
    fn clone(&self) -> (copy: Self)
        ensures
            copy.genesis_block == self.genesis_block,
            copy.chain@ == self.chain@,
            copy.difficulty == self.difficulty,
    {
        let chain = self.chain.clone();
        assert(chain@ =~= self.chain@);
        BlockChain { genesis_block: self.genesis_block.clone(), chain, difficulty: self.difficulty }
    }
}

impl BlockChain {
    /// A chain that holds only its genesis block: index 0, stamped with the
    /// clock reading `now_millis`, with no proof of work, no previous hash and
    /// no hash.
    pub fn new_at(difficulty: usize, now_millis: i64) -> (blockchain: Self)
        ensures
            blockchain.difficulty == difficulty,
            blockchain.chain@ == seq![blockchain.genesis_block],
            blockchain.genesis_block.index == 0,
            blockchain.genesis_block.timestamp == now_millis as u64,
            blockchain.genesis_block.proof_of_work == 0,
            blockchain.genesis_block.previous_hash@ == Seq::<char>::empty(),
            blockchain.genesis_block.hash@ == Seq::<char>::empty(),
            consecutive(blockchain.chain@),
    {
        let genesis_block = Block {
            index: 0,
            timestamp: now_millis as u64,
            proof_of_work: 0,
            previous_hash: String::new(),
            hash: String::new(),
        };
        let chain = vec![genesis_block.clone()];
        BlockChain { genesis_block, chain, difficulty }
    }

    /// A chain that holds only its genesis block, stamped with the current time.
    pub fn new(difficulty: usize) -> (blockchain: Self)
        ensures
            blockchain.difficulty == difficulty,
            blockchain.chain@ == seq![blockchain.genesis_block],
            blockchain.genesis_block.index == 0,
            blockchain.genesis_block.proof_of_work == 0,
            blockchain.genesis_block.previous_hash@ == Seq::<char>::empty(),
            blockchain.genesis_block.hash@ == Seq::<char>::empty(),
            consecutive(blockchain.chain@),
    {
        BlockChain::new_at(difficulty, utc_now_millis())
    }

    /// Makes the next block stamped `now_millis` (its index is the chain's
    /// length, its previous hash that of the last block's `previous_hash`),
    /// mines it at the chain's difficulty and appends it. When no proof of
    /// work up to `u64::MAX` solves that block, the chain is left as it was.
    pub fn add_block_at(&mut self, now_millis: i64)
        requires
            old(self).chain@.len() > 0,
        ensures
            final(self).genesis_block == old(self).genesis_block,
            final(self).difficulty == old(self).difficulty,
            extends_by_one(
                old(self).chain@,
                final(self).chain@,
                old(self).difficulty as int,
                now_millis as u64,
            ),
            final(self).chain@.len() == old(self).chain@.len() + 1 ==> meets_difficulty(
                final(self).chain@.last().hash@,
                old(self).difficulty as int,
            ),
            final(self).chain@.take(old(self).chain@.len() as int) == old(self).chain@,
            consecutive(old(self).chain@) ==> consecutive(final(self).chain@),
    {
        let len = self.chain.len();
        let previous_hash = self.chain[len - 1].previous_hash.clone();
        let mut block = Block::new_at(len as u64, previous_hash, now_millis);
        let ghost fresh = block;
        let snapshot = self.clone();
        match block.try_mine(snapshot) {
            Some(mined) => {
                self.chain.push(mined);
                assert(unmined_successor(fresh, len as u64, old(self).chain@.last().previous_hash));
                assert(mined_from(fresh, mined, self.difficulty as int));
            },
            None => {
                assert(unmined_successor(fresh, len as u64, old(self).chain@.last().previous_hash));
            },
        }
        assert(self.chain@.take(len as int) =~= old(self).chain@);
        proof {
            if consecutive(old(self).chain@) {
                lemma_extends_keeps_consecutive(
                    old(self).chain@,
                    self.chain@,
                    self.difficulty as int,
                    now_millis as u64,
                );
            }
        }
    }

    /// `add_block_at` with the current time.
    pub fn add_block(&mut self)
        requires
            old(self).chain@.len() > 0,
        ensures
            final(self).genesis_block == old(self).genesis_block,
            final(self).difficulty == old(self).difficulty,
            exists|timestamp: u64|
                extends_by_one(
                    old(self).chain@,
                    final(self).chain@,
                    old(self).difficulty as int,
                    timestamp,
                ),
            final(self).chain@.len() == old(self).chain@.len() + 1 ==> meets_difficulty(
                final(self).chain@.last().hash@,
                old(self).difficulty as int,
            ),
            final(self).chain@.take(old(self).chain@.len() as int) == old(self).chain@,
            consecutive(old(self).chain@) ==> consecutive(final(self).chain@),
    {
        let now = utc_now_millis();
        self.add_block_at(now);
    }

    /// Takes in a block sent by a peer. A block without a hash is mined at
    /// the chain's difficulty, appended and returned, to be announced; when
    /// no proof of work from its own up to `u64::MAX` solves it, the chain
    /// is left as it was. A block with a hash is appended as it is.
    pub fn receive_block(&mut self, block: Block) -> (announce: Option<Block>)
        ensures
            final(self).genesis_block == old(self).genesis_block,
            final(self).difficulty == old(self).difficulty,
            block.hash@.len() == 0 && mineable(block, old(self).difficulty as int) ==> {
                &&& announce matches Some(mined)
                &&& mined_from(block, mined, old(self).difficulty as int)
                &&& final(self).chain@ == old(self).chain@.push(mined)
            },
            block.hash@.len() == 0 && !mineable(block, old(self).difficulty as int) ==> {
                &&& announce is None
                &&& final(self).chain@ == old(self).chain@
            },
            block.hash@.len() > 0 ==> {
                &&& announce is None
                &&& final(self).chain@ == old(self).chain@.push(block)
            },
    {
        let mut block = block;
        let empty = String::new();
        proof {
            if block.hash@.len() == 0 {
                assert(block.hash@ =~= empty@);
            }
        }
        if block.hash == empty {
            let snapshot = self.clone();
            match block.try_mine(snapshot) {
                Some(mined) => {
                    self.chain.push(mined.clone());
                    Some(mined)
                },
                None => None,
            }
        } else {
            self.chain.push(block);
            None
        }
    }
}

} // verus!
