//! Blocks: their JSON encoding, their SHA3-512 hash and proof-of-work mining.

use vstd::prelude::*;
use vstd::string::*;
use vstd::utf8::encode_utf8;

use crate::blockchain::BlockChain;
use crate::json::{json_string, push_json_string};
use crate::primitives::{sha3_512, sha3_512_digest, utc_now_millis};
use crate::utils::{lemma_decimal_bytes_writes_decimal, writes_decimal};
use crate::text::{
    decimal_bytes, hex_char, hex_digit_value, hex_text, lemma_hex_text_reads_back, nibble, push_bytes,
    push_decimal, to_hex,
};

verus! {

/// One block of the chain.
#[derive(Debug)]
pub struct Block {
    pub index: u64,
    pub timestamp: u64,
    pub proof_of_work: u64,
    pub previous_hash: String,
    pub hash: String,
}

/// The compact JSON object that `serde_json` writes for a block, as UTF-8
/// bytes: its fields in declaration order, numbers in decimal, strings as
/// JSON string literals.
pub open spec fn json_bytes(b: Block) -> Seq<u8> {
    encode_utf8("{\"index\":"@) + decimal_bytes(b.index as nat)
        + encode_utf8(",\"timestamp\":"@) + decimal_bytes(b.timestamp as nat)
        + encode_utf8(",\"proof_of_work\":"@) + decimal_bytes(b.proof_of_work as nat)
        + encode_utf8(",\"previous_hash\":"@) + json_string(encode_utf8(b.previous_hash@))
        + encode_utf8(",\"hash\":"@) + json_string(encode_utf8(b.hash@))
        + encode_utf8("}"@)
}

/// The JSON encoding writes every field of the block in full, in
/// declaration order: the index, timestamp and proof of work each in
/// decimal (`writes_decimal`), the previous hash and the hash as JSON string
/// literals of their UTF-8 bytes.
pub proof fn lemma_json_writes_every_field(b: Block)
    ensures
        exists|index: Seq<u8>, timestamp: Seq<u8>, proof_of_work: Seq<u8>|
            #![trigger writes_decimal(index, b.index as nat), writes_decimal(timestamp, b.timestamp as nat), writes_decimal(proof_of_work, b.proof_of_work as nat)]
            {
                &&& writes_decimal(index, b.index as nat)
                &&& writes_decimal(timestamp, b.timestamp as nat)
                &&& writes_decimal(proof_of_work, b.proof_of_work as nat)
                &&& json_bytes(b) == encode_utf8("{\"index\":"@) + index + encode_utf8(
                    ",\"timestamp\":"@,
                ) + timestamp + encode_utf8(",\"proof_of_work\":"@) + proof_of_work + encode_utf8(
                    ",\"previous_hash\":"@,
                ) + json_string(encode_utf8(b.previous_hash@)) + encode_utf8(",\"hash\":"@)
                    + json_string(encode_utf8(b.hash@)) + encode_utf8("}"@)
            },
{
    lemma_decimal_bytes_writes_decimal(b.index as nat);
    lemma_decimal_bytes_writes_decimal(b.timestamp as nat);
    lemma_decimal_bytes_writes_decimal(b.proof_of_work as nat);
}

/// The SHA3-512 digest of the block's JSON encoding.
pub open spec fn block_digest(b: Block) -> Seq<u8> {
    sha3_512(json_bytes(b))
}

/// The block's hash as text: the digest in lower-case hexadecimal.
pub open spec fn block_hash_text(b: Block) -> Seq<char> {
    hex_text(block_digest(b))
}

/// The same block with another proof of work.
pub open spec fn with_nonce(b: Block, nonce: u64) -> Block {
    Block {
        index: b.index,
        timestamp: b.timestamp,
        proof_of_work: nonce,
        previous_hash: b.previous_hash,
        hash: b.hash,
    }
}

/// A hash meets a difficulty when its first `difficulty` characters are all `'0'`.
pub open spec fn meets_difficulty(hash: Seq<char>, difficulty: int) -> bool {
    &&& difficulty <= hash.len()
    &&& forall|i: int| 0 <= i < difficulty ==> hash[i] == '0'
}

/// Putting `nonce` into the block makes its hash meet the difficulty.
pub open spec fn solves(b: Block, nonce: u64, difficulty: int) -> bool {
    meets_difficulty(block_hash_text(with_nonce(b, nonce)), difficulty)
}

/// Some proof of work from the block's current one up to `u64::MAX` solves it.
pub open spec fn mineable(b: Block, difficulty: int) -> bool {
    exists|nonce: u64| b.proof_of_work <= nonce && #[trigger] solves(b, nonce, difficulty)
}

/// `nonce` is the first proof of work, counting up from the block's own, that solves it.
pub open spec fn first_solution(b: Block, nonce: u64, difficulty: int) -> bool {
    &&& b.proof_of_work <= nonce
    &&& solves(b, nonce, difficulty)
    &&& forall|m: u64| b.proof_of_work <= m < nonce ==> !#[trigger] solves(b, m, difficulty)
}

/// `mined` is `b` sealed with proof of work `nonce`: the other fields are kept
/// and the hash is the one computed with `nonce` in place.
pub open spec fn sealed(b: Block, nonce: u64, mined: Block) -> bool {
    &&& mined.index == b.index
    &&& mined.timestamp == b.timestamp
    &&& mined.proof_of_work == nonce
    &&& mined.previous_hash == b.previous_hash
    &&& mined.hash@ == block_hash_text(with_nonce(b, nonce))
}

/// Every hash meets difficulty 0: every block is mineable at difficulty 0,
/// and mining it there keeps its proof of work.
pub proof fn lemma_difficulty_zero(b: Block)
    ensures
        mineable(b, 0),
        first_solution(b, b.proof_of_work, 0),
{
    assert(solves(b, b.proof_of_work, 0));
}

/// A block's hash has 128 characters, so no block can be mined at a
/// difficulty above 128.
pub proof fn lemma_difficulty_above_hash_length(b: Block, difficulty: int)
    requires
        difficulty > 128,
    ensures
        !mineable(b, difficulty),
{
    assert forall|n: u64| b.proof_of_work <= n implies !#[trigger] solves(b, n, difficulty) by {
        assert(block_hash_text(with_nonce(b, n)).len() == 128);
    }
}

/// The hash of `b` with proof of work `nonce` starts with `difficulty` '0'
/// characters.
pub open spec fn zero_prefixed(b: Block, nonce: u64, difficulty: int) -> bool {
    &&& difficulty <= 128
    &&& forall|i: int| 0 <= i < difficulty ==> #[trigger] block_hash_text(with_nonce(b, nonce))[i] == '0'
}

/// Mining at a difficulty means leading zeros: the mined hash is 128
/// characters long and its first `difficulty` characters are '0'; every
/// proof of work tried before it, counting up from the block's own, gives a
/// hash with a character other than '0' among its first `difficulty`.
pub proof fn lemma_mined_hash_leading_zeros(b: Block, mined: Block, difficulty: int)
    requires
        first_solution(b, mined.proof_of_work, difficulty),
        sealed(b, mined.proof_of_work, mined),
    ensures
        mined.hash@.len() == 128,
        difficulty <= 128,
        forall|i: int| 0 <= i < difficulty ==> #[trigger] mined.hash@[i] == '0',
        forall|m: u64| b.proof_of_work <= m < mined.proof_of_work ==> !#[trigger] zero_prefixed(b, m, difficulty),
{
    assert forall|m: u64| b.proof_of_work <= m < mined.proof_of_work implies !#[trigger] zero_prefixed(
        b,
        m,
        difficulty,
    ) by {
        assert(!solves(b, m, difficulty));
        assert(block_hash_text(with_nonce(b, m)).len() == 128);
    }
}

/// No proof of work from the block's own up to `u64::MAX` gives a hash with
/// `difficulty` leading '0' characters exactly when the block is not mineable.
pub proof fn lemma_unmineable_means_no_zero_prefix(b: Block, difficulty: int)
    ensures
        !mineable(b, difficulty) <==> forall|m: u64| b.proof_of_work <= m ==> !#[trigger] zero_prefixed(
            b,
            m,
            difficulty,
        ),
{
    assert forall|m: u64| #[trigger] zero_prefixed(b, m, difficulty) <==> solves(b, m, difficulty) by {
        assert(block_hash_text(with_nonce(b, m)).len() == 128);
    }
    if mineable(b, difficulty) {
        let n = choose|n: u64| b.proof_of_work <= n && #[trigger] solves(b, n, difficulty);
        assert(zero_prefixed(b, n, difficulty));
    }
}

impl Clone for Block {
    fn clone(&self) -> (copy: Self)
        ensures
            copy == *self,
    {
        Block {
            index: self.index,
            timestamp: self.timestamp,
            proof_of_work: self.proof_of_work,
            previous_hash: self.previous_hash.clone(),
            hash: self.hash.clone(),
        }
    }
}

/// Whether the first `difficulty` hexadecimal digits of `digest` are zero.
fn digest_meets(digest: &[u8], difficulty: usize) -> (ok: bool)
    ensures
        ok == meets_difficulty(hex_text(digest@), difficulty as int),
{
    let len = digest.len();
    let mut i: usize = 0;
    while i < difficulty
        invariant
            i <= difficulty,
            i <= 2 * len,
            len == digest@.len(),
            forall|j: int| 0 <= j < i ==> hex_text(digest@)[j] == '0',
        decreases difficulty - i,
    {
        if i / 2 >= len {
            return false;
        }
        let b = digest[i / 2];
        let d = if i % 2 == 0 { b / 16 } else { b % 16 };
        assert(d as int == nibble(digest@, i as int));
        if d != 0 {
            assert(hex_text(digest@)[i as int] == hex_char(d as int));
            return false;
        }
        i = i + 1;
    }
    true
}

impl Block {
    /// The JSON encoding of this block with `nonce` as its proof of work.
    fn json_with_nonce(&self, nonce: u64) -> (json: Vec<u8>)
        ensures
            json@ == json_bytes(with_nonce(*self, nonce)),
    {
        let mut json: Vec<u8> = Vec::new();
        push_bytes(&mut json, "{\"index\":".as_bytes());
        push_decimal(&mut json, self.index);
        push_bytes(&mut json, ",\"timestamp\":".as_bytes());
        push_decimal(&mut json, self.timestamp);
        push_bytes(&mut json, ",\"proof_of_work\":".as_bytes());
        push_decimal(&mut json, nonce);
        push_bytes(&mut json, ",\"previous_hash\":".as_bytes());
        push_json_string(&mut json, self.previous_hash.as_str());
        push_bytes(&mut json, ",\"hash\":".as_bytes());
        push_json_string(&mut json, self.hash.as_str());
        push_bytes(&mut json, "}".as_bytes());
        assert(json@ =~= json_bytes(with_nonce(*self, nonce)));
        json
    }

    /// The digest of this block with `nonce` as its proof of work.
    fn digest_with_nonce(&self, nonce: u64) -> (digest: Vec<u8>)
        ensures
            digest@ == block_digest(with_nonce(*self, nonce)),
            digest@.len() == 64,
    {
        let json = self.json_with_nonce(nonce);
        let digest = sha3_512_digest(json.as_slice());
        assert(digest@ =~= sha3_512(json@));
        digest
    }

    /// The block's hash: SHA3-512 of its JSON encoding, in lower-case hexadecimal.
    pub fn calculate_hash(&self) -> (hash: String)
        ensures
            hash@ == block_hash_text(*self),
            hash@.len() == 128,
            forall|i: int|
                0 <= i < 64 ==> #[trigger] block_digest(*self)[i] == hex_digit_value(hash@[2 * i]) * 16
                    + hex_digit_value(hash@[2 * i + 1]),
    {
        let digest = self.digest_with_nonce(self.proof_of_work);
        assert(with_nonce(*self, self.proof_of_work) == *self);
        proof {
            lemma_hex_text_reads_back(digest@);
        }
        to_hex(&digest)
    }

    /// A fresh block at `index` with the given previous hash, stamped with
    /// the clock reading `now_millis` (milliseconds since the Unix epoch),
    /// with no proof of work and no hash yet.
    pub fn new_at(index: u64, previous_hash: String, now_millis: i64) -> (b: Self)
        ensures
            b.index == index,
            b.timestamp == now_millis as u64,
            b.proof_of_work == 0,
            b.previous_hash == previous_hash,
            b.hash@ == Seq::<char>::empty(),
    {
        Block {
            index,
            timestamp: now_millis as u64,
            proof_of_work: 0,
            previous_hash,
            hash: String::new(),
        }
    }

    /// A fresh block at `index` with the given previous hash, stamped with
    /// the current time, with no proof of work and no hash yet.
    pub fn new(index: u64, previous_hash: String) -> (b: Self)
        ensures
            b.index == index,
            b.proof_of_work == 0,
            b.previous_hash == previous_hash,
            b.hash@ == Seq::<char>::empty(),
    {
        Block::new_at(index, previous_hash, utc_now_millis())
    }

    /// Counts the proof of work up from its current value until the block's
    /// hash starts with `blockhain.difficulty` zeros, then stores that hash.
    /// Returns a copy of the mined block.
    ///
    /// Counting past `u64::MAX` overflows, so the block must be mineable:
    /// `try_mine` takes any block.
    pub fn mine(&mut self, blockhain: BlockChain) -> (mined: Self)
        requires
            mineable(*old(self), blockhain.difficulty as int),
        ensures
            first_solution(*old(self), mined.proof_of_work, blockhain.difficulty as int),
            sealed(*old(self), mined.proof_of_work, mined),
            meets_difficulty(mined.hash@, blockhain.difficulty as int),
            blockhain.difficulty <= 128,
            forall|i: int| 0 <= i < blockhain.difficulty ==> #[trigger] mined.hash@[i] == '0',
            forall|m: u64|
                old(self).proof_of_work <= m < mined.proof_of_work ==> !#[trigger] zero_prefixed(
                    *old(self),
                    m,
                    blockhain.difficulty as int,
                ),
            *final(self) == mined,
    {
        let difficulty = blockhain.difficulty;
        let ghost original = *self;
        let mut digest = self.digest_with_nonce(self.proof_of_work);
        proof {
            assert(with_nonce(original, self.proof_of_work) == original);
        }
        while !digest_meets(&digest, difficulty)
            invariant
                original.proof_of_work <= self.proof_of_work,
                *self == with_nonce(original, self.proof_of_work),
                digest@ == block_digest(with_nonce(original, self.proof_of_work)),
                mineable(original, difficulty as int),
                forall|m: u64|
                    original.proof_of_work <= m < self.proof_of_work ==> !#[trigger] solves(
                        original,
                        m,
                        difficulty as int,
                    ),
            decreases u64::MAX - self.proof_of_work,
        {
            proof {
                let n = choose|n: u64|
                    original.proof_of_work <= n && #[trigger] solves(original, n, difficulty as int);
                assert(!solves(original, self.proof_of_work, difficulty as int));
                assert(n > self.proof_of_work);
            }
            self.proof_of_work = self.proof_of_work + 1;
            digest = self.digest_with_nonce(self.proof_of_work);
            proof {
                assert(with_nonce(*self, self.proof_of_work) == with_nonce(original, self.proof_of_work));
            }
        }
        self.hash = to_hex(&digest);
        let mined = self.clone();
        proof {
            lemma_mined_hash_leading_zeros(original, mined, difficulty as int);
        }
        mined
    }

    /// Mines the block as `mine` does when some proof of work from the
    /// current one up to `u64::MAX` solves it; otherwise returns `None` and
    /// leaves the block as it was.
    pub fn try_mine(&mut self, blockhain: BlockChain) -> (mined: Option<Self>)
        ensures
            mined is Some <==> mineable(*old(self), blockhain.difficulty as int),
            mined matches Some(m) ==> {
                &&& first_solution(*old(self), m.proof_of_work, blockhain.difficulty as int)
                &&& sealed(*old(self), m.proof_of_work, m)
                &&& meets_difficulty(m.hash@, blockhain.difficulty as int)
                &&& forall|i: int| 0 <= i < blockhain.difficulty ==> #[trigger] m.hash@[i] == '0'
                &&& forall|n: u64|
                    old(self).proof_of_work <= n < m.proof_of_work ==> !#[trigger] zero_prefixed(
                        *old(self),
                        n,
                        blockhain.difficulty as int,
                    )
                &&& *final(self) == m
            },
            mined is None ==> *final(self) == *old(self),
            mined is None ==> forall|n: u64|
                old(self).proof_of_work <= n ==> !#[trigger] zero_prefixed(
                    *old(self),
                    n,
                    blockhain.difficulty as int,
                ),
    {
        let difficulty = blockhain.difficulty;
        let ghost original = *self;
        if difficulty > 128 {
            proof {
                lemma_difficulty_above_hash_length(original, difficulty as int);
                lemma_unmineable_means_no_zero_prefix(original, difficulty as int);
            }
            return None;
        }
        let mut nonce = self.proof_of_work;
        loop
            invariant
                *self == original,
                difficulty == blockhain.difficulty,
                original.proof_of_work <= nonce,
                forall|m: u64|
                    original.proof_of_work <= m < nonce ==> !#[trigger] solves(
                        original,
                        m,
                        difficulty as int,
                    ),
            ensures
                *self == original,
                first_solution(original, nonce, difficulty as int),
            decreases u64::MAX - nonce,
        {
            let digest = self.digest_with_nonce(nonce);
            if digest_meets(&digest, difficulty) {
                break;
            }
            if nonce == u64::MAX {
                proof {
                    assert forall|n: u64|
                        original.proof_of_work <= n implies !#[trigger] solves(
                            original,
                            n,
                            difficulty as int,
                        ) by {
                        if n == nonce {
                            assert(!solves(original, nonce, difficulty as int));
                        }
                    }
                    assert(!mineable(original, difficulty as int));
                    lemma_unmineable_means_no_zero_prefix(original, difficulty as int);
                }
                return None;
            }
            nonce = nonce + 1;
        }
        self.proof_of_work = nonce;
        proof {
            assert(with_nonce(*self, nonce) == with_nonce(original, nonce));
            assert(solves(*self, nonce, difficulty as int));
            assert(mineable(original, difficulty as int));
        }
        let mined = self.mine(blockhain);
        proof {
            assert(with_nonce(with_nonce(original, nonce), mined.proof_of_work)
                == with_nonce(original, mined.proof_of_work));
            if mined.proof_of_work > nonce {
                assert(with_nonce(with_nonce(original, nonce), nonce) == with_nonce(original, nonce));
                assert(!solves(with_nonce(original, nonce), nonce, difficulty as int));
            }
            lemma_mined_hash_leading_zeros(original, mined, difficulty as int);
        }
        Some(mined)
    }
}

} // verus!
