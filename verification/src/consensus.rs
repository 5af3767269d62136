//! Agreement on the next block: once more than half of the peers have sent
//! a block, the hash sent most often wins, and the first block received with
//! that hash is the one taken.

use vstd::prelude::*;
use vstd::utf8::{encode_utf8, encode_utf8_decode_utf8};

use crate::block::Block;

verus! {

/// Byte-wise lexicographic order, the order of `String`s: a proper prefix
/// comes first, otherwise the first differing byte decides.
pub open spec fn byte_lt(a: Seq<u8>, b: Seq<u8>) -> bool
    decreases a.len(),
{
    if b.len() == 0 {
        false
    } else if a.len() == 0 {
        true
    } else if a[0] != b[0] {
        a[0] < b[0]
    } else {
        byte_lt(a.drop_first(), b.drop_first())
    }
}

/// Hash `a` sorts before hash `b` as strings do: by their UTF-8 bytes.
pub open spec fn hash_precedes(a: Seq<char>, b: Seq<char>) -> bool {
    byte_lt(encode_utf8(a), encode_utf8(b))
}

/// How many of the blocks carry the hash `h`.
pub open spec fn hash_votes(blocks: Seq<Block>, h: Seq<char>) -> nat
    decreases blocks.len(),
{
    if blocks.len() == 0 {
        0
    } else {
        hash_votes(blocks.drop_last(), h) + if blocks.last().hash@ == h {
            1nat
        } else {
            0nat
        }
    }
}

/// A hash's votes are the number of received blocks that carry it.
pub proof fn lemma_votes_count_blocks(blocks: Seq<Block>, h: Seq<char>)
    ensures
        hash_votes(blocks, h) == blocks.filter(|b: Block| b.hash@ == h).len(),
    decreases blocks.len(),
{
    reveal(Seq::filter);
    if blocks.len() > 0 {
        lemma_votes_count_blocks(blocks.drop_last(), h);
    }
}

/// The blocks whose hashes take part in breaking a tie: all but the last
/// one received, unless only one block was received.
pub open spec fn tie_pool(blocks: Seq<Block>) -> Seq<Block> {
    if blocks.len() >= 2 {
        blocks.drop_last()
    } else {
        blocks
    }
}

/// `h` is the hash the peers agree on: it is carried by a block of the tie
/// pool, no hash is carried by more blocks, and among the hashes of the tie
/// pool with as many blocks it sorts first.
pub open spec fn is_winning_hash(blocks: Seq<Block>, h: Seq<char>) -> bool {
    let pool = tie_pool(blocks);
    &&& exists|i: int| 0 <= i < pool.len() && #[trigger] pool[i].hash@ == h
    &&& forall|j: int|
        0 <= j < blocks.len() ==> hash_votes(blocks, #[trigger] blocks[j].hash@) <= hash_votes(
            blocks,
            h,
        )
    &&& forall|j: int|
        0 <= j < pool.len() && hash_votes(blocks, #[trigger] pool[j].hash@) == hash_votes(blocks, h)
            && pool[j].hash@ != h ==> hash_precedes(h, pool[j].hash@)
}

/// `a` and `b` agree on their first `k` bytes and then `a` comes first:
/// either `a` ends there and `b` goes on, or `a`'s byte there is smaller.
pub open spec fn first_difference_favours(a: Seq<u8>, b: Seq<u8>, k: int) -> bool {
    &&& 0 <= k <= a.len()
    &&& k <= b.len()
    &&& forall|j: int| 0 <= j < k ==> #[trigger] a[j] == b[j]
    &&& (k == a.len() && k < b.len()) || (k < a.len() && k < b.len() && a[k] < b[k])
}

/// The order of hashes is the lexicographic order of their bytes, read from
/// the front, which is how `String`s compare: `a` comes first exactly when,
/// at the first place they differ, `a`'s byte is smaller, or `a` is a proper
/// prefix of `b`.
pub proof fn lemma_byte_lt_is_lexicographic(a: Seq<u8>, b: Seq<u8>)
    ensures
        byte_lt(a, b) <==> exists|k: int| #[trigger] first_difference_favours(a, b, k),
    decreases a.len(),
{
    if a.len() > 0 && b.len() > 0 && a[0] == b[0] {
        let (ra, rb) = (a.drop_first(), b.drop_first());
        lemma_byte_lt_is_lexicographic(ra, rb);
        if byte_lt(a, b) {
            let k = choose|k: int| #[trigger] first_difference_favours(ra, rb, k);
            assert forall|j: int| 0 <= j < k + 1 implies #[trigger] a[j] == b[j] by {
                if j > 0 {
                    assert(ra[j - 1] == rb[j - 1]);
                }
            }
            assert(first_difference_favours(a, b, k + 1));
        }
        if exists|k: int| #[trigger] first_difference_favours(a, b, k) {
            let k = choose|k: int| #[trigger] first_difference_favours(a, b, k);
            if k == 0 {
                assert(false);
            } else {
                assert forall|j: int| 0 <= j < k - 1 implies #[trigger] ra[j] == rb[j] by {
                    assert(a[j + 1] == b[j + 1]);
                }
                assert(first_difference_favours(ra, rb, k - 1));
            }
        }
    } else {
        if byte_lt(a, b) {
            assert(first_difference_favours(a, b, 0));
        }
        if exists|k: int| #[trigger] first_difference_favours(a, b, k) {
            let k = choose|k: int| #[trigger] first_difference_favours(a, b, k);
            if k > 0 {
                assert(a[0] == b[0]);
            }
        }
    }
}

proof fn lemma_byte_lt_asymmetric(a: Seq<u8>, b: Seq<u8>)
    requires
        byte_lt(a, b),
    ensures
        !byte_lt(b, a),
    decreases a.len(),
{
    if a.len() > 0 && b.len() > 0 && a[0] == b[0] {
        lemma_byte_lt_asymmetric(a.drop_first(), b.drop_first());
    }
}

proof fn lemma_byte_lt_transitive(a: Seq<u8>, b: Seq<u8>, c: Seq<u8>)
    requires
        byte_lt(a, b),
        byte_lt(b, c),
    ensures
        byte_lt(a, c),
    decreases a.len(),
{
    if a.len() > 0 && b.len() > 0 && c.len() > 0 && a[0] == b[0] && b[0] == c[0] {
        lemma_byte_lt_transitive(a.drop_first(), b.drop_first(), c.drop_first());
    }
}

proof fn lemma_byte_lt_total(a: Seq<u8>, b: Seq<u8>)
    requires
        a != b,
    ensures
        byte_lt(a, b) || byte_lt(b, a),
    decreases a.len(),
{
    if a.len() > 0 && b.len() > 0 && a[0] == b[0] {
        if a.drop_first() == b.drop_first() {
            assert(a =~= seq![a[0]] + a.drop_first());
            assert(b =~= seq![b[0]] + b.drop_first());
        }
        lemma_byte_lt_total(a.drop_first(), b.drop_first());
    } else if a.len() == 0 && b.len() == 0 {
        assert(a =~= b);
    }
}

proof fn lemma_encode_injective(a: Seq<char>, b: Seq<char>)
    requires
        encode_utf8(a) == encode_utf8(b),
    ensures
        a == b,
{
    encode_utf8_decode_utf8(a);
    encode_utf8_decode_utf8(b);
}

/// No block carries a hash that none of them carries; a hash carried by a
/// block has at least that vote.
proof fn lemma_votes_of_present(blocks: Seq<Block>, j: int)
    requires
        0 <= j < blocks.len(),
    ensures
        hash_votes(blocks, blocks[j].hash@) >= 1,
    decreases blocks.len(),
{
    if j < blocks.len() - 1 {
        lemma_votes_of_present(blocks.drop_last(), j);
    }
}

proof fn lemma_votes_of_absent(blocks: Seq<Block>, h: Seq<char>)
    requires
        forall|j: int| 0 <= j < blocks.len() ==> #[trigger] blocks[j].hash@ != h,
    ensures
        hash_votes(blocks, h) == 0,
    decreases blocks.len(),
{
    if blocks.len() > 0 {
        lemma_votes_of_absent(blocks.drop_last(), h);
    }
}

/// The tie-break of the agreed hash is the string order: every other hash of
/// the tie pool carried by as many blocks differs from it first at a place
/// where its byte is larger, or has it as a proper prefix.
pub proof fn lemma_agreed_hash_sorts_first(blocks: Seq<Block>, h: Seq<char>)
    requires
        is_winning_hash(blocks, h),
    ensures
        forall|j: int|
            0 <= j < tie_pool(blocks).len() && hash_votes(blocks, #[trigger] tie_pool(blocks)[j].hash@)
                == hash_votes(blocks, h) && tie_pool(blocks)[j].hash@ != h ==> exists|k: int|
                first_difference_favours(
                    encode_utf8(h),
                    encode_utf8(tie_pool(blocks)[j].hash@),
                    k,
                ),
{
    assert forall|j: int|
        0 <= j < tie_pool(blocks).len() && hash_votes(blocks, #[trigger] tie_pool(blocks)[j].hash@)
            == hash_votes(blocks, h) && tie_pool(blocks)[j].hash@ != h implies exists|k: int|
            first_difference_favours(encode_utf8(h), encode_utf8(tie_pool(blocks)[j].hash@), k) by {
        lemma_byte_lt_is_lexicographic(encode_utf8(h), encode_utf8(tie_pool(blocks)[j].hash@));
    }
}

/// The agreed hash is unique: two hashes that both win are the same hash.
pub proof fn lemma_winning_hash_unique(blocks: Seq<Block>, h1: Seq<char>, h2: Seq<char>)
    requires
        is_winning_hash(blocks, h1),
        is_winning_hash(blocks, h2),
    ensures
        h1 == h2,
{
    let pool = tie_pool(blocks);
    let i1 = choose|i: int| 0 <= i < pool.len() && #[trigger] pool[i].hash@ == h1;
    let i2 = choose|i: int| 0 <= i < pool.len() && #[trigger] pool[i].hash@ == h2;
    assert(pool[i1] == blocks[i1]);
    assert(pool[i2] == blocks[i2]);
    assert(hash_votes(blocks, blocks[i1].hash@) <= hash_votes(blocks, h2));
    assert(hash_votes(blocks, blocks[i2].hash@) <= hash_votes(blocks, h1));
    if h1 != h2 {
        assert(hash_precedes(h1, pool[i2].hash@));
        assert(hash_precedes(h2, pool[i1].hash@));
        lemma_byte_lt_asymmetric(encode_utf8(h1), encode_utf8(h2));
    }
}

/// Whether `a` sorts before `b` byte-wise.
fn bytes_less(a: &[u8], b: &[u8]) -> (less: bool)
    ensures
        less == byte_lt(a@, b@),
{
    let mut i: usize = 0;
    assert(a@.skip(0) =~= a@);
    assert(b@.skip(0) =~= b@);
    while i < a.len() && i < b.len() && a[i] == b[i]
        invariant
            i <= a@.len(),
            i <= b@.len(),
            byte_lt(a@, b@) == byte_lt(a@.skip(i as int), b@.skip(i as int)),
        decreases a@.len() - i,
    {
        assert(a@.skip(i as int).drop_first() =~= a@.skip(i + 1));
        assert(b@.skip(i as int).drop_first() =~= b@.skip(i + 1));
        i = i + 1;
    }
    if i == b.len() {
        false
    } else if i == a.len() {
        true
    } else {
        a[i] < b[i]
    }
}

/// How many of the blocks carry `hash`.
fn count_votes(blocks: &Vec<Block>, hash: &String) -> (votes: usize)
    ensures
        votes == hash_votes(blocks@, hash@),
{
    let mut votes: usize = 0;
    let mut i: usize = 0;
    while i < blocks.len()
        invariant
            i <= blocks@.len(),
            votes <= i,
            votes == hash_votes(blocks@.take(i as int), hash@),
        decreases blocks@.len() - i,
    {
        assert(blocks@.take(i + 1).drop_last() =~= blocks@.take(i as int));
        if blocks[i].hash == *hash {
            votes = votes + 1;
        }
        i = i + 1;
    }
    assert(blocks@.take(blocks@.len() as int) =~= blocks@);
    votes
}

/// Decides which received block the peers agree on. Nothing is decided
/// until more than half of the `peer_count` peers have sent a block; then
/// the result is the index of the first block that carries the winning hash
/// (see `is_winning_hash`).
pub fn select_agreed_block(received_blocks: &Vec<Block>, peer_count: usize) -> (choice: Option<
    usize,
>)
    ensures
        choice is Some <==> received_blocks@.len() > peer_count / 2,
        choice matches Some(k) ==> {
            &&& k < received_blocks@.len()
            &&& is_winning_hash(received_blocks@, received_blocks@[k as int].hash@)
            &&& forall|j: int|
                0 <= j < k ==> #[trigger] received_blocks@[j].hash@ != received_blocks@[k as int].hash@
            &&& forall|j: int|
                0 <= j < tie_pool(received_blocks@).len() && hash_votes(
                    received_blocks@,
                    #[trigger] tie_pool(received_blocks@)[j].hash@,
                ) == hash_votes(received_blocks@, received_blocks@[k as int].hash@) && tie_pool(
                    received_blocks@,
                )[j].hash@ != received_blocks@[k as int].hash@ ==> exists|p: int|
                    first_difference_favours(
                        encode_utf8(received_blocks@[k as int].hash@),
                        encode_utf8(tie_pool(received_blocks@)[j].hash@),
                        p,
                    )
        },
{
    let n = received_blocks.len();
    if n <= peer_count / 2 {
        return None;
    }
    let ghost blocks = received_blocks@;
    let ghost pool = tie_pool(blocks);
    let pool_len = if n >= 2 {
        n - 1
    } else {
        n
    };
    assert(pool.len() == pool_len);
    let mut best: usize = 0;
    let mut best_votes = count_votes(received_blocks, &received_blocks[0].hash);
    proof {
        lemma_votes_of_present(blocks, 0);
    }
    let mut i: usize = 1;
    while i < pool_len
        invariant
            blocks == received_blocks@,
            pool == tie_pool(blocks),
            pool.len() == pool_len,
            pool_len <= n,
            n == blocks.len(),
            1 <= i <= pool_len,
            best < i,
            best_votes == hash_votes(blocks, blocks[best as int].hash@),
            forall|j: int|
                0 <= j < i ==> hash_votes(blocks, #[trigger] pool[j].hash@) <= best_votes,
            forall|j: int|
                0 <= j < i && hash_votes(blocks, #[trigger] pool[j].hash@) == best_votes
                    && pool[j].hash@ != blocks[best as int].hash@ ==> hash_precedes(
                    blocks[best as int].hash@,
                    pool[j].hash@,
                ),
        decreases pool_len - i,
    {
        assert(pool[i as int] == blocks[i as int]);
        let votes = count_votes(received_blocks, &received_blocks[i].hash);
        let earlier = bytes_less(
            received_blocks[i].hash.as_str().as_bytes(),
            received_blocks[best].hash.as_str().as_bytes(),
        );
        let ghost old_best = best;
        if votes > best_votes || (votes == best_votes && earlier) {
            best = i;
            best_votes = votes;
            proof {
                assert forall|j: int|
                    0 <= j < i + 1 && hash_votes(blocks, #[trigger] pool[j].hash@) == best_votes
                        && pool[j].hash@ != blocks[best as int].hash@ implies hash_precedes(
                    blocks[best as int].hash@,
                    pool[j].hash@,
                ) by {
                    if pool[j].hash@ != blocks[old_best as int].hash@ {
                        lemma_byte_lt_transitive(
                            encode_utf8(blocks[best as int].hash@),
                            encode_utf8(blocks[old_best as int].hash@),
                            encode_utf8(pool[j].hash@),
                        );
                    }
                }
            }
        } else {
            proof {
                if votes == best_votes && blocks[i as int].hash@ != blocks[best as int].hash@ {
                    if encode_utf8(blocks[i as int].hash@) == encode_utf8(blocks[best as int].hash@) {
                        lemma_encode_injective(blocks[i as int].hash@, blocks[best as int].hash@);
                    }
                    lemma_byte_lt_total(
                        encode_utf8(blocks[i as int].hash@),
                        encode_utf8(blocks[best as int].hash@),
                    );
                }
            }
        }
        i = i + 1;
    }
    proof {
        assert(pool[best as int] == blocks[best as int]);
        let last = blocks.len() - 1;
        if pool.len() < blocks.len() {
            if exists|j: int| 0 <= j < pool.len() && #[trigger] pool[j].hash@ == blocks[last].hash@ {
                let j = choose|j: int| 0 <= j < pool.len() && #[trigger] pool[j].hash@ == blocks[last].hash@;
                assert(hash_votes(blocks, pool[j].hash@) <= best_votes);
            } else {
                lemma_votes_of_absent(pool, blocks[last].hash@);
                lemma_votes_of_present(blocks, best as int);
            }
        }
        assert forall|j: int| 0 <= j < blocks.len() implies hash_votes(blocks, #[trigger] blocks[j].hash@)
            <= best_votes by {
            if j < pool.len() {
                assert(pool[j] == blocks[j]);
            }
        }
    }
    let mut k: usize = 0;
    while !(received_blocks[k].hash == received_blocks[best].hash)
        invariant
            blocks == received_blocks@,
            k <= best,
            best < n,
            n == blocks.len(),
            forall|j: int| 0 <= j < k ==> #[trigger] blocks[j].hash@ != blocks[best as int].hash@,
        decreases best - k,
    {
        k = k + 1;
    }
    assert(is_winning_hash(blocks, blocks[k as int].hash@));
    proof {
        lemma_agreed_hash_sorts_first(blocks, blocks[k as int].hash@);
    }
    Some(k)
}

} // verus!
