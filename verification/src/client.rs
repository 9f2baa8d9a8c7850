//! The blockchain client interface and the queries that it answers on top of
//! the raw data a client provides: gas price statistics over recent blocks and
//! the gas limit of the DAO soft-fork block.

use vstd::prelude::*;
use crate::sort::{ascending, lemma_sort_ascending_permutation, sort_words, spec_sort};
use crate::types::{Address, BlockChainInfo, BlockID, BlockNumber, BlockStatus, Bytes, H2048, H256};
use crate::u256::U256;
use crate::rlp::{rlp_at, spec_rlp_at, spec_rlp_list};
use crate::views::{
    block_gas_prices, header_gas_limit, header_number, header_parent_hash, spec_block_gas_prices,
    spec_header_gas_limit, spec_header_number, spec_header_parent_hash, spec_tx_gas_price,
};

verus! {

/// Number of the block at which the DAO rescue soft fork applies.
pub const SOFT_FORK_BLOCK: u64 = 1800000;

/// Options concerning what analytics we run on the call.
#[derive(Clone, Copy, Debug, PartialEq, Eq, Structural)]
pub struct CallAnalytics {
    /// Make a transaction trace.
    pub transaction_tracing: bool,
    /// Make a VM trace.
    pub vm_tracing: bool,
    /// Make a diff.
    pub state_diffing: bool,
}

impl Default for CallAnalytics {
    fn default() -> (r: CallAnalytics)
        ensures
            !r.transaction_tracing && !r.vm_tracing && !r.state_diffing,
    {
        CallAnalytics { transaction_tracing: false, vm_tracing: false, state_diffing: false }
    }
}

/// The numbers that the words of `c` denote.
pub open spec fn values_of(c: Seq<U256>) -> Seq<nat> {
    Seq::new(c.len(), |i: int| c[i].value())
}

/// The gas price distribution of `corpus`: `distribution_size + 1` samples of the
/// sorted corpus, the i-th at position `i * (n - 1) / distribution_size`; `None`
/// for an empty corpus.
pub open spec fn spec_distribution(corpus: Seq<U256>, distribution_size: nat) -> Option<Seq<U256>> {
    let n = corpus.len();
    if n == 0 {
        None
    } else {
        let sorted = spec_sort(corpus);
        Some(Seq::new(distribution_size + 1, |i: int| sorted[i * (n - 1) / (distribution_size as int)]))
    }
}

/// The distribution holds `distribution_size + 1` words, in ascending order, each
/// one of the corpus; its first is the least and its last the greatest word.
pub proof fn lemma_distribution_shape(corpus: Seq<U256>, distribution_size: nat)
    requires
        distribution_size > 0,
        corpus.len() > 0,
    ensures
        spec_distribution(corpus, distribution_size) matches Some(v) && {
            &&& v.len() == distribution_size + 1
            &&& ascending(v)
            &&& forall|i: int| 0 <= i < v.len() ==> corpus.contains(#[trigger] v[i])
            &&& forall|j: int| 0 <= j < corpus.len() ==> v[0].value() <= #[trigger] corpus[j].value()
                && corpus[j].value() <= v[v.len() - 1].value()
        },
{
    broadcast use vstd::seq_lib::group_to_multiset_ensures;

    let n = corpus.len() as int;
    let d = distribution_size as int;
    let sorted = spec_sort(corpus);
    lemma_sort_ascending_permutation(corpus);
    let v = spec_distribution(corpus, distribution_size).unwrap();
    assert forall|i: int| 0 <= i <= d implies 0 <= #[trigger] (i * (n - 1) / d) <= n - 1 by {
        lemma_index_in_range(i, n, d);
    }
    assert forall|i: int, j: int| 0 <= i <= j < v.len() implies v[i].value() <= v[j].value() by {
        lemma_index_monotonic(i, j, n, d);
        lemma_index_in_range(i, n, d);
        lemma_index_in_range(j, n, d);
    }
    assert forall|i: int| 0 <= i < v.len() implies corpus.contains(#[trigger] v[i]) by {
        lemma_index_in_range(i, n, d);
        let k = i * (n - 1) / d;
        assert(sorted.to_multiset().count(sorted[k]) > 0);
    }
    assert forall|j: int| 0 <= j < corpus.len() implies v[0].value() <= #[trigger] corpus[j].value()
        && corpus[j].value() <= v[v.len() - 1].value() by {
        assert(corpus.to_multiset().count(corpus[j]) > 0);
        let m = choose|m: int| 0 <= m < sorted.len() && sorted[m] == corpus[j];
        assert(0 * (n - 1) / d == 0);
        assert(d * (n - 1) / d == n - 1) by {
            vstd::arithmetic::div_mod::lemma_div_multiples_vanish(n - 1, d);
            vstd::arithmetic::mul::lemma_mul_is_commutative(d, n - 1);
        }
    }
}

/// Sample `i` of the distribution is the word at position
/// `i * (n - 1) / distribution_size` of the corpus put in ascending order, `n`
/// being the number of words in the corpus, repeats counted: any ascending
/// arrangement of the corpus's words, as often as they occur, gives the samples.
pub proof fn lemma_distribution_samples(corpus: Seq<U256>, sorted: Seq<U256>, distribution_size: nat)
    requires
        corpus.len() > 0,
        distribution_size > 0,
        ascending(sorted),
        sorted.to_multiset() == corpus.to_multiset(),
    ensures
        sorted.len() == corpus.len(),
        spec_distribution(corpus, distribution_size) matches Some(v) && v.len() == distribution_size + 1
            && forall|i: int|
            0 <= i <= distribution_size ==> #[trigger] v[i] == sorted[i * (corpus.len() - 1) / (
            distribution_size as int)],
{
    lemma_sort_ascending_permutation(corpus);
    crate::sort::lemma_ascending_unique(spec_sort(corpus), sorted);
    vstd::seq_lib::to_multiset_len(sorted);
    vstd::seq_lib::to_multiset_len(corpus);
}

/// Whether the word `w` lies below `x` (strictly when `strict`, else at most `x`).
pub open spec fn under(w: U256, x: nat, strict: bool) -> bool {
    if strict {
        w.value() < x
    } else {
        w.value() <= x
    }
}

/// How many words of `s`, repeats counted, lie below `x` (strictly when
/// `strict`, else at most `x`).
pub open spec fn count_under(s: Seq<U256>, x: nat, strict: bool) -> nat
    decreases s.len(),
{
    if s.len() == 0 {
        0
    } else {
        count_under(s.drop_last(), x, strict) + if under(s.last(), x, strict) {
            1nat
        } else {
            0nat
        }
    }
}

/// Removing the word at `j` takes it out of the count.
proof fn lemma_count_remove(s: Seq<U256>, j: int, x: nat, strict: bool)
    requires
        0 <= j < s.len(),
    ensures
        count_under(s, x, strict) == count_under(s.remove(j), x, strict) + if under(s[j], x, strict) {
            1nat
        } else {
            0nat
        },
    decreases s.len(),
{
    if j == s.len() - 1 {
        assert(s.remove(j) =~= s.drop_last());
    } else {
        let r = s.remove(j);
        lemma_count_remove(s.drop_last(), j, x, strict);
        assert(r.drop_last() =~= s.drop_last().remove(j));
        assert(r.last() == s.last());
    }
}

/// Counts depend only on which words a sequence holds and how often.
proof fn lemma_count_multiset(s1: Seq<U256>, s2: Seq<U256>, x: nat, strict: bool)
    requires
        s1.to_multiset() == s2.to_multiset(),
    ensures
        count_under(s1, x, strict) == count_under(s2, x, strict),
    decreases s1.len(),
{
    broadcast use vstd::seq_lib::group_to_multiset_ensures;

    vstd::seq_lib::to_multiset_len(s1);
    vstd::seq_lib::to_multiset_len(s2);
    if s1.len() > 0 {
        let w = s1.last();
        let a = s1.drop_last();
        assert(a.push(w) =~= s1);
        assert(s1.to_multiset().count(w) > 0);
        assert(s2.contains(w));
        let j = choose|j: int| 0 <= j < s2.len() && s2[j] == w;
        let b = s2.remove(j);
        assert(b.to_multiset() =~= a.to_multiset());
        lemma_count_multiset(a, b, x, strict);
        lemma_count_remove(s2, j, x, strict);
    }
}

/// A count is at most the length.
proof fn lemma_count_len(s: Seq<U256>, x: nat, strict: bool)
    ensures
        count_under(s, x, strict) <= s.len(),
        (forall|i: int| 0 <= i < s.len() ==> under(#[trigger] s[i], x, strict)) ==> count_under(s, x, strict)
            == s.len(),
    decreases s.len(),
{
    if s.len() > 0 {
        lemma_count_len(s.drop_last(), x, strict);
        if forall|i: int| 0 <= i < s.len() ==> under(#[trigger] s[i], x, strict) {
            assert forall|i: int| 0 <= i < s.drop_last().len() implies under(
                #[trigger] s.drop_last()[i],
                x,
                strict,
            ) by {
                assert(under(s[i], x, strict));
            }
            assert(under(s[s.len() - 1], x, strict));
        }
    }
}

/// In ascending words the word at `k` has at most `k` words strictly below it
/// and more than `k` words at most equal to it.
proof fn lemma_count_rank(s: Seq<U256>, k: int)
    requires
        ascending(s),
        0 <= k < s.len(),
    ensures
        count_under(s, s[k].value(), true) <= k,
        k < count_under(s, s[k].value(), false),
    decreases s.len(),
{
    let x = s[k].value();
    let t = s.drop_last();
    assert(ascending(t)) by {
        assert forall|i: int, j: int| 0 <= i <= j < t.len() implies t[i].value() <= t[j].value() by {
            assert(t[i] == s[i] && t[j] == s[j]);
        }
    }
    if k == s.len() - 1 {
        lemma_count_len(t, x, true);
        assert forall|i: int| 0 <= i < t.len() implies under(#[trigger] t[i], x, false) by {
            assert(t[i] == s[i]);
        }
        lemma_count_len(t, x, false);
    } else {
        assert(t[k] == s[k]);
        lemma_count_rank(t, k);
        assert(s.last().value() >= x);
    }
}

/// Sample `i` of the distribution is a word of the corpus whose rank in the
/// corpus, repeats counted, is `i * (n - 1) / distribution_size` (`n` the
/// corpus length): at most that many words of the corpus are below it, and more
/// than that many are at most equal to it.
pub proof fn lemma_distribution_rank(corpus: Seq<U256>, distribution_size: nat)
    requires
        corpus.len() > 0,
        distribution_size > 0,
    ensures
        spec_distribution(corpus, distribution_size) matches Some(v) && v.len() == distribution_size + 1
            && forall|i: int|
            0 <= i <= distribution_size ==> {
                let k = i * (corpus.len() - 1) / (distribution_size as int);
                &&& corpus.contains(#[trigger] v[i])
                &&& count_under(corpus, v[i].value(), true) <= k
                &&& k < count_under(corpus, v[i].value(), false)
            },
{
    let n = corpus.len() as int;
    let d = distribution_size as int;
    let sorted = spec_sort(corpus);
    lemma_sort_ascending_permutation(corpus);
    lemma_distribution_shape(corpus, distribution_size);
    let v = spec_distribution(corpus, distribution_size).unwrap();
    assert forall|i: int| 0 <= i <= distribution_size implies {
        let k = i * (corpus.len() - 1) / (distribution_size as int);
        &&& corpus.contains(#[trigger] v[i])
        &&& count_under(corpus, v[i].value(), true) <= k
        &&& k < count_under(corpus, v[i].value(), false)
    } by {
        let k = i * (n - 1) / d;
        lemma_index_in_range(i, n, d);
        assert(v[i] == sorted[k]);
        lemma_count_rank(sorted, k);
        lemma_count_multiset(sorted, corpus, v[i].value(), true);
        lemma_count_multiset(sorted, corpus, v[i].value(), false);
    }
}

/// The distribution depends only on which words the corpus holds and how often,
/// not on their order.
pub proof fn lemma_distribution_multiset(c1: Seq<U256>, c2: Seq<U256>, distribution_size: nat)
    requires
        c1.to_multiset() == c2.to_multiset(),
    ensures
        spec_distribution(c1, distribution_size) == spec_distribution(c2, distribution_size),
{
    broadcast use vstd::seq_lib::group_to_multiset_ensures;

    lemma_sort_ascending_permutation(c1);
    lemma_sort_ascending_permutation(c2);
    crate::sort::lemma_ascending_unique(spec_sort(c1), spec_sort(c2));
    vstd::seq_lib::to_multiset_len(c1);
    vstd::seq_lib::to_multiset_len(c2);
}

/// The sample index `i * (n - 1) / d` stays inside the corpus.
proof fn lemma_index_in_range(i: int, n: int, d: int)
    requires
        0 <= i <= d,
        d > 0,
        n > 0,
    ensures
        0 <= i * (n - 1) / d <= n - 1,
{
    assert(0 <= i * (n - 1) <= d * (n - 1)) by (nonlinear_arith)
        requires
            0 <= i <= d,
            n > 0,
    ;
    vstd::arithmetic::div_mod::lemma_div_is_ordered(i * (n - 1), d * (n - 1), d);
    vstd::arithmetic::div_mod::lemma_div_multiples_vanish(n - 1, d);
    vstd::arithmetic::mul::lemma_mul_is_commutative(d, n - 1);
    vstd::arithmetic::div_mod::lemma_div_pos_is_pos(i * (n - 1), d);
}

/// Sample indices grow with the sample number.
proof fn lemma_index_monotonic(i: int, j: int, n: int, d: int)
    requires
        0 <= i <= j,
        d > 0,
        n > 0,
    ensures
        i * (n - 1) / d <= j * (n - 1) / d,
{
    assert(i * (n - 1) <= j * (n - 1)) by (nonlinear_arith)
        requires
            0 <= i <= j,
            n > 0,
    ;
    vstd::arithmetic::div_mod::lemma_div_is_ordered(i * (n - 1), j * (n - 1), d);
}

/// Computes the gas price distribution of `corpus`: sorts it and takes
/// `distribution_size + 1` evenly spaced samples, from the least to the greatest
/// price. An empty corpus has no distribution.
pub fn gas_price_distribution(corpus: &Vec<U256>, distribution_size: usize) -> (r: Result<Vec<U256>, ()>)
    requires
        corpus.len() > 0 ==> 0 < distribution_size < usize::MAX,
    ensures
        match r {
            Ok(v) => spec_distribution(corpus@, distribution_size as nat) == Some(v@),
            Err(_) => corpus.len() == 0 && spec_distribution(corpus@, distribution_size as nat) is None,
        },
{
    let n = corpus.len();
    if n == 0 {
        return Err(());
    }
    let sorted = sort_words(corpus);
    proof {
        lemma_sort_ascending_permutation(corpus@);
    }
    let ghost expected = spec_distribution(corpus@, distribution_size as nat).unwrap();
    let mut out: Vec<U256> = Vec::new();
    let mut i: usize = 0;
    while i <= distribution_size
        invariant
            0 <= i <= distribution_size + 1,
            distribution_size < usize::MAX,
            0 < distribution_size,
            n == corpus.len() > 0,
            sorted@ == spec_sort(corpus@),
            sorted.len() == n,
            expected == spec_distribution(corpus@, distribution_size as nat).unwrap(),
            expected.len() == distribution_size + 1,
            out@ == expected.subrange(0, i as int),
        decreases distribution_size + 1 - i,
    {
        proof {
            let a = i as nat;
            let b = (n - 1) as nat;
            assert(a <= usize::MAX && b <= usize::MAX);
            assert(usize::MAX <= u64::MAX);
            assert(a * b <= u64::MAX as nat * u64::MAX as nat) by (nonlinear_arith)
                requires
                    a <= u64::MAX,
                    b <= u64::MAX,
            ;
            assert(u64::MAX as nat * u64::MAX as nat <= u128::MAX) by (nonlinear_arith);
        }
        let prod: u128 = (i as u128) * ((n - 1) as u128);
        let idx128: u128 = prod / (distribution_size as u128);
        proof {
            lemma_index_in_range(i as int, n as int, distribution_size as int);
        }
        let idx: usize = idx128 as usize;
        out.push(sorted[idx]);
        proof {
            assert(out@ =~= expected.subrange(0, i + 1));
        }
        i = i + 1;
    }
    proof {
        assert(expected.subrange(0, expected.len() as int) =~= expected);
    }
    Ok(out)
}

/// What one block tells the gas price walk: `None` where the walk stops, else
/// the parent hash and the block's transaction gas prices. Of the header only
/// the number and the parent hash are read: the walk stops at the genesis block
/// (number zero) before its transactions are read, and at a block whose header
/// number, transactions or parent hash cannot be read.
pub open spec fn spec_walk_step(block: Seq<u8>) -> Option<(Seq<u8>, Seq<nat>)> {
    match spec_rlp_at(block, 0) {
        None => None,
        Some(h) => match spec_header_number(h) {
            None => None,
            Some(n) => if n == 0 {
                None
            } else {
                match (spec_block_gas_prices(block), spec_header_parent_hash(h)) {
                    (Some(prices), Some(parent)) => Some((parent, prices)),
                    _ => None,
                }
            },
        },
    }
}

/// The words that hold the numbers `s`.
pub open spec fn words_of(s: Seq<nat>) -> Seq<U256> {
    Seq::new(s.len(), |i: int| U256::from_nat(s[i]))
}

/// The gas prices that the walk collects, in walking order, when it goes through
/// at most `k` more blocks starting at the block with hash `h`, reading blocks
/// from `blocks` (block data by block id). It stops at a block that is missing
/// or cannot be read, and at the genesis block, whose prices it does not take.
pub open spec fn spec_gas_walk(blocks: spec_fn(BlockID) -> Option<Seq<u8>>, h: H256, k: nat) -> Seq<nat>
    decreases k,
{
    if k == 0 {
        Seq::empty()
    } else {
        match blocks(BlockID::Hash(h)) {
            None => Seq::empty(),
            Some(b) => match spec_walk_step(b) {
                None => Seq::empty(),
                Some((parent, prices)) => prices + spec_gas_walk(blocks, hash_of(parent), (k - 1) as nat),
            },
        }
    }
}

/// The gas prices of the transactions `txs`, one per transaction, in order.
pub open spec fn prices_per_transaction(txs: Seq<Seq<u8>>) -> Seq<nat> {
    Seq::new(txs.len(), |i: int| spec_tx_gas_price(txs[i]).unwrap())
}

/// A readable block that is not the genesis block goes on to its parent and
/// hands on one gas price per transaction of its list, in order, repeats kept,
/// however many transactions it has (none included).
pub proof fn lemma_walk_step_goes_on(block: Seq<u8>, header: Seq<u8>, txs: Seq<Seq<u8>>, parent: Seq<u8>)
    requires
        spec_rlp_at(block, 0) == Some(header),
        spec_header_number(header) matches Some(n) && n != 0,
        spec_header_parent_hash(header) == Some(parent),
        spec_rlp_at(block, 1) matches Some(l) && spec_rlp_list(l) == Some(txs),
        forall|i: int| 0 <= i < txs.len() ==> spec_tx_gas_price(#[trigger] txs[i]) is Some,
    ensures
        spec_walk_step(block) == Some((parent, prices_per_transaction(txs))),
        prices_per_transaction(txs).len() == txs.len(),
{
    crate::views::lemma_block_gas_prices_one_per_transaction(block, txs);
}

/// The walk through a readable block that is not the genesis block collects the
/// block's prices, one per transaction (none for an empty block), followed by
/// what the walk from its parent collects.
pub proof fn lemma_gas_walk_goes_on(
    blocks: spec_fn(BlockID) -> Option<Seq<u8>>,
    h: H256,
    k: nat,
    block: Seq<u8>,
    header: Seq<u8>,
    txs: Seq<Seq<u8>>,
    parent: Seq<u8>,
)
    requires
        blocks(BlockID::Hash(h)) == Some(block),
        spec_rlp_at(block, 0) == Some(header),
        spec_header_number(header) matches Some(n) && n != 0,
        spec_header_parent_hash(header) == Some(parent),
        spec_rlp_at(block, 1) matches Some(l) && spec_rlp_list(l) == Some(txs),
        forall|i: int| 0 <= i < txs.len() ==> spec_tx_gas_price(#[trigger] txs[i]) is Some,
    ensures
        spec_gas_walk(blocks, h, k + 1) == prices_per_transaction(txs) + spec_gas_walk(blocks, hash_of(parent), k),
{
    lemma_walk_step_goes_on(block, header, txs, parent);
}

/// The walk collects nothing at the genesis block: neither its prices nor
/// anything beyond it.
pub proof fn lemma_gas_walk_stops_at_genesis(
    blocks: spec_fn(BlockID) -> Option<Seq<u8>>,
    h: H256,
    k: nat,
    block: Seq<u8>,
    header: Seq<u8>,
)
    requires
        blocks(BlockID::Hash(h)) == Some(block),
        spec_rlp_at(block, 0) == Some(header),
        spec_header_number(header) == Some(0nat),
    ensures
        spec_gas_walk(blocks, h, k) == Seq::<nat>::empty(),
{
}

/// Two price sequences with the same prices, as often, give words with the same
/// words, as often.
proof fn lemma_words_multiset(s1: Seq<nat>, s2: Seq<nat>)
    requires
        s1.to_multiset() == s2.to_multiset(),
    ensures
        words_of(s1).to_multiset() == words_of(s2).to_multiset(),
    decreases s1.len(),
{
    broadcast use vstd::seq_lib::group_to_multiset_ensures;

    vstd::seq_lib::to_multiset_len(s1);
    vstd::seq_lib::to_multiset_len(s2);
    if s1.len() == 0 {
        assert(words_of(s1) =~= words_of(s2));
    } else {
        let x = s1.last();
        let a = s1.drop_last();
        assert(a.push(x) =~= s1);
        assert(s1.to_multiset().count(x) > 0);
        assert(s2.contains(x));
        let j = choose|j: int| 0 <= j < s2.len() && s2[j] == x;
        let b = s2.remove(j);
        assert(b.to_multiset() =~= a.to_multiset());
        lemma_words_multiset(a, b);
        assert(words_of(s1) =~= words_of(a).push(U256::from_nat(x)));
        assert(words_of(b) =~= words_of(s2).remove(j));
        assert(words_of(s2)[j] == U256::from_nat(x));
        assert(words_of(s2).to_multiset() =~= words_of(b).to_multiset().insert(U256::from_nat(x)));
    }
}

/// Gas price statistics depend only on which prices the walks collect, and how
/// often: two clients whose walks (from their best blocks, over at most
/// `sample_size` blocks) collect the same prices, in any order and split
/// between blocks in any way, get the same statistics.
pub proof fn lemma_gas_statistics_same_prices(
    blocks1: spec_fn(BlockID) -> Option<Seq<u8>>,
    best1: H256,
    blocks2: spec_fn(BlockID) -> Option<Seq<u8>>,
    best2: H256,
    sample_size: nat,
    distribution_size: nat,
)
    requires
        spec_gas_walk(blocks1, best1, sample_size).to_multiset() == spec_gas_walk(
            blocks2,
            best2,
            sample_size,
        ).to_multiset(),
    ensures
        spec_distribution(words_of(spec_gas_walk(blocks1, best1, sample_size)), distribution_size)
            == spec_distribution(words_of(spec_gas_walk(blocks2, best2, sample_size)), distribution_size),
{
    let w1 = spec_gas_walk(blocks1, best1, sample_size);
    let w2 = spec_gas_walk(blocks2, best2, sample_size);
    lemma_words_multiset(w1, w2);
    lemma_distribution_multiset(words_of(w1), words_of(w2), distribution_size);
}

/// The prices that the gas price walk of client `c` collects from its best
/// block over at most `sample_size` blocks (what `gas_price_statistics` samples).
pub open spec fn client_gas_walk<C: BlockChainClient>(c: &C, sample_size: nat) -> Seq<nat> {
    spec_gas_walk(|id: BlockID| opt_bytes(c.spec_block(id)), c.spec_chain_info().best_block_hash, sample_size)
}

/// The same law for two clients: where their walks collect the same gas prices,
/// as often, `gas_price_statistics` answers both with the same result, whatever
/// the order of the prices and however they are split between blocks.
pub proof fn lemma_client_gas_statistics_same_prices<C1: BlockChainClient, C2: BlockChainClient>(
    c1: &C1,
    c2: &C2,
    sample_size: nat,
    distribution_size: nat,
)
    requires
        client_gas_walk(c1, sample_size).to_multiset() == client_gas_walk(c2, sample_size).to_multiset(),
    ensures
        spec_distribution(words_of(client_gas_walk(c1, sample_size)), distribution_size) == spec_distribution(
            words_of(client_gas_walk(c2, sample_size)),
            distribution_size,
        ),
        spec_distribution(
            words_of(
                spec_gas_walk(
                    |id: BlockID| opt_bytes(c1.spec_block(id)),
                    c1.spec_chain_info().best_block_hash,
                    sample_size,
                ),
            ),
            distribution_size,
        ) == spec_distribution(
            words_of(
                spec_gas_walk(
                    |id: BlockID| opt_bytes(c2.spec_block(id)),
                    c2.spec_chain_info().best_block_hash,
                    sample_size,
                ),
            ),
            distribution_size,
        ),
{
    lemma_gas_statistics_same_prices(
        |id: BlockID| opt_bytes(c1.spec_block(id)),
        c1.spec_chain_info().best_block_hash,
        |id: BlockID| opt_bytes(c2.spec_block(id)),
        c2.spec_chain_info().best_block_hash,
        sample_size,
        distribution_size,
    );
}

/// The result of a distribution query as an optional sequence.
pub open spec fn distribution_result(r: Result<Vec<U256>, ()>) -> Option<Seq<U256>> {
    match r {
        Ok(v) => Some(v@),
        Err(_) => None,
    }
}

/// One step of the gas price walk over an encoded block: `None` where the walk
/// stops, else the parent hash to go on with and the block's gas prices.
pub fn gas_walk_step(block: &[u8]) -> (r: Option<(H256, Vec<U256>)>)
    ensures
        match r {
            None => spec_walk_step(block@) is None,
            Some((parent, prices)) => spec_walk_step(block@) == Some((parent.0@, values_of(prices@))),
        },
{
    let h = match rlp_at(block, 0) {
        None => return None,
        Some(v) => v,
    };
    let number = match header_number(h.as_slice()) {
        None => return None,
        Some(n) => n,
    };
    if number == 0 {
        return None;
    }
    let prices = match block_gas_prices(block) {
        None => return None,
        Some(ps) => ps,
    };
    let parent = match header_parent_hash(h.as_slice()) {
        None => return None,
        Some(p) => p,
    };
    proof {
        assert(values_of(prices@) =~= spec_block_gas_prices(block@).unwrap());
    }
    Some((parent, prices))
}

/// What one header tells the DAO rescue walk.
#[derive(Clone, Copy, Debug)]
pub enum DaoStep {
    /// The walk is over, with this answer.
    Done(Option<U256>),
    /// Go on with the parent, which has this hash.
    Parent(H256),
}

/// The DAO rescue walk's decision on an encoded header, reading only the fields
/// it needs: the soft-fork block gives its gas limit (none when that cannot be
/// read); any other block sends the walk to its parent. A header whose number
/// or, off the soft-fork block, whose parent hash cannot be read ends the walk
/// with no answer. `None` means: go on with the parent.
pub open spec fn spec_dao_step(header: Seq<u8>) -> Option<Option<nat>> {
    match spec_header_number(header) {
        None => Some(None),
        Some(n) => if n == SOFT_FORK_BLOCK {
            Some(spec_header_gas_limit(header))
        } else {
            match spec_header_parent_hash(header) {
                None => Some(None),
                Some(_) => None,
            }
        },
    }
}

/// Decides the DAO rescue walk's next move on an encoded header.
pub fn dao_step(header: &[u8]) -> (r: DaoStep)
    ensures
        match r {
            DaoStep::Done(a) => spec_dao_step(header@) == Some(opt_value(a)),
            DaoStep::Parent(p) => spec_dao_step(header@) is None && spec_header_parent_hash(header@)
                == Some(p.0@),
        },
{
    let number = match header_number(header) {
        None => return DaoStep::Done(None),
        Some(n) => n,
    };
    if number == SOFT_FORK_BLOCK {
        return DaoStep::Done(header_gas_limit(header));
    }
    match header_parent_hash(header) {
        None => DaoStep::Done(None),
        Some(p) => DaoStep::Parent(p),
    }
}

/// The bytes of an optional byte vector.
pub open spec fn opt_bytes(o: Option<Bytes>) -> Option<Seq<u8>> {
    match o {
        Some(v) => Some(v@),
        None => None,
    }
}

/// The number of an optional word.
pub open spec fn opt_value(o: Option<U256>) -> Option<nat> {
    match o {
        Some(w) => Some(w.value()),
        None => None,
    }
}

/// The hash made of the 32 bytes `s`.
pub open spec fn hash_of(s: Seq<u8>) -> H256 {
    H256(choose|a: [u8; 32]| #[trigger] a.view() == s)
}

/// A hash is the hash made of its own bytes.
pub proof fn lemma_hash_of_bytes(h: H256)
    ensures
        hash_of(h.0@) == h,
{
    broadcast use vstd::array::group_array_axioms;

    let a = choose|a: [u8; 32]| #[trigger] a.view() == h.0@;
    assert(a@ == h.0@);
    assert forall|i: int| 0 <= i < 32 implies a[i] == h.0[i] by {
        assert(a@[i] == h.0@[i]);
    }
    assert(a =~= h.0);
}

/// The answer of the DAO rescue walk from the header encoding `header`, going
/// through at most `fuel` more parents, which it reads from `headers` (header
/// data by block id): the walk's decision on this header (see `spec_dao_step`),
/// else none when the client has no header for the parent hash, else the walk
/// from the parent.
pub open spec fn spec_dao_walk(headers: spec_fn(BlockID) -> Option<Seq<u8>>, header: Seq<u8>, fuel: nat) -> Option<nat>
    decreases fuel,
{
    match spec_dao_step(header) {
        Some(a) => a,
        None => if fuel == 0 {
            None
        } else {
            match headers(BlockID::Hash(hash_of(spec_header_parent_hash(header).unwrap()))) {
                None => None,
                Some(ph) => spec_dao_walk(headers, ph, (fuel - 1) as nat),
            }
        },
    }
}

/// Whether the DAO rescue walk from `header` ends within `fuel` parents: at a
/// header on which it decides, or at a parent hash for which the client has no
/// header.
pub open spec fn spec_dao_walk_ends(headers: spec_fn(BlockID) -> Option<Seq<u8>>, header: Seq<u8>, fuel: nat) -> bool
    decreases fuel,
{
    match spec_dao_step(header) {
        Some(_) => true,
        None => fuel > 0 && match headers(BlockID::Hash(hash_of(spec_header_parent_hash(header).unwrap()))) {
            None => true,
            Some(ph) => spec_dao_walk_ends(headers, ph, (fuel - 1) as nat),
        },
    }
}

/// A number of parents within which the DAO rescue walk from `header` ends,
/// where there is one.
pub open spec fn spec_dao_fuel(headers: spec_fn(BlockID) -> Option<Seq<u8>>, header: Seq<u8>) -> nat {
    choose|fuel: nat| spec_dao_walk_ends(headers, header, fuel)
}

/// Whether the DAO rescue query on a client's data comes to an end: it does
/// unless the walk from the header with hash `chain_hash` goes on forever
/// (through parents whose numbers never reach the soft-fork block, such as a
/// header that is its own parent).
pub open spec fn spec_dao_rescue_ends(
    info: BlockChainInfo,
    headers: spec_fn(BlockID) -> Option<Seq<u8>>,
    chain_hash: H256,
) -> bool {
    ||| info.best_block_number > SOFT_FORK_BLOCK + 1000
    ||| match headers(BlockID::Hash(chain_hash)) {
        None => true,
        Some(h) => match spec_header_number(h) {
            None => true,
            Some(n) => n < SOFT_FORK_BLOCK || exists|fuel: nat| #[trigger] spec_dao_walk_ends(headers, h, fuel),
        },
    }
}

/// The gas limit of the soft-fork block as a client's data give it (`info`, and
/// header data by block id `headers`): from the canonical header of that number
/// when the best block is more than 1000 blocks past it, else, when the header
/// with hash `chain_hash` is not below the soft-fork block, from the walk that
/// starts there.
pub open spec fn spec_dao_rescue(
    info: BlockChainInfo,
    headers: spec_fn(BlockID) -> Option<Seq<u8>>,
    chain_hash: H256,
) -> Option<nat> {
    if info.best_block_number > SOFT_FORK_BLOCK + 1000 {
        match headers(BlockID::Number(SOFT_FORK_BLOCK)) {
            Some(h) => spec_header_gas_limit(h),
            None => None,
        }
    } else {
        match headers(BlockID::Hash(chain_hash)) {
            None => None,
            Some(h) => match spec_header_number(h) {
                None => None,
                Some(n) => if n < SOFT_FORK_BLOCK {
                    None
                } else {
                    spec_dao_walk(headers, h, spec_dao_fuel(headers, h))
                },
            },
        }
    }
}

/// Without a long canonical chain the block under `chain_hash` decides: when
/// the best block is at most 1000 blocks past block 1800000 and the header under
/// `chain_hash` is numbered below 1800000, there is no answer.
pub proof fn lemma_dao_rescue_below_soft_fork(
    info: BlockChainInfo,
    headers: spec_fn(BlockID) -> Option<Seq<u8>>,
    chain_hash: H256,
    header: Seq<u8>,
)
    requires
        info.best_block_number <= 1801000,
        headers(BlockID::Hash(chain_hash)) == Some(header),
        spec_header_number(header) matches Some(n) && n < 1800000,
    ensures
        spec_dao_rescue(info, headers, chain_hash) is None,
{
}

/// Without a long canonical chain, a header under `chain_hash` that is the
/// soft-fork block itself answers with its own gas limit.
pub proof fn lemma_dao_rescue_at_soft_fork(
    info: BlockChainInfo,
    headers: spec_fn(BlockID) -> Option<Seq<u8>>,
    chain_hash: H256,
    header: Seq<u8>,
)
    requires
        info.best_block_number <= 1801000,
        headers(BlockID::Hash(chain_hash)) == Some(header),
        spec_header_number(header) == Some(1800000nat),
    ensures
        spec_dao_rescue(info, headers, chain_hash) == spec_header_gas_limit(header),
{
}

/// With the best block more than 1000 blocks past block 1800000, the answer is
/// the gas limit of the canonical header numbered 1800000, whatever `chain_hash`
/// is; none when there is no such header or its gas limit cannot be read.
pub proof fn lemma_dao_rescue_canonical(
    info: BlockChainInfo,
    headers: spec_fn(BlockID) -> Option<Seq<u8>>,
    chain_hash: H256,
)
    requires
        info.best_block_number > 1801000,
    ensures
        spec_dao_rescue(info, headers, chain_hash) == match headers(BlockID::Number(1800000)) {
            Some(h) => spec_header_gas_limit(h),
            None => None,
        },
{
}

/// A walk that ends gives the same answer whatever room it is given beyond that.
pub proof fn lemma_dao_walk_fuel(headers: spec_fn(BlockID) -> Option<Seq<u8>>, header: Seq<u8>, f1: nat, f2: nat)
    requires
        spec_dao_walk_ends(headers, header, f1),
        f1 <= f2,
    ensures
        spec_dao_walk_ends(headers, header, f2),
        spec_dao_walk(headers, header, f1) == spec_dao_walk(headers, header, f2),
    decreases f1,
{
    if spec_dao_step(header) is None {
        match headers(BlockID::Hash(hash_of(spec_header_parent_hash(header).unwrap()))) {
            None => {},
            Some(ph) => {
                lemma_dao_walk_fuel(headers, ph, (f1 - 1) as nat, (f2 - 1) as nat);
            },
        }
    }
}

/// Two bounds within which a walk ends give the same answer.
pub proof fn lemma_dao_walk_same_answer(headers: spec_fn(BlockID) -> Option<Seq<u8>>, header: Seq<u8>, f1: nat, f2: nat)
    requires
        spec_dao_walk_ends(headers, header, f1),
        spec_dao_walk_ends(headers, header, f2),
    ensures
        spec_dao_walk(headers, header, f1) == spec_dao_walk(headers, header, f2),
{
    if f1 <= f2 {
        lemma_dao_walk_fuel(headers, header, f1, f2);
    } else {
        lemma_dao_walk_fuel(headers, header, f2, f1);
    }
}

/// The walk passes through every header not numbered 1800000, whatever its
/// number (below, above, or out of order with its child): from such a header
/// whose parent hash reads and whose parent header is present, the walk ends and
/// answers exactly as the walk from the parent does.
pub proof fn lemma_dao_walk_passes_through(
    headers: spec_fn(BlockID) -> Option<Seq<u8>>,
    header: Seq<u8>,
    parent_header: Seq<u8>,
    fuel: nat,
)
    requires
        spec_header_number(header) matches Some(n) && n != 1800000,
        spec_header_parent_hash(header) matches Some(p) && headers(BlockID::Hash(hash_of(p))) == Some(
            parent_header,
        ),
        spec_dao_walk_ends(headers, parent_header, fuel),
    ensures
        spec_dao_walk_ends(headers, header, fuel + 1),
        spec_dao_walk(headers, header, fuel + 1) == spec_dao_walk(headers, parent_header, fuel),
{
}

/// The walk stops at the header numbered 1800000 and answers with its gas limit
/// (none when that cannot be read), whatever lies beyond it.
pub proof fn lemma_dao_walk_stops_at_soft_fork(
    headers: spec_fn(BlockID) -> Option<Seq<u8>>,
    header: Seq<u8>,
    fuel: nat,
)
    requires
        spec_header_number(header) == Some(1800000nat),
    ensures
        spec_dao_walk_ends(headers, header, fuel),
        spec_dao_walk(headers, header, fuel) == spec_header_gas_limit(header),
{
}

/// Without a long canonical chain, a header under `chain_hash` numbered above
/// block 1800000 passes the question on to its parent, whatever the parent's
/// number: the answer is the one the walk from the parent gives, and the gas
/// limit of the header itself plays no part.
pub proof fn lemma_dao_rescue_asks_parent(
    info: BlockChainInfo,
    headers: spec_fn(BlockID) -> Option<Seq<u8>>,
    chain_hash: H256,
    header: Seq<u8>,
    parent_header: Seq<u8>,
    fuel: nat,
)
    requires
        info.best_block_number <= 1801000,
        headers(BlockID::Hash(chain_hash)) == Some(header),
        spec_header_number(header) matches Some(n) && n > 1800000,
        spec_header_parent_hash(header) matches Some(p) && headers(BlockID::Hash(hash_of(p))) == Some(
            parent_header,
        ),
        spec_dao_walk_ends(headers, parent_header, fuel),
    ensures
        spec_dao_rescue(info, headers, chain_hash) == spec_dao_walk(headers, parent_header, fuel),
{
    let f = spec_dao_fuel(headers, header);
    assert(spec_dao_walk_ends(headers, header, fuel + 1));
    assert(spec_dao_walk_ends(headers, header, f));
    lemma_dao_walk_same_answer(headers, header, f, fuel + 1);
}

/// Without a long canonical chain, a header under `chain_hash` numbered above
/// block 1800000 whose parent hash has no header gives no answer.
pub proof fn lemma_dao_rescue_missing_parent(
    info: BlockChainInfo,
    headers: spec_fn(BlockID) -> Option<Seq<u8>>,
    chain_hash: H256,
    header: Seq<u8>,
)
    requires
        info.best_block_number <= 1801000,
        headers(BlockID::Hash(chain_hash)) == Some(header),
        spec_header_number(header) matches Some(n) && n > 1800000,
        spec_header_parent_hash(header) matches Some(p) && headers(BlockID::Hash(hash_of(p))) is None,
    ensures
        spec_dao_rescue(info, headers, chain_hash) is None,
{
    let f = spec_dao_fuel(headers, header);
    assert(spec_dao_walk_ends(headers, header, 1));
    assert(spec_dao_walk_ends(headers, header, f));
}

/// Blockchain database client. Owns and manages a blockchain and a block queue.
///
/// The `spec_*` functions name what the client's data are; the methods return
/// them. Each client defines them for its own data.
pub trait BlockChainClient: Sync + Send {
    /// The raw header data that this client holds for a block id.
    spec fn spec_block_header(&self, id: BlockID) -> Option<Bytes>;

    /// The raw block data that this client holds for a block id.
    spec fn spec_block(&self, id: BlockID) -> Option<Bytes>;

    /// The nonce of an address at a block that this client reports.
    spec fn spec_nonce(&self, address: Address, id: BlockID) -> Option<U256>;

    /// The balance of an address at a block that this client reports.
    spec fn spec_balance(&self, address: Address, id: BlockID) -> Option<U256>;

    /// The storage value at a position of an address at a block that this client reports.
    spec fn spec_storage_at(&self, address: Address, position: H256, id: BlockID) -> Option<H256>;

    /// The blockchain information that this client reports.
    spec fn spec_chain_info(&self) -> BlockChainInfo;

    /// Get raw block header data by block id.
    fn block_header(&self, id: BlockID) -> (r: Option<Bytes>)
        ensures
            r == self.spec_block_header(id),
    ;

    /// Get raw block body data by block id.
    /// Block body is an RLP list of two items: uncles and transactions.
    fn block_body(&self, id: BlockID) -> Option<Bytes>;

    /// Get raw block data by block header hash.
    fn block(&self, id: BlockID) -> (r: Option<Bytes>)
        ensures
            r == self.spec_block(id),
    ;

    /// Get block status by block header hash.
    fn block_status(&self, id: BlockID) -> BlockStatus;

    /// Get block total difficulty.
    fn block_total_difficulty(&self, id: BlockID) -> Option<U256>;

    /// Attempt to get address nonce at given block.
    /// May not fail on BlockID::Latest.
    fn nonce(&self, address: &Address, id: BlockID) -> (r: Option<U256>)
        ensures
            r == self.spec_nonce(*address, id),
            id is Latest ==> r is Some,
    ;

    /// Get address nonce at the latest block's state.
    fn latest_nonce(&self, address: &Address) -> (r: U256)
        ensures
            self.spec_nonce(*address, BlockID::Latest) == Some(r),
    {
        match self.nonce(address, BlockID::Latest) {
            Some(n) => n,
            None => {
                proof {
                    assert(false);
                }
                U256::zero()
            },
        }
    }

    /// Get block hash.
    fn block_hash(&self, id: BlockID) -> Option<H256>;

    /// Get address code.
    fn code(&self, address: &Address) -> Option<Bytes>;

    /// Get address balance at the given block's state.
    ///
    /// May not return None if given BlockID::Latest.
    /// Returns None if and only if the block's root hash has been pruned from the DB.
    fn balance(&self, address: &Address, id: BlockID) -> (r: Option<U256>)
        ensures
            r == self.spec_balance(*address, id),
            id is Latest ==> r is Some,
    ;

    /// Get address balance at the latest block's state.
    fn latest_balance(&self, address: &Address) -> (r: U256)
        ensures
            self.spec_balance(*address, BlockID::Latest) == Some(r),
    {
        match self.balance(address, BlockID::Latest) {
            Some(b) => b,
            None => {
                proof {
                    assert(false);
                }
                U256::zero()
            },
        }
    }

    /// Get value of the storage at given position at the given block's state.
    ///
    /// May not return None if given BlockID::Latest.
    /// Returns None if and only if the block's root hash has been pruned from the DB.
    fn storage_at(&self, address: &Address, position: &H256, id: BlockID) -> (r: Option<H256>)
        ensures
            r == self.spec_storage_at(*address, *position, id),
            id is Latest ==> r is Some,
    ;

    /// Get value of the storage at given position at the latest block's state.
    fn latest_storage_at(&self, address: &Address, position: &H256) -> (r: H256)
        ensures
            self.spec_storage_at(*address, *position, BlockID::Latest) == Some(r),
    {
        match self.storage_at(address, position, BlockID::Latest) {
            Some(v) => v,
            None => {
                proof {
                    assert(false);
                }
                H256::zero()
            },
        }
    }

    /// Get all possible uncle hashes for a block.
    fn find_uncles(&self, hash: &H256) -> Option<Vec<H256>>;

    /// Get latest state node
    fn state_data(&self, hash: &H256) -> Option<Bytes>;

    /// Get raw block receipts data by block header hash.
    fn block_receipts(&self, hash: &H256) -> Option<Bytes>;

    /// Clear block queue and abort all import activity.
    fn clear_queue(&self);

    /// Get blockchain information.
    fn chain_info(&self) -> (r: BlockChainInfo)
        ensures
            r == self.spec_chain_info(),
    ;

    /// Get the best block header. The client must hold a header under the hash
    /// of its own best block.
    fn best_block_header(&self) -> (r: Bytes)
        requires
            self.spec_block_header(BlockID::Hash(self.spec_chain_info().best_block_hash)) is Some,
        ensures
            self.spec_block_header(BlockID::Hash(self.spec_chain_info().best_block_hash)) == Some(r),
    {
        let info = self.chain_info();
        match self.block_header(BlockID::Hash(info.best_block_hash)) {
            Some(h) => h,
            None => {
                proof {
                    assert(false);
                }
                Vec::new()
            },
        }
    }

    /// Returns numbers of blocks containing given bloom.
    fn blocks_with_bloom(&self, bloom: &H2048, from_block: BlockID, to_block: BlockID) -> Option<
        Vec<BlockNumber>,
    >;

    /// Get last hashes starting from best block.
    fn last_hashes(&self) -> Vec<H256>;

    /// Queue transactions for importing.
    fn queue_transactions(&self, transactions: Vec<Bytes>);

    /// Get the gas price distribution.
    ///
    /// Walks back from the best block through its parents, at most `sample_size`
    /// blocks, stopping at the genesis block (whose prices are not taken), and
    /// collects the gas prices of their transactions; the answer is the
    /// distribution of that corpus (see `gas_price_distribution`), or `Err(())`
    /// when no price was collected. The walk also stops at a block that the
    /// client cannot provide or that cannot be read.
    fn gas_price_statistics(&self, sample_size: usize, distribution_size: usize) -> (r: Result<
        Vec<U256>,
        (),
    >)
        requires
            spec_gas_walk(
                |id: BlockID| opt_bytes(self.spec_block(id)),
                self.spec_chain_info().best_block_hash,
                sample_size as nat,
            ).len() > 0 ==> 0 < distribution_size < usize::MAX,
        ensures
            distribution_result(r) == spec_distribution(
                words_of(
                    spec_gas_walk(
                        |id: BlockID| opt_bytes(self.spec_block(id)),
                        self.spec_chain_info().best_block_hash,
                        sample_size as nat,
                    ),
                ),
                distribution_size as nat,
            ),
            r matches Ok(v) ==> v.len() == distribution_size + 1 && ascending(v@),
    {
        let ghost blocks = |id: BlockID| opt_bytes(self.spec_block(id));
        let info = self.chain_info();
        let mut h: H256 = info.best_block_hash;
        let ghost total = spec_gas_walk(blocks, h, sample_size as nat);
        let mut corpus: Vec<U256> = Vec::new();
        let mut k: usize = 0;
        proof {
            assert(values_of(corpus@) + total =~= total);
        }
        while k < sample_size
            invariant_except_break
                k <= sample_size,
                blocks == (|id: BlockID| opt_bytes(self.spec_block(id))),
                values_of(corpus@) + spec_gas_walk(blocks, h, (sample_size - k) as nat) == total,
            ensures
                values_of(corpus@) == total,
                blocks == (|id: BlockID| opt_bytes(self.spec_block(id))),
            decreases sample_size - k,
        {
            let ghost rest = spec_gas_walk(blocks, h, (sample_size - k) as nat);
            let fetched = self.block(BlockID::Hash(h));
            proof {
                assert(blocks(BlockID::Hash(h)) == opt_bytes(fetched));
                assert(rest == match blocks(BlockID::Hash(h)) {
                    None => Seq::empty(),
                    Some(b) => match spec_walk_step(b) {
                        None => Seq::empty(),
                        Some((parent, prices)) => prices + spec_gas_walk(blocks, hash_of(parent), (sample_size - k - 1) as nat),
                    },
                });
            }
            let block = match fetched {
                Some(b) => b,
                None => {
                    proof {
                        assert(rest =~= Seq::<nat>::empty());
                        assert(values_of(corpus@) =~= values_of(corpus@) + rest);
                    }
                    break ;
                },
            };
            let step = gas_walk_step(block.as_slice());
            let (parent, prices) = match step {
                Some(x) => x,
                None => {
                    proof {
                        assert(rest =~= Seq::<nat>::empty());
                        assert(values_of(corpus@) =~= values_of(corpus@) + rest);
                    }
                    break ;
                },
            };
            proof {
                lemma_hash_of_bytes(parent);
                assert(rest == values_of(prices@) + spec_gas_walk(blocks, parent, (sample_size - k - 1) as nat));
            }
            let ghost old_corpus = corpus@;
            let mut j: usize = 0;
            while j < prices.len()
                invariant
                    j <= prices.len(),
                    corpus@ == old_corpus + prices@.subrange(0, j as int),
                decreases prices.len() - j,
            {
                corpus.push(prices[j]);
                proof {
                    assert(old_corpus + prices@.subrange(0, j + 1) =~= (old_corpus + prices@.subrange(
                        0,
                        j as int,
                    )).push(prices@[j as int]));
                }
                j = j + 1;
            }
            proof {
                assert(prices@.subrange(0, prices.len() as int) =~= prices@);
                assert(values_of(corpus@) =~= values_of(old_corpus) + values_of(prices@));
                assert(values_of(corpus@) + spec_gas_walk(blocks, parent, (sample_size - k - 1) as nat)
                    =~= values_of(old_corpus) + rest);
            }
            h = parent;
            k = k + 1;
        }
        proof {
            if k == sample_size {
                assert(values_of(corpus@) + Seq::<nat>::empty() =~= values_of(corpus@));
            }
            assert forall|i: int| 0 <= i < corpus@.len() implies corpus@[i] == #[trigger] words_of(total)[i] by {
                U256::lemma_from_nat_value(corpus@[i]);
                assert(values_of(corpus@)[i] == corpus@[i].value());
            }
            assert(corpus@ =~= words_of(total));
        }
        let r = gas_price_distribution(&corpus, distribution_size);
        proof {
            if corpus.len() > 0 {
                lemma_distribution_shape(corpus@, distribution_size as nat);
            }
        }
        r
    }

    /// Get `Some` gas limit of SOFT_FORK_BLOCK, or `None` if chain is not yet that long.
    ///
    /// When the best block is more than 1000 blocks past the soft fork, the
    /// canonical block of that number is asked for. Otherwise the header with
    /// hash `chain_hash` is read: below the soft fork there is no answer, else
    /// the walk goes back through its parents until it meets the soft-fork
    /// block, whatever the numbers on the way. The answer is `None` where a
    /// header is missing or a field that the walk reads cannot be read.
    fn dao_rescue_block_gas_limit(&self, chain_hash: H256) -> (r: Option<U256>)
        requires
            spec_dao_rescue_ends(
                self.spec_chain_info(),
                |id: BlockID| opt_bytes(self.spec_block_header(id)),
                chain_hash,
            ),
        ensures
            opt_value(r) == spec_dao_rescue(
                self.spec_chain_info(),
                |id: BlockID| opt_bytes(self.spec_block_header(id)),
                chain_hash,
            ),
    {
        let ghost headers = |id: BlockID| opt_bytes(self.spec_block_header(id));
        let info = self.chain_info();
        if info.best_block_number > SOFT_FORK_BLOCK + 1000 {
            return match self.block_header(BlockID::Number(SOFT_FORK_BLOCK)) {
                Some(bytes) => header_gas_limit(bytes.as_slice()),
                None => None,
            };
        }
        let first = match self.block_header(BlockID::Hash(chain_hash)) {
            Some(b) => b,
            None => {
                return None;
            },
        };
        let number = match header_number(first.as_slice()) {
            Some(n) => n,
            None => {
                return None;
            },
        };
        if number < SOFT_FORK_BLOCK {
            return None;
        }
        let ghost mut fuel: nat = spec_dao_fuel(headers, first@);
        let mut cur: Bytes = first;
        loop
            invariant
                headers == (|id: BlockID| opt_bytes(self.spec_block_header(id))),
                spec_dao_walk_ends(headers, cur@, fuel),
                spec_dao_walk(headers, cur@, fuel) == spec_dao_rescue(self.spec_chain_info(), headers, chain_hash),
            decreases fuel,
        {
            match dao_step(cur.as_slice()) {
                DaoStep::Done(a) => {
                    return a;
                },
                DaoStep::Parent(parent) => {
                    proof {
                        lemma_hash_of_bytes(parent);
                    }
                    let bytes = match self.block_header(BlockID::Hash(parent)) {
                        Some(b) => b,
                        None => {
                            return None;
                        },
                    };
                    proof {
                        fuel = (fuel - 1) as nat;
                    }
                    cur = bytes;
                },
            }
        }
    }
}

} // verus!
