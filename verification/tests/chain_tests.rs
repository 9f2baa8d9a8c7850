use parity_ethcore::client::{
    dao_step, gas_price_distribution, gas_walk_step, BlockChainClient, CallAnalytics, DaoStep, SOFT_FORK_BLOCK,
};
use parity_ethcore::types::{Address, BlockChainInfo, BlockID, BlockNumber, BlockStatus, Bytes, H2048, H256};
use parity_ethcore::u256::U256;
use std::collections::HashMap;

fn enc_bytes(b: &[u8]) -> Vec<u8> {
    if b.len() == 1 && b[0] < 0x80 {
        return vec![b[0]];
    }
    let mut out = Vec::new();
    if b.len() <= 55 {
        out.push(0x80 + b.len() as u8);
    } else {
        let lb = be_min(b.len() as u128);
        out.push(0xb7 + lb.len() as u8);
        out.extend_from_slice(&lb);
    }
    out.extend_from_slice(b);
    out
}

fn enc_list(items: &[Vec<u8>]) -> Vec<u8> {
    let payload: Vec<u8> = items.concat();
    let mut out = Vec::new();
    if payload.len() <= 55 {
        out.push(0xc0 + payload.len() as u8);
    } else {
        let lb = be_min(payload.len() as u128);
        out.push(0xf7 + lb.len() as u8);
        out.extend_from_slice(&lb);
    }
    out.extend_from_slice(&payload);
    out
}

fn be_min(v: u128) -> Vec<u8> {
    let bytes = v.to_be_bytes();
    let first = bytes.iter().position(|&x| x != 0).unwrap_or(16);
    bytes[first..].to_vec()
}

fn enc_uint(v: u128) -> Vec<u8> {
    enc_bytes(&be_min(v))
}

fn header(parent: [u8; 32], number: u64, gas_limit: u128) -> Vec<u8> {
    enc_list(&[
        enc_bytes(&parent),
        enc_bytes(&[0u8; 32]),
        enc_bytes(&[0u8; 20]),
        enc_bytes(&[0u8; 32]),
        enc_bytes(&[0u8; 32]),
        enc_bytes(&[0u8; 32]),
        enc_bytes(&[0u8; 256]),
        enc_uint(0x20000),
        enc_uint(number as u128),
        enc_uint(gas_limit),
        enc_uint(0),
        enc_uint(number as u128 * 10),
        enc_bytes(&[]),
        enc_bytes(&[0u8; 32]),
        enc_bytes(&[0u8; 8]),
    ])
}

/// A header whose gas limit field holds 33 bytes, more than a 256-bit word.
fn header_with_long_gas_limit(parent: [u8; 32], number: u64) -> Vec<u8> {
    enc_list(&[
        enc_bytes(&parent),
        enc_bytes(&[0u8; 32]),
        enc_bytes(&[0u8; 20]),
        enc_bytes(&[0u8; 32]),
        enc_bytes(&[0u8; 32]),
        enc_bytes(&[0u8; 32]),
        enc_bytes(&[0u8; 256]),
        enc_uint(0x20000),
        enc_uint(number as u128),
        enc_bytes(&[1u8; 33]),
        enc_uint(0),
    ])
}

fn tx(gas_price: u128) -> Vec<u8> {
    enc_list(&[
        enc_uint(0),
        enc_uint(gas_price),
        enc_uint(100000),
        enc_bytes(&[]),
        enc_uint(0),
        enc_bytes(&[]),
        enc_uint(27),
        enc_bytes(&[1u8; 32]),
        enc_bytes(&[2u8; 32]),
    ])
}

fn block(parent: [u8; 32], number: u64, gas_limit: u128, prices: &[u128]) -> Vec<u8> {
    let txs: Vec<Vec<u8>> = prices.iter().map(|&p| tx(p)).collect();
    enc_list(&[header(parent, number, gas_limit), enc_list(&txs), enc_list(&[])])
}

fn hash_of(number: u64) -> [u8; 32] {
    let mut h = [0xabu8; 32];
    h[24..].copy_from_slice(&number.to_be_bytes());
    h
}

struct FakeChain {
    blocks: HashMap<[u8; 32], Vec<u8>>,
    headers: HashMap<[u8; 32], Vec<u8>>,
    canon: HashMap<u64, Vec<u8>>,
    best_hash: [u8; 32],
    best_number: u64,
}

impl FakeChain {
    /// A chain of blocks numbered `first ..= last`; block `n` has gas limit
    /// `1000 + n` and the gas prices `prices(n)`.
    fn new(first: u64, last: u64, prices: &dyn Fn(u64) -> Vec<u128>) -> FakeChain {
        let mut c = FakeChain {
            blocks: HashMap::new(),
            headers: HashMap::new(),
            canon: HashMap::new(),
            best_hash: hash_of(last),
            best_number: last,
        };
        for n in first..=last {
            let parent = if n == 0 { [0u8; 32] } else { hash_of(n - 1) };
            let gl = 1000 + n as u128;
            c.blocks.insert(hash_of(n), block(parent, n, gl, &prices(n)));
            c.headers.insert(hash_of(n), header(parent, n, gl));
            c.canon.insert(n, header(parent, n, gl));
        }
        c
    }
}

fn key(id: &BlockID) -> Option<[u8; 32]> {
    match id {
        BlockID::Hash(h) => Some(h.0),
        _ => None,
    }
}

impl BlockChainClient for FakeChain {
    fn spec_block_header(&self, id: BlockID) -> Option<Bytes> {
        self.block_header(id)
    }
    fn spec_block(&self, id: BlockID) -> Option<Bytes> {
        self.block(id)
    }
    fn spec_nonce(&self, address: Address, id: BlockID) -> Option<U256> {
        self.nonce(&address, id)
    }
    fn spec_balance(&self, address: Address, id: BlockID) -> Option<U256> {
        self.balance(&address, id)
    }
    fn spec_storage_at(&self, address: Address, position: H256, id: BlockID) -> Option<H256> {
        self.storage_at(&address, &position, id)
    }
    fn spec_chain_info(&self) -> BlockChainInfo {
        self.chain_info()
    }
    fn block_header(&self, id: BlockID) -> Option<Bytes> {
        match id {
            BlockID::Number(n) => self.canon.get(&n).cloned(),
            _ => key(&id).and_then(|k| self.headers.get(&k).cloned()),
        }
    }
    fn block_body(&self, _id: BlockID) -> Option<Bytes> {
        None
    }
    fn block(&self, id: BlockID) -> Option<Bytes> {
        key(&id).and_then(|k| self.blocks.get(&k).cloned())
    }
    fn block_status(&self, _id: BlockID) -> BlockStatus {
        BlockStatus::Unknown
    }
    fn block_total_difficulty(&self, _id: BlockID) -> Option<U256> {
        None
    }
    fn nonce(&self, _address: &Address, id: BlockID) -> Option<U256> {
        match id {
            BlockID::Latest => Some(U256::from_u64(7)),
            _ => None,
        }
    }
    fn block_hash(&self, _id: BlockID) -> Option<H256> {
        None
    }
    fn code(&self, _address: &Address) -> Option<Bytes> {
        None
    }
    fn balance(&self, _address: &Address, id: BlockID) -> Option<U256> {
        match id {
            BlockID::Latest => Some(U256::from_u64(1_000_000)),
            _ => None,
        }
    }
    fn storage_at(&self, _address: &Address, position: &H256, id: BlockID) -> Option<H256> {
        match id {
            BlockID::Latest => Some(*position),
            _ => None,
        }
    }
    fn find_uncles(&self, _hash: &H256) -> Option<Vec<H256>> {
        None
    }
    fn state_data(&self, _hash: &H256) -> Option<Bytes> {
        None
    }
    fn block_receipts(&self, _hash: &H256) -> Option<Bytes> {
        None
    }
    fn clear_queue(&self) {}
    fn chain_info(&self) -> BlockChainInfo {
        BlockChainInfo {
            total_difficulty: U256::zero(),
            pending_total_difficulty: U256::zero(),
            genesis_hash: H256(hash_of(0)),
            best_block_hash: H256(self.best_hash),
            best_block_number: self.best_number,
        }
    }
    fn blocks_with_bloom(&self, _bloom: &H2048, _from: BlockID, _to: BlockID) -> Option<Vec<BlockNumber>> {
        None
    }
    fn last_hashes(&self) -> Vec<H256> {
        vec![H256(self.best_hash)]
    }
    fn queue_transactions(&self, _transactions: Vec<Bytes>) {}
}

fn words(v: &[u64]) -> Vec<U256> {
    v.iter().map(|&x| U256::from_u64(x)).collect()
}

#[test]
fn distribution_of_five_prices_into_two_parts() {
    let r = gas_price_distribution(&words(&[5, 1, 3, 2, 4]), 2);
    assert_eq!(r, Ok(words(&[1, 3, 5])));
}

#[test]
fn distribution_samples_at_i_times_n_minus_one_over_d() {
    // n = 4, d = 3: positions 0, 1, 2, 3 of the sorted corpus
    let r = gas_price_distribution(&words(&[40, 10, 30, 20]), 3);
    assert_eq!(r, Ok(words(&[10, 20, 30, 40])));
    // n = 3, d = 4: positions 0*2/4=0, 2/4=0, 4/4=1, 6/4=1, 8/4=2
    let r = gas_price_distribution(&words(&[9, 7, 8]), 4);
    assert_eq!(r, Ok(words(&[7, 7, 8, 8, 9])));
}

#[test]
fn distribution_of_empty_corpus_is_err() {
    assert_eq!(gas_price_distribution(&Vec::new(), 5), Err(()));
}

#[test]
fn distribution_is_ascending_with_least_first_and_greatest_last() {
    let corpus = words(&[13, 2, 99, 2, 57, 41, 8]);
    let r = gas_price_distribution(&corpus, 6).unwrap();
    assert_eq!(r.len(), 7);
    for w in r.windows(2) {
        assert!(w[0].le(&w[1]));
    }
    assert_eq!(r[0], U256::from_u64(2));
    assert_eq!(r[6], U256::from_u64(99));
}

#[test]
fn distribution_of_large_words() {
    let big = U256 { hi: 1, lo: 0 };
    let small = U256 { hi: 0, lo: u128::MAX };
    let r = gas_price_distribution(&vec![big, small], 1).unwrap();
    assert_eq!(r, vec![small, big]);
}

#[test]
fn gas_price_statistics_over_whole_chain() {
    // blocks 1..=3 hold prices n*10 and n*10+1; genesis is never sampled
    let chain = FakeChain::new(0, 3, &|n| if n == 0 { vec![999] } else { vec![n as u128 * 10, n as u128 * 10 + 1] });
    let r = chain.gas_price_statistics(10, 5);
    // sorted corpus: 10 11 20 21 30 31; positions i*5/5 = i
    assert_eq!(r, Ok(words(&[10, 11, 20, 21, 30, 31])));
}

#[test]
fn gas_price_statistics_respects_sample_size() {
    let chain = FakeChain::new(0, 5, &|n| vec![n as u128]);
    // only blocks 5 and 4 are sampled
    let r = chain.gas_price_statistics(2, 1);
    assert_eq!(r, Ok(words(&[4, 5])));
}

#[test]
fn gas_price_statistics_without_transactions_is_err() {
    let chain = FakeChain::new(0, 4, &|_| vec![]);
    assert_eq!(chain.gas_price_statistics(10, 3), Err(()));
    let genesis_only = FakeChain::new(0, 0, &|_| vec![5]);
    assert_eq!(genesis_only.gas_price_statistics(10, 3), Err(()));
}

#[test]
fn gas_price_statistics_zero_sample_size_is_err() {
    let chain = FakeChain::new(0, 3, &|n| vec![n as u128]);
    assert_eq!(chain.gas_price_statistics(0, 3), Err(()));
}

#[test]
fn gas_price_statistics_stops_where_blocks_are_missing() {
    // blocks 0 and 1 are absent: the walk ends after block 2
    let chain = FakeChain::new(2, 4, &|n| vec![n as u128 * 100]);
    assert_eq!(chain.gas_price_statistics(10, 2), Ok(words(&[200, 300, 400])));
}

/// A chain given from the best block back as (number, gas prices); block hashes
/// are derived from the numbers.
fn chain_of(blocks: &[(u64, Vec<u128>)]) -> FakeChain {
    let mut c = FakeChain {
        blocks: HashMap::new(),
        headers: HashMap::new(),
        canon: HashMap::new(),
        best_hash: hash_of(blocks[0].0),
        best_number: blocks[0].0,
    };
    for (n, prices) in blocks {
        let parent = if *n == 0 { [0u8; 32] } else { hash_of(n - 1) };
        c.blocks.insert(hash_of(*n), block(parent, *n, 1000, prices));
        c.headers.insert(hash_of(*n), header(parent, *n, 1000));
    }
    c
}

#[test]
fn gas_price_statistics_three_block_chain() {
    let c = chain_of(&[(2, vec![30, 10]), (1, vec![20]), (0, vec![5])]);
    assert_eq!(c.gas_price_statistics(3, 2), Ok(words(&[10, 20, 30])));
}

#[test]
fn gas_price_statistics_repeats_samples() {
    let c = chain_of(&[(1, vec![3, 1, 2]), (0, vec![])]);
    assert_eq!(c.gas_price_statistics(10, 4), Ok(words(&[1, 1, 2, 2, 3])));
}

#[test]
fn gas_price_statistics_samples_best_block_only() {
    let c = chain_of(&[(2, vec![7]), (1, vec![9]), (0, vec![])]);
    assert_eq!(c.gas_price_statistics(1, 1), Ok(words(&[7, 7])));
}

#[test]
fn gas_price_statistics_genesis_best_block_is_err() {
    let c = chain_of(&[(0, vec![4, 8])]);
    assert_eq!(c.gas_price_statistics(5, 3), Err(()));
}

#[test]
fn gas_price_statistics_zero_distribution_size_without_prices_is_err() {
    let c = chain_of(&[(1, vec![]), (0, vec![4])]);
    assert_eq!(c.gas_price_statistics(5, 0), Err(()));
}

#[test]
fn gas_price_statistics_same_prices_split_differently() {
    let c1 = chain_of(&[(2, vec![5, 1]), (1, vec![3]), (0, vec![])]);
    let c2 = chain_of(&[(2, vec![3]), (1, vec![1, 5]), (0, vec![])]);
    assert_eq!(c1.gas_price_statistics(5, 2), c2.gas_price_statistics(5, 2));
    assert_eq!(c1.gas_price_statistics(5, 2), Ok(words(&[1, 3, 5])));
}

#[test]
fn gas_walk_step_reads_parent_and_prices() {
    let b = block(hash_of(6), 7, 5000, &[3, 1, 2]);
    match gas_walk_step(&b) {
        Some((parent, prices)) => {
            assert_eq!(parent, H256(hash_of(6)));
            assert_eq!(prices, words(&[3, 1, 2]));
        },
        None => panic!("block should be read"),
    }
}

#[test]
fn gas_walk_step_stops_at_genesis_and_garbage() {
    assert!(gas_walk_step(&block([0u8; 32], 0, 5000, &[3])).is_none());
    assert!(gas_walk_step(&[0xc3, 0x01]).is_none());
    assert!(gas_walk_step(&[]).is_none());
}

#[test]
fn dao_step_decisions() {
    match dao_step(&header(hash_of(1), SOFT_FORK_BLOCK - 1, 77)) {
        DaoStep::Parent(p) => assert_eq!(p, H256(hash_of(1))),
        other => panic!("unexpected {:?}", other),
    }
    match dao_step(&header(hash_of(1), SOFT_FORK_BLOCK, 77)) {
        DaoStep::Done(Some(g)) => assert_eq!(g, U256::from_u64(77)),
        other => panic!("unexpected {:?}", other),
    }
    match dao_step(&header(hash_of(9), SOFT_FORK_BLOCK + 3, 77)) {
        DaoStep::Parent(p) => assert_eq!(p, H256(hash_of(9))),
        other => panic!("unexpected {:?}", other),
    }
    match dao_step(&[0x80]) {
        DaoStep::Done(None) => {},
        other => panic!("unexpected {:?}", other),
    }
}

#[test]
fn dao_step_reads_only_the_fields_it_needs() {
    // a gas limit too long to read does not stop a block other than the soft-fork block
    match dao_step(&header_with_long_gas_limit(hash_of(4), SOFT_FORK_BLOCK + 1)) {
        DaoStep::Parent(p) => assert_eq!(p, H256(hash_of(4))),
        other => panic!("unexpected {:?}", other),
    }
    match dao_step(&header_with_long_gas_limit(hash_of(4), SOFT_FORK_BLOCK)) {
        DaoStep::Done(None) => {},
        other => panic!("unexpected {:?}", other),
    }
}

#[test]
fn dao_rescue_follows_parents_whatever_their_numbers() {
    let mut chain = FakeChain::new(0, 0, &|_| vec![]);
    let a = [0x0au8; 32];
    let b = [0x0bu8; 32];
    let c = [0x0cu8; 32];
    let d = [0x0du8; 32];
    chain.headers.insert(a, header(b, SOFT_FORK_BLOCK + 2, 1));
    chain.headers.insert(b, header_with_long_gas_limit(c, SOFT_FORK_BLOCK + 5));
    chain.headers.insert(c, header(d, SOFT_FORK_BLOCK - 1, 2));
    chain.headers.insert(d, header(hash_of(0), SOFT_FORK_BLOCK, 4321));
    assert_eq!(chain.dao_rescue_block_gas_limit(H256(a)), Some(U256::from_u64(4321)));
    // the walk starts only at or above the soft-fork block
    assert_eq!(chain.dao_rescue_block_gas_limit(H256(c)), None);
}

#[test]
fn dao_rescue_with_unreadable_soft_fork_gas_limit_is_none() {
    let mut chain = FakeChain::new(0, 0, &|_| vec![]);
    chain.headers.insert([0x0au8; 32], header([0x0bu8; 32], SOFT_FORK_BLOCK + 1, 1));
    chain.headers.insert([0x0bu8; 32], header_with_long_gas_limit(hash_of(0), SOFT_FORK_BLOCK));
    assert_eq!(chain.dao_rescue_block_gas_limit(H256([0x0au8; 32])), None);
}

#[test]
fn gas_walk_step_reads_only_number_and_parent_of_the_header() {
    let b = enc_list(&[header_with_long_gas_limit(hash_of(2), 3), enc_list(&[tx(9), tx(4)]), enc_list(&[])]);
    match gas_walk_step(&b) {
        Some((parent, prices)) => {
            assert_eq!(parent, H256(hash_of(2)));
            assert_eq!(prices, words(&[9, 4]));
        },
        None => panic!("block should be read"),
    }
    // the genesis block's transactions are not read
    let g = enc_list(&[header([0u8; 32], 0, 5), enc_bytes(&[1, 2, 3])]);
    assert!(gas_walk_step(&g).is_none());
}

#[test]
fn dao_rescue_walks_back_to_soft_fork_block() {
    let chain = FakeChain::new(SOFT_FORK_BLOCK - 2, SOFT_FORK_BLOCK + 5, &|_| vec![]);
    let r = chain.dao_rescue_block_gas_limit(H256(hash_of(SOFT_FORK_BLOCK + 5)));
    assert_eq!(r, Some(U256::from_u64(1000 + SOFT_FORK_BLOCK)));
    let r = chain.dao_rescue_block_gas_limit(H256(hash_of(SOFT_FORK_BLOCK)));
    assert_eq!(r, Some(U256::from_u64(1000 + SOFT_FORK_BLOCK)));
}

#[test]
fn dao_rescue_before_soft_fork_is_none() {
    let chain = FakeChain::new(SOFT_FORK_BLOCK - 5, SOFT_FORK_BLOCK + 5, &|_| vec![]);
    assert_eq!(chain.dao_rescue_block_gas_limit(H256(hash_of(SOFT_FORK_BLOCK - 1))), None);
    assert_eq!(chain.dao_rescue_block_gas_limit(H256([0x11u8; 32])), None);
}

#[test]
fn dao_rescue_uses_canonical_block_when_chain_is_long() {
    let mut chain = FakeChain::new(SOFT_FORK_BLOCK, SOFT_FORK_BLOCK + 1001, &|_| vec![]);
    // the canonical soft-fork header says gas limit 4242; the hash walk would say otherwise
    chain.canon.insert(SOFT_FORK_BLOCK, header(hash_of(0), SOFT_FORK_BLOCK, 4242));
    assert_eq!(chain.dao_rescue_block_gas_limit(H256([0x11u8; 32])), Some(U256::from_u64(4242)));
    chain.canon.remove(&SOFT_FORK_BLOCK);
    assert_eq!(chain.dao_rescue_block_gas_limit(H256([0x11u8; 32])), None);
}

#[test]
fn dao_rescue_with_missing_parent_is_none() {
    let chain = FakeChain::new(SOFT_FORK_BLOCK + 2, SOFT_FORK_BLOCK + 4, &|_| vec![]);
    assert_eq!(chain.dao_rescue_block_gas_limit(H256(hash_of(SOFT_FORK_BLOCK + 4))), None);
}

#[test]
fn latest_queries_answer_from_latest_state() {
    let chain = FakeChain::new(0, 1, &|_| vec![]);
    let a = Address([3u8; 20]);
    assert_eq!(chain.latest_nonce(&a), U256::from_u64(7));
    assert_eq!(chain.latest_balance(&a), U256::from_u64(1_000_000));
    assert_eq!(chain.latest_storage_at(&a, &H256([9u8; 32])), H256([9u8; 32]));
}

#[test]
fn best_block_header_is_header_of_best_hash() {
    let chain = FakeChain::new(0, 3, &|_| vec![]);
    assert_eq!(chain.best_block_header(), header(hash_of(2), 3, 1003));
}

#[test]
fn call_analytics_default_is_all_off() {
    let c = CallAnalytics::default();
    assert!(!c.transaction_tracing && !c.vm_tracing && !c.state_diffing);
    assert_eq!(c, CallAnalytics { transaction_tracing: false, vm_tracing: false, state_diffing: false });
}

use parity_ethcore::rlp::{rlp_header, rlp_list, rlp_string};
use parity_ethcore::views::{decode_block, decode_header, tx_gas_price};

#[test]
fn rlp_single_byte_is_its_own_string() {
    assert_eq!(rlp_string(&[0x7f]), Some(vec![0x7f]));
    assert_eq!(rlp_header(&[0x05], 0, 1), Some((false, 0, 1)));
}

#[test]
fn rlp_short_and_long_strings() {
    assert_eq!(rlp_string(&[0x83, b'd', b'o', b'g']), Some(b"dog".to_vec()));
    assert_eq!(rlp_string(&[0x80]), Some(vec![]));
    let long = vec![7u8; 60];
    let enc = enc_bytes(&long);
    assert_eq!(enc[0], 0xb8);
    assert_eq!(rlp_string(&enc), Some(long));
}

#[test]
fn rlp_lists() {
    // ["cat", "dog"]
    let enc = [0xc8, 0x83, b'c', b'a', b't', 0x83, b'd', b'o', b'g'];
    assert_eq!(rlp_list(&enc), Some(vec![vec![0x83, b'c', b'a', b't'], vec![0x83, b'd', b'o', b'g']]));
    assert_eq!(rlp_list(&[0xc0]), Some(vec![]));
    // a string is no list, and a list is no string
    assert_eq!(rlp_list(&[0x83, b'd', b'o', b'g']), None);
    assert_eq!(rlp_string(&enc), None);
}

#[test]
fn rlp_refuses_truncated_and_zero_prefixed_items() {
    assert_eq!(rlp_string(&[0x83, b'd', b'o']), None);
    assert_eq!(rlp_list(&[0xc2, 0x01]), None);
    assert_eq!(rlp_string(&[]), None);
    // long form whose length starts with a zero byte
    let mut enc = vec![0xb9, 0x00, 0x38];
    enc.extend_from_slice(&[1u8; 56]);
    assert_eq!(rlp_string(&enc), None);
    // list payload that does not split into whole items
    assert_eq!(rlp_list(&[0xc2, 0x82, 0x01]), None);
}

#[test]
fn rlp_long_list() {
    let items: Vec<Vec<u8>> = (0..30u8).map(|i| enc_bytes(&[0x80 + i, 1])).collect();
    let enc = enc_list(&items);
    assert_eq!(enc[0], 0xf8);
    assert_eq!(rlp_list(&enc), Some(items));
}

#[test]
fn rlp_header_of_inner_range() {
    let enc = [0xff, 0x82, 0x01, 0x02, 0xff];
    assert_eq!(rlp_header(&enc, 1, 4), Some((false, 1, 2)));
    assert_eq!(rlp_header(&enc, 1, 3), None);
}

#[test]
fn decode_header_fields() {
    let h = decode_header(&header(hash_of(41), 42, 0x1234_5678_9abc)).unwrap();
    assert_eq!(h.parent_hash, H256(hash_of(41)));
    assert_eq!(h.number, 42);
    assert_eq!(h.gas_limit, U256::from_u64(0x1234_5678_9abc));
}

#[test]
fn decode_header_refuses_short_lists_and_bad_fields() {
    assert!(decode_header(&enc_list(&[enc_bytes(&[1u8; 32])])).is_none());
    // parent hash of 31 bytes
    let mut fields: Vec<Vec<u8>> = (0..15).map(|_| enc_uint(1)).collect();
    fields[0] = enc_bytes(&[1u8; 31]);
    assert!(decode_header(&enc_list(&fields)).is_none());
    fields[0] = enc_bytes(&[1u8; 32]);
    assert!(decode_header(&enc_list(&fields)).is_some());
    // a number of nine bytes
    fields[8] = enc_bytes(&[1u8; 9]);
    assert!(decode_header(&enc_list(&fields)).is_none());
}

#[test]
fn tx_gas_price_reads_field_one() {
    assert_eq!(tx_gas_price(&tx(20_000_000_000)), Some(U256::from_u64(20_000_000_000)));
    assert_eq!(tx_gas_price(&tx(0)), Some(U256::zero()));
    assert_eq!(tx_gas_price(&enc_list(&[enc_uint(1)])), None);
    assert_eq!(tx_gas_price(&enc_list(&[enc_uint(1), enc_bytes(&[1u8; 33])])), None);
}

#[test]
fn decode_block_reads_header_and_prices() {
    let b = block(hash_of(2), 3, 777, &[5, 6]);
    let (h, prices) = decode_block(&b).unwrap();
    assert_eq!(h.number, 3);
    assert_eq!(h.gas_limit, U256::from_u64(777));
    assert_eq!(prices, words(&[5, 6]));
    // a transaction that cannot be read spoils the block
    let bad = enc_list(&[header(hash_of(2), 3, 777), enc_list(&[tx(5), enc_uint(3)]), enc_list(&[])]);
    assert!(decode_block(&bad).is_none());
}
