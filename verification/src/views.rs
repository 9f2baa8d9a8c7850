//! Reading headers, blocks and transactions out of their RLP encodings.
//!
//! A header is a list whose field 0 is the parent hash (32 bytes), field 8 the
//! block number (at most 8 bytes) and field 9 the gas limit (at most 32 bytes).
//! A block is a list whose item 0 is the header and item 1 the list of
//! transactions; a transaction is a list whose field 1 is the gas price (at
//! most 32 bytes). Numbers are big-endian.

use vstd::prelude::*;
use crate::rlp::{rlp_at, rlp_list, rlp_string, spec_rlp_at, spec_rlp_list, spec_rlp_string, views_of};
use crate::types::{BlockNumber, H256};
use crate::u256::{be_nat, lemma_be_nat_bound, lemma_pow256_8, U256};

verus! {

/// The header fields that the client logic reads.
#[derive(Clone, Copy, Debug)]
pub struct Header {
    /// Hash of the parent block.
    pub parent_hash: H256,
    /// Number of the block.
    pub number: BlockNumber,
    /// Gas limit of the block.
    pub gas_limit: U256,
}

/// The fields of a header as plain values: parent hash bytes, number, gas limit.
pub type HeaderModel = (Seq<u8>, nat, nat);

/// The bytes of the string that is field `i` of the list encoding `s`; the
/// fields after it are not read.
pub open spec fn spec_field(s: Seq<u8>, i: nat) -> Option<Seq<u8>> {
    match spec_rlp_at(s, i) {
        Some(item) => spec_rlp_string(item),
        None => None,
    }
}

/// The parent hash that the header encoding `h` holds.
pub open spec fn spec_header_parent_hash(h: Seq<u8>) -> Option<Seq<u8>> {
    match spec_field(h, 0) {
        Some(p) => if p.len() == 32 {
            Some(p)
        } else {
            None
        },
        None => None,
    }
}

/// The block number that the header encoding `h` holds.
pub open spec fn spec_header_number(h: Seq<u8>) -> Option<nat> {
    match spec_field(h, 8) {
        Some(n) => if n.len() <= 8 {
            Some(be_nat(n))
        } else {
            None
        },
        None => None,
    }
}

/// The gas limit that the header encoding `h` holds.
pub open spec fn spec_header_gas_limit(h: Seq<u8>) -> Option<nat> {
    match spec_field(h, 9) {
        Some(g) => if g.len() <= 32 {
            Some(be_nat(g))
        } else {
            None
        },
        None => None,
    }
}

/// The parent hash, number and gas limit that the header encoding `h` holds.
pub open spec fn spec_decode_header(h: Seq<u8>) -> Option<HeaderModel> {
    match (spec_header_parent_hash(h), spec_header_number(h), spec_header_gas_limit(h)) {
        (Some(p), Some(n), Some(g)) => Some((p, n, g)),
        _ => None,
    }
}

/// Whether the header `h` holds the fields `m`.
pub open spec fn header_is(h: Header, m: HeaderModel) -> bool {
    &&& h.parent_hash.0@ == m.0
    &&& h.number as nat == m.1
    &&& h.gas_limit.value() == m.2
}

/// The gas price that the transaction encoding `t` holds.
pub open spec fn spec_tx_gas_price(t: Seq<u8>) -> Option<nat> {
    match spec_field(t, 1) {
        Some(g) => if g.len() <= 32 {
            Some(be_nat(g))
        } else {
            None
        },
        None => None,
    }
}

/// The gas prices of the transaction encodings `txs`, in order.
pub open spec fn spec_gas_prices(txs: Seq<Seq<u8>>) -> Option<Seq<nat>>
    decreases txs.len(),
{
    if txs.len() == 0 {
        Some(Seq::empty())
    } else {
        match (spec_gas_prices(txs.drop_last()), spec_tx_gas_price(txs.last())) {
            (Some(ps), Some(p)) => Some(ps.push(p)),
            _ => None,
        }
    }
}

/// The gas prices of the transactions of the block encoding `b`, in order.
pub open spec fn spec_block_gas_prices(b: Seq<u8>) -> Option<Seq<nat>> {
    match spec_rlp_at(b, 1) {
        Some(l) => match spec_rlp_list(l) {
            Some(txs) => spec_gas_prices(txs),
            None => None,
        },
        None => None,
    }
}

/// The header fields and the transaction gas prices that the block encoding `b` holds.
pub open spec fn spec_decode_block(b: Seq<u8>) -> Option<(HeaderModel, Seq<nat>)> {
    match spec_rlp_at(b, 0) {
        None => None,
        Some(h) => match (spec_decode_header(h), spec_block_gas_prices(b)) {
            (Some(m), Some(ps)) => Some((m, ps)),
            _ => None,
        },
    }
}

/// The 64-bit number that a big-endian string of at most 8 bytes denotes.
fn be_u64(b: &[u8]) -> (r: u64)
    requires
        b.len() <= 8,
    ensures
        r as nat == be_nat(b@),
{
    proof {
        lemma_be_nat_bound(b@);
        crate::u256::lemma_pow256_monotonic(b@.len(), 8);
        lemma_pow256_8();
        assert(b@.subrange(0, b@.len() as int) =~= b@);
    }
    let v: u128 = crate::u256::be_u128(b, 0, b.len());
    v as u64
}

/// Reads the string that is field `i` of an encoded list.
fn field(s: &[u8], i: usize) -> (r: Option<Vec<u8>>)
    ensures
        match r {
            None => spec_field(s@, i as nat) is None,
            Some(v) => spec_field(s@, i as nat) == Some(v@),
        },
{
    match rlp_at(s, i) {
        None => None,
        Some(item) => rlp_string(item.as_slice()),
    }
}

/// Reads the parent hash of an encoded header.
pub fn header_parent_hash(h: &[u8]) -> (r: Option<H256>)
    ensures
        match r {
            None => spec_header_parent_hash(h@) is None,
            Some(p) => spec_header_parent_hash(h@) == Some(p.0@),
        },
{
    match field(h, 0) {
        None => None,
        Some(p) => if p.len() == 32 {
            Some(H256::from_slice(p.as_slice()))
        } else {
            None
        },
    }
}

/// Reads the block number of an encoded header.
pub fn header_number(h: &[u8]) -> (r: Option<BlockNumber>)
    ensures
        match r {
            None => spec_header_number(h@) is None,
            Some(n) => spec_header_number(h@) == Some(n as nat),
        },
{
    match field(h, 8) {
        None => None,
        Some(n) => if n.len() <= 8 {
            Some(be_u64(n.as_slice()))
        } else {
            None
        },
    }
}

/// Reads the gas limit of an encoded header.
pub fn header_gas_limit(h: &[u8]) -> (r: Option<U256>)
    ensures
        match r {
            None => spec_header_gas_limit(h@) is None,
            Some(g) => spec_header_gas_limit(h@) == Some(g.value()),
        },
{
    match field(h, 9) {
        None => None,
        Some(g) => if g.len() <= 32 {
            Some(U256::from_big_endian(g.as_slice()))
        } else {
            None
        },
    }
}

/// Reads the parent hash, number and gas limit of an encoded header.
pub fn decode_header(h: &[u8]) -> (r: Option<Header>)
    ensures
        match r {
            None => spec_decode_header(h@) is None,
            Some(hd) => spec_decode_header(h@) matches Some(m) && header_is(hd, m),
        },
{
    let parent_hash = match header_parent_hash(h) {
        None => return None,
        Some(p) => p,
    };
    let number = match header_number(h) {
        None => return None,
        Some(n) => n,
    };
    let gas_limit = match header_gas_limit(h) {
        None => return None,
        Some(g) => g,
    };
    Some(Header { parent_hash, number, gas_limit })
}

/// Reads the gas price of an encoded transaction.
pub fn tx_gas_price(t: &[u8]) -> (r: Option<U256>)
    ensures
        match r {
            None => spec_tx_gas_price(t@) is None,
            Some(v) => spec_tx_gas_price(t@) == Some(v.value()),
        },
{
    match field(t, 1) {
        None => None,
        Some(g) => if g.len() <= 32 {
            Some(U256::from_big_endian(g.as_slice()))
        } else {
            None
        },
    }
}

/// Reads the gas prices of encoded transactions, in order.
pub fn gas_prices_of(txs: &Vec<Vec<u8>>) -> (r: Option<Vec<U256>>)
    ensures
        match r {
            None => spec_gas_prices(views_of(txs@)) is None,
            Some(ps) => spec_gas_prices(views_of(txs@)) matches Some(prices) && ps.len()
                == prices.len() && forall|i: int|
                0 <= i < ps.len() ==> #[trigger] ps[i].value() == prices[i],
        },
{
    let ghost tv = views_of(txs@);
    let mut prices: Vec<U256> = Vec::new();
    let mut i: usize = 0;
    proof {
        assert(tv.subrange(0, 0) =~= Seq::<Seq<u8>>::empty());
    }
    while i < txs.len()
        invariant
            0 <= i <= txs.len(),
            tv == views_of(txs@),
            spec_gas_prices(tv.subrange(0, i as int)) matches Some(ps) && ps.len() == i
                && forall|j: int| 0 <= j < i ==> #[trigger] prices[j].value() == ps[j],
            prices.len() == i,
        decreases txs.len() - i,
    {
        let p = tx_gas_price(txs[i].as_slice());
        proof {
            assert(tv.subrange(0, i + 1).drop_last() =~= tv.subrange(0, i as int));
            assert(tv.subrange(0, i + 1).last() == txs[i as int]@);
        }
        match p {
            None => {
                proof {
                    lemma_gas_prices_none_extends(tv, i + 1);
                }
                return None;
            },
            Some(v) => {
                prices.push(v);
            },
        }
        i = i + 1;
    }
    proof {
        assert(tv.subrange(0, txs.len() as int) =~= tv);
    }
    Some(prices)
}

/// Reads the gas prices of the transactions of an encoded block, in order.
pub fn block_gas_prices(b: &[u8]) -> (r: Option<Vec<U256>>)
    ensures
        match r {
            None => spec_block_gas_prices(b@) is None,
            Some(ps) => spec_block_gas_prices(b@) matches Some(prices) && ps.len() == prices.len()
                && forall|i: int| 0 <= i < ps.len() ==> #[trigger] ps[i].value() == prices[i],
        },
{
    let l = match rlp_at(b, 1) {
        None => return None,
        Some(v) => v,
    };
    let txs = match rlp_list(l.as_slice()) {
        None => return None,
        Some(v) => v,
    };
    gas_prices_of(&txs)
}

/// Reads the header fields and the transaction gas prices of an encoded block.
pub fn decode_block(b: &[u8]) -> (r: Option<(Header, Vec<U256>)>)
    ensures
        match r {
            None => spec_decode_block(b@) is None,
            Some((hd, ps)) => spec_decode_block(b@) matches Some((m, prices)) && header_is(hd, m)
                && ps.len() == prices.len() && forall|i: int|
                0 <= i < ps.len() ==> #[trigger] ps[i].value() == prices[i],
        },
{
    let h = match rlp_at(b, 0) {
        None => return None,
        Some(v) => v,
    };
    let header = match decode_header(h.as_slice()) {
        None => return None,
        Some(hd) => hd,
    };
    let prices = match block_gas_prices(b) {
        None => return None,
        Some(ps) => ps,
    };
    Some((header, prices))
}

/// The gas prices of a list of transaction encodings are one price per
/// transaction, in the list's order, repeats kept: they can be read exactly when
/// each transaction's price can, and then the i-th is the i-th transaction's.
pub proof fn lemma_gas_prices_one_per_transaction(txs: Seq<Seq<u8>>)
    ensures
        spec_gas_prices(txs) is Some <==> forall|i: int| 0 <= i < txs.len() ==> spec_tx_gas_price(#[trigger] txs[i]) is Some,
        spec_gas_prices(txs) is Some ==> spec_gas_prices(txs).unwrap() == Seq::new(
            txs.len(),
            |i: int| spec_tx_gas_price(txs[i]).unwrap(),
        ),
    decreases txs.len(),
{
    if txs.len() > 0 {
        let t = txs.drop_last();
        lemma_gas_prices_one_per_transaction(t);
        assert forall|i: int| 0 <= i < t.len() implies #[trigger] t[i] == txs[i] by {}
        if spec_gas_prices(txs) is Some {
            assert(spec_gas_prices(t) is Some);
            assert(spec_tx_gas_price(txs.last()) is Some);
            assert forall|i: int| 0 <= i < txs.len() implies spec_tx_gas_price(#[trigger] txs[i]) is Some by {
                if i < t.len() {
                    assert(spec_tx_gas_price(t[i]) is Some);
                }
            }
            assert(spec_gas_prices(txs).unwrap() =~= Seq::new(
                txs.len(),
                |i: int| spec_tx_gas_price(txs[i]).unwrap(),
            ));
        } else {
            if forall|i: int| 0 <= i < txs.len() ==> spec_tx_gas_price(#[trigger] txs[i]) is Some {
                assert forall|i: int| 0 <= i < t.len() implies spec_tx_gas_price(#[trigger] t[i]) is Some by {
                    assert(spec_tx_gas_price(txs[i]) is Some);
                }
                assert(spec_tx_gas_price(txs[txs.len() - 1]) is Some);
                assert(false);
            }
        }
    }
}

/// A block's gas prices are those of the transactions in its transaction list:
/// one per transaction, in order, repeats kept, none for an empty list. They can
/// be read exactly when each transaction's price can.
pub proof fn lemma_block_gas_prices_one_per_transaction(block: Seq<u8>, txs: Seq<Seq<u8>>)
    requires
        spec_rlp_at(block, 1) matches Some(l) && spec_rlp_list(l) == Some(txs),
    ensures
        spec_block_gas_prices(block) is Some <==> forall|i: int|
            0 <= i < txs.len() ==> spec_tx_gas_price(#[trigger] txs[i]) is Some,
        spec_block_gas_prices(block) is Some ==> spec_block_gas_prices(block).unwrap().len() == txs.len(),
        spec_block_gas_prices(block) is Some ==> spec_block_gas_prices(block).unwrap() == Seq::new(
            txs.len(),
            |i: int| spec_tx_gas_price(txs[i]).unwrap(),
        ),
{
    lemma_gas_prices_one_per_transaction(txs);
}

/// Once a prefix of the transactions cannot be read, neither can the whole list.
proof fn lemma_gas_prices_none_extends(txs: Seq<Seq<u8>>, k: int)
    requires
        0 < k <= txs.len(),
        spec_gas_prices(txs.subrange(0, k)) is None,
    ensures
        spec_gas_prices(txs) is None,
    decreases txs.len() - k,
{
    if k < txs.len() {
        assert(txs.subrange(0, k + 1).drop_last() =~= txs.subrange(0, k));
        lemma_gas_prices_none_extends(txs, k + 1);
    } else {
        assert(txs.subrange(0, k) =~= txs);
    }
}

} // verus!
